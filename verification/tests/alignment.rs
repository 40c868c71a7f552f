use hl::fmtx::{aligned_left, centered, Counter, Push};

#[test]
fn left_alignment_pads_to_width() {
    let mut out = Vec::new();
    aligned_left(&mut out, 6, b' ', b"abc");
    assert_eq!(out, b"abc   ");
}

#[test]
fn center_alignment_rounds_left_pad_down() {
    let mut out = Vec::new();
    centered(&mut out, 7, b' ', b"---");
    assert_eq!(out, b"  ---  ");
}

#[test]
fn long_content_is_clipped() {
    let mut out = Vec::new();
    aligned_left(&mut out, 2, b'.', b"abcdef");
    assert_eq!(out, b"ab");
}

#[test]
fn counter_counts_bytes() {
    let mut c = Counter::new();
    c.push(1);
    c.extend_from_slice(&[2, 3, 4]);
    assert_eq!(c.result(), 4);
}

#[test]
fn error_messages() {
    assert_eq!(hl::error::Error::InvalidIndexHeader.message(), "invalid index header");
    assert_eq!(hl::error::Error::ZeroSize.message(), "zero size");
}
