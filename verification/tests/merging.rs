use hl::merge::{merge_blocks, MergeLine, OutputBlock};

fn line(sec: i64, tag: &str) -> MergeLine {
    MergeLine { ts: (sec, 0), bytes: format!("{}{}\n", tag, sec).into_bytes() }
}

#[test]
fn sort_merge_two_files() {
    // file A carries timestamps 3, 1, 5 (chronologically 1, 3, 5);
    // file B carries 2 and 4; the merge interleaves them by timestamp
    let a = OutputBlock { file_id: 0, ordinal: 0, lines: vec![line(1, "A"), line(3, "A"), line(5, "A")] };
    let b = OutputBlock { file_id: 1, ordinal: 1, lines: vec![line(2, "B"), line(4, "B")] };
    let blocks = vec![a, b];
    let mut out = Vec::new();
    merge_blocks(&blocks, &mut out);
    assert_eq!(String::from_utf8(out).unwrap(), "A1\nB2\nA3\nB4\nA5\n");
}

#[test]
fn equal_timestamps_keep_file_order() {
    let a = OutputBlock { file_id: 0, ordinal: 0, lines: vec![line(7, "A")] };
    let b = OutputBlock { file_id: 1, ordinal: 1, lines: vec![line(7, "B")] };
    let blocks = vec![a, b];
    let mut out = Vec::new();
    merge_blocks(&blocks, &mut out);
    assert_eq!(String::from_utf8(out).unwrap(), "A7\nB7\n");
}
