//! Byte-output helpers: counting, padding and alignment of fixed-width fields.

use vstd::prelude::*;

verus! {

/// A byte sink. `contents` is the mathematical model of everything pushed so far.
pub trait Push: Sized {
    spec fn contents(&self) -> Seq<u8>;

    spec fn wf(&self) -> bool;

    fn push(&mut self, value: u8)
        requires
            old(self).wf(),
            old(self).contents().len() < usize::MAX,
        ensures
            final(self).wf(),
            final(self).contents() == old(self).contents().push(value),
    ;

    fn extend_from_slice(&mut self, values: &[u8])
        requires
            old(self).wf(),
            old(self).contents().len() + values@.len() <= usize::MAX,
        ensures
            final(self).wf(),
            final(self).contents() == old(self).contents() + values@,
    ;
}

impl Push for Vec<u8> {
    open spec fn contents(&self) -> Seq<u8> {
        self@
    }

    open spec fn wf(&self) -> bool {
        true
    }

    fn push(&mut self, value: u8) {
        Vec::push(self, value);
    }

    fn extend_from_slice(&mut self, values: &[u8]) {
        Vec::extend_from_slice(self, values);
    }
}

/// Counts pushed bytes without storing them.
pub struct Counter {
    value: usize,
    data: Ghost<Seq<u8>>,
}

impl Counter {
    pub fn new() -> (r: Self)
        ensures
            r.wf(),
            r.contents() == Seq::<u8>::empty(),
    {
        Self { value: 0, data: Ghost(Seq::empty()) }
    }

    /// The number of bytes pushed so far.
    pub fn result(&self) -> (r: usize)
        requires
            self.wf(),
        ensures
            r == self.contents().len(),
    {
        self.value
    }
}

impl Push for Counter {
    closed spec fn contents(&self) -> Seq<u8> {
        self.data@
    }

    closed spec fn wf(&self) -> bool {
        self.value == self.data@.len()
    }

    fn push(&mut self, value: u8) {
        self.value = self.value + 1;
        proof {
            self.data@ = self.data@.push(value);
        }
    }

    fn extend_from_slice(&mut self, values: &[u8]) {
        self.value = self.value + values.len();
        proof {
            self.data@ = self.data@ + values@;
        }
    }
}

} // verus!

verus! {

/// How content sits inside a fixed-width field.
#[derive(Copy, Clone, Debug, PartialEq, Eq, Structural)]
pub enum Alignment {
    Left,
    Right,
    Center,
}

/// A pad value and a field width.
#[derive(Copy, Clone, Debug, PartialEq, Eq, Structural)]
pub struct Padding<T> {
    pub pad: T,
    pub width: usize,
}

impl<T> Padding<T> {
    pub fn new(pad: T, width: usize) -> (r: Self)
        ensures
            r.pad == pad && r.width == width,
    {
        Self { pad, width }
    }
}

/// An alignment together with its padding.
#[derive(Copy, Clone, Debug, PartialEq, Eq, Structural)]
pub struct Adjustment<T> {
    pub alignment: Alignment,
    pub padding: Padding<T>,
}

impl<T> Adjustment<T> {
    pub fn new(alignment: Alignment, padding: Padding<T>) -> (r: Self)
        ensures
            r.alignment == alignment && r.padding == padding,
    {
        Self { alignment, padding }
    }
}

/// `n` copies of the pad byte; empty when `n` is not positive.
pub open spec fn pad_seq(pad: u8, n: int) -> Seq<u8> {
    if n <= 0 {
        Seq::empty()
    } else {
        Seq::new(n as nat, |i: int| pad)
    }
}

/// Content clipped to the field width.
pub open spec fn clipped(content: Seq<u8>, width: int) -> Seq<u8> {
    if content.len() > width {
        content.take(width)
    } else {
        content
    }
}

/// A field of exactly `width` bytes with the content at the left.
pub open spec fn aligned_left_spec(content: Seq<u8>, width: int, pad: u8) -> Seq<u8> {
    clipped(content, width) + pad_seq(pad, width - clipped(content, width).len())
}

/// A field of exactly `width` bytes with the content at the right.
pub open spec fn aligned_right_spec(content: Seq<u8>, width: int, pad: u8) -> Seq<u8> {
    pad_seq(pad, width - clipped(content, width).len()) + clipped(content, width)
}

/// A field of exactly `width` bytes with the content centered, rounding the
/// leftover padding down on the left.
pub open spec fn aligned_center_spec(content: Seq<u8>, width: int, pad: u8) -> Seq<u8> {
    let c = clipped(content, width);
    let space = width - c.len();
    pad_seq(pad, space / 2) + c + pad_seq(pad, space - space / 2)
}

fn push_pad(out: &mut Vec<u8>, pad: u8, n: usize)
    ensures
        final(out)@ == old(out)@ + pad_seq(pad, n as int),
{
    let mut i: usize = 0;
    proof {
        assert(out@ + pad_seq(pad, 0) =~= out@);
    }
    while i < n
        invariant
            i <= n,
            out@ == old(out)@ + pad_seq(pad, i as int),
        decreases n - i,
    {
        out.push(pad);
        proof {
            assert(out@ =~= old(out)@ + pad_seq(pad, i + 1));
        }
        i = i + 1;
    }
}

/// An aligner that stages up to `width` bytes and emits them as one exactly
/// `width`-byte field when finished.
pub struct BufferedAligner {
    pub padding: Padding<u8>,
    pub alignment: Alignment,
    pub buf: Vec<u8>,
}

impl BufferedAligner {
    /// The staged content never exceeds the field width.
    pub open spec fn wf(&self) -> bool {
        self.buf@.len() <= self.padding.width
    }

    pub fn new(padding: Padding<u8>, alignment: Alignment) -> (r: Self)
        ensures
            r.padding == padding && r.alignment == alignment && r.buf@.len() == 0,
            r.wf(),
    {
        Self { padding, alignment, buf: Vec::new() }
    }

    /// Stages one byte; bytes beyond the field width are dropped.
    pub fn push(&mut self, value: u8)
        requires
            old(self).wf(),
        ensures
            final(self).wf(),
            final(self).padding == old(self).padding && final(self).alignment == old(
                self,
            ).alignment,
            final(self).buf@ == clipped(old(self).buf@.push(value), old(self).padding.width as int),
    {
        if self.buf.len() < self.padding.width {
            self.buf.push(value);
            proof {
                assert(clipped(self.buf@, self.padding.width as int) =~= self.buf@);
            }
        } else {
            proof {
                assert(clipped(old(self).buf@.push(value), self.padding.width as int)
                    =~= self.buf@);
            }
        }
    }

    /// Stages bytes; bytes beyond the field width are dropped.
    pub fn extend_from_slice(&mut self, values: &[u8])
        requires
            old(self).wf(),
        ensures
            final(self).wf(),
            final(self).padding == old(self).padding && final(self).alignment == old(
                self,
            ).alignment,
            final(self).buf@ == clipped(
                old(self).buf@ + values@,
                old(self).padding.width as int,
            ),
    {
        let mut i: usize = 0;
        let n = values.len();
        proof {
            assert(old(self).buf@ + values@.take(0) =~= old(self).buf@);
            assert(clipped(old(self).buf@, self.padding.width as int) == self.buf@ || true);
        }
        while i < n
            invariant
                i <= n,
                n == values@.len(),
                self.padding == old(self).padding,
                self.alignment == old(self).alignment,
                self.buf@ == clipped(
                    old(self).buf@ + values@.take(i as int),
                    old(self).padding.width as int,
                ),
            decreases n - i,
        {
            let ghost pre = self.buf@;
            if self.buf.len() < self.padding.width {
                self.buf.push(values[i]);
            }
            proof {
                assert(old(self).buf@ + values@.take(i + 1) =~= (old(self).buf@ + values@.take(
                    i as int,
                )).push(values@[i as int]));
                assert(self.buf@ =~= clipped(
                    old(self).buf@ + values@.take(i + 1),
                    self.padding.width as int,
                ));
            }
            i = i + 1;
        }
        proof {
            assert(values@.take(n as int) =~= values@);
        }
    }

    /// Emits the staged content as one aligned field.
    pub fn finish(self, out: &mut Vec<u8>)
        requires
            self.wf(),
        ensures
            final(out)@ == old(out)@ + (match self.alignment {
                Alignment::Left => aligned_left_spec(
                    self.buf@,
                    self.padding.width as int,
                    self.padding.pad,
                ),
                Alignment::Right => aligned_right_spec(
                    self.buf@,
                    self.padding.width as int,
                    self.padding.pad,
                ),
                Alignment::Center => aligned_center_spec(
                    self.buf@,
                    self.padding.width as int,
                    self.padding.pad,
                ),
            }),
    {
        proof {
            assert(clipped(self.buf@, self.padding.width as int) =~= self.buf@);
        }
        let space = self.padding.width - self.buf.len();
        match self.alignment {
            Alignment::Left => {
                out.extend_from_slice(self.buf.as_slice());
                push_pad(out, self.padding.pad, space);
                proof {
                    assert(out@ =~= old(out)@ + aligned_left_spec(
                        self.buf@,
                        self.padding.width as int,
                        self.padding.pad,
                    ));
                }
            },
            Alignment::Right => {
                push_pad(out, self.padding.pad, space);
                out.extend_from_slice(self.buf.as_slice());
                proof {
                    assert(out@ =~= old(out)@ + aligned_right_spec(
                        self.buf@,
                        self.padding.width as int,
                        self.padding.pad,
                    ));
                }
            },
            Alignment::Center => {
                push_pad(out, self.padding.pad, space / 2);
                out.extend_from_slice(self.buf.as_slice());
                push_pad(out, self.padding.pad, space - space / 2);
                proof {
                    assert(out@ =~= old(out)@ + aligned_center_spec(
                        self.buf@,
                        self.padding.width as int,
                        self.padding.pad,
                    ));
                }
            },
        }
    }
}

/// The left-aligning case of the buffered aligner, usable without staging
/// cost in spirit; here it shares the staging implementation.
pub struct UnbufferedAligner {
    pub inner: BufferedAligner,
}

impl UnbufferedAligner {
    pub open spec fn wf(&self) -> bool {
        self.inner.wf()
    }

    pub fn new(padding: Padding<u8>) -> (r: Self)
        ensures
            r.inner.padding == padding && r.inner.alignment == Alignment::Left
                && r.inner.buf@.len() == 0,
            r.wf(),
    {
        Self { inner: BufferedAligner::new(padding, Alignment::Left) }
    }

    pub fn push(&mut self, value: u8)
        requires
            old(self).wf(),
        ensures
            final(self).wf(),
            final(self).inner.padding == old(self).inner.padding && final(self).inner.alignment
                == old(self).inner.alignment,
            final(self).inner.buf@ == clipped(
                old(self).inner.buf@.push(value),
                old(self).inner.padding.width as int,
            ),
    {
        self.inner.push(value);
    }

    pub fn extend_from_slice(&mut self, values: &[u8])
        requires
            old(self).wf(),
        ensures
            final(self).wf(),
            final(self).inner.padding == old(self).inner.padding && final(self).inner.alignment
                == old(self).inner.alignment,
            final(self).inner.buf@ == clipped(
                old(self).inner.buf@ + values@,
                old(self).inner.padding.width as int,
            ),
    {
        self.inner.extend_from_slice(values);
    }

    pub fn finish(self, out: &mut Vec<u8>)
        requires
            self.wf(),
            self.inner.alignment == Alignment::Left,
        ensures
            final(out)@ == old(out)@ + aligned_left_spec(
                self.inner.buf@,
                self.inner.padding.width as int,
                self.inner.padding.pad,
            ),
    {
        self.inner.finish(out);
    }
}

/// An aligner that passes bytes through unchanged.
pub struct DisabledAligner {
    pub buf: Vec<u8>,
}

impl DisabledAligner {
    pub fn new() -> (r: Self)
        ensures
            r.buf@.len() == 0,
    {
        Self { buf: Vec::new() }
    }

    pub fn push(&mut self, value: u8)
        ensures
            final(self).buf@ == old(self).buf@.push(value),
    {
        self.buf.push(value);
    }

    pub fn extend_from_slice(&mut self, values: &[u8])
        ensures
            final(self).buf@ == old(self).buf@ + values@,
    {
        self.buf.extend_from_slice(values);
    }

    pub fn finish(self, out: &mut Vec<u8>)
        ensures
            final(out)@ == old(out)@ + self.buf@,
    {
        out.extend_from_slice(self.buf.as_slice());
    }
}

/// An aligner chosen by an optional adjustment: none means pass-through.
pub enum Aligner {
    Disabled(DisabledAligner),
    Unbuffered(UnbufferedAligner),
    Buffered(BufferedAligner),
}

impl Aligner {
    pub fn new(adjustment: Option<Adjustment<u8>>) -> (r: Self)
        ensures
            match adjustment {
                Some(a) => match a.alignment {
                    Alignment::Left => r matches Aligner::Unbuffered(u) && u.inner.padding
                        == a.padding && u.inner.buf@.len() == 0 && u.inner.alignment
                        == Alignment::Left,
                    _ => r matches Aligner::Buffered(b) && b.padding == a.padding && b.alignment
                        == a.alignment && b.buf@.len() == 0,
                },
                None => r matches Aligner::Disabled(d) && d.buf@.len() == 0,
            },
    {
        match adjustment {
            Some(a) => match a.alignment {
                Alignment::Left => Aligner::Unbuffered(UnbufferedAligner::new(a.padding)),
                _ => Aligner::Buffered(BufferedAligner::new(a.padding, a.alignment)),
            },
            None => Aligner::Disabled(DisabledAligner::new()),
        }
    }
}

/// Writes `content` into a field of exactly `width` bytes, left-aligned.
pub fn aligned_left(out: &mut Vec<u8>, width: usize, pad: u8, content: &[u8])
    ensures
        final(out)@ == old(out)@ + aligned_left_spec(content@, width as int, pad),
{
    let mut a = UnbufferedAligner::new(Padding::new(pad, width));
    a.extend_from_slice(content);
    proof {
        assert(Seq::<u8>::empty() + content@ =~= content@);
        assert(clipped(clipped(content@, width as int), width as int) =~= clipped(
            content@,
            width as int,
        ));
        assert(aligned_left_spec(clipped(content@, width as int), width as int, pad)
            =~= aligned_left_spec(content@, width as int, pad));
    }
    a.finish(out);
}

/// Writes `content` into a field of exactly `width` bytes, centered.
pub fn centered(out: &mut Vec<u8>, width: usize, pad: u8, content: &[u8])
    ensures
        final(out)@ == old(out)@ + aligned_center_spec(content@, width as int, pad),
{
    let mut a = BufferedAligner::new(Padding::new(pad, width), Alignment::Center);
    a.extend_from_slice(content);
    proof {
        assert(Seq::<u8>::empty() + content@ =~= content@);
        assert(clipped(clipped(content@, width as int), width as int) =~= clipped(
            content@,
            width as int,
        ));
        assert(aligned_center_spec(clipped(content@, width as int), width as int, pad)
            =~= aligned_center_spec(content@, width as int, pad));
    }
    a.finish(out);
}

/// Writes `content` into an aligned field, or unchanged without adjustment.
pub fn aligned(out: &mut Vec<u8>, adjustment: Option<Adjustment<u8>>, content: &[u8])
    ensures
        final(out)@ == old(out)@ + (match adjustment {
            Some(a) => match a.alignment {
                Alignment::Left => aligned_left_spec(content@, a.padding.width as int, a.padding.pad),
                Alignment::Right => aligned_right_spec(
                    content@,
                    a.padding.width as int,
                    a.padding.pad,
                ),
                Alignment::Center => aligned_center_spec(
                    content@,
                    a.padding.width as int,
                    a.padding.pad,
                ),
            },
            None => content@,
        }),
{
    match adjustment {
        Some(a) => {
            let mut al = BufferedAligner::new(a.padding, a.alignment);
            al.extend_from_slice(content);
            proof {
                assert(Seq::<u8>::empty() + content@ =~= content@);
                let w = a.padding.width as int;
                assert(clipped(clipped(content@, w), w) =~= clipped(content@, w));
                assert(aligned_left_spec(clipped(content@, w), w, a.padding.pad)
                    =~= aligned_left_spec(content@, w, a.padding.pad));
                assert(aligned_right_spec(clipped(content@, w), w, a.padding.pad)
                    =~= aligned_right_spec(content@, w, a.padding.pad));
                assert(aligned_center_spec(clipped(content@, w), w, a.padding.pad)
                    =~= aligned_center_spec(content@, w, a.padding.pad));
            }
            al.finish(out);
        },
        None => {
            out.extend_from_slice(content);
        },
    }
}

} // verus!
