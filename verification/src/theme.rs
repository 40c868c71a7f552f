//! Themes: per-level style packs mapping semantic elements to pre-rendered
//! escape sequences, and the styler that emits them only on change.

use vstd::prelude::*;

verus! {

use std::sync::Arc;
use crate::eseq::Sequence;
use crate::model::Level;

/// A semantic element of formatted output.
#[derive(Clone, Copy, Debug, PartialEq, Eq, Structural)]
pub enum Element {
    Time,
    Level,
    Logger,
    Caller,
    Message,
    FieldKey,
    EqualSign,
    Brace,
    Quote,
    Delimiter,
    Comma,
    AtSign,
    Ellipsis,
    Number,
    String,
    Boolean,
    Null,
    Whitespace,
}

pub const ELEMENT_COUNT: usize = 18;

impl Element {
    /// A distinct slot number per element.
    pub open spec fn slot_spec(self) -> usize {
        match self {
            Element::Time => 0,
            Element::Level => 1,
            Element::Logger => 2,
            Element::Caller => 3,
            Element::Message => 4,
            Element::FieldKey => 5,
            Element::EqualSign => 6,
            Element::Brace => 7,
            Element::Quote => 8,
            Element::Delimiter => 9,
            Element::Comma => 10,
            Element::AtSign => 11,
            Element::Ellipsis => 12,
            Element::Number => 13,
            Element::String => 14,
            Element::Boolean => 15,
            Element::Null => 16,
            Element::Whitespace => 17,
        }
    }

    #[verifier::when_used_as_spec(slot_spec)]
    pub fn slot(self) -> (r: usize)
        ensures
            r == self.slot_spec(),
            r < ELEMENT_COUNT,
    {
        match self {
            Element::Time => 0,
            Element::Level => 1,
            Element::Logger => 2,
            Element::Caller => 3,
            Element::Message => 4,
            Element::FieldKey => 5,
            Element::EqualSign => 6,
            Element::Brace => 7,
            Element::Quote => 8,
            Element::Delimiter => 9,
            Element::Comma => 10,
            Element::AtSign => 11,
            Element::Ellipsis => 12,
            Element::Number => 13,
            Element::String => 14,
            Element::Boolean => 15,
            Element::Null => 16,
            Element::Whitespace => 17,
        }
    }
}

/// A style: one pre-rendered escape sequence.
#[derive(Debug, Clone)]
pub struct Style {
    pub seq: Sequence,
}

impl Style {
    /// Writes the style's bytes.
    pub fn apply(&self, buf: &mut Vec<u8>)
        ensures
            final(buf)@ == old(buf)@ + self.seq.data_spec(),
    {
        let d = self.seq.data();
        buf.extend_from_slice(d);
    }

    /// The full-reset style.
    pub fn reset() -> (r: Self)
        ensures
            r.seq.data_spec() == seq![27u8, 91u8, 109u8],
    {
        Style { seq: Sequence::reset() }
    }
}

fn style_eq(a: &Style, b: &Style) -> (r: bool)
    ensures
        r == (a.seq.data_spec() == b.seq.data_spec()),
{
    crate::model::bytes_eq(a.seq.data(), b.seq.data())
}

/// The element-to-style table of one styling context: a slot per element,
/// a shared pool of distinct styles, and an optional reset entry.
#[derive(Debug)]
pub struct StylePack {
    pub elements: Vec<Option<usize>>,
    pub reset: Option<usize>,
    pub styles: Vec<Style>,
}

impl StylePack {
    /// Every slot points into the style pool.
    pub open spec fn wf(&self) -> bool {
        &&& self.elements@.len() == ELEMENT_COUNT
        &&& forall|i: int|
            0 <= i < self.elements@.len() ==> ((#[trigger] self.elements@[i]) matches Some(s)
                ==> s < self.styles@.len())
        &&& (self.reset matches Some(s) ==> s < self.styles@.len())
    }

    /// An empty pack: no element is styled.
    pub fn none() -> (r: Self)
        ensures
            r.wf(),
            forall|i: int| 0 <= i < ELEMENT_COUNT ==> (#[trigger] r.elements@[i]) is None,
            r.reset is None,
            r.styles@.len() == 0,
    {
        let mut elements: Vec<Option<usize>> = Vec::new();
        let mut i: usize = 0;
        while i < 18
            invariant
                i <= 18,
                elements@.len() == i,
                forall|j: int| 0 <= j < i ==> (#[trigger] elements@[j]) is None,
            decreases 18 - i,
        {
            elements.push(None);
            i = i + 1;
        }
        StylePack { elements, reset: None, styles: Vec::new() }
    }

    /// Maps an element to a style, sharing pool entries between identical
    /// styles.
    pub fn add(&mut self, element: Element, style: Style)
        requires
            old(self).wf(),
        ensures
            final(self).wf(),
            final(self).elements@[element.slot_spec() as int] matches Some(s) && s
                < final(self).styles@.len() && final(self).styles@[s as int].seq.data_spec()
                == style.seq.data_spec(),
    {
        let n = self.styles.len();
        let mut pos: usize = n;
        let mut i: usize = 0;
        while i < n
            invariant_except_break
                i <= n,
                n == self.styles@.len(),
                pos == n,
            ensures
                pos == n || (pos < n && self.styles@[pos as int].seq.data_spec()
                    == style.seq.data_spec()),
            decreases n - i,
        {
            if style_eq(&self.styles[i], &style) {
                pos = i;
                break;
            }
            i = i + 1;
        }
        if pos == n {
            self.styles.push(style);
        }
        self.elements.set(element.slot(), Some(pos));
    }

    /// The style slot of an element.
    pub fn lookup(&self, element: Element) -> (r: Option<usize>)
        requires
            self.wf(),
        ensures
            r == self.elements@[element.slot_spec() as int],
            r matches Some(s) ==> s < self.styles@.len(),
    {
        self.elements[element.slot()]
    }
}

/// A theme: one style pack per level, plus a default pack.
#[derive(Debug)]
pub struct Theme {
    pub debug: StylePack,
    pub info: StylePack,
    pub warning: StylePack,
    pub error: StylePack,
    pub default: StylePack,
}

impl Theme {
    pub open spec fn wf(&self) -> bool {
        self.debug.wf() && self.info.wf() && self.warning.wf() && self.error.wf()
            && self.default.wf()
    }

    /// Whether no element of any pack is styled.
    pub open spec fn is_plain(&self) -> bool {
        &&& forall|i: int| 0 <= i < ELEMENT_COUNT ==> (#[trigger] self.debug.elements@[i]) is None
        &&& forall|i: int| 0 <= i < ELEMENT_COUNT ==> (#[trigger] self.info.elements@[i]) is None
        &&& forall|i: int|
            0 <= i < ELEMENT_COUNT ==> (#[trigger] self.warning.elements@[i]) is None
        &&& forall|i: int| 0 <= i < ELEMENT_COUNT ==> (#[trigger] self.error.elements@[i]) is None
        &&& forall|i: int|
            0 <= i < ELEMENT_COUNT ==> (#[trigger] self.default.elements@[i]) is None
    }

    /// The colorless theme.
    pub fn none() -> (r: Self)
        ensures
            r.wf(),
            r.is_plain(),
    {
        Theme {
            debug: StylePack::none(),
            info: StylePack::none(),
            warning: StylePack::none(),
            error: StylePack::none(),
            default: StylePack::none(),
        }
    }

    pub open spec fn pack_spec(&self, level: Option<Level>) -> &StylePack {
        match level {
            Some(Level::Debug) => &self.debug,
            Some(Level::Info) => &self.info,
            Some(Level::Warning) => &self.warning,
            Some(Level::Error) => &self.error,
            None => &self.default,
        }
    }

    /// Selects the style pack for a record's level.
    pub fn apply(&self, level: &Option<Level>) -> (r: &StylePack)
        ensures
            r == self.pack_spec(*level),
    {
        match level {
            Some(Level::Debug) => &self.debug,
            Some(Level::Info) => &self.info,
            Some(Level::Warning) => &self.warning,
            Some(Level::Error) => &self.error,
            None => &self.default,
        }
    }
}

/// The bytes a styler emits when moving from style `synced` to `current`:
/// nothing when they are equal, the target style's sequence when one is set,
/// and the pack's reset entry when falling back to no style.
pub open spec fn sync_bytes(
    pack: &StylePack,
    synced: Option<usize>,
    current: Option<usize>,
) -> Seq<u8> {
    if synced == current {
        Seq::empty()
    } else {
        match current {
            Some(s) => pack.styles@[s as int].seq.data_spec(),
            None => match pack.reset {
                Some(s) => pack.styles@[s as int].seq.data_spec(),
                None => Seq::empty(),
            },
        }
    }
}

/// Emits styles on element boundaries, only when the style changes.
pub struct Styler<'a> {
    pub pack: &'a StylePack,
    pub synced: Option<usize>,
    pub current: Option<usize>,
}

impl<'a> Styler<'a> {
    pub open spec fn wf(&self) -> bool {
        &&& self.pack.wf()
        &&& (self.synced matches Some(s) ==> s < self.pack.styles@.len())
        &&& (self.current matches Some(s) ==> s < self.pack.styles@.len())
    }

    pub fn new(pack: &'a StylePack) -> (r: Self)
        requires
            pack.wf(),
        ensures
            r.wf(),
            r.pack == pack,
            r.synced is None && r.current is None,
    {
        Styler { pack, synced: None, current: None }
    }

    /// Enters an element: its style becomes current; the previous current
    /// style is returned so the caller can restore it.
    pub fn element_begin(&mut self, element: Element) -> (saved: Option<usize>)
        requires
            old(self).wf(),
        ensures
            final(self).wf(),
            final(self).pack == old(self).pack,
            final(self).synced == old(self).synced,
            saved == old(self).current,
            final(self).current == (match old(self).pack.elements@[element.slot_spec() as int] {
                Some(s) => Some(s),
                None => old(self).current,
            }),
    {
        let saved = self.current;
        match self.pack.lookup(element) {
            Some(s) => {
                self.current = Some(s);
            },
            None => (),
        }
        saved
    }

    /// Leaves an element, restoring the saved style.
    pub fn element_end(&mut self, saved: Option<usize>)
        requires
            old(self).wf(),
            saved matches Some(s) ==> s < old(self).pack.styles@.len(),
        ensures
            final(self).wf(),
            final(self).pack == old(self).pack,
            final(self).synced == old(self).synced,
            final(self).current == saved,
    {
        self.current = saved;
    }

    /// Writes bytes, first emitting the current style if it is not the one
    /// last emitted; an unchanged style emits nothing.
    pub fn batch(&mut self, out: &mut Vec<u8>, data: &[u8])
        requires
            old(self).wf(),
        ensures
            final(self).wf(),
            final(self).pack == old(self).pack,
            final(self).current == old(self).current,
            final(self).synced == old(self).current,
            final(out)@ == old(out)@ + sync_bytes(
                old(self).pack,
                old(self).synced,
                old(self).current,
            ) + data@,
    {
        let ghost pre = out@;
        if !opt_usize_eq(self.synced, self.current) {
            match self.current {
                Some(s) => {
                    self.pack.styles[s].apply(out);
                },
                None => match self.pack.reset {
                    Some(s) => {
                        self.pack.styles[s].apply(out);
                    },
                    None => {
                        proof {
                            assert(out@ =~= pre + Seq::<u8>::empty());
                        }
                    },
                },
            }
            self.synced = self.current;
        } else {
            proof {
                assert(out@ =~= pre + Seq::<u8>::empty());
            }
        }
        out.extend_from_slice(data);
    }
}

fn opt_usize_eq(a: Option<usize>, b: Option<usize>) -> (r: bool)
    ensures
        r == (a == b),
{
    match (a, b) {
        (Option::None, Option::None) => true,
        (Option::Some(x), Option::Some(y)) => x == y,
        _ => false,
    }
}

} // verus!
