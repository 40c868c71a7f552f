//! ANSI SGR escape-sequence building blocks: styling flags, command codes,
//! colors, and the rendering of command groups into `ESC [ ... m` byte form.

use vstd::prelude::*;

verus! {

// Styling flag bits.
pub const BOLD: u16 = 1;
pub const FAINT: u16 = 2;
pub const ITALIC: u16 = 4;
pub const UNDERLINED: u16 = 8;
pub const SLOW_BLINK: u16 = 16;
pub const RAPID_BLINK: u16 = 32;
pub const REVERSED: u16 = 64;
pub const CONCEALED: u16 = 128;
pub const CROSSED_OUT: u16 = 256;
pub const DOUBLY_UNDERLINED: u16 = 512;
pub const FRAMED: u16 = 1024;
pub const ENCIRCLED: u16 = 2048;
pub const OVERLINED: u16 = 4096;
pub const SUPERSCRIPT: u16 = 8192;
pub const SUBSCRIPT: u16 = 16384;

/// A set of styling flags, one bit per flag.
#[derive(Clone, Copy, Debug, PartialEq, Eq, Structural)]
pub struct Flags {
    pub bits: u16,
}

impl Flags {
    pub fn none() -> (r: Flags)
        ensures
            r.bits == 0,
    {
        Flags { bits: 0 }
    }

    pub fn of(bits: u16) -> (r: Flags)
        ensures
            r.bits == bits,
    {
        Flags { bits }
    }

    pub fn union(self, other: Flags) -> (r: Flags)
        ensures
            r.bits == self.bits | other.bits,
    {
        Flags { bits: self.bits | other.bits }
    }

    pub fn intersection(self, other: Flags) -> (r: Flags)
        ensures
            r.bits == self.bits & other.bits,
    {
        Flags { bits: self.bits & other.bits }
    }

    pub fn toggle(self, other: Flags) -> (r: Flags)
        ensures
            r.bits == self.bits ^ other.bits,
    {
        Flags { bits: self.bits ^ other.bits }
    }

    pub fn unset(self, other: Flags) -> (r: Flags)
        ensures
            r.bits == self.bits & !other.bits,
    {
        Flags { bits: self.bits & !other.bits }
    }

    pub fn contains(self, other: Flags) -> (r: bool)
        ensures
            r == (self.bits & other.bits == other.bits),
    {
        self.bits & other.bits == other.bits
    }

    pub fn intersects(self, other: Flags) -> (r: bool)
        ensures
            r == (self.bits & other.bits != 0),
    {
        self.bits & other.bits != 0
    }
}

/// Which styling channels a byte write actually uses.
#[derive(Clone, Copy, Debug, PartialEq, Eq, Structural)]
pub struct Annotations {
    pub uses_foreground: bool,
    pub uses_background: bool,
}

impl Annotations {
    pub open spec fn all_spec() -> Annotations {
        Annotations { uses_foreground: true, uses_background: true }
    }

    #[verifier::when_used_as_spec(all_spec)]
    pub fn all() -> (r: Annotations)
        ensures
            r.uses_foreground && r.uses_background,
    {
        Annotations { uses_foreground: true, uses_background: true }
    }

    pub fn foreground_only() -> (r: Annotations)
        ensures
            r.uses_foreground && !r.uses_background,
    {
        Annotations { uses_foreground: true, uses_background: false }
    }

    pub open spec fn intersects_spec(self, other: Annotations) -> bool {
        (self.uses_foreground && other.uses_foreground) || (self.uses_background
            && other.uses_background)
    }

    pub fn intersects(self, other: Annotations) -> (r: bool)
        ensures
            r == self.intersects_spec(other),
    {
        (self.uses_foreground && other.uses_foreground) || (self.uses_background
            && other.uses_background)
    }
}

/// Numeric SGR command codes.
#[derive(Clone, Copy, Debug, PartialEq, Eq, Structural)]
pub enum CommandCode {
    SetBold,
    SetFaint,
    SetItalic,
    SetUnderlined,
    SetSlowBlink,
    SetRapidBlink,
    SetReversed,
    SetConcealed,
    SetCrossedOut,
    SetDoublyUnderlined,
    ResetBoldAndFaint,
    ResetItalic,
    ResetAllUnderlines,
    ResetAllBlinks,
    ResetReversed,
    ResetConcealed,
    ResetCrossedOut,
    SetFirstForegroundColor,
    ResetForegroundColor,
    SetFirstBackgroundColor,
    ResetBackgroundColor,
    SetFramed,
    SetEncircled,
    SetOverlined,
    ResetFramedAndEncircled,
    ResetOverlined,
    SetUnderlineColor,
    ResetUnderlineColor,
    SetSuperscript,
    SetSubscript,
    ResetSuperscriptAndSubscript,
    SetFirstBrightForegroundColor,
    SetFirstBrightBackgroundColor,
}

impl CommandCode {
    /// The numeric value of this code on the wire.
    pub open spec fn code_spec(self) -> u8 {
        match self {
            CommandCode::SetBold => 1,
            CommandCode::SetFaint => 2,
            CommandCode::SetItalic => 3,
            CommandCode::SetUnderlined => 4,
            CommandCode::SetSlowBlink => 5,
            CommandCode::SetRapidBlink => 6,
            CommandCode::SetReversed => 7,
            CommandCode::SetConcealed => 8,
            CommandCode::SetCrossedOut => 9,
            CommandCode::SetDoublyUnderlined => 21,
            CommandCode::ResetBoldAndFaint => 22,
            CommandCode::ResetItalic => 23,
            CommandCode::ResetAllUnderlines => 24,
            CommandCode::ResetAllBlinks => 25,
            CommandCode::ResetReversed => 27,
            CommandCode::ResetConcealed => 28,
            CommandCode::ResetCrossedOut => 29,
            CommandCode::SetFirstForegroundColor => 30,
            CommandCode::ResetForegroundColor => 39,
            CommandCode::SetFirstBackgroundColor => 40,
            CommandCode::ResetBackgroundColor => 49,
            CommandCode::SetFramed => 51,
            CommandCode::SetEncircled => 52,
            CommandCode::SetOverlined => 53,
            CommandCode::ResetFramedAndEncircled => 54,
            CommandCode::ResetOverlined => 55,
            CommandCode::SetUnderlineColor => 58,
            CommandCode::ResetUnderlineColor => 59,
            CommandCode::SetSuperscript => 73,
            CommandCode::SetSubscript => 74,
            CommandCode::ResetSuperscriptAndSubscript => 75,
            CommandCode::SetFirstBrightForegroundColor => 90,
            CommandCode::SetFirstBrightBackgroundColor => 100,
        }
    }

    #[verifier::when_used_as_spec(code_spec)]
    pub fn code(self) -> (r: u8)
        ensures
            r == self.code_spec(),
    {
        match self {
            CommandCode::SetBold => 1,
            CommandCode::SetFaint => 2,
            CommandCode::SetItalic => 3,
            CommandCode::SetUnderlined => 4,
            CommandCode::SetSlowBlink => 5,
            CommandCode::SetRapidBlink => 6,
            CommandCode::SetReversed => 7,
            CommandCode::SetConcealed => 8,
            CommandCode::SetCrossedOut => 9,
            CommandCode::SetDoublyUnderlined => 21,
            CommandCode::ResetBoldAndFaint => 22,
            CommandCode::ResetItalic => 23,
            CommandCode::ResetAllUnderlines => 24,
            CommandCode::ResetAllBlinks => 25,
            CommandCode::ResetReversed => 27,
            CommandCode::ResetConcealed => 28,
            CommandCode::ResetCrossedOut => 29,
            CommandCode::SetFirstForegroundColor => 30,
            CommandCode::ResetForegroundColor => 39,
            CommandCode::SetFirstBackgroundColor => 40,
            CommandCode::ResetBackgroundColor => 49,
            CommandCode::SetFramed => 51,
            CommandCode::SetEncircled => 52,
            CommandCode::SetOverlined => 53,
            CommandCode::ResetFramedAndEncircled => 54,
            CommandCode::ResetOverlined => 55,
            CommandCode::SetUnderlineColor => 58,
            CommandCode::ResetUnderlineColor => 59,
            CommandCode::SetSuperscript => 73,
            CommandCode::SetSubscript => 74,
            CommandCode::ResetSuperscriptAndSubscript => 75,
            CommandCode::SetFirstBrightForegroundColor => 90,
            CommandCode::SetFirstBrightBackgroundColor => 100,
        }
    }
}

/// Basic eight-color palette.
#[derive(Clone, Copy, Debug, PartialEq, Eq, Structural)]
pub enum BasicColor {
    Black,
    Red,
    Green,
    Yellow,
    Blue,
    Magenta,
    Cyan,
    White,
}

impl BasicColor {
    pub open spec fn code_spec(self) -> u8 {
        match self {
            BasicColor::Black => 0,
            BasicColor::Red => 1,
            BasicColor::Green => 2,
            BasicColor::Yellow => 3,
            BasicColor::Blue => 4,
            BasicColor::Magenta => 5,
            BasicColor::Cyan => 6,
            BasicColor::White => 7,
        }
    }

    #[verifier::when_used_as_spec(code_spec)]
    pub fn code(self) -> (r: u8)
        ensures
            r == self.code_spec(),
    {
        match self {
            BasicColor::Black => 0,
            BasicColor::Red => 1,
            BasicColor::Green => 2,
            BasicColor::Yellow => 3,
            BasicColor::Blue => 4,
            BasicColor::Magenta => 5,
            BasicColor::Cyan => 6,
            BasicColor::White => 7,
        }
    }

    pub fn bright(self) -> (r: PlainColor)
        ensures
            r == (PlainColor { color: self, brightness: Brightness::Bright }),
    {
        PlainColor { color: self, brightness: Brightness::Bright }
    }

    pub fn fg(self) -> (r: (Instruction, Instruction))
        ensures
            r == Color::Plain(self, Brightness::Normal).fg_pair(),
    {
        Color::Plain(self, Brightness::Normal).fg()
    }

    pub fn bg(self) -> (r: (Instruction, Instruction))
        ensures
            r == Color::Plain(self, Brightness::Normal).bg_pair(),
    {
        Color::Plain(self, Brightness::Normal).bg()
    }
}

#[derive(Clone, Copy, Debug, PartialEq, Eq, Structural)]
pub enum Brightness {
    Normal,
    Bright,
}

/// A basic color together with a brightness.
#[derive(Clone, Copy, Debug, PartialEq, Eq, Structural)]
pub struct PlainColor {
    pub color: BasicColor,
    pub brightness: Brightness,
}

impl PlainColor {
    pub fn fg(self) -> (r: (Instruction, Instruction))
        ensures
            r == Color::Plain(self.color, self.brightness).fg_pair(),
    {
        Color::Plain(self.color, self.brightness).fg()
    }

    pub fn bg(self) -> (r: (Instruction, Instruction))
        ensures
            r == Color::Plain(self.color, self.brightness).bg_pair(),
    {
        Color::Plain(self.color, self.brightness).bg()
    }
}

/// A color value as used in SGR commands.
#[derive(Clone, Copy, Debug, PartialEq, Eq, Structural)]
pub enum Color {
    Default,
    Plain(BasicColor, Brightness),
    Palette(u8),
    RGB(u8, u8, u8),
}

impl Color {
    pub open spec fn fg_pair(self) -> (Instruction, Instruction) {
        (Instruction::PushForeground(self), Instruction::PopForeground)
    }

    pub open spec fn bg_pair(self) -> (Instruction, Instruction) {
        (Instruction::PushBackground(self), Instruction::PopBackground)
    }

    pub fn foreground(self) -> (r: Foreground)
        ensures
            r.color == self,
    {
        Foreground { color: self }
    }

    pub fn background(self) -> (r: Background)
        ensures
            r.color == self,
    {
        Background { color: self }
    }

    pub fn fg(self) -> (r: (Instruction, Instruction))
        ensures
            r == self.fg_pair(),
    {
        (Instruction::PushForeground(self), Instruction::PopForeground)
    }

    pub fn bg(self) -> (r: (Instruction, Instruction))
        ensures
            r == self.bg_pair(),
    {
        (Instruction::PushBackground(self), Instruction::PopBackground)
    }
}

/// A color destined for the background channel.
#[derive(Clone, Copy, Debug, PartialEq, Eq, Structural)]
pub struct Background {
    pub color: Color,
}

/// A color destined for the foreground channel.
#[derive(Clone, Copy, Debug, PartialEq, Eq, Structural)]
pub struct Foreground {
    pub color: Color,
}

/// A single SGR command: either a plain numeric code or a color assignment.
#[derive(Clone, Copy, Debug, PartialEq, Eq, Structural)]
pub enum Command {
    Plain(CommandCode),
    SetBackground(Color),
    SetForeground(Color),
}

/// An instruction to the stack-based SGR processor.
#[derive(Clone, Copy, PartialEq, Eq, Structural)]
pub enum Instruction {
    ResetAll,
    PushFlags(Flags, Operator),
    PopFlags,
    PushBackground(Color),
    PopBackground,
    PushForeground(Color),
    PopForeground,
}

/// How pushed flags combine with the current flag set.
#[derive(Clone, Copy, Debug, PartialEq, Eq, Structural)]
pub enum Operator {
    Assign,
    And,
    Or,
    Xor,
}

/// A flag set together with the operator that combines it with the current set.
#[derive(Clone, Copy, Debug, PartialEq, Eq, Structural)]
pub struct FlagsOp {
    pub flags: Flags,
    pub op: Operator,
}

/// A style as referenced by a style pack: flag operation plus colors.
#[derive(Clone, Copy, Debug, PartialEq, Eq, Structural)]
pub struct Style {
    pub flags: Option<FlagsOp>,
    pub background: Option<Color>,
    pub foreground: Option<Color>,
}

impl Default for Style {
    fn default() -> (r: Self)
        ensures
            r.flags.is_none() && r.background.is_none() && r.foreground.is_none(),
    {
        Style { flags: None, background: None, foreground: None }
    }
}

// Rendering of commands to bytes.

/// Decimal ASCII digits of `n`, most significant first.
pub open spec fn dec_str(n: nat) -> Seq<u8>
    decreases n,
{
    if n < 10 {
        seq![(48 + n) as u8]
    } else {
        dec_str(n / 10) + seq![(48 + n % 10) as u8]
    }
}

/// Writes the decimal ASCII form of `v` to `buf`.
pub fn btoa(v: u8, buf: &mut Vec<u8>)
    ensures
        final(buf)@ == old(buf)@ + dec_str(v as nat),
{
    if v >= 100 {
        buf.push(48 + v / 100);
        buf.push(48 + (v / 10) % 10);
        buf.push(48 + v % 10);
        proof {
            assert(v / 10 >= 10 && v / 10 / 10 == v / 100 && v / 100 < 10) by (bit_vector)
                requires
                    v >= 100,
            ;
            assert(dec_str((v / 100) as nat) =~= seq![(48 + v / 100) as u8]);
            assert(dec_str((v / 10) as nat) =~= dec_str((v / 100) as nat) + seq![(48 + (v / 10)
                % 10) as u8]);
            assert(dec_str(v as nat) =~= dec_str((v / 10) as nat) + seq![(48 + v % 10) as u8]);
            assert(buf@ =~= old(buf)@ + dec_str(v as nat));
        }
    } else if v >= 10 {
        buf.push(48 + v / 10);
        buf.push(48 + v % 10);
        proof {
            assert(v / 10 < 10) by (bit_vector)
                requires
                    10 <= v < 100,
            ;
            assert(dec_str((v / 10) as nat) =~= seq![(48 + v / 10) as u8]);
            assert(dec_str(v as nat) =~= dec_str((v / 10) as nat) + seq![(48 + v % 10) as u8]);
            assert(buf@ =~= old(buf)@ + dec_str(v as nat));
        }
    } else {
        buf.push(48 + v);
        proof {
            assert(dec_str(v as nat) =~= seq![(48 + v) as u8]);
            assert(buf@ =~= old(buf)@ + dec_str(v as nat));
        }
    }
}

/// Rendered bytes of a color command with the given base code
/// (30 for foreground, 40 for background).
pub open spec fn color_rendering(color: Color, base: u8) -> Seq<u8> {
    match color {
        Color::Default => dec_str((base + 9) as nat),
        Color::Plain(c, Brightness::Normal) => dec_str((base + c.code_spec()) as nat),
        Color::Plain(c, Brightness::Bright) => dec_str((base + 60 + c.code_spec()) as nat),
        Color::Palette(c) => dec_str((base + 8) as nat) + seq![59u8, 53u8, 59u8] + dec_str(c as nat),
        Color::RGB(r, g, b) => dec_str((base + 8) as nat) + seq![59u8, 50u8, 59u8] + dec_str(
            r as nat,
        ) + seq![59u8] + dec_str(g as nat) + seq![59u8] + dec_str(b as nat),
    }
}

/// Rendered bytes of one SGR command.
pub open spec fn command_rendering(cmd: Command) -> Seq<u8> {
    match cmd {
        Command::Plain(code) => dec_str(code.code_spec() as nat),
        Command::SetBackground(color) => color_rendering(
            color,
            CommandCode::SetFirstBackgroundColor.code_spec(),
        ),
        Command::SetForeground(color) => color_rendering(
            color,
            CommandCode::SetFirstForegroundColor.code_spec(),
        ),
    }
}

fn render_color(color: Color, base: u8, buf: &mut Vec<u8>)
    requires
        base == 30 || base == 40,
    ensures
        final(buf)@ == old(buf)@ + color_rendering(color, base),
{
    match color {
        Color::Default => btoa(base + 9, buf),
        Color::Plain(c, Brightness::Normal) => btoa(base + c.code(), buf),
        Color::Plain(c, Brightness::Bright) => btoa(base + 60 + c.code(), buf),
        Color::Palette(c) => {
            btoa(base + 8, buf);
            buf.push(59);
            buf.push(53);
            buf.push(59);
            btoa(c, buf);
        },
        Color::RGB(r, g, b) => {
            btoa(base + 8, buf);
            buf.push(59);
            buf.push(50);
            buf.push(59);
            btoa(r, buf);
            buf.push(59);
            btoa(g, buf);
            buf.push(59);
            btoa(b, buf);
        },
    }
}

/// Writes one command's bytes to `buf`.
pub fn render_command(cmd: &Command, buf: &mut Vec<u8>)
    ensures
        final(buf)@ == old(buf)@ + command_rendering(*cmd),
{
    match cmd {
        Command::Plain(code) => btoa(code.code(), buf),
        Command::SetBackground(color) => render_color(*color, 40, buf),
        Command::SetForeground(color) => render_color(*color, 30, buf),
    }
}

/// The bytes of a full `ESC [ c0 ; c1 ; ... m` group; empty when there are no commands.
pub open spec fn group_rendering(cmds: Seq<Command>) -> Seq<u8> {
    if cmds.len() == 0 {
        Seq::empty()
    } else {
        seq![27u8, 91u8] + inner_group_rendering(cmds) + seq![109u8]
    }
}

/// Writes a whole command group to `buf`; writes nothing for an empty group.
pub fn render_group(cmds: &Vec<Command>, buf: &mut Vec<u8>)
    ensures
        final(buf)@ == old(buf)@ + group_rendering(cmds@),
{
    let n = cmds.len();
    let mut i: usize = 0;
    while i < n
        invariant
            i <= n,
            n == cmds@.len(),
            buf@ == old(buf)@ + (if i == 0 { Seq::<u8>::empty() } else {
                seq![27u8, 91u8] + inner_group_rendering(cmds@.take(i as int))
            }),
        decreases n - i,
    {
        if i == 0 {
            buf.push(27);
            buf.push(91);
        } else {
            buf.push(59);
        }
        render_command(&cmds[i], buf);
        proof {
            let t = cmds@.take(i + 1 as int);
            assert(t.drop_last() =~= cmds@.take(i as int));
            assert(t.last() == cmds@[i as int]);
        }
        i = i + 1;
    }
    if n > 0 {
        buf.push(109);
    }
    proof {
        assert(cmds@.take(n as int) =~= cmds@);
    }
}

/// A pre-rendered escape sequence.
#[derive(Clone, Debug)]
pub struct Sequence {
    buf: Vec<u8>,
}

impl Sequence {
    /// The full-reset sequence `ESC [ m`.
    pub fn reset() -> (r: Self)
        ensures
            r.data_spec() == seq![27u8, 91u8, 109u8],
    {
        let mut buf = Vec::new();
        buf.push(27);
        buf.push(91);
        buf.push(109);
        Self { buf }
    }

    pub closed spec fn data_spec(&self) -> Seq<u8> {
        self.buf@
    }

    pub fn data(&self) -> (r: &[u8])
        ensures
            r@ == self.data_spec(),
    {
        self.buf.as_slice()
    }

    pub fn from_bytes(buf: Vec<u8>) -> (r: Self)
        ensures
            r.data_spec() == buf@,
    {
        Self { buf }
    }

    /// Renders a command list into one group, as `Sequence::reset` does for no commands.
    pub fn from_commands(commands: &Vec<Command>) -> (r: Self)
        ensures
            r.data_spec() == seq![27u8, 91u8] + inner_group_rendering(commands@) + seq![109u8],
    {
        let mut buf = Vec::new();
        buf.push(27);
        buf.push(91);
        let n = commands.len();
        let mut i: usize = 0;
        while i < n
            invariant
                i <= n,
                n == commands@.len(),
                buf@ == seq![27u8, 91u8] + inner_group_rendering(commands@.take(i as int)),
            decreases n - i,
        {
            if i > 0 {
                buf.push(59);
            }
            render_command(&commands[i], &mut buf);
            proof {
                let t = commands@.take(i + 1 as int);
                assert(t.drop_last() =~= commands@.take(i as int));
                assert(t.last() == commands@[i as int]);
            }
            i = i + 1;
        }
        buf.push(109);
        proof {
            assert(commands@.take(n as int) =~= commands@);
        }
        Self { buf }
    }
}

/// The bytes between `ESC [` and `m` for a command list rendered as one group.
pub open spec fn inner_group_rendering(cmds: Seq<Command>) -> Seq<u8>
    decreases cmds.len(),
{
    if cmds.len() == 0 {
        Seq::empty()
    } else if cmds.len() == 1 {
        command_rendering(cmds[0])
    } else {
        inner_group_rendering(cmds.drop_last()) + seq![59u8] + command_rendering(cmds.last())
    }
}

} // verus!

use vstd::prelude::*;

verus! {

// The stack-based SGR processor.

/// All defined flag bits.
pub const ALL_FLAGS: u16 = 32767;

/// The flag bits synced by a write with the given annotations: a flag group is
/// synced only when its own annotations intersect those of the write.
pub open spec fn flag_sync_mask(annotations: Annotations) -> u16 {
    if annotations.uses_foreground {
        ALL_FLAGS
    } else if annotations.uses_background {
        REVERSED | SLOW_BLINK | RAPID_BLINK | FRAMED | ENCIRCLED
    } else {
        0
    }
}

/// The visible style of a terminal after a sequence of SGR commands.
#[derive(Clone, Copy, PartialEq, Eq, Structural)]
pub struct TermStyle {
    pub fg: Color,
    pub bg: Color,
    pub flags: u16,
}

impl TermStyle {
    /// The style of a fresh terminal.
    pub open spec fn plain() -> TermStyle {
        TermStyle { fg: Color::Default, bg: Color::Default, flags: 0 }
    }
}

/// The effect of one plain SGR code on the flag bits of a terminal.
pub open spec fn apply_code(flags: u16, code: CommandCode) -> u16 {
    match code {
        CommandCode::SetBold => flags | BOLD,
        CommandCode::SetFaint => flags | FAINT,
        CommandCode::SetItalic => flags | ITALIC,
        CommandCode::SetUnderlined => flags | UNDERLINED,
        CommandCode::SetSlowBlink => flags | SLOW_BLINK,
        CommandCode::SetRapidBlink => flags | RAPID_BLINK,
        CommandCode::SetReversed => flags | REVERSED,
        CommandCode::SetConcealed => flags | CONCEALED,
        CommandCode::SetCrossedOut => flags | CROSSED_OUT,
        CommandCode::SetDoublyUnderlined => flags | DOUBLY_UNDERLINED,
        CommandCode::ResetBoldAndFaint => flags & !(BOLD | FAINT),
        CommandCode::ResetItalic => flags & !ITALIC,
        CommandCode::ResetAllUnderlines => flags & !(UNDERLINED | DOUBLY_UNDERLINED),
        CommandCode::ResetAllBlinks => flags & !(SLOW_BLINK | RAPID_BLINK),
        CommandCode::ResetReversed => flags & !REVERSED,
        CommandCode::ResetConcealed => flags & !CONCEALED,
        CommandCode::ResetCrossedOut => flags & !CROSSED_OUT,
        CommandCode::SetFramed => flags | FRAMED,
        CommandCode::SetEncircled => flags | ENCIRCLED,
        CommandCode::SetOverlined => flags | OVERLINED,
        CommandCode::ResetFramedAndEncircled => flags & !(FRAMED | ENCIRCLED),
        CommandCode::ResetOverlined => flags & !OVERLINED,
        CommandCode::SetSuperscript => flags | SUPERSCRIPT,
        CommandCode::SetSubscript => flags | SUBSCRIPT,
        CommandCode::ResetSuperscriptAndSubscript => flags & !(SUBSCRIPT | SUPERSCRIPT),
        _ => flags,
    }
}

/// The effect of one SGR command on a terminal's style.
pub open spec fn apply_command(st: TermStyle, cmd: Command) -> TermStyle {
    match cmd {
        Command::Plain(code) => TermStyle { fg: st.fg, bg: st.bg, flags: apply_code(st.flags, code) },
        Command::SetBackground(c) => TermStyle { fg: st.fg, bg: c, flags: st.flags },
        Command::SetForeground(c) => TermStyle { fg: c, bg: st.bg, flags: st.flags },
    }
}

/// A terminal-state simulator: the style after a command sequence.
pub open spec fn apply_commands(st: TermStyle, cmds: Seq<Command>) -> TermStyle
    decreases cmds.len(),
{
    if cmds.len() == 0 {
        st
    } else {
        apply_commands(apply_command(st, cmds[0]), cmds.drop_first())
    }
}

pub proof fn lemma_apply_commands_push(st: TermStyle, cmds: Seq<Command>, c: Command)
    ensures
        apply_commands(st, cmds.push(c)) == apply_command(apply_commands(st, cmds), c),
    decreases cmds.len(),
{
    if cmds.len() == 0 {
        assert(cmds.push(c).drop_first() =~= Seq::<Command>::empty());
        assert(cmds.push(c)[0] == c);
        assert(apply_commands(apply_command(st, c), Seq::<Command>::empty()) == apply_command(
            st,
            c,
        ));
        assert(apply_commands(st, cmds) == st);
    } else {
        assert(cmds.push(c).drop_first() =~= cmds.drop_first().push(c));
        assert(cmds.push(c)[0] == cmds[0]);
        lemma_apply_commands_push(apply_command(st, cmds[0]), cmds.drop_first(), c);
    }
}

pub proof fn lemma_apply_commands_append(st: TermStyle, a: Seq<Command>, b: Seq<Command>)
    ensures
        apply_commands(st, a + b) == apply_commands(apply_commands(st, a), b),
    decreases b.len(),
{
    if b.len() == 0 {
        assert(a + b =~= a);
    } else {
        assert((a + b).drop_last() =~= a + b.drop_last());
        lemma_apply_commands_append(st, a, b.drop_last());
        lemma_apply_commands_push(st, a + b.drop_last(), b.last());
        assert((a + b.drop_last()).push(b.last()) =~= a + b);
        lemma_apply_commands_push(apply_commands(st, a), b.drop_last(), b.last());
        assert(b.drop_last().push(b.last()) =~= b);
    }
}

/// True when no command in the sequence writes the background channel.
pub open spec fn no_background_commands(cmds: Seq<Command>) -> bool {
    forall|i: int| 0 <= i < cmds.len() ==> !(cmds[i] is SetBackground)
}

/// True when no command in the sequence writes the foreground channel.
pub open spec fn no_foreground_commands(cmds: Seq<Command>) -> bool {
    forall|i: int| 0 <= i < cmds.len() ==> !(cmds[i] is SetForeground)
}

/// One styling channel: the value last emitted to the terminal, and a stack of
/// pushed values whose top is the value the terminal should show.
pub struct ChannelState<T> {
    pub synced: T,
    pub stack: Vec<T>,
}

pub open spec fn top_color(stack: Seq<Color>) -> Color {
    if stack.len() == 0 {
        Color::Default
    } else {
        stack.last()
    }
}

pub open spec fn top_flags(stack: Seq<Flags>) -> u16 {
    if stack.len() == 0 {
        0
    } else {
        stack.last().bits
    }
}

/// Persistent state of the SGR processor: three channels plus a dirty mark.
pub struct ProcessorState<const N: usize> {
    pub flags: ChannelState<Flags>,
    pub bg: ChannelState<Color>,
    pub fg: ChannelState<Color>,
    pub dirty: bool,
}

impl<const N: usize> ProcessorState<N> {
    /// Stack depth is bounded and the dirty mark is accurate.
    pub open spec fn wf(&self) -> bool {
        &&& self.flags.stack@.len() <= N
        &&& self.bg.stack@.len() <= N
        &&& self.fg.stack@.len() <= N
        &&& self.dirty == (self.synced_style() != self.target_style())
    }

    /// The style last emitted to the output.
    pub open spec fn synced_style(&self) -> TermStyle {
        TermStyle { fg: self.fg.synced, bg: self.bg.synced, flags: self.flags.synced.bits }
    }

    /// The style required by the current stack tops.
    pub open spec fn target_style(&self) -> TermStyle {
        TermStyle {
            fg: top_color(self.fg.stack@),
            bg: top_color(self.bg.stack@),
            flags: top_flags(self.flags.stack@),
        }
    }

    pub fn new() -> (r: Self)
        ensures
            r.wf(),
            r.synced_style() == TermStyle::plain(),
            r.target_style() == TermStyle::plain(),
            r.flags.stack@.len() == 0,
            r.bg.stack@.len() == 0,
            r.fg.stack@.len() == 0,
            !r.dirty,
    {
        ProcessorState {
            flags: ChannelState { synced: Flags { bits: 0 }, stack: Vec::new() },
            bg: ChannelState { synced: Color::Default, stack: Vec::new() },
            fg: ChannelState { synced: Color::Default, stack: Vec::new() },
            dirty: false,
        }
    }
}

impl<const N: usize> Default for ProcessorState<N> {
    fn default() -> (r: Self)
        ensures
            r.wf(),
            r.synced_style() == TermStyle::plain(),
            r.target_style() == TermStyle::plain(),
    {
        Self::new()
    }
}

/// Decides which commands bring a pair of flags that shares one reset code
/// from the current state to the target: `(set f0, set f1, reset the pair)`.
///
/// `diff` holds the flags that differ between current and target; `flags` is
/// the target. The pair is reset whenever a flag of it must turn off, and
/// every surviving flag of the pair is set again afterwards.
pub fn dual_flag_sync(diff: Flags, flags: Flags, f0: Flags, f1: Flags) -> (r: (bool, bool, bool))
    requires
        f0.bits != 0 && f1.bits != 0,
        f0.bits & f1.bits == 0,
        f0.bits & ((f0.bits - 1) as u16) == 0,
        f1.bits & ((f1.bits - 1) as u16) == 0,
    ensures
        r.2 == (((flags.bits ^ diff.bits) & diff.bits & f0.bits != 0) || ((flags.bits ^ diff.bits)
            & diff.bits & f1.bits != 0)),
        r.0 == (flags.bits & f0.bits != 0 && (diff.bits & f0.bits != 0 || r.2)),
        r.1 == (flags.bits & f1.bits != 0 && (diff.bits & f1.bits != 0 || r.2)),
{
    let ghost old_diff = diff;
    let mut diff = diff;
    let mut result = (false, false, false);
    if !diff.intersects(f0.union(f1)) {
        proof {
            let d = diff.bits;
            let fb = flags.bits;
            let a = f0.bits;
            let b = f1.bits;
            assert(((fb ^ d) & d & a == 0) && ((fb ^ d) & d & b == 0) && (d & a == 0) && (d & b
                == 0)) by (bit_vector)
                requires
                    d & (a | b) == 0,
            ;
        }
        return result;
    }
    if flags.toggle(diff).intersection(diff).intersects(f0.union(f1)) {
        result.2 = true;
        diff = diff.union(flags.intersection(f0.union(f1)));
    }
    if diff.intersection(flags).contains(f0) {
        result.0 = true;
    }
    if diff.intersection(flags).contains(f1) {
        result.1 = true;
    }
    proof {
        let d0 = old_diff.bits;
        let fb = flags.bits;
        let a = f0.bits;
        let b = f1.bits;
        let d1 = d0 | (fb & (a | b));
        assert({
            &&& ((d1 & fb & a == a) == (fb & a != 0))
            &&& ((d1 & fb & b == b) == (fb & b != 0))
            &&& ((d0 & fb & a == a) == (fb & a != 0 && d0 & a != 0))
            &&& ((d0 & fb & b == b) == (fb & b != 0 && d0 & b != 0))
            &&& (((fb ^ d0) & d0 & (a | b) != 0) == (((fb ^ d0) & d0 & a != 0) || ((fb ^ d0) & d0
                & b != 0)))
        }) by (bit_vector)
            requires
                d1 == (d0 | (fb & (a | b))),
                a & ((a - 1) as u16) == 0,
                b & ((b - 1) as u16) == 0,
                a != 0,
                b != 0,
                a & b == 0,
        ;
    }
    result
}

} // verus!

verus! {

/// Lifts one `apply_commands` step over a pushed plain command to all styles
/// that share the same flag bits.
proof fn lemma_plain_step(delta: Seq<Command>, code: CommandCode, c: u16, x: u16)
    requires
        forall|st: TermStyle|
            st.flags == c ==> #[trigger] apply_commands(st, delta) == (TermStyle {
                fg: st.fg,
                bg: st.bg,
                flags: x,
            }),
    ensures
        forall|st: TermStyle|
            st.flags == c ==> #[trigger] apply_commands(st, delta.push(Command::Plain(code)))
                == (TermStyle { fg: st.fg, bg: st.bg, flags: apply_code(x, code) }),
{
    assert forall|st: TermStyle| st.flags == c implies #[trigger] apply_commands(
        st,
        delta.push(Command::Plain(code)),
    ) == (TermStyle { fg: st.fg, bg: st.bg, flags: apply_code(x, code) }) by {
        lemma_apply_commands_push(st, delta, Command::Plain(code));
    }
}

/// Computes the commands that bring one reset-sharing flag pair from `cur`
/// to `tgt`, leaving all other flag bits of `cur` unchanged.
fn sync_pair(
    cur: Flags,
    tgt: Flags,
    f0: Flags,
    f1: Flags,
    set0: CommandCode,
    set1: CommandCode,
    reset: CommandCode,
) -> (r: (Flags, Vec<Command>))
    requires
        f0.bits != 0 && f1.bits != 0,
        f0.bits & f1.bits == 0,
        f0.bits & ((f0.bits - 1) as u16) == 0,
        f1.bits & ((f1.bits - 1) as u16) == 0,
        forall|x: u16| #[trigger] apply_code(x, set0) == x | f0.bits,
        forall|x: u16| #[trigger] apply_code(x, set1) == x | f1.bits,
        forall|x: u16| #[trigger] apply_code(x, reset) == x & !(f0.bits | f1.bits),
    ensures
        r.0.bits == (cur.bits & !(f0.bits | f1.bits)) | (tgt.bits & (f0.bits | f1.bits)),
        forall|st: TermStyle|
            st.flags == cur.bits ==> #[trigger] apply_commands(st, r.1@) == (TermStyle {
                fg: st.fg,
                bg: st.bg,
                flags: r.0.bits,
            }),
        no_background_commands(r.1@),
        no_foreground_commands(r.1@),
        cur.bits & (f0.bits | f1.bits) == tgt.bits & (f0.bits | f1.bits) ==> r.1@
            == Seq::<Command>::empty(),
{
    let diff = cur.toggle(tgt);
    let mut delta: Vec<Command> = Vec::new();
    let ghost c = cur.bits;
    let ghost t = tgt.bits;
    let ghost a = f0.bits;
    let ghost b = f1.bits;
    let actions = dual_flag_sync(diff, tgt, f0, f1);
    let mut x = cur;
    if actions.2 {
        delta.push(Command::Plain(reset));
        proof {
            lemma_plain_step(Seq::<Command>::empty(), reset, c, c);
        }
        x = x.unset(f0.union(f1));
    }
    if actions.0 {
        let ghost pre = delta@;
        delta.push(Command::Plain(set0));
        proof {
            lemma_plain_step(pre, set0, c, x.bits);
        }
        x = x.union(f0);
    }
    if actions.1 {
        let ghost pre = delta@;
        delta.push(Command::Plain(set1));
        proof {
            lemma_plain_step(pre, set1, c, x.bits);
        }
        x = x.union(f1);
    }
    proof {
        let r2 = actions.2;
        let r0 = actions.0;
        let r1 = actions.1;
        let y0 = if r2 {
            c & !(a | b)
        } else {
            c
        };
        let y1 = if r0 {
            y0 | a
        } else {
            y0
        };
        let y2 = if r1 {
            y1 | b
        } else {
            y1
        };
        assert(y2 == (c & !(a | b)) | (t & (a | b)) && ((c & (a | b) == t & (a | b)) ==> (!r2 && !r0
            && !r1))) by (bit_vector)
            requires
                r2 == (((t ^ (c ^ t)) & (c ^ t) & a != 0) || ((t ^ (c ^ t)) & (c ^ t) & b != 0)),
                r0 == (t & a != 0 && ((c ^ t) & a != 0 || r2)),
                r1 == (t & b != 0 && ((c ^ t) & b != 0 || r2)),
                y0 == (if r2 {
                    c & !(a | b)
                } else {
                    c
                }),
                y1 == (if r0 {
                    y0 | a
                } else {
                    y0
                }),
                y2 == (if r1 {
                    y1 | b
                } else {
                    y1
                }),
                a & ((a - 1) as u16) == 0,
                b & ((b - 1) as u16) == 0,
                a != 0,
                b != 0,
                a & b == 0,
        ;
    }
    (x, delta)
}

/// Computes the command that brings one independent flag from `cur` to `tgt`,
/// leaving all other flag bits of `cur` unchanged.
fn sync_single(cur: Flags, tgt: Flags, f: Flags, set: CommandCode, reset: CommandCode) -> (r: (
    Flags,
    Vec<Command>,
))
    requires
        f.bits != 0,
        f.bits & ((f.bits - 1) as u16) == 0,
        forall|x: u16| #[trigger] apply_code(x, set) == x | f.bits,
        forall|x: u16| #[trigger] apply_code(x, reset) == x & !f.bits,
    ensures
        r.0.bits == (cur.bits & !f.bits) | (tgt.bits & f.bits),
        forall|st: TermStyle|
            st.flags == cur.bits ==> #[trigger] apply_commands(st, r.1@) == (TermStyle {
                fg: st.fg,
                bg: st.bg,
                flags: r.0.bits,
            }),
        no_background_commands(r.1@),
        no_foreground_commands(r.1@),
        cur.bits & f.bits == tgt.bits & f.bits ==> r.1@ == Seq::<Command>::empty(),
{
    let diff = cur.toggle(tgt);
    let mut delta: Vec<Command> = Vec::new();
    let ghost c = cur.bits;
    let ghost t = tgt.bits;
    let ghost a = f.bits;
    let mut x = cur;
    if diff.contains(f) {
        if tgt.contains(f) {
            delta.push(Command::Plain(set));
            proof {
                lemma_plain_step(Seq::<Command>::empty(), set, c, c);
            }
            x = x.union(f);
        } else {
            delta.push(Command::Plain(reset));
            proof {
                lemma_plain_step(Seq::<Command>::empty(), reset, c, c);
            }
            x = x.unset(f);
        }
    }
    proof {
        assert({
            &&& (((c ^ t) & a == a) && (t & a == a) ==> (c | a) == ((c & !a) | (t & a)))
            &&& (((c ^ t) & a == a) && (t & a != a) ==> (c & !a) == ((c & !a) | (t & a)))
            &&& (((c ^ t) & a != a) ==> c == ((c & !a) | (t & a)) && (c & a == t & a))
            &&& ((c & a == t & a) ==> ((c ^ t) & a != a))
        }) by (bit_vector)
            requires
                a != 0 && a & ((a - 1) as u16) == 0,
        ;
    }
    (x, delta)
}

} // verus!

verus! {

/// The new flag set after pushing `f` with the given operator onto a stack
/// whose top is `top`.
pub open spec fn combine_flags(op: Operator, top: u16, f: u16) -> u16 {
    match op {
        Operator::Assign => f,
        Operator::And => top & f,
        Operator::Or => top | f,
        Operator::Xor => top ^ f,
    }
}

impl<const N: usize> ProcessorState<N> {
    /// Stack depth is bounded.
    pub open spec fn bounded(&self) -> bool {
        &&& self.flags.stack@.len() <= N
        &&& self.bg.stack@.len() <= N
        &&& self.fg.stack@.len() <= N
    }
}

/// What a sync with the given annotations guarantees: the output gained one
/// command group `g`; replaying `g` on a terminal that showed the old synced
/// style yields the new synced style; every channel the write uses now shows
/// the style demanded by the stacks; channels the write does not use are
/// untouched and get no command, deferred flags included.
pub open spec fn sync_post<const N: usize>(
    pre: ProcessorState<N>,
    post: ProcessorState<N>,
    annotations: Annotations,
    g: Seq<Command>,
) -> bool {
    &&& post.fg.stack@ == pre.fg.stack@
    &&& post.bg.stack@ == pre.bg.stack@
    &&& post.flags.stack@ == pre.flags.stack@
    &&& apply_commands(pre.synced_style(), g) == post.synced_style()
    &&& (annotations.uses_foreground ==> post.fg.synced == top_color(pre.fg.stack@))
    &&& (!annotations.uses_foreground ==> post.fg.synced == pre.fg.synced
        && no_foreground_commands(g))
    &&& (annotations.uses_background ==> post.bg.synced == top_color(pre.bg.stack@))
    &&& (!annotations.uses_background ==> post.bg.synced == pre.bg.synced
        && no_background_commands(g))
    &&& post.flags.synced.bits == (top_flags(pre.flags.stack@) & flag_sync_mask(annotations)) | (
    pre.flags.synced.bits & !flag_sync_mask(annotations))
    &&& (pre.synced_style() == pre.target_style() ==> g == Seq::<Command>::empty())
    &&& post.dirty == (post.synced_style() != post.target_style())
}

/// What one styling instruction does to the processor: the named stack is
/// pushed or popped, the synced state is untouched, and nothing is written,
/// except that `ResetAll` clears everything and writes a bare reset group.
pub open spec fn instruction_post<const N: usize>(
    pre: ProcessorState<N>,
    post: ProcessorState<N>,
    out_pre: Seq<u8>,
    out_post: Seq<u8>,
    instruction: Instruction,
) -> bool {
    match instruction {
        Instruction::PushFlags(f, op) => {
            &&& post.flags.stack@ == pre.flags.stack@.push(
                Flags { bits: combine_flags(op, top_flags(pre.flags.stack@), f.bits) },
            )
            &&& post.bg.stack@ == pre.bg.stack@
            &&& post.fg.stack@ == pre.fg.stack@
            &&& post.synced_style() == pre.synced_style()
            &&& out_post == out_pre
        },
        Instruction::PopFlags => {
            &&& post.flags.stack@ == pre.flags.stack@.drop_last()
            &&& post.bg.stack@ == pre.bg.stack@
            &&& post.fg.stack@ == pre.fg.stack@
            &&& post.synced_style() == pre.synced_style()
            &&& out_post == out_pre
        },
        Instruction::PushBackground(c) => {
            &&& post.bg.stack@ == pre.bg.stack@.push(c)
            &&& post.flags.stack@ == pre.flags.stack@
            &&& post.fg.stack@ == pre.fg.stack@
            &&& post.synced_style() == pre.synced_style()
            &&& out_post == out_pre
        },
        Instruction::PopBackground => {
            &&& post.bg.stack@ == pre.bg.stack@.drop_last()
            &&& post.flags.stack@ == pre.flags.stack@
            &&& post.fg.stack@ == pre.fg.stack@
            &&& post.synced_style() == pre.synced_style()
            &&& out_post == out_pre
        },
        Instruction::PushForeground(c) => {
            &&& post.fg.stack@ == pre.fg.stack@.push(c)
            &&& post.flags.stack@ == pre.flags.stack@
            &&& post.bg.stack@ == pre.bg.stack@
            &&& post.synced_style() == pre.synced_style()
            &&& out_post == out_pre
        },
        Instruction::PopForeground => {
            &&& post.fg.stack@ == pre.fg.stack@.drop_last()
            &&& post.flags.stack@ == pre.flags.stack@
            &&& post.bg.stack@ == pre.bg.stack@
            &&& post.synced_style() == pre.synced_style()
            &&& out_post == out_pre
        },
        Instruction::ResetAll => {
            &&& post.flags.stack@.len() == 0
            &&& post.bg.stack@.len() == 0
            &&& post.fg.stack@.len() == 0
            &&& post.synced_style() == TermStyle::plain()
            &&& out_post == out_pre + seq![27u8, 91u8, 109u8]
        },
    }
}

/// The stack-based SGR processor: applies styling instructions to its state
/// and emits, on each data write, only the escape commands that the write
/// needs, wrapped in a single `ESC [ ... m` group.
pub struct Processor<const N: usize> {
    pub state: ProcessorState<N>,
    pub output: Vec<u8>,
}

fn top_color_of(stack: &Vec<Color>) -> (r: Color)
    ensures
        r == top_color(stack@),
{
    if stack.len() == 0 {
        Color::Default
    } else {
        stack[stack.len() - 1]
    }
}

fn top_flags_of(stack: &Vec<Flags>) -> (r: Flags)
    ensures
        r.bits == top_flags(stack@),
{
    if stack.len() == 0 {
        Flags { bits: 0 }
    } else {
        stack[stack.len() - 1]
    }
}

impl<const N: usize> Processor<N> {
    /// The processor is well-formed: stacks bounded, and a clean dirty mark
    /// means the emitted style matches the stacks.
    pub open spec fn wf(&self) -> bool {
        &&& self.state.bounded()
        &&& (!self.state.dirty ==> self.state.synced_style() == self.state.target_style())
    }

    pub fn new(state: ProcessorState<N>, output: Vec<u8>) -> (r: Self)
        ensures
            r.state == state,
            r.output == output,
    {
        Processor { state, output }
    }

    /// Emits the commands needed to realize the stack-demanded style on the
    /// annotated channels, as one group.
    #[verifier::rlimit(40)]
    fn do_sync(&mut self, annotations: Annotations) -> (g: Ghost<Seq<Command>>)
        requires
            old(self).state.bounded(),
        ensures
            final(self).state.bounded(),
            sync_post(old(self).state, final(self).state, annotations, g@),
            final(self).output@ == old(self).output@ + group_rendering(g@),
    {
        let ghost st0 = old(self).state.synced_style();
        let mut cmds: Vec<Command> = Vec::new();
        let bg_t = top_color_of(&self.state.bg.stack);
        let fg_t = top_color_of(&self.state.fg.stack);
        let flags_t = top_flags_of(&self.state.flags.stack);
        if annotations.uses_background && !(self.state.bg.synced == bg_t) {
            let ghost pre = cmds@;
            cmds.push(Command::SetBackground(bg_t));
            self.state.bg.synced = bg_t;
            proof {
                lemma_apply_commands_push(st0, pre, Command::SetBackground(bg_t));
            }
        }
        if annotations.uses_foreground && !(self.state.fg.synced == fg_t) {
            let ghost pre = cmds@;
            cmds.push(Command::SetForeground(fg_t));
            self.state.fg.synced = fg_t;
            proof {
                lemma_apply_commands_push(st0, pre, Command::SetForeground(fg_t));
            }
        }
        proof {
            assert(1u16 & 2u16 == 0 && 8u16 & 512u16 == 0 && 16u16 & 32u16 == 0 && 1024u16
                & 2048u16 == 0 && 16384u16 & 8192u16 == 0 && 1u16 & 0u16 == 0 && 2u16 & 1u16 == 0
                && 8u16 & 7u16 == 0 && 512u16 & 511u16 == 0 && 16u16 & 15u16 == 0 && 32u16 & 31u16
                == 0 && 1024u16 & 1023u16 == 0 && 2048u16 & 2047u16 == 0 && 16384u16 & 16383u16
                == 0 && 8192u16 & 8191u16 == 0 && 4u16 & 3u16 == 0 && 128u16 & 127u16 == 0
                && 256u16 & 255u16 == 0 && 64u16 & 63u16 == 0 && 4096u16 & 4095u16 == 0)
                by (bit_vector);
        }
        let ghost c0 = self.state.flags.synced.bits;
        let mut curf = self.state.flags.synced;
        let use_fg = annotations.uses_foreground;
        let use_any = annotations.uses_foreground || annotations.uses_background;
        if use_fg {
            let (nc, mut delta) = sync_pair(
                curf,
                flags_t,
                Flags { bits: BOLD },
                Flags { bits: FAINT },
                CommandCode::SetBold,
                CommandCode::SetFaint,
                CommandCode::ResetBoldAndFaint,
            );
            let ghost pre = cmds@;
            let ghost d = delta@;
            cmds.append(&mut delta);
            proof {
                lemma_apply_commands_append(st0, pre, d);
            }
            curf = nc;
        }
        if use_fg {
            let (nc, mut delta) = sync_pair(
                curf,
                flags_t,
                Flags { bits: UNDERLINED },
                Flags { bits: DOUBLY_UNDERLINED },
                CommandCode::SetUnderlined,
                CommandCode::SetDoublyUnderlined,
                CommandCode::ResetAllUnderlines,
            );
            let ghost pre = cmds@;
            let ghost d = delta@;
            cmds.append(&mut delta);
            proof {
                lemma_apply_commands_append(st0, pre, d);
            }
            curf = nc;
        }
        if use_any {
            let (nc, mut delta) = sync_pair(
                curf,
                flags_t,
                Flags { bits: SLOW_BLINK },
                Flags { bits: RAPID_BLINK },
                CommandCode::SetSlowBlink,
                CommandCode::SetRapidBlink,
                CommandCode::ResetAllBlinks,
            );
            let ghost pre = cmds@;
            let ghost d = delta@;
            cmds.append(&mut delta);
            proof {
                lemma_apply_commands_append(st0, pre, d);
            }
            curf = nc;
        }
        if use_any {
            let (nc, mut delta) = sync_pair(
                curf,
                flags_t,
                Flags { bits: FRAMED },
                Flags { bits: ENCIRCLED },
                CommandCode::SetFramed,
                CommandCode::SetEncircled,
                CommandCode::ResetFramedAndEncircled,
            );
            let ghost pre = cmds@;
            let ghost d = delta@;
            cmds.append(&mut delta);
            proof {
                lemma_apply_commands_append(st0, pre, d);
            }
            curf = nc;
        }
        if use_fg {
            let (nc, mut delta) = sync_pair(
                curf,
                flags_t,
                Flags { bits: SUBSCRIPT },
                Flags { bits: SUPERSCRIPT },
                CommandCode::SetSubscript,
                CommandCode::SetSuperscript,
                CommandCode::ResetSuperscriptAndSubscript,
            );
            let ghost pre = cmds@;
            let ghost d = delta@;
            cmds.append(&mut delta);
            proof {
                lemma_apply_commands_append(st0, pre, d);
            }
            curf = nc;
        }
        if use_fg {
            let (nc, mut delta) = sync_single(
                curf,
                flags_t,
                Flags { bits: ITALIC },
                CommandCode::SetItalic,
                CommandCode::ResetItalic,
            );
            let ghost pre = cmds@;
            let ghost d = delta@;
            cmds.append(&mut delta);
            proof {
                lemma_apply_commands_append(st0, pre, d);
            }
            curf = nc;
        }
        if use_fg {
            let (nc, mut delta) = sync_single(
                curf,
                flags_t,
                Flags { bits: CONCEALED },
                CommandCode::SetConcealed,
                CommandCode::ResetConcealed,
            );
            let ghost pre = cmds@;
            let ghost d = delta@;
            cmds.append(&mut delta);
            proof {
                lemma_apply_commands_append(st0, pre, d);
            }
            curf = nc;
        }
        if use_fg {
            let (nc, mut delta) = sync_single(
                curf,
                flags_t,
                Flags { bits: CROSSED_OUT },
                CommandCode::SetCrossedOut,
                CommandCode::ResetCrossedOut,
            );
            let ghost pre = cmds@;
            let ghost d = delta@;
            cmds.append(&mut delta);
            proof {
                lemma_apply_commands_append(st0, pre, d);
            }
            curf = nc;
        }
        if use_any {
            let (nc, mut delta) = sync_single(
                curf,
                flags_t,
                Flags { bits: REVERSED },
                CommandCode::SetReversed,
                CommandCode::ResetReversed,
            );
            let ghost pre = cmds@;
            let ghost d = delta@;
            cmds.append(&mut delta);
            proof {
                lemma_apply_commands_append(st0, pre, d);
            }
            curf = nc;
        }
        if use_fg {
            let (nc, mut delta) = sync_single(
                curf,
                flags_t,
                Flags { bits: OVERLINED },
                CommandCode::SetOverlined,
                CommandCode::ResetOverlined,
            );
            let ghost pre = cmds@;
            let ghost d = delta@;
            cmds.append(&mut delta);
            proof {
                lemma_apply_commands_append(st0, pre, d);
            }
            curf = nc;
        }
        self.state.flags.synced = curf;
        proof {
            let t = flags_t.bits;
            let cf = curf.bits;
            if use_fg {
                assert(cf == (t & ALL_FLAGS) | (c0 & !ALL_FLAGS)) by (bit_vector)
                    requires
                        cf == ((((((((((((((((((((c0 & !(1u16 | 2u16)) | (t & (1u16 | 2u16))) & !(
                        8u16 | 512u16)) | (t & (8u16 | 512u16))) & !(16u16 | 32u16)) | (t & (16u16
                            | 32u16))) & !(1024u16 | 2048u16)) | (t & (1024u16 | 2048u16))) & !(
                        16384u16 | 8192u16)) | (t & (16384u16 | 8192u16))) & !4u16) | (t & 4u16))
                            & !128u16) | (t & 128u16)) & !256u16) | (t & 256u16)) & !64u16) | (t
                            & 64u16)) & !4096u16) | (t & 4096u16)),
                ;
            } else if use_any {
                assert(cf == (t & (64u16 | 16u16 | 32u16 | 1024u16 | 2048u16)) | (c0 & !(64u16
                    | 16u16 | 32u16 | 1024u16 | 2048u16))) by (bit_vector)
                    requires
                        cf == ((((((c0 & !(16u16 | 32u16)) | (t & (16u16 | 32u16))) & !(1024u16
                            | 2048u16)) | (t & (1024u16 | 2048u16))) & !64u16) | (t & 64u16)),
                ;
            } else {
                assert(cf == (t & 0u16) | (c0 & !0u16)) by (bit_vector)
                    requires
                        cf == c0,
                ;
            }
        }
        let dirty_now = !(self.state.fg.synced == fg_t && self.state.bg.synced == bg_t
            && self.state.flags.synced.bits == flags_t.bits);
        self.state.dirty = dirty_now;
        render_group(&cmds, &mut self.output);
        Ghost(cmds@)
    }

    /// Emits pending style changes for the annotated channels, if any.
    fn sync(&mut self, annotations: Annotations) -> (g: Ghost<Seq<Command>>)
        requires
            old(self).wf(),
        ensures
            final(self).wf(),
            sync_post(old(self).state, final(self).state, annotations, g@),
            final(self).output@ == old(self).output@ + group_rendering(g@),
    {
        if self.state.dirty {
            let g = self.do_sync(annotations);
            proof {
                let t = top_flags(old(self).state.flags.stack@);
                let c = old(self).state.flags.synced.bits;
                let m = flag_sync_mask(annotations);
                assert(c == t ==> (t & m) | (c & !m) == c) by (bit_vector);
            }
            g
        } else {
            proof {
                let t = top_flags(old(self).state.flags.stack@);
                let c = old(self).state.flags.synced.bits;
                let m = flag_sync_mask(annotations);
                assert(c == t ==> (t & m) | (c & !m) == c) by (bit_vector);
                assert(old(self).output@ + group_rendering(Seq::<Command>::empty()) =~= old(
                    self,
                ).output@);
            }
            Ghost(Seq::empty())
        }
    }
}

} // verus!

verus! {

impl<const N: usize> Processor<N> {
    /// Applies one styling instruction to the stacks. `ResetAll` clears the
    /// stacks and emits a bare full-reset group, after which the terminal and
    /// the synced state both show the plain style.
    pub fn push_instruction(&mut self, instruction: Instruction)
        requires
            old(self).wf(),
            match instruction {
                Instruction::PushFlags(_, _) => old(self).state.flags.stack@.len() < N,
                Instruction::PopFlags => old(self).state.flags.stack@.len() > 0,
                Instruction::PushBackground(_) => old(self).state.bg.stack@.len() < N,
                Instruction::PopBackground => old(self).state.bg.stack@.len() > 0,
                Instruction::PushForeground(_) => old(self).state.fg.stack@.len() < N,
                Instruction::PopForeground => old(self).state.fg.stack@.len() > 0,
                Instruction::ResetAll => true,
            },
        ensures
            final(self).wf(),
            instruction_post(
                old(self).state,
                final(self).state,
                old(self).output@,
                final(self).output@,
                instruction,
            ),
    {
        match instruction {
            Instruction::ResetAll => {
                self.state.flags = ChannelState { synced: Flags { bits: 0 }, stack: Vec::new() };
                self.state.bg = ChannelState { synced: Color::Default, stack: Vec::new() };
                self.state.fg = ChannelState { synced: Color::Default, stack: Vec::new() };
                self.state.dirty = false;
                self.output.push(27);
                self.output.push(91);
                self.output.push(109);
                proof {
                    assert(self.output@ =~= old(self).output@ + seq![27u8, 91u8, 109u8]);
                }
            },
            Instruction::PushFlags(flags, operator) => {
                let top = top_flags_of(&self.state.flags.stack);
                let f = match operator {
                    Operator::Assign => flags,
                    Operator::And => top.intersection(flags),
                    Operator::Or => top.union(flags),
                    Operator::Xor => top.toggle(flags),
                };
                self.state.flags.stack.push(f);
                self.state.dirty = true;
            },
            Instruction::PopFlags => {
                self.state.flags.stack.pop();
                self.state.dirty = true;
            },
            Instruction::PushBackground(color) => {
                self.state.bg.stack.push(color);
                self.state.dirty = true;
            },
            Instruction::PopBackground => {
                self.state.bg.stack.pop();
                self.state.dirty = true;
            },
            Instruction::PushForeground(color) => {
                self.state.fg.stack.push(color);
                self.state.dirty = true;
            },
            Instruction::PopForeground => {
                self.state.fg.stack.pop();
                self.state.dirty = true;
            },
        }
    }

    /// Writes one byte that uses both styling channels.
    pub fn push(&mut self, data: u8) -> (g: Ghost<Seq<Command>>)
        requires
            old(self).wf(),
        ensures
            final(self).wf(),
            sync_post(old(self).state, final(self).state, Annotations::all_spec(), g@),
            final(self).output@ == old(self).output@ + group_rendering(g@) + seq![data],
    {
        let g = self.sync(Annotations::all());
        self.output.push(data);
        g
    }

    /// Writes bytes that use both styling channels.
    pub fn extend_from_slice(&mut self, data: &[u8]) -> (g: Ghost<Seq<Command>>)
        requires
            old(self).wf(),
        ensures
            final(self).wf(),
            sync_post(old(self).state, final(self).state, Annotations::all_spec(), g@),
            final(self).output@ == old(self).output@ + group_rendering(g@) + data@,
    {
        let g = self.sync(Annotations::all());
        self.output.extend_from_slice(data);
        g
    }

    /// Writes one byte, syncing only the styling channels the byte uses:
    /// a write that does not use a channel gets no command for it, even when
    /// that channel's stack differs from what was emitted before.
    pub fn push_annotated(&mut self, data: u8, annotations: Annotations) -> (g: Ghost<
        Seq<Command>,
    >)
        requires
            old(self).wf(),
        ensures
            final(self).wf(),
            sync_post(old(self).state, final(self).state, annotations, g@),
            final(self).output@ == old(self).output@ + group_rendering(g@) + seq![data],
    {
        let g = self.sync(annotations);
        self.output.push(data);
        g
    }

    /// Writes bytes, syncing only the styling channels the bytes use.
    pub fn extend_from_slice_annotated(&mut self, data: &[u8], annotations: Annotations) -> (g:
        Ghost<Seq<Command>>)
        requires
            old(self).wf(),
        ensures
            final(self).wf(),
            sync_post(old(self).state, final(self).state, annotations, g@),
            final(self).output@ == old(self).output@ + group_rendering(g@) + data@,
    {
        let g = self.sync(annotations);
        self.output.extend_from_slice(data);
        g
    }

    /// Finishes the processor: emits a full reset and hands back the state
    /// and the output buffer.
    pub fn into_parts(self) -> (r: (ProcessorState<N>, Vec<u8>))
        ensures
            r.0 == self.state,
            r.1@ == self.output@ + seq![27u8, 91u8, 109u8],
    {
        let Processor { state, mut output } = self;
        output.push(27);
        output.push(91);
        output.push(109);
        (state, output)
    }
}

} // verus!
