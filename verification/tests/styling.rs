use hl::eseq::{
    dual_flag_sync, Annotations, BasicColor, Brightness, Color, Flags, Instruction, Processor,
    ProcessorState, Sequence, BOLD, FAINT,
};

#[test]
fn test_dual_flag_sync() {
    let table = [
        (Flags::of(0), Flags::of(0), (false, false, false)),
        (Flags::of(0), Flags::of(BOLD), (true, false, false)),
        (Flags::of(0), Flags::of(FAINT), (false, true, false)),
        (Flags::of(0), Flags::of(BOLD | FAINT), (true, true, false)),
        (Flags::of(BOLD), Flags::of(0), (false, false, true)),
        (Flags::of(BOLD), Flags::of(BOLD), (false, false, false)),
        (Flags::of(BOLD), Flags::of(FAINT), (false, true, true)),
        (Flags::of(BOLD), Flags::of(BOLD | FAINT), (false, true, false)),
        (Flags::of(FAINT), Flags::of(0), (false, false, true)),
        (Flags::of(FAINT), Flags::of(BOLD), (true, false, true)),
        (Flags::of(FAINT), Flags::of(FAINT), (false, false, false)),
        (Flags::of(FAINT), Flags::of(BOLD | FAINT), (true, false, false)),
        (Flags::of(BOLD | FAINT), Flags::of(0), (false, false, true)),
        (Flags::of(BOLD | FAINT), Flags::of(BOLD), (true, false, true)),
        (Flags::of(BOLD | FAINT), Flags::of(FAINT), (false, true, true)),
        (Flags::of(BOLD | FAINT), Flags::of(BOLD | FAINT), (false, false, false)),
    ];
    for (current, flags, expected) in table {
        let result =
            dual_flag_sync(current.toggle(flags), flags, Flags::of(BOLD), Flags::of(FAINT));
        assert_eq!(result, expected);
    }
}

#[test]
fn test_processor() {
    let state = ProcessorState::<16>::new();
    let output = Vec::<u8>::new();
    let mut processor = Processor::new(state, output);
    processor.push_instruction(Instruction::PushForeground(Color::Plain(
        BasicColor::Green,
        Brightness::Normal,
    )));
    processor.extend_from_slice(b"hello");
    processor.push(b',');
    processor.push(b' ');
    processor.push_instruction(Instruction::PushForeground(Color::Plain(
        BasicColor::Green,
        Brightness::Normal,
    )));
    processor.extend_from_slice(b"world");
    processor.push_instruction(Instruction::PopForeground);
    processor.push_instruction(Instruction::PopForeground);
    let (_state, output) = processor.into_parts();
    assert_eq!(output, b"\x1b[32mhello, world\x1b[m")
}

#[test]
fn background_not_synced_on_foreground_write() {
    // a write annotated as foreground-only must not emit a background command
    let state = ProcessorState::<16>::new();
    let mut processor = Processor::new(state, Vec::new());
    processor.push_instruction(Instruction::PushBackground(Color::Plain(
        BasicColor::Red,
        Brightness::Normal,
    )));
    processor.push_annotated(b'x', Annotations::foreground_only());
    let (_state, output) = processor.into_parts();
    assert_eq!(output, b"x\x1b[m");
}

#[test]
fn no_group_emitted_when_style_unchanged() {
    let state = ProcessorState::<16>::new();
    let mut processor = Processor::new(state, Vec::new());
    processor.push_instruction(Instruction::PushForeground(Color::Plain(
        BasicColor::Green,
        Brightness::Normal,
    )));
    processor.push(b'a');
    processor.push(b'b');
    let (_state, output) = processor.into_parts();
    assert_eq!(output, b"\x1b[32mab\x1b[m");
}

#[test]
fn reset_sequence_bytes() {
    assert_eq!(Sequence::reset().data(), b"\x1b[m");
}

#[test]
fn test_theme() {
    let theme = hl::theme::Theme::none();
    let pack = theme.apply(&Some(hl::model::Level::Debug));
    let mut styler = hl::theme::Styler::new(pack);
    let mut buf = Vec::new();
    let saved = styler.element_begin(hl::theme::Element::Message);
    styler.batch(&mut buf, b"hello!");
    styler.element_end(saved);
    assert_eq!(buf, b"hello!");
}
