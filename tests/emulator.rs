use term_core::ansi::{AnsiParser, SelectGraphicRendition, TerminalOutput};
use term_core::buffer::{BufPos, LoadSnapshotError, TerminalBuffer2};
use term_core::snapshot::SnapshotItem;
use term_core::cursor::{CursorPos, CursorState, TerminalColor};
use term_core::emulator::TerminalEmulator;
use term_core::format_tracker::FormatTracker;
use term_core::input::{char_to_ctrl_code, TerminalInput};

#[test]
fn test_cursor_state_snapshot() {
    let state = CursorState {
        pos: CursorPos { x: 10, y: 50 },
        bold: false,
        color: TerminalColor::Magenta,
    };

    let snapshot = state.snapshot().expect("failed to create snapshot");
    let loaded = CursorState::from_snapshot(&snapshot).expect("failed to load snapshot");
    assert_eq!(loaded, state);
}

fn visible(buffer: &TerminalBuffer2) -> Vec<u8> {
    buffer.data().visible
}

#[test]
fn visible_text_empty_iff_nothing_written() {
    let buffer = TerminalBuffer2::new(4, 3);
    assert_eq!(visible(&buffer), b"");
    let mut buffer = TerminalBuffer2::new(4, 3);
    buffer.insert_data(&CursorPos { x: 0, y: 1 }, b"ab");
    let v = visible(&buffer);
    assert_eq!(v, b"\nab\n");
    assert_eq!(*v.last().unwrap(), b'\n');
}

#[test]
fn visible_line_mappings_give_row_starts() {
    let mut buffer = TerminalBuffer2::new(5, 4);
    buffer.insert_data(&CursorPos { x: 0, y: 0 }, b"ab\ncdefgh");
    let data = buffer.data();
    assert_eq!(data.visible, b"ab\ncdefgh\n");
    assert_eq!(data.visible_line_mappings, vec![0, 3, 8, 9]);
}

#[test]
fn wrap_equivalence_on_a_full_row() {
    let mut split = TerminalBuffer2::new(5, 3);
    let r = split.insert_data(&CursorPos { x: 0, y: 0 }, b"abcde");
    assert_eq!(r.new_cursor_pos, CursorPos { x: 0, y: 1 });
    let r = split.insert_data(&r.new_cursor_pos, b"f");
    let mut whole = TerminalBuffer2::new(5, 3);
    let w = whole.insert_data(&CursorPos { x: 0, y: 0 }, b"abcdef");
    assert_eq!(r.new_cursor_pos, w.new_cursor_pos);
    assert_eq!(split, whole);
    assert_eq!(visible(&split), b"abcdef\n");
}

#[test]
fn scrollback_only_grows() {
    let mut buffer = TerminalBuffer2::new(3, 2);
    buffer.insert_data(&CursorPos { x: 0, y: 0 }, b"ab\ncd\n");
    let first = buffer.data();
    assert_eq!(first.scrollback, b"ab\n");
    assert_eq!(first.scrollback_line_mappings, vec![0]);
    buffer.insert_data(&CursorPos { x: 0, y: 1 }, b"xyz\n");
    let second = buffer.data();
    assert_eq!(&second.scrollback[..3], b"ab\n");
    assert_eq!(second.scrollback_line_mappings[0], 0);
    assert!(second.scrollback_line_mappings.len() >= first.scrollback_line_mappings.len());
}

#[test]
fn row_ids_survive_scrolling() {
    let mut buffer = TerminalBuffer2::new(4, 2);
    let r = buffer.insert_data(&CursorPos { x: 0, y: 1 }, b"hi");
    assert_eq!(r.written_range.start, BufPos::new(0, 1));
    buffer.insert_data(&CursorPos { x: 0, y: 1 }, b"hi\n\n");
    // the row written with id 1 has left the grid; its bytes start at its offset
    let data = buffer.data();
    let start = data.scrollback_line_mappings[1];
    assert_eq!(&data.scrollback[start..start + 2], b"hi");
    assert_eq!(buffer.get_visible_range().start, BufPos::new(0, 2));
}

#[test]
fn clear_all_keeps_row_ids() {
    let mut buffer = TerminalBuffer2::new(3, 2);
    buffer.insert_data(&CursorPos { x: 0, y: 0 }, b"ab\ncd\nef");
    assert_eq!(buffer.scrollback_line_count(), 1);
    buffer.clear_all();
    let data = buffer.data();
    assert_eq!(data.scrollback, b"");
    assert_eq!(data.scrollback_line_mappings, vec![0]);
    assert_eq!(data.visible, b"");
}

#[test]
fn resize_rewraps_rows() {
    let mut buffer = TerminalBuffer2::new(10, 3);
    buffer.insert_data(&CursorPos { x: 0, y: 0 }, b"0123456789ab");
    let r = buffer.set_win_size(5, 4, &CursorPos { x: 2, y: 1 });
    assert!(r.changed);
    assert_eq!(buffer.data().visible, b"0123456789ab\n");
    assert_eq!(r.new_cursor_pos, CursorPos { x: 2, y: 2 });
    assert_eq!(buffer.get_win_size(), (5, 4));
    let r = buffer.set_win_size(5, 4, &CursorPos { x: 1, y: 1 });
    assert!(!r.changed);
    assert_eq!(r.new_cursor_pos, CursorPos { x: 1, y: 1 });
}

#[test]
fn snapshot_rejects_missing_fields() {
    assert_eq!(
        TerminalBuffer2::from_snapshot(SnapshotItem::Int(3)).unwrap_err(),
        LoadSnapshotError::RootNotMap
    );
    assert_eq!(
        TerminalBuffer2::from_snapshot(SnapshotItem::Dict(Vec::new())).unwrap_err(),
        LoadSnapshotError::VisibleBufNotPresent
    );
}

#[test]
fn format_tags_do_not_overlap() {
    let mut tracker = FormatTracker::new();
    let red = CursorState { pos: CursorPos { x: 0, y: 0 }, bold: false, color: TerminalColor::Red };
    let bold = CursorState { pos: CursorPos { x: 0, y: 0 }, bold: true, color: TerminalColor::Default };
    tracker.push_range(&red, BufPos::new(0, 0)..BufPos::new(10, 0));
    tracker.push_range(&bold, BufPos::new(3, 0)..BufPos::new(5, 0));
    tracker.push_range(&red, BufPos::new(8, 0)..BufPos::new(2, 1));
    let tags = tracker.tags();
    for i in 0..tags.len() {
        for j in i + 1..tags.len() {
            assert!(tags[i].end <= tags[j].start);
        }
    }
    assert_eq!(tags[1].start, BufPos::new(3, 0));
    assert_eq!(tags[1].end, BufPos::new(5, 0));
    assert!(tags[1].bold);
}

#[test]
fn parser_split_invariance() {
    let stream: &[u8] = b"ab\x1b[1;31mcd\r\n\x1b[2J\x1b[3;4Hx\x1b[?1h\x1b[Ky";
    let mut whole = AnsiParser::new();
    let all = whole.push(stream);
    let mut bytewise = AnsiParser::new();
    let mut pieces = Vec::new();
    for b in stream {
        pieces.extend(bytewise.push(&[*b]));
    }
    assert_eq!(all, pieces);
    assert_eq!(whole.flush(), vec![TerminalOutput::Data(b"y".to_vec())]);
    assert_eq!(bytewise.flush(), vec![TerminalOutput::Data(b"y".to_vec())]);
}

#[test]
fn parser_events() {
    let mut parser = AnsiParser::new();
    let events = parser.push(b"ab\x1b[1;31m\x1b[5;7H\x1b[2A\x1b[3C\x1b[J\x1b[2J\x1b[K\x1b[4L\x1b[@\x1b[2P\x1bx\n\r\x08");
    assert_eq!(
        events,
        vec![
            TerminalOutput::Data(b"ab".to_vec()),
            TerminalOutput::Sgr(SelectGraphicRendition::Bold),
            TerminalOutput::Sgr(SelectGraphicRendition::ForegroundRed),
            TerminalOutput::SetCursorPos { x: Some(7), y: Some(5) },
            TerminalOutput::SetCursorPosRel { x: None, y: Some(-2) },
            TerminalOutput::SetCursorPosRel { x: Some(3), y: None },
            TerminalOutput::ClearForwards,
            TerminalOutput::ClearAll,
            TerminalOutput::ClearLineForwards,
            TerminalOutput::InsertLines(4),
            TerminalOutput::InsertSpaces(1),
            TerminalOutput::Delete(2),
            TerminalOutput::Invalid,
            TerminalOutput::Newline,
            TerminalOutput::CarriageReturn,
            TerminalOutput::Backspace,
        ]
    );
}

#[test]
fn emulator_draws_text_and_styles() {
    let mut emulator = TerminalEmulator::new();
    emulator.handle_incoming_data(b"$ ls\r\n\x1b[31mred\x1b[0m plain");
    emulator.flush();
    assert_eq!(emulator.data().visible, b"$ ls\nred plain\n");
    assert_eq!(emulator.cursor_pos(), CursorPos { x: 9, y: 1 });
    let tags = emulator.format_data().visible;
    assert!(tags.iter().any(|t| t.color == TerminalColor::Red && t.start == 5 && t.end == 8));
}

#[test]
fn emulator_cursor_moves_stay_in_grid() {
    let mut emulator = TerminalEmulator::new();
    emulator.handle_incoming_data(b"\x1b[100;200H");
    assert_eq!(emulator.cursor_pos(), CursorPos { x: 49, y: 15 });
    emulator.handle_incoming_data(b"\x1b[99D\x1b[99A");
    assert_eq!(emulator.cursor_pos(), CursorPos { x: 0, y: 0 });
}

#[test]
fn input_payloads() {
    assert_eq!(char_to_ctrl_code(b'c'), 3);
    assert_eq!(TerminalInput::Ascii(b'a').to_payload(false), b"a");
    assert_eq!(TerminalInput::Ctrl(b'c').to_payload(false), vec![3]);
    assert_eq!(TerminalInput::Enter.to_payload(true), b"\n");
    assert_eq!(TerminalInput::Backspace.to_payload(false), vec![0x7f]);
    assert_eq!(TerminalInput::ArrowUp.to_payload(false), b"\x1b[A");
    assert_eq!(TerminalInput::ArrowUp.to_payload(true), b"\x1bOA");
    assert_eq!(TerminalInput::End.to_payload(true), b"\x1bOF");
    assert_eq!(TerminalInput::Delete.to_payload(true), b"\x1b[3~");
    assert_eq!(TerminalInput::PageDown.to_payload(false), b"\x1b[6~");
    let mut emulator = TerminalEmulator::new();
    emulator.handle_incoming_data(b"\x1b[?1h");
    assert_eq!(emulator.input_payload(TerminalInput::ArrowLeft), b"\x1bOD");
    emulator.handle_incoming_data(b"\x1b[?1l");
    assert_eq!(emulator.input_payload(TerminalInput::ArrowLeft), b"\x1b[D");
}

#[test]
fn color_names_round_trip() {
    assert_eq!(TerminalColor::Cyan.to_string(), "cyan");
    assert_eq!(TerminalColor::from_name(&"cyan".to_string()), Some(TerminalColor::Cyan));
    assert_eq!(TerminalColor::from_name(&"purple".to_string()), None);
    assert_eq!(TerminalColor::from_sgr(SelectGraphicRendition::ForegroundBlue), Some(TerminalColor::Blue));
    assert_eq!(TerminalColor::from_sgr(SelectGraphicRendition::Bold), None);
}

#[test]
fn touching_tags_of_one_style_merge() {
    let mut tracker = FormatTracker::new();
    let red = CursorState { pos: CursorPos { x: 0, y: 0 }, bold: false, color: TerminalColor::Red };
    tracker.push_range(&red, BufPos::new(0, 0)..BufPos::new(5, 0));
    tracker.push_range(&red, BufPos::new(5, 0)..BufPos::new(8, 0));
    let tags = tracker.tags();
    assert_eq!(tags.len(), 1);
    assert_eq!(tags[0].start, BufPos::new(0, 0));
    assert_eq!(tags[0].end, BufPos::new(8, 0));
}

#[test]
fn clearing_a_line_takes_its_style_off() {
    let mut emulator = TerminalEmulator::new();
    emulator.handle_incoming_data(b"\x1b[31mabc\x1b[0m\r\n\x1b[32mdef");
    emulator.flush();
    assert_eq!(emulator.format_data().visible.len(), 2);
    emulator.handle_incoming_data(b"\r\x1b[K");
    let tags = emulator.format_data().visible;
    assert_eq!(tags.len(), 1);
    assert_eq!(tags[0].color, TerminalColor::Red);
    assert_eq!(emulator.data().visible, b"abc\n");
}

#[test]
fn single_cell_grid_scrolls_every_byte() {
    let mut buffer = TerminalBuffer2::new(1, 1);
    let r = buffer.insert_data(&CursorPos { x: 0, y: 0 }, b"abc");
    assert_eq!(r.new_cursor_pos, CursorPos { x: 0, y: 0 });
    assert_eq!(r.written_range, BufPos::new(0, 0)..BufPos::new(0, 3));
    let data = buffer.data();
    assert_eq!(data.scrollback, b"abc");
    assert_eq!(data.scrollback_line_mappings, vec![0, 1, 2]);
    assert_eq!(data.visible, b"");
}

#[test]
fn empty_insert_changes_nothing() {
    let mut buffer = TerminalBuffer2::new(4, 2);
    let r = buffer.insert_data(&CursorPos { x: 3, y: 1 }, b"");
    assert_eq!(r.new_cursor_pos, CursorPos { x: 3, y: 1 });
    assert_eq!(r.written_range.start, r.written_range.end);
    assert_eq!(buffer.data().visible, b"");
    assert_eq!(buffer, TerminalBuffer2::new(4, 2));
}

#[test]
fn split_write_matches_whole_write() {
    let stream: &[u8] = b"abcdefghijklmnopq";
    for k in 0..=stream.len() {
        for x in 0..4 {
            let mut split = TerminalBuffer2::new(4, 3);
            let r1 = split.insert_data(&CursorPos { x, y: 1 }, &stream[..k]);
            let r2 = split.insert_data(&r1.new_cursor_pos, &stream[k..]);
            let mut whole = TerminalBuffer2::new(4, 3);
            let r = whole.insert_data(&CursorPos { x, y: 1 }, stream);
            assert_eq!(split, whole);
            assert_eq!(r2.new_cursor_pos, r.new_cursor_pos);
            assert_eq!(r1.written_range.start, r.written_range.start);
            assert_eq!(r2.written_range.end, r.written_range.end);
        }
    }
}

#[test]
fn clear_all_leaves_one_tag() {
    let mut emulator = TerminalEmulator::new();
    emulator.handle_incoming_data(b"\x1b[31mab\x1b[1mcd\x1b[2J");
    let data = emulator.format_data();
    assert_eq!(data.visible.len(), 1);
    assert_eq!(data.visible[0].start, 0);
    assert_eq!(data.visible[0].end, 0);
    assert!(data.visible[0].bold);
    assert_eq!(data.visible[0].color, TerminalColor::Red);
}

#[test]
fn projected_ranges_stay_inside_their_region() {
    let mut emulator = TerminalEmulator::new();
    emulator.handle_incoming_data(b"\x1b[32mhello\r\n");
    emulator.handle_incoming_data(b"\x1b[2J");
    emulator.handle_incoming_data(b"xy");
    emulator.flush();
    let text = emulator.data();
    let tags = emulator.format_data();
    for t in &tags.visible {
        assert!(t.end <= text.visible.len());
        assert!(t.start <= text.visible.len());
    }
    for t in &tags.scrollback {
        assert!(t.end <= text.scrollback.len());
    }
}

#[test]
fn resize_styles_the_visible_range() {
    let mut emulator = TerminalEmulator::new();
    emulator.handle_incoming_data(b"\x1b[33mabc");
    emulator.flush();
    assert!(emulator.set_win_size(20, 5));
    assert_eq!(emulator.get_win_size(), (20, 5));
    let tags = emulator.format_data().visible;
    assert!(tags.iter().all(|t| t.color == TerminalColor::Yellow));
    assert!(!emulator.set_win_size(20, 5));
}

#[test]
fn printable_run_waits_for_its_end() {
    let mut parser = AnsiParser::new();
    assert_eq!(parser.push(b"ab"), vec![]);
    assert_eq!(parser.push(b"cd\n"), vec![TerminalOutput::Data(b"abcd".to_vec()), TerminalOutput::Newline]);
    assert_eq!(parser.flush(), vec![]);
    let mut emulator = TerminalEmulator::new();
    emulator.handle_incoming_data(b"$ ");
    assert_eq!(emulator.data().visible, b"");
    emulator.flush();
    assert_eq!(emulator.data().visible, b"$ \n");
    assert_eq!(emulator.cursor_pos(), CursorPos { x: 2, y: 0 });
}

#[test]
fn emulator_split_invariance() {
    let stream: &[u8] = b"$ ls\r\n\x1b[31mred\x1b[0m plain text that wraps around the edge of the grid\x1b[2;3H\x1b[1mX\x1b[K";
    let mut whole = TerminalEmulator::new();
    whole.handle_incoming_data(stream);
    whole.flush();
    let mut bytewise = TerminalEmulator::new();
    for b in stream {
        bytewise.handle_incoming_data(&[*b]);
    }
    bytewise.flush();
    assert_eq!(whole.data().visible, bytewise.data().visible);
    assert_eq!(whole.data().scrollback, bytewise.data().scrollback);
    assert_eq!(whole.cursor_pos(), bytewise.cursor_pos());
    assert_eq!(whole.format_data().visible, bytewise.format_data().visible);
}
