use term_core::ansi::{AnsiParser, LoadParserError, TerminalOutput};
use term_core::buffer::{BufPos, CreateSnapshotError, LoadSnapshotError, TerminalBuffer2};
use term_core::cursor::{CursorPos, CursorState, LoadCursorPosError, LoadCursorStateError, SnapshotCursorPosError, TerminalColor};
use term_core::emulator::{LoadSnapshotError as LoadTerminalError, TerminalEmulator};
use term_core::format_tracker::{FormatTracker, LoadFormatTrackerError};
use term_core::snapshot::SnapshotItem;
use term_core::visible::LoadGridError;

fn dict(entries: Vec<(&str, SnapshotItem)>) -> SnapshotItem {
    SnapshotItem::Dict(entries.into_iter().map(|(k, v)| (k.to_string(), v)).collect())
}

#[test]
fn buf_pos_snapshot_round_trip() {
    for pos in [BufPos::new(3, 7), BufPos::new(0, 0), BufPos::max_value()] {
        let s = pos.snapshot().expect("position fits");
        assert_eq!(BufPos::from_snapshot(&s), Some(pos));
    }
    let s = BufPos::max_value().snapshot().unwrap();
    match s {
        SnapshotItem::Dict(entries) => {
            assert!(entries.iter().all(|(_, v)| matches!(v, SnapshotItem::Int(-1))));
        }
        _ => panic!("not a map"),
    }
    assert_eq!(BufPos::from_snapshot(&SnapshotItem::Bool(true)), None);
}

#[test]
fn cursor_pos_snapshot_errors() {
    let pos = CursorPos { x: 4, y: 9 };
    let s = pos.snapshot().unwrap();
    assert_eq!(CursorPos::from_snapshot(&s), Ok(pos));
    assert_eq!(CursorPos::from_snapshot(&SnapshotItem::Int(1)), Err(LoadCursorPosError::RootNotMap));
    assert_eq!(CursorPos::from_snapshot(&dict(vec![])), Err(LoadCursorPosError::MissingX));
    assert_eq!(
        CursorPos::from_snapshot(&dict(vec![("x", SnapshotItem::Int(-3))])),
        Err(LoadCursorPosError::XNotUsize)
    );
    assert_eq!(
        CursorPos::from_snapshot(&dict(vec![("x", SnapshotItem::Int(3))])),
        Err(LoadCursorPosError::MissingY)
    );
    assert_eq!(
        CursorPos::from_snapshot(&dict(vec![("x", SnapshotItem::Int(3)), ("y", SnapshotItem::Bool(false))])),
        Err(LoadCursorPosError::YNotUsize)
    );
    let big = CursorPos { x: usize::MAX, y: 0 };
    assert_eq!(big.snapshot().unwrap_err(), SnapshotCursorPosError::XNotI64);
    let big = CursorPos { x: 0, y: usize::MAX };
    assert_eq!(big.snapshot().unwrap_err(), SnapshotCursorPosError::YNotI64);
}

#[test]
fn cursor_state_snapshot_errors() {
    let good_pos = CursorPos { x: 1, y: 2 }.snapshot().unwrap();
    assert_eq!(CursorState::from_snapshot(&SnapshotItem::Int(0)), Err(LoadCursorStateError::RootNotMap));
    assert_eq!(CursorState::from_snapshot(&dict(vec![])), Err(LoadCursorStateError::BoldNotPresent));
    assert_eq!(
        CursorState::from_snapshot(&dict(vec![("bold", SnapshotItem::Int(1))])),
        Err(LoadCursorStateError::BoldNotBool)
    );
    assert_eq!(
        CursorState::from_snapshot(&dict(vec![("bold", SnapshotItem::Bool(true))])),
        Err(LoadCursorStateError::ColorNotPresent)
    );
    assert_eq!(
        CursorState::from_snapshot(&dict(vec![("bold", SnapshotItem::Bool(true)), ("color", SnapshotItem::Int(2))])),
        Err(LoadCursorStateError::ColorNotString)
    );
    assert_eq!(
        CursorState::from_snapshot(&dict(vec![
            ("bold", SnapshotItem::Bool(true)),
            ("color", SnapshotItem::String("pink".to_string()))
        ])),
        Err(LoadCursorStateError::ColorInvalid)
    );
    assert_eq!(
        CursorState::from_snapshot(&dict(vec![
            ("bold", SnapshotItem::Bool(true)),
            ("color", SnapshotItem::String("red".to_string()))
        ])),
        Err(LoadCursorStateError::PosNotPresent)
    );
    assert_eq!(
        CursorState::from_snapshot(&dict(vec![
            ("bold", SnapshotItem::Bool(true)),
            ("color", SnapshotItem::String("red".to_string())),
            ("pos", dict(vec![]))
        ])),
        Err(LoadCursorStateError::FailParsePos(LoadCursorPosError::MissingX))
    );
    assert_eq!(
        CursorState::from_snapshot(&dict(vec![
            ("bold", SnapshotItem::Bool(true)),
            ("color", SnapshotItem::String("red".to_string())),
            ("pos", good_pos)
        ])),
        Ok(CursorState { pos: CursorPos { x: 1, y: 2 }, bold: true, color: TerminalColor::Red })
    );
}

#[test]
fn buffer_snapshot_errors() {
    let mut buffer = TerminalBuffer2::new(3, 2);
    buffer.insert_data(&CursorPos { x: 0, y: 0 }, b"abcdefgh");
    let good = buffer.snapshot().unwrap();
    assert_eq!(TerminalBuffer2::from_snapshot(dict(vec![("visible_buf", SnapshotItem::Int(0))])).unwrap_err(), LoadSnapshotError::VisibleBufInvalid(LoadGridError::RootNotMap));
    let grid = TerminalBuffer2::new(2, 1).snapshot().unwrap();
    let grid_item = match grid {
        SnapshotItem::Dict(mut entries) => entries.remove(entries.iter().position(|(k, _)| k == "visible_buf").unwrap()).1,
        _ => panic!("not a map"),
    };
    let grid_copy = TerminalBuffer2::new(2, 1).snapshot().unwrap();
    let grid_item2 = match grid_copy {
        SnapshotItem::Dict(mut entries) => entries.remove(entries.iter().position(|(k, _)| k == "visible_buf").unwrap()).1,
        _ => panic!("not a map"),
    };
    let grid_copy3 = TerminalBuffer2::new(2, 1).snapshot().unwrap();
    let grid_item3 = match grid_copy3 {
        SnapshotItem::Dict(mut entries) => entries.remove(entries.iter().position(|(k, _)| k == "visible_buf").unwrap()).1,
        _ => panic!("not a map"),
    };
    assert_eq!(
        TerminalBuffer2::from_snapshot(dict(vec![("visible_buf", grid_item)])).unwrap_err(),
        LoadSnapshotError::ScrollbackNotPresent
    );
    assert_eq!(
        TerminalBuffer2::from_snapshot(dict(vec![("visible_buf", grid_item2), ("scrollback", SnapshotItem::Array(vec![SnapshotItem::Int(300)]))])).unwrap_err(),
        LoadSnapshotError::ScrollbackNotBytes
    );
    assert_eq!(
        TerminalBuffer2::from_snapshot(dict(vec![
            ("visible_buf", grid_item3),
            ("scrollback", SnapshotItem::Array(vec![SnapshotItem::Int(65)])),
            ("scrollback_line_pos", SnapshotItem::Array(vec![SnapshotItem::Int(5)]))
        ]))
        .unwrap_err(),
        LoadSnapshotError::LinePositionsOutOfOrder
    );
    let loaded = TerminalBuffer2::from_snapshot(good).unwrap();
    assert_eq!(loaded, buffer);
    let _ = CreateSnapshotError::GridSizeNotI64;
}

#[test]
fn parser_snapshot_round_trip() {
    let mut parser = AnsiParser::new();
    parser.push(b"ab\x1b[12;");
    let s = parser.snapshot();
    let mut loaded = AnsiParser::from_snapshot(&s).expect("parser state");
    assert_eq!(loaded.push(b"4H"), vec![TerminalOutput::SetCursorPos { x: Some(4), y: Some(12) }]);
    assert_eq!(parser.push(b"4H"), vec![TerminalOutput::SetCursorPos { x: Some(4), y: Some(12) }]);
    assert_eq!(AnsiParser::from_snapshot(&SnapshotItem::Int(0)).err(), Some(LoadParserError::StateNotPresent));
    assert_eq!(
        AnsiParser::from_snapshot(&dict(vec![("state", SnapshotItem::Int(9))])).err(),
        Some(LoadParserError::StateInvalid)
    );
}

#[test]
fn format_tracker_snapshot_round_trip() {
    let mut tracker = FormatTracker::new();
    let state = CursorState { pos: CursorPos { x: 0, y: 0 }, bold: true, color: TerminalColor::Green };
    tracker.push_range(&state, BufPos::new(1, 0)..BufPos::new(4, 2));
    let s = tracker.snapshot().unwrap();
    let loaded = FormatTracker::from_snapshot(&s).unwrap();
    assert_eq!(loaded.tags(), tracker.tags());
    assert_eq!(FormatTracker::from_snapshot(&SnapshotItem::Bool(false)).err(), Some(LoadFormatTrackerError::RootNotArray));
    assert_eq!(
        FormatTracker::from_snapshot(&SnapshotItem::Array(vec![SnapshotItem::Int(1)])).err(),
        Some(LoadFormatTrackerError::TagInvalid)
    );
}

#[test]
fn emulator_snapshot_round_trip() {
    let mut emulator = TerminalEmulator::new();
    emulator.handle_incoming_data(b"hello\r\n\x1b[1;32mworld\x1b[?1h\x1b[3");
    let s = emulator.snapshot().unwrap();
    let mut loaded = TerminalEmulator::from_snapshot(s).unwrap();
    assert_eq!(loaded.data().visible, emulator.data().visible);
    assert_eq!(loaded.cursor_pos(), emulator.cursor_pos());
    assert_eq!(loaded.format_data().visible, emulator.format_data().visible);
    loaded.handle_incoming_data(b"D!");
    emulator.handle_incoming_data(b"D!");
    assert_eq!(loaded.data().visible, emulator.data().visible);
    assert_eq!(TerminalEmulator::from_snapshot(SnapshotItem::Int(0)).err(), Some(LoadTerminalError::RootNotMap));
    assert_eq!(TerminalEmulator::from_snapshot(dict(vec![])).err(), Some(LoadTerminalError::ParserNotPresent));
}
