use term_core::buffer::{BufPos, TerminalBuffer2};
use term_core::cursor::CursorPos;

fn crlf(pos: &mut CursorPos, canvas: &mut TerminalBuffer2) {
    pos.x = 0;
    *pos = canvas.insert_data(pos, b"\n").new_cursor_pos;
}

#[test]
fn test_canvas_clear_forwards() {
    let mut buffer = TerminalBuffer2::new(5, 5);
    // Push enough data to get some in scrollback
    buffer.insert_data(&CursorPos { x: 0, y: 0 }, b"012343456789\n0123456789\n1234");

    assert_eq!(
        buffer.data().visible,
        b"\
                   34567\
                   89\n\
                   01234\
                   56789\n\
                   1234\n"
    );
    buffer.clear_forwards(&CursorPos { x: 1, y: 1 });
    // Same amount of lines should be present before and after clear
    assert_eq!(
        buffer.data().visible,
        b"\
                   34567\
                   8\n"
    );

    // A few special cases.
    // 1. Truncating on beginning of line and previous char was not a newline
    let mut buffer = TerminalBuffer2::new(5, 5);
    buffer.insert_data(&CursorPos { x: 0, y: 0 }, b"012340123401234012340123401234");
    buffer.clear_forwards(&CursorPos { x: 0, y: 1 });
    assert_eq!(buffer.data().visible, b"01234\n");

    // 2. Truncating on beginning of line and previous char was a newline
    let mut buffer = TerminalBuffer2::new(5, 5);
    buffer.insert_data(
        &CursorPos { x: 0, y: 0 },
        b"01234\n0123401234012340123401234",
    );
    buffer.clear_forwards(&CursorPos { x: 0, y: 1 });
    assert_eq!(buffer.data().visible, b"01234\n");

    // 3. Truncating on a newline
    let mut buffer = TerminalBuffer2::new(5, 5);
    buffer.insert_data(&CursorPos { x: 0, y: 0 }, b"\n\n\n\n\n\n");
    buffer.clear_forwards(&CursorPos { x: 0, y: 1 });
    assert_eq!(buffer.data().visible, b"");
}

#[test]
fn test_canvas_clear() {
    let mut buffer = TerminalBuffer2::new(5, 5);
    buffer.insert_data(&CursorPos { x: 0, y: 0 }, b"0123456789");
    buffer.clear_all();
    assert_eq!(buffer.data().visible, &[]);
}

#[test]
fn test_terminal_buffer_overwrite_early_newline() {
    let mut buffer = TerminalBuffer2::new(5, 5);
    buffer.insert_data(&CursorPos { x: 0, y: 0 }, b"012\n3456789");
    assert_eq!(buffer.data().visible, b"012\n3456789\n");

    // Cursor pos should be calculated based off wrapping at column 5, but should not result in
    // an extra newline
    buffer.insert_data(&CursorPos { x: 2, y: 1 }, b"test");
    assert_eq!(buffer.data().visible, b"012\n34test9\n");
}

#[test]
fn test_terminal_buffer_overwrite_no_newline() {
    let mut buffer = TerminalBuffer2::new(5, 5);
    buffer.insert_data(&CursorPos { x: 0, y: 0 }, b"0123456789");
    assert_eq!(buffer.data().visible, b"0123456789\n");

    // Cursor pos should be calculated based off wrapping at column 5, but should not result in
    // an extra newline
    buffer.insert_data(&CursorPos { x: 2, y: 1 }, b"test");
    assert_eq!(buffer.data().visible, b"0123456test\n");
}

#[test]
fn test_terminal_buffer_overwrite_late_newline() {
    // This should behave exactly as test_terminal_buffer_overwrite_no_newline(), except with a
    // neline between lines 1 and 2
    let mut buffer = TerminalBuffer2::new(5, 5);
    buffer.insert_data(&CursorPos { x: 0, y: 0 }, b"01234\n56789");
    assert_eq!(buffer.data().visible, b"01234\n56789\n");

    buffer.insert_data(&CursorPos { x: 2, y: 1 }, b"test");
    assert_eq!(buffer.data().visible, b"01234\n56test\n");
}

#[test]
fn test_terminal_buffer_insert_unallocated_data() {
    let mut buffer = TerminalBuffer2::new(10, 10);
    buffer.insert_data(&CursorPos { x: 4, y: 5 }, b"hello world");
    assert_eq!(buffer.data().visible, b"\n\n\n\n\n    hello world\n");

    buffer.insert_data(&CursorPos { x: 3, y: 2 }, b"hello world");
    assert_eq!(
        buffer.data().visible,
        b"\n\n   hello world\n\n    hello world\n"
    );
}

#[test]
fn test_canvas_scrolling() {
    let mut canvas = TerminalBuffer2::new(10, 3);
    let initial_cursor_pos = CursorPos { x: 0, y: 0 };

    // Simulate real terminal usage where newlines are injected with cursor moves
    let mut response = canvas.insert_data(&initial_cursor_pos, b"asdf");
    crlf(&mut response.new_cursor_pos, &mut canvas);
    let mut response = canvas.insert_data(&response.new_cursor_pos, b"xyzw");
    crlf(&mut response.new_cursor_pos, &mut canvas);
    let mut response = canvas.insert_data(&response.new_cursor_pos, b"1234");
    crlf(&mut response.new_cursor_pos, &mut canvas);
    let _response = canvas.insert_data(&response.new_cursor_pos, b"5678");

    assert_eq!(canvas.data().scrollback, b"asdf\n");
    assert_eq!(canvas.data().visible, b"xyzw\n1234\n5678\n");
}

#[test]
fn test_canvas_delete_forwards() {
    let mut canvas = TerminalBuffer2::new(10, 5);
    canvas.insert_data(&CursorPos { x: 0, y: 0 }, b"asdf\n123456789012345");

    // Test normal deletion
    let _deleted_range = canvas.delete_forwards(&CursorPos { x: 1, y: 0 }, 1);
    assert_eq!(canvas.data().visible, b"adf\n123456789012345\n");

    // Test deletion clamped on newline
    let _deleted_range = canvas.delete_forwards(&CursorPos { x: 1, y: 0 }, 10);
    assert_eq!(canvas.data().visible, b"a\n123456789012345\n");

    // Test deletion clamped on wrap
    let _deleted_range = canvas.delete_forwards(&CursorPos { x: 7, y: 1 }, 10);
    assert_eq!(canvas.data().visible, b"a\n1234567\n12345\n");

    // Test deletion in case where nothing is deleted
    let _deleted_range = canvas.delete_forwards(&CursorPos { x: 5, y: 5 }, 10);
    assert_eq!(canvas.data().visible, b"a\n1234567\n12345\n");
}

#[test]
fn test_canvas_insert_spaces() {
    let mut canvas = TerminalBuffer2::new(10, 5);
    canvas.insert_data(&CursorPos { x: 0, y: 0 }, b"asdf\n123456789012345");

    // Happy path
    let response = canvas.insert_spaces(&CursorPos { x: 2, y: 0 }, 2);
    assert_eq!(response.new_cursor_pos, CursorPos { x: 2, y: 0 });
    assert_eq!(canvas.data().visible, b"as  df\n123456789012345\n");

    // Truncation at newline
    let response = canvas.insert_spaces(&CursorPos { x: 2, y: 0 }, 1000);
    assert_eq!(response.new_cursor_pos, CursorPos { x: 2, y: 0 });
    assert_eq!(canvas.data().visible, b"as        \n123456789012345\n");

    // Truncation at line wrap
    let response = canvas.insert_spaces(&CursorPos { x: 4, y: 1 }, 1000);
    assert_eq!(response.new_cursor_pos, CursorPos { x: 4, y: 1 });
    assert_eq!(canvas.data().visible, b"as        \n1234      12345\n");

    // Insertion at non-existant buffer pos
    let response = canvas.insert_spaces(&CursorPos { x: 2, y: 4 }, 3);
    assert_eq!(response.new_cursor_pos, CursorPos { x: 2, y: 4 });
    assert_eq!(canvas.data().visible, b"as        \n1234      12345\n");
}

#[test]
fn test_clear_line_forwards() {
    let mut canvas = TerminalBuffer2::new(10, 5);
    canvas.insert_data(&CursorPos { x: 0, y: 0 }, b"asdf\n123456789012345");

    // Nothing do delete
    let response = canvas.clear_line_forwards(&CursorPos { x: 5, y: 5 });
    assert_eq!(response, None);
    assert_eq!(canvas.data().visible, b"asdf\n123456789012345\n");

    // Hit a newline
    let _response = canvas.clear_line_forwards(&CursorPos { x: 2, y: 0 });
    assert_eq!(canvas.data().visible, b"as\n123456789012345\n");

    // Hit a wrap
    let _response = canvas.clear_line_forwards(&CursorPos { x: 2, y: 1 });
    assert_eq!(canvas.data().visible, b"as\n12\n12345\n");

    // End of screen, beginning of line, previous line has no newline
    let mut canvas = TerminalBuffer2::new(5, 5);
    // 6 lines of 012345
    canvas.insert_data(&CursorPos { x: 0, y: 0 }, b"01234012340123401234abcde0123");
    assert_eq!(canvas.data().visible, b"012340123401234abcde0123\n");
    let _response = canvas.clear_line_forwards(&CursorPos { x: 0, y: 4 });
    assert_eq!(canvas.data().visible, b"012340123401234abcde\n");
}

#[test]
fn test_insert_lines() {
    let mut canvas = TerminalBuffer2::new(5, 5);

    // Test empty canvas
    let _response = canvas.insert_lines(&CursorPos { x: 0, y: 0 }, 3);
    // Clear doesn't have to do anything as there's nothing in the canvas to push aside
    assert_eq!(canvas.data().visible, b"");

    // Test edge wrapped
    canvas.insert_data(&CursorPos { x: 0, y: 0 }, b"0123456789asdf\nxyzw");
    assert_eq!(canvas.data().visible, b"0123456789asdf\nxyzw\n");
    let _response = canvas.insert_lines(&CursorPos { x: 3, y: 2 }, 1);
    assert_eq!(canvas.data().visible, b"0123456789\n\nasdf\nxyzw\n");

    // Test newline wrapped + lines pushed off the edge
    let _response = canvas.insert_lines(&CursorPos { x: 3, y: 2 }, 1);
    assert_eq!(canvas.data().visible, b"0123456789\n\n\nasdf\n");
}

#[test]
fn test_buffer_snapshot() {
    let mut terminal_buffer = TerminalBuffer2::new(5, 3);
    terminal_buffer.insert_data(
        &CursorPos { x: 2, y: 1 },
        b"hello world\n asdf asdf\n wrap and stuff",
    );

    let snapshot = terminal_buffer.snapshot().expect("failed to snapshot");
    let loaded = TerminalBuffer2::from_snapshot(snapshot).expect("failed to load snapshot");
    assert_eq!(terminal_buffer, loaded);
}

#[test]
fn test_insertion_response() {
    let mut terminal_buffer = TerminalBuffer2::new(5, 5);
    let response = terminal_buffer.insert_data(&CursorPos { x: 0, y: 0 }, b"asdf");
    assert_eq!(response.written_range, BufPos::new(0, 0)..BufPos::new(4, 0));
    assert_eq!(response.new_cursor_pos, CursorPos { x: 4, y: 0 });

    // insertion at x 3, y 2, NOTE: no eviction
    let response = terminal_buffer.insert_data(&CursorPos { x: 3, y: 2 }, b"asdf");
    assert_eq!(response.written_range, BufPos::new(3, 2)..BufPos::new(2, 3));
    assert_eq!(response.new_cursor_pos, CursorPos { x: 2, y: 3 });
}

#[test]
fn test_insertion_response_too_much_data() {
    let mut terminal_buffer = TerminalBuffer2::new(5, 5);
    let response = terminal_buffer.insert_data(
        &CursorPos { x: 0, y: 0 },
        b"0123401234012340123401234abcdeabc",
    );

    assert_eq!(response.written_range, BufPos::new(0, 0)..BufPos::new(3, 6));
    assert_eq!(response.new_cursor_pos, CursorPos { x: 3, y: 4 });

    let mut terminal_buffer = TerminalBuffer2::new(5, 5);
    let response = terminal_buffer.insert_data(
        &CursorPos { x: 0, y: 0 },
        b"01234\n01234\n01234\n01234\n01234\nabcde\nabc",
    );
    assert_eq!(response.written_range, BufPos::new(0, 0)..BufPos::new(3, 6));
    assert_eq!(response.new_cursor_pos, CursorPos { x: 3, y: 4 });
}

#[test]
fn test_insertion_response_some_evicted() {
    let mut terminal_buffer = TerminalBuffer2::new(5, 5);
    let response = terminal_buffer.insert_data(&CursorPos { x: 0, y: 0 }, b"as\n");
    let response = terminal_buffer.insert_data(
        &response.new_cursor_pos,
        b"01234\n01234\n01234\n01234\n0123",
    );
    assert_eq!(
        response.written_range,
        (BufPos::new(0, 1)..BufPos::new(4, 5))
    );
    assert_eq!(response.new_cursor_pos, CursorPos { x: 4, y: 4 });
}
