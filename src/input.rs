use vstd::prelude::*;

verus! {

/// Clears the high bits of a character code, giving the code that the
/// character sends when typed together with the control key.
pub open spec fn ctrl_code(c: u8) -> u8 {
    (c & 0x1f) as u8
}

pub fn char_to_ctrl_code(c: u8) -> (r: u8)
    ensures
        r == ctrl_code(c),
{
    c & 0x1f
}

/// A key that the user pressed.
#[derive(Debug, Clone, Copy, PartialEq, Eq, Structural)]
pub enum TerminalInput {
    /// A plain key.
    Ascii(u8),
    /// A key together with the control key.
    Ctrl(u8),
    Enter,
    Backspace,
    ArrowRight,
    ArrowLeft,
    ArrowUp,
    ArrowDown,
    Home,
    End,
    Delete,
    Insert,
    PageUp,
    PageDown,
}

/// `ESC O c` where cursor keys are in application mode, else `ESC [ c`.
pub open spec fn cursor_key(c: u8, decckm_mode: bool) -> Seq<u8> {
    if decckm_mode {
        seq![0x1bu8, 0x4fu8, c]
    } else {
        seq![0x1bu8, 0x5bu8, c]
    }
}

/// `ESC [ c ~`.
pub open spec fn tilde_key(c: u8) -> Seq<u8> {
    seq![0x1bu8, 0x5bu8, c, 0x7eu8]
}

/// The bytes that a key sends to the shell.
pub open spec fn payload(key: TerminalInput, decckm_mode: bool) -> Seq<u8> {
    match key {
        TerminalInput::Ascii(c) => seq![c],
        TerminalInput::Ctrl(c) => seq![ctrl_code(c)],
        TerminalInput::Enter => seq![0x0au8],
        TerminalInput::Backspace => seq![0x7fu8],
        TerminalInput::ArrowRight => cursor_key(0x43, decckm_mode),
        TerminalInput::ArrowLeft => cursor_key(0x44, decckm_mode),
        TerminalInput::ArrowUp => cursor_key(0x41, decckm_mode),
        TerminalInput::ArrowDown => cursor_key(0x42, decckm_mode),
        TerminalInput::Home => cursor_key(0x48, decckm_mode),
        TerminalInput::End => cursor_key(0x46, decckm_mode),
        TerminalInput::Delete => tilde_key(0x33),
        TerminalInput::Insert => tilde_key(0x32),
        TerminalInput::PageUp => tilde_key(0x35),
        TerminalInput::PageDown => tilde_key(0x36),
    }
}

fn cursor_key_exec(c: u8, decckm_mode: bool) -> (r: Vec<u8>)
    ensures
        r@ == cursor_key(c, decckm_mode),
{
    let r = if decckm_mode {
        vec![0x1bu8, 0x4fu8, c]
    } else {
        vec![0x1bu8, 0x5bu8, c]
    };
    assert(r@ =~= cursor_key(c, decckm_mode));
    r
}

fn tilde_key_exec(c: u8) -> (r: Vec<u8>)
    ensures
        r@ == tilde_key(c),
{
    let r = vec![0x1bu8, 0x5bu8, c, 0x7eu8];
    assert(r@ =~= tilde_key(c));
    r
}

fn single_byte(b: u8) -> (r: Vec<u8>)
    ensures
        r@ == seq![b],
{
    let r = vec![b];
    assert(r@ =~= seq![b]);
    r
}

impl TerminalInput {
    /// The bytes that the key sends, with cursor keys in application mode
    /// where `decckm_mode` is set.
    pub fn to_payload(&self, decckm_mode: bool) -> (r: Vec<u8>)
        ensures
            r@ == payload(*self, decckm_mode),
    {
        match self {
            TerminalInput::Ascii(c) => single_byte(*c),
            TerminalInput::Ctrl(c) => single_byte(char_to_ctrl_code(*c)),
            TerminalInput::Enter => single_byte(0x0a),
            TerminalInput::Backspace => single_byte(0x7f),
            TerminalInput::ArrowRight => cursor_key_exec(0x43, decckm_mode),
            TerminalInput::ArrowLeft => cursor_key_exec(0x44, decckm_mode),
            TerminalInput::ArrowUp => cursor_key_exec(0x41, decckm_mode),
            TerminalInput::ArrowDown => cursor_key_exec(0x42, decckm_mode),
            TerminalInput::Home => cursor_key_exec(0x48, decckm_mode),
            TerminalInput::End => cursor_key_exec(0x46, decckm_mode),
            TerminalInput::Delete => tilde_key_exec(0x33),
            TerminalInput::Insert => tilde_key_exec(0x32),
            TerminalInput::PageUp => tilde_key_exec(0x35),
            TerminalInput::PageDown => tilde_key_exec(0x36),
        }
    }
}

} // verus!
