use vstd::prelude::*;

use crate::ansi::SelectGraphicRendition;
use crate::snapshot::{as_bool, as_usize, entry_value, field, get_field, key_string, read_bool, read_usize, usize_item, SnapshotItem};

verus! {

/// A cell of the visible grid: column `x`, row `y`, from the top left.
#[derive(Debug, Clone, Copy, PartialEq, Eq, Structural)]
pub struct CursorPos {
    pub x: usize,
    pub y: usize,
}

/// The colour that text is drawn in.
#[derive(Debug, Clone, Copy, PartialEq, Eq, Structural)]
pub enum TerminalColor {
    Default,
    Black,
    Red,
    Green,
    Yellow,
    Blue,
    Magenta,
    Cyan,
    White,
}

/// The cursor and the style that text written at it gets.
#[derive(Debug, Clone, Copy, PartialEq, Eq, Structural)]
pub struct CursorState {
    pub pos: CursorPos,
    pub bold: bool,
    pub color: TerminalColor,
}

pub open spec fn color_of_sgr(sgr: SelectGraphicRendition) -> Option<TerminalColor> {
    match sgr {
        SelectGraphicRendition::ForegroundBlack => Some(TerminalColor::Black),
        SelectGraphicRendition::ForegroundRed => Some(TerminalColor::Red),
        SelectGraphicRendition::ForegroundGreen => Some(TerminalColor::Green),
        SelectGraphicRendition::ForegroundYellow => Some(TerminalColor::Yellow),
        SelectGraphicRendition::ForegroundBlue => Some(TerminalColor::Blue),
        SelectGraphicRendition::ForegroundMagenta => Some(TerminalColor::Magenta),
        SelectGraphicRendition::ForegroundCyan => Some(TerminalColor::Cyan),
        SelectGraphicRendition::ForegroundWhite => Some(TerminalColor::White),
        _ => None,
    }
}

/// The name a colour is saved under.
pub open spec fn color_name(c: TerminalColor) -> Seq<char> {
    match c {
        TerminalColor::Default => "default"@,
        TerminalColor::Black => "black"@,
        TerminalColor::Red => "red"@,
        TerminalColor::Green => "green"@,
        TerminalColor::Yellow => "yellow"@,
        TerminalColor::Blue => "blue"@,
        TerminalColor::Magenta => "magenta"@,
        TerminalColor::Cyan => "cyan"@,
        TerminalColor::White => "white"@,
    }
}

pub open spec fn color_of_name(n: Seq<char>) -> Option<TerminalColor> {
    if n == "default"@ {
        Some(TerminalColor::Default)
    } else if n == "black"@ {
        Some(TerminalColor::Black)
    } else if n == "red"@ {
        Some(TerminalColor::Red)
    } else if n == "green"@ {
        Some(TerminalColor::Green)
    } else if n == "yellow"@ {
        Some(TerminalColor::Yellow)
    } else if n == "blue"@ {
        Some(TerminalColor::Blue)
    } else if n == "magenta"@ {
        Some(TerminalColor::Magenta)
    } else if n == "cyan"@ {
        Some(TerminalColor::Cyan)
    } else if n == "white"@ {
        Some(TerminalColor::White)
    } else {
        None
    }
}

/// Each colour is read back from its name.
pub proof fn lemma_color_name_round_trip(c: TerminalColor)
    ensures
        color_of_name(color_name(c)) == Some(c),
{
    reveal_strlit("default");
    reveal_strlit("black");
    reveal_strlit("red");
    reveal_strlit("green");
    reveal_strlit("yellow");
    reveal_strlit("blue");
    reveal_strlit("magenta");
    reveal_strlit("cyan");
    reveal_strlit("white");
    assert("default"@.len() == 7 && "black"@.len() == 5 && "red"@.len() == 3);
    assert("green"@.len() == 5 && "yellow"@.len() == 6 && "blue"@.len() == 4);
    assert("magenta"@.len() == 7 && "cyan"@.len() == 4 && "white"@.len() == 5);
    assert("black"@[0] != "green"@[0] && "black"@[0] != "white"@[0] && "green"@[0] != "white"@[0]);
    assert("default"@[0] != "magenta"@[0] && "blue"@[0] != "cyan"@[0]);
}

impl TerminalColor {
    /// The colour that a foreground style change selects, if it selects one.
    pub fn from_sgr(sgr: SelectGraphicRendition) -> (r: Option<TerminalColor>)
        ensures
            r == color_of_sgr(sgr),
    {
        match sgr {
            SelectGraphicRendition::ForegroundBlack => Some(TerminalColor::Black),
            SelectGraphicRendition::ForegroundRed => Some(TerminalColor::Red),
            SelectGraphicRendition::ForegroundGreen => Some(TerminalColor::Green),
            SelectGraphicRendition::ForegroundYellow => Some(TerminalColor::Yellow),
            SelectGraphicRendition::ForegroundBlue => Some(TerminalColor::Blue),
            SelectGraphicRendition::ForegroundMagenta => Some(TerminalColor::Magenta),
            SelectGraphicRendition::ForegroundCyan => Some(TerminalColor::Cyan),
            SelectGraphicRendition::ForegroundWhite => Some(TerminalColor::White),
            _ => None,
        }
    }

    /// The colour's name, in lower case.
    pub fn to_string(&self) -> (r: String)
        ensures
            r@ == color_name(*self),
    {
        match self {
            TerminalColor::Default => key_string("default"),
            TerminalColor::Black => key_string("black"),
            TerminalColor::Red => key_string("red"),
            TerminalColor::Green => key_string("green"),
            TerminalColor::Yellow => key_string("yellow"),
            TerminalColor::Blue => key_string("blue"),
            TerminalColor::Magenta => key_string("magenta"),
            TerminalColor::Cyan => key_string("cyan"),
            TerminalColor::White => key_string("white"),
        }
    }

    /// The colour of a name, where it is one.
    pub fn from_name(s: &String) -> (r: Option<TerminalColor>)
        ensures
            r == color_of_name(s@),
    {
        if *s == key_string("default") {
            Some(TerminalColor::Default)
        } else if *s == key_string("black") {
            Some(TerminalColor::Black)
        } else if *s == key_string("red") {
            Some(TerminalColor::Red)
        } else if *s == key_string("green") {
            Some(TerminalColor::Green)
        } else if *s == key_string("yellow") {
            Some(TerminalColor::Yellow)
        } else if *s == key_string("blue") {
            Some(TerminalColor::Blue)
        } else if *s == key_string("magenta") {
            Some(TerminalColor::Magenta)
        } else if *s == key_string("cyan") {
            Some(TerminalColor::Cyan)
        } else if *s == key_string("white") {
            Some(TerminalColor::White)
        } else {
            None
        }
    }
}

#[derive(Debug, Clone, Copy, PartialEq, Eq, Structural)]
pub enum SnapshotCursorPosError {
    XNotI64,
    YNotI64,
}

#[derive(Debug, Clone, Copy, PartialEq, Eq, Structural)]
pub enum LoadCursorPosError {
    RootNotMap,
    MissingX,
    XNotUsize,
    MissingY,
    YNotUsize,
}

#[derive(Debug, Clone, Copy, PartialEq, Eq, Structural)]
pub enum LoadCursorStateError {
    RootNotMap,
    BoldNotPresent,
    BoldNotBool,
    ColorNotPresent,
    ColorNotString,
    ColorInvalid,
    PosNotPresent,
    FailParsePos(LoadCursorPosError),
}

/// The position that a snapshot item describes, or the first thing wrong with it.
pub open spec fn decode_cursor_pos(s: SnapshotItem) -> Result<CursorPos, LoadCursorPosError> {
    if !(s is Dict) {
        Err(LoadCursorPosError::RootNotMap)
    } else {
        match field(s, "x"@) {
            None => Err(LoadCursorPosError::MissingX),
            Some(x) => match as_usize(x) {
                None => Err(LoadCursorPosError::XNotUsize),
                Some(x) => match field(s, "y"@) {
                    None => Err(LoadCursorPosError::MissingY),
                    Some(y) => match as_usize(y) {
                        None => Err(LoadCursorPosError::YNotUsize),
                        Some(y) => Ok(CursorPos { x, y }),
                    },
                },
            },
        }
    }
}

/// The cursor state that a snapshot item describes, or the first thing wrong with it.
pub open spec fn decode_cursor_state(s: SnapshotItem) -> Result<CursorState, LoadCursorStateError> {
    if !(s is Dict) {
        Err(LoadCursorStateError::RootNotMap)
    } else {
        match field(s, "bold"@) {
            None => Err(LoadCursorStateError::BoldNotPresent),
            Some(b) => match as_bool(b) {
                None => Err(LoadCursorStateError::BoldNotBool),
                Some(bold) => match field(s, "color"@) {
                    None => Err(LoadCursorStateError::ColorNotPresent),
                    Some(c) => match c {
                        SnapshotItem::String(name) => match color_of_name(name@) {
                            None => Err(LoadCursorStateError::ColorInvalid),
                            Some(color) => match field(s, "pos"@) {
                                None => Err(LoadCursorStateError::PosNotPresent),
                                Some(p) => match decode_cursor_pos(p) {
                                    Err(e) => Err(LoadCursorStateError::FailParsePos(e)),
                                    Ok(pos) => Ok(CursorState { pos, bold, color }),
                                },
                            },
                        },
                        _ => Err(LoadCursorStateError::ColorNotString),
                    },
                },
            },
        }
    }
}

impl CursorPos {
    /// The position as a map with keys `x` and `y`.
    pub fn snapshot(&self) -> (r: Result<SnapshotItem, SnapshotCursorPosError>)
        ensures
            match r {
                Ok(s) => decode_cursor_pos(s) == Ok::<CursorPos, LoadCursorPosError>(*self),
                Err(SnapshotCursorPosError::XNotI64) => self.x > i64::MAX,
                Err(SnapshotCursorPosError::YNotI64) => self.x <= i64::MAX && self.y > i64::MAX,
            },
    {
        let x = match usize_item(self.x) {
            Some(v) => v,
            None => {
                return Err(SnapshotCursorPosError::XNotI64);
            },
        };
        let y = match usize_item(self.y) {
            Some(v) => v,
            None => {
                return Err(SnapshotCursorPosError::YNotI64);
            },
        };
        let mut entries: Vec<(String, SnapshotItem)> = Vec::new();
        entries.push((key_string("x"), x));
        entries.push((key_string("y"), y));
        let r = SnapshotItem::Dict(entries);
        proof {
            reveal_strlit("x");
            reveal_strlit("y");
            let e = entries@;
            assert("x"@[0] != "y"@[0]);
            assert(e.drop_first()[0] == e[1]);
            assert(entry_value(e, "x"@) == Some(e[0].1));
            assert(entry_value(e.drop_first(), "y"@) == Some(e[1].1));
            assert(entry_value(e, "y"@) == Some(e[1].1));
        }
        Ok(r)
    }

    /// The position that `snapshot` describes, or the first thing wrong with it.
    pub fn from_snapshot(snapshot: &SnapshotItem) -> (r: Result<CursorPos, LoadCursorPosError>)
        ensures
            r == decode_cursor_pos(*snapshot),
    {
        match snapshot {
            SnapshotItem::Dict(_) => {},
            _ => {
                return Err(LoadCursorPosError::RootNotMap);
            },
        }
        let x = match get_field(snapshot, "x") {
            Some(v) => v,
            None => {
                return Err(LoadCursorPosError::MissingX);
            },
        };
        let x = match read_usize(x) {
            Some(v) => v,
            None => {
                return Err(LoadCursorPosError::XNotUsize);
            },
        };
        let y = match get_field(snapshot, "y") {
            Some(v) => v,
            None => {
                return Err(LoadCursorPosError::MissingY);
            },
        };
        let y = match read_usize(y) {
            Some(v) => v,
            None => {
                return Err(LoadCursorPosError::YNotUsize);
            },
        };
        Ok(CursorPos { x, y })
    }
}

impl CursorState {
    /// The state as a map with keys `pos`, `bold` and `color`.
    pub fn snapshot(&self) -> (r: Result<SnapshotItem, SnapshotCursorPosError>)
        ensures
            match r {
                Ok(s) => decode_cursor_state(s) == Ok::<CursorState, LoadCursorStateError>(*self),
                Err(SnapshotCursorPosError::XNotI64) => self.pos.x > i64::MAX,
                Err(SnapshotCursorPosError::YNotI64) => self.pos.x <= i64::MAX && self.pos.y > i64::MAX,
            },
    {
        let pos = match self.pos.snapshot() {
            Ok(p) => p,
            Err(e) => {
                return Err(e);
            },
        };
        let mut entries: Vec<(String, SnapshotItem)> = Vec::new();
        entries.push((key_string("pos"), pos));
        entries.push((key_string("bold"), SnapshotItem::Bool(self.bold)));
        entries.push((key_string("color"), SnapshotItem::String(self.color.to_string())));
        let r = SnapshotItem::Dict(entries);
        proof {
            reveal_strlit("pos");
            reveal_strlit("bold");
            reveal_strlit("color");
            lemma_color_name_round_trip(self.color);
            let e = entries@;
            assert("pos"@.len() == 3 && "bold"@.len() == 4 && "color"@.len() == 5);
            assert(e.drop_first()[0] == e[1]);
            assert(e.drop_first().drop_first()[0] == e[2]);
            assert(entry_value(e, "pos"@) == Some(e[0].1));
            assert(entry_value(e.drop_first(), "bold"@) == Some(e[1].1));
            assert(entry_value(e, "bold"@) == Some(e[1].1));
            assert(entry_value(e.drop_first().drop_first(), "color"@) == Some(e[2].1));
            assert(entry_value(e.drop_first(), "color"@) == Some(e[2].1));
            assert(entry_value(e, "color"@) == Some(e[2].1));
        }
        Ok(r)
    }

    /// The state that `snapshot` describes, or the first thing wrong with it.
    pub fn from_snapshot(snapshot: &SnapshotItem) -> (r: Result<CursorState, LoadCursorStateError>)
        ensures
            r == decode_cursor_state(*snapshot),
    {
        match snapshot {
            SnapshotItem::Dict(_) => {},
            _ => {
                return Err(LoadCursorStateError::RootNotMap);
            },
        }
        let b = match get_field(snapshot, "bold") {
            Some(v) => v,
            None => {
                return Err(LoadCursorStateError::BoldNotPresent);
            },
        };
        let bold = match read_bool(b) {
            Some(v) => v,
            None => {
                return Err(LoadCursorStateError::BoldNotBool);
            },
        };
        let c = match get_field(snapshot, "color") {
            Some(v) => v,
            None => {
                return Err(LoadCursorStateError::ColorNotPresent);
            },
        };
        let color = match c {
            SnapshotItem::String(name) => match TerminalColor::from_name(name) {
                Some(color) => color,
                None => {
                    return Err(LoadCursorStateError::ColorInvalid);
                },
            },
            _ => {
                return Err(LoadCursorStateError::ColorNotString);
            },
        };
        let p = match get_field(snapshot, "pos") {
            Some(v) => v,
            None => {
                return Err(LoadCursorStateError::PosNotPresent);
            },
        };
        let pos = match CursorPos::from_snapshot(p) {
            Ok(v) => v,
            Err(e) => {
                return Err(LoadCursorStateError::FailParsePos(e));
            },
        };
        Ok(CursorState { pos, bold, color })
    }
}

} // verus!
