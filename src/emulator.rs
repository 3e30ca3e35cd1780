use vstd::prelude::*;

use crate::ansi::{
    decode_parser, pending_events, LoadParserError, run, views, AnsiParser, Event, Mode, ModeView, ParserView,
    SelectGraphicRendition, TerminalOutput,
};
use crate::buffer::{
    buf_pos_max, cleared_all, cleared_forwards, cursor_to_pos, decode_buffer, deleted_forwards,
    insert_run, lemma_insert_run_bounds, line_cleared_forwards, model_wf, rows_inserted, snapshot_fits,
    spaces_inserted, BufPos, BufferModel, CreateSnapshotError, TerminalBuffer2, TerminalData2,
};
use crate::cursor::{
    color_of_sgr, decode_cursor_state, CursorPos, CursorState, LoadCursorStateError,
    SnapshotCursorPosError, TerminalColor,
};
use crate::format_tracker::{decode_tags, LoadFormatTrackerError, erased, in_range, lemma_paint_everything, painted, tags_fit, tags_wf, style_at, FormatTag, FormatTracker};
use crate::input::{payload, TerminalInput};
use crate::snapshot::{as_bool, field, get_field, key_string, lemma_entry_at, read_bool, SnapshotItem};

verus! {

/// Columns of a new terminal.
pub const TERMINAL_WIDTH: usize = 50;

/// Rows of a new terminal.
pub const TERMINAL_HEIGHT: usize = 16;

/// The part of the terminal's state that the events decide.
pub struct CoreModel {
    pub buffer: BufferModel,
    pub cursor: CursorState,
    pub decckm: bool,
}

/// A cursor column or row set from a 1-based parameter, kept inside the grid.
pub open spec fn absolute(v: Option<usize>, cur: usize, limit: nat) -> usize {
    match v {
        Some(v) => {
            let z: int = if v == 0 { 0 } else { v - 1 };
            if z < limit - 1 { z as usize } else { (limit - 1) as usize }
        },
        None => cur,
    }
}

/// A cursor column or row moved by `d`, kept inside the grid.
pub open spec fn relative(d: Option<i32>, cur: usize, limit: nat) -> usize {
    match d {
        Some(d) => {
            let z: int = cur + d;
            if z < 0 {
                0
            } else if z < limit - 1 {
                z as usize
            } else {
                (limit - 1) as usize
            }
        },
        None => cur,
    }
}

pub open spec fn with_pos(m: CoreModel, pos: CursorPos) -> CoreModel {
    CoreModel { cursor: CursorState { pos, ..m.cursor }, ..m }
}

pub open spec fn with_buffer(m: CoreModel, b: BufferModel) -> CoreModel {
    CoreModel { buffer: b, ..m }
}

/// The style that `Sgr(s)` leaves the cursor with.
pub open spec fn sgr_applied(c: CursorState, s: SelectGraphicRendition) -> CursorState {
    match color_of_sgr(s) {
        Some(color) => CursorState { color, ..c },
        None => if s == SelectGraphicRendition::Reset {
            CursorState { color: TerminalColor::Default, bold: false, ..c }
        } else if s == SelectGraphicRendition::Bold {
            CursorState { bold: true, ..c }
        } else {
            c
        },
    }
}

/// What an event does to the styles.
pub enum StyleChange {
    Keep,
    /// The positions of the range take the cursor's style.
    Paint(BufPos, BufPos),
    /// The positions of the range lose their style.
    Erase(BufPos, BufPos),
}

/// The position just after every column of row `id`.
pub open spec fn row_end(id: usize) -> BufPos {
    if id < usize::MAX {
        BufPos { line_id: (id + 1) as usize, x_pos: 0 }
    } else {
        buf_pos_max()
    }
}

pub open spec fn sat_add(a: usize, b: usize) -> usize {
    if a + b <= usize::MAX {
        (a + b) as usize
    } else {
        usize::MAX
    }
}

/// What one event does: the next state, and the change to the styles.
pub open spec fn apply_event(m: CoreModel, e: Event) -> (CoreModel, StyleChange) {
    let pos = m.cursor.pos;
    let count = m.buffer.line_starts.len();
    match e {
        Event::Data(d) => {
            let (b, x, y) = insert_run(m.buffer, pos.x as nat, pos.y as nat, d);
            let np = CursorPos { x: x as usize, y: y as usize };
            (
                with_pos(with_buffer(m, b), np),
                StyleChange::Paint(cursor_to_pos(count, pos), cursor_to_pos(b.line_starts.len(), np)),
            )
        },
        Event::SetCursorPos { x, y } => (
            with_pos(m, CursorPos { x: absolute(x, pos.x, m.buffer.width), y: absolute(y, pos.y, m.buffer.height) }),
            StyleChange::Keep,
        ),
        Event::SetCursorPosRel { x, y } => (
            with_pos(m, CursorPos { x: relative(x, pos.x, m.buffer.width), y: relative(y, pos.y, m.buffer.height) }),
            StyleChange::Keep,
        ),
        Event::ClearForwards => (
            with_buffer(m, cleared_forwards(m.buffer, pos)),
            StyleChange::Erase(cursor_to_pos(count, pos), buf_pos_max()),
        ),
        Event::ClearAll => (
            with_buffer(m, cleared_all(m.buffer)),
            StyleChange::Paint(BufPos { line_id: 0, x_pos: 0 }, buf_pos_max()),
        ),
        Event::ClearLineForwards => (
            with_buffer(m, line_cleared_forwards(m.buffer, pos)),
            StyleChange::Erase(cursor_to_pos(count, pos), row_end(cursor_to_pos(count, pos).line_id)),
        ),
        Event::CarriageReturn => (with_pos(m, CursorPos { x: 0, ..pos }), StyleChange::Keep),
        Event::Newline => {
            let (b, x, y) = insert_run(m.buffer, pos.x as nat, pos.y as nat, seq![0x0au8]);
            (with_pos(with_buffer(m, b), CursorPos { x: x as usize, y: y as usize }), StyleChange::Keep)
        },
        Event::Backspace => (
            with_pos(m, CursorPos { x: if pos.x >= 1 { (pos.x - 1) as usize } else { pos.x }, ..pos }),
            StyleChange::Keep,
        ),
        Event::InsertLines(n) => (with_buffer(m, rows_inserted(m.buffer, pos, n as nat)), StyleChange::Keep),
        Event::InsertSpaces(n) => (with_buffer(m, spaces_inserted(m.buffer, pos, n as nat)), StyleChange::Keep),
        Event::Delete(n) => {
            let start = cursor_to_pos(count, pos);
            (
                with_buffer(m, deleted_forwards(m.buffer, pos, n as nat)),
                StyleChange::Erase(start, BufPos { x_pos: sat_add(pos.x, n), ..start }),
            )
        },
        Event::Sgr(s) => (CoreModel { cursor: sgr_applied(m.cursor, s), ..m }, StyleChange::Keep),
        Event::SetMode(ModeView::Decckm) => (CoreModel { decckm: true, ..m }, StyleChange::Keep),
        Event::ResetMode(ModeView::Decckm) => (CoreModel { decckm: false, ..m }, StyleChange::Keep),
        _ => (m, StyleChange::Keep),
    }
}

/// The state after the events `es`, in order.
pub open spec fn apply_all(m: CoreModel, es: Seq<Event>) -> CoreModel
    decreases es.len(),
{
    if es.len() == 0 {
        m
    } else {
        apply_event(apply_all(m, es.drop_last()), es.last()).0
    }
}


/// The tags after a change to the styles made with the cursor state `c`.
pub open spec fn restyled(tags: Seq<FormatTag>, c: CursorState, ch: StyleChange) -> Seq<FormatTag> {
    match ch {
        StyleChange::Keep => tags,
        StyleChange::Paint(s, e) => painted(tags, s, e, c.bold, c.color),
        StyleChange::Erase(s, e) => erased(tags, s, e),
    }
}

/// The tags after the events `es`, in order.
pub open spec fn tags_after(tags: Seq<FormatTag>, m: CoreModel, es: Seq<Event>) -> Seq<FormatTag>
    decreases es.len(),
{
    if es.len() == 0 {
        tags
    } else {
        let prev = apply_all(m, es.drop_last());
        restyled(tags_after(tags, m, es.drop_last()), prev.cursor, apply_event(prev, es.last()).1)
    }
}

proof fn lemma_apply_all_concat(m: CoreModel, t: Seq<FormatTag>, e1: Seq<Event>, e2: Seq<Event>)
    ensures
        apply_all(m, e1 + e2) == apply_all(apply_all(m, e1), e2),
        tags_after(t, m, e1 + e2) == tags_after(tags_after(t, m, e1), apply_all(m, e1), e2),
    decreases e2.len(),
{
    if e2.len() == 0 {
        assert(e1 + e2 =~= e1);
    } else {
        assert((e1 + e2).drop_last() =~= e1 + e2.drop_last());
        assert((e1 + e2).last() == e2.last());
        lemma_apply_all_concat(m, t, e1, e2.drop_last());
    }
}

/// Feeding the terminal a byte string in two pieces leaves it as feeding
/// the whole string at once does: the same parser state, grid, scrollback,
/// cursor, modes and tags. By induction, so does any split of the input.
pub proof fn lemma_emulator_split(p: ParserView, m: CoreModel, t: Seq<FormatTag>, a: Seq<u8>, b: Seq<u8>)
    ensures
        ({
            let (p1, e1) = run(p, a);
            let (p2, e2) = run(p1, b);
            &&& p2 == run(p, a + b).0
            &&& apply_all(apply_all(m, e1), e2) == apply_all(m, run(p, a + b).1)
            &&& tags_after(tags_after(t, m, e1), apply_all(m, e1), e2) == tags_after(t, m, run(p, a + b).1)
        }),
{
    crate::ansi::lemma_split_invariance(p, a, b);
    let (p1, e1) = run(p, a);
    let (p2, e2) = run(p1, b);
    lemma_apply_all_concat(m, t, e1, e2);
}

/// A state in which the cursor lies inside the grid.
pub open spec fn core_wf(m: CoreModel) -> bool {
    &&& model_wf(m.buffer)
    &&& m.cursor.pos.x < m.buffer.width
    &&& m.cursor.pos.y < m.buffer.height
}

/// The core of a terminal: parses what the shell writes and keeps the grid,
/// the scrollback, the styles and the cursor up to date.
pub struct TerminalEmulator {
    parser: AnsiParser,
    terminal_buffer: TerminalBuffer2,
    format_tracker: FormatTracker,
    cursor_state: CursorState,
    decckm_mode: bool,
}

/// Bytes of the scrollback and of the grid, or what stands for them.
#[derive(Debug)]
pub struct TerminalData<T> {
    pub scrollback: T,
    pub visible: T,
}

impl TerminalEmulator {
    pub closed spec fn state(&self) -> CoreModel {
        CoreModel { buffer: self.terminal_buffer@, cursor: self.cursor_state, decckm: self.decckm_mode }
    }

    pub closed spec fn parser_state(&self) -> ParserView {
        self.parser@
    }

    pub closed spec fn tags(&self) -> Seq<FormatTag> {
        self.format_tracker@
    }

    pub closed spec fn wf(&self) -> bool {
        &&& self.terminal_buffer.wf()
        &&& self.format_tracker.wf()
        &&& self.cursor_state.pos.x < self.terminal_buffer@.width
        &&& self.cursor_state.pos.y < self.terminal_buffer@.height
    }

    pub proof fn lemma_wf(&self)
        requires
            self.wf(),
        ensures
            core_wf(self.state()),
    {
        self.terminal_buffer.lemma_wf();
    }

    /// However the terminal came about, its tags are in ascending order,
    /// none empty, no two overlapping.
    pub proof fn lemma_tags_wf(&self)
        requires
            self.wf(),
        ensures
            tags_wf(self.tags()),
    {
        self.format_tracker.lemma_wf();
    }

    /// A terminal of the default size, empty, with the cursor at the top left.
    pub fn new() -> (r: TerminalEmulator)
        ensures
            r.wf(),
            r.parser_state() == crate::ansi::ground(),
            r.state().buffer == TerminalBuffer2::new_model(TERMINAL_WIDTH as nat, TERMINAL_HEIGHT as nat),
            r.state().cursor == (CursorState { pos: CursorPos { x: 0, y: 0 }, bold: false, color: TerminalColor::Default }),
            !r.state().decckm,
            r.tags() == Seq::<FormatTag>::empty(),
    {
        TerminalEmulator {
            parser: AnsiParser::new(),
            terminal_buffer: TerminalBuffer2::new(TERMINAL_WIDTH, TERMINAL_HEIGHT),
            format_tracker: FormatTracker::new(),
            cursor_state: CursorState { pos: CursorPos { x: 0, y: 0 }, bold: false, color: TerminalColor::Default },
            decckm_mode: false,
        }
    }

    /// Carries out one event of the parser.
    pub fn handle_output(&mut self, event: TerminalOutput)
        requires
            old(self).wf(),
        ensures
            final(self).wf(),
            final(self).parser_state() == old(self).parser_state(),
            final(self).state() == apply_event(old(self).state(), event@).0,
            forall|p: BufPos|
                #![trigger style_at(final(self).tags(), p)]
                style_at(final(self).tags(), p) == match apply_event(old(self).state(), event@).1 {
                    StyleChange::Paint(s, e) if in_range(s, e, p) => Some(
                        (old(self).state().cursor.bold, old(self).state().cursor.color),
                    ),
                    StyleChange::Erase(s, e) if in_range(s, e, p) => None,
                    _ => style_at(old(self).tags(), p),
                },
            final(self).tags() == restyled(old(self).tags(), old(self).state().cursor, apply_event(old(self).state(), event@).1),
            event@ is ClearAll ==> final(self).tags() == seq![
                FormatTag {
                    start: BufPos { line_id: 0, x_pos: 0 },
                    end: buf_pos_max(),
                    bold: old(self).state().cursor.bold,
                    color: old(self).state().cursor.color,
                },
            ],
    {
        proof {
            lemma_paint_everything(self.format_tracker@, self.cursor_state.bold, self.cursor_state.color);
        }
        proof {
            self.terminal_buffer.lemma_wf();
        }
        let pos = self.cursor_state.pos;
        match event {
            TerminalOutput::Data(data) => {
                proof {
                    lemma_insert_run_bounds(self.terminal_buffer@, pos.x as nat, pos.y as nat, data@);
                }
                let response = self.terminal_buffer.insert_data(&pos, data.as_slice());
                self.format_tracker.push_range(&self.cursor_state, response.written_range);
                self.cursor_state.pos = response.new_cursor_pos;
            },
            TerminalOutput::SetCursorPos { x, y } => {
                let (w, h) = self.terminal_buffer.get_win_size();
                self.cursor_state.pos = CursorPos { x: absolute_exec(x, pos.x, w), y: absolute_exec(y, pos.y, h) };
            },
            TerminalOutput::SetCursorPosRel { x, y } => {
                let (w, h) = self.terminal_buffer.get_win_size();
                self.cursor_state.pos = CursorPos { x: relative_exec(x, pos.x, w), y: relative_exec(y, pos.y, h) };
            },
            TerminalOutput::ClearForwards => {
                let start = self.terminal_buffer.cursor_to_buf_pos(&pos);
                self.terminal_buffer.clear_forwards(&pos);
                self.format_tracker.clear_range(start..BufPos::max_value());
            },
            TerminalOutput::ClearAll => {
                self.format_tracker.push_range(&self.cursor_state, BufPos::new(0, 0)..BufPos::max_value());
                self.terminal_buffer.clear_all();
            },
            TerminalOutput::ClearLineForwards => {
                let start = self.terminal_buffer.cursor_to_buf_pos(&pos);
                let end = if start.line_id < usize::MAX {
                    BufPos::new(0, start.line_id + 1)
                } else {
                    BufPos::max_value()
                };
                self.terminal_buffer.clear_line_forwards(&pos);
                self.format_tracker.clear_range(start..end);
            },
            TerminalOutput::CarriageReturn => {
                self.cursor_state.pos.x = 0;
            },
            TerminalOutput::Newline => {
                let nl: [u8; 1] = [0x0a];
                assert(nl@ =~= seq![0x0au8]);
                proof {
                    lemma_insert_run_bounds(self.terminal_buffer@, pos.x as nat, pos.y as nat, nl@);
                }
                self.cursor_state.pos = self.terminal_buffer.insert_data(&pos, nl.as_slice()).new_cursor_pos;
            },
            TerminalOutput::Backspace => {
                if self.cursor_state.pos.x >= 1 {
                    self.cursor_state.pos.x = self.cursor_state.pos.x - 1;
                }
            },
            TerminalOutput::InsertLines(n) => {
                self.terminal_buffer.insert_lines(&pos, n);
            },
            TerminalOutput::InsertSpaces(n) => {
                self.terminal_buffer.insert_spaces(&pos, n);
            },
            TerminalOutput::Delete(n) => {
                let start = self.terminal_buffer.cursor_to_buf_pos(&pos);
                let end_x = if n <= usize::MAX - pos.x { pos.x + n } else { usize::MAX };
                self.terminal_buffer.delete_forwards(&pos, n);
                self.format_tracker.clear_range(start..BufPos::new(end_x, start.line_id));
            },
            TerminalOutput::Sgr(sgr) => {
                match TerminalColor::from_sgr(sgr) {
                    Some(color) => {
                        self.cursor_state.color = color;
                    },
                    None => {
                        if sgr == SelectGraphicRendition::Reset {
                            self.cursor_state.color = TerminalColor::Default;
                            self.cursor_state.bold = false;
                        } else if sgr == SelectGraphicRendition::Bold {
                            self.cursor_state.bold = true;
                        }
                    },
                }
            },
            TerminalOutput::SetMode(mode) => {
                match mode {
                    Mode::Decckm => {
                        self.decckm_mode = true;
                    },
                    Mode::Unknown(_) => {},
                }
            },
            TerminalOutput::ResetMode(mode) => {
                match mode {
                    Mode::Decckm => {
                        self.decckm_mode = false;
                    },
                    Mode::Unknown(_) => {},
                }
            },
            TerminalOutput::Invalid => {},
        }
        proof {
            self.terminal_buffer.lemma_wf();
        }
    }
}

impl TerminalEmulator {
    /// Carries out the events `parsed`, in order.
    fn handle_outputs(&mut self, parsed: Vec<TerminalOutput>)
        requires
            old(self).wf(),
        ensures
            final(self).wf(),
            final(self).parser_state() == old(self).parser_state(),
            final(self).state() == apply_all(old(self).state(), views(parsed@)),
            final(self).tags() == tags_after(old(self).tags(), old(self).state(), views(parsed@)),
    {
        let ghost s0 = self.state();
        let ghost t0 = self.tags();
        let mut parsed = parsed;
        let ghost es = views(parsed@);
        let n = parsed.len();
        let mut i: usize = 0;
        assert(es.subrange(0, 0) =~= Seq::<Event>::empty());
        while i < n
            invariant
                self.wf(),
                n == parsed@.len() == es.len(),
                i <= n,
                self.parser_state() == old(self).parser_state(),
                forall|j: int| i <= j < n ==> (#[trigger] parsed@[j])@ == es[j],
                self.state() == apply_all(s0, es.subrange(0, i as int)),
                self.tags() == tags_after(t0, s0, es.subrange(0, i as int)),
            decreases n - i,
        {
            let mut ev = TerminalOutput::Invalid;
            std::mem::swap(&mut ev, &mut parsed[i]);
            self.handle_output(ev);
            proof {
                let pre1 = es.subrange(0, i + 1);
                assert(pre1.drop_last() =~= es.subrange(0, i as int));
                assert(pre1.last() == es[i as int]);
            }
            i += 1;
        }
        assert(es.subrange(0, n as int) =~= es);
    }

    /// Feeds what the shell wrote through the parser and carries out the
    /// events, in order. A run of printable bytes at the end of `incoming`
    /// waits in the parser for the byte that ends it, or for `flush`.
    pub fn handle_incoming_data(&mut self, incoming: &[u8])
        requires
            old(self).wf(),
        ensures
            final(self).wf(),
            final(self).parser_state() == run(old(self).parser_state(), incoming@).0,
            final(self).state() == apply_all(old(self).state(), run(old(self).parser_state(), incoming@).1),
            final(self).tags() == tags_after(old(self).tags(), old(self).state(), run(old(self).parser_state(), incoming@).1),
    {
        let parsed = self.parser.push(incoming);
        self.handle_outputs(parsed);
    }

    /// Writes out the run of printable bytes that waits in the parser; for
    /// when the shell has nothing more to read for now.
    pub fn flush(&mut self)
        requires
            old(self).wf(),
        ensures
            final(self).wf(),
            final(self).parser_state() == (ParserView { pending: Seq::empty(), ..old(self).parser_state() }),
            final(self).state() == apply_all(old(self).state(), pending_events(old(self).parser_state().pending)),
            final(self).tags() == tags_after(old(self).tags(), old(self).state(), pending_events(old(self).parser_state().pending)),
    {
        let parsed = self.parser.flush();
        self.handle_outputs(parsed);
    }
}

/// A style over the bytes `start..end` of the scrollback or of the grid.
#[derive(Debug, Clone, Copy, PartialEq, Eq, Structural)]
pub struct FormatTagSerialized {
    pub start: usize,
    pub end: usize,
    pub bold: bool,
    pub color: TerminalColor,
}

/// Where a position falls in the written-out text.
pub enum SerializedPos {
    Scrollback(usize),
    Visible(usize),
}

/// Offset in the written-out grid at which each row starts.
pub open spec fn visible_starts(b: BufferModel) -> Seq<usize> {
    Seq::new(b.height, |y: int| crate::visible::grid_line_starts(b.lines, b.width)[y] as usize)
}

/// `a + x`, but no more than `max`.
pub open spec fn clamp_add(a: usize, x: usize, max: usize) -> usize {
    if a + x < max {
        (a + x) as usize
    } else {
        max
    }
}

/// The byte that a position maps to: its row's start plus its column, no
/// further than the next row's start. Rows past the grid map to the start of
/// the grid, the end of all content to the end of the grid.
pub open spec fn map_pos(
    scrollback_len: usize,
    scrollback_starts: Seq<usize>,
    visible_len: usize,
    visible_starts: Seq<usize>,
    idx: BufPos,
) -> SerializedPos {
    let ns = scrollback_starts.len();
    let nv = visible_starts.len();
    if idx.line_id < ns {
        let max = if idx.line_id + 1 < ns { scrollback_starts[idx.line_id + 1] } else { scrollback_len };
        SerializedPos::Scrollback(clamp_add(scrollback_starts[idx.line_id as int], idx.x_pos, max))
    } else if idx.line_id < ns + nv {
        let k = idx.line_id - ns;
        let max = if k + 1 < nv { visible_starts[k + 1] } else { visible_len };
        SerializedPos::Visible(clamp_add(visible_starts[k], idx.x_pos, max))
    } else if idx == buf_pos_max() {
        SerializedPos::Visible(visible_len)
    } else {
        SerializedPos::Visible(0)
    }
}

/// The tags projected onto the scrollback and the grid: a tag that starts in
/// the scrollback and ends in the grid gives one tag in each; one whose start
/// maps after its end gives none.
pub open spec fn project_tags(
    sl: usize,
    ss: Seq<usize>,
    vl: usize,
    vs: Seq<usize>,
    tags: Seq<FormatTag>,
) -> (Seq<FormatTagSerialized>, Seq<FormatTagSerialized>)
    decreases tags.len(),
{
    if tags.len() == 0 {
        (Seq::empty(), Seq::empty())
    } else {
        let (sb, vis) = project_tags(sl, ss, vl, vs, tags.drop_last());
        let t = tags.last();
        match (map_pos(sl, ss, vl, vs, t.start), map_pos(sl, ss, vl, vs, t.end)) {
            (SerializedPos::Scrollback(s), SerializedPos::Scrollback(e)) => (
                sb.push(FormatTagSerialized { start: s, end: e, bold: t.bold, color: t.color }),
                vis,
            ),
            (SerializedPos::Visible(s), SerializedPos::Visible(e)) => (
                sb,
                vis.push(FormatTagSerialized { start: s, end: e, bold: t.bold, color: t.color }),
            ),
            (SerializedPos::Scrollback(s), SerializedPos::Visible(e)) => (
                sb.push(FormatTagSerialized { start: s, end: sl, bold: t.bold, color: t.color }),
                vis.push(FormatTagSerialized { start: 0, end: e, bold: t.bold, color: t.color }),
            ),
            (SerializedPos::Visible(_), SerializedPos::Scrollback(_)) => (sb, vis),
        }
    }
}

/// Every projected start and end lies inside its region, where every row
/// offset does.
pub proof fn lemma_project_inside(sl: usize, ss: Seq<usize>, vl: usize, vs: Seq<usize>, tags: Seq<FormatTag>)
    requires
        forall|i: int| 0 <= i < ss.len() ==> #[trigger] ss[i] <= sl,
        forall|i: int| 0 <= i < vs.len() ==> #[trigger] vs[i] <= vl,
    ensures
        forall|i: int|
            0 <= i < project_tags(sl, ss, vl, vs, tags).0.len() ==> (#[trigger] project_tags(sl, ss, vl, vs, tags).0[i]).start <= sl
                && project_tags(sl, ss, vl, vs, tags).0[i].end <= sl,
        forall|i: int|
            0 <= i < project_tags(sl, ss, vl, vs, tags).1.len() ==> (#[trigger] project_tags(sl, ss, vl, vs, tags).1[i]).start <= vl
                && project_tags(sl, ss, vl, vs, tags).1[i].end <= vl,
    decreases tags.len(),
{
    if tags.len() > 0 {
        lemma_project_inside(sl, ss, vl, vs, tags.drop_last());
        let t = tags.last();
        lemma_map_pos_inside(sl, ss, vl, vs, t.start);
        lemma_map_pos_inside(sl, ss, vl, vs, t.end);
    }
}

proof fn lemma_map_pos_inside(sl: usize, ss: Seq<usize>, vl: usize, vs: Seq<usize>, p: BufPos)
    requires
        forall|i: int| 0 <= i < ss.len() ==> #[trigger] ss[i] <= sl,
        forall|i: int| 0 <= i < vs.len() ==> #[trigger] vs[i] <= vl,
    ensures
        map_pos(sl, ss, vl, vs, p) matches SerializedPos::Scrollback(v) ==> v <= sl,
        map_pos(sl, ss, vl, vs, p) matches SerializedPos::Visible(v) ==> v <= vl,
{
}

fn clamp_add_exec(a: usize, x: usize, max: usize) -> (r: usize)
    ensures
        r == clamp_add(a, x, max),
{
    if a >= max || x >= max - a {
        max
    } else {
        a + x
    }
}

fn map_pos_exec(d: &TerminalData2, idx: BufPos) -> (r: SerializedPos)
    ensures
        r == map_pos(d.scrollback@.len() as usize, d.scrollback_line_mappings@, d.visible@.len() as usize, d.visible_line_mappings@, idx),
{
    let ns = d.scrollback_line_mappings.len();
    let nv = d.visible_line_mappings.len();
    if idx.line_id < ns {
        let max = if idx.line_id + 1 < ns { d.scrollback_line_mappings[idx.line_id + 1] } else { d.scrollback.len() };
        SerializedPos::Scrollback(clamp_add_exec(d.scrollback_line_mappings[idx.line_id], idx.x_pos, max))
    } else if idx.line_id - ns < nv {
        let k = idx.line_id - ns;
        let max = if k + 1 < nv { d.visible_line_mappings[k + 1] } else { d.visible.len() };
        SerializedPos::Visible(clamp_add_exec(d.visible_line_mappings[k], idx.x_pos, max))
    } else if idx.line_id == usize::MAX && idx.x_pos == usize::MAX {
        SerializedPos::Visible(d.visible.len())
    } else {
        SerializedPos::Visible(0)
    }
}

impl TerminalEmulator {
    /// The scrollback and the grid as bytes.
    pub fn data(&self) -> (r: TerminalData<Vec<u8>>)
        requires
            self.wf(),
        ensures
            r.scrollback@ == self.state().buffer.scrollback,
            r.visible@ == crate::visible::grid_text(self.state().buffer.lines, self.state().buffer.width),
    {
        let data = self.terminal_buffer.data();
        TerminalData { scrollback: data.scrollback, visible: data.visible }
    }

    /// The styles as byte ranges of the scrollback and of the grid.
    pub fn format_data(&self) -> (r: TerminalData<Vec<FormatTagSerialized>>)
        requires
            self.wf(),
        ensures
            ({
                let b = self.state().buffer;
                (r.scrollback@, r.visible@) == project_tags(
                    b.scrollback.len() as usize,
                    b.line_starts,
                    crate::visible::grid_text(b.lines, b.width).len() as usize,
                    visible_starts(b),
                    self.tags(),
                )
            }),
            forall|i: int|
                0 <= i < r.scrollback@.len() ==> (#[trigger] r.scrollback@[i]).start <= self.state().buffer.scrollback.len()
                    && r.scrollback@[i].end <= self.state().buffer.scrollback.len(),
            forall|i: int|
                0 <= i < r.visible@.len() ==> (#[trigger] r.visible@[i]).start <= crate::visible::grid_text(
                    self.state().buffer.lines,
                    self.state().buffer.width,
                ).len() && r.visible@[i].end <= crate::visible::grid_text(
                    self.state().buffer.lines,
                    self.state().buffer.width,
                ).len(),
    {
        let data = self.terminal_buffer.data();
        proof {
            self.terminal_buffer.lemma_wf();
            assert(data.visible_line_mappings@ =~= visible_starts(self.state().buffer));
        }
        let sl = data.scrollback.len();
        let vl = data.visible.len();
        let tags = self.format_tracker.tags();
        let mut scrollback_tags: Vec<FormatTagSerialized> = Vec::new();
        let mut output_tags: Vec<FormatTagSerialized> = Vec::new();
        let mut i: usize = 0;
        while i < tags.len()
            invariant
                i <= tags@.len(),
                project_tags(sl, data.scrollback_line_mappings@, vl, data.visible_line_mappings@, tags@.subrange(0, i as int)) == (scrollback_tags@, output_tags@),
                sl == data.scrollback@.len(),
                vl == data.visible@.len(),
            decreases tags.len() - i,
        {
            let t = tags[i];
            assert(tags@.subrange(0, i + 1).drop_last() =~= tags@.subrange(0, i as int));
            assert(tags@.subrange(0, i + 1).last() == t);
            let start = map_pos_exec(&data, t.start);
            let end = map_pos_exec(&data, t.end);
            match (start, end) {
                (SerializedPos::Scrollback(s), SerializedPos::Scrollback(e)) => {
                    scrollback_tags.push(FormatTagSerialized { start: s, end: e, bold: t.bold, color: t.color });
                },
                (SerializedPos::Visible(s), SerializedPos::Visible(e)) => {
                    output_tags.push(FormatTagSerialized { start: s, end: e, bold: t.bold, color: t.color });
                },
                (SerializedPos::Scrollback(s), SerializedPos::Visible(e)) => {
                    scrollback_tags.push(FormatTagSerialized { start: s, end: data.scrollback.len(), bold: t.bold, color: t.color });
                    output_tags.push(FormatTagSerialized { start: 0, end: e, bold: t.bold, color: t.color });
                },
                (SerializedPos::Visible(_), SerializedPos::Scrollback(_)) => {},
            }
            i += 1;
        }
        assert(tags@.subrange(0, tags@.len() as int) =~= tags@);
        proof {
            let b = self.state().buffer;
            assert forall|k: int| 0 <= k < data.visible_line_mappings@.len() implies #[trigger] data.visible_line_mappings@[k] <= vl by {
                crate::visible::lemma_line_starts_inside(b.lines, b.width, k);
            }
            assert forall|k: int| 0 <= k < data.scrollback_line_mappings@.len() implies #[trigger] data.scrollback_line_mappings@[k] <= sl by {
            }
            lemma_project_inside(sl, data.scrollback_line_mappings@, vl, data.visible_line_mappings@, tags@);
        }
        TerminalData { scrollback: scrollback_tags, visible: output_tags }
    }
}

/// The cursor of a resized grid, moved inside it where it lies beyond.
pub open spec fn clamp_cursor(c: (nat, nat), width: nat, height: nat) -> CursorPos {
    CursorPos {
        x: if c.0 < width { c.0 as usize } else { (width - 1) as usize },
        y: if c.1 < height { c.1 as usize } else { (height - 1) as usize },
    }
}

impl TerminalEmulator {
    /// Columns and rows of the grid.
    pub fn get_win_size(&self) -> (r: (usize, usize))
        ensures
            r.0 == self.state().buffer.width,
            r.1 == self.state().buffer.height,
    {
        self.terminal_buffer.get_win_size()
    }

    /// Where the cursor is.
    pub fn cursor_pos(&self) -> (r: CursorPos)
        ensures
            r == self.state().cursor.pos,
    {
        self.cursor_state.pos
    }

    /// The bytes that the key sends to the shell in the current mode.
    pub fn input_payload(&self, key: TerminalInput) -> (r: Vec<u8>)
        ensures
            r@ == payload(key, self.state().decckm),
    {
        key.to_payload(self.decckm_mode)
    }

    /// Gives the grid a new size. Where it changes, the rows are written
    /// again into the new grid, the cursor follows its character, and the
    /// visible range takes the cursor's style. Whether the size changed.
    pub fn set_win_size(&mut self, width_chars: usize, height_chars: usize) -> (r: bool)
        requires
            old(self).wf(),
            width_chars > 0,
            height_chars > 0,
        ensures
            final(self).wf(),
            final(self).parser_state() == old(self).parser_state(),
            r == !(width_chars == old(self).state().buffer.width && height_chars == old(self).state().buffer.height),
            !r ==> final(self).state() == old(self).state() && final(self).tags() == old(self).tags(),
            r ==> ({
                let old_b = old(self).state().buffer;
                let fresh = BufferModel {
                    width: width_chars as nat,
                    height: height_chars as nat,
                    lines: Seq::new(height_chars as nat, |_y: int| crate::visible::empty_line()),
                    ..old_b
                };
                let (m, c) = crate::buffer::reflow(old_b.lines, 0, fresh, (0, 0), (0, 0), old(self).state().cursor.pos);
                &&& final(self).state().buffer == m
                &&& final(self).state().cursor == (CursorState {
                    pos: clamp_cursor(c, width_chars as nat, height_chars as nat),
                    ..old(self).state().cursor
                })
                &&& final(self).state().decckm == old(self).state().decckm
                &&& final(self).tags() == painted(
                    old(self).tags(),
                    cursor_to_pos(m.line_starts.len(), CursorPos { x: 0, y: 0 }),
                    BufPos { line_id: crate::buffer::line_id_of(m.line_starts.len(), m.height), x_pos: m.width as usize },
                    old(self).state().cursor.bold,
                    old(self).state().cursor.color,
                )
                &&& forall|p: BufPos|
                    #![trigger style_at(final(self).tags(), p)]
                    style_at(final(self).tags(), p) == if in_range(
                        cursor_to_pos(m.line_starts.len(), CursorPos { x: 0, y: 0 }),
                        BufPos { line_id: crate::buffer::line_id_of(m.line_starts.len(), m.height), x_pos: m.width as usize },
                        p,
                    ) {
                        Some((old(self).state().cursor.bold, old(self).state().cursor.color))
                    } else {
                        style_at(old(self).tags(), p)
                    }
            }),
    {
        let response = self.terminal_buffer.set_win_size(width_chars, height_chars, &self.cursor_state.pos);
        if !response.changed {
            return false;
        }
        proof {
            self.terminal_buffer.lemma_wf();
            let old_b = old(self).state().buffer;
            let fresh = BufferModel {
                width: width_chars as nat,
                height: height_chars as nat,
                lines: Seq::new(height_chars as nat, |_y: int| crate::visible::empty_line()),
                ..old_b
            };
            crate::buffer::lemma_reflow_size(old_b.lines, 0, fresh, (0, 0), (0, 0), old(self).state().cursor.pos);
        }
        let x = if response.new_cursor_pos.x < width_chars { response.new_cursor_pos.x } else { width_chars - 1 };
        let y = if response.new_cursor_pos.y < height_chars { response.new_cursor_pos.y } else { height_chars - 1 };
        self.cursor_state.pos = CursorPos { x, y };
        let visible = self.terminal_buffer.get_visible_range();
        self.format_tracker.push_range(&self.cursor_state, visible);
        true
    }
}

/// Why the state of a terminal could not be saved.
#[derive(Debug, Clone, Copy, PartialEq, Eq, Structural)]
pub enum StartRecordingError {
    SnapshotBuffer(CreateSnapshotError),
    SnapshotFormatTracker,
    SnapshotCursor(SnapshotCursorPosError),
}

/// Why a snapshot item describes no terminal.
#[derive(Debug, Clone, Copy, PartialEq, Eq, Structural)]
pub enum LoadSnapshotError {
    RootNotMap,
    ParserNotPresent,
    LoadParser(LoadParserError),
    BufferNotPresent,
    LoadBuffer(crate::buffer::LoadSnapshotError),
    FormatTrackerNotPresent,
    LoadFormatTracker(LoadFormatTrackerError),
    DecckmNotPresent,
    DecckmNotBool,
    CursorStateNotPresent,
    LoadCursorState(LoadCursorStateError),
    /// The cursor lies outside the grid.
    CursorOutsideGrid,
}

/// The terminal that a snapshot item describes, as its parser state, model,
/// and tags, or the first thing wrong with it.
pub open spec fn decode_emulator(s: SnapshotItem) -> Result<(ParserView, CoreModel, Seq<FormatTag>), LoadSnapshotError> {
    if !(s is Dict) {
        Err(LoadSnapshotError::RootNotMap)
    } else {
        match field(s, "parser"@) {
            None => Err(LoadSnapshotError::ParserNotPresent),
            Some(p) => match decode_parser(p) {
                Err(e) => Err(LoadSnapshotError::LoadParser(e)),
                Ok(parser) => match field(s, "terminal_buffer"@) {
                    None => Err(LoadSnapshotError::BufferNotPresent),
                    Some(b) => match decode_buffer(b) {
                        Err(e) => Err(LoadSnapshotError::LoadBuffer(e)),
                        Ok(buffer) => match field(s, "format_tracker"@) {
                            None => Err(LoadSnapshotError::FormatTrackerNotPresent),
                            Some(f) => match decode_tags(f) {
                                Err(e) => Err(LoadSnapshotError::LoadFormatTracker(e)),
                                Ok(tags) => match field(s, "decckm_mode"@) {
                                    None => Err(LoadSnapshotError::DecckmNotPresent),
                                    Some(d) => match as_bool(d) {
                                        None => Err(LoadSnapshotError::DecckmNotBool),
                                        Some(decckm) => match field(s, "cursor_state"@) {
                                            None => Err(LoadSnapshotError::CursorStateNotPresent),
                                            Some(c) => match decode_cursor_state(c) {
                                                Err(e) => Err(LoadSnapshotError::LoadCursorState(e)),
                                                Ok(cursor) => if cursor.pos.x < buffer.width && cursor.pos.y < buffer.height {
                                                    Ok((parser, CoreModel { buffer, cursor, decckm }, tags))
                                                } else {
                                                    Err(LoadSnapshotError::CursorOutsideGrid)
                                                },
                                            },
                                        },
                                    },
                                },
                            },
                        },
                    },
                },
            },
        }
    }
}

impl TerminalEmulator {
    /// The whole state as a map with keys `parser`, `terminal_buffer`,
    /// `format_tracker`, `decckm_mode` and `cursor_state`.
    pub fn snapshot(&self) -> (r: Result<SnapshotItem, StartRecordingError>)
        requires
            self.wf(),
        ensures
            r is Ok <==> (snapshot_fits(self.state().buffer) && tags_fit(self.tags()) && self.state().cursor.pos.x
                <= i64::MAX && self.state().cursor.pos.y <= i64::MAX),
            r matches Ok(s) ==> decode_emulator(s) == Ok::<(ParserView, CoreModel, Seq<FormatTag>), LoadSnapshotError>(
                (self.parser_state(), self.state(), self.tags()),
            ),
    {
        let parser = self.parser.snapshot();
        let buffer = match self.terminal_buffer.snapshot() {
            Ok(v) => v,
            Err(e) => {
                return Err(StartRecordingError::SnapshotBuffer(e));
            },
        };
        let tracker = match self.format_tracker.snapshot() {
            Some(v) => v,
            None => {
                return Err(StartRecordingError::SnapshotFormatTracker);
            },
        };
        let cursor = match self.cursor_state.snapshot() {
            Ok(v) => v,
            Err(e) => {
                return Err(StartRecordingError::SnapshotCursor(e));
            },
        };
        let mut entries: Vec<(String, SnapshotItem)> = Vec::new();
        entries.push((key_string("parser"), parser));
        entries.push((key_string("terminal_buffer"), buffer));
        entries.push((key_string("format_tracker"), tracker));
        entries.push((key_string("decckm_mode"), SnapshotItem::Bool(self.decckm_mode)));
        entries.push((key_string("cursor_state"), cursor));
        proof {
            reveal_strlit("parser");
            reveal_strlit("terminal_buffer");
            reveal_strlit("format_tracker");
            reveal_strlit("decckm_mode");
            reveal_strlit("cursor_state");
            assert("parser"@.len() == 6 && "terminal_buffer"@.len() == 15 && "format_tracker"@.len() == 14);
            assert("decckm_mode"@.len() == 11 && "cursor_state"@.len() == 12);
            lemma_entry_at(entries@, 0, "parser"@);
            lemma_entry_at(entries@, 1, "terminal_buffer"@);
            lemma_entry_at(entries@, 2, "format_tracker"@);
            lemma_entry_at(entries@, 3, "decckm_mode"@);
            lemma_entry_at(entries@, 4, "cursor_state"@);
            self.terminal_buffer.lemma_wf();
        }
        Ok(SnapshotItem::Dict(entries))
    }

    /// The terminal that `snapshot` describes, or the first thing wrong with it.
    pub fn from_snapshot(snapshot: SnapshotItem) -> (r: Result<TerminalEmulator, LoadSnapshotError>)
        ensures
            match r {
                Ok(t) => t.wf() && decode_emulator(snapshot) == Ok::<(ParserView, CoreModel, Seq<FormatTag>), LoadSnapshotError>(
                    (t.parser_state(), t.state(), t.tags()),
                ),
                Err(e) => decode_emulator(snapshot) == Err::<(ParserView, CoreModel, Seq<FormatTag>), LoadSnapshotError>(e),
            },
    {
        let s = &snapshot;
        match s {
            SnapshotItem::Dict(_) => {},
            _ => {
                return Err(LoadSnapshotError::RootNotMap);
            },
        }
        let p = match get_field(s, "parser") {
            Some(v) => v,
            None => {
                return Err(LoadSnapshotError::ParserNotPresent);
            },
        };
        let parser = match AnsiParser::from_snapshot(p) {
            Ok(v) => v,
            Err(e) => {
                return Err(LoadSnapshotError::LoadParser(e));
            },
        };
        let b = match get_field(s, "terminal_buffer") {
            Some(v) => v,
            None => {
                return Err(LoadSnapshotError::BufferNotPresent);
            },
        };
        let terminal_buffer = match TerminalBuffer2::from_snapshot_ref(b) {
            Ok(v) => v,
            Err(e) => {
                return Err(LoadSnapshotError::LoadBuffer(e));
            },
        };
        let f = match get_field(s, "format_tracker") {
            Some(v) => v,
            None => {
                return Err(LoadSnapshotError::FormatTrackerNotPresent);
            },
        };
        let format_tracker = match FormatTracker::from_snapshot(f) {
            Ok(v) => v,
            Err(e) => {
                return Err(LoadSnapshotError::LoadFormatTracker(e));
            },
        };
        let d = match get_field(s, "decckm_mode") {
            Some(v) => v,
            None => {
                return Err(LoadSnapshotError::DecckmNotPresent);
            },
        };
        let decckm_mode = match read_bool(d) {
            Some(v) => v,
            None => {
                return Err(LoadSnapshotError::DecckmNotBool);
            },
        };
        let c = match get_field(s, "cursor_state") {
            Some(v) => v,
            None => {
                return Err(LoadSnapshotError::CursorStateNotPresent);
            },
        };
        let cursor_state = match CursorState::from_snapshot(c) {
            Ok(v) => v,
            Err(e) => {
                return Err(LoadSnapshotError::LoadCursorState(e));
            },
        };
        let (w, h) = terminal_buffer.get_win_size();
        if cursor_state.pos.x >= w || cursor_state.pos.y >= h {
            return Err(LoadSnapshotError::CursorOutsideGrid);
        }
        Ok(TerminalEmulator { parser, terminal_buffer, format_tracker, cursor_state, decckm_mode })
    }
}

fn absolute_exec(v: Option<usize>, cur: usize, limit: usize) -> (r: usize)
    requires
        limit > 0,
    ensures
        r == absolute(v, cur, limit as nat),
{
    match v {
        Some(v) => {
            let z = if v == 0 { 0 } else { v - 1 };
            if z < limit - 1 { z } else { limit - 1 }
        },
        None => cur,
    }
}

fn relative_exec(d: Option<i32>, cur: usize, limit: usize) -> (r: usize)
    requires
        limit > 0,
        cur < limit,
    ensures
        r == relative(d, cur, limit as nat),
{
    match d {
        Some(d) => {
            if d < 0 {
                let back = (-(d as i64)) as usize;
                if back > cur { 0 } else { cur - back }
            } else {
                let fwd = d as usize;
                if fwd < limit - 1 - cur { cur + fwd } else { limit - 1 }
            }
        },
        None => cur,
    }
}

} // verus!
