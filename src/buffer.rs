use vstd::prelude::*;

use std::ops::Range;

use crate::cursor::CursorPos;
use crate::line::{lemma_line_insert_consumed, line_insert, open_spaces, remove_range, LineView};
use crate::snapshot::{as_bytes, as_usizes, bytes_item, entry_value, field, get_field, key_string, lemma_entry_at, read_bytes, read_usize, read_usizes, usize_item, usizes_item, SnapshotItem};
use crate::visible::{bytes_equal, decode_grid, LoadGridError, empty_line, grid_line_starts, grid_text, VisibleBuffer};

verus! {

/// Where a character lives for the whole life of the terminal: the id of the
/// row it was written on, and its column. Row ids grow by one for each row
/// that scrolls out of the grid, so they survive scrolling unchanged.
#[derive(Debug, Clone, Copy, PartialEq, Eq, PartialOrd, Ord, Structural)]
pub struct BufPos {
    pub line_id: usize,
    pub x_pos: usize,
}

/// Lexicographic order on positions: row id first, then column.
pub open spec fn pos_le(a: BufPos, b: BufPos) -> bool {
    a.line_id < b.line_id || (a.line_id == b.line_id && a.x_pos <= b.x_pos)
}

pub open spec fn pos_lt(a: BufPos, b: BufPos) -> bool {
    a.line_id < b.line_id || (a.line_id == b.line_id && a.x_pos < b.x_pos)
}

/// The end of all content.
pub open spec fn buf_pos_max() -> BufPos {
    BufPos { line_id: usize::MAX, x_pos: usize::MAX }
}

impl BufPos {
    /// The position of column `x_pos` of row `line_id`.
    pub fn new(x_pos: usize, line_id: usize) -> (r: BufPos)
        ensures
            r.x_pos == x_pos,
            r.line_id == line_id,
    {
        BufPos { x_pos, line_id }
    }

    /// The position after all content.
    pub fn max_value() -> (r: BufPos)
        ensures
            r == buf_pos_max(),
    {
        BufPos { line_id: usize::MAX, x_pos: usize::MAX }
    }

    /// Whether `self` comes no later than `other`.
    pub fn is_at_or_before(&self, other: &BufPos) -> (r: bool)
        ensures
            r == pos_le(*self, *other),
    {
        self.line_id < other.line_id || (self.line_id == other.line_id && self.x_pos <= other.x_pos)
    }

    /// Whether `self` comes before `other`.
    pub fn is_before(&self, other: &BufPos) -> (r: bool)
        ensures
            r == pos_lt(*self, *other),
    {
        self.line_id < other.line_id || (self.line_id == other.line_id && self.x_pos < other.x_pos)
    }
}

/// The state of a terminal buffer: the grid and what has scrolled out of it.
pub struct BufferModel {
    pub width: nat,
    pub height: nat,
    /// Rows of the grid, top first.
    pub lines: Seq<LineView>,
    /// Bytes of the rows that left the grid, in order.
    pub scrollback: Seq<u8>,
    /// Offset in `scrollback` of each row that left the grid, by row id.
    pub line_starts: Seq<usize>,
}

/// Row 0 leaves the grid for the scrollback, with a newline if it ended
/// with one; the rows below move up and an empty row enters at the bottom.
pub open spec fn evict(m: BufferModel) -> BufferModel {
    let l0 = m.lines[0];
    BufferModel {
        line_starts: m.line_starts.push(m.scrollback.len() as usize),
        scrollback: m.scrollback + l0.text + if l0.newline {
            seq![0x0au8]
        } else {
            Seq::empty()
        },
        lines: m.lines.drop_first().push(empty_line()),
        ..m
    }
}

/// Writing `data` with the cursor at `(x, y)`: row by row, moving to the
/// start of the next row when a row is done, and scrolling a row out of the
/// grid when the bottom row is done. The final state and cursor.
pub open spec fn insert_run(m: BufferModel, x: nat, y: nat, data: Seq<u8>) -> (BufferModel, nat, nat)
    decreases data.len(), if x >= m.width { 1int } else { 0int },
{
    if data.len() == 0 || y >= m.height || m.width == 0 {
        (m, x, y)
    } else {
        let (l, consumed, nx) = line_insert(m.lines[y as int], data, x, m.width);
        let m1 = BufferModel { lines: m.lines.update(y as int, l), ..m };
        let x2: nat = if nx >= m.width { 0 } else { nx };
        let y2: nat = if nx >= m.width { y + 1 } else { y };
        let m2 = if y2 >= m.height { evict(m1) } else { m1 };
        let y3: nat = if y2 >= m.height { (m.height - 1) as nat } else { y2 };
        if consumed <= data.len() {
            insert_run(m2, x2, y3, data.subrange(consumed as int, data.len() as int))
        } else {
            (m2, x2, y3)
        }
    }
}

/// Row id of grid row `y` when `count` rows have left the grid, saturating at
/// the largest id.
pub open spec fn line_id_of(count: nat, y: nat) -> usize {
    if count + y <= usize::MAX {
        (count + y) as usize
    } else {
        usize::MAX
    }
}

pub open spec fn cursor_to_pos(count: nat, c: CursorPos) -> BufPos {
    BufPos { line_id: line_id_of(count, c.y as nat), x_pos: c.x }
}

/// What an insertion did.
pub struct TerminalBufferModification {
    /// From the cursor before the write to the cursor after it.
    pub written_range: Range<BufPos>,
    /// Where the cursor is after the write.
    pub new_cursor_pos: CursorPos,
}

pub struct TerminalBufferInsertResponse {
    pub written_range: Range<usize>,
    pub insertion_range: Range<usize>,
    pub new_cursor_pos: CursorPos,
}

pub struct TerminalBufferInsertLineResponse {
    pub deleted_range: Range<usize>,
    pub inserted_range: Range<usize>,
}

pub struct TerminalBufferSetWinSizeResponse {
    pub changed: bool,
    pub insertion_range: Range<usize>,
    pub new_cursor_pos: CursorPos,
}

/// The bytes of the grid and of the scrollback, with where each row starts.
pub struct TerminalData2 {
    pub scrollback: Vec<u8>,
    pub visible: Vec<u8>,
    /// Offset in `scrollback` of each row that left the grid, by row id.
    pub scrollback_line_mappings: Vec<usize>,
    /// Offset in `visible` of each row of the grid.
    pub visible_line_mappings: Vec<usize>,
}

/// A grid of fixed size together with the rows that scrolled out of it.
#[derive(Debug)]
pub struct TerminalBuffer2 {
    visible_buf: VisibleBuffer,
    scrollback_line_positions: Vec<usize>,
    scrollback: Vec<u8>,
}

pub open spec fn starts_ok(starts: Seq<usize>, n: nat) -> bool {
    &&& forall|i: int| 0 <= i < starts.len() ==> #[trigger] starts[i] <= n
    &&& forall|i: int| #![trigger starts[i], starts[i + 1]] 0 <= i < starts.len() - 1 ==> starts[i] <= starts[i + 1]
}

impl View for TerminalBuffer2 {
    type V = BufferModel;

    closed spec fn view(&self) -> BufferModel {
        BufferModel {
            width: self.visible_buf.spec_width(),
            height: self.visible_buf.spec_height(),
            lines: self.visible_buf@,
            scrollback: self.scrollback@,
            line_starts: self.scrollback_line_positions@,
        }
    }
}

/// What holds of every buffer: a grid of at least one cell, rows no wider
/// than the grid, and row offsets in order within the scrollback.
pub open spec fn model_wf(m: BufferModel) -> bool {
    &&& m.width > 0
    &&& m.height > 0
    &&& m.lines.len() == m.height
    &&& forall|y: int| 0 <= y < m.lines.len() ==> #[trigger] m.lines[y].text.len() <= m.width
    &&& starts_ok(m.line_starts, m.scrollback.len())
}

impl TerminalBuffer2 {
    pub closed spec fn wf(&self) -> bool {
        &&& self.visible_buf.wf()
        &&& starts_ok(self.scrollback_line_positions@, self.scrollback@.len())
    }

    pub proof fn lemma_wf(&self)
        requires
            self.wf(),
        ensures
            model_wf(self@),
    {
        self.visible_buf.lemma_view();
    }

    /// An empty buffer of `width` columns and `height` rows.
    pub open spec fn new_model(width: nat, height: nat) -> BufferModel {
        BufferModel {
            width,
            height,
            lines: Seq::new(height, |_y: int| empty_line()),
            scrollback: Seq::empty(),
            line_starts: Seq::empty(),
        }
    }

    /// An empty buffer of `width` columns and `height` rows.
    pub fn new(width: usize, height: usize) -> (r: TerminalBuffer2)
        requires
            width > 0,
            height > 0,
        ensures
            r.wf(),
            r@ == TerminalBuffer2::new_model(width as nat, height as nat),
    {
        TerminalBuffer2 {
            visible_buf: VisibleBuffer::new(width, height),
            scrollback_line_positions: Vec::new(),
            scrollback: Vec::new(),
        }
    }

    fn push_line_to_scrollback(&mut self)
        requires
            old(self).wf(),
        ensures
            final(self).wf(),
            final(self)@ == evict(old(self)@),
    {
        proof {
            self.visible_buf.lemma_view();
        }
        let line = self.visible_buf.get_line(0);
        let start = self.scrollback.len();
        self.scrollback_line_positions.push(start);
        crate::visible::append_bytes(&mut self.scrollback, line.serialize());
        if line.has_newline() {
            self.scrollback.push(0x0a);
        }
        self.visible_buf.push_line();
        assert(self@.scrollback =~= evict(old(self)@).scrollback);
        assert(self@.lines =~= evict(old(self)@).lines);
    }

    /// The position of the cell under the cursor.
    pub fn cursor_to_buf_pos(&self, cursor_pos: &CursorPos) -> (r: BufPos)
        ensures
            r == cursor_to_pos(self@.line_starts.len(), *cursor_pos),
    {
        let count = self.scrollback_line_positions.len();
        let line_id = if cursor_pos.y <= usize::MAX - count { count + cursor_pos.y } else { usize::MAX };
        BufPos { line_id, x_pos: cursor_pos.x }
    }
}

impl TerminalBuffer2 {
    /// Writes `data` with the cursor at `cursor_pos`, wrapping at the end of
    /// each row and scrolling rows into the scrollback past the bottom.
    pub fn insert_data(&mut self, cursor_pos: &CursorPos, data: &[u8]) -> (r: TerminalBufferModification)
        requires
            old(self).wf(),
            cursor_pos.y < old(self)@.height,
        ensures
            final(self).wf(),
            ({
                let (m, x, y) = insert_run(old(self)@, cursor_pos.x as nat, cursor_pos.y as nat, data@);
                &&& final(self)@ == m
                &&& r.new_cursor_pos.x == x
                &&& r.new_cursor_pos.y == y
                &&& r.written_range.start == cursor_to_pos(old(self)@.line_starts.len(), *cursor_pos)
                &&& r.written_range.end == cursor_to_pos(m.line_starts.len(), r.new_cursor_pos)
            }),
    {
        let mut x = cursor_pos.x;
        let mut y = cursor_pos.y;
        let max_y_idx = self.visible_buf.height() - 1;
        let write_start = self.cursor_to_buf_pos(cursor_pos);
        let ghost target = insert_run(old(self)@, cursor_pos.x as nat, cursor_pos.y as nat, data@);
        let mut off: usize = 0;
        assert(data@.subrange(0, data@.len() as int) =~= data@);
        while off < data.len()
            invariant
                self.wf(),
                self@.width == old(self)@.width,
                self@.height == old(self)@.height,
                max_y_idx == self@.height - 1,
                max_y_idx < usize::MAX,
                y <= max_y_idx,
                off <= data.len(),
                insert_run(self@, x as nat, y as nat, data@.subrange(off as int, data@.len() as int)) == target,
            decreases data.len() - off, if x >= self@.width { 1int } else { 0int },
        {
            let rest = vstd::slice::slice_subrange(data, off, data.len());
            let ghost m0 = self@;
            let ghost x0 = x as nat;
            let ghost y0 = y as nat;
            proof {
                self.lemma_wf();
                lemma_line_insert_consumed(m0.lines[y0 as int], rest@, x0, m0.width);
            }
            let response = self.visible_buf.insert_data(y, rest, x);
            x = response.new_x_pos;
            if x >= self.visible_buf.width() {
                x = 0;
                y += 1;
            }
            if y > max_y_idx {
                self.push_line_to_scrollback();
                y = max_y_idx;
            }
            assert(data@.subrange((off + response.consumed) as int, data@.len() as int) =~= rest@.subrange(response.consumed as int, rest@.len() as int));
            off = off + response.consumed;
        }
        assert(data@.subrange(off as int, data@.len() as int) =~= Seq::<u8>::empty());
        let new_cursor_pos = CursorPos { x, y };
        let write_end = self.cursor_to_buf_pos(&new_cursor_pos);
        TerminalBufferModification { written_range: write_start..write_end, new_cursor_pos }
    }
}

/// Rows from `y` on move down by `n`; the `n` rows opened at `y` are empty,
/// and rows pushed past the bottom are lost.
pub open spec fn lines_inserted(lines: Seq<LineView>, y: nat, n: nat) -> Seq<LineView> {
    Seq::new(
        lines.len(),
        |r: int|
            if r < y {
                lines[r]
            } else if r < y + n {
                empty_line()
            } else {
                lines[r - n]
            },
    )
}

/// Row `y` cut back to column `x` and without its newline.
pub open spec fn truncated(l: LineView, x: nat) -> LineView {
    LineView { text: l.text.subrange(0, if x < l.text.len() { x as int } else { l.text.len() as int }), newline: false }
}

/// `n` blank cells opened at the cursor; nothing below the grid.
pub open spec fn spaces_inserted(m: BufferModel, c: CursorPos, n: nat) -> BufferModel {
    if c.y < m.height {
        BufferModel {
            lines: m.lines.update(c.y as int, LineView {
                text: open_spaces(m.lines[c.y as int].text, c.x as nat, n, m.width),
                newline: m.lines[c.y as int].newline,
            }),
            ..m
        }
    } else {
        m
    }
}

/// `n` empty rows opened at the cursor's row; nothing below the grid.
pub open spec fn rows_inserted(m: BufferModel, c: CursorPos, n: nat) -> BufferModel {
    BufferModel { lines: if c.y < m.height { lines_inserted(m.lines, c.y as nat, n) } else { m.lines }, ..m }
}

/// The cursor's row cut back to the cursor, and every row below it emptied.
pub open spec fn cleared_forwards(m: BufferModel, c: CursorPos) -> BufferModel {
    BufferModel {
        lines: if c.y < m.height {
            Seq::new(
                m.height,
                |t: int|
                    if t < c.y {
                        m.lines[t]
                    } else if t == c.y {
                        truncated(m.lines[t], c.x as nat)
                    } else {
                        empty_line()
                    },
            )
        } else {
            m.lines
        },
        ..m
    }
}

/// The cursor's row cut back to the cursor.
pub open spec fn line_cleared_forwards(m: BufferModel, c: CursorPos) -> BufferModel {
    BufferModel {
        lines: if c.y < m.height {
            m.lines.update(c.y as int, truncated(m.lines[c.y as int], c.x as nat))
        } else {
            m.lines
        },
        ..m
    }
}

/// Every row empty and no scrollback bytes; row ids are kept.
pub open spec fn cleared_all(m: BufferModel) -> BufferModel {
    BufferModel {
        lines: Seq::new(m.height, |_t: int| empty_line()),
        scrollback: Seq::empty(),
        line_starts: Seq::new(m.line_starts.len(), |_i: int| 0usize),
        ..m
    }
}

/// Up to `n` bytes of the cursor's row removed from the cursor on.
pub open spec fn deleted_forwards(m: BufferModel, c: CursorPos, n: nat) -> BufferModel {
    BufferModel {
        lines: if c.y < m.height {
            m.lines.update(c.y as int, LineView {
                text: remove_range(m.lines[c.y as int].text, c.x as nat, n),
                newline: m.lines[c.y as int].newline,
            })
        } else {
            m.lines
        },
        ..m
    }
}

impl TerminalBuffer2 {
    /// Opens `num_spaces` blank cells at the cursor, pushing the rest of the
    /// row right; nothing wraps. Nothing happens below the grid.
    pub fn insert_spaces(&mut self, cursor_pos: &CursorPos, num_spaces: usize) -> (r: TerminalBufferInsertResponse)
        requires
            old(self).wf(),
        ensures
            final(self).wf(),
            r.new_cursor_pos == *cursor_pos,
            r.written_range == (0usize..0usize),
            r.insertion_range == (0usize..0usize),
            final(self)@ == spaces_inserted(old(self)@, *cursor_pos, num_spaces as nat),
    {
        if cursor_pos.y < self.visible_buf.height() {
            self.visible_buf.insert_spaces(cursor_pos.y, cursor_pos.x, num_spaces);
        }
        TerminalBufferInsertResponse { written_range: 0..0, insertion_range: 0..0, new_cursor_pos: *cursor_pos }
    }

    /// Opens `num_lines` empty rows at the cursor's row, moving the rows from
    /// there down; rows pushed past the bottom are lost.
    pub fn insert_lines(&mut self, cursor_pos: &CursorPos, num_lines: usize) -> (r: TerminalBufferInsertLineResponse)
        requires
            old(self).wf(),
        ensures
            final(self).wf(),
            r.deleted_range == (0usize..0usize),
            r.inserted_range == (0usize..0usize),
            final(self)@ == rows_inserted(old(self)@, *cursor_pos, num_lines as nat),
    {
        proof {
            self.lemma_wf();
        }
        let h = self.visible_buf.height();
        let y = cursor_pos.y;
        let n = num_lines;
        if y >= h || n == 0 {
            assert(n == 0 ==> self@.lines =~= lines_inserted(self@.lines, y as nat, 0));
            return TerminalBufferInsertLineResponse { deleted_range: 0..0, inserted_range: 0..0 };
        }
        let ghost old_lines = self@.lines;
        let mut k: usize = h;
        while k > y
            invariant
                self.wf(),
                self@.width == old(self)@.width,
                self@.height == h,
                self@.scrollback == old(self)@.scrollback,
                self@.line_starts == old(self)@.line_starts,
                old_lines == old(self)@.lines,
                y <= k <= h,
                n > 0,
                self@.lines.len() == h,
                forall|r: int|
                    0 <= r < h ==> #[trigger] self@.lines[r] == if r < k {
                        old_lines[r]
                    } else if r < k + n {
                        empty_line()
                    } else {
                        old_lines[r - n]
                    },
            decreases k,
        {
            k -= 1;
            proof {
                self.lemma_wf();
            }
            let ghost prev = self@.lines;
            if n < h - k {
                self.visible_buf.copy_line(k, k + n);
            }
            proof {
                self.lemma_wf();
            }
            self.visible_buf.clear_line(k);
            assert forall|r: int| 0 <= r < h implies #[trigger] self@.lines[r] == if r < k {
                old_lines[r]
            } else if r < k + n {
                empty_line()
            } else {
                old_lines[r - n]
            } by {
                if r < k {
                    assert(prev[r] == old_lines[r]);
                } else if r == k {
                } else if r < k + n {
                    assert(prev[r] == empty_line());
                } else if r == k + n {
                    assert(prev[k as int] == old_lines[k as int]);
                } else {
                    assert(prev[r] == old_lines[r - n]);
                }
            }
        }
        proof {
            self.lemma_wf();
        }
        assert(self@.lines =~= lines_inserted(old_lines, y as nat, n as nat));
        TerminalBufferInsertLineResponse { deleted_range: 0..0, inserted_range: 0..0 }
    }

    /// Cuts the cursor's row back to the cursor and empties every row below.
    pub fn clear_forwards(&mut self, cursor_pos: &CursorPos) -> (r: Option<usize>)
        requires
            old(self).wf(),
        ensures
            final(self).wf(),
            r.is_none(),
            final(self)@ == cleared_forwards(old(self)@, *cursor_pos),
    {
        proof {
            self.lemma_wf();
        }
        let h = self.visible_buf.height();
        if cursor_pos.y >= h {
            return None;
        }
        self.clear_line_forwards(cursor_pos);
        let ghost after_line = self@.lines;
        let mut t: usize = cursor_pos.y + 1;
        while t < h
            invariant
                self.wf(),
                self@.width == old(self)@.width,
                self@.height == h,
                self@.scrollback == old(self)@.scrollback,
                self@.line_starts == old(self)@.line_starts,
                cursor_pos.y < t <= h,
                self@.lines.len() == h,
                after_line.len() == h,
                forall|r: int|
                    0 <= r < h ==> #[trigger] self@.lines[r] == if cursor_pos.y < r < t {
                        empty_line()
                    } else {
                        after_line[r]
                    },
            decreases h - t,
        {
            proof {
                self.lemma_wf();
            }
            self.visible_buf.clear_line(t);
            t += 1;
        }
        proof {
            self.lemma_wf();
        }
        assert(self@.lines =~= Seq::new(
            old(self)@.height,
            |r: int|
                if r < cursor_pos.y {
                    old(self)@.lines[r]
                } else if r == cursor_pos.y {
                    truncated(old(self)@.lines[r], cursor_pos.x as nat)
                } else {
                    empty_line()
                },
        ));
        None
    }

    /// Cuts the cursor's row back to the cursor, and forgets its newline.
    pub fn clear_line_forwards(&mut self, cursor_pos: &CursorPos) -> (r: Option<Range<usize>>)
        requires
            old(self).wf(),
        ensures
            final(self).wf(),
            r.is_none(),
            final(self)@ == line_cleared_forwards(old(self)@, *cursor_pos),
    {
        if cursor_pos.y < self.visible_buf.height() {
            self.visible_buf.truncate(cursor_pos.y, cursor_pos.x);
        }
        None
    }

    /// Empties the grid and the scrollback. Rows that left the grid keep
    /// their ids, now all starting at offset 0 of the empty scrollback.
    pub fn clear_all(&mut self)
        requires
            old(self).wf(),
        ensures
            final(self).wf(),
            final(self)@ == cleared_all(old(self)@),
    {
        proof {
            self.lemma_wf();
        }
        let h = self.visible_buf.height();
        let mut t: usize = 0;
        while t < h
            invariant
                self.wf(),
                self@.width == old(self)@.width,
                self@.height == h,
                self@.scrollback == old(self)@.scrollback,
                self@.line_starts == old(self)@.line_starts,
                t <= h,
                self@.lines.len() == h,
                forall|r: int| 0 <= r < t ==> #[trigger] self@.lines[r] == empty_line(),
            decreases h - t,
        {
            proof {
                self.lemma_wf();
            }
            self.visible_buf.clear_line(t);
            t += 1;
        }
        self.scrollback.clear();
        let n = self.scrollback_line_positions.len();
        let mut starts: Vec<usize> = Vec::new();
        let mut i: usize = 0;
        while i < n
            invariant
                i <= n,
                starts@ == Seq::new(i as nat, |_i: int| 0usize),
            decreases n - i,
        {
            starts.push(0);
            i += 1;
            assert(starts@ =~= Seq::new(i as nat, |_i: int| 0usize));
        }
        self.scrollback_line_positions = starts;
        proof {
            self.lemma_wf();
        }
        assert(self@.lines =~= Seq::new(old(self)@.height, |_t: int| empty_line()));
    }

    /// Removes up to `num_chars` bytes of the cursor's row from the cursor on.
    pub fn delete_forwards(&mut self, cursor_pos: &CursorPos, num_chars: usize) -> (r: Option<Range<usize>>)
        requires
            old(self).wf(),
        ensures
            final(self).wf(),
            r.is_none(),
            final(self)@ == deleted_forwards(old(self)@, *cursor_pos, num_chars as nat),
    {
        if cursor_pos.y < self.visible_buf.height() {
            self.visible_buf.delete(cursor_pos.y, cursor_pos.x, num_chars);
        }
        None
    }

    /// The scrollback and the grid as bytes, with where each row starts.
    pub fn data(&self) -> (r: TerminalData2)
        requires
            self.wf(),
        ensures
            r.scrollback@ == self@.scrollback,
            r.scrollback_line_mappings@ == self@.line_starts,
            r.visible@ == grid_text(self@.lines, self@.width),
            r.visible_line_mappings@.len() == self@.height,
            forall|y: int| 0 <= y < self@.height ==> r.visible_line_mappings@[y] as nat == #[trigger] grid_line_starts(self@.lines, self@.width)[y],
    {
        let visible_response = self.visible_buf.serialize();
        let scrollback = self.scrollback.clone();
        let scrollback_line_mappings = self.scrollback_line_positions.clone();
        assert(scrollback@ =~= self.scrollback@);
        assert(scrollback_line_mappings@ =~= self.scrollback_line_positions@);
        TerminalData2 {
            scrollback,
            visible: visible_response.data,
            visible_line_mappings: visible_response.line_mappings,
            scrollback_line_mappings,
        }
    }

    /// Columns and rows of the grid.
    pub fn get_win_size(&self) -> (r: (usize, usize))
        ensures
            r.0 == self@.width,
            r.1 == self@.height,
    {
        (self.visible_buf.width(), self.visible_buf.height())
    }

    /// Number of rows that have left the grid.
    pub fn scrollback_line_count(&self) -> (r: usize)
        ensures
            r == self@.line_starts.len(),
    {
        self.scrollback_line_positions.len()
    }

    /// From the start of the top row to the end of the bottom row.
    pub fn get_visible_range(&self) -> (r: Range<BufPos>)
        ensures
            r.start == cursor_to_pos(self@.line_starts.len(), CursorPos { x: 0, y: 0 }),
            r.end == (BufPos { line_id: line_id_of(self@.line_starts.len(), self@.height), x_pos: self@.width as usize }),
    {
        let first = self.cursor_to_buf_pos(&CursorPos { x: 0, y: 0 });
        let count = self.scrollback_line_positions.len();
        let h = self.visible_buf.height();
        let end_y = if h <= usize::MAX - count { count + h } else { usize::MAX };
        first..BufPos::new(self.visible_buf.width(), end_y)
    }
}

/// The cursor stays inside the grid, and the grid keeps its size.
pub proof fn lemma_insert_run_bounds(m: BufferModel, x: nat, y: nat, data: Seq<u8>)
    requires
        y < m.height,
    ensures
        insert_run(m, x, y, data).2 < m.height,
        x < m.width ==> insert_run(m, x, y, data).1 < m.width,
        insert_run(m, x, y, data).0.width == m.width,
        insert_run(m, x, y, data).0.height == m.height,
    decreases data.len(), if x >= m.width { 1int } else { 0int },
{
    if data.len() == 0 || y >= m.height || m.width == 0 {
    } else {
        let (l, consumed, nx) = line_insert(m.lines[y as int], data, x, m.width);
        let m1 = BufferModel { lines: m.lines.update(y as int, l), ..m };
        let x2: nat = if nx >= m.width { 0 } else { nx };
        let y2: nat = if nx >= m.width { y + 1 } else { y };
        let m2 = if y2 >= m.height { evict(m1) } else { m1 };
        let y3: nat = if y2 >= m.height { (m.height - 1) as nat } else { y2 };
        lemma_line_insert_consumed(m.lines[y as int], data, x, m.width);
        if consumed <= data.len() {
            lemma_insert_run_bounds(m2, x2, y3, data.subrange(consumed as int, data.len() as int));
        }
    }
}

/// The rows of an old grid written again, from row `i` on, into a grid of
/// another size, with the cursor at `pos`. The row that held the old cursor
/// `cursor` is written in two parts, and `cur` is where the cursor is after
/// the first. The final state and the cursor.
pub open spec fn reflow(
    lines: Seq<LineView>,
    i: nat,
    m: BufferModel,
    pos: (nat, nat),
    cur: (nat, nat),
    cursor: CursorPos,
) -> (BufferModel, (nat, nat))
    decreases lines.len() - i,
{
    if i >= lines.len() {
        (m, cur)
    } else {
        let text = lines[i as int].text;
        let (m1, q1, c1) = if i == cursor.y {
            let split: nat = if (cursor.x as nat) < text.len() { cursor.x as nat } else { text.len() };
            let (ma, xa, ya) = insert_run(m, pos.0, pos.1, text.subrange(0, split as int));
            let (mb, xb, yb) = insert_run(ma, xa, ya, text.subrange(split as int, text.len() as int));
            (mb, (xb, yb), (xa, ya))
        } else {
            let (ma, xa, ya) = insert_run(m, pos.0, pos.1, text);
            (ma, (xa, ya), cur)
        };
        let (m2, q2) = if lines[i as int].newline {
            let (mc, xc, yc) = insert_run(m1, q1.0, q1.1, seq![0x0au8]);
            (mc, (xc, yc))
        } else {
            (m1, q1)
        };
        reflow(lines, i + 1, m2, q2, c1, cursor)
    }
}

/// Writing rows again keeps the size of the grid.
pub proof fn lemma_reflow_size(
    lines: Seq<LineView>,
    i: nat,
    m: BufferModel,
    pos: (nat, nat),
    cur: (nat, nat),
    cursor: CursorPos,
)
    requires
        pos.1 < m.height,
    ensures
        reflow(lines, i, m, pos, cur, cursor).0.width == m.width,
        reflow(lines, i, m, pos, cur, cursor).0.height == m.height,
    decreases lines.len() - i,
{
    if i < lines.len() {
        let text = lines[i as int].text;
        if i == cursor.y {
            let split: nat = if (cursor.x as nat) < text.len() { cursor.x as nat } else { text.len() };
            lemma_insert_run_bounds(m, pos.0, pos.1, text.subrange(0, split as int));
            let (ma, xa, ya) = insert_run(m, pos.0, pos.1, text.subrange(0, split as int));
            lemma_insert_run_bounds(ma, xa, ya, text.subrange(split as int, text.len() as int));
            let (mb, xb, yb) = insert_run(ma, xa, ya, text.subrange(split as int, text.len() as int));
            lemma_insert_run_bounds(mb, xb, yb, seq![0x0au8]);
            let (mc, xc, yc) = insert_run(mb, xb, yb, seq![0x0au8]);
            if lines[i as int].newline {
                lemma_reflow_size(lines, i + 1, mc, (xc, yc), (xa, ya), cursor);
            } else {
                lemma_reflow_size(lines, i + 1, mb, (xb, yb), (xa, ya), cursor);
            }
        } else {
            lemma_insert_run_bounds(m, pos.0, pos.1, text);
            let (ma, xa, ya) = insert_run(m, pos.0, pos.1, text);
            lemma_insert_run_bounds(ma, xa, ya, seq![0x0au8]);
            let (mc, xc, yc) = insert_run(ma, xa, ya, seq![0x0au8]);
            if lines[i as int].newline {
                lemma_reflow_size(lines, i + 1, mc, (xc, yc), cur, cursor);
            } else {
                lemma_reflow_size(lines, i + 1, ma, (xa, ya), cur, cursor);
            }
        }
    }
}

impl TerminalBuffer2 {
    /// Changes the size of the grid, writing its rows again into the new
    /// grid; rows that no longer fit scroll into the scrollback.
    pub fn set_win_size(&mut self, width: usize, height: usize, cursor_pos: &CursorPos) -> (r: TerminalBufferSetWinSizeResponse)
        requires
            old(self).wf(),
            width > 0,
            height > 0,
        ensures
            final(self).wf(),
            r.insertion_range == (0usize..0usize),
            r.changed == !(width == old(self)@.width && height == old(self)@.height),
            !r.changed ==> final(self)@ == old(self)@ && r.new_cursor_pos == *cursor_pos,
            r.changed ==> ({
                let fresh = BufferModel {
                    width: width as nat,
                    height: height as nat,
                    lines: Seq::new(height as nat, |_y: int| empty_line()),
                    ..old(self)@
                };
                let (m, c) = reflow(old(self)@.lines, 0, fresh, (0, 0), (0, 0), *cursor_pos);
                &&& final(self)@ == m
                &&& r.new_cursor_pos.x == c.0
                &&& r.new_cursor_pos.y == c.1
            }),
    {
        if self.visible_buf.width() == width && self.visible_buf.height() == height {
            return TerminalBufferSetWinSizeResponse { changed: false, insertion_range: 0..0, new_cursor_pos: *cursor_pos };
        }
        let mut old_visible_buf = VisibleBuffer::new(width, height);
        std::mem::swap(&mut self.visible_buf, &mut old_visible_buf);
        proof {
            old_visible_buf.lemma_view();
            self.lemma_wf();
        }
        let ghost lines = old_visible_buf@;
        let old_height = old_visible_buf.height();
        let mut pos = CursorPos { x: 0, y: 0 };
        let mut new_cursor_pos = CursorPos { x: 0, y: 0 };
        let mut i: usize = 0;
        while i < old_height
            invariant
                self.wf(),
                old_visible_buf.wf(),
                lines == old_visible_buf@,
                old_height == lines.len(),
                old_height == old_visible_buf.spec_height(),
                i <= old_height,
                self@.width == width,
                self@.height == height,
                pos.y < height,
                reflow(lines, i as nat, self@, (pos.x as nat, pos.y as nat), (new_cursor_pos.x as nat, new_cursor_pos.y as nat), *cursor_pos)
                    == reflow(old(self)@.lines, 0, BufferModel {
                        width: width as nat,
                        height: height as nat,
                        lines: Seq::new(height as nat, |_y: int| empty_line()),
                        ..old(self)@
                    }, (0, 0), (0, 0), *cursor_pos),
            decreases old_height - i,
        {
            let line = old_visible_buf.get_line(i);
            let text = line.serialize();
            if i == cursor_pos.y {
                let split: usize = if cursor_pos.x < text.len() { cursor_pos.x } else { text.len() };
                proof {
                    lemma_insert_run_bounds(self@, pos.x as nat, pos.y as nat, text@.subrange(0, split as int));
                }
                new_cursor_pos = self.insert_data(&pos, vstd::slice::slice_subrange(text, 0, split)).new_cursor_pos;
                proof {
                    lemma_insert_run_bounds(self@, new_cursor_pos.x as nat, new_cursor_pos.y as nat, text@.subrange(split as int, text@.len() as int));
                }
                pos = self.insert_data(&new_cursor_pos, vstd::slice::slice_subrange(text, split, text.len())).new_cursor_pos;
            } else {
                proof {
                    lemma_insert_run_bounds(self@, pos.x as nat, pos.y as nat, text@);
                }
                pos = self.insert_data(&pos, text).new_cursor_pos;
            }
            if line.has_newline() {
                let nl: [u8; 1] = [0x0a];
                assert(nl@ =~= seq![0x0au8]);
                proof {
                    lemma_insert_run_bounds(self@, pos.x as nat, pos.y as nat, nl@);
                }
                pos = self.insert_data(&pos, nl.as_slice()).new_cursor_pos;
            }
            i += 1;
        }
        TerminalBufferSetWinSizeResponse { changed: true, insertion_range: 0..0, new_cursor_pos }
    }
}

/// Whether every number of the buffer fits an `i64`, as a snapshot needs.
pub open spec fn snapshot_fits(m: BufferModel) -> bool {
    &&& m.width <= i64::MAX
    &&& m.height <= i64::MAX
    &&& forall|i: int| 0 <= i < m.line_starts.len() ==> #[trigger] m.line_starts[i] <= i64::MAX
}

/// Why a buffer could not be saved.
#[derive(Debug, Clone, Copy, PartialEq, Eq, Structural)]
pub enum CreateSnapshotError {
    /// The width or the height of the grid does not fit an `i64`.
    GridSizeNotI64,
    /// A row offset in the scrollback does not fit an `i64`.
    LinePositionNotI64,
}

/// Why a snapshot item describes no buffer.
#[derive(Debug, Clone, Copy, PartialEq, Eq, Structural)]
pub enum LoadSnapshotError {
    RootNotMap,
    VisibleBufNotPresent,
    VisibleBufInvalid(LoadGridError),
    ScrollbackNotPresent,
    ScrollbackNotBytes,
    LinePositionsNotPresent,
    LinePositionsNotUsizes,
    LinePositionsOutOfOrder,
}

/// The buffer that a snapshot item describes, or the first thing wrong with it.
pub open spec fn decode_buffer(s: SnapshotItem) -> Result<BufferModel, LoadSnapshotError> {
    if !(s is Dict) {
        Err(LoadSnapshotError::RootNotMap)
    } else {
        match field(s, "visible_buf"@) {
            None => Err(LoadSnapshotError::VisibleBufNotPresent),
            Some(v) => match decode_grid(v) {
                Err(e) => Err(LoadSnapshotError::VisibleBufInvalid(e)),
                Ok((w, h, lines)) => match field(s, "scrollback"@) {
                    None => Err(LoadSnapshotError::ScrollbackNotPresent),
                    Some(sb) => match as_bytes(sb) {
                        None => Err(LoadSnapshotError::ScrollbackNotBytes),
                        Some(bytes) => match field(s, "scrollback_line_pos"@) {
                            None => Err(LoadSnapshotError::LinePositionsNotPresent),
                            Some(p) => match as_usizes(p) {
                                None => Err(LoadSnapshotError::LinePositionsNotUsizes),
                                Some(starts) => if starts_ok(starts, bytes.len()) {
                                    Ok(BufferModel { width: w, height: h, lines, scrollback: bytes, line_starts: starts })
                                } else {
                                    Err(LoadSnapshotError::LinePositionsOutOfOrder)
                                },
                            },
                        },
                    },
                },
            },
        }
    }
}

fn check_starts(starts: &Vec<usize>, n: usize) -> (r: bool)
    ensures
        r == starts_ok(starts@, n as nat),
{
    let mut i: usize = 0;
    while i < starts.len()
        invariant
            i <= starts@.len(),
            forall|j: int| 0 <= j < i ==> #[trigger] starts@[j] <= n,
            forall|j: int| #![trigger starts@[j], starts@[j + 1]] 0 <= j < i - 1 ==> starts@[j] <= starts@[j + 1],
        decreases starts.len() - i,
    {
        if starts[i] > n {
            return false;
        }
        if i > 0 && starts[i - 1] > starts[i] {
            assert(!(starts@[i - 1] <= starts@[(i - 1) + 1]));
            return false;
        }
        i += 1;
    }
    true
}

impl TerminalBuffer2 {
    /// The buffer as a map: the grid under `visible_buf`, the scrollback bytes
    /// under `scrollback`, and the row offsets under `scrollback_line_pos`.
    pub fn snapshot(&self) -> (r: Result<SnapshotItem, CreateSnapshotError>)
        requires
            self.wf(),
        ensures
            r is Ok <==> snapshot_fits(self@),
            match r {
                Ok(s) => decode_buffer(s) == Ok::<BufferModel, LoadSnapshotError>(self@),
                Err(CreateSnapshotError::GridSizeNotI64) => self@.width > i64::MAX || self@.height > i64::MAX,
                Err(CreateSnapshotError::LinePositionNotI64) => exists|i: int|
                    0 <= i < self@.line_starts.len() && #[trigger] self@.line_starts[i] > i64::MAX,
            },
    {
        let starts = self.scrollback_line_positions.as_slice();
        let positions = match usizes_item(starts) {
            Some(p) => p,
            None => {
                proof {
                    let i = choose|i: int| 0 <= i < starts@.len() && #[trigger] starts@[i] > i64::MAX;
                    assert(self@.line_starts[i] > i64::MAX);
                }
                return Err(CreateSnapshotError::LinePositionNotI64);
            },
        };
        let visible = match self.visible_buf.snapshot() {
            Some(v) => v,
            None => {
                return Err(CreateSnapshotError::GridSizeNotI64);
            },
        };
        let scrollback = bytes_item(self.scrollback.as_slice());
        let mut entries: Vec<(String, SnapshotItem)> = Vec::new();
        entries.push((key_string("scrollback"), scrollback));
        entries.push((key_string("scrollback_line_pos"), positions));
        entries.push((key_string("visible_buf"), visible));
        let r = SnapshotItem::Dict(entries);
        proof {
            reveal_strlit("scrollback");
            reveal_strlit("scrollback_line_pos");
            reveal_strlit("visible_buf");
            let e = entries@;
            assert("scrollback"@.len() == 10 && "scrollback_line_pos"@.len() == 19 && "visible_buf"@.len() == 11);
            assert(e.drop_first()[0] == e[1]);
            assert(e.drop_first().drop_first()[0] == e[2]);
            assert(entry_value(e, "scrollback"@) == Some(e[0].1));
            assert(entry_value(e.drop_first(), "scrollback_line_pos"@) == Some(e[1].1));
            assert(entry_value(e, "scrollback_line_pos"@) == Some(e[1].1));
            assert(entry_value(e.drop_first().drop_first(), "visible_buf"@) == Some(e[2].1));
            assert(entry_value(e.drop_first(), "visible_buf"@) == Some(e[2].1));
            assert(entry_value(e, "visible_buf"@) == Some(e[2].1));
        }
        Ok(r)
    }

    /// The buffer that `snapshot` describes, or the first thing wrong with it.
    pub fn from_snapshot(snapshot: SnapshotItem) -> (r: Result<TerminalBuffer2, LoadSnapshotError>)
        ensures
            match r {
                Ok(b) => b.wf() && decode_buffer(snapshot) == Ok::<BufferModel, LoadSnapshotError>(b@),
                Err(e) => decode_buffer(snapshot) == Err::<BufferModel, LoadSnapshotError>(e),
            },
    {
        TerminalBuffer2::from_snapshot_ref(&snapshot)
    }

    /// The buffer that `s` describes, or the first thing wrong with it.
    pub fn from_snapshot_ref(s: &SnapshotItem) -> (r: Result<TerminalBuffer2, LoadSnapshotError>)
        ensures
            match r {
                Ok(b) => b.wf() && decode_buffer(*s) == Ok::<BufferModel, LoadSnapshotError>(b@),
                Err(e) => decode_buffer(*s) == Err::<BufferModel, LoadSnapshotError>(e),
            },
    {
        match s {
            SnapshotItem::Dict(_) => {},
            _ => {
                return Err(LoadSnapshotError::RootNotMap);
            },
        }
        let v = match get_field(s, "visible_buf") {
            Some(v) => v,
            None => {
                return Err(LoadSnapshotError::VisibleBufNotPresent);
            },
        };
        let visible_buf = match VisibleBuffer::from_snapshot(v) {
            Ok(b) => b,
            Err(e) => {
                return Err(LoadSnapshotError::VisibleBufInvalid(e));
            },
        };
        let sb = match get_field(s, "scrollback") {
            Some(v) => v,
            None => {
                return Err(LoadSnapshotError::ScrollbackNotPresent);
            },
        };
        let scrollback = match read_bytes(sb) {
            Some(v) => v,
            None => {
                return Err(LoadSnapshotError::ScrollbackNotBytes);
            },
        };
        let p = match get_field(s, "scrollback_line_pos") {
            Some(v) => v,
            None => {
                return Err(LoadSnapshotError::LinePositionsNotPresent);
            },
        };
        let positions = match read_usizes(p) {
            Some(v) => v,
            None => {
                return Err(LoadSnapshotError::LinePositionsNotUsizes);
            },
        };
        if !check_starts(&positions, scrollback.len()) {
            return Err(LoadSnapshotError::LinePositionsOutOfOrder);
        }
        Ok(TerminalBuffer2 { visible_buf, scrollback_line_positions: positions, scrollback })
    }

    /// Whether two buffers hold the same rows and scrollback.
    pub fn same_content(&self, other: &TerminalBuffer2) -> (r: bool)
        requires
            self.wf(),
            other.wf(),
        ensures
            r == (self@ == other@),
    {
        if self.visible_buf.width() != other.visible_buf.width() || self.visible_buf.height() != other.visible_buf.height() {
            return false;
        }
        if !bytes_equal(self.scrollback.as_slice(), other.scrollback.as_slice()) {
            return false;
        }
        let n = self.scrollback_line_positions.len();
        if n != other.scrollback_line_positions.len() {
            return false;
        }
        let mut i: usize = 0;
        while i < n
            invariant
                n == self.scrollback_line_positions@.len() == other.scrollback_line_positions@.len(),
                i <= n,
                forall|j: int| 0 <= j < i ==> self.scrollback_line_positions@[j] == other.scrollback_line_positions@[j],
            decreases n - i,
        {
            if self.scrollback_line_positions[i] != other.scrollback_line_positions[i] {
                return false;
            }
            i += 1;
        }
        assert(self.scrollback_line_positions@ =~= other.scrollback_line_positions@);
        proof {
            self.lemma_wf();
            other.lemma_wf();
        }
        let h = self.visible_buf.height();
        let mut y: usize = 0;
        while y < h
            invariant
                self.wf(),
                other.wf(),
                h == self@.height == other@.height,
                y <= h,
                forall|j: int| 0 <= j < y ==> self@.lines[j] == other@.lines[j],
            decreases h - y,
        {
            let a = self.visible_buf.get_line(y);
            let b = other.visible_buf.get_line(y);
            if a.has_newline() != b.has_newline() || !bytes_equal(a.serialize(), b.serialize()) {
                return false;
            }
            y += 1;
        }
        proof {
            self.lemma_wf();
            other.lemma_wf();
        }
        assert(self@.lines =~= other@.lines);
        true
    }
}

impl TerminalBuffer2 {
    /// Whether the buffer's invariant holds, tested at run time.
    pub fn check_wf(&self) -> (r: bool)
        ensures
            r == self.wf(),
    {
        self.visible_buf.check_wf() && check_starts(&self.scrollback_line_positions, self.scrollback.len())
    }
}

impl PartialEq for TerminalBuffer2 {
    /// Two buffers are equal when they hold the same rows and scrollback.
    fn eq(&self, other: &TerminalBuffer2) -> (r: bool)
        ensures
            r == (self.wf() && other.wf() && self@ == other@),
    {
        self.check_wf() && other.check_wf() && self.same_content(other)
    }
}

impl vstd::std_specs::cmp::PartialEqSpecImpl for TerminalBuffer2 {
    open spec fn obeys_eq_spec() -> bool {
        false
    }

    open spec fn eq_spec(&self, other: &TerminalBuffer2) -> bool {
        self.wf() && other.wf() && self@ == other@
    }
}

/// A position as saved: `-1` stands for the largest value.
pub open spec fn as_pos_part(s: SnapshotItem) -> Option<usize> {
    match s {
        SnapshotItem::Int(v) => if v == -1 {
            Some(usize::MAX)
        } else if 0 <= v && v <= usize::MAX {
            Some(v as usize)
        } else {
            None
        },
        _ => None,
    }
}

/// The position that a snapshot item describes: a map with keys `line_id`
/// and `x_pos`.
pub open spec fn decode_buf_pos(s: SnapshotItem) -> Option<BufPos> {
    match (field(s, "line_id"@), field(s, "x_pos"@)) {
        (Some(l), Some(x)) => match (as_pos_part(l), as_pos_part(x)) {
            (Some(line_id), Some(x_pos)) => Some(BufPos { line_id, x_pos }),
            _ => None,
        },
        _ => None,
    }
}

fn pos_part_item(v: usize) -> (r: Option<SnapshotItem>)
    ensures
        match r {
            Some(s) => as_pos_part(s) == Some(v),
            None => v != usize::MAX && v > i64::MAX,
        },
{
    if v == usize::MAX {
        Some(SnapshotItem::Int(-1))
    } else {
        usize_item(v)
    }
}

fn read_pos_part(s: &SnapshotItem) -> (r: Option<usize>)
    ensures
        r == as_pos_part(*s),
{
    match s {
        SnapshotItem::Int(v) => if *v == -1 {
            Some(usize::MAX)
        } else {
            read_usize(s)
        },
        _ => None,
    }
}

impl BufPos {
    /// Whether a part other than the largest value does not fit an `i64`.
    pub open spec fn snapshot_fails(&self) -> bool {
        (self.line_id != usize::MAX && self.line_id > i64::MAX) || (self.x_pos != usize::MAX && self.x_pos > i64::MAX)
    }

    /// The position as a map; `None` where a part other than the largest
    /// value does not fit an `i64`.
    pub fn snapshot(&self) -> (r: Option<SnapshotItem>)
        ensures
            match r {
                Some(s) => decode_buf_pos(s) == Some(*self),
                None => self.snapshot_fails(),
            },
    {
        let l = match pos_part_item(self.line_id) {
            Some(v) => v,
            None => {
                return None;
            },
        };
        let x = match pos_part_item(self.x_pos) {
            Some(v) => v,
            None => {
                return None;
            },
        };
        let mut entries: Vec<(String, SnapshotItem)> = Vec::new();
        entries.push((key_string("line_id"), l));
        entries.push((key_string("x_pos"), x));
        proof {
            reveal_strlit("line_id");
            reveal_strlit("x_pos");
            assert("line_id"@.len() == 7 && "x_pos"@.len() == 5);
            lemma_entry_at(entries@, 0, "line_id"@);
            lemma_entry_at(entries@, 1, "x_pos"@);
        }
        Some(SnapshotItem::Dict(entries))
    }

    /// The position that `s` describes, where it describes one.
    pub fn from_snapshot(s: &SnapshotItem) -> (r: Option<BufPos>)
        ensures
            r == decode_buf_pos(*s),
    {
        let l = match get_field(s, "line_id") {
            Some(v) => v,
            None => {
                return None;
            },
        };
        let x = match get_field(s, "x_pos") {
            Some(v) => v,
            None => {
                return None;
            },
        };
        let line_id = match read_pos_part(l) {
            Some(v) => v,
            None => {
                return None;
            },
        };
        let x_pos = match read_pos_part(x) {
            Some(v) => v,
            None => {
                return None;
            },
        };
        Some(BufPos { line_id, x_pos })
    }
}

} // verus!
