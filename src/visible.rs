use vstd::prelude::*;

use crate::snapshot::{as_bool, as_bytes, as_usize, bytes_item, entry_value, field, get_field, key_string, read_bool, read_bytes, read_usize, usize_item, SnapshotItem};
use crate::line::{line_insert, open_spaces, remove_range, Line, LineInsertionResponse, LineView};

verus! {

pub open spec fn empty_line() -> LineView {
    LineView { text: Seq::empty(), newline: false }
}

/// The grid of `height` rows of `width` cells that the cursor addresses.
/// Rows are kept in a ring: logical row `y` is stored at
/// `(first_line_idx + y) % height`, so that scrolling moves no bytes.
#[derive(Debug)]
pub struct VisibleBuffer {
    lines: Vec<Line>,
    width: usize,
    height: usize,
    first_line_idx: usize,
}

impl View for VisibleBuffer {
    type V = Seq<LineView>;

    /// The rows in logical order, top first.
    closed spec fn view(&self) -> Seq<LineView> {
        Seq::new(self.height as nat, |y: int| self.lines@[self.phys(y)]@)
    }
}

impl VisibleBuffer {
    pub closed spec fn phys(&self, y: int) -> int {
        (self.first_line_idx + y) % (self.height as int)
    }

    pub closed spec fn wf(&self) -> bool {
        &&& self.width > 0
        &&& self.height > 0
        &&& self.lines.len() == self.height
        &&& self.first_line_idx < self.height
        &&& forall|i: int| 0 <= i < self.height ==> #[trigger] self.lines@[i].wf() && self.lines@[i].width() == self.width
    }

    pub closed spec fn spec_width(&self) -> nat {
        self.width as nat
    }

    pub closed spec fn spec_height(&self) -> nat {
        self.height as nat
    }

    pub open spec fn lines_fit(&self) -> bool {
        forall|y: int| 0 <= y < self@.len() ==> #[trigger] self@[y].text.len() <= self.spec_width()
    }

    pub proof fn lemma_view(&self)
        requires
            self.wf(),
        ensures
            self@.len() == self.spec_height(),
            0 < self.spec_height() <= usize::MAX,
            0 < self.spec_width() <= usize::MAX,
            self.lines_fit(),
            forall|y: int| 0 <= y < self.spec_height() ==> 0 <= #[trigger] self.phys(y) < self.spec_height(),
    {
        assert forall|y: int| 0 <= y < self.height implies 0 <= #[trigger] self.phys(y) < self.height by {
        }
        assert forall|y: int| 0 <= y < self@.len() implies #[trigger] self@[y].text.len() <= self.spec_width() by {
            assert(0 <= self.phys(y) < self.height);
            assert(self.lines@[self.phys(y)].wf());
            self.lines@[self.phys(y)].lemma_wf();
        }
    }

    proof fn lemma_phys_injective(&self, y: int, z: int)
        requires
            self.wf(),
            0 <= y < self.height,
            0 <= z < self.height,
            y != z,
        ensures
            self.phys(y) != self.phys(z),
    {
        let h = self.height as int;
        let f = self.first_line_idx as int;
        if f + y < h && f + z < h {
            vstd::arithmetic::div_mod::lemma_small_mod((f + y) as nat, h as nat);
            vstd::arithmetic::div_mod::lemma_small_mod((f + z) as nat, h as nat);
        } else if f + y >= h && f + z >= h {
            vstd::arithmetic::div_mod::lemma_mod_sub_multiples_vanish(f + y, h);
            vstd::arithmetic::div_mod::lemma_mod_sub_multiples_vanish(f + z, h);
            vstd::arithmetic::div_mod::lemma_small_mod((f + y - h) as nat, h as nat);
            vstd::arithmetic::div_mod::lemma_small_mod((f + z - h) as nat, h as nat);
        } else {
            lemma_phys_value(f, y, h);
            lemma_phys_value(f, z, h);
        }
    }

    /// A grid of `height` empty rows of `width` cells.
    pub fn new(width: usize, height: usize) -> (r: VisibleBuffer)
        requires
            width > 0,
            height > 0,
        ensures
            r.wf(),
            r.spec_width() == width,
            r.spec_height() == height,
            r@ == Seq::new(height as nat, |_y: int| empty_line()),
    {
        let mut lines: Vec<Line> = Vec::new();
        let mut i: usize = 0;
        while i < height
            invariant
                i <= height,
                lines.len() == i,
                forall|j: int| 0 <= j < i ==> #[trigger] lines@[j].wf() && lines@[j].width() == width && lines@[j]@ == empty_line(),
            decreases height - i,
        {
            let l = Line::new(width);
            lines.push(l);
            i += 1;
        }
        let r = VisibleBuffer { lines, width, height, first_line_idx: 0 };
        assert forall|y: int| 0 <= y < height implies #[trigger] r.phys(y) == y by {
            vstd::arithmetic::div_mod::lemma_small_mod(y as nat, height as nat);
        }
        assert forall|y: int| 0 <= y < height implies #[trigger] r@[y] == empty_line() by {
            assert(r.phys(y) == y);
            assert(lines@[y].wf());
        }
        assert(r@ =~= Seq::new(height as nat, |_y: int| empty_line()));
        r
    }

    pub fn width(&self) -> (r: usize)
        ensures
            r == self.spec_width(),
    {
        self.width
    }

    pub fn height(&self) -> (r: usize)
        ensures
            r == self.spec_height(),
    {
        self.height
    }

    /// Where logical row `y` is stored.
    fn resolve_idx(&self, y: usize) -> (r: usize)
        requires
            self.wf(),
            y < self.height,
        ensures
            r == self.phys(y as int),
            r < self.height,
    {
        proof {
            lemma_phys_value(self.first_line_idx as int, y as int, self.height as int);
        }
        if y < self.height - self.first_line_idx {
            self.first_line_idx + y
        } else {
            y - (self.height - self.first_line_idx)
        }
    }

    /// Row `y`, read only.
    pub fn get_line(&self, y: usize) -> (r: &Line)
        requires
            self.wf(),
            y < self.spec_height(),
        ensures
            r@ == self@[y as int],
            r.wf(),
            r.width() == self.spec_width(),
    {
        let p = self.resolve_idx(y);
        assert(self.lines@[p as int].wf());
        &self.lines[p]
    }

    proof fn lemma_update_row(&self, other: &VisibleBuffer, y: int, l: LineView)
        requires
            self.wf(),
            0 <= y < self.height,
            other.width == self.width,
            other.height == self.height,
            other.first_line_idx == self.first_line_idx,
            other.lines@.len() == self.lines@.len(),
            other.lines@[self.phys(y)]@ == l,
            other.lines@[self.phys(y)].wf(),
            other.lines@[self.phys(y)].width() == self.lines@[self.phys(y)].width(),
            forall|i: int| 0 <= i < self.height && i != self.phys(y) ==> other.lines@[i] == self.lines@[i],
        ensures
            other.wf(),
            other@ == self@.update(y, l),
    {
        self.lemma_view();
        assert(self.lines@[self.phys(y)].wf());
        assert forall|i: int| 0 <= i < other.height implies #[trigger] other.lines@[i].wf() && other.lines@[i].width() == other.width by {
            if i != self.phys(y) {
                assert(self.lines@[i].wf());
            }
        }
        assert forall|z: int| 0 <= z < self.height && z != y implies other@[z] == self@[z] by {
            self.lemma_phys_injective(y, z);
        }
        assert(other@ =~= self@.update(y, l));
    }

    /// Writes `data` into row `y` from column `x`; see `Line::insert_data`.
    pub fn insert_data(&mut self, y: usize, data: &[u8], x: usize) -> (r: LineInsertionResponse)
        requires
            old(self).wf(),
            y < old(self).spec_height(),
        ensures
            final(self).wf(),
            final(self).spec_width() == old(self).spec_width(),
            final(self).spec_height() == old(self).spec_height(),
            ({
                let (l, consumed, new_x) = line_insert(old(self)@[y as int], data@, x as nat, old(self).spec_width());
                &&& final(self)@ == old(self)@.update(y as int, l)
                &&& r.consumed == consumed
                &&& r.new_x_pos == new_x
            }),
    {
        let p = self.resolve_idx(y);
        let r = self.lines[p].insert_data(data, x);
        proof {
            old(self).lemma_update_row(self, y as int, self.lines@[p as int]@);
        }
        r
    }

    /// Opens `n` blank cells at column `x` of row `y`.
    pub fn insert_spaces(&mut self, y: usize, x: usize, n: usize)
        requires
            old(self).wf(),
            y < old(self).spec_height(),
        ensures
            final(self).wf(),
            final(self).spec_width() == old(self).spec_width(),
            final(self).spec_height() == old(self).spec_height(),
            final(self)@ == old(self)@.update(y as int, LineView {
                text: open_spaces(old(self)@[y as int].text, x as nat, n as nat, old(self).spec_width()),
                newline: old(self)@[y as int].newline,
            }),
    {
        let p = self.resolve_idx(y);
        self.lines[p].insert_spaces(x, n);
        proof {
            old(self).lemma_update_row(self, y as int, self.lines@[p as int]@);
        }
    }

    /// Removes up to `n` bytes of row `y` from column `x` on.
    pub fn delete(&mut self, y: usize, x: usize, n: usize)
        requires
            old(self).wf(),
            y < old(self).spec_height(),
        ensures
            final(self).wf(),
            final(self).spec_width() == old(self).spec_width(),
            final(self).spec_height() == old(self).spec_height(),
            final(self)@ == old(self)@.update(y as int, LineView {
                text: remove_range(old(self)@[y as int].text, x as nat, n as nat),
                newline: old(self)@[y as int].newline,
            }),
    {
        let p = self.resolve_idx(y);
        self.lines[p].delete(x, n);
        proof {
            old(self).lemma_update_row(self, y as int, self.lines@[p as int]@);
        }
    }

    /// Cuts row `y` back to column `x` and forgets its newline.
    pub fn truncate(&mut self, y: usize, x: usize)
        requires
            old(self).wf(),
            y < old(self).spec_height(),
        ensures
            final(self).wf(),
            final(self).spec_width() == old(self).spec_width(),
            final(self).spec_height() == old(self).spec_height(),
            final(self)@ == old(self)@.update(y as int, LineView {
                text: old(self)@[y as int].text.subrange(
                    0,
                    if x < old(self)@[y as int].text.len() { x as int } else { old(self)@[y as int].text.len() as int },
                ),
                newline: false,
            }),
    {
        let p = self.resolve_idx(y);
        self.lines[p].truncate(x);
        proof {
            old(self).lemma_update_row(self, y as int, self.lines@[p as int]@);
        }
    }

    /// Empties row `y`.
    pub fn clear_line(&mut self, y: usize)
        requires
            old(self).wf(),
            y < old(self).spec_height(),
        ensures
            final(self).wf(),
            final(self).spec_width() == old(self).spec_width(),
            final(self).spec_height() == old(self).spec_height(),
            final(self)@ == old(self)@.update(y as int, empty_line()),
    {
        let p = self.resolve_idx(y);
        self.lines[p].clear();
        proof {
            old(self).lemma_update_row(self, y as int, self.lines@[p as int]@);
        }
    }

    /// Row `dst` becomes a copy of row `src`.
    pub fn copy_line(&mut self, src: usize, dst: usize)
        requires
            old(self).wf(),
            src < old(self).spec_height(),
            dst < old(self).spec_height(),
        ensures
            final(self).wf(),
            final(self).spec_width() == old(self).spec_width(),
            final(self).spec_height() == old(self).spec_height(),
            final(self)@ == old(self)@.update(dst as int, old(self)@[src as int]),
    {
        let ps = self.resolve_idx(src);
        let pd = self.resolve_idx(dst);
        if ps == pd {
            assert(old(self)@ =~= old(self)@.update(dst as int, old(self)@[src as int])) by {
                if src != dst {
                    old(self).lemma_phys_injective(src as int, dst as int);
                }
            }
            return;
        }
        assert(self.lines@[ps as int].wf());
        assert(self.lines@[pd as int].wf());
        let mut line = Line::new(0);
        line.copy_from_other(&self.lines[ps]);
        self.lines.set(pd, line);
        proof {
            old(self).lemma_update_row(self, dst as int, old(self)@[src as int]);
        }
    }

    /// Scrolls by one row: logical row 0 leaves the grid, the others move up,
    /// and an empty row enters at the bottom.
    pub fn push_line(&mut self)
        requires
            old(self).wf(),
        ensures
            final(self).wf(),
            final(self).spec_width() == old(self).spec_width(),
            final(self).spec_height() == old(self).spec_height(),
            final(self)@ == old(self)@.drop_first().push(empty_line()),
    {
        let top = self.resolve_idx(0);
        self.lines[top].clear();
        let ghost cleared = *self;
        proof {
            old(self).lemma_update_row(&cleared, 0, empty_line());
        }
        self.first_line_idx = if self.first_line_idx + 1 < self.height { self.first_line_idx + 1 } else { 0 };
        assert(self.wf()) by {
            assert(cleared.wf());
            assert(self.lines == cleared.lines);
            assert forall|i: int| 0 <= i < self.height implies #[trigger] self.lines@[i].wf() && self.lines@[i].width() == self.width by {
                assert(cleared.lines@[i].wf());
            }
        }
        proof {
            let h = self.height as int;
            let f = old(self).first_line_idx as int;
            assert forall|y: int| 0 <= y < h implies #[trigger] self.phys(y) == cleared.phys(
                if y + 1 < h { y + 1 } else { 0 },
            ) by {
                lemma_phys_value(self.first_line_idx as int, y, h);
                lemma_phys_value(f, if y + 1 < h { y + 1 } else { 0 }, h);
            }
            let target = old(self)@.drop_first().push(empty_line());
            assert(cleared@ == old(self)@.update(0, empty_line()));
            assert forall|y: int| 0 <= y < h implies #[trigger] self@[y] == target[y] by {
                if y + 1 < h {
                    assert(self@[y] == cleared@[y + 1]);
                } else {
                    assert(self@[y] == cleared@[0]);
                }
            }
            assert(self@ =~= target);
        }
    }
}

/// Index of the last row with content; 0 where every row is empty.
pub open spec fn last_content(lines: Seq<LineView>) -> nat
    decreases lines.len(),
{
    if lines.len() == 0 {
        0
    } else if lines.last().text.len() > 0 {
        (lines.len() - 1) as nat
    } else {
        last_content(lines.drop_last())
    }
}

/// Whether a newline follows row `y` when the grid is written out: the row
/// ended with one, stops short of the width, or the next row is empty.
pub open spec fn ends_row(lines: Seq<LineView>, w: nat, y: int) -> bool {
    lines[y].newline || lines[y].text.len() < w || (y + 1 < lines.len() && lines[y + 1].text.len() == 0)
}

/// Rows `0..n`, each followed by its separator.
pub open spec fn rows_text(lines: Seq<LineView>, w: nat, n: nat) -> Seq<u8>
    decreases n,
{
    if n == 0 {
        Seq::empty()
    } else {
        let y = n - 1;
        rows_text(lines, w, (n - 1) as nat) + lines[y].text + if ends_row(lines, w, y) {
            seq![0x0au8]
        } else {
            Seq::empty()
        }
    }
}

/// Rows up to the last one with content, without the closing newline.
pub open spec fn grid_body(lines: Seq<LineView>, w: nat) -> Seq<u8> {
    let last = last_content(lines);
    rows_text(lines, w, last) + lines[last as int].text
}

/// The grid written out as bytes. Empty rows after the last one with
/// content give nothing; a non-empty result always ends in a newline.
pub open spec fn grid_text(lines: Seq<LineView>, w: nat) -> Seq<u8> {
    let body = grid_body(lines, w);
    if body.len() > 0 {
        body.push(0x0au8)
    } else {
        body
    }
}

/// Offset in `grid_text` at which each row starts; rows after the last one
/// with content all start at the end of the content.
pub open spec fn grid_line_starts(lines: Seq<LineView>, w: nat) -> Seq<nat> {
    Seq::new(
        lines.len(),
        |y: int|
            if y <= last_content(lines) {
                rows_text(lines, w, y as nat).len()
            } else {
                grid_body(lines, w).len()
            },
    )
}

pub struct VisibleBufferSerializeResponse {
    pub data: Vec<u8>,
    /// Offset in `data` of the start of each row.
    pub line_mappings: Vec<usize>,
}

/// Appends `s` to `v`.
pub fn append_bytes(v: &mut Vec<u8>, s: &[u8])
    ensures
        final(v)@ == old(v)@ + s@,
{
    let mut i: usize = 0;
    while i < s.len()
        invariant
            i <= s.len(),
            v@ == old(v)@ + s@.subrange(0, i as int),
        decreases s.len() - i,
    {
        v.push(s[i]);
        i += 1;
        assert(v@ =~= old(v)@ + s@.subrange(0, i as int));
    }
    assert(s@.subrange(0, s@.len() as int) =~= s@);
}

proof fn lemma_last_content(lines: Seq<LineView>)
    requires
        lines.len() > 0,
    ensures
        last_content(lines) < lines.len(),
        forall|y: int| last_content(lines) < y < lines.len() ==> #[trigger] lines[y].text.len() == 0,
        (exists|y: int| 0 <= y < lines.len() && #[trigger] lines[y].text.len() > 0) ==> lines[last_content(lines) as int].text.len() > 0,
    decreases lines.len(),
{
    if lines.last().text.len() > 0 {
    } else if lines.len() == 1 {
        assert(lines.drop_last().len() == 0);
        assert(last_content(lines.drop_last()) == 0);
        assert(last_content(lines) == 0);
    } else {
        lemma_last_content(lines.drop_last());
        assert(last_content(lines) == last_content(lines.drop_last()));
        assert forall|y: int| last_content(lines) < y < lines.len() implies #[trigger] lines[y].text.len() == 0 by {
            if y < lines.len() - 1 {
                assert(lines.drop_last()[y] == lines[y]);
            }
        }
        if exists|y: int| 0 <= y < lines.len() && #[trigger] lines[y].text.len() > 0 {
            let y = choose|y: int| 0 <= y < lines.len() && #[trigger] lines[y].text.len() > 0;
            assert(lines.drop_last()[y].text.len() > 0);
        }
    }
}

impl VisibleBuffer {
    fn find_last_content(&self) -> (r: usize)
        requires
            self.wf(),
        ensures
            r == last_content(self@),
    {
        proof {
            self.lemma_view();
        }
        let mut n: usize = self.height;
        assert(self@.subrange(0, n as int) =~= self@);
        while n > 1
            invariant
                1 <= n <= self.height,
                self.wf(),
                last_content(self@) == last_content(self@.subrange(0, n as int)),
            decreases n,
        {
            let line = self.get_line(n - 1);
            let sub = Ghost(self@.subrange(0, n as int));
            assert(sub@.last() == self@[n - 1]);
            if line.len() > 0 {
                return n - 1;
            }
            assert(sub@.drop_last() =~= self@.subrange(0, n - 1));
            n -= 1;
        }
        let ghost s1 = self@.subrange(0, 1);
        assert(s1.len() == 1);
        assert(s1.drop_last().len() == 0);
        assert(last_content(s1.drop_last()) == 0);
        assert(last_content(s1) == 0);
        0
    }

    /// Writes the grid out, rows up to the last one with content, with the
    /// offset at which each row starts.
    pub fn serialize(&self) -> (r: VisibleBufferSerializeResponse)
        requires
            self.wf(),
        ensures
            r.data@ == grid_text(self@, self.spec_width()),
            r.line_mappings@.len() == self.spec_height(),
            forall|y: int| 0 <= y < self.spec_height() ==> r.line_mappings@[y] as nat == #[trigger] grid_line_starts(self@, self.spec_width())[y],
    {
        proof {
            self.lemma_view();
        }
        let ghost lines = self@;
        let ghost w = self.spec_width();
        let last = self.find_last_content();
        proof {
            lemma_last_content(lines);
        }
        let mut data: Vec<u8> = Vec::new();
        let mut line_mappings: Vec<usize> = Vec::new();
        let mut y: usize = 0;
        while y < last
            invariant
                self.wf(),
                lines == self@,
                w == self.spec_width(),
                last == last_content(lines),
                last < self.spec_height(),
                y <= last,
                data@ == rows_text(lines, w, y as nat),
                line_mappings@.len() == y,
                forall|z: int| 0 <= z < y ==> line_mappings@[z] as nat == #[trigger] rows_text(lines, w, z as nat).len(),
            decreases last - y,
        {
            let line = self.get_line(y);
            let start = data.len();
            append_bytes(&mut data, line.serialize());
            let next = self.get_line(y + 1);
            if line.has_newline() || line.len() < self.width || next.len() == 0 {
                data.push(0x0a);
            }
            line_mappings.push(start);
            y += 1;
            assert(data@ =~= rows_text(lines, w, y as nat));
        }
        let line = self.get_line(last);
        let start = data.len();
        append_bytes(&mut data, line.serialize());
        line_mappings.push(start);
        let mut z: usize = last + 1;
        while z < self.height
            invariant
                self.wf(),
                lines == self@,
                last < z <= self.height,
                last == last_content(lines),
                line_mappings@.len() == z,
                data@ == grid_body(lines, w),
                forall|t: int| 0 <= t <= last ==> line_mappings@[t] as nat == #[trigger] rows_text(lines, w, t as nat).len(),
                forall|t: int| last < t < z ==> line_mappings@[t] as nat == grid_body(lines, w).len(),
            decreases self.height - z,
        {
            line_mappings.push(data.len());
            z += 1;
        }
        if data.len() > 0 {
            data.push(0x0a);
        }
        VisibleBufferSerializeResponse { data, line_mappings }
    }
}

/// The row that a snapshot item describes: a map with the row's bytes under
/// `text` and its newline flag under `newline`.
pub open spec fn decode_line(s: SnapshotItem) -> Option<LineView> {
    match (field(s, "text"@), field(s, "newline"@)) {
        (Some(t), Some(n)) => match (as_bytes(t), as_bool(n)) {
            (Some(text), Some(newline)) => Some(LineView { text, newline }),
            _ => None,
        },
        _ => None,
    }
}

/// The rows that an array of row items describes, each at most `w` bytes.
pub open spec fn decode_lines(s: SnapshotItem, w: nat) -> Option<Seq<LineView>> {
    match s {
        SnapshotItem::Array(items) => if forall|i: int|
            0 <= i < items@.len() ==> (#[trigger] decode_line(items@[i]) matches Some(l) && l.text.len() <= w) {
            Some(Seq::new(items@.len(), |i: int| decode_line(items@[i]).unwrap()))
        } else {
            None
        },
        _ => None,
    }
}

/// The grid that a snapshot item describes: its `width` and `height`, both
/// positive, and `height` rows under `lines`.
pub open spec fn decode_grid(s: SnapshotItem) -> Result<(nat, nat, Seq<LineView>), LoadGridError> {
    if !(s is Dict) {
        Err(LoadGridError::RootNotMap)
    } else {
        match field(s, "width"@) {
            None => Err(LoadGridError::WidthNotPresent),
            Some(w) => match as_usize(w) {
                None => Err(LoadGridError::WidthNotUsize),
                Some(w) => match field(s, "height"@) {
                    None => Err(LoadGridError::HeightNotPresent),
                    Some(h) => match as_usize(h) {
                        None => Err(LoadGridError::HeightNotUsize),
                        Some(h) => match field(s, "lines"@) {
                            None => Err(LoadGridError::LinesNotPresent),
                            Some(l) => if !(l is Array) {
                                Err(LoadGridError::LinesNotArray)
                            } else if w == 0 || h == 0 {
                                Err(LoadGridError::SizeZero)
                            } else if l->Array_0@.len() != h {
                                Err(LoadGridError::LineCountWrong)
                            } else {
                                match decode_lines(l, w as nat) {
                                    None => Err(LoadGridError::LineInvalid),
                                    Some(lines) => Ok((w as nat, h as nat, lines)),
                                }
                            },
                        },
                    },
                },
            },
        }
    }
}

/// Why a snapshot item describes no grid.
#[derive(Debug, Clone, Copy, PartialEq, Eq, Structural)]
pub enum LoadGridError {
    RootNotMap,
    WidthNotPresent,
    WidthNotUsize,
    HeightNotPresent,
    HeightNotUsize,
    LinesNotPresent,
    LinesNotArray,
    /// The width or the height is zero.
    SizeZero,
    /// The number of rows differs from the height.
    LineCountWrong,
    /// A row is not a map of its bytes and newline flag, or is wider than the grid.
    LineInvalid,
}

/// The bytes and newline flag of the row that `s` describes.
pub fn read_line(s: &SnapshotItem) -> (r: Option<(Vec<u8>, bool)>)
    ensures
        match r {
            Some((t, n)) => decode_line(*s) == Some(LineView { text: t@, newline: n }),
            None => decode_line(*s).is_none(),
        },
{
    let t = match get_field(s, "text") {
        Some(t) => t,
        None => {
            return None;
        },
    };
    let n = match get_field(s, "newline") {
        Some(n) => n,
        None => {
            return None;
        },
    };
    let text = match read_bytes(t) {
        Some(v) => v,
        None => {
            return None;
        },
    };
    let newline = match read_bool(n) {
        Some(v) => v,
        None => {
            return None;
        },
    };
    Some((text, newline))
}

/// Whether two byte strings are equal.
pub fn bytes_equal(a: &[u8], b: &[u8]) -> (r: bool)
    ensures
        r == (a@ == b@),
{
    if a.len() != b.len() {
        return false;
    }
    let mut i: usize = 0;
    while i < a.len()
        invariant
            i <= a.len() == b.len(),
            forall|j: int| 0 <= j < i ==> a@[j] == b@[j],
        decreases a.len() - i,
    {
        if a[i] != b[i] {
            return false;
        }
        i += 1;
    }
    assert(a@ =~= b@);
    true
}

impl VisibleBuffer {
    /// Whether the grid's invariant holds, tested at run time.
    pub fn check_wf(&self) -> (r: bool)
        ensures
            r == self.wf(),
    {
        if self.width == 0 || self.height == 0 || self.lines.len() != self.height || self.first_line_idx >= self.height {
            return false;
        }
        let mut i: usize = 0;
        while i < self.height
            invariant
                i <= self.height == self.lines@.len(),
                self.width > 0,
                self.height > 0,
                self.first_line_idx < self.height,
                forall|j: int| 0 <= j < i ==> (#[trigger] self.lines@[j]).wf() && self.lines@[j].width() == self.width,
            decreases self.height - i,
        {
            if !self.lines[i].check_wf() || self.lines[i].width_exec() != self.width {
                return false;
            }
            assert(self.lines@[i as int].wf() && self.lines@[i as int].width() == self.width);
            i += 1;
        }
        true
    }

    /// Row `y` holds `text`, ended by a newline where `newline` is set.
    pub fn set_line(&mut self, y: usize, text: &[u8], newline: bool)
        requires
            old(self).wf(),
            y < old(self).spec_height(),
            text@.len() <= old(self).spec_width(),
        ensures
            final(self).wf(),
            final(self).spec_width() == old(self).spec_width(),
            final(self).spec_height() == old(self).spec_height(),
            final(self)@ == old(self)@.update(y as int, LineView { text: text@, newline }),
    {
        let p = self.resolve_idx(y);
        assert(self.lines@[p as int].wf());
        self.lines[p].assign(text, newline);
        proof {
            old(self).lemma_update_row(self, y as int, self.lines@[p as int]@);
        }
    }

    /// The grid as a map of its size and its rows, top first; `None` where
    /// the size does not fit an `i64`.
    pub fn snapshot(&self) -> (r: Option<SnapshotItem>)
        requires
            self.wf(),
        ensures
            match r {
                Some(s) => decode_grid(s) == Ok::<(nat, nat, Seq<LineView>), LoadGridError>((self.spec_width(), self.spec_height(), self@)),
                None => self.spec_width() > i64::MAX || self.spec_height() > i64::MAX,
            },
    {
        proof {
            self.lemma_view();
        }
        let w = match usize_item(self.width) {
            Some(w) => w,
            None => {
                return None;
            },
        };
        let h = match usize_item(self.height) {
            Some(h) => h,
            None => {
                return None;
            },
        };
        let mut rows: Vec<SnapshotItem> = Vec::new();
        let mut y: usize = 0;
        while y < self.height
            invariant
                self.wf(),
                y <= self.height,
                rows@.len() == y,
                forall|j: int| 0 <= j < y ==> #[trigger] decode_line(rows@[j]) == Some(self@[j]),
            decreases self.height - y,
        {
            let line = self.get_line(y);
            let mut entries: Vec<(String, SnapshotItem)> = Vec::new();
            entries.push((key_string("text"), bytes_item(line.serialize())));
            entries.push((key_string("newline"), SnapshotItem::Bool(line.has_newline())));
            let row = SnapshotItem::Dict(entries);
            proof {
                reveal_strlit("text");
                reveal_strlit("newline");
                assert(entry_value(entries@, "text"@) == Some(entries@[0].1));
                assert(entries@.drop_first()[0] == entries@[1]);
                assert(entries@[0].0@ == "text"@);
                assert("text"@.len() == 4);
                assert("newline"@.len() == 7);
                assert(entries@[0].0@ != "newline"@);
                assert(entry_value(entries@.drop_first(), "newline"@) == Some(entries@[1].1));
                assert(entry_value(entries@, "newline"@) == Some(entries@[1].1));
            }
            assert(decode_line(row) == Some(self@[y as int]));
            rows.push(row);
            y += 1;
        }
        let lines = SnapshotItem::Array(rows);
        proof {
            self.lemma_view();
            assert(decode_lines(lines, self.spec_width()).unwrap() =~= self@);
        }
        let mut entries: Vec<(String, SnapshotItem)> = Vec::new();
        entries.push((key_string("width"), w));
        entries.push((key_string("height"), h));
        entries.push((key_string("lines"), lines));
        let r = SnapshotItem::Dict(entries);
        proof {
            reveal_strlit("width");
            reveal_strlit("height");
            reveal_strlit("lines");
            let e = entries@;
            assert(entry_value(e, "width"@) == Some(e[0].1));
            assert(e.drop_first()[0] == e[1]);
            assert(e.drop_first().drop_first()[0] == e[2]);
            assert("width"@.len() == 5 && "height"@.len() == 6 && "lines"@.len() == 5);
            assert("width"@[0] == 'w' && "lines"@[0] == 'l');
            assert(e[0].0@ != "height"@ && e[0].0@ != "lines"@ && e[1].0@ != "lines"@);
            assert(entry_value(e.drop_first(), "height"@) == Some(e[1].1));
            assert(entry_value(e.drop_first().drop_first(), "lines"@) == Some(e[2].1));
            assert(entry_value(e.drop_first(), "lines"@) == Some(e[2].1));
            assert(entry_value(e, "lines"@) == Some(e[2].1));
        }
        Some(r)
    }

    /// The grid that `s` describes, or `None` where it describes none.
    pub fn from_snapshot(s: &SnapshotItem) -> (r: Result<VisibleBuffer, LoadGridError>)
        ensures
            match r {
                Ok(b) => b.wf() && decode_grid(*s) == Ok::<(nat, nat, Seq<LineView>), LoadGridError>(
                    (b.spec_width(), b.spec_height(), b@),
                ),
                Err(e) => decode_grid(*s) == Err::<(nat, nat, Seq<LineView>), LoadGridError>(e),
            },
    {
        match s {
            SnapshotItem::Dict(_) => {},
            _ => {
                return Err(LoadGridError::RootNotMap);
            },
        }
        let w = match get_field(s, "width") {
            Some(w) => w,
            None => {
                return Err(LoadGridError::WidthNotPresent);
            },
        };
        let width = match read_usize(w) {
            Some(v) => v,
            None => {
                return Err(LoadGridError::WidthNotUsize);
            },
        };
        let h = match get_field(s, "height") {
            Some(h) => h,
            None => {
                return Err(LoadGridError::HeightNotPresent);
            },
        };
        let height = match read_usize(h) {
            Some(v) => v,
            None => {
                return Err(LoadGridError::HeightNotUsize);
            },
        };
        let l = match get_field(s, "lines") {
            Some(l) => l,
            None => {
                return Err(LoadGridError::LinesNotPresent);
            },
        };
        let items = match l {
            SnapshotItem::Array(items) => items,
            _ => {
                return Err(LoadGridError::LinesNotArray);
            },
        };
        if width == 0 || height == 0 {
            return Err(LoadGridError::SizeZero);
        }
        if items.len() != height {
            return Err(LoadGridError::LineCountWrong);
        }
        let mut buf = VisibleBuffer::new(width, height);
        let mut y: usize = 0;
        while y < height
            invariant
                *l == SnapshotItem::Array(*items),
                *s is Dict,
                field(*s, "width"@) == Some(*w),
                field(*s, "height"@) == Some(*h),
                field(*s, "lines"@) == Some(*l),
                as_usize(*w) == Some(width),
                as_usize(*h) == Some(height),
                width > 0,
                buf.wf(),
                buf.spec_width() == width,
                buf.spec_height() == height,
                items@.len() == height,
                y <= height,
                forall|j: int| 0 <= j < y ==> (#[trigger] decode_line(items@[j]) matches Some(line) && line.text.len() <= width && buf@[j] == line),
            decreases height - y,
        {
            let (text, newline) = match read_line(&items[y]) {
                Some(v) => v,
                None => {
                    return Err(LoadGridError::LineInvalid);
                },
            };
            if text.len() > width {
                return Err(LoadGridError::LineInvalid);
            }
            let ghost before = buf@;
            buf.set_line(y, text.as_slice(), newline);
            y += 1;
            assert forall|j: int| 0 <= j < y implies (#[trigger] decode_line(items@[j]) matches Some(line) && line.text.len() <= width && buf@[j] == line) by {
                if j < y - 1 {
                    assert(buf@[j] == before[j]);
                }
            }
        }
        proof {
            buf.lemma_view();
            assert(decode_lines(*l, width as nat).unwrap() =~= buf@);
        }
        Ok(buf)
    }
}

proof fn lemma_last_content_empty(lines: Seq<LineView>)
    requires
        forall|y: int| 0 <= y < lines.len() ==> #[trigger] lines[y].text.len() == 0,
    ensures
        last_content(lines) == 0,
    decreases lines.len(),
{
    if lines.len() > 0 {
        lemma_last_content_empty(lines.drop_last());
    }
}

proof fn lemma_rows_text_prefix(a: Seq<LineView>, b: Seq<LineView>, w: nat, n: nat)
    requires
        n < a.len(),
        n < b.len(),
        forall|y: int| 0 <= y <= n ==> #[trigger] a[y] == b[y],
    ensures
        rows_text(a, w, n) == rows_text(b, w, n),
    decreases n,
{
    if n > 0 {
        lemma_rows_text_prefix(a, b, w, (n - 1) as nat);
        assert(ends_row(a, w, n - 1) == ends_row(b, w, n - 1));
    }
}

/// The grid written out is empty exactly when every row is, and otherwise
/// ends with a newline; empty rows after the last row with content give no
/// bytes: the text is that of the rows up to it.
pub proof fn lemma_grid_text_shape(lines: Seq<LineView>, w: nat)
    requires
        lines.len() > 0,
    ensures
        (grid_text(lines, w).len() > 0) == (exists|y: int| 0 <= y < lines.len() && #[trigger] lines[y].text.len() > 0),
        grid_text(lines, w).len() > 0 ==> grid_text(lines, w).last() == 0x0au8,
        grid_text(lines, w) == grid_text(lines.subrange(0, (last_content(lines) + 1) as int), w),
{
    lemma_last_content(lines);
    let last = last_content(lines);
    let body = grid_body(lines, w);
    if exists|y: int| 0 <= y < lines.len() && #[trigger] lines[y].text.len() > 0 {
        assert(body.len() >= lines[last as int].text.len());
    } else {
        assert forall|y: int| 0 <= y < lines.len() implies #[trigger] lines[y].text.len() == 0 by {
        }
        lemma_last_content_empty(lines);
        assert(rows_text(lines, w, 0) == Seq::<u8>::empty());
        assert(body =~= Seq::<u8>::empty());
    }
    let pre = lines.subrange(0, (last + 1) as int);
    assert(pre.last() == lines[last as int]);
    if lines[last as int].text.len() > 0 {
        assert(last_content(pre) == last);
    } else {
        assert(last == 0);
        assert(pre.len() == 1);
        assert(pre.drop_last() =~= Seq::<LineView>::empty());
        assert(last_content(pre.drop_last()) == 0);
        assert(last_content(pre) == 0);
    }
    lemma_rows_text_prefix(lines, pre, w, last);
}

proof fn lemma_rows_text_grows(lines: Seq<LineView>, w: nat, n: nat, m: nat)
    requires
        n <= m,
    ensures
        rows_text(lines, w, n).len() <= rows_text(lines, w, m).len(),
    decreases m,
{
    if n < m {
        lemma_rows_text_grows(lines, w, n, (m - 1) as nat);
    }
}

/// Every row of the written-out grid starts inside it.
pub proof fn lemma_line_starts_inside(lines: Seq<LineView>, w: nat, y: int)
    requires
        0 <= y < lines.len(),
    ensures
        grid_line_starts(lines, w)[y] <= grid_text(lines, w).len(),
{
    if y <= last_content(lines) {
        lemma_rows_text_grows(lines, w, y as nat, last_content(lines));
    }
}

proof fn lemma_phys_value(f: int, y: int, h: int)
    requires
        0 <= f < h,
        0 <= y < h,
    ensures
        (f + y) % h == if y < h - f { f + y } else { y - (h - f) },
{
    if f + y < h {
        vstd::arithmetic::div_mod::lemma_small_mod((f + y) as nat, h as nat);
    } else {
        vstd::arithmetic::div_mod::lemma_mod_sub_multiples_vanish(f + y, h);
        vstd::arithmetic::div_mod::lemma_small_mod((f + y - h) as nat, h as nat);
    }
}

} // verus!
