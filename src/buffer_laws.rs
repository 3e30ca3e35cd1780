use vstd::prelude::*;

use crate::buffer::{
    cleared_all, cleared_forwards, deleted_forwards, evict, insert_run, line_cleared_forwards, model_wf,
    reflow, rows_inserted, spaces_inserted, BufferModel,
};
use crate::cursor::CursorPos;
use crate::line::{lemma_line_insert_consumed, line_insert, newline_index, splice, LineView};

verus! {

proof fn lemma_no_newline(s: Seq<u8>, n: nat)
    requires
        n <= s.len(),
        forall|i: int| 0 <= i < n ==> s[i] != 0x0a,
    ensures
        newline_index(s, n).is_none(),
    decreases n,
{
    if n > 0 {
        lemma_no_newline(s, (n - 1) as nat);
    }
}

/// Filling a row and then writing one more byte is the same as writing both
/// at once: `data`, as wide as the grid and without a newline, fills the
/// cursor's row and wraps without a newline, and the byte after it, if not a
/// newline, lands at the start of the next row either way.
pub proof fn lemma_wrap_equivalence(m: BufferModel, y: nat, data: Seq<u8>, b: u8)
    requires
        model_wf(m),
        y < m.height,
        data.len() == m.width,
        forall|i: int| 0 <= i < data.len() ==> data[i] != 0x0a,
        b != 0x0a,
    ensures
        ({
            let (m1, x1, y1) = insert_run(m, 0, y, data);
            insert_run(m1, x1, y1, seq![b]) == insert_run(m, 0, y, data.push(b))
        }),
{
    let w = m.width;
    let whole = data.push(b);
    lemma_no_newline(data, w);
    assert forall|i: int| 0 <= i < w + 1 implies whole[i] != 0x0a by {
    }
    lemma_no_newline(whole, w + 1);
    assert(whole.subrange(0, w as int) =~= data);
    assert(data.subrange(0, w as int) =~= data);
    assert(whole.subrange(w as int, whole.len() as int) =~= seq![b]);
    assert(data.subrange(w as int, data.len() as int) =~= Seq::<u8>::empty());
    let (l, consumed, nx) = line_insert(m.lines[y as int], data, 0, w);
    let m1 = BufferModel { lines: m.lines.update(y as int, l), ..m };
    let m2 = if y + 1 >= m.height { evict(m1) } else { m1 };
    let y3: nat = if y + 1 >= m.height { (m.height - 1) as nat } else { y + 1 };
    assert(insert_run(m2, 0, y3, Seq::<u8>::empty()) == (m2, 0nat, y3));
}

/// Row `y` is the row `k` places lower before `k` rows left the grid.
pub open spec fn evict_n(m: BufferModel, k: nat) -> BufferModel
    decreases k,
{
    if k == 0 {
        m
    } else {
        evict(evict_n(m, (k - 1) as nat))
    }
}

/// Scrolling only appends: the bytes already in the scrollback and the row
/// offsets already recorded stay as they are.
pub proof fn lemma_evict_n_appends(m: BufferModel, k: nat)
    requires
        m.lines.len() == m.height,
        m.height > 0,
    ensures
        evict_n(m, k).line_starts.len() == m.line_starts.len() + k,
        evict_n(m, k).line_starts.subrange(0, m.line_starts.len() as int) == m.line_starts,
        evict_n(m, k).scrollback.len() >= m.scrollback.len(),
        evict_n(m, k).scrollback.subrange(0, m.scrollback.len() as int) == m.scrollback,
        evict_n(m, k).lines.len() == m.height,
        evict_n(m, k).height == m.height,
    decreases k,
{
    if k > 0 {
        lemma_evict_n_appends(m, (k - 1) as nat);
        let e = evict_n(m, (k - 1) as nat);
        let e1 = evict(e);
        assert(e1.line_starts.subrange(0, m.line_starts.len() as int) =~= e.line_starts.subrange(0, m.line_starts.len() as int));
        assert(e1.scrollback.subrange(0, m.scrollback.len() as int) =~= e.scrollback.subrange(0, m.scrollback.len() as int));
    }
}

/// Row ids do not change as rows scroll out of the grid. With `count` rows
/// gone, grid row `y` has id `count + y`; after `k` more rows leave, the same
/// row stands at `y - k`, whose id is again `count + y`, or, once it has left
/// itself, its bytes stand in the scrollback from the offset recorded under
/// that id.
pub proof fn lemma_row_ids_stable(m: BufferModel, y: nat, k: nat)
    requires
        m.lines.len() == m.height,
        y < m.height,
        y < k ==> evict_n(m, y).scrollback.len() <= usize::MAX,
    ensures
        k <= y ==> evict_n(m, k).lines[y - k] == m.lines[y as int],
        k <= y ==> evict_n(m, k).line_starts.len() + (y - k) == m.line_starts.len() + y,
        y < k ==> ({
            let e = evict_n(m, k);
            let start = e.line_starts[(m.line_starts.len() + y) as int] as int;
            &&& m.line_starts.len() + y < e.line_starts.len()
            &&& start + m.lines[y as int].text.len() <= e.scrollback.len()
            &&& e.scrollback.subrange(start, start + m.lines[y as int].text.len()) == m.lines[y as int].text
        }),
    decreases k,
{
    lemma_evict_n_appends(m, k);
    if k == 0 {
    } else if k <= y {
        lemma_row_ids_stable(m, y, (k - 1) as nat);
        lemma_evict_n_appends(m, (k - 1) as nat);
        let e = evict_n(m, (k - 1) as nat);
        assert(evict(e).lines[y - k] == e.lines[y - k + 1]);
    } else if k == y + 1 {
        lemma_row_ids_stable(m, y, y);
        lemma_evict_n_appends(m, y);
        let e = evict_n(m, y);
        assert(e.lines[0] == m.lines[y as int]);
        assert(e.line_starts.len() == m.line_starts.len() + y);
        let e1 = evict(e);
        assert(e1.line_starts[(m.line_starts.len() + y) as int] == e.scrollback.len() as usize);
        assert(e1.scrollback.subrange(e.scrollback.len() as int, (e.scrollback.len() + m.lines[y as int].text.len()) as int) =~= m.lines[y as int].text);
    } else {
        lemma_row_ids_stable(m, y, (k - 1) as nat);
        lemma_evict_n_appends(m, (k - 1) as nat);
        let e = evict_n(m, (k - 1) as nat);
        let e1 = evict(e);
        let start = e.line_starts[(m.line_starts.len() + y) as int] as int;
        assert(e1.line_starts[(m.line_starts.len() + y) as int] == e.line_starts[(m.line_starts.len() + y) as int]);
        assert(e1.scrollback.subrange(start, start + m.lines[y as int].text.len()) =~= e.scrollback.subrange(start, start + m.lines[y as int].text.len()));
    }
}

/// `b` holds what `a` held in its scrollback, and perhaps more after it.
pub open spec fn extends(a: BufferModel, b: BufferModel) -> bool {
    &&& a.scrollback.len() <= b.scrollback.len()
    &&& b.scrollback.subrange(0, a.scrollback.len() as int) == a.scrollback
    &&& a.line_starts.len() <= b.line_starts.len()
    &&& b.line_starts.subrange(0, a.line_starts.len() as int) == a.line_starts
}

proof fn lemma_extends_trans(a: BufferModel, b: BufferModel, c: BufferModel)
    requires
        extends(a, b),
        extends(b, c),
    ensures
        extends(a, c),
{
    assert(c.scrollback.subrange(0, a.scrollback.len() as int) =~= b.scrollback.subrange(0, a.scrollback.len() as int));
    assert(c.line_starts.subrange(0, a.line_starts.len() as int) =~= b.line_starts.subrange(0, a.line_starts.len() as int));
}

proof fn lemma_extends_refl(a: BufferModel)
    ensures
        extends(a, a),
{
    assert(a.scrollback.subrange(0, a.scrollback.len() as int) =~= a.scrollback);
    assert(a.line_starts.subrange(0, a.line_starts.len() as int) =~= a.line_starts);
}

proof fn lemma_evict_extends(a: BufferModel)
    ensures
        extends(a, evict(a)),
{
    assert(evict(a).scrollback.subrange(0, a.scrollback.len() as int) =~= a.scrollback);
    assert(evict(a).line_starts.subrange(0, a.line_starts.len() as int) =~= a.line_starts);
}

/// Writing never changes what is already in the scrollback: rows that left
/// the grid keep their bytes and their recorded offsets, and the number of
/// rows that left only grows.
pub proof fn lemma_insert_keeps_scrollback(m: BufferModel, x: nat, y: nat, data: Seq<u8>)
    ensures
        extends(m, insert_run(m, x, y, data).0),
    decreases data.len(), if x >= m.width { 1int } else { 0int },
{
    if data.len() == 0 || y >= m.height || m.width == 0 {
        lemma_extends_refl(m);
    } else {
        let (l, consumed, nx) = line_insert(m.lines[y as int], data, x, m.width);
        let m1 = BufferModel { lines: m.lines.update(y as int, l), ..m };
        let x2: nat = if nx >= m.width { 0 } else { nx };
        let y2: nat = if nx >= m.width { y + 1 } else { y };
        let m2 = if y2 >= m.height { evict(m1) } else { m1 };
        let y3: nat = if y2 >= m.height { (m.height - 1) as nat } else { y2 };
        lemma_line_insert_consumed(m.lines[y as int], data, x, m.width);
        lemma_extends_refl(m);
        if y2 >= m.height {
            lemma_evict_extends(m1);
        }
        lemma_insert_keeps_scrollback(m2, x2, y3, data.subrange(consumed as int, data.len() as int));
        lemma_extends_trans(m, m2, insert_run(m2, x2, y3, data.subrange(consumed as int, data.len() as int)).0);
    }
}

/// Resizing never changes what is already in the scrollback.
pub proof fn lemma_reflow_keeps_scrollback(
    lines: Seq<LineView>,
    i: nat,
    m: BufferModel,
    pos: (nat, nat),
    cur: (nat, nat),
    cursor: CursorPos,
)
    ensures
        extends(m, reflow(lines, i, m, pos, cur, cursor).0),
    decreases lines.len() - i,
{
    if i >= lines.len() {
        lemma_extends_refl(m);
    } else {
        let text = lines[i as int].text;
        if i == cursor.y {
            let split: nat = if (cursor.x as nat) < text.len() { cursor.x as nat } else { text.len() };
            let (ma, xa, ya) = insert_run(m, pos.0, pos.1, text.subrange(0, split as int));
            let (mb, xb, yb) = insert_run(ma, xa, ya, text.subrange(split as int, text.len() as int));
            let (mc, xc, yc) = insert_run(mb, xb, yb, seq![0x0au8]);
            lemma_insert_keeps_scrollback(m, pos.0, pos.1, text.subrange(0, split as int));
            lemma_insert_keeps_scrollback(ma, xa, ya, text.subrange(split as int, text.len() as int));
            lemma_insert_keeps_scrollback(mb, xb, yb, seq![0x0au8]);
            lemma_extends_trans(m, ma, mb);
            if lines[i as int].newline {
                lemma_extends_trans(m, mb, mc);
                lemma_reflow_keeps_scrollback(lines, i + 1, mc, (xc, yc), (xa, ya), cursor);
                lemma_extends_trans(m, mc, reflow(lines, i + 1, mc, (xc, yc), (xa, ya), cursor).0);
            } else {
                lemma_reflow_keeps_scrollback(lines, i + 1, mb, (xb, yb), (xa, ya), cursor);
                lemma_extends_trans(m, mb, reflow(lines, i + 1, mb, (xb, yb), (xa, ya), cursor).0);
            }
        } else {
            let (ma, xa, ya) = insert_run(m, pos.0, pos.1, text);
            let (mc, xc, yc) = insert_run(ma, xa, ya, seq![0x0au8]);
            lemma_insert_keeps_scrollback(m, pos.0, pos.1, text);
            lemma_insert_keeps_scrollback(ma, xa, ya, seq![0x0au8]);
            if lines[i as int].newline {
                lemma_extends_trans(m, ma, mc);
                lemma_reflow_keeps_scrollback(lines, i + 1, mc, (xc, yc), cur, cursor);
                lemma_extends_trans(m, mc, reflow(lines, i + 1, mc, (xc, yc), cur, cursor).0);
            } else {
                lemma_reflow_keeps_scrollback(lines, i + 1, ma, (xa, ya), cur, cursor);
                lemma_extends_trans(m, ma, reflow(lines, i + 1, ma, (xa, ya), cur, cursor).0);
            }
        }
    }
}

/// Edits inside the grid leave the scrollback and the row offsets alone.
pub proof fn lemma_edits_keep_scrollback(m: BufferModel, c: CursorPos, n: nat)
    ensures
        spaces_inserted(m, c, n).scrollback == m.scrollback && spaces_inserted(m, c, n).line_starts == m.line_starts,
        rows_inserted(m, c, n).scrollback == m.scrollback && rows_inserted(m, c, n).line_starts == m.line_starts,
        cleared_forwards(m, c).scrollback == m.scrollback && cleared_forwards(m, c).line_starts == m.line_starts,
        line_cleared_forwards(m, c).scrollback == m.scrollback && line_cleared_forwards(m, c).line_starts == m.line_starts,
        deleted_forwards(m, c, n).scrollback == m.scrollback && deleted_forwards(m, c, n).line_starts == m.line_starts,
        cleared_all(m).line_starts.len() == m.line_starts.len(),
{
}

/// Writing `a` at `pos` and then `c` right after it writes `a + c` at `pos`.
pub proof fn lemma_splice_twice(t: Seq<u8>, pos: nat, a: Seq<u8>, c: Seq<u8>)
    ensures
        splice(splice(t, pos, a), pos + a.len(), c) == splice(t, pos, a + c),
{
    let s1 = splice(t, pos, a);
    let lhs = splice(s1, pos + a.len(), c);
    let rhs = splice(t, pos, a + c);
    assert(s1.len() >= pos + a.len());
    assert(lhs.len() == rhs.len());
    assert forall|i: int| 0 <= i < lhs.len() implies lhs[i] == rhs[i] by {
        if i < pos {
        } else if i < pos + a.len() {
        } else if i < pos + a.len() + c.len() {
        } else {
        }
    }
    assert(lhs =~= rhs);
}

proof fn lemma_insert_split_short(m: BufferModel, x: nat, y: nat, a: Seq<u8>, b: Seq<u8>)
    requires
        m.lines.len() == m.height,
        y < m.height,
        x < m.width,
        0 < a.len() < m.width - x,
        b.len() > 0,
        forall|i: int| 0 <= i < a.len() ==> a[i] != 0x0a,
        forall|i: int| 0 <= i < b.len() ==> b[i] != 0x0a,
    ensures
        ({
            let (m1, x1, y1) = insert_run(m, x, y, a);
            insert_run(m1, x1, y1, b) == insert_run(m, x, y, a + b)
        }),
{
    let d = a + b;
    assert forall|i: int| 0 <= i < d.len() implies d[i] != 0x0a by {
        if i >= a.len() {
            assert(d[i] == b[i - a.len()]);
        }
    }
    let w = m.width;
    let room_d: nat = if w - x < d.len() { (w - x) as nat } else { d.len() };
    let search_d: nat = if room_d + 1 < d.len() { room_d + 1 } else { d.len() };
    let room_a: nat = if w - x < a.len() { (w - x) as nat } else { a.len() };
    let search_a: nat = if room_a + 1 < a.len() { room_a + 1 } else { a.len() };
    lemma_no_newline(d, search_d);
    lemma_no_newline(a, search_a);
    let line = m.lines[y as int];
    let l1 = LineView { text: splice(line.text, x, a), newline: line.newline };
    assert(a.subrange(0, a.len() as int) =~= a);
    let ma = BufferModel { lines: m.lines.update(y as int, l1), ..m };
    assert(a.subrange(a.len() as int, a.len() as int) =~= Seq::<u8>::empty());
    assert(insert_run(m, x, y, a) == insert_run(ma, x + a.len(), y, Seq::<u8>::empty()));
    assert(insert_run(m, x, y, a) == (ma, x + a.len(), y));
    let x1 = x + a.len();
    let room_b: nat = if w - x1 < b.len() { (w - x1) as nat } else { b.len() };
    let search_b: nat = if room_b + 1 < b.len() { room_b + 1 } else { b.len() };
    lemma_no_newline(b, search_b);
    assert(room_d == a.len() + room_b);
    assert(d.subrange(0, room_d as int) =~= a + b.subrange(0, room_b as int));
    lemma_splice_twice(line.text, x, a, b.subrange(0, room_b as int));
    assert(ma.lines[y as int] == l1);
    assert(ma.lines.update(y as int, LineView {
        text: splice(l1.text, x1, b.subrange(0, room_b as int)),
        newline: line.newline,
    }) =~= m.lines.update(y as int, LineView {
        text: splice(line.text, x, d.subrange(0, room_d as int)),
        newline: line.newline,
    }));
    assert(b.subrange(room_b as int, b.len() as int) =~= d.subrange(room_d as int, d.len() as int));
}

/// Writing a byte string in two parts gives the same state and cursor as
/// writing it at once, wherever it is split and from whatever column, as
/// long as it holds no newline.
pub proof fn lemma_insert_split(m: BufferModel, x: nat, y: nat, a: Seq<u8>, b: Seq<u8>)
    requires
        m.lines.len() == m.height,
        forall|i: int| 0 <= i < a.len() ==> a[i] != 0x0a,
        forall|i: int| 0 <= i < b.len() ==> b[i] != 0x0a,
    ensures
        ({
            let (m1, x1, y1) = insert_run(m, x, y, a);
            insert_run(m1, x1, y1, b) == insert_run(m, x, y, a + b)
        }),
    decreases a.len() + b.len(), if x >= m.width { 1int } else { 0int },
{
    let d = a + b;
    assert forall|i: int| 0 <= i < d.len() implies d[i] != 0x0a by {
        if i >= a.len() {
            assert(d[i] == b[i - a.len()]);
        }
    }
    if a.len() == 0 {
        assert(d =~= b);
    } else if b.len() == 0 {
        assert(d =~= a);
        let (m1, x1, y1) = insert_run(m, x, y, a);
        assert(insert_run(m1, x1, y1, b) == (m1, x1, y1));
    } else if y >= m.height || m.width == 0 {
    } else if x >= m.width {
        let (l, consumed, nx) = line_insert(m.lines[y as int], d, x, m.width);
        let m1 = BufferModel { lines: m.lines.update(y as int, l), ..m };
        let m2 = if y + 1 >= m.height { evict(m1) } else { m1 };
        let y3: nat = if y + 1 >= m.height { (m.height - 1) as nat } else { y + 1 };
        assert(d.subrange(0, d.len() as int) =~= d);
        assert(a.subrange(0, a.len() as int) =~= a);
        lemma_insert_split(m2, 0, y3, a, b);
    } else {
        let w = m.width;
        let room_d: nat = if w - x < d.len() { (w - x) as nat } else { d.len() };
        let search_d: nat = if room_d + 1 < d.len() { room_d + 1 } else { d.len() };
        let room_a: nat = if w - x < a.len() { (w - x) as nat } else { a.len() };
        let search_a: nat = if room_a + 1 < a.len() { room_a + 1 } else { a.len() };
        lemma_no_newline(d, search_d);
        lemma_no_newline(a, search_a);
        let line = m.lines[y as int];
        if a.len() >= w - x {
            assert(room_a == room_d);
            assert(d.subrange(0, room_d as int) =~= a.subrange(0, room_a as int));
            let l = LineView { text: splice(line.text, x, a.subrange(0, room_a as int)), newline: line.newline };
            let m1 = BufferModel { lines: m.lines.update(y as int, l), ..m };
            let m2 = if y + 1 >= m.height { evict(m1) } else { m1 };
            let y3: nat = if y + 1 >= m.height { (m.height - 1) as nat } else { y + 1 };
            let ra = a.subrange(room_a as int, a.len() as int);
            assert(d.subrange(room_d as int, d.len() as int) =~= ra + b);
            assert forall|i: int| 0 <= i < ra.len() implies ra[i] != 0x0a by {
                assert(ra[i] == a[i + room_a]);
            }
            lemma_insert_split(m2, 0, y3, ra, b);
        } else {
            lemma_insert_split_short(m, x, y, a, b);
        }
    }
}

/// Byte `ch` stands at column `X` of the row with id `L`: in the scrollback,
/// at the offset recorded for `L` plus `X`; in the grid, in row `L - count`.
pub open spec fn located(m: BufferModel, l: nat, x: nat, ch: u8) -> bool {
    let count = m.line_starts.len();
    if l < count {
        &&& m.line_starts[l as int] + x < m.scrollback.len()
        &&& m.scrollback[m.line_starts[l as int] + x] == ch
    } else {
        &&& l - count < m.lines.len()
        &&& x < m.lines[l - count].text.len()
        &&& m.lines[l - count].text[x as int] == ch
    }
}

proof fn lemma_evict_keeps_located(m: BufferModel, l: nat, x: nat, ch: u8)
    requires
        located(m, l, x, ch),
        m.lines.len() == m.height,
        m.height > 0,
        m.scrollback.len() <= usize::MAX,
    ensures
        located(evict(m), l, x, ch),
{
    let e = evict(m);
    let count = m.line_starts.len();
    assert(e.scrollback.subrange(0, m.scrollback.len() as int) =~= m.scrollback);
    if l < count {
        assert(e.line_starts[l as int] == m.line_starts[l as int]);
        assert(e.scrollback[m.line_starts[l as int] + x] == m.scrollback[m.line_starts[l as int] + x]);
    } else if l == count {
        assert(e.line_starts[l as int] == m.scrollback.len());
        assert(e.scrollback[(m.scrollback.len() + x) as int] == m.lines[0].text[x as int]);
    } else {
        assert(e.lines[l - (count + 1)] == m.lines[l - count]);
    }
}

/// A write leaves every byte of the rows above the cursor where its row id
/// says it is, in the grid or, once scrolled out, in the scrollback, however
/// many rows the write scrolls out.
pub proof fn lemma_insert_keeps_located(m: BufferModel, cx: nat, cy: nat, data: Seq<u8>, l: nat, x: nat, ch: u8)
    requires
        m.lines.len() == m.height,
        cy < m.height,
        located(m, l, x, ch),
        l < m.line_starts.len() + cy,
        insert_run(m, cx, cy, data).0.scrollback.len() <= usize::MAX,
    ensures
        located(insert_run(m, cx, cy, data).0, l, x, ch),
    decreases data.len(), if cx >= m.width { 1int } else { 0int },
{
    if data.len() == 0 || cy >= m.height || m.width == 0 {
    } else {
        let (ln, consumed, nx) = line_insert(m.lines[cy as int], data, cx, m.width);
        let m1 = BufferModel { lines: m.lines.update(cy as int, ln), ..m };
        let x2: nat = if nx >= m.width { 0 } else { nx };
        let y2: nat = if nx >= m.width { cy + 1 } else { cy };
        let m2 = if y2 >= m.height { evict(m1) } else { m1 };
        let y3: nat = if y2 >= m.height { (m.height - 1) as nat } else { y2 };
        lemma_line_insert_consumed(m.lines[cy as int], data, cx, m.width);
        let rest = data.subrange(consumed as int, data.len() as int);
        assert(located(m1, l, x, ch)) by {
            if l >= m.line_starts.len() {
                assert(m1.lines[l - m.line_starts.len()] == m.lines[l - m.line_starts.len()]);
            }
        }
        lemma_insert_keeps_scrollback(m2, x2, y3, rest);
        if y2 >= m.height {
            lemma_evict_extends(m1);
            assert(m1.scrollback.len() <= usize::MAX);
            lemma_evict_keeps_located(m1, l, x, ch);
        }
        lemma_insert_keeps_located(m2, x2, y3, rest, l, x, ch);
    }
}

} // verus!
