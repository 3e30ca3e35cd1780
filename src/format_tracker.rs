use vstd::prelude::*;

use crate::buffer::{buf_pos_max, decode_buf_pos, pos_le, pos_lt, BufPos};
use crate::cursor::{color_of_name, lemma_color_name_round_trip, CursorState, TerminalColor};
use crate::snapshot::{as_bool, field, get_field, key_string, lemma_entry_at, read_bool, SnapshotItem};

verus! {

/// A style over the half-open range of positions `start..end`.
#[derive(Debug, Clone, Copy, PartialEq, Eq, Structural)]
pub struct FormatTag {
    pub start: BufPos,
    pub end: BufPos,
    pub bold: bool,
    pub color: TerminalColor,
}

/// Whether `p` lies in the half-open range `s..e`.
pub open spec fn in_range(s: BufPos, e: BufPos, p: BufPos) -> bool {
    pos_le(s, p) && pos_lt(p, e)
}

pub open spec fn covers(t: FormatTag, p: BufPos) -> bool {
    in_range(t.start, t.end, p)
}

/// The style at `p`: that of the last tag that covers it, if any.
pub open spec fn style_at(tags: Seq<FormatTag>, p: BufPos) -> Option<(bool, TerminalColor)>
    decreases tags.len(),
{
    if tags.len() == 0 {
        None
    } else if covers(tags.last(), p) {
        Some((tags.last().bold, tags.last().color))
    } else {
        style_at(tags.drop_last(), p)
    }
}

/// Tags in ascending order, none empty, no two overlapping.
pub open spec fn tags_wf(tags: Seq<FormatTag>) -> bool {
    &&& forall|i: int| 0 <= i < tags.len() ==> pos_lt(#[trigger] tags[i].start, tags[i].end)
    &&& forall|i: int, j: int| 0 <= i < j < tags.len() ==> pos_le(#[trigger] tags[i].end, #[trigger] tags[j].start)
}

/// Tracks the style of every written position, as a list of tags.
pub struct FormatTracker {
    tags: Vec<FormatTag>,
}

impl View for FormatTracker {
    type V = Seq<FormatTag>;

    closed spec fn view(&self) -> Seq<FormatTag> {
        self.tags@
    }
}

pub proof fn lemma_style_at_concat(a: Seq<FormatTag>, b: Seq<FormatTag>, p: BufPos)
    ensures
        style_at(a + b, p) == match style_at(b, p) {
            Some(s) => Some(s),
            None => style_at(a, p),
        },
    decreases b.len(),
{
    if b.len() == 0 {
        assert(a + b =~= a);
    } else {
        assert((a + b).drop_last() =~= a + b.drop_last());
        lemma_style_at_concat(a, b.drop_last(), p);
    }
}

/// A position that no tag covers has no style.
pub proof fn lemma_style_at_none(tags: Seq<FormatTag>, p: BufPos)
    requires
        forall|i: int| 0 <= i < tags.len() ==> !covers(#[trigger] tags[i], p),
    ensures
        style_at(tags, p).is_none(),
    decreases tags.len(),
{
    if tags.len() > 0 {
        lemma_style_at_none(tags.drop_last(), p);
    }
}

proof fn lemma_pos_trans(a: BufPos, b: BufPos, c: BufPos)
    ensures
        pos_le(a, b) && pos_le(b, c) ==> pos_le(a, c),
        pos_le(a, b) && pos_lt(b, c) ==> pos_lt(a, c),
        pos_lt(a, b) && pos_le(b, c) ==> pos_lt(a, c),
{
}

fn max_pos(a: BufPos, b: BufPos) -> (r: BufPos)
    ensures
        r == if pos_le(a, b) { b } else { a },
{
    if a.is_at_or_before(&b) {
        b
    } else {
        a
    }
}

fn min_pos(a: BufPos, b: BufPos) -> (r: BufPos)
    ensures
        r == if pos_le(a, b) { a } else { b },
{
    if a.is_at_or_before(&b) {
        a
    } else {
        b
    }
}

/// The earlier of two positions.
pub open spec fn pos_min(a: BufPos, b: BufPos) -> BufPos {
    if pos_le(a, b) { a } else { b }
}

/// The later of two positions.
pub open spec fn pos_max(a: BufPos, b: BufPos) -> BufPos {
    if pos_le(a, b) { b } else { a }
}

/// The tags that start before `s`, each cut back to end at `s` at the latest.
pub open spec fn heads(tags: Seq<FormatTag>, s: BufPos) -> Seq<FormatTag>
    decreases tags.len(),
{
    if tags.len() == 0 {
        Seq::empty()
    } else {
        let t = tags.last();
        heads(tags.drop_last(), s) + if pos_lt(t.start, s) {
            seq![FormatTag { end: pos_min(t.end, s), ..t }]
        } else {
            Seq::empty()
        }
    }
}

/// The tags that end after `e`, each cut back to start at `e` at the earliest.
pub open spec fn tails(tags: Seq<FormatTag>, e: BufPos) -> Seq<FormatTag>
    decreases tags.len(),
{
    if tags.len() == 0 {
        Seq::empty()
    } else {
        let t = tags.last();
        tails(tags.drop_last(), e) + if pos_lt(e, t.end) {
            seq![FormatTag { start: pos_max(t.start, e), ..t }]
        } else {
            Seq::empty()
        }
    }
}

/// The tags after `s..e` takes the style `(bold, color)`: tags inside the
/// range are dropped, tags across its ends are cut, the new tag is put in
/// between and merged with a neighbour of the same style that touches it.
pub open spec fn painted(tags: Seq<FormatTag>, s: BufPos, e: BufPos, bold: bool, color: TerminalColor) -> Seq<FormatTag> {
    if !pos_lt(s, e) {
        tags
    } else {
        let b = heads(tags, s);
        let a = tails(tags, e);
        let ml = b.len() > 0 && b.last().end == s && b.last().bold == bold && b.last().color == color;
        let mr = a.len() > 0 && a[0].start == e && a[0].bold == bold && a[0].color == color;
        let start = if ml { b.last().start } else { s };
        let end = if mr { a[0].end } else { e };
        (if ml { b.drop_last() } else { b }).push(FormatTag { start, end, bold, color }) + (if mr { a.drop_first() } else { a })
    }
}

/// The tags after `s..e` loses its style: tags inside the range are
/// dropped and tags across its ends are cut.
pub open spec fn erased(tags: Seq<FormatTag>, s: BufPos, e: BufPos) -> Seq<FormatTag> {
    if !pos_lt(s, e) {
        tags
    } else {
        heads(tags, s) + tails(tags, e)
    }
}

proof fn lemma_heads_from_origin(tags: Seq<FormatTag>)
    ensures
        heads(tags, BufPos { line_id: 0, x_pos: 0 }) == Seq::<FormatTag>::empty(),
    decreases tags.len(),
{
    if tags.len() > 0 {
        lemma_heads_from_origin(tags.drop_last());
        assert(heads(tags, BufPos { line_id: 0, x_pos: 0 }) =~= Seq::<FormatTag>::empty());
    }
}

proof fn lemma_tails_to_end(tags: Seq<FormatTag>)
    ensures
        tails(tags, buf_pos_max()) == Seq::<FormatTag>::empty(),
    decreases tags.len(),
{
    if tags.len() > 0 {
        lemma_tails_to_end(tags.drop_last());
        assert(tails(tags, buf_pos_max()) =~= Seq::<FormatTag>::empty());
    }
}

/// Painting everything from the origin to the end of all content leaves
/// a single tag.
pub proof fn lemma_paint_everything(tags: Seq<FormatTag>, bold: bool, color: TerminalColor)
    ensures
        painted(tags, BufPos { line_id: 0, x_pos: 0 }, buf_pos_max(), bold, color) == seq![
            FormatTag { start: BufPos { line_id: 0, x_pos: 0 }, end: buf_pos_max(), bold, color },
        ],
{
    lemma_heads_from_origin(tags);
    lemma_tails_to_end(tags);
    assert(Seq::<FormatTag>::empty().push(
        FormatTag { start: BufPos { line_id: 0, x_pos: 0 }, end: buf_pos_max(), bold, color },
    ) + Seq::<FormatTag>::empty() =~= seq![
        FormatTag { start: BufPos { line_id: 0, x_pos: 0 }, end: buf_pos_max(), bold, color },
    ]);
}

/// Joining the parts of the old tags before and after the new range with the
/// new tag, merged with a neighbour of the same style that touches it, gives
/// well-formed tags with the new style over the range and the old elsewhere.
proof fn lemma_assemble(
    tags: Seq<FormatTag>,
    b: Seq<FormatTag>,
    a: Seq<FormatTag>,
    b2: Seq<FormatTag>,
    a2: Seq<FormatTag>,
    tag: FormatTag,
    s: BufPos,
    e: BufPos,
)
    requires
        pos_lt(s, e),
        tags_wf(b),
        tags_wf(a),
        forall|k: int| 0 <= k < b.len() ==> pos_le(#[trigger] b[k].end, s),
        forall|k: int| 0 <= k < a.len() ==> pos_le(e, #[trigger] a[k].start),
        forall|p: BufPos| pos_lt(p, s) ==> #[trigger] style_at(b, p) == style_at(tags, p),
        forall|p: BufPos| pos_le(e, p) ==> #[trigger] style_at(a, p) == style_at(tags, p),
        (b2 == b && tag.start == s) || (b.len() > 0 && b2 == b.drop_last() && tag.start == b.last().start && b.last().end == s
            && b.last().bold == tag.bold && b.last().color == tag.color),
        (a2 == a && tag.end == e) || (a.len() > 0 && a2 == a.drop_first() && tag.end == a[0].end && a[0].start == e
            && a[0].bold == tag.bold && a[0].color == tag.color),
    ensures
        tags_wf(b2.push(tag) + a2),
        forall|p: BufPos|
            #![trigger style_at(b2.push(tag) + a2, p)]
            style_at(b2.push(tag) + a2, p) == if pos_le(s, p) && pos_lt(p, e) {
                Some((tag.bold, tag.color))
            } else {
                style_at(tags, p)
            },
{
    let r = b2.push(tag) + a2;
    let ml = b2 != b;
    let mr = a2 != a;
    assert(pos_le(tag.start, s)) by {
        if ml {
            assert(pos_lt(b.last().start, b.last().end));
        }
    }
    assert(pos_le(e, tag.end)) by {
        if mr {
            assert(pos_lt(a[0].start, a[0].end));
        }
    }
    assert forall|k: int| 0 <= k < b2.len() implies pos_le(#[trigger] b2[k].end, tag.start) by {
        if ml {
            assert(b2[k] == b[k]);
        }
    }
    assert forall|l: int| 0 <= l < a2.len() implies pos_le(tag.end, #[trigger] a2[l].start) by {
        if mr {
            assert(a2[l] == a[l + 1]);
        }
    }
    assert forall|k: int, l: int| 0 <= k < l < b2.len() implies pos_le(#[trigger] b2[k].end, #[trigger] b2[l].start) by {
        if ml {
            assert(b2[k] == b[k] && b2[l] == b[l]);
        }
    }
    assert forall|k: int, l: int| 0 <= k < l < a2.len() implies pos_le(#[trigger] a2[k].end, #[trigger] a2[l].start) by {
        if mr {
            assert(a2[k] == a[k + 1] && a2[l] == a[l + 1]);
        }
    }
    assert forall|k: int| 0 <= k < b2.len() implies pos_lt(#[trigger] b2[k].start, b2[k].end) by {
        if ml {
            assert(b2[k] == b[k]);
        }
    }
    assert forall|k: int| 0 <= k < a2.len() implies pos_lt(#[trigger] a2[k].start, a2[k].end) by {
        if mr {
            assert(a2[k] == a[k + 1]);
        }
    }
    assert forall|x: int| 0 <= x < r.len() implies pos_lt(#[trigger] r[x].start, r[x].end) by {
        if x < b2.len() {
            assert(r[x] == b2[x]);
        } else if x == b2.len() {
        } else {
            assert(r[x] == a2[x - b2.len() - 1]);
        }
    }
    assert forall|x: int, y: int| 0 <= x < y < r.len() implies pos_le(#[trigger] r[x].end, #[trigger] r[y].start) by {
        if y < b2.len() {
            assert(r[x] == b2[x] && r[y] == b2[y]);
        } else if y == b2.len() {
            assert(r[x] == b2[x]);
        } else if x < b2.len() {
            assert(r[x] == b2[x]);
            assert(r[y] == a2[y - b2.len() - 1]);
            lemma_pos_trans(r[x].end, tag.start, tag.end);
            lemma_pos_trans(r[x].end, tag.end, r[y].start);
        } else if x == b2.len() {
            assert(r[y] == a2[y - b2.len() - 1]);
        } else {
            assert(r[x] == a2[x - b2.len() - 1]);
            assert(r[y] == a2[y - b2.len() - 1]);
        }
    }
    assert forall|p: BufPos| #[trigger] style_at(r, p) == if pos_le(s, p) && pos_lt(p, e) {
        Some((tag.bold, tag.color))
    } else {
        style_at(tags, p)
    } by {
        lemma_style_at_concat(b2.push(tag), a2, p);
        assert(b2.push(tag).drop_last() =~= b2);
        assert(b2.push(tag).last() == tag);
        if ml {
            assert(b.drop_last() == b2);
        }
        if mr {
            assert(a =~= seq![a[0]] + a2);
            lemma_style_at_concat(seq![a[0]], a2, p);
            assert(seq![a[0]].drop_last() =~= Seq::<FormatTag>::empty());
        }
        let c = Some((tag.bold, tag.color));
        assert(style_at(b2.push(tag), p) == if covers(tag, p) { c } else { style_at(b2, p) });
        if pos_lt(p, tag.end) {
            assert forall|x: int| 0 <= x < a2.len() implies !covers(#[trigger] a2[x], p) by {
                lemma_pos_trans(p, tag.end, a2[x].start);
            }
            lemma_style_at_none(a2, p);
            assert(style_at(r, p) == style_at(b2.push(tag), p));
            if pos_le(s, p) {
                lemma_pos_trans(tag.start, s, p);
                assert(covers(tag, p));
                assert(style_at(r, p) == c);
                if pos_le(e, p) {
                    assert(mr);
                    assert(covers(a[0], p));
                    assert(seq![a[0]].last() == a[0]);
                    assert(style_at(seq![a[0]], p) == c);
                    assert(style_at(a, p) == c);
                }
            } else {
                assert(style_at(tags, p) == style_at(b, p));
                if ml {
                    if pos_le(tag.start, p) {
                        assert(covers(tag, p));
                        assert(covers(b.last(), p));
                        assert(style_at(b, p) == c);
                    } else {
                        assert(!covers(tag, p));
                        assert(!covers(b.last(), p));
                        assert(style_at(b, p) == style_at(b2, p));
                    }
                } else {
                    assert(!covers(tag, p));
                }
            }
        } else {
            lemma_pos_trans(e, tag.end, p);
            assert(!covers(tag, p));
            assert(style_at(tags, p) == style_at(a, p));
            assert forall|x: int| 0 <= x < b2.len() implies !covers(#[trigger] b2[x], p) by {
                lemma_pos_trans(b2[x].end, tag.start, tag.end);
                lemma_pos_trans(b2[x].end, tag.end, p);
            }
            lemma_style_at_none(b2, p);
            if mr {
                assert(!covers(a[0], p));
                assert(seq![a[0]].last() == a[0]);
                assert(style_at(seq![a[0]].drop_last(), p).is_none());
                assert(style_at(seq![a[0]], p).is_none());
                assert(style_at(a, p) == style_at(a2, p));
            }
        }
    }
}

/// Joining the parts of the old tags before and after a range leaves the
/// range without style and every other position as it was.
proof fn lemma_join(tags: Seq<FormatTag>, b: Seq<FormatTag>, a: Seq<FormatTag>, s: BufPos, e: BufPos)
    requires
        pos_lt(s, e),
        tags_wf(b),
        tags_wf(a),
        forall|k: int| 0 <= k < b.len() ==> pos_le(#[trigger] b[k].end, s),
        forall|k: int| 0 <= k < a.len() ==> pos_le(e, #[trigger] a[k].start),
        forall|p: BufPos| pos_lt(p, s) ==> #[trigger] style_at(b, p) == style_at(tags, p),
        forall|p: BufPos| pos_le(e, p) ==> #[trigger] style_at(a, p) == style_at(tags, p),
    ensures
        tags_wf(b + a),
        forall|p: BufPos|
            #![trigger style_at(b + a, p)]
            style_at(b + a, p) == if in_range(s, e, p) {
                None
            } else {
                style_at(tags, p)
            },
{
    let r = b + a;
    assert forall|x: int| 0 <= x < r.len() implies pos_lt(#[trigger] r[x].start, r[x].end) by {
        if x < b.len() {
            assert(r[x] == b[x]);
        } else {
            assert(r[x] == a[x - b.len()]);
        }
    }
    assert forall|x: int, y: int| 0 <= x < y < r.len() implies pos_le(#[trigger] r[x].end, #[trigger] r[y].start) by {
        if y < b.len() {
            assert(r[x] == b[x] && r[y] == b[y]);
        } else if x < b.len() {
            assert(r[x] == b[x]);
            assert(r[y] == a[y - b.len()]);
            lemma_pos_trans(r[x].end, s, e);
            lemma_pos_trans(r[x].end, e, r[y].start);
        } else {
            assert(r[x] == a[x - b.len()] && r[y] == a[y - b.len()]);
        }
    }
    assert forall|p: BufPos| #[trigger] style_at(r, p) == if in_range(s, e, p) {
        None
    } else {
        style_at(tags, p)
    } by {
        lemma_style_at_concat(b, a, p);
        if pos_lt(p, e) {
            assert forall|x: int| 0 <= x < a.len() implies !covers(#[trigger] a[x], p) by {
                lemma_pos_trans(p, e, a[x].start);
            }
            lemma_style_at_none(a, p);
            if pos_le(s, p) {
                assert forall|x: int| 0 <= x < b.len() implies !covers(#[trigger] b[x], p) by {
                    lemma_pos_trans(b[x].end, s, p);
                }
                lemma_style_at_none(b, p);
            }
        } else {
            if style_at(a, p).is_none() {
                assert forall|x: int| 0 <= x < b.len() implies !covers(#[trigger] b[x], p) by {
                    lemma_pos_trans(b[x].end, s, e);
                    lemma_pos_trans(b[x].end, e, p);
                }
                lemma_style_at_none(b, p);
            }
        }
    }
}

impl FormatTracker {
    pub closed spec fn wf(&self) -> bool {
        tags_wf(self.tags@)
    }

    pub proof fn lemma_wf(&self)
        requires
            self.wf(),
        ensures
            tags_wf(self@),
    {
    }

    /// A tracker with no tags: every position has the default style.
    pub fn new() -> (r: FormatTracker)
        ensures
            r.wf(),
            r@ == Seq::<FormatTag>::empty(),
    {
        FormatTracker { tags: Vec::new() }
    }

    /// The tags, in ascending order.
    pub fn tags(&self) -> (r: Vec<FormatTag>)
        requires
            self.wf(),
        ensures
            r@ == self@,
            tags_wf(r@),
    {
        let r = self.tags.clone();
        assert(r@ =~= self.tags@);
        r
    }

    /// The parts of the tags before `s` and after `e`, cut back to those
    /// bounds.
    fn split_around(&self, s: BufPos, e: BufPos) -> (r: (Vec<FormatTag>, Vec<FormatTag>))
        requires
            self.wf(),
            pos_lt(s, e),
        ensures
            tags_wf(r.0@),
            tags_wf(r.1@),
            forall|k: int| 0 <= k < r.0@.len() ==> pos_le(#[trigger] r.0@[k].end, s),
            forall|k: int| 0 <= k < r.1@.len() ==> pos_le(e, #[trigger] r.1@[k].start),
            forall|p: BufPos| pos_lt(p, s) ==> #[trigger] style_at(r.0@, p) == style_at(self@, p),
            forall|p: BufPos| pos_le(e, p) ==> #[trigger] style_at(r.1@, p) == style_at(self@, p),
            r.0@ == heads(self@, s),
            r.1@ == tails(self@, e),
    {
        let ghost tags = self.tags@;
        let mut before: Vec<FormatTag> = Vec::new();
        let mut after: Vec<FormatTag> = Vec::new();
        let mut i: usize = 0;
        while i < self.tags.len()
            invariant
                tags == self.tags@,
                tags_wf(tags),
                pos_lt(s, e),
                i <= tags.len(),
                before@ == heads(tags.subrange(0, i as int), s),
                after@ == tails(tags.subrange(0, i as int), e),
                i == 0 ==> before@.len() == 0 && after@.len() == 0,
                tags_wf(before@),
                tags_wf(after@),
                forall|k: int| 0 <= k < before@.len() ==> pos_le(#[trigger] before@[k].end, s),
                forall|k: int| 0 <= k < after@.len() ==> pos_le(e, #[trigger] after@[k].start),
                i > 0 ==> forall|k: int| 0 <= k < before@.len() ==> pos_le(#[trigger] before@[k].end, tags[i - 1].end),
                i > 0 ==> forall|k: int| 0 <= k < after@.len() ==> pos_le(#[trigger] after@[k].end, tags[i - 1].end),
                forall|p: BufPos|
                    pos_lt(p, s) ==> #[trigger] style_at(before@, p) == style_at(tags.subrange(0, i as int), p),
                forall|p: BufPos|
                    pos_le(e, p) ==> #[trigger] style_at(after@, p) == style_at(tags.subrange(0, i as int), p),
            decreases tags.len() - i,
        {
            let t = self.tags[i];
            let ghost b0 = before@;
            let ghost a0 = after@;
            assert(tags.subrange(0, i + 1).drop_last() =~= tags.subrange(0, i as int));
            assert(tags.subrange(0, i + 1).last() == t);
            if i > 0 {
                assert(pos_le(tags[i - 1].end, t.start));
            }
            if t.start.is_before(&s) {
                let head = FormatTag { start: t.start, end: min_pos(t.end, s), bold: t.bold, color: t.color };
                before.push(head);
            }
            if e.is_before(&t.end) {
                let tail = FormatTag { start: max_pos(t.start, e), end: t.end, bold: t.bold, color: t.color };
                after.push(tail);
            }
            proof {
                let pre = tags.subrange(0, i as int);
                let pre1 = tags.subrange(0, i + 1);
                assert(before@ =~= heads(pre1, s));
                assert(after@ =~= tails(pre1, e));
                if pos_lt(t.start, s) {
                    assert(before@.drop_last() =~= b0);
                    assert forall|k: int, l: int| 0 <= k < l < before@.len() implies pos_le(#[trigger] before@[k].end, #[trigger] before@[l].start) by {
                        if l == before@.len() - 1 {
                            assert(i > 0);
                            lemma_pos_trans(b0[k].end, tags[i - 1].end, t.start);
                        } else {
                            assert(before@[k] == b0[k] && before@[l] == b0[l]);
                        }
                    }
                    assert forall|p: BufPos| pos_lt(p, s) implies #[trigger] style_at(before@, p) == style_at(pre1, p) by {
                        assert(covers(before@.last(), p) == covers(t, p));
                        assert(style_at(b0, p) == style_at(pre, p));
                        assert(pre1.drop_last() == pre);
                        assert(pre1.last() == t);
                    }
                } else {
                    assert(before@ == b0);
                    assert forall|p: BufPos| pos_lt(p, s) implies #[trigger] style_at(before@, p) == style_at(pre1, p) by {
                        lemma_pos_trans(p, s, t.start);
                    }
                }
                if pos_lt(e, t.end) {
                    assert(after@.drop_last() =~= a0);
                    assert forall|k: int, l: int| 0 <= k < l < after@.len() implies pos_le(#[trigger] after@[k].end, #[trigger] after@[l].start) by {
                        if l == after@.len() - 1 {
                            assert(i > 0);
                            lemma_pos_trans(a0[k].end, tags[i - 1].end, t.start);
                        } else {
                            assert(after@[k] == a0[k] && after@[l] == a0[l]);
                        }
                    }
                    assert forall|p: BufPos| pos_le(e, p) implies #[trigger] style_at(after@, p) == style_at(pre1, p) by {
                        assert(covers(after@.last(), p) == covers(t, p));
                        assert(style_at(a0, p) == style_at(pre, p));
                        assert(pre1.drop_last() == pre);
                        assert(pre1.last() == t);
                    }
                } else {
                    assert(after@ == a0);
                    assert forall|p: BufPos| pos_le(e, p) implies #[trigger] style_at(after@, p) == style_at(pre1, p) by {
                        lemma_pos_trans(t.end, e, p);
                    }
                }
                assert forall|k: int| 0 <= k < before@.len() implies pos_le(#[trigger] before@[k].end, tags[i as int].end) by {
                    if k < b0.len() {
                        assert(before@[k] == b0[k]);
                        assert(i > 0);
                        lemma_pos_trans(b0[k].end, tags[i - 1].end, t.start);
                    }
                }
                assert forall|k: int| 0 <= k < after@.len() implies pos_le(#[trigger] after@[k].end, tags[i as int].end) by {
                    if k < a0.len() {
                        assert(after@[k] == a0[k]);
                        assert(i > 0);
                        lemma_pos_trans(a0[k].end, tags[i - 1].end, t.start);
                    }
                }
            }
            i += 1;
        }
        assert(tags.subrange(0, tags.len() as int) =~= tags);
        (before, after)
    }

    /// Takes the style off the positions of `range`; the style of every
    /// other position is kept.
    pub fn clear_range(&mut self, range: std::ops::Range<BufPos>)
        requires
            old(self).wf(),
        ensures
            final(self).wf(),
            forall|p: BufPos|
                #![trigger style_at(final(self)@, p)]
                style_at(final(self)@, p) == if in_range(range.start, range.end, p) {
                    None
                } else {
                    style_at(old(self)@, p)
                },
            final(self)@ == erased(old(self)@, range.start, range.end),
    {
        let s = range.start;
        let e = range.end;
        if !s.is_before(&e) {
            return;
        }
        let ghost tags = self.tags@;
        let (mut before, after) = self.split_around(s, e);
        let ghost b = before@;
        let mut k: usize = 0;
        while k < after.len()
            invariant
                before@ == b + after@.subrange(0, k as int),
                k <= after@.len(),
            decreases after.len() - k,
        {
            before.push(after[k]);
            k += 1;
            assert(before@ =~= b + after@.subrange(0, k as int));
        }
        assert(after@.subrange(0, after@.len() as int) =~= after@);
        proof {
            lemma_join(tags, b, after@, s, e);
        }
        self.tags = before;
    }

    /// Gives the positions of `range` the style of `cursor_state`; the style
    /// of every other position is kept.
    pub fn push_range(&mut self, cursor_state: &CursorState, range: std::ops::Range<BufPos>)
        requires
            old(self).wf(),
        ensures
            final(self).wf(),
            forall|p: BufPos|
                #![trigger style_at(final(self)@, p)]
                style_at(final(self)@, p) == if in_range(range.start, range.end, p) {
                    Some((cursor_state.bold, cursor_state.color))
                } else {
                    style_at(old(self)@, p)
                },
            final(self)@ == painted(old(self)@, range.start, range.end, cursor_state.bold, cursor_state.color),
    {
        let s = range.start;
        let e = range.end;
        if !s.is_before(&e) {
            return;
        }
        let ghost tags = self.tags@;
        let (mut before, mut after) = self.split_around(s, e);
        let ghost b = before@;
        let ghost a = after@;
        let mut start = s;
        let mut end = e;
        if before.len() > 0 {
            let last = before[before.len() - 1];
            if last.end == s && last.bold == cursor_state.bold && last.color == cursor_state.color {
                start = last.start;
                before.pop();
            }
        }
        if after.len() > 0 {
            let first = after[0];
            if first.start == e && first.bold == cursor_state.bold && first.color == cursor_state.color {
                end = first.end;
                after.remove(0);
            }
        }
        let tag = FormatTag { start, end, bold: cursor_state.bold, color: cursor_state.color };
        let ghost b2 = before@;
        let ghost a2 = after@;
        let mut result = before;
        result.push(tag);
        let mut k: usize = 0;
        while k < after.len()
            invariant
                after@ == a2,
                result@ == b2.push(tag) + a2.subrange(0, k as int),
                k <= a2.len(),
            decreases a2.len() - k,
        {
            result.push(after[k]);
            k += 1;
            assert(result@ =~= b2.push(tag) + a2.subrange(0, k as int));
        }
        assert(a2.subrange(0, a2.len() as int) =~= a2);
        proof {
            lemma_assemble(tags, b, a, b2, a2, tag, s, e);
            assert(result@ == painted(tags, s, e, cursor_state.bold, cursor_state.color));
        }
        self.tags = result;
    }
}

/// Whether every position of the tags fits a snapshot.
pub open spec fn tags_fit(tags: Seq<FormatTag>) -> bool {
    forall|i: int| 0 <= i < tags.len() ==> !(#[trigger] tags[i]).start.snapshot_fails() && !tags[i].end.snapshot_fails()
}

/// The tag that a snapshot item describes: a map with keys `start`, `end`,
/// `bold` and `color`.
pub open spec fn decode_tag(s: SnapshotItem) -> Option<FormatTag> {
    match (field(s, "start"@), field(s, "end"@), field(s, "bold"@), field(s, "color"@)) {
        (Some(a), Some(b), Some(c), Some(SnapshotItem::String(n))) => match (
            decode_buf_pos(a),
            decode_buf_pos(b),
            as_bool(c),
            color_of_name(n@),
        ) {
            (Some(start), Some(end), Some(bold), Some(color)) => Some(FormatTag { start, end, bold, color }),
            _ => None,
        },
        _ => None,
    }
}

/// The tags that a snapshot item describes: an array of tags in ascending
/// order, none empty, no two overlapping.
pub open spec fn decode_tags(s: SnapshotItem) -> Result<Seq<FormatTag>, LoadFormatTrackerError> {
    match s {
        SnapshotItem::Array(items) => if forall|i: int| 0 <= i < items@.len() ==> (#[trigger] decode_tag(items@[i])).is_some() {
            let tags = Seq::new(items@.len(), |i: int| decode_tag(items@[i]).unwrap());
            if tags_wf(tags) {
                Ok(tags)
            } else {
                Err(LoadFormatTrackerError::TagsOverlap)
            }
        } else {
            Err(LoadFormatTrackerError::TagInvalid)
        },
        _ => Err(LoadFormatTrackerError::RootNotArray),
    }
}

/// Why a snapshot item describes no tracker.
#[derive(Debug, Clone, Copy, PartialEq, Eq, Structural)]
pub enum LoadFormatTrackerError {
    RootNotArray,
    /// A tag is not a map of `start`, `end`, `bold` and a colour name.
    TagInvalid,
    /// The tags are out of order, empty or overlapping.
    TagsOverlap,
}

fn tag_item(t: &FormatTag) -> (r: Option<SnapshotItem>)
    ensures
        match r {
            Some(s) => decode_tag(s) == Some(*t),
            None => t.start.snapshot_fails() || t.end.snapshot_fails(),
        },
{
    let start = match t.start.snapshot() {
        Some(v) => v,
        None => {
            return None;
        },
    };
    let end = match t.end.snapshot() {
        Some(v) => v,
        None => {
            return None;
        },
    };
    let mut entries: Vec<(String, SnapshotItem)> = Vec::new();
    entries.push((key_string("start"), start));
    entries.push((key_string("end"), end));
    entries.push((key_string("bold"), SnapshotItem::Bool(t.bold)));
    entries.push((key_string("color"), SnapshotItem::String(t.color.to_string())));
    proof {
        reveal_strlit("start");
        reveal_strlit("end");
        reveal_strlit("bold");
        reveal_strlit("color");
        assert("start"@.len() == 5 && "end"@.len() == 3 && "bold"@.len() == 4 && "color"@.len() == 5);
        assert("start"@[0] != "color"@[0]);
        lemma_entry_at(entries@, 0, "start"@);
        lemma_entry_at(entries@, 1, "end"@);
        lemma_entry_at(entries@, 2, "bold"@);
        lemma_entry_at(entries@, 3, "color"@);
        lemma_color_name_round_trip(t.color);
    }
    Some(SnapshotItem::Dict(entries))
}

fn read_tag(s: &SnapshotItem) -> (r: Option<FormatTag>)
    ensures
        r == decode_tag(*s),
{
    let a = match get_field(s, "start") {
        Some(v) => v,
        None => {
            return None;
        },
    };
    let b = match get_field(s, "end") {
        Some(v) => v,
        None => {
            return None;
        },
    };
    let c = match get_field(s, "bold") {
        Some(v) => v,
        None => {
            return None;
        },
    };
    let n = match get_field(s, "color") {
        Some(SnapshotItem::String(n)) => n,
        _ => {
            return None;
        },
    };
    let start = match BufPos::from_snapshot(a) {
        Some(v) => v,
        None => {
            return None;
        },
    };
    let end = match BufPos::from_snapshot(b) {
        Some(v) => v,
        None => {
            return None;
        },
    };
    let bold = match read_bool(c) {
        Some(v) => v,
        None => {
            return None;
        },
    };
    let color = match TerminalColor::from_name(n) {
        Some(v) => v,
        None => {
            return None;
        },
    };
    Some(FormatTag { start, end, bold, color })
}

fn check_tags_wf(tags: &Vec<FormatTag>) -> (r: bool)
    ensures
        r == tags_wf(tags@),
{
    let n = tags.len();
    let mut i: usize = 0;
    while i < n
        invariant
            n == tags@.len(),
            i <= n,
            forall|k: int| 0 <= k < i ==> pos_lt(#[trigger] tags@[k].start, tags@[k].end),
            forall|k: int, l: int| 0 <= k < l < n && k < i ==> pos_le(#[trigger] tags@[k].end, #[trigger] tags@[l].start),
        decreases n - i,
    {
        if !tags[i].start.is_before(&tags[i].end) {
            return false;
        }
        let mut j: usize = i + 1;
        while j < n
            invariant
                n == tags@.len(),
                i < n,
                i < j <= n,
                forall|l: int| i < l < j ==> pos_le(tags@[i as int].end, #[trigger] tags@[l].start),
            decreases n - j,
        {
            if !tags[i].end.is_at_or_before(&tags[j].start) {
                return false;
            }
            j += 1;
        }
        i += 1;
    }
    true
}

impl FormatTracker {
    /// The tags as an array, in ascending order; `None` where a position
    /// does not fit a snapshot.
    pub fn snapshot(&self) -> (r: Option<SnapshotItem>)
        requires
            self.wf(),
        ensures
            r is Some <==> tags_fit(self@),
            r matches Some(s) ==> decode_tags(s) == Ok::<Seq<FormatTag>, LoadFormatTrackerError>(self@),
    {
        let mut items: Vec<SnapshotItem> = Vec::new();
        let mut i: usize = 0;
        while i < self.tags.len()
            invariant
                i <= self.tags@.len(),
                items@.len() == i,
                forall|k: int| 0 <= k < i ==> !(#[trigger] self.tags@[k]).start.snapshot_fails() && !self.tags@[k].end.snapshot_fails(),
                forall|k: int| 0 <= k < i ==> decode_tag(#[trigger] items@[k]) == Some(self.tags@[k]),
            decreases self.tags.len() - i,
        {
            match tag_item(&self.tags[i]) {
                Some(item) => items.push(item),
                None => {
                    return None;
                },
            }
            i += 1;
        }
        let r = SnapshotItem::Array(items);
        assert(Seq::new(items@.len(), |k: int| decode_tag(items@[k]).unwrap()) =~= self.tags@);
        Some(r)
    }

    /// The tracker that `s` describes, where it describes one.
    pub fn from_snapshot(s: &SnapshotItem) -> (r: Result<FormatTracker, LoadFormatTrackerError>)
        ensures
            match r {
                Ok(t) => t.wf() && decode_tags(*s) == Ok::<Seq<FormatTag>, LoadFormatTrackerError>(t@),
                Err(e) => decode_tags(*s) == Err::<Seq<FormatTag>, LoadFormatTrackerError>(e),
            },
    {
        let items = match s {
            SnapshotItem::Array(items) => items,
            _ => {
                return Err(LoadFormatTrackerError::RootNotArray);
            },
        };
        let mut tags: Vec<FormatTag> = Vec::new();
        let mut i: usize = 0;
        while i < items.len()
            invariant
                *s == SnapshotItem::Array(*items),
                i <= items@.len(),
                tags@.len() == i,
                forall|k: int| 0 <= k < i ==> decode_tag(#[trigger] items@[k]) == Some(tags@[k]),
            decreases items.len() - i,
        {
            match read_tag(&items[i]) {
                Some(t) => tags.push(t),
                None => {
                    return Err(LoadFormatTrackerError::TagInvalid);
                },
            }
            i += 1;
        }
        assert(Seq::new(items@.len(), |k: int| decode_tag(items@[k]).unwrap()) =~= tags@);
        if !check_tags_wf(&tags) {
            return Err(LoadFormatTrackerError::TagsOverlap);
        }
        Ok(FormatTracker { tags })
    }
}

/// However the tags came about, no position lies in two of them.
pub proof fn lemma_tags_disjoint(t: &FormatTracker, i: int, j: int, p: BufPos)
    requires
        t.wf(),
        0 <= i < j < t@.len(),
    ensures
        !(covers(t@[i], p) && covers(t@[j], p)),
{
    assert(pos_le(t@[i].end, t@[j].start));
    lemma_pos_trans(p, t@[i].end, t@[j].start);
}

} // verus!
