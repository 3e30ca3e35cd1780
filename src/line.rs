use vstd::prelude::*;
use vstd::slice::slice_subrange;

verus! {

/// What a row of the grid holds: the bytes in use, and whether the writer
/// ended the row with an explicit newline.
pub struct LineView {
    pub text: Seq<u8>,
    pub newline: bool,
}

pub open spec fn spaces(n: nat) -> Seq<u8> {
    Seq::new(n, |_i: int| 0x20u8)
}

/// Index of the first `\n` among the first `n` bytes of `s`.
pub open spec fn newline_index(s: Seq<u8>, n: nat) -> Option<nat>
    decreases n,
{
    if n == 0 {
        None
    } else {
        match newline_index(s, (n - 1) as nat) {
            Some(i) => Some(i),
            None => if s[n - 1] == 0x0a {
                Some((n - 1) as nat)
            } else {
                None
            },
        }
    }
}

/// `text` with `d` written at `pos`, the gap before `pos` filled with spaces.
pub open spec fn splice(text: Seq<u8>, pos: nat, d: Seq<u8>) -> Seq<u8> {
    let head = if text.len() < pos {
        text + spaces((pos - text.len()) as nat)
    } else {
        text.subrange(0, pos as int)
    };
    let tail = if pos + d.len() < text.len() {
        text.subrange((pos + d.len()) as int, text.len() as int)
    } else {
        Seq::empty()
    };
    head + d + tail
}

/// Outcome of writing `data` at column `pos` of a row of width `w`:
/// the new row, the number of input bytes used, and the column after.
pub open spec fn line_insert(line: LineView, data: Seq<u8>, pos: nat, w: nat) -> (LineView, nat, nat) {
    if pos >= w {
        (line, 0, pos)
    } else {
        let room = if w - pos < data.len() { (w - pos) as nat } else { data.len() };
        let search = if room + 1 < data.len() { room + 1 } else { data.len() };
        match newline_index(data, search) {
            Some(p) => {
                let copy = if p < room { p } else { room };
                (
                    LineView { text: splice(line.text, pos, data.subrange(0, copy as int)), newline: true },
                    p + 1,
                    w,
                )
            },
            None => (
                LineView { text: splice(line.text, pos, data.subrange(0, room as int)), newline: line.newline },
                room,
                pos + room,
            ),
        }
    }
}

/// `text` with `n` spaces opened at `pos`, cut back to `w` bytes.
pub open spec fn open_spaces(text: Seq<u8>, pos: nat, n: nat, w: nat) -> Seq<u8> {
    let n = if n < w - pos { n } else { (w - pos) as nat };
    if pos > text.len() {
        text
    } else {
        let moved = text.subrange(pos as int, text.len() as int);
        let grown = text.subrange(0, pos as int) + spaces(n) + moved;
        grown.subrange(0, if grown.len() < w { grown.len() as int } else { w as int })
    }
}

/// One row of the grid: `width` cells of which the first `len` are in use.
#[derive(Debug)]
pub struct Line {
    buf: Vec<u8>,
    len: usize,
    newline: bool,
}

pub struct LineInsertionResponse {
    /// How many bytes of the input were used.
    pub consumed: usize,
    /// Column of the cursor after the write; the width when the row is done.
    pub new_x_pos: usize,
}

impl View for Line {
    type V = LineView;

    closed spec fn view(&self) -> LineView {
        LineView { text: self.buf@.subrange(0, self.len as int), newline: self.newline }
    }
}

impl Line {
    pub closed spec fn wf(&self) -> bool {
        self.len <= self.buf.len()
    }

    pub closed spec fn width(&self) -> nat {
        self.buf.len() as nat
    }

    /// An empty row of `width` cells.
    pub fn new(width: usize) -> (r: Line)
        ensures
            r.wf(),
            r.width() == width,
            r@ == (LineView { text: Seq::empty(), newline: false }),
    {
        let r = Line { buf: vec![0u8; width], len: 0, newline: false };
        assert(r@.text =~= Seq::<u8>::empty());
        r
    }

    /// Whether the row's invariant holds, tested at run time.
    pub fn check_wf(&self) -> (r: bool)
        ensures
            r == self.wf(),
    {
        self.len <= self.buf.len()
    }

    pub proof fn lemma_wf(&self)
        requires
            self.wf(),
        ensures
            self@.text.len() <= self.width(),
    {
    }

    /// Number of cells in use.
    pub fn len(&self) -> (r: usize)
        requires
            self.wf(),
        ensures
            r == self@.text.len(),
    {
        self.len
    }

    /// Number of cells in the row.
    pub fn width_exec(&self) -> (r: usize)
        ensures
            r == self.width(),
    {
        self.buf.len()
    }

    pub fn has_newline(&self) -> (r: bool)
        ensures
            r == self@.newline,
    {
        self.newline
    }

    /// The row becomes a copy of `other`.
    pub fn copy_from_other(&mut self, other: &Line)
        requires
            other.wf(),
        ensures
            final(self).wf(),
            final(self)@ == other@,
            final(self).width() == other.width(),
    {
        self.buf = other.buf.clone();
        self.len = other.len;
        self.newline = other.newline;
        assert(self.buf@ == other.buf@);
    }

    /// Empties the row and forgets its newline.
    pub fn clear(&mut self)
        ensures
            final(self).width() == old(self).width(),
            final(self).wf(),
            final(self)@ == (LineView { text: Seq::empty(), newline: false }),
    {
        self.len = 0;
        self.newline = false;
        assert(self.buf@.subrange(0, 0) =~= Seq::<u8>::empty());
    }

    /// Keeps the first `x` bytes at most, and forgets the explicit newline.
    pub fn truncate(&mut self, x: usize)
        requires
            old(self).wf(),
        ensures
            final(self).width() == old(self).width(),
            final(self).wf(),
            final(self)@ == (LineView {
                text: old(self)@.text.subrange(0, if x < old(self)@.text.len() { x as int } else { old(self)@.text.len() as int }),
                newline: false,
            }),
    {
        if x < self.len {
            self.len = x;
        }
        self.newline = false;
        assert(self@.text =~= old(self)@.text.subrange(0, self.len as int));
    }

    /// The bytes in use.
    pub fn serialize(&self) -> (r: &[u8])
        requires
            self.wf(),
        ensures
            r@ == self@.text,
    {
        slice_subrange(self.buf.as_slice(), 0, self.len)
    }

    fn write_byte(&mut self, i: usize, b: u8)
        requires
            i < old(self).buf.len(),
        ensures
            final(self).buf@ == old(self).buf@.update(i as int, b),
            final(self).len == old(self).len,
            final(self).newline == old(self).newline,
    {
        self.buf.set(i, b);
    }

    /// Writes the first `copy` bytes of `data` from column `pos`, padding the
    /// row with spaces up to `pos` first.
    fn write_at(&mut self, data: &[u8], pos: usize, copy: usize)
        requires
            old(self).wf(),
            copy <= data.len(),
            pos + copy <= old(self).width(),
        ensures
            final(self).wf(),
            final(self).width() == old(self).width(),
            final(self)@ == (LineView {
                text: splice(old(self)@.text, pos as nat, data@.subrange(0, copy as int)),
                newline: old(self)@.newline,
            }),
    {
        let w = self.buf.len();
        let ghost old_text = self@.text;
        let ghost old_buf = self.buf@;
        let old_len = self.len;
        let mut k: usize = old_len;
        while k < pos
            invariant
                self.wf(),
                self.buf.len() == w,
                self.len == old_len,
                self.newline == old(self).newline,
                pos <= w,
                old_buf.len() == w,
                old_len <= k,
                k <= pos || k == old_len,
                forall|j: int|
                    0 <= j < w ==> self.buf@[j] == (if old_len <= j < k {
                        0x20u8
                    } else {
                        old_buf[j]
                    }),
            decreases pos - k,
        {
            self.write_byte(k, 0x20u8);
            k += 1;
        }
        let ghost filled = self.buf@;
        let mut j: usize = 0;
        while j < copy
            invariant
                self.wf(),
                self.buf.len() == w,
                self.len == old_len,
                self.newline == old(self).newline,
                pos + copy <= w,
                copy <= data.len(),
                filled.len() == w,
                forall|t: int| 0 <= t < pos ==> self.buf@[t] == filled[t],
                forall|t: int| pos + copy <= t < w ==> self.buf@[t] == filled[t],
                forall|t: int| 0 <= t < j ==> self.buf@[pos + t] == data@[t],
            decreases copy - j,
        {
            self.write_byte(pos + j, data[j]);
            j += 1;
        }
        if pos + copy > self.len {
            self.len = pos + copy;
        }
        proof {
            let d = data@.subrange(0, copy as int);
            let sp = splice(old_text, pos as nat, d);
            assert(sp.len() == self.len);
            assert forall|t: int| 0 <= t < self.len implies self@.text[t] == sp[t] by {
                if t < pos {
                    if t < old_len {
                        assert(filled[t] == old_buf[t]);
                    } else {
                        assert(filled[t] == 0x20u8);
                    }
                } else if t < pos + copy {
                    assert(self.buf@[pos + (t - pos)] == data@[t - pos]);
                } else {
                    assert(filled[t] == old_buf[t]);
                }
            }
            assert(self@.text =~= sp);
        }
    }

    /// Writes `data` from column `pos`, up to the end of the row or to the
    /// first newline, which is used up and marks the row as ended.
    pub fn insert_data(&mut self, data: &[u8], pos: usize) -> (r: LineInsertionResponse)
        requires
            old(self).wf(),
        ensures
            final(self).wf(),
            final(self).width() == old(self).width(),
            (final(self)@, r.consumed as nat, r.new_x_pos as nat) == line_insert(
                old(self)@,
                data@,
                pos as nat,
                old(self).width(),
            ),
    {
        let w = self.buf.len();
        if pos >= w {
            return LineInsertionResponse { consumed: 0, new_x_pos: pos };
        }
        let room: usize = if w - pos < data.len() { w - pos } else { data.len() };
        let search: usize = if room < data.len() { room + 1 } else { data.len() };
        let found = find_newline(data, search);
        let copy: usize = match found {
            Some(p) => if p < room { p } else { room },
            None => room,
        };
        self.write_at(data, pos, copy);
        match found {
            Some(p) => {
                self.newline = true;
                LineInsertionResponse { consumed: p + 1, new_x_pos: w }
            },
            None => LineInsertionResponse { consumed: copy, new_x_pos: pos + copy },
        }
    }
}

impl Line {
    /// Opens `num_spaces` blank cells at `pos`, pushing the bytes from `pos`
    /// on to the right; what is pushed past the end of the row is lost.
    /// Nothing happens where `pos` lies beyond the bytes in use.
    pub fn insert_spaces(&mut self, pos: usize, num_spaces: usize)
        requires
            old(self).wf(),
        ensures
            final(self).wf(),
            final(self).width() == old(self).width(),
            final(self)@ == (LineView {
                text: open_spaces(old(self)@.text, pos as nat, num_spaces as nat, old(self).width()),
                newline: old(self)@.newline,
            }),
    {
        let w = self.buf.len();
        let len = self.len;
        if pos > len {
            return;
        }
        let ns: usize = if num_spaces < w - pos { num_spaces } else { w - pos };
        let dest_end: usize = if len < w - ns { ns + len } else { w };
        let copy_len: usize = dest_end - pos - ns;
        let ghost old_buf = self.buf@;
        let mut t: usize = copy_len;
        while t > 0
            invariant
                self.wf(),
                self.len == len,
                self.newline == old(self).newline,
                self.buf.len() == w,
                old_buf.len() == w,
                t <= copy_len,
                pos + ns + copy_len == dest_end <= w,
                forall|i: int| 0 <= i < pos + ns + t ==> self.buf@[i] == old_buf[i],
                forall|i: int| pos + ns + t <= i < dest_end ==> self.buf@[i] == old_buf[i - ns],
                forall|i: int| dest_end <= i < w ==> self.buf@[i] == old_buf[i],
            decreases t,
        {
            t -= 1;
            let b = self.buf[pos + t];
            self.write_byte(pos + ns + t, b);
        }
        let ghost shifted = self.buf@;
        let mut k: usize = 0;
        while k < ns
            invariant
                self.wf(),
                self.len == len,
                self.newline == old(self).newline,
                self.buf.len() == w,
                shifted.len() == w,
                pos + ns <= w,
                forall|i: int| 0 <= i < pos ==> self.buf@[i] == shifted[i],
                forall|i: int| pos <= i < pos + k ==> self.buf@[i] == 0x20u8,
                forall|i: int| pos + ns <= i < w ==> self.buf@[i] == shifted[i],
            decreases ns - k,
        {
            self.write_byte(pos + k, 0x20u8);
            k += 1;
        }
        self.len = dest_end;
        proof {
            let text = old(self)@.text;
            let grown = text.subrange(0, pos as int) + spaces(ns as nat) + text.subrange(pos as int, text.len() as int);
            let spec_ns: nat = if (num_spaces as nat) < w - pos { num_spaces as nat } else { (w - pos) as nat };
            assert(spec_ns == ns);
            assert forall|i: int| 0 <= i < dest_end implies self@.text[i] == grown[i] by {
                if i < pos {
                } else if i < pos + ns {
                } else {
                    assert(shifted[i] == old_buf[i - ns]);
                }
            }
            assert(self@.text =~= grown.subrange(0, if grown.len() < w { grown.len() as int } else { w as int }));
        }
    }

    /// Removes up to `num_chars` bytes from `x` on, pulling what follows to the
    /// left. Nothing happens where `x` lies beyond the bytes in use.
    pub fn delete(&mut self, x: usize, num_chars: usize)
        requires
            old(self).wf(),
        ensures
            final(self).wf(),
            final(self).width() == old(self).width(),
            final(self)@ == (LineView { text: remove_range(old(self)@.text, x as nat, num_chars as nat), newline: old(self)@.newline }),
    {
        let len = self.len;
        if x > len {
            return;
        }
        let n: usize = if num_chars < len - x { num_chars } else { len - x };
        let ghost old_buf = self.buf@;
        let mut t: usize = 0;
        while t < len - x - n
            invariant
                self.wf(),
                self.len == len,
                self.newline == old(self).newline,
                self.buf.len() == old_buf.len(),
                x + n <= len <= old_buf.len(),
                forall|i: int| 0 <= i < x ==> self.buf@[i] == old_buf[i],
                forall|i: int| x <= i < x + t ==> self.buf@[i] == old_buf[i + n],
                forall|i: int| x + t <= i < old_buf.len() ==> self.buf@[i] == old_buf[i],
            decreases len - x - n - t,
        {
            let b = self.buf[x + n + t];
            self.write_byte(x + t, b);
            t += 1;
        }
        self.len = len - n;
        assert(self@.text =~= remove_range(old(self)@.text, x as nat, num_chars as nat));
    }
}

impl Line {
    /// The row holds `text` and the newline flag `newline`.
    pub fn assign(&mut self, text: &[u8], newline: bool)
        requires
            old(self).wf(),
            text@.len() <= old(self).width(),
        ensures
            final(self).wf(),
            final(self).width() == old(self).width(),
            final(self)@ == (LineView { text: text@, newline }),
    {
        self.len = 0;
        self.write_at(text, 0, text.len());
        self.newline = newline;
        assert(text@.subrange(0, text@.len() as int) =~= text@);
        assert(splice(Seq::empty(), 0, text@) =~= text@);
        assert(self.buf@.subrange(0, 0) =~= Seq::<u8>::empty());
    }
}

/// `text` without up to `n` bytes from `x` on; unchanged where `x` lies beyond it.
pub open spec fn remove_range(text: Seq<u8>, x: nat, n: nat) -> Seq<u8> {
    if x > text.len() {
        text
    } else {
        let end = if x + n < text.len() { x + n } else { text.len() };
        text.subrange(0, x as int) + text.subrange(end as int, text.len() as int)
    }
}

/// Position of the first newline among the first `n` bytes of `data`.
fn find_newline(data: &[u8], n: usize) -> (r: Option<usize>)
    requires
        n <= data.len(),
    ensures
        match r {
            Some(p) => newline_index(data@, n as nat) == Some(p as nat) && p < n,
            None => newline_index(data@, n as nat).is_none(),
        },
{
    let mut i: usize = 0;
    while i < n
        invariant
            i <= n <= data.len(),
            newline_index(data@, i as nat).is_none(),
        decreases n - i,
    {
        if data[i] == 0x0a {
            assert(newline_index(data@, (i + 1) as nat) == Some(i as nat));
            proof {
                lemma_newline_index_stays(data@, (i + 1) as nat, n as nat);
            }
            return Some(i);
        }
        i += 1;
    }
    None
}

pub proof fn lemma_newline_index_bound(s: Seq<u8>, n: nat)
    ensures
        newline_index(s, n) matches Some(p) ==> p < n && s[p as int] == 0x0a,
    decreases n,
{
    if n > 0 {
        lemma_newline_index_bound(s, (n - 1) as nat);
    }
}

/// A write never uses more bytes than it is given, and uses at least one
/// where the column lies inside the row and there is something to write.
pub proof fn lemma_line_insert_consumed(line: LineView, data: Seq<u8>, pos: nat, w: nat)
    ensures
        line_insert(line, data, pos, w).1 <= data.len(),
        pos < w && data.len() > 0 ==> line_insert(line, data, pos, w).1 > 0,
{
    let room = if w - pos < data.len() { (w - pos) as nat } else { data.len() };
    let search = if room + 1 < data.len() { room + 1 } else { data.len() };
    lemma_newline_index_bound(data, search);
}

proof fn lemma_newline_index_stays(s: Seq<u8>, n: nat, m: nat)
    requires
        n <= m,
        newline_index(s, n).is_some(),
    ensures
        newline_index(s, m) == newline_index(s, n),
    decreases m - n,
{
    if n < m {
        lemma_newline_index_stays(s, n, (m - 1) as nat);
    }
}

} // verus!
