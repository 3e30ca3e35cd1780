use vstd::prelude::*;

use crate::snapshot::{as_bytes, as_usize, bytes_item, field, get_field, key_string, lemma_entry_at, read_bytes, read_usize, SnapshotItem};

verus! {

/// A text style change of a `CSI ... m` sequence.
#[derive(Debug, Clone, Copy, PartialEq, Eq, Structural)]
pub enum SelectGraphicRendition {
    Reset,
    Bold,
    ForegroundBlack,
    ForegroundRed,
    ForegroundGreen,
    ForegroundYellow,
    ForegroundBlue,
    ForegroundMagenta,
    ForegroundCyan,
    ForegroundWhite,
    Unknown(usize),
}

pub open spec fn sgr_of(code: usize) -> SelectGraphicRendition {
    if code == 0 {
        SelectGraphicRendition::Reset
    } else if code == 1 {
        SelectGraphicRendition::Bold
    } else if code == 30 {
        SelectGraphicRendition::ForegroundBlack
    } else if code == 31 {
        SelectGraphicRendition::ForegroundRed
    } else if code == 32 {
        SelectGraphicRendition::ForegroundGreen
    } else if code == 33 {
        SelectGraphicRendition::ForegroundYellow
    } else if code == 34 {
        SelectGraphicRendition::ForegroundBlue
    } else if code == 35 {
        SelectGraphicRendition::ForegroundMagenta
    } else if code == 36 {
        SelectGraphicRendition::ForegroundCyan
    } else if code == 37 {
        SelectGraphicRendition::ForegroundWhite
    } else {
        SelectGraphicRendition::Unknown(code)
    }
}

impl SelectGraphicRendition {
    /// The style change of a numeric `CSI ... m` parameter.
    pub fn from_usize(code: usize) -> (r: SelectGraphicRendition)
        ensures
            r == sgr_of(code),
    {
        match code {
            0 => SelectGraphicRendition::Reset,
            1 => SelectGraphicRendition::Bold,
            30 => SelectGraphicRendition::ForegroundBlack,
            31 => SelectGraphicRendition::ForegroundRed,
            32 => SelectGraphicRendition::ForegroundGreen,
            33 => SelectGraphicRendition::ForegroundYellow,
            34 => SelectGraphicRendition::ForegroundBlue,
            35 => SelectGraphicRendition::ForegroundMagenta,
            36 => SelectGraphicRendition::ForegroundCyan,
            37 => SelectGraphicRendition::ForegroundWhite,
            _ => SelectGraphicRendition::Unknown(code),
        }
    }
}

/// A terminal mode of `CSI ? ... h` and `CSI ? ... l`.
#[derive(Debug, PartialEq, Eq)]
pub enum Mode {
    /// Cursor keys send application sequences.
    Decckm,
    /// Any other mode, with its parameter bytes.
    Unknown(Vec<u8>),
}

pub enum ModeView {
    Decckm,
    Unknown(Seq<u8>),
}

impl View for Mode {
    type V = ModeView;

    open spec fn view(&self) -> ModeView {
        match self {
            Mode::Decckm => ModeView::Decckm,
            Mode::Unknown(p) => ModeView::Unknown(p@),
        }
    }
}

/// What the parser makes of the byte stream.
#[derive(Debug, PartialEq, Eq)]
pub enum TerminalOutput {
    /// Printable bytes, in order.
    Data(Vec<u8>),
    /// Move the cursor to column `x`, row `y`, both counted from 1.
    SetCursorPos { x: Option<usize>, y: Option<usize> },
    /// Move the cursor by `x` columns and `y` rows.
    SetCursorPosRel { x: Option<i32>, y: Option<i32> },
    ClearForwards,
    ClearAll,
    ClearLineForwards,
    CarriageReturn,
    Newline,
    Backspace,
    InsertLines(usize),
    InsertSpaces(usize),
    Delete(usize),
    Sgr(SelectGraphicRendition),
    SetMode(Mode),
    ResetMode(Mode),
    Invalid,
}

/// An output event, with byte strings as sequences.
pub enum Event {
    Data(Seq<u8>),
    SetCursorPos { x: Option<usize>, y: Option<usize> },
    SetCursorPosRel { x: Option<i32>, y: Option<i32> },
    ClearForwards,
    ClearAll,
    ClearLineForwards,
    CarriageReturn,
    Newline,
    Backspace,
    InsertLines(usize),
    InsertSpaces(usize),
    Delete(usize),
    Sgr(SelectGraphicRendition),
    SetMode(ModeView),
    ResetMode(ModeView),
    Invalid,
}

impl View for TerminalOutput {
    type V = Event;

    open spec fn view(&self) -> Event {
        match self {
            TerminalOutput::Data(d) => Event::Data(d@),
            TerminalOutput::SetCursorPos { x, y } => Event::SetCursorPos { x: *x, y: *y },
            TerminalOutput::SetCursorPosRel { x, y } => Event::SetCursorPosRel { x: *x, y: *y },
            TerminalOutput::ClearForwards => Event::ClearForwards,
            TerminalOutput::ClearAll => Event::ClearAll,
            TerminalOutput::ClearLineForwards => Event::ClearLineForwards,
            TerminalOutput::CarriageReturn => Event::CarriageReturn,
            TerminalOutput::Newline => Event::Newline,
            TerminalOutput::Backspace => Event::Backspace,
            TerminalOutput::InsertLines(n) => Event::InsertLines(*n),
            TerminalOutput::InsertSpaces(n) => Event::InsertSpaces(*n),
            TerminalOutput::Delete(n) => Event::Delete(*n),
            TerminalOutput::Sgr(s) => Event::Sgr(*s),
            TerminalOutput::SetMode(m) => Event::SetMode(m@),
            TerminalOutput::ResetMode(m) => Event::ResetMode(m@),
            TerminalOutput::Invalid => Event::Invalid,
        }
    }
}

pub open spec fn views(s: Seq<TerminalOutput>) -> Seq<Event> {
    Seq::new(s.len(), |i: int| s[i]@)
}

#[derive(Debug, Clone, Copy, PartialEq, Eq, Structural)]
pub enum AnsiParserInner {
    Empty,
    Escape,
    CsiEntry,
    CsiParam,
    CsiIntermediate,
}

/// The parser's state: where it is in a sequence, the parameter and
/// intermediate bytes of the control sequence read so far, and the run of
/// printable bytes not yet handed out.
pub struct ParserView {
    pub inner: AnsiParserInner,
    pub params: Seq<u8>,
    pub intermediates: Seq<u8>,
    pub pending: Seq<u8>,
}

pub open spec fn is_param_byte(b: u8) -> bool {
    0x30 <= b <= 0x3f
}

pub open spec fn is_intermediate_byte(b: u8) -> bool {
    0x20 <= b <= 0x2f
}

pub open spec fn is_final_byte(b: u8) -> bool {
    0x40 <= b <= 0x7e
}

pub open spec fn ground() -> ParserView {
    ParserView { inner: AnsiParserInner::Empty, params: Seq::empty(), intermediates: Seq::empty(), pending: Seq::empty() }
}

/// Back outside any sequence, the pending run kept.
pub open spec fn reset(s: ParserView) -> ParserView {
    ParserView { inner: AnsiParserInner::Empty, params: Seq::empty(), intermediates: Seq::empty(), ..s }
}

/// The pending run of printable bytes as an event, where there is one.
pub open spec fn pending_events(p: Seq<u8>) -> Seq<Event> {
    if p.len() > 0 {
        seq![Event::Data(p)]
    } else {
        Seq::empty()
    }
}

/// The numbers of a parameter string: decimal digits, `;` between
/// parameters, an empty parameter where nothing stands; `None` where another
/// byte occurs. Values saturate at the largest `usize`.
pub struct ParamAcc {
    pub done: Seq<Option<usize>>,
    pub cur: Option<usize>,
    pub ok: bool,
}

pub open spec fn digit_step(cur: Option<usize>, b: u8) -> usize {
    let v: int = match cur {
        Some(v) => v as int,
        None => 0,
    };
    let n = v * 10 + (b - 0x30);
    if n > usize::MAX {
        usize::MAX
    } else {
        n as usize
    }
}

pub open spec fn params_fold(p: Seq<u8>) -> ParamAcc
    decreases p.len(),
{
    if p.len() == 0 {
        ParamAcc { done: Seq::empty(), cur: None, ok: true }
    } else {
        let a = params_fold(p.drop_last());
        let b = p.last();
        if !a.ok {
            a
        } else if 0x30 <= b <= 0x39 {
            ParamAcc { cur: Some(digit_step(a.cur, b)), ..a }
        } else if b == 0x3b {
            ParamAcc { done: a.done.push(a.cur), cur: None, ok: true }
        } else {
            ParamAcc { ok: false, ..a }
        }
    }
}

pub open spec fn parse_params(p: Seq<u8>) -> Option<Seq<Option<usize>>> {
    let a = params_fold(p);
    if a.ok {
        Some(a.done.push(a.cur))
    } else {
        None
    }
}

/// A count parameter: absent or zero mean one.
pub open spec fn count_of(v: Option<usize>) -> usize {
    match v {
        Some(n) => if n == 0 {
            1
        } else {
            n
        },
        None => 1,
    }
}

pub open spec fn clamp_i32(n: usize) -> i32 {
    if n > i32::MAX {
        i32::MAX
    } else {
        n as i32
    }
}

pub open spec fn mode_of(p: Seq<u8>) -> ModeView {
    if p =~= seq![0x3fu8, 0x31u8] {
        ModeView::Decckm
    } else {
        ModeView::Unknown(p)
    }
}

/// The events of a control sequence with parameter bytes `p` and final byte `f`.
pub open spec fn csi_events(p: Seq<u8>, f: u8) -> Seq<Event> {
    if f == 0x68 {
        seq![Event::SetMode(mode_of(p))]
    } else if f == 0x6c {
        seq![Event::ResetMode(mode_of(p))]
    } else {
        match parse_params(p) {
            None => seq![Event::Invalid],
            Some(v) => {
                let first = v[0];
                if f == 0x48 || f == 0x66 {
                    let col = if v.len() > 1 { v[1] } else { None };
                    seq![Event::SetCursorPos { x: Some(count_of(col)), y: Some(count_of(first)) }]
                } else if f == 0x41 {
                    seq![Event::SetCursorPosRel { x: None, y: Some((-clamp_i32(count_of(first))) as i32) }]
                } else if f == 0x42 {
                    seq![Event::SetCursorPosRel { x: None, y: Some(clamp_i32(count_of(first))) }]
                } else if f == 0x43 {
                    seq![Event::SetCursorPosRel { x: Some(clamp_i32(count_of(first))), y: None }]
                } else if f == 0x44 {
                    seq![Event::SetCursorPosRel { x: Some((-clamp_i32(count_of(first))) as i32), y: None }]
                } else if f == 0x4a {
                    if first == Some(0usize) || first.is_none() {
                        seq![Event::ClearForwards]
                    } else if first == Some(2usize) {
                        seq![Event::ClearAll]
                    } else {
                        seq![Event::Invalid]
                    }
                } else if f == 0x4b {
                    if first == Some(0usize) || first.is_none() {
                        seq![Event::ClearLineForwards]
                    } else {
                        seq![Event::Invalid]
                    }
                } else if f == 0x4c {
                    seq![Event::InsertLines(count_of(first))]
                } else if f == 0x40 {
                    seq![Event::InsertSpaces(count_of(first))]
                } else if f == 0x50 {
                    seq![Event::Delete(count_of(first))]
                } else if f == 0x6d {
                    Seq::new(
                        v.len(),
                        |i: int|
                            Event::Sgr(
                                sgr_of(
                                    match v[i] {
                                        Some(n) => n,
                                        None => 0,
                                    },
                                ),
                            ),
                    )
                } else {
                    seq![Event::Invalid]
                }
            },
        }
    }
}

/// One byte through the parser: the next state and the events it gives.
/// A printable byte joins the pending run; any other byte outside a sequence
/// first hands the pending run out as one `Data` event.
pub open spec fn step(s: ParserView, b: u8) -> (ParserView, Seq<Event>) {
    match s.inner {
        AnsiParserInner::Empty => if b == 0x1b {
            (ParserView { inner: AnsiParserInner::Escape, pending: Seq::empty(), ..s }, pending_events(s.pending))
        } else if b == 0x0a {
            (ParserView { pending: Seq::empty(), ..s }, pending_events(s.pending).push(Event::Newline))
        } else if b == 0x0d {
            (ParserView { pending: Seq::empty(), ..s }, pending_events(s.pending).push(Event::CarriageReturn))
        } else if b == 0x08 {
            (ParserView { pending: Seq::empty(), ..s }, pending_events(s.pending).push(Event::Backspace))
        } else {
            (ParserView { pending: s.pending.push(b), ..s }, Seq::empty())
        },
        AnsiParserInner::Escape => if b == 0x5b {
            (ParserView { inner: AnsiParserInner::CsiEntry, params: Seq::empty(), intermediates: Seq::empty(), ..s }, Seq::empty())
        } else {
            (reset(s), seq![Event::Invalid])
        },
        AnsiParserInner::CsiEntry | AnsiParserInner::CsiParam => if is_param_byte(b) {
            (ParserView { inner: AnsiParserInner::CsiParam, params: s.params.push(b), ..s }, Seq::empty())
        } else if is_intermediate_byte(b) {
            (ParserView { inner: AnsiParserInner::CsiIntermediate, intermediates: s.intermediates.push(b), ..s }, Seq::empty())
        } else if is_final_byte(b) {
            (reset(s), csi_events(s.params, b))
        } else {
            (reset(s), seq![Event::Invalid])
        },
        AnsiParserInner::CsiIntermediate => if is_intermediate_byte(b) {
            (ParserView { intermediates: s.intermediates.push(b), ..s }, Seq::empty())
        } else {
            (reset(s), seq![Event::Invalid])
        },
    }
}

/// A byte string through the parser, one byte at a time.
pub open spec fn run(s: ParserView, bytes: Seq<u8>) -> (ParserView, Seq<Event>)
    decreases bytes.len(),
{
    if bytes.len() == 0 {
        (s, Seq::empty())
    } else {
        let (s1, e1) = run(s, bytes.drop_last());
        let (s2, e2) = step(s1, bytes.last());
        (s2, e1 + e2)
    }
}

/// Reads the streamed output of a shell: control characters and `CSI`
/// sequences become events, printable bytes become `Data`.
pub struct AnsiParser {
    inner: AnsiParserInner,
    params: Vec<u8>,
    intermediates: Vec<u8>,
    pending: Vec<u8>,
}

impl View for AnsiParser {
    type V = ParserView;

    closed spec fn view(&self) -> ParserView {
        ParserView { inner: self.inner, params: self.params@, intermediates: self.intermediates@, pending: self.pending@ }
    }
}

/// The numbers of a parameter string.
fn parse_param_values(p: &[u8]) -> (r: Option<Vec<Option<usize>>>)
    ensures
        match r {
            Some(v) => parse_params(p@) == Some(v@),
            None => parse_params(p@).is_none(),
        },
{
    let mut done: Vec<Option<usize>> = Vec::new();
    let mut cur: Option<usize> = None;
    let mut i: usize = 0;
    while i < p.len()
        invariant
            i <= p.len(),
            params_fold(p@.subrange(0, i as int)) == (ParamAcc { done: done@, cur, ok: true }),
        decreases p.len() - i,
    {
        let b = p[i];
        assert(p@.subrange(0, i + 1).drop_last() =~= p@.subrange(0, i as int));
        if b >= 0x30 && b <= 0x39 {
            cur = Some(digit_exec(cur, b));
        } else if b == 0x3b {
            done.push(cur);
            cur = None;
        } else {
            proof {
                lemma_params_fold_fails(p@, (i + 1) as nat);
            }
            assert(p@.subrange(0, p@.len() as int) =~= p@);
            return None;
        }
        i += 1;
    }
    assert(p@.subrange(0, p@.len() as int) =~= p@);
    done.push(cur);
    Some(done)
}

fn digit_exec(cur: Option<usize>, b: u8) -> (r: usize)
    requires
        0x30 <= b <= 0x39,
    ensures
        r == digit_step(cur, b),
{
    let v: usize = match cur {
        Some(v) => v,
        None => 0,
    };
    let d = (b - 0x30) as usize;
    if v > (usize::MAX - d) / 10 {
        assert(v * 10 + d > usize::MAX) by (nonlinear_arith)
            requires
                v > (usize::MAX - d) / 10,
                d <= 9,
        ;
        usize::MAX
    } else {
        assert(v * 10 + d <= usize::MAX) by (nonlinear_arith)
            requires
                v <= (usize::MAX - d) / 10,
                d <= 9,
        ;
        v * 10 + d
    }
}

proof fn lemma_params_fold_fails(p: Seq<u8>, n: nat)
    requires
        n <= p.len(),
        !params_fold(p.subrange(0, n as int)).ok,
    ensures
        !params_fold(p).ok,
    decreases p.len() - n,
{
    if n < p.len() {
        assert(p.subrange(0, (n + 1) as int).drop_last() =~= p.subrange(0, n as int));
        lemma_params_fold_fails(p, n + 1);
    } else {
        assert(p.subrange(0, n as int) =~= p);
    }
}

fn count_exec(v: Option<usize>) -> (r: usize)
    ensures
        r == count_of(v),
{
    match v {
        Some(n) => if n == 0 {
            1
        } else {
            n
        },
        None => 1,
    }
}

fn clamp_exec(n: usize) -> (r: i32)
    ensures
        r == clamp_i32(n),
{
    if n > i32::MAX as usize {
        i32::MAX
    } else {
        n as i32
    }
}

fn mode_exec(p: &[u8]) -> (r: Mode)
    ensures
        r@ == mode_of(p@),
{
    if p.len() == 2 && p[0] == 0x3f && p[1] == 0x31 {
        assert(p@ =~= seq![0x3fu8, 0x31u8]);
        Mode::Decckm
    } else {
        let mut v: Vec<u8> = Vec::new();
        crate::visible::append_bytes(&mut v, p);
        assert(v@ =~= p@);
        assert(!(p@ =~= seq![0x3fu8, 0x31u8]));
        Mode::Unknown(v)
    }
}

/// Appends the events of the control sequence with parameter bytes `p` and
/// final byte `f`.
fn csi_dispatch(p: &[u8], f: u8, out: &mut Vec<TerminalOutput>)
    ensures
        views(final(out)@) == views(old(out)@) + csi_events(p@, f),
{
    let ghost before = views(out@);
    if f == 0x68 {
        out.push(TerminalOutput::SetMode(mode_exec(p)));
        assert(views(out@) =~= before + csi_events(p@, f));
        return;
    }
    if f == 0x6c {
        out.push(TerminalOutput::ResetMode(mode_exec(p)));
        assert(views(out@) =~= before + csi_events(p@, f));
        return;
    }
    let v = match parse_param_values(p) {
        Some(v) => v,
        None => {
            out.push(TerminalOutput::Invalid);
            assert(views(out@) =~= before + csi_events(p@, f));
            return;
        },
    };
    let first = v[0];
    if f == 0x48 || f == 0x66 {
        let col = if v.len() > 1 { v[1] } else { None };
        out.push(TerminalOutput::SetCursorPos { x: Some(count_exec(col)), y: Some(count_exec(first)) });
    } else if f == 0x41 {
        out.push(TerminalOutput::SetCursorPosRel { x: None, y: Some(-clamp_exec(count_exec(first))) });
    } else if f == 0x42 {
        out.push(TerminalOutput::SetCursorPosRel { x: None, y: Some(clamp_exec(count_exec(first))) });
    } else if f == 0x43 {
        out.push(TerminalOutput::SetCursorPosRel { x: Some(clamp_exec(count_exec(first))), y: None });
    } else if f == 0x44 {
        out.push(TerminalOutput::SetCursorPosRel { x: Some(-clamp_exec(count_exec(first))), y: None });
    } else if f == 0x4a {
        if first == Some(0usize) || first.is_none() {
            out.push(TerminalOutput::ClearForwards);
        } else if first == Some(2usize) {
            out.push(TerminalOutput::ClearAll);
        } else {
            out.push(TerminalOutput::Invalid);
        }
    } else if f == 0x4b {
        if first == Some(0usize) || first.is_none() {
            out.push(TerminalOutput::ClearLineForwards);
        } else {
            out.push(TerminalOutput::Invalid);
        }
    } else if f == 0x4c {
        out.push(TerminalOutput::InsertLines(count_exec(first)));
    } else if f == 0x40 {
        out.push(TerminalOutput::InsertSpaces(count_exec(first)));
    } else if f == 0x50 {
        out.push(TerminalOutput::Delete(count_exec(first)));
    } else if f == 0x6d {
        let mut i: usize = 0;
        let ghost target = csi_events(p@, f);
        assert(target == Seq::new(
            v@.len(),
            |k: int|
                Event::Sgr(
                    sgr_of(
                        match v@[k] {
                            Some(n) => n,
                            None => 0,
                        },
                    ),
                ),
        ));
        while i < v.len()
            invariant
                i <= v@.len(),
                parse_params(p@) == Some(v@),
                f == 0x6d,
                target == Seq::new(
                    v@.len(),
                    |k: int|
                        Event::Sgr(
                            sgr_of(
                                match v@[k] {
                                    Some(n) => n,
                                    None => 0,
                                },
                            ),
                        ),
                ),
                views(out@) =~= before + target.subrange(0, i as int),
            decreases v.len() - i,
        {
            let code = match v[i] {
                Some(n) => n,
                None => 0,
            };
            let ghost o0 = views(out@);
            let sgr = SelectGraphicRendition::from_usize(code);
            out.push(TerminalOutput::Sgr(sgr));
            assert(views(out@) =~= o0.push(Event::Sgr(sgr)));
            assert(target[i as int] == Event::Sgr(sgr));
            i += 1;
            assert(views(out@) =~= before + target.subrange(0, i as int));
        }
        assert(target.subrange(0, v@.len() as int) =~= target);
        return;
    } else {
        out.push(TerminalOutput::Invalid);
    }
    assert(views(out@) =~= before + csi_events(p@, f));
}

impl AnsiParser {
    /// A parser outside any sequence.
    pub fn new() -> (r: AnsiParser)
        ensures
            r@ == ground(),
    {
        AnsiParser { inner: AnsiParserInner::Empty, params: Vec::new(), intermediates: Vec::new(), pending: Vec::new() }
    }

    /// Hands the pending run out, as one `Data` event, into `out`.
    fn flush_into(&mut self, out: &mut Vec<TerminalOutput>)
        ensures
            final(self)@ == (ParserView { pending: Seq::empty(), ..old(self)@ }),
            views(final(out)@) == views(old(out)@) + pending_events(old(self)@.pending),
    {
        let ghost o0 = views(out@);
        if self.pending.len() > 0 {
            let mut d: Vec<u8> = Vec::new();
            std::mem::swap(&mut self.pending, &mut d);
            out.push(TerminalOutput::Data(d));
            assert(views(out@) =~= o0 + pending_events(old(self)@.pending));
        } else {
            assert(views(out@) =~= o0 + pending_events(old(self)@.pending));
        }
        assert(self@.pending =~= Seq::<u8>::empty());
    }

    fn reset_state(&mut self)
        ensures
            final(self)@ == reset(old(self)@),
    {
        self.inner = AnsiParserInner::Empty;
        self.params = Vec::new();
        self.intermediates = Vec::new();
        assert(self@.params =~= Seq::<u8>::empty());
        assert(self@.intermediates =~= Seq::<u8>::empty());
    }

    /// One byte through the parser, its events appended to `out`.
    fn push_byte(&mut self, b: u8, out: &mut Vec<TerminalOutput>)
        ensures
            final(self)@ == step(old(self)@, b).0,
            views(final(out)@) == views(old(out)@) + step(old(self)@, b).1,
    {
        let ghost o0 = views(out@);
        match self.inner {
            AnsiParserInner::Empty => {
                if b == 0x1b || b == 0x0a || b == 0x0d || b == 0x08 {
                    self.flush_into(out);
                    let ghost o1 = views(out@);
                    if b == 0x1b {
                        self.inner = AnsiParserInner::Escape;
                        assert(views(out@) =~= o0 + step(old(self)@, b).1);
                    } else {
                        let ev = if b == 0x0a {
                            TerminalOutput::Newline
                        } else if b == 0x0d {
                            TerminalOutput::CarriageReturn
                        } else {
                            TerminalOutput::Backspace
                        };
                        let ghost evv = ev@;
                        out.push(ev);
                        assert(views(out@) =~= o1.push(evv));
                        assert(views(out@) =~= o0 + step(old(self)@, b).1);
                    }
                } else {
                    self.pending.push(b);
                    assert(views(out@) =~= o0 + step(old(self)@, b).1);
                }
            },
            AnsiParserInner::Escape => {
                if b == 0x5b {
                    self.inner = AnsiParserInner::CsiEntry;
                    self.params = Vec::new();
                    self.intermediates = Vec::new();
                    assert(self@.params =~= Seq::<u8>::empty());
                    assert(self@.intermediates =~= Seq::<u8>::empty());
                    assert(views(out@) =~= o0 + step(old(self)@, b).1);
                } else {
                    self.reset_state();
                    out.push(TerminalOutput::Invalid);
                    assert(views(out@) =~= o0 + step(old(self)@, b).1);
                }
            },
            AnsiParserInner::CsiEntry | AnsiParserInner::CsiParam => {
                if 0x30 <= b && b <= 0x3f {
                    self.inner = AnsiParserInner::CsiParam;
                    self.params.push(b);
                    assert(views(out@) =~= o0 + step(old(self)@, b).1);
                } else if 0x20 <= b && b <= 0x2f {
                    self.inner = AnsiParserInner::CsiIntermediate;
                    self.intermediates.push(b);
                    assert(views(out@) =~= o0 + step(old(self)@, b).1);
                } else if 0x40 <= b && b <= 0x7e {
                    csi_dispatch(self.params.as_slice(), b, out);
                    self.reset_state();
                } else {
                    self.reset_state();
                    out.push(TerminalOutput::Invalid);
                    assert(views(out@) =~= o0 + step(old(self)@, b).1);
                }
            },
            AnsiParserInner::CsiIntermediate => {
                if 0x20 <= b && b <= 0x2f {
                    self.intermediates.push(b);
                    assert(views(out@) =~= o0 + step(old(self)@, b).1);
                } else {
                    self.reset_state();
                    out.push(TerminalOutput::Invalid);
                    assert(views(out@) =~= o0 + step(old(self)@, b).1);
                }
            },
        }
    }

    /// Feeds `incoming` through the parser and returns the events of its
    /// bytes, in order. A run of printable bytes stays pending until a byte
    /// that ends it arrives, so that it comes out as one `Data` event
    /// however the input is split.
    pub fn push(&mut self, incoming: &[u8]) -> (r: Vec<TerminalOutput>)
        ensures
            final(self)@ == run(old(self)@, incoming@).0,
            views(r@) == run(old(self)@, incoming@).1,
    {
        let mut out: Vec<TerminalOutput> = Vec::new();
        let mut i: usize = 0;
        assert(incoming@.subrange(0, 0) =~= Seq::<u8>::empty());
        assert(views(out@) =~= Seq::<Event>::empty());
        while i < incoming.len()
            invariant
                i <= incoming@.len(),
                self@ == run(old(self)@, incoming@.subrange(0, i as int)).0,
                views(out@) == run(old(self)@, incoming@.subrange(0, i as int)).1,
            decreases incoming.len() - i,
        {
            assert(incoming@.subrange(0, i + 1).drop_last() =~= incoming@.subrange(0, i as int));
            assert(incoming@.subrange(0, i + 1).last() == incoming@[i as int]);
            self.push_byte(incoming[i], &mut out);
            i += 1;
        }
        assert(incoming@.subrange(0, incoming@.len() as int) =~= incoming@);
        out
    }

    /// Hands out the pending run of printable bytes, if any, as one `Data`
    /// event; for when no more input is at hand.
    pub fn flush(&mut self) -> (r: Vec<TerminalOutput>)
        ensures
            final(self)@ == (ParserView { pending: Seq::empty(), ..old(self)@ }),
            views(r@) == pending_events(old(self)@.pending),
    {
        let mut out: Vec<TerminalOutput> = Vec::new();
        assert(views(out@) =~= Seq::<Event>::empty());
        self.flush_into(&mut out);
        assert(views(out@) =~= pending_events(old(self)@.pending));
        out
    }
}

/// Splitting the input anywhere changes nothing: feeding `a` and then `b`
/// leaves the parser in the state, and gives the events, of feeding `a + b`
/// at once. By induction, so does feeding the bytes one at a time.
pub proof fn lemma_split_invariance(s: ParserView, a: Seq<u8>, b: Seq<u8>)
    ensures
        run(s, a + b).0 == run(run(s, a).0, b).0,
        run(s, a + b).1 == run(s, a).1 + run(run(s, a).0, b).1,
    decreases b.len(),
{
    if b.len() == 0 {
        assert(a + b =~= a);
        assert(run(s, a).1 + run(run(s, a).0, b).1 =~= run(s, a).1);
    } else {
        assert((a + b).drop_last() =~= a + b.drop_last());
        assert((a + b).last() == b.last());
        lemma_split_invariance(s, a, b.drop_last());
        let mid = run(s, a).0;
        let (s1, e1) = run(mid, b.drop_last());
        let (s2, e2) = step(s1, b.last());
        assert(run(s, a + b).1 =~= run(s, a).1 + e1 + e2);
        assert(run(mid, b).1 =~= e1 + e2);
    }
}

pub open spec fn inner_code(i: AnsiParserInner) -> usize {
    match i {
        AnsiParserInner::Empty => 0,
        AnsiParserInner::Escape => 1,
        AnsiParserInner::CsiEntry => 2,
        AnsiParserInner::CsiParam => 3,
        AnsiParserInner::CsiIntermediate => 4,
    }
}

pub open spec fn inner_of_code(c: usize) -> Option<AnsiParserInner> {
    if c == 0 {
        Some(AnsiParserInner::Empty)
    } else if c == 1 {
        Some(AnsiParserInner::Escape)
    } else if c == 2 {
        Some(AnsiParserInner::CsiEntry)
    } else if c == 3 {
        Some(AnsiParserInner::CsiParam)
    } else if c == 4 {
        Some(AnsiParserInner::CsiIntermediate)
    } else {
        None
    }
}

/// The parser state that a snapshot item describes: a map with the state's
/// number under `state`, the bytes read so far under `params` and
/// `intermediates`, and the pending run of printable bytes under `pending`.
pub open spec fn decode_parser(s: SnapshotItem) -> Result<ParserView, LoadParserError> {
    match field(s, "state"@) {
        None => Err(LoadParserError::StateNotPresent),
        Some(a) => match as_usize(a) {
            None => Err(LoadParserError::StateInvalid),
            Some(code) => match inner_of_code(code) {
                None => Err(LoadParserError::StateInvalid),
                Some(inner) => match field(s, "params"@) {
                    None => Err(LoadParserError::ParamsNotPresent),
                    Some(b) => match as_bytes(b) {
                        None => Err(LoadParserError::ParamsNotBytes),
                        Some(params) => match field(s, "intermediates"@) {
                            None => Err(LoadParserError::IntermediatesNotPresent),
                            Some(c) => match as_bytes(c) {
                                None => Err(LoadParserError::IntermediatesNotBytes),
                                Some(intermediates) => match field(s, "pending"@) {
                                    None => Err(LoadParserError::PendingNotPresent),
                                    Some(d) => match as_bytes(d) {
                                        None => Err(LoadParserError::PendingNotBytes),
                                        Some(pending) => Ok(ParserView { inner, params, intermediates, pending }),
                                    },
                                },
                            },
                        },
                    },
                },
            },
        },
    }
}

/// Why a snapshot item describes no parser state.
#[derive(Debug, Clone, Copy, PartialEq, Eq, Structural)]
pub enum LoadParserError {
    StateNotPresent,
    /// The state is not the number of a parser state.
    StateInvalid,
    ParamsNotPresent,
    ParamsNotBytes,
    IntermediatesNotPresent,
    IntermediatesNotBytes,
    PendingNotPresent,
    PendingNotBytes,
}

impl AnsiParser {
    /// The parser's state as a map.
    pub fn snapshot(&self) -> (r: SnapshotItem)
        ensures
            decode_parser(r) == Ok::<ParserView, LoadParserError>(self@),
    {
        let code: i64 = match self.inner {
            AnsiParserInner::Empty => 0,
            AnsiParserInner::Escape => 1,
            AnsiParserInner::CsiEntry => 2,
            AnsiParserInner::CsiParam => 3,
            AnsiParserInner::CsiIntermediate => 4,
        };
        let mut entries: Vec<(String, SnapshotItem)> = Vec::new();
        entries.push((key_string("state"), SnapshotItem::Int(code)));
        entries.push((key_string("params"), bytes_item(self.params.as_slice())));
        entries.push((key_string("intermediates"), bytes_item(self.intermediates.as_slice())));
        entries.push((key_string("pending"), bytes_item(self.pending.as_slice())));
        proof {
            reveal_strlit("state");
            reveal_strlit("params");
            reveal_strlit("intermediates");
            reveal_strlit("pending");
            assert("state"@.len() == 5 && "params"@.len() == 6 && "intermediates"@.len() == 13 && "pending"@.len() == 7);
            lemma_entry_at(entries@, 3, "pending"@);
            lemma_entry_at(entries@, 0, "state"@);
            lemma_entry_at(entries@, 1, "params"@);
            lemma_entry_at(entries@, 2, "intermediates"@);
        }
        SnapshotItem::Dict(entries)
    }

    /// The parser that `s` describes, where it describes one.
    pub fn from_snapshot(s: &SnapshotItem) -> (r: Result<AnsiParser, LoadParserError>)
        ensures
            match r {
                Ok(p) => decode_parser(*s) == Ok::<ParserView, LoadParserError>(p@),
                Err(e) => decode_parser(*s) == Err::<ParserView, LoadParserError>(e),
            },
    {
        let a = match get_field(s, "state") {
            Some(v) => v,
            None => {
                return Err(LoadParserError::StateNotPresent);
            },
        };
        let code = match read_usize(a) {
            Some(v) => v,
            None => {
                return Err(LoadParserError::StateInvalid);
            },
        };
        let inner = if code == 0 {
            AnsiParserInner::Empty
        } else if code == 1 {
            AnsiParserInner::Escape
        } else if code == 2 {
            AnsiParserInner::CsiEntry
        } else if code == 3 {
            AnsiParserInner::CsiParam
        } else if code == 4 {
            AnsiParserInner::CsiIntermediate
        } else {
            return Err(LoadParserError::StateInvalid);
        };
        let b = match get_field(s, "params") {
            Some(v) => v,
            None => {
                return Err(LoadParserError::ParamsNotPresent);
            },
        };
        let params = match read_bytes(b) {
            Some(v) => v,
            None => {
                return Err(LoadParserError::ParamsNotBytes);
            },
        };
        let c = match get_field(s, "intermediates") {
            Some(v) => v,
            None => {
                return Err(LoadParserError::IntermediatesNotPresent);
            },
        };
        let intermediates = match read_bytes(c) {
            Some(v) => v,
            None => {
                return Err(LoadParserError::IntermediatesNotBytes);
            },
        };
        let d = match get_field(s, "pending") {
            Some(v) => v,
            None => {
                return Err(LoadParserError::PendingNotPresent);
            },
        };
        let pending = match read_bytes(d) {
            Some(v) => v,
            None => {
                return Err(LoadParserError::PendingNotBytes);
            },
        };
        Ok(AnsiParser { inner, params, intermediates, pending })
    }
}

} // verus!
