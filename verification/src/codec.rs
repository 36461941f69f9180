//! The RESP wire codec: a stateless encoder from protocol values to bytes,
//! and an incremental decoder that consumes a byte stream split at arbitrary
//! boundaries and yields one complete value at a time.
//!
//! The decoder's meaning is given by a byte-at-a-time transition system
//! ([`spec_step`], [`spec_run`]): each consumed byte either advances the
//! parse position, completes a value, or is a protocol error. Because the
//! outcome is a function of the concatenation of all bytes consumed since
//! the last complete value, how the stream is fragmented cannot change what
//! is decoded ([`lemma_run_append`]).
use vstd::prelude::*;
use vstd::std_specs::vecdeque::VecDequeAdditionalSpecFns;
use vstd::utf8::{valid_utf8, encode_utf8, decode_utf8};
use std::collections::VecDeque;

use crate::text::{
    is_ws, is_ws_byte, spec_parse_i64, spec_idec, spec_tokens, tokens_from, skip_ws, scan_token,
    lemma_skip_ws_bounds, parse_i64, fmt_i64, fmt_usize, spec_udec,
};
use crate::types::{BulkString, RespValue, SpecValue, views_of, bytes_to_string, lemma_model_array};

verus! {

broadcast use vstd::std_specs::vecdeque::group_vec_dequeue_axioms;

/// Why a byte stream was rejected as ill-formed RESP.
#[derive(Clone, Copy, PartialEq, Eq, Structural, Debug)]
pub enum DecodeError {
    /// A simple-string or error line is not valid UTF-8.
    BadUtf8,
    /// A length or integer line does not read as a signed 64-bit integer.
    BadInteger,
    /// A declared length does not fit the address space.
    BadLength,
    /// An array element does not start with `$`.
    ExpectedBulk,
    /// A bulk payload is not followed by `\r\n`.
    BadTerminator,
}

/// The reply text of each protocol error.
pub open spec fn decode_err_text(e: DecodeError) -> Seq<char> {
    match e {
        DecodeError::BadUtf8 => "Invalid UTF-8 in line"@,
        DecodeError::BadInteger => "Invalid Integer"@,
        DecodeError::BadLength => "Invalid bulk string length"@,
        DecodeError::ExpectedBulk => "Array element must be a bulk string"@,
        DecodeError::BadTerminator => "Missing final terminator"@,
    }
}

impl DecodeError {
    /// A static description of the error, for error replies and logs.
    pub fn message(&self) -> (r: &'static str)
        ensures
            r@ == decode_err_text(*self),
    {
        match self {
            DecodeError::BadUtf8 => "Invalid UTF-8 in line",
            DecodeError::BadInteger => "Invalid Integer",
            DecodeError::BadLength => "Invalid bulk string length",
            DecodeError::ExpectedBulk => "Array element must be a bulk string",
            DecodeError::BadTerminator => "Missing final terminator",
        }
    }
}

/// Where a bulk string under construction will be delivered: as a top-level
/// value, or as the next element of an array with `rem` elements still owed
/// and `items` already parsed.
pub enum SpecCtx {
    Top,
    InArr { rem: nat, items: Seq<SpecValue> },
}

/// A parse position of the decoder: everything it retains between bytes.
pub enum MState {
    /// At the boundary between values.
    Idle,
    /// Reading a top-level line: an inline command when `kind == 0`, else
    /// the line after prefix byte `kind` (`+ - : $ *`).
    InLine { kind: u8, acc: Seq<u8>, cr: bool },
    /// Reading the `$` length line of an array element.
    ElemLine { rem: nat, items: Seq<SpecValue>, acc: Seq<u8>, cr: bool },
    /// Reading `need` more payload bytes of a bulk string.
    InBody { ctx: SpecCtx, data: Seq<u8>, need: nat },
    /// Payload complete; expecting `\r`.
    InCr { ctx: SpecCtx, data: Seq<u8> },
    /// Expecting the final `\n` of a bulk string.
    InLf { ctx: SpecCtx, data: Seq<u8> },
    /// Inside an array, expecting the `$` of the next element.
    AtElem { rem: nat, items: Seq<SpecValue> },
}

/// What one byte does to a parse position.
pub enum StepOut {
    Next(MState),
    Emit(SpecValue),
    Stop(DecodeError),
}

/// One byte of line accumulation: either the line is complete or the
/// accumulator advances. A line is the bytes before the first `\r\n`; a
/// `\r` not followed by `\n` belongs to the line.
pub enum LineStep {
    Done(Seq<u8>),
    Go(Seq<u8>, bool),
}

pub open spec fn line_step(acc: Seq<u8>, cr: bool, b: u8) -> LineStep {
    if cr {
        if b == 10 {
            LineStep::Done(acc)
        } else if b == 13 {
            LineStep::Go(acc.push(13), true)
        } else {
            LineStep::Go(acc.push(13).push(b), false)
        }
    } else {
        if b == 13 {
            LineStep::Go(acc, true)
        } else {
            LineStep::Go(acc.push(b), false)
        }
    }
}

/// The tokens of an inline command as an array of bulk strings.
pub open spec fn tokens_vals(ts: Seq<Seq<u8>>) -> Seq<SpecValue> {
    Seq::new(ts.len(), |i: int| SpecValue::Bulk(ts[i]))
}

/// A finished element (a bulk string or a null) joins the array; when it
/// was the last one owed, the array itself is complete.
pub open spec fn elem_done(rem: nat, items: Seq<SpecValue>, v: SpecValue) -> StepOut {
    if rem <= 1 {
        StepOut::Emit(SpecValue::Arr(items.push(v)))
    } else {
        StepOut::Next(MState::AtElem { rem: (rem - 1) as nat, items: items.push(v) })
    }
}

/// What a completed bulk-length line means: negative lengths are the null
/// marker, non-negative lengths announce that many payload bytes.
pub open spec fn finish_bulk_len(ctx: SpecCtx, line: Seq<u8>) -> StepOut {
    match spec_parse_i64(line) {
        Option::None => StepOut::Stop(DecodeError::BadInteger),
        Option::Some(n) => {
            if n < 0 {
                match ctx {
                    SpecCtx::Top => StepOut::Emit(SpecValue::Null),
                    SpecCtx::InArr { rem, items } => elem_done(rem, items, SpecValue::Null),
                }
            } else if n > usize::MAX as int {
                StepOut::Stop(DecodeError::BadLength)
            } else if n == 0 {
                StepOut::Next(MState::InCr { ctx, data: Seq::empty() })
            } else {
                StepOut::Next(MState::InBody { ctx, data: Seq::empty(), need: n as nat })
            }
        },
    }
}

/// What a completed top-level line means, by its prefix.
pub open spec fn finish_line(kind: u8, line: Seq<u8>) -> StepOut {
    if kind == 0 {
        StepOut::Emit(SpecValue::Arr(tokens_vals(spec_tokens(line))))
    } else if kind == 43 {
        if valid_utf8(line) {
            StepOut::Emit(SpecValue::Simple(decode_utf8(line)))
        } else {
            StepOut::Stop(DecodeError::BadUtf8)
        }
    } else if kind == 45 {
        if valid_utf8(line) {
            StepOut::Emit(SpecValue::Error(decode_utf8(line), Option::None))
        } else {
            StepOut::Stop(DecodeError::BadUtf8)
        }
    } else if kind == 58 {
        match spec_parse_i64(line) {
            Option::Some(v) => StepOut::Emit(SpecValue::Int(v as i64)),
            Option::None => StepOut::Stop(DecodeError::BadInteger),
        }
    } else if kind == 36 {
        finish_bulk_len(SpecCtx::Top, line)
    } else {
        match spec_parse_i64(line) {
            Option::None => StepOut::Stop(DecodeError::BadInteger),
            Option::Some(n) => {
                if n < 0 {
                    StepOut::Emit(SpecValue::Null)
                } else if n > usize::MAX as int {
                    StepOut::Stop(DecodeError::BadLength)
                } else if n == 0 {
                    StepOut::Emit(SpecValue::Arr(Seq::empty()))
                } else {
                    StepOut::Next(MState::AtElem { rem: n as nat, items: Seq::empty() })
                }
            },
        }
    }
}

/// Whether a byte opens a prefixed value (`+ - : $ *`); any other first
/// byte starts an inline command line.
pub open spec fn is_prefix_byte(b: u8) -> bool {
    b == 43 || b == 45 || b == 58 || b == 36 || b == 42
}

/// The decoder's transition function: what one input byte does at each
/// parse position.
pub open spec fn spec_step(st: MState, b: u8) -> StepOut {
    match st {
        MState::Idle => {
            if is_prefix_byte(b) {
                StepOut::Next(MState::InLine { kind: b, acc: Seq::empty(), cr: false })
            } else {
                match line_step(Seq::empty(), false, b) {
                    LineStep::Done(line) => StepOut::Stop(DecodeError::BadTerminator),
                    LineStep::Go(a2, c2) => StepOut::Next(
                        MState::InLine { kind: 0, acc: a2, cr: c2 },
                    ),
                }
            }
        },
        MState::InLine { kind, acc, cr } => {
            match line_step(acc, cr, b) {
                LineStep::Done(line) => finish_line(kind, line),
                LineStep::Go(a2, c2) => StepOut::Next(MState::InLine { kind, acc: a2, cr: c2 }),
            }
        },
        MState::ElemLine { rem, items, acc, cr } => {
            match line_step(acc, cr, b) {
                LineStep::Done(line) => finish_bulk_len(SpecCtx::InArr { rem, items }, line),
                LineStep::Go(a2, c2) => StepOut::Next(
                    MState::ElemLine { rem, items, acc: a2, cr: c2 },
                ),
            }
        },
        MState::InBody { ctx, data, need } => {
            if need <= 1 {
                StepOut::Next(MState::InCr { ctx, data: data.push(b) })
            } else {
                StepOut::Next(MState::InBody { ctx, data: data.push(b), need: (need - 1) as nat })
            }
        },
        MState::InCr { ctx, data } => {
            if b == 13 {
                StepOut::Next(MState::InLf { ctx, data })
            } else {
                StepOut::Stop(DecodeError::BadTerminator)
            }
        },
        MState::InLf { ctx, data } => {
            if b == 10 {
                match ctx {
                    SpecCtx::Top => StepOut::Emit(SpecValue::Bulk(data)),
                    SpecCtx::InArr { rem, items } => elem_done(rem, items, SpecValue::Bulk(data)),
                }
            } else {
                StepOut::Stop(DecodeError::BadTerminator)
            }
        },
        MState::AtElem { rem, items } => {
            if b == 36 {
                StepOut::Next(MState::ElemLine { rem, items, acc: Seq::empty(), cr: false })
            } else {
                StepOut::Stop(DecodeError::ExpectedBulk)
            }
        },
    }
}

/// The outcome of running the decoder over a byte sequence from a given
/// position: still reading, one value completed after consuming `int`
/// bytes, or a protocol error.
pub enum RunResult {
    More(MState),
    Val(SpecValue, int),
    Failed(DecodeError),
}

/// Runs the transition system over `s`, stopping at the first completed
/// value or error.
pub open spec fn spec_run(st: MState, s: Seq<u8>) -> RunResult
    decreases s.len(),
{
    if s.len() == 0 {
        RunResult::More(st)
    } else {
        match spec_step(st, s[0]) {
            StepOut::Next(st2) => match spec_run(st2, s.drop_first()) {
                RunResult::More(x) => RunResult::More(x),
                RunResult::Val(v, n) => RunResult::Val(v, n + 1),
                RunResult::Failed(e) => RunResult::Failed(e),
            },
            StepOut::Emit(v) => RunResult::Val(v, 1),
            StepOut::Stop(e) => RunResult::Failed(e),
        }
    }
}

/// What a byte sequence decodes to, from the start of a value.
pub open spec fn spec_parse(s: Seq<u8>) -> RunResult {
    spec_run(MState::Idle, s)
}

/// Fragmentation invariance: feeding `a` and then `b` reaches exactly the
/// outcome of feeding `a + b` at once. Splitting a stream at any byte
/// offset therefore cannot change what is decoded, which position is
/// reached, or how many bytes a completed value consumed.
pub proof fn lemma_run_append(st: MState, a: Seq<u8>, b: Seq<u8>)
    ensures
        spec_run(st, a + b) == (match spec_run(st, a) {
            RunResult::More(c) => match spec_run(c, b) {
                RunResult::More(x) => RunResult::More(x),
                RunResult::Val(v, n) => RunResult::Val(v, n + a.len()),
                RunResult::Failed(e) => RunResult::Failed(e),
            },
            RunResult::Val(v, n) => RunResult::Val(v, n),
            RunResult::Failed(e) => RunResult::Failed(e),
        }),
    decreases a.len(),
{
    if a.len() == 0 {
        assert(a + b =~= b);
    } else {
        assert((a + b)[0] == a[0]);
        assert((a + b).len() > 0);
        match spec_step(st, a[0]) {
            StepOut::Next(st2) => {
                assert((a + b).drop_first() =~= a.drop_first() + b);
                lemma_run_append(st2, a.drop_first(), b);
            },
            StepOut::Emit(_) => {},
            StepOut::Stop(_) => {},
        }
    }
}

/// A single step appended to a run: the outcome over `s.take(i + 1)` in
/// terms of the outcome over `s.take(i)` and the step on `s[i]`.
pub proof fn lemma_run_snoc(st: MState, s: Seq<u8>, i: int)
    requires
        0 <= i < s.len(),
    ensures
        spec_run(st, s.take(i + 1)) == (match spec_run(st, s.take(i)) {
            RunResult::More(c) => match spec_step(c, s[i]) {
                StepOut::Next(c2) => RunResult::More(c2),
                StepOut::Emit(v) => RunResult::Val(v, i + 1),
                StepOut::Stop(e) => RunResult::Failed(e),
            },
            RunResult::Val(v, n) => RunResult::Val(v, n),
            RunResult::Failed(e) => RunResult::Failed(e),
        }),
{
    let unit = seq![s[i]];
    assert(s.take(i + 1) =~= s.take(i) + unit);
    lemma_run_append(st, s.take(i), unit);
    assert(unit.len() == 1);
    assert(unit[0] == s[i]);
    assert(unit.drop_first() =~= Seq::<u8>::empty());
    match spec_run(st, s.take(i)) {
        RunResult::More(c) => {
            match spec_step(c, s[i]) {
                StepOut::Next(c2) => {
                    assert(spec_run(c2, unit.drop_first()) == RunResult::More(c2));
                },
                StepOut::Emit(_) => {},
                StepOut::Stop(_) => {},
            }
        },
        RunResult::Val(..) => {},
        RunResult::Failed(_) => {},
    }
}

/// Skipping one whitespace byte does not change the tokens ahead.
proof fn lemma_tokens_from_ws(s: Seq<u8>, i: int)
    requires
        0 <= i < s.len(),
        is_ws(s[i]),
    ensures
        tokens_from(s, i) == tokens_from(s, i + 1),
{
    lemma_skip_ws_bounds(s, i);
    lemma_skip_ws_bounds(s, i + 1);
    assert(skip_ws(s, i) == skip_ws(s, i + 1));
}

/// Splits an inline command line into its whitespace-separated tokens, each
/// wrapped as a bulk string.
fn tokenize(line: &[u8]) -> (r: VecDeque<RespValue>)
    ensures
        views_of(r@) == tokens_vals(spec_tokens(line@)),
{
    let ghost s = line@;
    let n = line.len();
    let mut out: VecDeque<RespValue> = VecDeque::new();
    let mut i: usize = 0;
    proof {
        assert(views_of(out@) =~= Seq::<SpecValue>::empty());
        assert(views_of(out@) + tokens_vals(tokens_from(s, 0)) =~= tokens_vals(spec_tokens(s)));
    }
    while i < n
        invariant
            0 <= i <= n,
            n == s.len(),
            s == line@,
            views_of(out@) + tokens_vals(tokens_from(s, i as int)) == tokens_vals(spec_tokens(s)),
        decreases n - i,
    {
        if is_ws_byte(line[i]) {
            proof {
                lemma_tokens_from_ws(s, i as int);
            }
            i = i + 1;
        } else {
            let start = i;
            i = i + 1;
            while i < n && !is_ws_byte(line[i])
                invariant
                    0 <= start < i <= n,
                    n == s.len(),
                    s == line@,
                    !is_ws(s[start as int]),
                    scan_token(s, start as int) == scan_token(s, i as int),
                decreases n - i,
            {
                i = i + 1;
            }
            proof {
                assert(scan_token(s, i as int) == i);
                assert(scan_token(s, start as int) == i as int);
                assert(skip_ws(s, start as int) == start);
                assert(tokens_from(s, start as int) == seq![s.subrange(start as int, i as int)]
                    + tokens_from(s, i as int));
            }
            let tok: Vec<u8> = vstd::slice::slice_to_vec(
                vstd::slice::slice_subrange(line, start, i),
            );
            let ghost prev = out@;
            out.push_back(RespValue::BulkString(BulkString(tok)));
            proof {
                assert(views_of(out@) =~= views_of(prev) + seq![
                    SpecValue::Bulk(s.subrange(start as int, i as int)),
                ]);
                assert(tokens_vals(tokens_from(s, start as int)) =~= seq![
                    SpecValue::Bulk(s.subrange(start as int, i as int)),
                ] + tokens_vals(tokens_from(s, i as int)));
                assert(views_of(out@) + tokens_vals(tokens_from(s, i as int)) =~= views_of(prev)
                    + tokens_vals(tokens_from(s, start as int)));
            }
        }
    }
    proof {
        assert(tokens_from(s, n as int) == Seq::<Seq<u8>>::empty());
        assert(tokens_vals(tokens_from(s, n as int)) =~= Seq::<SpecValue>::empty());
        assert(views_of(out@) =~= views_of(out@) + tokens_vals(tokens_from(s, n as int)));
    }
    out
}

/// Once a prefix of the input is a protocol error, the whole input is.
proof fn lemma_fail_extends(st: MState, s: Seq<u8>, k: int, e: DecodeError)
    requires
        0 <= k <= s.len(),
        spec_run(st, s.take(k)) == RunResult::Failed(e),
    ensures
        spec_run(st, s) == RunResult::Failed(e),
{
    assert(s =~= s.take(k) + s.skip(k));
    lemma_run_append(st, s.take(k), s.skip(k));
}

/// The decoder's parse position, between decode calls (exec).
enum Mode {
    Idle,
    InLine,
    ElemLine,
    InBody,
    InCr,
    InLf,
    AtElem,
}

/// What one byte did to the decoder: parsing goes on, a value is complete,
/// or the stream is ill-formed.
enum ByteOutcome {
    Cont,
    Out(RespValue),
    Fail(DecodeError),
}

/// The incremental RESP decoder for one connection: owns the resumable
/// parse progress between reads, so that a value split across any number
/// of reads is decoded without re-scanning consumed bytes.
pub struct RespCodec {
    mode: Mode,
    /// In `InLine`: `0` for an inline command, else the prefix byte.
    kind: u8,
    /// Line accumulator for `InLine` / `ElemLine`.
    acc: Vec<u8>,
    /// Whether the line accumulator has seen a `\r` not yet matched by `\n`.
    cr: bool,
    /// Bulk payload accumulated so far.
    data: Vec<u8>,
    /// Payload bytes still owed in `InBody`.
    need: usize,
    /// Whether a surrounding array is being filled.
    in_arr: bool,
    /// Array elements still owed.
    rem: usize,
    /// Array elements already parsed.
    items: VecDeque<RespValue>,
}

impl View for RespCodec {
    type V = MState;

    closed spec fn view(&self) -> MState {
        match self.mode {
            Mode::Idle => MState::Idle,
            Mode::InLine => MState::InLine { kind: self.kind, acc: self.acc@, cr: self.cr },
            Mode::ElemLine => MState::ElemLine {
                rem: self.rem as nat,
                items: views_of(self.items@),
                acc: self.acc@,
                cr: self.cr,
            },
            Mode::InBody => MState::InBody {
                ctx: self.ctx_view(),
                data: self.data@,
                need: self.need as nat,
            },
            Mode::InCr => MState::InCr { ctx: self.ctx_view(), data: self.data@ },
            Mode::InLf => MState::InLf { ctx: self.ctx_view(), data: self.data@ },
            Mode::AtElem => MState::AtElem { rem: self.rem as nat, items: views_of(self.items@) },
        }
    }
}

impl RespCodec {
    spec fn ctx_view(&self) -> SpecCtx {
        if self.in_arr {
            SpecCtx::InArr { rem: self.rem as nat, items: views_of(self.items@) }
        } else {
            SpecCtx::Top
        }
    }

    /// The decoder's internal consistency between decode calls.
    pub closed spec fn wf(&self) -> bool {
        match self.mode {
            Mode::Idle => !self.in_arr,
            Mode::InLine => !self.in_arr,
            Mode::ElemLine => self.in_arr && self.rem >= 1,
            Mode::InBody => self.need >= 1 && (self.in_arr ==> self.rem >= 1),
            Mode::InCr => self.in_arr ==> self.rem >= 1,
            Mode::InLf => self.in_arr ==> self.rem >= 1,
            Mode::AtElem => self.in_arr && self.rem >= 1,
        }
    }

    /// A fresh decoder, at the boundary between values.
    pub fn new() -> (r: RespCodec)
        ensures
            r.wf(),
            r@ == MState::Idle,
    {
        RespCodec {
            mode: Mode::Idle,
            kind: 0,
            acc: Vec::new(),
            cr: false,
            data: Vec::new(),
            need: 0,
            in_arr: false,
            rem: 0,
            items: VecDeque::new(),
        }
    }

    /// Consumes bytes from `input` until one value completes, the input is
    /// exhausted, or the stream is ill-formed. Returns how many bytes were
    /// consumed and the completed value, if any; the caller keeps the
    /// unconsumed suffix and feeds it (plus later reads) next time. The
    /// outcome is exactly what [`spec_run`] says of the bytes consumed
    /// since the last completed value.
    #[verifier::rlimit(100)]
    pub fn feed(&mut self, input: &[u8]) -> (r: Result<(usize, Option<RespValue>), DecodeError>)
        requires
            old(self).wf(),
        ensures
            final(self).wf(),
            (match r {
                Ok(p) => match p.1 {
                    Option::Some(v) => {
                        &&& p.0 <= input@.len()
                        &&& spec_run(old(self)@, input@.take(p.0 as int)) == RunResult::Val(
                            v@,
                            p.0 as int,
                        )
                        &&& final(self)@ == MState::Idle
                    },
                    Option::None => {
                        &&& p.0 == input@.len()
                        &&& spec_run(old(self)@, input@) == RunResult::More(final(self)@)
                    },
                },
                Err(e) => spec_run(old(self)@, input@) == RunResult::Failed(e),
            }),
    {
        let ghost st0 = self@;
        let n = input.len();
        let mut i: usize = 0;
        let mut fin: bool = false;
        let mut used: usize = 0;
        let mut done_val: Option<RespValue> = None;
        let mut done_err: Option<DecodeError> = None;
        proof {
            assert(input@.take(0) =~= Seq::<u8>::empty());
        }
        while i < n && !fin
            invariant
                0 <= i <= n,
                n == input@.len(),
                self.wf(),
                !fin ==> {
                    &&& spec_run(st0, input@.take(i as int)) == RunResult::More(self@)
                    &&& done_val is None
                    &&& done_err is None
                },
                fin ==> (match done_err {
                    Option::Some(e) => spec_run(st0, input@) == RunResult::Failed(e)
                        && done_val is None,
                    Option::None => (match done_val {
                        Option::Some(v) => used <= n && spec_run(st0, input@.take(used as int))
                            == RunResult::Val(v@, used as int) && self@ == MState::Idle,
                        Option::None => false,
                    }),
                }),
            decreases n - i, (if fin { 0int } else { 1int }),
        {
            let b = input[i];
            proof {
                lemma_run_snoc(st0, input@, i as int);
            }
            match self.step_byte(b) {
                ByteOutcome::Cont => {
                    i = i + 1;
                },
                ByteOutcome::Out(v) => {
                    used = i + 1;
                    done_val = Some(v);
                    fin = true;
                },
                ByteOutcome::Fail(e) => {
                    proof {
                        lemma_fail_extends(st0, input@, i + 1, e);
                    }
                    done_err = Some(e);
                    fin = true;
                },
            }
        }
        if fin {
            match done_err {
                Option::Some(e) => Err(e),
                Option::None => match done_val {
                    Option::Some(v) => Ok((used, Some(v))),
                    Option::None => unreached(),
                },
            }
        } else {
            proof {
                assert(input@.take(n as int) =~= input@);
            }
            Ok((n, None))
        }
    }

    /// Applies one input byte to the decoder state: exactly [`spec_step`].
    #[verifier::rlimit(100)]
    fn step_byte(&mut self, b: u8) -> (r: ByteOutcome)
        requires
            old(self).wf(),
        ensures
            final(self).wf(),
            (match r {
                ByteOutcome::Cont => spec_step(old(self)@, b) == StepOut::Next(final(self)@),
                ByteOutcome::Out(v) => spec_step(old(self)@, b) == StepOut::Emit(v@)
                    && final(self)@ == MState::Idle,
                ByteOutcome::Fail(e) => spec_step(old(self)@, b) == StepOut::Stop(e),
            }),
    {
        let ghost pre = old(self)@;
        match self.mode {
            Mode::Idle => {
                if b == 43 || b == 45 || b == 58 || b == 36 || b == 42 {
                    self.kind = b;
                    self.acc = Vec::new();
                    self.cr = false;
                    self.mode = Mode::InLine;
                } else if b == 13 {
                    self.kind = 0;
                    self.acc = Vec::new();
                    self.cr = true;
                    self.mode = Mode::InLine;
                    proof {
                        assert(self.acc@ =~= Seq::<u8>::empty());
                    }
                } else {
                    self.kind = 0;
                    let mut fresh: Vec<u8> = Vec::new();
                    fresh.push(b);
                    self.acc = fresh;
                    self.cr = false;
                    self.mode = Mode::InLine;
                    proof {
                        assert(self.acc@ =~= Seq::<u8>::empty().push(b));
                    }
                }
                proof {
                    assert(spec_step(pre, b) == StepOut::Next(self@));
                }
            },
            Mode::InLine => {
                if self.cr {
                    if b == 10 {
                        // The line `self.acc` is complete.
                        let k = self.kind;
                        if k == 0 {
                            let toks = tokenize(self.acc.as_slice());
                            proof {
                                lemma_model_array(toks);
                            }
                            let v = RespValue::Array(toks);
                            self.mode = Mode::Idle;
                            proof {
                                assert(spec_step(pre, b) == StepOut::Emit(v@));
                            }
                            return ByteOutcome::Out(v);
                        } else if k == 43 || k == 45 {
                            match bytes_to_string(self.acc.as_slice()) {
                                Option::Some(text) => {
                                    proof {
                                        vstd::utf8::encode_utf8_decode_utf8(text@);
                                    }
                                    let v = if k == 43 {
                                        RespValue::SimpleString(text)
                                    } else {
                                        RespValue::Error(text, None)
                                    };
                                    self.mode = Mode::Idle;
                                    proof {
                                        assert(spec_step(pre, b) == StepOut::Emit(v@));
                                    }
                                    return ByteOutcome::Out(v);
                                },
                                Option::None => {
                                    proof {
                                        assert(spec_step(pre, b) == StepOut::Stop(
                                            DecodeError::BadUtf8,
                                        ));
                                    }
                                    self.mode = Mode::Idle;
                                    return ByteOutcome::Fail(DecodeError::BadUtf8);
                                },
                            }
                        } else if k == 58 {
                            match parse_i64(self.acc.as_slice()) {
                                Option::Some(x) => {
                                    let v = RespValue::Integer(x);
                                    self.mode = Mode::Idle;
                                    proof {
                                        assert(spec_step(pre, b) == StepOut::Emit(v@));
                                    }
                                    return ByteOutcome::Out(v);
                                },
                                Option::None => {
                                    proof {
                                        assert(spec_step(pre, b) == StepOut::Stop(
                                            DecodeError::BadInteger,
                                        ));
                                    }
                                    self.mode = Mode::Idle;
                                    return ByteOutcome::Fail(DecodeError::BadInteger);
                                },
                            }
                        } else if k == 36 {
                            match parse_i64(self.acc.as_slice()) {
                                Option::Some(ln) => {
                                    if ln < 0 {
                                        let v = RespValue::Null;
                                        self.mode = Mode::Idle;
                                        proof {
                                            assert(spec_step(pre, b) == StepOut::Emit(v@));
                                        }
                                        return ByteOutcome::Out(v);
                                    } else if (ln as u64) > (usize::MAX as u64) {
                                        proof {
                                            assert(spec_step(pre, b) == StepOut::Stop(
                                                DecodeError::BadLength,
                                            ));
                                        }
                                        self.mode = Mode::Idle;
                                        return ByteOutcome::Fail(DecodeError::BadLength);
                                    } else if ln == 0 {
                                        self.data = Vec::new();
                                        self.mode = Mode::InCr;
                                        proof {
                                            assert(self.data@ =~= Seq::<u8>::empty());
                                            assert(spec_step(pre, b) == StepOut::Next(self@));
                                        }
                                    } else {
                                        self.data = Vec::new();
                                        self.need = ln as usize;
                                        self.mode = Mode::InBody;
                                        proof {
                                            assert(self.data@ =~= Seq::<u8>::empty());
                                            assert(spec_step(pre, b) == StepOut::Next(self@));
                                        }
                                    }
                                },
                                Option::None => {
                                    proof {
                                        assert(spec_step(pre, b) == StepOut::Stop(
                                            DecodeError::BadInteger,
                                        ));
                                    }
                                    self.mode = Mode::Idle;
                                    return ByteOutcome::Fail(DecodeError::BadInteger);
                                },
                            }
                        } else {
                            // `*`: array header.
                            match parse_i64(self.acc.as_slice()) {
                                Option::Some(ln) => {
                                    if ln < 0 {
                                        let v = RespValue::Null;
                                        self.mode = Mode::Idle;
                                        proof {
                                            assert(spec_step(pre, b) == StepOut::Emit(v@));
                                        }
                                        return ByteOutcome::Out(v);
                                    } else if (ln as u64) > (usize::MAX as u64) {
                                        proof {
                                            assert(spec_step(pre, b) == StepOut::Stop(
                                                DecodeError::BadLength,
                                            ));
                                        }
                                        self.mode = Mode::Idle;
                                        return ByteOutcome::Fail(DecodeError::BadLength);
                                    } else if ln == 0 {
                                        let vals: VecDeque<RespValue> = VecDeque::new();
                                        proof {
                                            lemma_model_array(vals);
                                            assert(views_of(vals@)
                                                =~= Seq::<SpecValue>::empty());
                                        }
                                        let v = RespValue::Array(vals);
                                        self.mode = Mode::Idle;
                                        proof {
                                            assert(spec_step(pre, b) == StepOut::Emit(v@));
                                        }
                                        return ByteOutcome::Out(v);
                                    } else {
                                        self.rem = ln as usize;
                                        self.items = VecDeque::new();
                                        self.in_arr = true;
                                        self.mode = Mode::AtElem;
                                        proof {
                                            assert(views_of(self.items@)
                                                =~= Seq::<SpecValue>::empty());
                                            assert(spec_step(pre, b) == StepOut::Next(self@));
                                        }
                                    }
                                },
                                Option::None => {
                                    proof {
                                        assert(spec_step(pre, b) == StepOut::Stop(
                                            DecodeError::BadInteger,
                                        ));
                                    }
                                    self.mode = Mode::Idle;
                                    return ByteOutcome::Fail(DecodeError::BadInteger);
                                },
                            }
                        }
                    } else if b == 13 {
                        self.acc.push(13);
                        proof {
                            assert(spec_step(pre, b) == StepOut::Next(self@));
                        }
                    } else {
                        self.acc.push(13);
                        self.acc.push(b);
                        self.cr = false;
                        proof {
                            assert(spec_step(pre, b) == StepOut::Next(self@));
                        }
                    }
                } else if b == 13 {
                    self.cr = true;
                    proof {
                        assert(spec_step(pre, b) == StepOut::Next(self@));
                    }
                } else {
                    self.acc.push(b);
                    proof {
                        assert(spec_step(pre, b) == StepOut::Next(self@));
                    }
                }
            },
            Mode::ElemLine => {
                if self.cr {
                    if b == 10 {
                        // The `$` length line of an element is complete.
                        match parse_i64(self.acc.as_slice()) {
                            Option::Some(ln) => {
                                if ln < 0 {
                                    // A null element.
                                    let ghost itm = views_of(self.items@);
                                    if self.rem == 1 {
                                        self.items.push_back(RespValue::Null);
                                        let mut vals: VecDeque<RespValue> = VecDeque::new();
                                        core::mem::swap(&mut vals, &mut self.items);
                                        self.mode = Mode::Idle;
                                        self.in_arr = false;
                                        let v = RespValue::Array(vals);
                                        proof {
                                            lemma_model_array(vals);
                                            assert(views_of(vals@) =~= itm.push(
                                                SpecValue::Null,
                                            ));
                                            assert(spec_step(pre, b) == StepOut::Emit(v@));
                                        }
                                        return ByteOutcome::Out(v);
                                    } else {
                                        self.items.push_back(RespValue::Null);
                                        self.rem = self.rem - 1;
                                        self.mode = Mode::AtElem;
                                        proof {
                                            assert(views_of(self.items@) =~= itm.push(
                                                SpecValue::Null,
                                            ));
                                            assert(spec_step(pre, b) == StepOut::Next(self@));
                                        }
                                    }
                                } else if (ln as u64) > (usize::MAX as u64) {
                                    proof {
                                        assert(spec_step(pre, b) == StepOut::Stop(
                                            DecodeError::BadLength,
                                        ));
                                    }
                                    self.mode = Mode::Idle;
                                    self.in_arr = false;
                                    return ByteOutcome::Fail(DecodeError::BadLength);
                                } else if ln == 0 {
                                    self.data = Vec::new();
                                    self.mode = Mode::InCr;
                                    proof {
                                        assert(self.data@ =~= Seq::<u8>::empty());
                                        assert(spec_step(pre, b) == StepOut::Next(self@));
                                    }
                                } else {
                                    self.data = Vec::new();
                                    self.need = ln as usize;
                                    self.mode = Mode::InBody;
                                    proof {
                                        assert(self.data@ =~= Seq::<u8>::empty());
                                        assert(spec_step(pre, b) == StepOut::Next(self@));
                                    }
                                }
                            },
                            Option::None => {
                                proof {
                                    assert(spec_step(pre, b) == StepOut::Stop(
                                        DecodeError::BadInteger,
                                    ));
                                }
                                self.mode = Mode::Idle;
                                self.in_arr = false;
                                return ByteOutcome::Fail(DecodeError::BadInteger);
                            },
                        }
                    } else if b == 13 {
                        self.acc.push(13);
                        proof {
                            assert(spec_step(pre, b) == StepOut::Next(self@));
                        }
                    } else {
                        self.acc.push(13);
                        self.acc.push(b);
                        self.cr = false;
                        proof {
                            assert(spec_step(pre, b) == StepOut::Next(self@));
                        }
                    }
                } else if b == 13 {
                    self.cr = true;
                    proof {
                        assert(spec_step(pre, b) == StepOut::Next(self@));
                    }
                } else {
                    self.acc.push(b);
                    proof {
                        assert(spec_step(pre, b) == StepOut::Next(self@));
                    }
                }
            },
            Mode::InBody => {
                self.data.push(b);
                if self.need == 1 {
                    self.mode = Mode::InCr;
                } else {
                    self.need = self.need - 1;
                }
                proof {
                    assert(spec_step(pre, b) == StepOut::Next(self@));
                }
            },
            Mode::InCr => {
                if b == 13 {
                    self.mode = Mode::InLf;
                    proof {
                        assert(spec_step(pre, b) == StepOut::Next(self@));
                    }
                } else {
                    proof {
                        assert(spec_step(pre, b) == StepOut::Stop(DecodeError::BadTerminator));
                    }
                    self.mode = Mode::Idle;
                    self.in_arr = false;
                    return ByteOutcome::Fail(DecodeError::BadTerminator);
                }
            },
            Mode::InLf => {
                if b == 10 {
                    // The bulk string `self.data` is complete.
                    let mut payload: Vec<u8> = Vec::new();
                    core::mem::swap(&mut payload, &mut self.data);
                    let bulk = RespValue::BulkString(BulkString(payload));
                    if self.in_arr {
                        let ghost itm = views_of(self.items@);
                        let ghost bm = bulk@;
                        if self.rem == 1 {
                            self.items.push_back(bulk);
                            let mut vals: VecDeque<RespValue> = VecDeque::new();
                            core::mem::swap(&mut vals, &mut self.items);
                            self.mode = Mode::Idle;
                            self.in_arr = false;
                            let v = RespValue::Array(vals);
                            proof {
                                lemma_model_array(vals);
                                assert(views_of(vals@) =~= itm.push(bm));
                                assert(spec_step(pre, b) == StepOut::Emit(v@));
                            }
                            return ByteOutcome::Out(v);
                        } else {
                            self.items.push_back(bulk);
                            self.rem = self.rem - 1;
                            self.mode = Mode::AtElem;
                            proof {
                                assert(views_of(self.items@) =~= itm.push(bm));
                                assert(spec_step(pre, b) == StepOut::Next(self@));
                            }
                        }
                    } else {
                        self.mode = Mode::Idle;
                        proof {
                            assert(spec_step(pre, b) == StepOut::Emit(bulk@));
                        }
                        return ByteOutcome::Out(bulk);
                    }
                } else {
                    proof {
                        assert(spec_step(pre, b) == StepOut::Stop(DecodeError::BadTerminator));
                    }
                    self.mode = Mode::Idle;
                    self.in_arr = false;
                    return ByteOutcome::Fail(DecodeError::BadTerminator);
                }
            },
            Mode::AtElem => {
                if b == 36 {
                    self.acc = Vec::new();
                    self.cr = false;
                    self.mode = Mode::ElemLine;
                    proof {
                        assert(self.acc@ =~= Seq::<u8>::empty());
                        assert(spec_step(pre, b) == StepOut::Next(self@));
                    }
                } else {
                    proof {
                        assert(spec_step(pre, b) == StepOut::Stop(DecodeError::ExpectedBulk));
                    }
                    self.mode = Mode::Idle;
                    self.in_arr = false;
                    return ByteOutcome::Fail(DecodeError::ExpectedBulk);
                }
            },
        }
        ByteOutcome::Cont
    }
}

/// The wire bytes of each value of a sequence, in order, from position `i`.
pub open spec fn spec_encode_elems(vs: Seq<SpecValue>, i: int) -> Seq<u8>
    decreases vs, vs.len() - i,
{
    if !(0 <= i < vs.len()) {
        Seq::empty()
    } else {
        spec_encode(vs[i]) + spec_encode_elems(vs, i + 1)
    }
}

/// The wire bytes of a protocol value: `+`/`-`/`:` lines, length-prefixed
/// bulk strings, a count-prefixed concatenation for arrays, and the null
/// bulk-string marker for null. An error's optional detail is not emitted.
pub open spec fn spec_encode(v: SpecValue) -> Seq<u8>
    decreases v, 0int,
{
    match v {
        SpecValue::Null => seq![36u8, 45u8, 49u8, 13u8, 10u8],
        SpecValue::Simple(s) => seq![43u8] + encode_utf8(s) + seq![13u8, 10u8],
        SpecValue::Error(m, d) => seq![45u8] + encode_utf8(m) + seq![13u8, 10u8],
        SpecValue::Int(x) => seq![58u8] + spec_idec(x as int) + seq![13u8, 10u8],
        SpecValue::Bulk(b) => seq![36u8] + spec_idec(b.len() as int) + seq![13u8, 10u8] + b
            + seq![13u8, 10u8],
        SpecValue::Arr(vs) => seq![42u8] + spec_idec(vs.len() as int) + seq![13u8, 10u8]
            + spec_encode_elems(vs, 0),
    }
}

/// Appends a byte string.
fn push_bytes(out: &mut Vec<u8>, s: &[u8])
    ensures
        final(out)@ == old(out)@ + s@,
{
    let n = s.len();
    let mut i: usize = 0;
    while i < n
        invariant
            0 <= i <= n,
            n == s@.len(),
            out@ == old(out)@ + s@.take(i as int),
        decreases n - i,
    {
        out.push(s[i]);
        proof {
            assert(old(out)@ + s@.take(i + 1) =~= (old(out)@ + s@.take(i as int)).push(
                s@[i as int],
            ));
        }
        i = i + 1;
    }
    proof {
        assert(s@.take(n as int) =~= s@);
    }
}

/// Encodes a protocol value onto the end of `out`, exactly as
/// [`spec_encode`] describes. Never fails: every value has a wire form.
pub fn encode(v: &RespValue, out: &mut Vec<u8>)
    ensures
        final(out)@ == old(out)@ + spec_encode(v@),
    decreases v,
{
    match v {
        RespValue::Null => {
            out.push(36);
            out.push(45);
            out.push(49);
            out.push(13);
            out.push(10);
            proof {
                assert(final(out)@ =~= old(out)@ + spec_encode(v@));
            }
        },
        RespValue::SimpleString(s) => {
            out.push(43);
            push_bytes(out, s.as_str().as_bytes());
            out.push(13);
            out.push(10);
            proof {
                assert(final(out)@ =~= old(out)@ + spec_encode(v@));
            }
        },
        RespValue::Error(m, d) => {
            out.push(45);
            push_bytes(out, m.as_str().as_bytes());
            out.push(13);
            out.push(10);
            proof {
                assert(final(out)@ =~= old(out)@ + spec_encode(v@));
            }
        },
        RespValue::Integer(x) => {
            out.push(58);
            fmt_i64(*x, out);
            out.push(13);
            out.push(10);
            proof {
                assert(final(out)@ =~= old(out)@ + spec_encode(v@));
            }
        },
        RespValue::BulkString(b) => {
            out.push(36);
            fmt_usize(b.0.len(), out);
            out.push(13);
            out.push(10);
            push_bytes(out, b.0.as_slice());
            out.push(13);
            out.push(10);
            proof {
                assert(spec_idec(b@.len() as int) == crate::text::spec_udec(b@.len() as nat));
                assert(final(out)@ =~= old(out)@ + spec_encode(v@));
            }
        },
        RespValue::Array(a) => {
            let ghost em = v@->Arr_0;
            out.push(42);
            fmt_usize(a.len(), out);
            out.push(13);
            out.push(10);
            proof {
                assert(*v == RespValue::Array(*a));
                lemma_model_array(*a);
                assert(v@ == SpecValue::Arr(views_of(a@)));
                assert(em == views_of(a@));
                assert(em.len() == a@.len());
                assert(spec_idec(em.len() as int) == crate::text::spec_udec(em.len() as nat));
            }
            let ghost start = out@;
            proof {
                assert(start =~= old(out)@ + (seq![42u8] + crate::text::spec_udec(
                    em.len() as nat,
                ) + seq![13u8, 10u8]));
            }
            let len = a.len();
            let mut j: usize = 0;
            while j < len
                invariant
                    0 <= j <= len,
                    len == a@.len(),
                    *v == RespValue::Array(*a),
                    em == views_of(a@),
                    em.len() == len,
                    out@ + spec_encode_elems(em, j as int) == start + spec_encode_elems(em, 0),
                decreases len - j,
            {
                let elem = &a[j];
                proof {
                    assert(elem@ == em[j as int]);
                    assert(decreases_to!(*v => (*v)->Array_0));
                    vstd::std_specs::vecdeque::axiom_vec_dequeue_index_decreases(
                        (*v)->Array_0,
                        j as int,
                    );
                    assert(*elem == (*v)->Array_0[j as int]);
                    assert(decreases_to!(*v => *elem));
                }
                let ghost before = out@;
                encode(elem, out);
                proof {
                    assert(spec_encode_elems(em, j as int) == spec_encode(em[j as int])
                        + spec_encode_elems(em, j + 1));
                    assert(out@ + spec_encode_elems(em, j + 1) =~= before + spec_encode_elems(
                        em,
                        j as int,
                    ));
                }
                j = j + 1;
            }
            proof {
                assert(spec_encode_elems(em, len as int) == Seq::<u8>::empty());
                assert(out@ =~= out@ + spec_encode_elems(em, len as int));
                assert(spec_encode(v@) == seq![42u8] + spec_idec(em.len() as int) + seq![
                    13u8,
                    10u8,
                ] + spec_encode_elems(em, 0));
                assert(final(out)@ =~= old(out)@ + spec_encode(v@));
            }
        },
    }
}

/// No `\r\n` pair occurs anywhere in `s`.
pub open spec fn no_crlf(s: Seq<u8>) -> bool {
    forall|i: int| 0 <= i < s.len() - 1 ==> !((#[trigger] s[i]) == 13 && s[i + 1] == 10)
}

/// The line bytes a line accumulator stands for: the accumulated bytes
/// plus a pending `\r` not yet matched by `\n`.
pub open spec fn line_buf(acc: Seq<u8>, cr: bool) -> Seq<u8> {
    if cr {
        acc + seq![13u8]
    } else {
        acc
    }
}

/// The values whose wire form decodes back to themselves: texts free of
/// `\r\n`, errors without the unserialized detail, lengths that fit the
/// machine, and arrays of bulk strings and nulls — the only element forms
/// the inbound grammar accepts.
pub open spec fn wf_value(v: SpecValue) -> bool
    decreases v,
{
    match v {
        SpecValue::Simple(s) => no_crlf(encode_utf8(s)),
        SpecValue::Error(m, d) => d is None && no_crlf(encode_utf8(m)),
        SpecValue::Int(_) => true,
        SpecValue::Bulk(b) => b.len() <= usize::MAX && b.len() <= 0x7fff_ffff_ffff_ffff,
        SpecValue::Arr(vs) => {
            &&& vs.len() <= usize::MAX
            &&& vs.len() <= 0x7fff_ffff_ffff_ffff
            &&& forall|i: int|
                0 <= i < vs.len() ==> wf_value(#[trigger] vs[i]) && (vs[i] is Bulk || vs[i] is Null)
        },
        SpecValue::Null => true,
    }
}

/// One byte of input, from any position.
proof fn lemma_run_one(st: MState, b: u8)
    ensures
        spec_run(st, seq![b]) == (match spec_step(st, b) {
            StepOut::Next(c) => RunResult::More(c),
            StepOut::Emit(v) => RunResult::Val(v, 1),
            StepOut::Stop(e) => RunResult::Failed(e),
        }),
{
    let s = seq![b];
    assert(s[0] == b);
    assert(s.drop_first() =~= Seq::<u8>::empty());
    match spec_step(st, b) {
        StepOut::Next(c) => {
            assert(spec_run(c, s.drop_first()) == RunResult::More(c));
        },
        StepOut::Emit(_) => {},
        StepOut::Stop(_) => {},
    }
}

/// The line accumulator after more bytes, when none of them completes the
/// line.
pub open spec fn line_add(acc: Seq<u8>, cr: bool, s: Seq<u8>) -> (Seq<u8>, bool)
    decreases s.len(),
{
    if s.len() == 0 {
        (acc, cr)
    } else {
        match line_step(acc, cr, s[0]) {
            LineStep::Go(a2, c2) => line_add(a2, c2, s.drop_first()),
            LineStep::Done(_) => (acc, cr),
        }
    }
}

/// A top-level line accumulates any bytes that hold no `\r\n`.
proof fn lemma_run_line_more(kind: u8, acc: Seq<u8>, cr: bool, s: Seq<u8>)
    requires
        no_crlf(line_buf(acc, cr) + s),
    ensures
        spec_run(MState::InLine { kind, acc, cr }, s) == RunResult::More(
            MState::InLine { kind, acc: line_add(acc, cr, s).0, cr: line_add(acc, cr, s).1 },
        ),
        line_buf(line_add(acc, cr, s).0, line_add(acc, cr, s).1) == line_buf(acc, cr) + s,
    decreases s.len(),
{
    let l = line_buf(acc, cr);
    if s.len() == 0 {
        assert(l + s =~= l);
    } else {
        let b = s[0];
        if cr && b == 10 {
            assert((l + s)[l.len() - 1int] == 13);
            assert((l + s)[l.len() as int] == 10);
            assert(false);
        } else {
            let (a2, c2): (Seq<u8>, bool) = if cr {
                if b == 13 {
                    (acc.push(13), true)
                } else {
                    (acc.push(13).push(b), false)
                }
            } else {
                if b == 13 {
                    (acc, true)
                } else {
                    (acc.push(b), false)
                }
            };
            assert(spec_step(MState::InLine { kind, acc, cr }, b) == StepOut::Next(
                MState::InLine { kind, acc: a2, cr: c2 },
            ));
            assert(line_buf(a2, c2) =~= l + seq![b]);
            assert(line_buf(a2, c2) + s.drop_first() =~= l + s);
            lemma_run_line_more(kind, a2, c2, s.drop_first());
            assert(line_add(acc, cr, s) == line_add(a2, c2, s.drop_first()));
        }
    }
}

/// `\r\n` completes a top-level line; what follows is what the line means.
proof fn lemma_run_line_done(kind: u8, acc: Seq<u8>, cr: bool)
    ensures
        spec_run(MState::InLine { kind, acc, cr }, seq![13u8, 10u8]) == (match finish_line(
            kind,
            line_buf(acc, cr),
        ) {
            StepOut::Next(c) => RunResult::More(c),
            StepOut::Emit(v) => RunResult::Val(v, 2),
            StepOut::Stop(e) => RunResult::Failed(e),
        }),
{
    let l = line_buf(acc, cr);
    let s = seq![13u8, 10u8];
    assert(s[0] == 13);
    assert(s.drop_first() =~= seq![10u8]);
    let a1 = if cr {
        acc.push(13)
    } else {
        acc
    };
    assert(spec_step(MState::InLine { kind, acc, cr }, 13) == StepOut::Next(
        MState::InLine { kind, acc: a1, cr: true },
    ));
    assert(a1 =~= l);
    assert(spec_step(MState::InLine { kind, acc: a1, cr: true }, 10) == finish_line(kind, a1));
    lemma_run_one(MState::InLine { kind, acc: a1, cr: true }, 10);
}

/// An element's `$` length line accumulates any bytes free of `\r\n`.
proof fn lemma_run_elemline_more(
    rem: nat,
    items: Seq<SpecValue>,
    acc: Seq<u8>,
    cr: bool,
    s: Seq<u8>,
)
    requires
        no_crlf(line_buf(acc, cr) + s),
    ensures
        spec_run(MState::ElemLine { rem, items, acc, cr }, s) == RunResult::More(
            MState::ElemLine {
                rem,
                items,
                acc: line_add(acc, cr, s).0,
                cr: line_add(acc, cr, s).1,
            },
        ),
        line_buf(line_add(acc, cr, s).0, line_add(acc, cr, s).1) == line_buf(acc, cr) + s,
    decreases s.len(),
{
    let l = line_buf(acc, cr);
    if s.len() == 0 {
        assert(l + s =~= l);
    } else {
        let b = s[0];
        if cr && b == 10 {
            assert((l + s)[l.len() - 1int] == 13);
            assert((l + s)[l.len() as int] == 10);
            assert(false);
        } else {
            let (a2, c2): (Seq<u8>, bool) = if cr {
                if b == 13 {
                    (acc.push(13), true)
                } else {
                    (acc.push(13).push(b), false)
                }
            } else {
                if b == 13 {
                    (acc, true)
                } else {
                    (acc.push(b), false)
                }
            };
            assert(spec_step(MState::ElemLine { rem, items, acc, cr }, b) == StepOut::Next(
                MState::ElemLine { rem, items, acc: a2, cr: c2 },
            ));
            assert(line_buf(a2, c2) =~= l + seq![b]);
            assert(line_buf(a2, c2) + s.drop_first() =~= l + s);
            lemma_run_elemline_more(rem, items, a2, c2, s.drop_first());
            assert(line_add(acc, cr, s) == line_add(a2, c2, s.drop_first()));
        }
    }
}

/// `\r\n` completes an element's length line.
proof fn lemma_run_elemline_done(rem: nat, items: Seq<SpecValue>, acc: Seq<u8>, cr: bool)
    ensures
        spec_run(MState::ElemLine { rem, items, acc, cr }, seq![13u8, 10u8]) == (
        match finish_bulk_len(SpecCtx::InArr { rem, items }, line_buf(acc, cr)) {
            StepOut::Next(c) => RunResult::More(c),
            StepOut::Emit(v) => RunResult::Val(v, 2),
            StepOut::Stop(e) => RunResult::Failed(e),
        }),
{
    let l = line_buf(acc, cr);
    let s = seq![13u8, 10u8];
    assert(s[0] == 13);
    assert(s.drop_first() =~= seq![10u8]);
    let a1 = if cr {
        acc.push(13)
    } else {
        acc
    };
    assert(spec_step(MState::ElemLine { rem, items, acc, cr }, 13) == StepOut::Next(
        MState::ElemLine { rem, items, acc: a1, cr: true },
    ));
    assert(a1 =~= l);
    assert(spec_step(MState::ElemLine { rem, items, acc: a1, cr: true }, 10) == finish_bulk_len(
        SpecCtx::InArr { rem, items },
        a1,
    ));
    lemma_run_one(MState::ElemLine { rem, items, acc: a1, cr: true }, 10);
}

/// A bulk body consumes exactly the announced number of payload bytes.
proof fn lemma_run_body(ctx: SpecCtx, data: Seq<u8>, need: nat, s: Seq<u8>)
    requires
        s.len() == need,
        need >= 1,
    ensures
        spec_run(MState::InBody { ctx, data, need }, s) == RunResult::More(
            MState::InCr { ctx, data: data + s },
        ),
    decreases s.len(),
{
    let b = s[0];
    if need == 1 {
        assert(spec_step(MState::InBody { ctx, data, need }, b) == StepOut::Next(
            MState::InCr { ctx, data: data.push(b) },
        ));
        assert(s.drop_first() =~= Seq::<u8>::empty());
        assert(spec_run(MState::InCr { ctx, data: data.push(b) }, s.drop_first())
            == RunResult::More(MState::InCr { ctx, data: data.push(b) }));
        assert(data.push(b) =~= data + s);
        assert(spec_run(MState::InBody { ctx, data, need }, s) == RunResult::More(
            MState::InCr { ctx, data: data.push(b) },
        ));
    } else {
        assert(spec_step(MState::InBody { ctx, data, need }, b) == StepOut::Next(
            MState::InBody { ctx, data: data.push(b), need: (need - 1) as nat },
        ));
        lemma_run_body(ctx, data.push(b), (need - 1) as nat, s.drop_first());
        assert(data.push(b) + s.drop_first() =~= data + s);
        assert(spec_run(MState::InBody { ctx, data, need }, s) == RunResult::More(
            MState::InCr { ctx, data: data.push(b) + s.drop_first() },
        ));
    }
}

/// `\r\n` completes a bulk payload: delivered at top level or joined to
/// the surrounding array.
proof fn lemma_run_term(ctx: SpecCtx, data: Seq<u8>)
    ensures
        spec_run(MState::InCr { ctx, data }, seq![13u8, 10u8]) == (match ctx {
            SpecCtx::Top => RunResult::Val(SpecValue::Bulk(data), 2),
            SpecCtx::InArr { rem, items } => (match elem_done(rem, items, SpecValue::Bulk(data)) {
                StepOut::Next(c) => RunResult::More(c),
                StepOut::Emit(v) => RunResult::Val(v, 2),
                StepOut::Stop(e) => RunResult::Failed(e),
            }),
        }),
{
    let s = seq![13u8, 10u8];
    assert(s[0] == 13);
    assert(s.drop_first() =~= seq![10u8]);
    assert(spec_step(MState::InCr { ctx, data }, 13) == StepOut::Next(
        MState::InLf { ctx, data },
    ));
    lemma_run_one(MState::InLf { ctx, data }, 10);
}

/// Decimal text never holds a `\r\n`.
proof fn lemma_idec_no_crlf(v: int)
    ensures
        no_crlf(spec_idec(v)),
{
    if v < 0 {
        crate::text::lemma_udec_digits((-v) as nat);
        let s = spec_idec(v);
        assert forall|i: int| 0 <= i < s.len() implies s[i] != 13 by {
            if i > 0 {
                assert(crate::text::is_digit(crate::text::spec_udec((-v) as nat)[i - 1]));
            }
        }
    } else {
        crate::text::lemma_udec_digits(v as nat);
        let s = spec_idec(v);
        assert forall|i: int| 0 <= i < s.len() implies s[i] != 13 by {
            assert(crate::text::is_digit(crate::text::spec_udec(v as nat)[i]));
        }
    }
}

/// A step outcome as a run outcome, a completed value counting `n` bytes.
pub open spec fn lift_at(o: StepOut, n: int) -> RunResult {
    match o {
        StepOut::Next(c) => RunResult::More(c),
        StepOut::Emit(v) => RunResult::Val(v, n),
        StepOut::Stop(e) => RunResult::Failed(e),
    }
}

/// A bulk payload of the announced length followed by `\r\n` completes the
/// bulk string.
proof fn lemma_run_payload(ctx: SpecCtx, bb: Seq<u8>)
    ensures
        spec_run(
            if bb.len() == 0 {
                MState::InCr { ctx, data: Seq::empty() }
            } else {
                MState::InBody { ctx, data: Seq::empty(), need: bb.len() }
            },
            bb + seq![13u8, 10u8],
        ) == (match ctx {
            SpecCtx::Top => RunResult::Val(SpecValue::Bulk(bb), bb.len() as int + 2),
            SpecCtx::InArr { rem, items } => lift_at(
                elem_done(rem, items, SpecValue::Bulk(bb)),
                bb.len() as int + 2,
            ),
        }),
{
    if bb.len() == 0 {
        assert(bb + seq![13u8, 10u8] =~= seq![13u8, 10u8]);
        lemma_run_term(ctx, Seq::empty());
        assert(Seq::<u8>::empty() =~= bb);
    } else {
        let st0 = MState::InBody { ctx, data: Seq::empty(), need: bb.len() };
        lemma_run_body(ctx, Seq::empty(), bb.len(), bb);
        assert(Seq::<u8>::empty() + bb =~= bb);
        lemma_run_append(st0, bb, seq![13u8, 10u8]);
        lemma_run_term(ctx, bb);
    }
}

/// One array element (a bulk string or a null), from the position that
/// expects its `$`: its whole wire form joins it to the array.
proof fn lemma_run_elem(rem: nat, items: Seq<SpecValue>, e: SpecValue)
    requires
        wf_value(e),
        e is Bulk || e is Null,
    ensures
        spec_run(MState::AtElem { rem, items }, spec_encode(e)) == lift_at(
            elem_done(rem, items, e),
            spec_encode(e).len() as int,
        ),
{
    let enc = spec_encode(e);
    let st_a = MState::AtElem { rem, items };
    let st_e0 = MState::ElemLine { rem, items, acc: Seq::empty(), cr: false };
    assert(spec_step(st_a, 36) == StepOut::Next(st_e0));
    lemma_run_one(st_a, 36);
    let ctx = SpecCtx::InArr { rem, items };
    if e is Bulk {
        let bb = e->Bulk_0;
        let len = bb.len() as int;
        let hl = spec_idec(len);
        let tail2 = bb + seq![13u8, 10u8];
        let tail1 = seq![13u8, 10u8] + tail2;
        let tail0 = hl + tail1;
        assert(enc =~= seq![36u8] + tail0);
        lemma_run_append(st_a, seq![36u8], tail0);
        lemma_idec_no_crlf(len);
        assert(line_buf(Seq::empty(), false) + hl =~= hl);
        lemma_run_elemline_more(rem, items, Seq::empty(), false, hl);
        let la = line_add(Seq::empty(), false, hl);
        let st_e1 = MState::ElemLine { rem, items, acc: la.0, cr: la.1 };
        assert(line_buf(la.0, la.1) == line_buf(Seq::empty(), false) + hl);
        assert(line_buf(la.0, la.1) =~= hl);
        lemma_run_append(st_e0, hl, tail1);
        lemma_run_elemline_done(rem, items, la.0, la.1);
        crate::text::lemma_parse_idec(len);
        assert(spec_parse_i64(line_buf(la.0, la.1)) == Some(len));
        let st_p = if bb.len() == 0 {
            MState::InCr { ctx, data: Seq::empty() }
        } else {
            MState::InBody { ctx, data: Seq::empty(), need: bb.len() }
        };
        assert(finish_bulk_len(ctx, line_buf(la.0, la.1)) == StepOut::Next(st_p));
        assert(spec_run(st_e1, seq![13u8, 10u8]) == RunResult::More(st_p));
        lemma_run_append(st_e1, seq![13u8, 10u8], tail2);
        lemma_run_payload(ctx, bb);
        assert(spec_run(st_e1, tail1) == lift_at(
            elem_done(rem, items, SpecValue::Bulk(bb)),
            bb.len() as int + 4,
        ));
        assert(spec_run(st_e0, tail0) == lift_at(
            elem_done(rem, items, SpecValue::Bulk(bb)),
            hl.len() as int + bb.len() as int + 4,
        ));
        assert(enc.len() == 1 + hl.len() + bb.len() + 4);
        assert(SpecValue::Bulk(bb) == e);
    } else {
        assert(spec_udec(1) =~= seq![49u8]);
        assert(spec_idec(-1) =~= seq![45u8, 49u8]);
        let hl = spec_idec(-1);
        let tail1 = seq![13u8, 10u8];
        let tail0 = hl + tail1;
        assert(enc =~= seq![36u8] + tail0);
        lemma_run_append(st_a, seq![36u8], tail0);
        lemma_idec_no_crlf(-1);
        assert(line_buf(Seq::empty(), false) + hl =~= hl);
        lemma_run_elemline_more(rem, items, Seq::empty(), false, hl);
        let la = line_add(Seq::empty(), false, hl);
        let st_e1 = MState::ElemLine { rem, items, acc: la.0, cr: la.1 };
        assert(line_buf(la.0, la.1) =~= hl);
        lemma_run_append(st_e0, hl, tail1);
        lemma_run_elemline_done(rem, items, la.0, la.1);
        crate::text::lemma_parse_idec(-1);
        assert(spec_parse_i64(line_buf(la.0, la.1)) == Some(-1int));
        assert(finish_bulk_len(ctx, line_buf(la.0, la.1)) == elem_done(
            rem,
            items,
            SpecValue::Null,
        ));
        assert(spec_run(st_e0, tail0) == lift_at(elem_done(rem, items, e), hl.len() as int + 2));
        assert(enc.len() == 1 + hl.len() + 2);
    }
}

/// The elements of an array, encoded in order from position `i`, complete
/// the array whose first `i` elements are already parsed.
proof fn lemma_run_elems(vs: Seq<SpecValue>, i: int)
    requires
        0 <= i < vs.len(),
        forall|j: int|
            0 <= j < vs.len() ==> wf_value(#[trigger] vs[j]) && (vs[j] is Bulk || vs[j] is Null),
    ensures
        spec_run(
            MState::AtElem { rem: (vs.len() - i) as nat, items: vs.take(i) },
            spec_encode_elems(vs, i),
        ) == RunResult::Val(SpecValue::Arr(vs), spec_encode_elems(vs, i).len() as int),
    decreases vs.len() - i,
{
    let e = vs[i];
    let enc = spec_encode(e);
    let rest = spec_encode_elems(vs, i + 1);
    assert(spec_encode_elems(vs, i) == enc + rest);
    let rem = (vs.len() - i) as nat;
    let st_a = MState::AtElem { rem, items: vs.take(i) };
    lemma_run_elem(rem, vs.take(i), e);
    if i == vs.len() - 1 {
        assert(rem == 1);
        assert(vs.take(i).push(e) =~= vs);
        assert(elem_done(rem, vs.take(i), e) == StepOut::Emit(SpecValue::Arr(vs)));
        assert(rest == Seq::<u8>::empty());
        assert(enc + rest =~= enc);
    } else {
        assert(rem > 1);
        assert(vs.take(i).push(e) =~= vs.take(i + 1));
        assert(elem_done(rem, vs.take(i), e) == StepOut::Next(
            MState::AtElem { rem: (rem - 1) as nat, items: vs.take(i + 1) },
        ));
        assert((rem - 1) as nat == (vs.len() - (i + 1)) as nat);
        lemma_run_elems(vs, i + 1);
        lemma_run_append(st_a, enc, rest);
    }
}


/// A complete value is decided by its own bytes alone: whatever arrives
/// after it cannot change what was decoded or how many bytes it consumed.
pub proof fn lemma_parse_prefix_stable(s: Seq<u8>, t: Seq<u8>, v: SpecValue, n: int)
    requires
        spec_parse(s) == RunResult::Val(v, n),
    ensures
        spec_parse(s + t) == RunResult::Val(v, n),
{
    lemma_run_append(MState::Idle, s, t);
}

/// A negative count is the null marker for bulk strings and for arrays
/// alike: `$-1\r\n` and `*-1\r\n` each decode to null, five bytes
/// consumed, with no element read.
pub proof fn lemma_negative_counts_are_null()
    ensures
        spec_parse(seq![36u8, 45u8, 49u8, 13u8, 10u8]) == RunResult::Val(SpecValue::Null, 5),
        spec_parse(seq![42u8, 45u8, 49u8, 13u8, 10u8]) == RunResult::Val(SpecValue::Null, 5),
{
    assert(spec_udec(1) =~= seq![49u8]);
    assert(spec_idec(-1) =~= seq![45u8, 49u8]);
    let hl = spec_idec(-1);
    lemma_idec_no_crlf(-1);
    crate::text::lemma_parse_idec(-1);
    assert(spec_parse_i64(hl) == Some(-1int));
    assert(seq![36u8, 45u8, 49u8, 13u8, 10u8] =~= seq![36u8] + (hl + (seq![13u8, 10u8]
        + Seq::<u8>::empty())));
    lemma_run_header_tail(36, hl, Seq::empty());
    assert(finish_line(36, hl) == StepOut::Emit(SpecValue::Null));
    assert(seq![42u8, 45u8, 49u8, 13u8, 10u8] =~= seq![42u8] + (hl + (seq![13u8, 10u8]
        + Seq::<u8>::empty())));
    lemma_run_header_tail(42, hl, Seq::empty());
    assert(finish_line(42, hl) == StepOut::Emit(SpecValue::Null));
}

/// A run outcome reached after `n` earlier bytes: a completed value's
/// consumed count grows by `n`.
pub open spec fn shift_run(r: RunResult, n: int) -> RunResult {
    match r {
        RunResult::More(x) => RunResult::More(x),
        RunResult::Val(v, m) => RunResult::Val(v, m + n),
        RunResult::Failed(e) => RunResult::Failed(e),
    }
}

/// A prefixed header line followed by a tail: the prefix and line are
/// consumed, the line's meaning takes over, and the tail runs from there.
proof fn lemma_run_header_tail(kind: u8, hl: Seq<u8>, t: Seq<u8>)
    requires
        is_prefix_byte(kind),
        no_crlf(hl),
    ensures
        spec_run(MState::Idle, seq![kind] + (hl + (seq![13u8, 10u8] + t))) == (
        match finish_line(kind, hl) {
            StepOut::Next(c) => shift_run(spec_run(c, t), 3 + hl.len() as int),
            StepOut::Emit(v) => RunResult::Val(v, 3 + hl.len() as int),
            StepOut::Stop(e) => RunResult::Failed(e),
        }),
{
    let st0 = MState::InLine { kind, acc: Seq::empty(), cr: false };
    assert(spec_step(MState::Idle, kind) == StepOut::Next(st0));
    lemma_run_one(MState::Idle, kind);
    lemma_run_append(MState::Idle, seq![kind], hl + (seq![13u8, 10u8] + t));
    assert(line_buf(Seq::empty(), false) + hl =~= hl);
    lemma_run_line_more(kind, Seq::empty(), false, hl);
    let la = line_add(Seq::empty(), false, hl);
    let st1 = MState::InLine { kind, acc: la.0, cr: la.1 };
    assert(line_buf(la.0, la.1) =~= hl);
    lemma_run_append(st0, hl, seq![13u8, 10u8] + t);
    lemma_run_line_done(kind, la.0, la.1);
    lemma_run_append(st1, seq![13u8, 10u8], t);
    assert(finish_line(kind, line_buf(la.0, la.1)) == finish_line(kind, hl));
}

/// Round trip: every well-formed protocol value decodes from its own wire
/// form back to itself, consuming exactly its wire form. Excluded by
/// [`wf_value`] are the values whose wire form loses information or which
/// the inbound grammar cannot carry: an error with the unserialized
/// detail, texts containing `\r\n`, arrays with elements other than bulk
/// strings and nulls, and lengths beyond the machine.
#[verifier::rlimit(100)]
#[verifier::spinoff_prover]
pub proof fn lemma_round_trip(v: SpecValue)
    requires
        wf_value(v),
    ensures
        spec_parse(spec_encode(v)) == RunResult::Val(v, spec_encode(v).len() as int),
{
    let enc = spec_encode(v);
    match v {
        SpecValue::Simple(s) => {
            let p = encode_utf8(s);
            assert(enc =~= seq![43u8] + (p + (seq![13u8, 10u8] + Seq::<u8>::empty())));
            lemma_run_header_tail(43, p, Seq::empty());
            vstd::utf8::encode_utf8_valid_utf8(s);
            vstd::utf8::encode_utf8_decode_utf8(s);
            assert(finish_line(43, p) == StepOut::Emit(SpecValue::Simple(s)));
            assert(enc.len() == 3 + p.len());
        },
        SpecValue::Error(m, d) => {
            let p = encode_utf8(m);
            assert(enc =~= seq![45u8] + (p + (seq![13u8, 10u8] + Seq::<u8>::empty())));
            lemma_run_header_tail(45, p, Seq::empty());
            vstd::utf8::encode_utf8_valid_utf8(m);
            vstd::utf8::encode_utf8_decode_utf8(m);
            assert(finish_line(45, p) == StepOut::Emit(SpecValue::Error(m, Option::None)));
            assert(enc.len() == 3 + p.len());
        },
        SpecValue::Int(x) => {
            let hl = spec_idec(x as int);
            assert(enc =~= seq![58u8] + (hl + (seq![13u8, 10u8] + Seq::<u8>::empty())));
            lemma_idec_no_crlf(x as int);
            lemma_run_header_tail(58, hl, Seq::empty());
            crate::text::lemma_parse_idec(x as int);
            assert(finish_line(58, hl) == StepOut::Emit(SpecValue::Int(x)));
            assert(enc.len() == 3 + hl.len());
        },
        SpecValue::Bulk(bb) => {
            let len = bb.len() as int;
            let hl = spec_idec(len);
            let t = bb + seq![13u8, 10u8];
            assert(enc =~= seq![36u8] + (hl + (seq![13u8, 10u8] + t)));
            lemma_idec_no_crlf(len);
            lemma_run_header_tail(36, hl, t);
            crate::text::lemma_parse_idec(len);
            assert(spec_parse_i64(hl) == Some(len));
            let st_p = if bb.len() == 0 {
                MState::InCr { ctx: SpecCtx::Top, data: Seq::empty() }
            } else {
                MState::InBody { ctx: SpecCtx::Top, data: Seq::empty(), need: bb.len() }
            };
            assert(finish_line(36, hl) == StepOut::Next(st_p));
            lemma_run_payload(SpecCtx::Top, bb);
            assert(spec_run(st_p, t) == RunResult::Val(SpecValue::Bulk(bb), bb.len() as int + 2));
            assert(enc.len() == 3 + hl.len() + bb.len() + 2);
        },
        SpecValue::Arr(vs) => {
            let len = vs.len() as int;
            let hl = spec_idec(len);
            let elems = spec_encode_elems(vs, 0);
            assert(enc =~= seq![42u8] + (hl + (seq![13u8, 10u8] + elems)));
            lemma_idec_no_crlf(len);
            lemma_run_header_tail(42, hl, elems);
            crate::text::lemma_parse_idec(len);
            assert(spec_parse_i64(hl) == Some(len));
            if vs.len() == 0 {
                assert(finish_line(42, hl) == StepOut::Emit(SpecValue::Arr(Seq::empty())));
                assert(Seq::<SpecValue>::empty() =~= vs);
                assert(enc.len() == 3 + hl.len());
            } else {
                let st_a = MState::AtElem { rem: vs.len(), items: Seq::empty() };
                assert(finish_line(42, hl) == StepOut::Next(st_a));
                assert(vs.take(0) =~= Seq::<SpecValue>::empty());
                assert((vs.len() - 0) as nat == vs.len());
                lemma_run_elems(vs, 0);
                assert(spec_run(st_a, elems) == RunResult::Val(
                    SpecValue::Arr(vs),
                    elems.len() as int,
                ));
                assert(enc.len() == 3 + hl.len() + elems.len());
            }
        },
        SpecValue::Null => {
            assert(spec_udec(1) =~= seq![49u8]);
            assert(spec_idec(-1) =~= seq![45u8, 49u8]);
            let hl = spec_idec(-1);
            assert(enc =~= seq![36u8] + (hl + (seq![13u8, 10u8] + Seq::<u8>::empty())));
            lemma_idec_no_crlf(-1);
            lemma_run_header_tail(36, hl, Seq::empty());
            crate::text::lemma_parse_idec(-1);
            assert(spec_parse_i64(hl) == Some(-1int));
            assert(finish_line(36, hl) == StepOut::Emit(SpecValue::Null));
            assert(enc.len() == 3 + hl.len());
        },
    }
}

} // verus!
