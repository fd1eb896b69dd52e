//! Incremental parser for the line protocol:
//!
//! ```text
//! SUB <subject> <sid>\r\n
//! SUB <subject> <queue> <sid>\r\n
//! PUB <subject> <size>\r\n
//! <size bytes of payload>\r\n
//! ```
//!
//! The parser is fed byte chunks of any size; it keeps a partial command
//! across calls and hands out each complete command as views into its own
//! storage.
use vstd::prelude::*;
use vstd::slice::{slice_subrange, slice_to_vec};

use crate::errors::{NError, ERROR_PARSE};

verus! {

/// Capacity of the inline scratch buffer; longer commands spill to the heap.
pub const DEFAULT_BUF_LEN: usize = 512;

pub const BYTE_TAB: u8 = 9;

pub const BYTE_LF: u8 = 10;

pub const BYTE_CR: u8 = 13;

pub const BYTE_SPACE: u8 = 32;

/// Where the parser stands within the command being read.
#[derive(Debug, Clone, Copy, PartialEq, Eq, Structural)]
pub enum ParseState {
    OpStart,
    OpS,
    OpSu,
    OpSub,
    OpSubSpace,
    OpSubArg,
    OpP,
    OpPu,
    OpPub,
    OpPubSpace,
    OpPubArg,
    OpMsg,
    OpMsgFull,
}

// ---------------------------------------------------------------------------
// The mathematical model of the protocol.
// ---------------------------------------------------------------------------

/// The abstract state of a parser: the state tag, the argument line read so
/// far, the payload read so far and the declared payload size.
pub struct ParseModel {
    pub state: ParseState,
    pub arg: Seq<u8>,
    pub msg: Seq<u8>,
    pub total: nat,
}

/// A complete command.
pub enum FrameModel {
    Sub { subject: Seq<u8>, queue: Option<Seq<u8>>, sid: Seq<u8> },
    Pub { subject: Seq<u8>, size_buf: Seq<u8>, size: nat, msg: Seq<u8> },
}

/// What one input byte does to the abstract state.
pub enum StepModel {
    Next(ParseModel),
    Emit(FrameModel),
    Fail,
}

/// The result of reading a chunk up to the end of its first command.
pub enum ScanModel {
    /// The input is malformed.
    Fail,
    /// A command is complete after reading the bytes before the position.
    Frame(FrameModel, nat),
    /// All bytes were read and no command is complete yet.
    Pending(ParseModel),
}

pub open spec fn empty_model(state: ParseState) -> ParseModel {
    ParseModel { state, arg: seq![], msg: seq![], total: 0 }
}

pub open spec fn start_model() -> ParseModel {
    empty_model(ParseState::OpStart)
}

pub open spec fn is_sep(b: u8, tab: bool) -> bool {
    b == BYTE_SPACE || (tab && b == BYTE_TAB)
}

pub open spec fn is_blank(b: u8) -> bool {
    b == BYTE_SPACE || b == BYTE_TAB
}

/// The non-empty runs of non-separator bytes of `s`, from left to right.
/// Separators are spaces, and tabs too when `tab` holds.
pub open spec fn words(s: Seq<u8>, tab: bool) -> Seq<Seq<u8>>
    decreases s.len(),
{
    if s.len() == 0 {
        seq![]
    } else {
        let w = words(s.drop_last(), tab);
        let b = s.last();
        if is_sep(b, tab) {
            w
        } else if s.len() >= 2 && !is_sep(s[s.len() - 2], tab) && w.len() > 0 {
            w.update(w.len() - 1, w.last().push(b))
        } else {
            w.push(seq![b])
        }
    }
}

pub open spec fn is_digit(b: u8) -> bool {
    48 <= b <= 57
}

pub open spec fn all_digits(s: Seq<u8>) -> bool {
    forall|i: int| 0 <= i < s.len() ==> is_digit(#[trigger] s[i])
}

/// The number written in decimal by the digits `s`.
pub open spec fn decimal_value(s: Seq<u8>) -> nat
    decreases s.len(),
{
    if s.len() == 0 {
        0
    } else {
        decimal_value(s.drop_last()) * 10 + (s.last() - 48) as nat
    }
}

/// The command of a complete `SUB` argument line: two words are subject and
/// sid, three are subject, queue and sid.
pub open spec fn sub_frame(arg: Seq<u8>) -> Option<FrameModel> {
    let w = words(arg, false);
    if w.len() == 2 {
        Some(FrameModel::Sub { subject: w[0], queue: None, sid: w[1] })
    } else if w.len() == 3 {
        Some(FrameModel::Sub { subject: w[0], queue: Some(w[1]), sid: w[2] })
    } else {
        None
    }
}

/// Whether a complete `PUB` argument line is a subject and a size that fits
/// in `usize`.
pub open spec fn pub_header_ok(arg: Seq<u8>) -> bool {
    let w = words(arg, true);
    w.len() == 2 && w[1].len() > 0 && all_digits(w[1]) && decimal_value(w[1]) <= usize::MAX
}

pub open spec fn pub_size(arg: Seq<u8>) -> nat {
    decimal_value(words(arg, true)[1])
}

pub open spec fn pub_frame(m: ParseModel) -> FrameModel {
    let w = words(m.arg, true);
    FrameModel::Pub { subject: w[0], size_buf: w[1], size: m.total, msg: m.msg }
}

/// A byte of an argument line: `\r` is dropped, `\n` ends the line, any other
/// byte is kept.
pub open spec fn arg_byte(m: ParseModel, b: u8, is_pub: bool) -> StepModel {
    if b == BYTE_CR {
        StepModel::Next(m)
    } else if b == BYTE_LF {
        if !is_pub {
            match sub_frame(m.arg) {
                Some(f) => StepModel::Emit(f),
                None => StepModel::Fail,
            }
        } else if pub_header_ok(m.arg) {
            StepModel::Next(
                ParseModel { state: ParseState::OpMsg, arg: m.arg, msg: seq![], total: pub_size(m.arg) },
            )
        } else {
            StepModel::Fail
        }
    } else {
        StepModel::Next(ParseModel { state: m.state, arg: m.arg.push(b), msg: m.msg, total: m.total })
    }
}

pub open spec fn literal(b: u8, expect: u8, next: ParseState) -> StepModel {
    if b == expect {
        StepModel::Next(empty_model(next))
    } else {
        StepModel::Fail
    }
}

/// The protocol's state machine, one byte at a time.
pub open spec fn step(m: ParseModel, b: u8) -> StepModel {
    match m.state {
        ParseState::OpStart => if b == 83 {
            StepModel::Next(empty_model(ParseState::OpS))
        } else if b == 80 {
            StepModel::Next(empty_model(ParseState::OpP))
        } else {
            StepModel::Fail
        },
        ParseState::OpS => literal(b, 85, ParseState::OpSu),
        ParseState::OpSu => literal(b, 66, ParseState::OpSub),
        ParseState::OpSub => if is_blank(b) {
            StepModel::Next(empty_model(ParseState::OpSubSpace))
        } else {
            StepModel::Fail
        },
        ParseState::OpSubSpace => if is_blank(b) {
            StepModel::Next(m)
        } else {
            arg_byte(empty_model(ParseState::OpSubArg), b, false)
        },
        ParseState::OpSubArg => arg_byte(m, b, false),
        ParseState::OpP => literal(b, 85, ParseState::OpPu),
        ParseState::OpPu => literal(b, 66, ParseState::OpPub),
        ParseState::OpPub => if is_blank(b) {
            StepModel::Next(empty_model(ParseState::OpPubSpace))
        } else {
            StepModel::Fail
        },
        ParseState::OpPubSpace => if is_blank(b) {
            StepModel::Next(m)
        } else {
            arg_byte(empty_model(ParseState::OpPubArg), b, true)
        },
        ParseState::OpPubArg => arg_byte(m, b, true),
        ParseState::OpMsg => if m.msg.len() < m.total {
            StepModel::Next(ParseModel { state: m.state, arg: m.arg, msg: m.msg.push(b), total: m.total })
        } else if b == BYTE_CR {
            StepModel::Next(ParseModel { state: ParseState::OpMsgFull, arg: m.arg, msg: m.msg, total: m.total })
        } else {
            StepModel::Fail
        },
        ParseState::OpMsgFull => if b == BYTE_LF {
            StepModel::Emit(pub_frame(m))
        } else {
            StepModel::Fail
        },
    }
}

/// Reads `s` from position `i` until the first command completes.
pub open spec fn scan_from(m: ParseModel, s: Seq<u8>, i: int) -> ScanModel
    decreases s.len() - i,
{
    if i < 0 || i >= s.len() {
        ScanModel::Pending(m)
    } else {
        match step(m, s[i]) {
            StepModel::Fail => ScanModel::Fail,
            StepModel::Emit(f) => ScanModel::Frame(f, (i + 1) as nat),
            StepModel::Next(m2) => scan_from(m2, s, i + 1),
        }
    }
}

pub open spec fn scan(m: ParseModel, s: Seq<u8>) -> ScanModel {
    scan_from(m, s, 0)
}

/// Reads all of `s`: the commands completed on the way and the state left,
/// or `None` if the input is malformed.
pub open spec fn feed(m: ParseModel, s: Seq<u8>) -> Option<(Seq<FrameModel>, ParseModel)>
    decreases s.len(),
{
    if s.len() == 0 {
        Some((seq![], m))
    } else {
        match step(m, s[0]) {
            StepModel::Fail => None,
            StepModel::Emit(f) => match feed(start_model(), s.drop_first()) {
                Some((fs, w)) => Some((seq![f] + fs, w)),
                None => None,
            },
            StepModel::Next(m2) => feed(m2, s.drop_first()),
        }
    }
}

// ---------------------------------------------------------------------------
// Argument lines.
// ---------------------------------------------------------------------------

pub open spec fn word_ranges_ok(s: Seq<u8>, w: Seq<Seq<u8>>, r: Seq<(usize, usize)>) -> bool {
    &&& r.len() <= w.len()
    &&& forall|k: int|
        #![trigger r[k]]
        0 <= k < r.len() ==> {
            &&& r[k].0 <= r[k].1
            &&& r[k].1 <= s.len()
            &&& w[k] == s.subrange(r[k].0 as int, r[k].1 as int)
        }
}

/// Splits `s` into words (see `words`): returns their number, and the
/// ranges in `s` of the first three.
pub fn split_words(s: &[u8], tab: bool) -> (r: (usize, Vec<(usize, usize)>))
    ensures
        r.0 == words(s@, tab).len(),
        r.1@.len() == if r.0 < 3 { r.0 as int } else { 3 },
        word_ranges_ok(s@, words(s@, tab), r.1@),
{
    let n = s.len();
    let mut count: usize = 0;
    let mut ranges: Vec<(usize, usize)> = Vec::new();
    let mut i: usize = 0;
    proof {
        assert(s@.subrange(0, 0) =~= Seq::<u8>::empty());
    }
    while i < n
        invariant
            n == s@.len(),
            i <= n,
            count <= i,
            count == words(s@.subrange(0, i as int), tab).len(),
            ranges@.len() == if count < 3 { count as int } else { 3 },
            word_ranges_ok(s@, words(s@.subrange(0, i as int), tab), ranges@),
            forall|k: int| 0 <= k < ranges@.len() ==> #[trigger] ranges@[k].1 <= i,
            i > 0 && !is_sep(s@[i - 1], tab) && 0 < count <= 3 ==> ranges@[count - 1].1 == i,
        decreases n - i,
    {
        let b = s[i];
        let p = Ghost(s@.subrange(0, i as int));
        let p1 = Ghost(s@.subrange(0, i as int + 1));
        proof {
            assert(p1@.drop_last() =~= p@);
            assert(p1@.last() == b);
            if i > 0 {
                assert(p1@[i - 1] == s@[i - 1]);
            }
        }
        let sep = b == BYTE_SPACE || (tab && b == BYTE_TAB);
        let ghost old_ranges = ranges@;
        let ghost old_count = count;
        if sep {
            proof {
                assert(words(p1@, tab) == words(p@, tab));
            }
        } else if i > 0 && !(s[i - 1] == BYTE_SPACE || (tab && s[i - 1] == BYTE_TAB)) && count > 0 {
            let ghost w = words(p@, tab);
            proof {
                assert(words(p1@, tab) == w.update(w.len() - 1, w.last().push(b)));
            }
            if count <= 3 {
                let k = count - 1;
                let st = ranges[k].0;
                ranges.set(k, (st, i + 1));
                proof {
                    assert(w[k as int] == s@.subrange(st as int, i as int));
                    assert(s@.subrange(st as int, i + 1) =~= s@.subrange(st as int, i as int).push(b));
                }
            }
        } else {
            proof {
                let w = words(p@, tab);
                assert(words(p1@, tab) == w.push(seq![b]));
            }
            if count < 3 {
                ranges.push((i, i + 1));
                proof {
                    assert(s@.subrange(i as int, i + 1) =~= seq![b]);
                }
            }
            count = count + 1;
        }
        proof {
            let w = words(p@, tab);
            let w1 = words(p1@, tab);
            assert forall|k: int| #![trigger ranges@[k]] 0 <= k < ranges@.len() implies (ranges@[k].0
                <= ranges@[k].1 && ranges@[k].1 <= s@.len() && w1[k] == s@.subrange(
                ranges@[k].0 as int,
                ranges@[k].1 as int,
            )) by {
                if sep {
                    assert(ranges@[k] == old_ranges[k]);
                    assert(w1[k] == w[k]);
                } else if k < old_count as int - 1 {
                    assert(ranges@[k] == old_ranges[k]);
                    assert(w1[k] == w[k]);
                } else if k == old_count as int - 1 {
                    assert(old_ranges[k].0 <= old_ranges[k].1);
                    assert(ranges@[k].0 <= ranges@[k].1);
                    assert(w1[k] == s@.subrange(ranges@[k].0 as int, ranges@[k].1 as int));
                } else {
                    assert(w1[k] == s@.subrange(ranges@[k].0 as int, ranges@[k].1 as int));
                }
            }
            assert(ranges@.len() <= w1.len());
            assert(word_ranges_ok(s@, w1, ranges@));
        }
        i = i + 1;
    }
    proof {
        assert(s@.subrange(0, n as int) =~= s@);
    }
    (count, ranges)
}

/// Reads a decimal number: `None` unless `s` is a non-empty run of digits
/// whose value fits in `usize`.
pub fn parse_size(s: &[u8]) -> (r: Option<usize>)
    ensures
        r is Some <==> (s@.len() > 0 && all_digits(s@) && decimal_value(s@) <= usize::MAX),
        r is Some ==> r->Some_0 == decimal_value(s@),
{
    let n = s.len();
    if n == 0 {
        return None;
    }
    let mut v: usize = 0;
    let mut i: usize = 0;
    proof {
        assert(s@.subrange(0, 0) =~= Seq::<u8>::empty());
    }
    while i < n
        invariant
            n == s@.len(),
            i <= n,
            all_digits(s@.subrange(0, i as int)),
            v == decimal_value(s@.subrange(0, i as int)),
        decreases n - i,
    {
        let b = s[i];
        proof {
            assert(s@.subrange(0, i + 1).drop_last() =~= s@.subrange(0, i as int));
        }
        if b < 48 || b > 57 {
            proof {
                assert(!is_digit(s@[i as int]));
            }
            return None;
        }
        let d = (b - 48) as usize;
        match v.checked_mul(10) {
            None => {
                proof {
                    lemma_decimal_prefix_le(s@, i + 1);
                }
                return None;
            },
            Some(v10) => match v10.checked_add(d) {
                None => {
                    proof {
                        lemma_decimal_prefix_le(s@, i + 1);
                    }
                    return None;
                },
                Some(v1) => {
                    v = v1;
                },
            },
        }
        proof {
            let p1 = s@.subrange(0, i + 1);
            assert forall|j: int| 0 <= j < p1.len() implies is_digit(#[trigger] p1[j]) by {
                if j < i {
                    assert(p1[j] == s@.subrange(0, i as int)[j]);
                }
            }
        }
        i = i + 1;
    }
    proof {
        assert(s@.subrange(0, n as int) =~= s@);
    }
    Some(v)
}

/// A prefix of a run of digits is worth at most the whole run.
pub proof fn lemma_decimal_prefix_le(s: Seq<u8>, i: int)
    requires
        0 <= i <= s.len(),
    ensures
        decimal_value(s.subrange(0, i)) <= decimal_value(s),
    decreases s.len() - i,
{
    if i < s.len() {
        lemma_decimal_prefix_le(s, i + 1);
        assert(s.subrange(0, i + 1).drop_last() =~= s.subrange(0, i));
    } else {
        assert(s.subrange(0, i) =~= s);
    }
}

// ---------------------------------------------------------------------------
// Results handed to the caller: views into the parser's storage.
// ---------------------------------------------------------------------------

/// A `SUB` command.
#[derive(Debug, PartialEq)]
pub struct SubArg<'a> {
    pub subject: &'a [u8],
    pub sid: &'a [u8],
    pub queue: Option<&'a [u8]>,
}

/// A `PUB` command with its payload.
#[derive(Debug, PartialEq)]
pub struct PubArg<'a> {
    pub subject: &'a [u8],
    pub size_buf: &'a [u8],
    pub size: usize,
    pub msg: &'a [u8],
}

/// What one call of `Parser::parse` found.
#[derive(Debug, PartialEq)]
pub enum ParseResult<'a> {
    /// The bytes given did not complete a command.
    NoMsg,
    SubArg(SubArg<'a>),
    PubArg(PubArg<'a>),
}

impl<'a> ParseResult<'a> {
    /// The command this result stands for, `None` for `NoMsg`.
    pub open spec fn model(&self) -> Option<FrameModel> {
        match self {
            ParseResult::NoMsg => None,
            ParseResult::SubArg(s) => Some(
                FrameModel::Sub {
                    subject: s.subject@,
                    queue: match s.queue {
                        Some(q) => Some(q@),
                        None => None,
                    },
                    sid: s.sid@,
                },
            ),
            ParseResult::PubArg(p) => Some(
                FrameModel::Pub { subject: p.subject@, size_buf: p.size_buf@, size: p.size as nat, msg: p.msg@ },
            ),
        }
    }
}

// ---------------------------------------------------------------------------
// The parser.
// ---------------------------------------------------------------------------

pub open spec fn has_arg(s: ParseState) -> bool {
    s == ParseState::OpSubArg || s == ParseState::OpPubArg || s == ParseState::OpMsg || s
        == ParseState::OpMsgFull
}

pub open spec fn in_msg(s: ParseState) -> bool {
    s == ParseState::OpMsg || s == ParseState::OpMsgFull
}

/// A per-connection protocol parser. The bytes of the command being read
/// (argument line, then payload) are kept in an inline scratch buffer; once
/// they outgrow it they move, once, to a heap buffer that grows as needed.
pub struct Parser {
    state: ParseState,
    buf: Vec<u8>,
    arg_len: usize,
    msg_buf: Option<Vec<u8>>,
    msg_total_len: usize,
    msg_len: usize,
    done: bool,
}

impl Parser {
    /// The first `n` stored bytes.
    closed spec fn stored_upto(&self, n: int) -> Seq<u8> {
        match self.msg_buf {
            Some(v) => v@,
            None => self.buf@.subrange(0, n),
        }
    }

    closed spec fn storage_ok(&self, n: int) -> bool {
        &&& self.buf@.len() == DEFAULT_BUF_LEN
        &&& 0 <= n <= usize::MAX
        &&& match self.msg_buf {
            Some(v) => v@.len() == n,
            None => n <= DEFAULT_BUF_LEN,
        }
    }

    /// The bytes of the command being read: argument line, then payload.
    pub closed spec fn stored(&self) -> Seq<u8> {
        self.stored_upto(self.arg_len + self.msg_len)
    }

    pub closed spec fn arg(&self) -> Seq<u8> {
        self.stored().subrange(0, self.arg_len as int)
    }

    pub closed spec fn msg(&self) -> Seq<u8> {
        self.stored().subrange(self.arg_len as int, self.arg_len + self.msg_len)
    }

    /// The abstract state of the parser.
    pub closed spec fn model(&self) -> ParseModel {
        if self.done {
            start_model()
        } else {
            ParseModel {
                state: self.state,
                arg: if has_arg(self.state) {
                    self.arg()
                } else {
                    seq![]
                },
                msg: if in_msg(self.state) {
                    self.msg()
                } else {
                    seq![]
                },
                total: if in_msg(self.state) {
                    self.msg_total_len as nat
                } else {
                    0
                },
            }
        }
    }

    /// Whether the parser holds a command completed by the last call.
    pub closed spec fn holds_frame(&self) -> bool {
        self.done
    }

    /// The command completed by the last call of `parse`, while the parser
    /// still holds it.
    pub closed spec fn emitted(&self) -> FrameModel {
        if self.state == ParseState::OpSubArg {
            sub_frame(self.arg()).unwrap()
        } else {
            pub_frame(
                ParseModel {
                    state: self.state,
                    arg: self.arg(),
                    msg: self.msg(),
                    total: self.msg_total_len as nat,
                },
            )
        }
    }

    pub closed spec fn wf(&self) -> bool {
        &&& self.storage_ok(self.arg_len + self.msg_len)
        &&& !in_msg(self.state) ==> self.msg_len == 0
        &&& in_msg(self.state) ==> {
            &&& self.msg_len <= self.msg_total_len
            &&& pub_header_ok(self.arg())
            &&& pub_size(self.arg()) == self.msg_total_len
        }
        &&& self.state == ParseState::OpMsgFull ==> self.msg_len == self.msg_total_len
        &&& self.done ==> {
            ||| (self.state == ParseState::OpSubArg && sub_frame(self.arg()) is Some)
            ||| self.state == ParseState::OpMsgFull
        }
    }

    pub fn new() -> (r: Self)
        ensures
            r.wf(),
            r.model() == start_model(),
    {
        Self {
            state: ParseState::OpStart,
            buf: vec![0u8; DEFAULT_BUF_LEN],
            arg_len: 0,
            msg_buf: None,
            msg_total_len: 0,
            msg_len: 0,
            done: false,
        }
    }

    /// Appends `b` to the stored bytes, moving them to the heap buffer when
    /// the inline one is full.
    fn store(&mut self, b: u8)
        requires
            old(self).storage_ok(old(self).arg_len + old(self).msg_len),
        ensures
            final(self).storage_ok(old(self).arg_len + old(self).msg_len + 1),
            final(self).stored_upto(old(self).arg_len + old(self).msg_len + 1) == old(self).stored_upto(old(self).arg_len + old(self).msg_len).push(b),
            final(self).state == old(self).state,
            final(self).arg_len == old(self).arg_len,
            final(self).msg_len == old(self).msg_len,
            final(self).msg_total_len == old(self).msg_total_len,
            final(self).done == old(self).done,
    {
        let n = self.arg_len + self.msg_len;
        match self.msg_buf.take() {
            Some(mut v) => {
                v.push(b);
                let _ = v.len();
                self.msg_buf = Some(v);
            },
            None => {
                if n < DEFAULT_BUF_LEN {
                    self.buf.set(n, b);
                    proof {
                        assert(self.buf@.subrange(0, n + 1) =~= old(self).buf@.subrange(0, n as int).push(b));
                    }
                } else {
                    let mut v = slice_to_vec(slice_subrange(self.buf.as_slice(), 0, n));
                    v.push(b);
                    self.msg_buf = Some(v);
                }
            },
        }
    }

    /// The argument line stored so far.
    fn arg_slice(&self) -> (r: &[u8])
        requires
            self.wf(),
        ensures
            r@ == self.arg(),
    {
        let all = match &self.msg_buf {
            Some(v) => v.as_slice(),
            None => slice_subrange(self.buf.as_slice(), 0, self.arg_len + self.msg_len),
        };
        slice_subrange(all, 0, self.arg_len)
    }

    /// The payload stored so far.
    fn msg_slice(&self) -> (r: &[u8])
        requires
            self.wf(),
        ensures
            r@ == self.msg(),
    {
        let all = match &self.msg_buf {
            Some(v) => v.as_slice(),
            None => slice_subrange(self.buf.as_slice(), 0, self.arg_len + self.msg_len),
        };
        slice_subrange(all, self.arg_len, self.arg_len + self.msg_len)
    }

    fn fail<T>() -> (r: Result<T, NError>)
        ensures
            r is Err && r->Err_0.err_code == ERROR_PARSE,
    {
        Err(NError::new(ERROR_PARSE))
    }

    /// One byte of an argument line (see the spec function `arg_byte`).
    fn arg_byte(&mut self, b: u8, is_pub: bool) -> (r: Result<bool, NError>)
        requires
            old(self).wf(),
            !old(self).done,
            old(self).state == (if is_pub {
                ParseState::OpPubArg
            } else {
                ParseState::OpSubArg
            }),
        ensures
            final(self).wf(),
            match arg_byte(old(self).model(), b, is_pub) {
                StepModel::Fail => r is Err && r->Err_0.err_code == ERROR_PARSE,
                StepModel::Emit(f) => r == Ok::<bool, NError>(true) && final(self).done && final(self).emitted() == f,
                StepModel::Next(m) => r == Ok::<bool, NError>(false) && !final(self).done && final(self).model() == m,
            },
    {
        if b == BYTE_CR {
            return Ok(false);
        }
        if b == BYTE_LF {
            if !is_pub {
                let (count, _) = split_words(self.arg_slice(), false);
                if count == 2 || count == 3 {
                    self.done = true;
                    return Ok(true);
                }
                return Self::fail();
            } else {
                let (count, ranges) = split_words(self.arg_slice(), true);
                if count != 2 {
                    return Self::fail();
                }
                let (s, e) = ranges[1];
                match parse_size(slice_subrange(self.arg_slice(), s, e)) {
                    None => {
                        return Self::fail();
                    },
                    Some(n) => {
                        self.state = ParseState::OpMsg;
                        self.msg_total_len = n;
                        proof {
                            assert(self.msg() =~= Seq::<u8>::empty());
                        }
                        return Ok(false);
                    },
                }
            }
        }
        self.store(b);
        self.arg_len = self.arg_len + 1;
        proof {
            assert(self.arg() =~= old(self).arg().push(b));
        }
        Ok(false)
    }

    /// One byte of input (see the spec function `step`).
    fn step_byte(&mut self, b: u8) -> (r: Result<bool, NError>)
        requires
            old(self).wf(),
            !old(self).done,
        ensures
            final(self).wf(),
            match step(old(self).model(), b) {
                StepModel::Fail => r is Err && r->Err_0.err_code == ERROR_PARSE,
                StepModel::Emit(f) => r == Ok::<bool, NError>(true) && final(self).done && final(self).emitted() == f,
                StepModel::Next(m) => r == Ok::<bool, NError>(false) && !final(self).done && final(self).model() == m,
            },
    {
        let blank = b == BYTE_SPACE || b == BYTE_TAB;
        match self.state {
            ParseState::OpStart => {
                if b == 83 {
                    self.state = ParseState::OpS;
                } else if b == 80 {
                    self.state = ParseState::OpP;
                } else {
                    return Self::fail();
                }
            },
            ParseState::OpS => {
                if b == 85 {
                    self.state = ParseState::OpSu;
                } else {
                    return Self::fail();
                }
            },
            ParseState::OpSu => {
                if b == 66 {
                    self.state = ParseState::OpSub;
                } else {
                    return Self::fail();
                }
            },
            ParseState::OpSub => {
                if blank {
                    self.state = ParseState::OpSubSpace;
                } else {
                    return Self::fail();
                }
            },
            ParseState::OpSubSpace => {
                if !blank {
                    self.start_arg(ParseState::OpSubArg);
                    return self.arg_byte(b, false);
                }
            },
            ParseState::OpSubArg => {
                return self.arg_byte(b, false);
            },
            ParseState::OpP => {
                if b == 85 {
                    self.state = ParseState::OpPu;
                } else {
                    return Self::fail();
                }
            },
            ParseState::OpPu => {
                if b == 66 {
                    self.state = ParseState::OpPub;
                } else {
                    return Self::fail();
                }
            },
            ParseState::OpPub => {
                if blank {
                    self.state = ParseState::OpPubSpace;
                } else {
                    return Self::fail();
                }
            },
            ParseState::OpPubSpace => {
                if !blank {
                    self.start_arg(ParseState::OpPubArg);
                    return self.arg_byte(b, true);
                }
            },
            ParseState::OpPubArg => {
                return self.arg_byte(b, true);
            },
            ParseState::OpMsg => {
                if self.msg_len < self.msg_total_len {
                    self.store(b);
                    self.msg_len = self.msg_len + 1;
                    proof {
                        assert(self.arg() =~= old(self).arg());
                        assert(self.msg() =~= old(self).msg().push(b));
                    }
                } else if b == BYTE_CR {
                    self.state = ParseState::OpMsgFull;
                } else {
                    return Self::fail();
                }
            },
            ParseState::OpMsgFull => {
                if b == BYTE_LF {
                    self.done = true;
                    return Ok(true);
                } else {
                    return Self::fail();
                }
            },
        }
        Ok(false)
    }

    /// Begins an argument line: the stored bytes are dropped.
    fn start_arg(&mut self, state: ParseState)
        requires
            old(self).wf(),
            !old(self).done,
            state == ParseState::OpSubArg || state == ParseState::OpPubArg,
        ensures
            final(self).wf(),
            !final(self).done,
            final(self).state == state,
            final(self).model() == empty_model(state),
    {
        self.state = state;
        self.arg_len = 0;
        self.msg_len = 0;
        self.msg_buf = None;
        proof {
            assert(self.arg() =~= Seq::<u8>::empty());
        }
    }

    /// Reads `buf` up to the end of its first complete command: returns
    /// whether one was completed, and how many bytes were read.
    fn advance(&mut self, buf: &[u8]) -> (r: Result<(bool, usize), NError>)
        requires
            old(self).wf(),
        ensures
            final(self).wf(),
            match scan(old(self).model(), buf@) {
                ScanModel::Fail => r is Err && r->Err_0.err_code == ERROR_PARSE,
                ScanModel::Frame(f, n) => r is Ok && r->Ok_0.0 && r->Ok_0.1 == n
                    && final(self).holds_frame() && final(self).emitted() == f
                    && final(self).model() == start_model(),
                ScanModel::Pending(m) => r is Ok && !r->Ok_0.0 && r->Ok_0.1 == buf@.len()
                    && !final(self).holds_frame() && final(self).model() == m,
            },
    {
        let ghost m0 = self.model();
        if self.done {
            self.done = false;
            self.state = ParseState::OpStart;
            self.arg_len = 0;
            self.msg_len = 0;
            self.msg_buf = None;
        }
        let n = buf.len();
        let mut i: usize = 0;
        while i < n
            invariant
                n == buf@.len(),
                i <= n,
                self.wf(),
                !self.done,
                m0 == old(self).model(),
                scan_from(m0, buf@, 0) == scan_from(self.model(), buf@, i as int),
            decreases n - i,
        {
            let ghost m = self.model();
            let res = self.step_byte(buf[i]);
            proof {
                assert(scan_from(m, buf@, i as int) == match step(m, buf@[i as int]) {
                    StepModel::Fail => ScanModel::Fail,
                    StepModel::Emit(f) => ScanModel::Frame(f, (i + 1) as nat),
                    StepModel::Next(m2) => scan_from(m2, buf@, i + 1),
                });
            }
            match res {
                Err(e) => {
                    return Err(e);
                },
                Ok(true) => {
                    return Ok((true, i + 1));
                },
                Ok(false) => {},
            }
            i = i + 1;
        }
        proof {
            assert(scan_from(self.model(), buf@, n as int) == ScanModel::Pending(self.model()));
        }
        Ok((false, n))
    }

    /// The views of the command the parser holds.
    fn frame(&self) -> (r: ParseResult<'_>)
        requires
            self.wf(),
            self.holds_frame(),
        ensures
            r.model() == Some(self.emitted()),
    {
        let arg = self.arg_slice();
        if self.state == ParseState::OpSubArg {
            let (count, ranges) = split_words(arg, false);
            let subject = slice_subrange(arg, ranges[0].0, ranges[0].1);
            if count == 2 {
                let sid = slice_subrange(arg, ranges[1].0, ranges[1].1);
                ParseResult::SubArg(SubArg { subject, sid, queue: None })
            } else {
                let queue = slice_subrange(arg, ranges[1].0, ranges[1].1);
                let sid = slice_subrange(arg, ranges[2].0, ranges[2].1);
                ParseResult::SubArg(SubArg { subject, sid, queue: Some(queue) })
            }
        } else {
            let (count, ranges) = split_words(arg, true);
            let subject = slice_subrange(arg, ranges[0].0, ranges[0].1);
            let size_buf = slice_subrange(arg, ranges[1].0, ranges[1].1);
            ParseResult::PubArg(
                PubArg { subject, size_buf, size: self.msg_total_len, msg: self.msg_slice() },
            )
        }
    }

    /// Feeds `buf` to the parser and reads it up to the end of the first
    /// command that completes. Returns that command (`NoMsg` if none did) and
    /// the number of bytes read; the rest of `buf` is for the next call. The
    /// command's fields are views into the parser's own storage.
    pub fn parse(&mut self, buf: &[u8]) -> (r: Result<(ParseResult<'_>, usize), NError>)
        requires
            old(self).wf(),
        ensures
            final(self).wf(),
            match scan(old(self).model(), buf@) {
                ScanModel::Fail => r is Err && r->Err_0.err_code == ERROR_PARSE,
                ScanModel::Frame(f, n) => r is Ok && r->Ok_0.0.model() == Some(f) && r->Ok_0.1 == n
                    && final(self).model() == start_model(),
                ScanModel::Pending(m) => r is Ok && r->Ok_0.0.model() == None::<FrameModel>
                    && r->Ok_0.1 == buf@.len() && final(self).model() == m,
            },
    {
        match self.advance(buf) {
            Err(e) => Err(e),
            Ok((false, n)) => Ok((ParseResult::NoMsg, n)),
            Ok((true, n)) => Ok((self.frame(), n)),
        }
    }
}

/// Walks a chunk of input through a parser, one command per step.
pub struct ParseIter<'a> {
    buf: &'a [u8],
}

impl<'a> ParseIter<'a> {
    /// The part of the chunk not read yet.
    pub closed spec fn rest(&self) -> Seq<u8> {
        self.buf@
    }

    pub fn new(buf: &'a [u8]) -> (r: Self)
        ensures
            r.rest() == buf@,
    {
        ParseIter { buf }
    }

    /// Reads the rest of the chunk up to the end of its next command;
    /// `None` once the chunk is used up. What `parser` did not read stays
    /// for the next step.
    pub fn next<'p>(&mut self, parser: &'p mut Parser) -> (r: Option<Result<ParseResult<'p>, NError>>)
        requires
            old(parser).wf(),
        ensures
            old(self).rest().len() == 0 <==> r is None,
            r is None ==> *final(parser) == *old(parser) && final(self).rest() == old(self).rest(),
            r is Some ==> final(parser).wf() && match scan(old(parser).model(), old(self).rest()) {
                ScanModel::Fail => r->Some_0 is Err && r->Some_0->Err_0.err_code == ERROR_PARSE,
                ScanModel::Frame(f, n) => r->Some_0 is Ok && r->Some_0->Ok_0.model() == Some(f)
                    && final(parser).model() == start_model()
                    && final(self).rest() == old(self).rest().subrange(n as int, old(self).rest().len() as int),
                ScanModel::Pending(m) => r->Some_0 is Ok && r->Some_0->Ok_0.model() == None::<FrameModel>
                    && final(parser).model() == m && final(self).rest().len() == 0,
            },
    {
        if self.buf.len() == 0 {
            return None;
        }
        proof {
            lemma_scan_feed(parser.model(), self.buf@, 0);
        }
        match parser.parse(self.buf) {
            Err(e) => Some(Err(e)),
            Ok((res, n)) => {
                self.buf = slice_subrange(self.buf, n, self.buf.len());
                Some(Ok(res))
            },
        }
    }
}

// ---------------------------------------------------------------------------
// Laws of the protocol model.
// ---------------------------------------------------------------------------

/// Reads `a` and then `b` from the state that `a` left.
pub open spec fn feed_then(m: ParseModel, a: Seq<u8>, b: Seq<u8>) -> Option<(Seq<FrameModel>, ParseModel)> {
    match feed(m, a) {
        None => None,
        Some((fa, ma)) => match feed(ma, b) {
            None => None,
            Some((fb, mb)) => Some((fa + fb, mb)),
        },
    }
}

/// Resumability: input split at any byte into two chunks, read one after
/// the other, gives the same commands, in the same order, and the same final
/// state (or the same failure) as the whole input read at once.
pub proof fn lemma_feed_split(m: ParseModel, a: Seq<u8>, b: Seq<u8>)
    ensures
        feed(m, a + b) == feed_then(m, a, b),
    decreases a.len(),
{
    if a.len() == 0 {
        assert(a + b =~= b);
        match feed(m, b) {
            None => {},
            Some((fb, mb)) => {
                assert(Seq::<FrameModel>::empty() + fb =~= fb);
            },
        }
    } else {
        assert((a + b)[0] == a[0]);
        assert((a + b).drop_first() =~= a.drop_first() + b);
        match step(m, a[0]) {
            StepModel::Fail => {},
            StepModel::Emit(f) => {
                lemma_feed_split(start_model(), a.drop_first(), b);
                match feed(start_model(), a.drop_first()) {
                    None => {},
                    Some((fa, ma)) => match feed(ma, b) {
                        None => {},
                        Some((fb, mb)) => {
                            assert(seq![f] + (fa + fb) =~= (seq![f] + fa) + fb);
                        },
                    },
                }
            },
            StepModel::Next(m2) => {
                lemma_feed_split(m2, a.drop_first(), b);
            },
        }
    }
}

/// What one call of `parse` reads agrees with `feed`: a failure is a failure
/// of `feed`; a command found after `n` bytes is the first command that
/// `feed` yields, and the rest are read from the start state at `n`; with no
/// command found, `feed` yields none and leaves the same state.
pub proof fn lemma_scan_feed(m: ParseModel, s: Seq<u8>, i: int)
    requires
        0 <= i <= s.len(),
    ensures
        match scan_from(m, s, i) {
            ScanModel::Fail => feed(m, s.subrange(i, s.len() as int)) is None,
            ScanModel::Frame(f, n) => i < n <= s.len() && feed(m, s.subrange(i, s.len() as int)) == match feed(
                start_model(),
                s.subrange(n as int, s.len() as int),
            ) {
                None => None,
                Some((fs, w)) => Some((seq![f] + fs, w)),
            },
            ScanModel::Pending(w) => feed(m, s.subrange(i, s.len() as int)) == Some((Seq::<FrameModel>::empty(), w)),
        },
    decreases s.len() - i,
{
    let rest = s.subrange(i, s.len() as int);
    if i < s.len() {
        assert(rest[0] == s[i]);
        assert(rest.drop_first() =~= s.subrange(i + 1, s.len() as int));
        match step(m, s[i]) {
            StepModel::Fail => {},
            StepModel::Emit(f) => {},
            StepModel::Next(m2) => {
                lemma_scan_feed(m2, s, i + 1);
            },
        }
    }
}

/// Whether `w` is a contiguous run of the bytes of `s`.
pub open spec fn is_slice_of(w: Seq<u8>, s: Seq<u8>) -> bool {
    exists|a: int, b: int| 0 <= a <= b <= s.len() && w == s.subrange(a, b)
}

/// Every word of `s` is a run of its bytes; a last byte that is no separator
/// ends the last word.
proof fn lemma_words_are_slices(s: Seq<u8>, tab: bool)
    ensures
        forall|k: int| 0 <= k < words(s, tab).len() ==> is_slice_of(#[trigger] words(s, tab)[k], s),
        s.len() > 0 && !is_sep(s.last(), tab) ==> words(s, tab).len() > 0 && exists|a: int|
            0 <= a < s.len() && #[trigger] words(s, tab).last() == s.subrange(a, s.len() as int),
    decreases s.len(),
{
    if s.len() > 0 {
        let p = s.drop_last();
        lemma_words_are_slices(p, tab);
        let w = words(p, tab);
        let b = s.last();
        assert forall|k: int| 0 <= k < w.len() implies is_slice_of(#[trigger] w[k], s) by {
            assert(is_slice_of(w[k], p));
            let (x, y) = choose|x: int, y: int| 0 <= x <= y <= p.len() && w[k] == p.subrange(x, y);
            assert(p.subrange(x, y) =~= s.subrange(x, y));
        }
        let n = s.len() as int;
        if is_sep(b, tab) {
        } else if s.len() >= 2 && !is_sep(s[s.len() - 2], tab) && w.len() > 0 {
            assert(p.last() == s[n - 2]);
            let a = choose|a: int| 0 <= a < p.len() && #[trigger] w.last() == p.subrange(a, p.len() as int);
            assert(w.last().push(b) =~= s.subrange(a, n));
            let w1 = words(s, tab);
            assert(w1.last() == s.subrange(a, n));
            assert forall|k: int| 0 <= k < w1.len() implies is_slice_of(#[trigger] w1[k], s) by {
                if k < w.len() - 1 {
                    assert(w1[k] == w[k]);
                } else {
                    assert(w1[k] == s.subrange(a, n));
                }
            }
        } else {
            assert(seq![b] =~= s.subrange(n - 1, n));
            let w1 = words(s, tab);
            assert(w1.last() == s.subrange(n - 1, n));
            assert forall|k: int| 0 <= k < w1.len() implies is_slice_of(#[trigger] w1[k], s) by {
                if k < w.len() {
                    assert(w1[k] == w[k]);
                } else {
                    assert(w1[k] == s.subrange(n - 1, n));
                }
            }
        }
    }
}

pub open spec fn no_line_end(s: Seq<u8>) -> bool {
    forall|k: int| 0 <= k < s.len() ==> #[trigger] s[k] != BYTE_CR && s[k] != BYTE_LF
}

/// Bytes of an argument line other than `\r` and `\n` are kept, in order.
proof fn lemma_scan_arg(m: ParseModel, s: Seq<u8>, i: int, j: int)
    requires
        m.state == ParseState::OpSubArg || m.state == ParseState::OpPubArg,
        0 <= i <= j <= s.len(),
        forall|k: int| i <= k < j ==> #[trigger] s[k] != BYTE_CR && s[k] != BYTE_LF,
    ensures
        scan_from(m, s, i) == scan_from(
            ParseModel { state: m.state, arg: m.arg + s.subrange(i, j), msg: m.msg, total: m.total },
            s,
            j,
        ),
    decreases j - i,
{
    if i < j {
        let m2 = ParseModel { state: m.state, arg: m.arg.push(s[i]), msg: m.msg, total: m.total };
        lemma_scan_arg(m2, s, i + 1, j);
        assert(m.arg.push(s[i]) + s.subrange(i + 1, j) =~= m.arg + s.subrange(i, j));
    } else {
        assert(m.arg + s.subrange(i, j) =~= m.arg);
    }
}

/// Payload bytes are kept, in order, whatever they are, up to the declared size.
proof fn lemma_scan_msg(m: ParseModel, s: Seq<u8>, i: int, j: int)
    requires
        m.state == ParseState::OpMsg,
        0 <= i <= j <= s.len(),
        m.msg.len() + (j - i) <= m.total,
    ensures
        scan_from(m, s, i) == scan_from(
            ParseModel { state: m.state, arg: m.arg, msg: m.msg + s.subrange(i, j), total: m.total },
            s,
            j,
        ),
    decreases j - i,
{
    if i < j {
        let m2 = ParseModel { state: m.state, arg: m.arg, msg: m.msg.push(s[i]), total: m.total };
        lemma_scan_msg(m2, s, i + 1, j);
        assert(m.msg.push(s[i]) + s.subrange(i + 1, j) =~= m.msg + s.subrange(i, j));
    } else {
        assert(m.msg + s.subrange(i, j) =~= m.msg);
    }
}

/// The bytes of the command `SUB <arg>\r\n`.
pub open spec fn sub_line(arg: Seq<u8>) -> Seq<u8> {
    seq![83u8, 85, 66, 32] + arg + seq![13u8, 10]
}

/// The bytes of the command `PUB <arg>\r\n<payload>\r\n`.
pub open spec fn pub_command(arg: Seq<u8>, payload: Seq<u8>) -> Seq<u8> {
    seq![80u8, 85, 66, 32] + arg + seq![13u8, 10] + payload + seq![13u8, 10]
}

/// Zero-copy correctness of `SUB`: the whole line is one command, and its
/// subject, queue and sid are runs of the input's own bytes.
pub proof fn lemma_sub_views_are_input(arg: Seq<u8>)
    requires
        arg.len() > 0,
        !is_blank(arg[0]),
        no_line_end(arg),
        sub_frame(arg) is Some,
    ensures
        scan(start_model(), sub_line(arg)) == ScanModel::Frame(sub_frame(arg).unwrap(), sub_line(arg).len()),
        match sub_frame(arg).unwrap() {
            FrameModel::Sub { subject, queue, sid } => is_slice_of(subject, sub_line(arg)) && is_slice_of(
                sid,
                sub_line(arg),
            ) && (queue is Some ==> is_slice_of(queue.unwrap(), sub_line(arg))),
            _ => false,
        },
{
    let s = sub_line(arg);
    let n = arg.len() as int;
    assert(s[0] == 83u8 && s[1] == 85u8 && s[2] == 66u8 && s[3] == 32u8);
    assert(s[4 + n] == BYTE_CR && s[5 + n] == BYTE_LF);
    assert forall|k: int| 4 <= k < 4 + n implies #[trigger] s[k] != BYTE_CR && s[k] != BYTE_LF by {
        assert(s[k] == arg[k - 4]);
    }
    assert(s[4] == arg[0]);
    let m1 = ParseModel { state: ParseState::OpSubArg, arg: seq![arg[0]], msg: seq![], total: 0 };
    lemma_scan_arg(m1, s, 5, 4 + n);
    assert(seq![arg[0]] + s.subrange(5, 4 + n) =~= arg);
    let ma = ParseModel { state: ParseState::OpSubArg, arg: arg, msg: seq![], total: 0 };
    assert(scan_from(ma, s, 4 + n) == scan_from(ma, s, 5 + n));
    assert(Seq::<u8>::empty().push(arg[0]) =~= seq![arg[0]]);
    assert(scan_from(empty_model(ParseState::OpSubSpace), s, 4) == scan_from(m1, s, 5));
    assert(scan_from(empty_model(ParseState::OpSub), s, 3) == scan_from(empty_model(ParseState::OpSubSpace), s, 4));
    assert(scan_from(empty_model(ParseState::OpSu), s, 2) == scan_from(empty_model(ParseState::OpSub), s, 3));
    assert(scan_from(empty_model(ParseState::OpS), s, 1) == scan_from(empty_model(ParseState::OpSu), s, 2));
    assert(scan_from(start_model(), s, 0) == scan_from(empty_model(ParseState::OpS), s, 1));
    assert(scan(start_model(), s) == scan_from(m1, s, 5));
    lemma_words_are_slices(arg, false);
    let w = words(arg, false);
    assert forall|k: int| 0 <= k < w.len() implies is_slice_of(#[trigger] w[k], s) by {
        assert(is_slice_of(w[k], arg));
        let (a, b) = choose|a: int, b: int| 0 <= a <= b <= arg.len() && w[k] == arg.subrange(a, b);
        assert(arg.subrange(a, b) =~= s.subrange(4 + a, 4 + b));
    }
}

/// Zero-copy correctness of `PUB`: the whole command is one command; its
/// subject and size are runs of the input's bytes, and its payload is exactly
/// the bytes between the two line ends.
pub proof fn lemma_pub_views_are_input(arg: Seq<u8>, payload: Seq<u8>)
    requires
        arg.len() > 0,
        !is_blank(arg[0]),
        no_line_end(arg),
        pub_header_ok(arg),
        payload.len() == pub_size(arg),
    ensures
        scan(start_model(), pub_command(arg, payload)) == ScanModel::Frame(
            FrameModel::Pub {
                subject: words(arg, true)[0],
                size_buf: words(arg, true)[1],
                size: payload.len(),
                msg: payload,
            },
            pub_command(arg, payload).len(),
        ),
        is_slice_of(words(arg, true)[0], pub_command(arg, payload)),
        is_slice_of(words(arg, true)[1], pub_command(arg, payload)),
        payload == pub_command(arg, payload).subrange(arg.len() + 6int, arg.len() + 6int + payload.len()),
{
    let s = pub_command(arg, payload);
    let n = arg.len() as int;
    let l = payload.len() as int;
    assert(s[0] == 80u8 && s[1] == 85u8 && s[2] == 66u8 && s[3] == 32u8);
    assert(s[4 + n] == BYTE_CR && s[5 + n] == BYTE_LF);
    assert(s[6 + n + l] == BYTE_CR && s[7 + n + l] == BYTE_LF);
    assert forall|k: int| 4 <= k < 4 + n implies #[trigger] s[k] != BYTE_CR && s[k] != BYTE_LF by {
        assert(s[k] == arg[k - 4]);
    }
    assert(s[4] == arg[0]);
    let m1 = ParseModel { state: ParseState::OpPubArg, arg: seq![arg[0]], msg: seq![], total: 0 };
    lemma_scan_arg(m1, s, 5, 4 + n);
    assert(seq![arg[0]] + s.subrange(5, 4 + n) =~= arg);
    let ma = ParseModel { state: ParseState::OpPubArg, arg: arg, msg: seq![], total: 0 };
    assert(scan_from(ma, s, 4 + n) == scan_from(ma, s, 5 + n));
    let mm = ParseModel { state: ParseState::OpMsg, arg: arg, msg: seq![], total: pub_size(arg) };
    assert(scan_from(ma, s, 5 + n) == scan_from(mm, s, 6 + n));
    lemma_scan_msg(mm, s, 6 + n, 6 + n + l);
    assert(s.subrange(6 + n, 6 + n + l) =~= payload);
    assert(Seq::<u8>::empty() + payload =~= payload);
    let mf = ParseModel { state: ParseState::OpMsg, arg: arg, msg: payload, total: pub_size(arg) };
    let mg = ParseModel { state: ParseState::OpMsgFull, arg: arg, msg: payload, total: pub_size(arg) };
    assert(scan_from(mf, s, 6 + n + l) == scan_from(mg, s, 7 + n + l));
    assert(Seq::<u8>::empty().push(arg[0]) =~= seq![arg[0]]);
    assert(scan_from(empty_model(ParseState::OpPubSpace), s, 4) == scan_from(m1, s, 5));
    assert(scan_from(empty_model(ParseState::OpPub), s, 3) == scan_from(empty_model(ParseState::OpPubSpace), s, 4));
    assert(scan_from(empty_model(ParseState::OpPu), s, 2) == scan_from(empty_model(ParseState::OpPub), s, 3));
    assert(scan_from(empty_model(ParseState::OpP), s, 1) == scan_from(empty_model(ParseState::OpPu), s, 2));
    assert(scan_from(start_model(), s, 0) == scan_from(empty_model(ParseState::OpP), s, 1));
    assert(scan(start_model(), s) == scan_from(m1, s, 5));
    lemma_words_are_slices(arg, true);
    let w = words(arg, true);
    assert forall|k: int| 0 <= k < w.len() implies is_slice_of(#[trigger] w[k], s) by {
        assert(is_slice_of(w[k], arg));
        let (a, b) = choose|a: int, b: int| 0 <= a <= b <= arg.len() && w[k] == arg.subrange(a, b);
        assert(arg.subrange(a, b) =~= s.subrange(4 + a, 4 + b));
    }
}

} // verus!
