//! The streaming wire-protocol codec: an incremental parser from bytes to
//! wire values, specified against a mathematical parser (`spec_parse_at`)
//! and related to the byte encoding by the round-trip lemmas.

use vstd::prelude::*;

use crate::value::{
    Value, ValueModel, model_elems, lemma_model_elems, RESP_MAX_SIZE, wf, wf_elems, encoding,
    encode_elems, int_bytes, dec_digits, crlf, is_cont, is_utf8,
};
use crate::decimal::{digits_val, lemma_digits_canonical, lemma_digits_val_bounds, lemma_dec_digits_props};

verus! {

/// Which length-prefixed form carried a declared length outside
/// `{-1} ∪ [0, 512 MiB)`.
#[derive(Copy, Clone, Debug, PartialEq)]
pub enum OutOfRangeType {
    Array,
    BulkString,
}

/// Outcome of parsing one frame.
///
/// `Incomplete` is the internal retry signal: the input is a valid prefix of
/// a frame but more bytes are needed. `OutOfRange` and `Malformed` are
/// terminal for the current frame.
#[derive(Debug, PartialEq)]
pub enum Error {
    /// A declared length outside `{-1} ∪ [0, 512 MiB)`.
    OutOfRange(OutOfRangeType, i64),
    /// The bytes violate the frame grammar.
    Malformed,
    /// A valid prefix of a frame; more input is needed.
    Incomplete,
}

/// Outcome of the mathematical integer scanner.
pub enum ScanInt {
    /// A canonical integer `v` with its terminating CRLF; `end` is the index
    /// just past the LF.
    Done(int, int),
    /// The input ends before the integer's CRLF.
    More,
    /// Not a canonical integer followed by CRLF.
    Bad,
}

/// Outcome of the mathematical line scanner (text up to the next CRLF).
pub enum ScanLine {
    /// The content bytes and the index just past the LF.
    Done(Seq<u8>, int),
    More,
    Bad,
}

/// Outcome of the mathematical frame parser.
pub enum SpecParse {
    /// The value's model and the index just past its frame.
    Done(ValueModel, int),
    More,
    OutOfRange(OutOfRangeType, int),
    Bad,
}

/// Outcome of the mathematical element-list parser.
pub enum SpecParseList {
    Done(Seq<ValueModel>, int),
    More,
    OutOfRange(OutOfRangeType, int),
    Bad,
}

/// ASCII decimal digit.
pub open spec fn is_digit(b: u8) -> bool {
    48 <= b <= 57
}

/// Expect CRLF at `i`, completing an integer of value `v`.
pub open spec fn scan_crlf(s: Seq<u8>, i: int, v: int) -> ScanInt {
    if i >= s.len() {
        ScanInt::More
    } else if s[i] == 13 {
        if i + 1 >= s.len() {
            ScanInt::More
        } else if s[i + 1] == 10 {
            ScanInt::Done(v, i + 2)
        } else {
            ScanInt::Bad
        }
    } else {
        ScanInt::Bad
    }
}

/// Scan a (possibly empty) run of further digits starting at `i`, with the
/// digits read so far worth `acc`, then the terminating CRLF.
pub open spec fn scan_num(s: Seq<u8>, i: int, acc: int) -> ScanInt
    decreases s.len() - i,
{
    if i < s.len() && is_digit(s[i]) {
        scan_num(s, i + 1, acc * 10 + (s[i] - 48))
    } else {
        scan_crlf(s, i, acc)
    }
}

/// Scan a canonical signed decimal integer starting at `i`, terminated by
/// CRLF: an optional `-`, no leading zeros, no `-0`, within `i64` range.
pub open spec fn scan_int(s: Seq<u8>, i: int) -> ScanInt {
    if i >= s.len() {
        ScanInt::More
    } else if s[i] == 45 {
        if i + 1 >= s.len() {
            ScanInt::More
        } else if 49 <= s[i + 1] <= 57 {
            match scan_num(s, i + 2, (s[i + 1] - 48) as int) {
                ScanInt::Done(v, end) => if v <= 9223372036854775808 {
                    ScanInt::Done(-v, end)
                } else {
                    ScanInt::Bad
                },
                r => r,
            }
        } else {
            ScanInt::Bad
        }
    } else if s[i] == 48 {
        scan_crlf(s, i + 1, 0)
    } else if 49 <= s[i] <= 57 {
        match scan_num(s, i + 1, (s[i] - 48) as int) {
            ScanInt::Done(v, end) => if v <= 9223372036854775807 {
                ScanInt::Done(v, end)
            } else {
                ScanInt::Bad
            },
            r => r,
        }
    } else {
        ScanInt::Bad
    }
}

/// Scan text content from `start`, up to the next CR, which must be followed
/// by LF; the content may not contain CR.
pub open spec fn scan_line(s: Seq<u8>, i: int, start: int) -> ScanLine
    decreases s.len() - i,
{
    if i >= s.len() {
        ScanLine::More
    } else if s[i] == 13 {
        if i + 1 >= s.len() {
            ScanLine::More
        } else if s[i + 1] == 10 {
            ScanLine::Done(s.subrange(start, i), i + 2)
        } else {
            ScanLine::Bad
        }
    } else {
        scan_line(s, i + 1, start)
    }
}

/// The mathematical streaming parser: parse one frame of `s` starting at `i`.
pub open spec fn spec_parse_at(s: Seq<u8>, i: int) -> SpecParse
    decreases s.len() - i, 0int,
{
    if i >= s.len() {
        SpecParse::More
    } else if s[i] == 43 {
        match scan_line(s, i + 1, i + 1) {
            ScanLine::Done(content, end) => if is_utf8(content) {
                SpecParse::Done(ValueModel::SimpleString(content), end)
            } else {
                SpecParse::Bad
            },
            ScanLine::More => SpecParse::More,
            ScanLine::Bad => SpecParse::Bad,
        }
    } else if s[i] == 45 {
        match scan_line(s, i + 1, i + 1) {
            ScanLine::Done(content, end) => if is_utf8(content) {
                SpecParse::Done(ValueModel::Error(content), end)
            } else {
                SpecParse::Bad
            },
            ScanLine::More => SpecParse::More,
            ScanLine::Bad => SpecParse::Bad,
        }
    } else if s[i] == 58 {
        match scan_int(s, i + 1) {
            ScanInt::Done(v, end) => SpecParse::Done(ValueModel::Integer(v as i64), end),
            ScanInt::More => SpecParse::More,
            ScanInt::Bad => SpecParse::Bad,
        }
    } else if s[i] == 36 {
        match scan_int(s, i + 1) {
            ScanInt::Done(v, end) => if v == -1 {
                SpecParse::Done(ValueModel::Null, end)
            } else if v < -1 || v >= RESP_MAX_SIZE {
                SpecParse::OutOfRange(OutOfRangeType::BulkString, v)
            } else if s.len() < end + v + 2 {
                SpecParse::More
            } else if s[end + v] == 13 && s[end + v + 1] == 10 {
                SpecParse::Done(ValueModel::BulkString(s.subrange(end, end + v)), end + v + 2)
            } else {
                SpecParse::Bad
            },
            ScanInt::More => SpecParse::More,
            ScanInt::Bad => SpecParse::Bad,
        }
    } else if s[i] == 42 {
        match scan_int(s, i + 1) {
            ScanInt::Done(v, end) => if v == -1 {
                SpecParse::Done(ValueModel::NullArray, end)
            } else if v < -1 || v >= RESP_MAX_SIZE {
                SpecParse::OutOfRange(OutOfRangeType::Array, v)
            } else if !(i < end <= s.len()) {
                SpecParse::Bad
            } else {
                match spec_parse_elems(s, end, v) {
                    SpecParseList::Done(ms, e2) => SpecParse::Done(ValueModel::Array(ms), e2),
                    SpecParseList::More => SpecParse::More,
                    SpecParseList::OutOfRange(t, n) => SpecParse::OutOfRange(t, n),
                    SpecParseList::Bad => SpecParse::Bad,
                }
            },
            ScanInt::More => SpecParse::More,
            ScanInt::Bad => SpecParse::Bad,
        }
    } else {
        SpecParse::Bad
    }
}

/// Parse `n` consecutive frames of `s` starting at `i`.
pub open spec fn spec_parse_elems(s: Seq<u8>, i: int, n: int) -> SpecParseList
    decreases s.len() - i, n,
{
    if n <= 0 {
        SpecParseList::Done(Seq::empty(), i)
    } else {
        match spec_parse_at(s, i) {
            SpecParse::Done(m, end) => if !(i < end <= s.len()) {
                SpecParseList::Bad
            } else {
                match spec_parse_elems(s, end, n - 1) {
                    SpecParseList::Done(ms, e2) => SpecParseList::Done(seq![m] + ms, e2),
                    r => r,
                }
            },
            SpecParse::More => SpecParseList::More,
            SpecParse::OutOfRange(t, n0) => SpecParseList::OutOfRange(t, n0),
            SpecParse::Bad => SpecParseList::Bad,
        }
    }
}

/// Copy `input[from..to]` into a fresh vector.
fn copy_range(input: &[u8], from: usize, to: usize) -> (r: Vec<u8>)
    requires
        from <= to <= input@.len(),
    ensures
        r@ == input@.subrange(from as int, to as int),
{
    let mut v: Vec<u8> = Vec::new();
    assert(v@ =~= input@.subrange(from as int, from as int));
    let mut i: usize = from;
    while i < to
        invariant
            from <= i <= to <= input@.len(),
            v@ == input@.subrange(from as int, i as int),
        decreases to - i,
    {
        v.push(input[i]);
        assert(v@ =~= input@.subrange(from as int, i as int + 1));
        i = i + 1;
    }
    v
}

/// Check that `v` holds valid UTF-8 text, mirroring `is_utf8` step by
/// step: text frames must carry text, and a frame whose content is not
/// UTF-8 is malformed.
fn is_utf8_vec(v: &Vec<u8>) -> (r: bool)
    ensures
        r == is_utf8(v@),
{
    let n = v.len();
    let mut i: usize = 0;
    assert(v@.skip(0) =~= v@);
    while i < n
        invariant
            i <= n,
            n == v@.len(),
            is_utf8(v@) == is_utf8(v@.skip(i as int)),
        decreases n - i,
    {
        let ghost rest = v@.skip(i as int);
        proof {
            assert(rest.len() == n - i);
            assert(rest[0] == v@[i as int]);
        }
        let b0 = v[i];
        let step: usize = if b0 < 128 {
            1
        } else if 194 <= b0 && b0 <= 223 {
            if n - i >= 2 && is_cont_exec(v[i + 1]) {
                proof {
                    assert(rest[1] == v@[i as int + 1]);
                }
                2
            } else {
                proof {
                    if i + 2 <= n {
                        assert(rest[1] == v@[i as int + 1]);
                    }
                }
                return false;
            }
        } else if b0 == 224 {
            if n - i >= 3 && 160 <= v[i + 1] && v[i + 1] <= 191 && is_cont_exec(v[i + 2]) {
                proof {
                    assert(rest[1] == v@[i as int + 1] && rest[2] == v@[i as int + 2]);
                }
                3
            } else {
                proof {
                    if i + 2 <= n {
                        assert(rest[1] == v@[i as int + 1]);
                    }
                    if i + 3 <= n {
                        assert(rest[2] == v@[i as int + 2]);
                    }
                }
                return false;
            }
        } else if 225 <= b0 && b0 <= 236 {
            if n - i >= 3 && is_cont_exec(v[i + 1]) && is_cont_exec(v[i + 2]) {
                proof {
                    assert(rest[1] == v@[i as int + 1] && rest[2] == v@[i as int + 2]);
                }
                3
            } else {
                proof {
                    if i + 2 <= n {
                        assert(rest[1] == v@[i as int + 1]);
                    }
                    if i + 3 <= n {
                        assert(rest[2] == v@[i as int + 2]);
                    }
                }
                return false;
            }
        } else if b0 == 237 {
            if n - i >= 3 && 128 <= v[i + 1] && v[i + 1] <= 159 && is_cont_exec(v[i + 2]) {
                proof {
                    assert(rest[1] == v@[i as int + 1] && rest[2] == v@[i as int + 2]);
                }
                3
            } else {
                proof {
                    if i + 2 <= n {
                        assert(rest[1] == v@[i as int + 1]);
                    }
                    if i + 3 <= n {
                        assert(rest[2] == v@[i as int + 2]);
                    }
                }
                return false;
            }
        } else if 238 <= b0 && b0 <= 239 {
            if n - i >= 3 && is_cont_exec(v[i + 1]) && is_cont_exec(v[i + 2]) {
                proof {
                    assert(rest[1] == v@[i as int + 1] && rest[2] == v@[i as int + 2]);
                }
                3
            } else {
                proof {
                    if i + 2 <= n {
                        assert(rest[1] == v@[i as int + 1]);
                    }
                    if i + 3 <= n {
                        assert(rest[2] == v@[i as int + 2]);
                    }
                }
                return false;
            }
        } else if b0 == 240 {
            if n - i >= 4 && 144 <= v[i + 1] && v[i + 1] <= 191 && is_cont_exec(v[i + 2])
                && is_cont_exec(v[i + 3]) {
                proof {
                    assert(rest[1] == v@[i as int + 1] && rest[2] == v@[i as int + 2] && rest[3]
                        == v@[i as int + 3]);
                }
                4
            } else {
                proof {
                    if i + 2 <= n {
                        assert(rest[1] == v@[i as int + 1]);
                    }
                    if i + 3 <= n {
                        assert(rest[2] == v@[i as int + 2]);
                    }
                    if i + 4 <= n {
                        assert(rest[3] == v@[i as int + 3]);
                    }
                }
                return false;
            }
        } else if 241 <= b0 && b0 <= 243 {
            if n - i >= 4 && is_cont_exec(v[i + 1]) && is_cont_exec(v[i + 2]) && is_cont_exec(
                v[i + 3],
            ) {
                proof {
                    assert(rest[1] == v@[i as int + 1] && rest[2] == v@[i as int + 2] && rest[3]
                        == v@[i as int + 3]);
                }
                4
            } else {
                proof {
                    if i + 2 <= n {
                        assert(rest[1] == v@[i as int + 1]);
                    }
                    if i + 3 <= n {
                        assert(rest[2] == v@[i as int + 2]);
                    }
                    if i + 4 <= n {
                        assert(rest[3] == v@[i as int + 3]);
                    }
                }
                return false;
            }
        } else if b0 == 244 {
            if n - i >= 4 && 128 <= v[i + 1] && v[i + 1] <= 143 && is_cont_exec(v[i + 2])
                && is_cont_exec(v[i + 3]) {
                proof {
                    assert(rest[1] == v@[i as int + 1] && rest[2] == v@[i as int + 2] && rest[3]
                        == v@[i as int + 3]);
                }
                4
            } else {
                proof {
                    if i + 2 <= n {
                        assert(rest[1] == v@[i as int + 1]);
                    }
                    if i + 3 <= n {
                        assert(rest[2] == v@[i as int + 2]);
                    }
                    if i + 4 <= n {
                        assert(rest[3] == v@[i as int + 3]);
                    }
                }
                return false;
            }
        } else {
            return false;
        };
        proof {
            assert(rest.skip(step as int) =~= v@.skip(i as int + step as int));
        }
        i = i + step;
    }
    proof {
        assert(v@.skip(n as int) =~= Seq::<u8>::empty());
    }
    true
}

/// Whether `b` is a UTF-8 continuation byte.
fn is_cont_exec(b: u8) -> (r: bool)
    ensures
        r == is_cont(b),
{
    128 <= b && b <= 191
}

/// Scan the remaining digit run and its CRLF, mirroring `scan_num`. On
/// success the returned magnitude is the scanned value clamped to
/// `2^63 + 1`, which preserves every comparison against `i64` bounds.
fn scan_num_exec(input: &[u8], start: usize, acc0: u64) -> (r: Result<(u64, usize), Error>)
    requires
        start <= input@.len(),
        acc0 <= 9,
    ensures
        match r {
            Ok((mag, end)) => {
                &&& scan_num(input@, start as int, acc0 as int) is Done
                &&& scan_num(input@, start as int, acc0 as int)->Done_1 == end as int
                &&& ({
                    let v = scan_num(input@, start as int, acc0 as int)->Done_0;
                    mag as int == if v <= 9223372036854775808int {
                        v
                    } else {
                        9223372036854775809int
                    }
                })
                &&& start < end <= input@.len()
            },
            Err(Error::Incomplete) => scan_num(input@, start as int, acc0 as int) is More,
            Err(Error::Malformed) => scan_num(input@, start as int, acc0 as int) is Bad,
            Err(_) => false,
        },
{
    let n = input.len();
    let mut i: usize = start;
    let mut acc: u64 = acc0;
    let ghost mut gacc: int = acc0 as int;
    while i < n && 48 <= input[i] && input[i] <= 57
        invariant
            start <= i <= n,
            n == input@.len(),
            gacc >= 0,
            acc as int == if gacc <= 9223372036854775808int {
                gacc
            } else {
                9223372036854775809int
            },
            scan_num(input@, start as int, acc0 as int) == scan_num(input@, i as int, gacc),
        decreases n - i,
    {
        let d: u8 = input[i] - 48;
        if acc <= 922337203685477580 {
            acc = acc * 10 + (d as u64);
        } else {
            acc = 9223372036854775809;
        }
        proof {
            gacc = gacc * 10 + d;
        }
        i = i + 1;
    }
    if i >= n {
        return Err(Error::Incomplete);
    }
    if input[i] != 13 {
        return Err(Error::Malformed);
    }
    if i + 1 >= n {
        return Err(Error::Incomplete);
    }
    if input[i + 1] != 10 {
        return Err(Error::Malformed);
    }
    Ok((acc, i + 2))
}

/// Scan a canonical signed integer and its CRLF, mirroring `scan_int`.
fn scan_int_exec(input: &[u8], pos: usize) -> (r: Result<(i64, usize), Error>)
    requires
        pos <= input@.len(),
    ensures
        match r {
            Ok((v, end)) => scan_int(input@, pos as int) == ScanInt::Done(v as int, end as int)
                && pos < end <= input@.len(),
            Err(Error::Incomplete) => scan_int(input@, pos as int) is More,
            Err(Error::Malformed) => scan_int(input@, pos as int) is Bad,
            Err(_) => false,
        },
{
    let n = input.len();
    if pos >= n {
        return Err(Error::Incomplete);
    }
    let b = input[pos];
    if b == 45 {
        if pos + 1 >= n {
            return Err(Error::Incomplete);
        }
        let d = input[pos + 1];
        if d < 49 || d > 57 {
            return Err(Error::Malformed);
        }
        match scan_num_exec(input, pos + 2, (d - 48) as u64) {
            Ok((mag, end)) => {
                if mag <= 9223372036854775808 {
                    let v: i64 = if mag == 9223372036854775808 {
                        i64::MIN
                    } else {
                        -(mag as i64)
                    };
                    Ok((v, end))
                } else {
                    Err(Error::Malformed)
                }
            },
            Err(e) => Err(e),
        }
    } else if b == 48 {
        if pos + 1 >= n {
            return Err(Error::Incomplete);
        }
        if input[pos + 1] != 13 {
            return Err(Error::Malformed);
        }
        if pos + 2 >= n {
            return Err(Error::Incomplete);
        }
        if input[pos + 2] != 10 {
            return Err(Error::Malformed);
        }
        Ok((0, pos + 3))
    } else if 49 <= b && b <= 57 {
        match scan_num_exec(input, pos + 1, (b - 48) as u64) {
            Ok((mag, end)) => {
                if mag <= 9223372036854775807 {
                    Ok((mag as i64, end))
                } else {
                    Err(Error::Malformed)
                }
            },
            Err(e) => Err(e),
        }
    } else {
        Err(Error::Malformed)
    }
}

/// Parse one frame of `input` starting at `pos`, returning the decoded
/// value and the index just past its frame. The result agrees exactly with
/// the mathematical parser `spec_parse_at`.
#[verifier::rlimit(80)]
fn parse_value(input: &[u8], pos: usize) -> (r: Result<(Value, usize), Error>)
    requires
        pos <= input@.len(),
    ensures
        match r {
            Ok((v, end)) => spec_parse_at(input@, pos as int) == SpecParse::Done(
                v.model(),
                end as int,
            ) && pos < end <= input@.len(),
            Err(Error::Incomplete) => spec_parse_at(input@, pos as int) is More,
            Err(Error::OutOfRange(t, n)) => spec_parse_at(input@, pos as int)
                == SpecParse::OutOfRange(t, n as int),
            Err(Error::Malformed) => spec_parse_at(input@, pos as int) is Bad,
        },
    decreases input@.len() - pos,
{
    let n = input.len();
    if pos >= n {
        return Err(Error::Incomplete);
    }
    let b = input[pos];
    if b == 43 || b == 45 {
        let mut j: usize = pos + 1;
        while j < n && input[j] != 13
            invariant
                pos + 1 <= j <= n,
                n == input@.len(),
                scan_line(input@, pos as int + 1, pos as int + 1) == scan_line(
                    input@,
                    j as int,
                    pos as int + 1,
                ),
            decreases n - j,
        {
            j = j + 1;
        }
        if j >= n || j + 1 >= n {
            return Err(Error::Incomplete);
        }
        if input[j + 1] != 10 {
            return Err(Error::Malformed);
        }
        let content = copy_range(input, pos + 1, j);
        if !is_utf8_vec(&content) {
            return Err(Error::Malformed);
        }
        if b == 43 {
            Ok((Value::SimpleString(content), j + 2))
        } else {
            Ok((Value::Error(content), j + 2))
        }
    } else if b == 58 {
        match scan_int_exec(input, pos + 1) {
            Ok((v, end)) => Ok((Value::Integer(v), end)),
            Err(e) => Err(e),
        }
    } else if b == 36 {
        match scan_int_exec(input, pos + 1) {
            Ok((v, end)) => {
                if v == -1 {
                    Ok((Value::Null, end))
                } else if v < 0 || v >= 536870912 {
                    Err(Error::OutOfRange(OutOfRangeType::BulkString, v))
                } else {
                    let len = v as usize;
                    if n - end < len + 2 {
                        return Err(Error::Incomplete);
                    }
                    if input[end + len] != 13 || input[end + len + 1] != 10 {
                        return Err(Error::Malformed);
                    }
                    let content = copy_range(input, end, end + len);
                    Ok((Value::BulkString(content), end + len + 2))
                }
            },
            Err(e) => Err(e),
        }
    } else if b == 42 {
        match scan_int_exec(input, pos + 1) {
            Ok((v, end)) => {
                if v == -1 {
                    Ok((Value::NullArray, end))
                } else if v < 0 || v >= 536870912 {
                    Err(Error::OutOfRange(OutOfRangeType::Array, v))
                } else {
                    let count = v as usize;
                    let mut elems: Vec<Value> = Vec::new();
                    let mut cur: usize = end;
                    let mut k: usize = 0;
                    proof {
                        assert(model_elems(elems@, 0) =~= Seq::<ValueModel>::empty());
                    }
                    while k < count
                        invariant
                            k <= count,
                            count as int == v as int,
                            0 <= v < 536870912,
                            pos < end <= cur <= n,
                            n == input@.len(),
                            input@[pos as int] == 42,
                            scan_int(input@, pos as int + 1) == ScanInt::Done(
                                v as int,
                                end as int,
                            ),
                            elems@.len() == k,
                            ({
                                let full = spec_parse_elems(input@, end as int, v as int);
                                let rest = spec_parse_elems(input@, cur as int, v - k);
                                match rest {
                                    SpecParseList::Done(ms, e2) => full == SpecParseList::Done(
                                        model_elems(elems@, 0) + ms,
                                        e2,
                                    ),
                                    r => full == r,
                                }
                            }),
                        decreases count - k,
                    {
                        let ghost pre_models = model_elems(elems@, 0);
                        match parse_value(input, cur) {
                            Ok((val, nxt)) => {
                                proof {
                                    lemma_model_elems_push(elems@, val);
                                    let rest = spec_parse_elems(input@, cur as int, v - k);
                                    let rest2 = spec_parse_elems(input@, nxt as int, v - k - 1);
                                    assert(rest == match rest2 {
                                        SpecParseList::Done(ms, e2) => SpecParseList::Done(
                                            seq![val.model()] + ms,
                                            e2,
                                        ),
                                        r => r,
                                    });
                                    match rest2 {
                                        SpecParseList::Done(ms, e2) => {
                                            assert(pre_models + (seq![val.model()] + ms)
                                                =~= (pre_models + seq![val.model()]) + ms);
                                        },
                                        _ => {},
                                    }
                                }
                                elems.push(val);
                                cur = nxt;
                                k = k + 1;
                            },
                            Err(e) => {
                                return Err(e);
                            },
                        }
                    }
                    proof {
                        assert(model_elems(elems@, 0) + Seq::<ValueModel>::empty() =~= model_elems(
                            elems@,
                            0,
                        ));
                    }
                    Ok((Value::Array(elems), cur))
                }
            },
            Err(e) => Err(e),
        }
    } else {
        Err(Error::Malformed)
    }
}

/// Parse one complete frame that must consume all of `input`.
///
/// Returns `Incomplete` when `input` is a valid proper prefix of a frame,
/// `OutOfRange` when a declared length lies outside `{-1} ∪ [0, 512 MiB)`,
/// and `Malformed` when the bytes violate the grammar or trailing bytes
/// follow the frame.
pub fn parse(input: &[u8]) -> (r: Result<Value, Error>)
    ensures
        ({
            let out = spec_parse_at(input@, 0);
            match r {
                Ok(v) => out == SpecParse::Done(v.model(), input@.len() as int),
                Err(Error::Incomplete) => out is More,
                Err(Error::OutOfRange(t, n)) => out == SpecParse::OutOfRange(t, n as int),
                Err(Error::Malformed) => out is Bad || (out is Done && out->Done_1
                    != input@.len()),
            }
        }),
{
    match parse_value(input, 0) {
        Ok((v, end)) => if end == input.len() {
            Ok(v)
        } else {
            Err(Error::Malformed)
        },
        Err(e) => Err(e),
    }
}

/// `model_elems` distributes over `push`.
proof fn lemma_model_elems_push(elems: Seq<Value>, val: Value)
    ensures
        model_elems(elems.push(val), 0) == model_elems(elems, 0) + seq![val.model()],
{
    lemma_model_elems(elems.push(val), 0);
    lemma_model_elems(elems, 0);
    assert forall|k: int| 0 <= k < elems.len() + 1 implies #[trigger] model_elems(
        elems.push(val),
        0,
    )[k] == (model_elems(elems, 0) + seq![val.model()])[k] by {
        assert(model_elems(elems.push(val), 0)[k - 0] == elems.push(val)[k].model());
        if k < elems.len() {
            assert(model_elems(elems, 0)[k - 0] == elems[k].model());
        }
    }
    assert(model_elems(elems.push(val), 0) =~= model_elems(elems, 0) + seq![val.model()]);
}

/// Digit runs accumulated left to right denote `digits_val` of the scanned
/// range; a successful `scan_num` ends in CRLF.
proof fn lemma_scan_num_sound(s: Seq<u8>, d0: int, i: int, acc: int)
    requires
        0 <= d0 <= i <= s.len(),
        acc == digits_val(s.subrange(d0, i)),
        forall|k: int| d0 <= k < i ==> 48 <= #[trigger] s[k] <= 57,
        scan_num(s, i, acc) is Done,
    ensures
        ({
            let v = scan_num(s, i, acc)->Done_0;
            let end = scan_num(s, i, acc)->Done_1;
            &&& i + 2 <= end <= s.len()
            &&& s[end - 2] == 13 && s[end - 1] == 10
            &&& (forall|k: int| d0 <= k < end - 2 ==> 48 <= #[trigger] s[k] <= 57)
            &&& v == digits_val(s.subrange(d0, end - 2))
        }),
    decreases s.len() - i,
{
    if i < s.len() && is_digit(s[i]) {
        let acc2 = acc * 10 + (s[i] - 48);
        assert(s.subrange(d0, i + 1).drop_last() =~= s.subrange(d0, i));
        assert(s.subrange(d0, i + 1).last() == s[i]);
        lemma_scan_num_sound(s, d0, i + 1, acc2);
    }
}

/// A successful `scan_line` yields the bytes between `start` and the CRLF,
/// none of which (from `i` on) is a CR.
proof fn lemma_scan_line_sound(s: Seq<u8>, i: int, start: int)
    requires
        0 <= start <= i <= s.len(),
        scan_line(s, i, start) is Done,
    ensures
        ({
            let c = scan_line(s, i, start)->Done_0;
            let end = scan_line(s, i, start)->Done_1;
            &&& i + 2 <= end <= s.len()
            &&& s[end - 2] == 13 && s[end - 1] == 10
            &&& c == s.subrange(start, end - 2)
            &&& (forall|k: int| i <= k < end - 2 ==> s[k] != 13)
        }),
    decreases s.len() - i,
{
    if i < s.len() && s[i] != 13 {
        lemma_scan_line_sound(s, i + 1, start);
    }
}

/// A successful `scan_int` consumed exactly the canonical encoding of an
/// in-range `i64` followed by CRLF.
proof fn lemma_scan_int_sound(s: Seq<u8>, i: int)
    requires
        0 <= i <= s.len(),
        scan_int(s, i) is Done,
    ensures
        ({
            let v = scan_int(s, i)->Done_0;
            let end = scan_int(s, i)->Done_1;
            &&& i + 3 <= end <= s.len()
            &&& -9223372036854775808 <= v <= 9223372036854775807
            &&& s.subrange(i, end) == int_bytes(v) + crlf()
        }),
{
    let v = scan_int(s, i)->Done_0;
    let end = scan_int(s, i)->Done_1;
    if s[i] == 45 {
        let d1 = s[i + 1];
        assert(s.subrange(i + 1, i + 2).drop_last() =~= Seq::<u8>::empty());
        assert(digits_val(Seq::<u8>::empty()) == 0);
        assert(s.subrange(i + 1, i + 2).last() == d1);
        lemma_scan_num_sound(s, i + 1, i + 2, (d1 - 48) as int);
        let mag = scan_num(s, i + 2, (d1 - 48) as int)->Done_0;
        let d = s.subrange(i + 1, end - 2);
        assert(d[0] == d1);
        assert(crate::decimal::all_digits(d)) by {
            assert(forall|k: int| 0 <= k < d.len() ==> d[k] == s[i + 1 + k]);
        }
        lemma_digits_canonical(d);
        lemma_digits_val_bounds(d);
        crate::decimal::lemma_pow10_pos((d.len() - 1) as nat);
        assert(mag == digits_val(d));
        assert(mag >= 1);
        assert(v == -mag);
        assert(dec_digits(mag as nat) == d);
        assert(int_bytes(v) == seq![45u8] + d);
        assert(s.subrange(i, end) =~= int_bytes(v) + crlf());
    } else if s[i] == 48 {
        assert(v == 0 && end == i + 3);
        assert(int_bytes(0) == dec_digits(0));
        assert(dec_digits(0) == seq![48u8]);
        assert(s.subrange(i, end) =~= int_bytes(v) + crlf());
    } else {
        let d1 = s[i];
        assert(49 <= d1 <= 57);
        assert(s.subrange(i, i + 1).drop_last() =~= Seq::<u8>::empty());
        assert(digits_val(Seq::<u8>::empty()) == 0);
        assert(s.subrange(i, i + 1).last() == d1);
        lemma_scan_num_sound(s, i, i + 1, (d1 - 48) as int);
        let d = s.subrange(i, end - 2);
        assert(d[0] == d1);
        assert(crate::decimal::all_digits(d)) by {
            assert(forall|k: int| 0 <= k < d.len() ==> d[k] == s[i + k]);
        }
        lemma_digits_canonical(d);
        assert(v == digits_val(d));
        assert(dec_digits(v as nat) == d);
        assert(int_bytes(v) == d);
        assert(s.subrange(i, end) =~= int_bytes(v) + crlf());
    }
}

/// Prepending one element shifts `wf_elems` and `encode_elems` by one.
proof fn lemma_elems_shift(m: ValueModel, ms: Seq<ValueModel>, j: int)
    requires
        0 <= j <= ms.len(),
    ensures
        wf_elems(seq![m] + ms, j + 1) == wf_elems(ms, j),
        encode_elems(seq![m] + ms, j + 1) == encode_elems(ms, j),
    decreases ms.len() - j,
{
    let c = seq![m] + ms;
    if j < ms.len() {
        lemma_elems_shift(m, ms, j + 1);
        assert(c[j + 1] == ms[j]);
    }
}

/// `wf_elems` and `encode_elems` over a cons cell.
proof fn lemma_elems_cons(m: ValueModel, ms: Seq<ValueModel>)
    ensures
        wf_elems(seq![m] + ms, 0) == (wf(m) && wf_elems(ms, 0)),
        encode_elems(seq![m] + ms, 0) == encoding(m) + encode_elems(ms, 0),
{
    let c = seq![m] + ms;
    assert(c[0] == m);
    lemma_elems_shift(m, ms, 0);
}

/// Soundness: whatever the mathematical parser accepts is a well-formed
/// value whose encoding is exactly the consumed bytes.
proof fn lemma_parse_sound(s: Seq<u8>, i: int)
    requires
        0 <= i <= s.len(),
        spec_parse_at(s, i) is Done,
    ensures
        ({
            let m = spec_parse_at(s, i)->Done_0;
            let end = spec_parse_at(s, i)->Done_1;
            &&& i < end <= s.len()
            &&& wf(m)
            &&& s.subrange(i, end) == encoding(m)
        }),
    decreases s.len() - i, 0int,
{
    let m = spec_parse_at(s, i)->Done_0;
    let end = spec_parse_at(s, i)->Done_1;
    assert(i < s.len());
    let b = s[i];
    if b == 43 || b == 45 {
        lemma_scan_line_sound(s, i + 1, i + 1);
        let c = scan_line(s, i + 1, i + 1)->Done_0;
        assert(forall|k: int| 0 <= k < c.len() ==> c[k] == s[i + 1 + k]);
        assert(s.subrange(i, end) =~= encoding(m));
    } else if b == 58 {
        lemma_scan_int_sound(s, i + 1);
        let v = scan_int(s, i + 1)->Done_0;
        assert(m == ValueModel::Integer(v as i64));
        assert((v as i64) as int == v);
        assert(s.subrange(i + 1, end).len() == (int_bytes(v) + crlf()).len());
        assert(encoding(m) == seq![58u8] + int_bytes(v) + crlf());
        assert(s.subrange(i, end) =~= seq![58u8] + (int_bytes(v) + crlf()));
        assert(seq![58u8] + (int_bytes(v) + crlf()) =~= seq![58u8] + int_bytes(v) + crlf());
        assert(s.subrange(i, end) =~= encoding(m));
    } else if b == 36 {
        lemma_scan_int_sound(s, i + 1);
        let v = scan_int(s, i + 1)->Done_0;
        let e1 = scan_int(s, i + 1)->Done_1;
        if v == -1 {
            assert(m == ValueModel::Null);
            assert(s.subrange(i + 1, end).len() == (int_bytes(v) + crlf()).len());
            assert(s.subrange(i, end) =~= seq![36u8] + (int_bytes(-1) + crlf()));
            assert(seq![36u8] + (int_bytes(-1) + crlf()) =~= seq![36u8] + int_bytes(-1) + crlf());
            assert(s.subrange(i, end) =~= encoding(m));
        } else {
            let c = s.subrange(e1, e1 + v);
            assert(m == ValueModel::BulkString(c));
            assert(c.len() == v < RESP_MAX_SIZE);
            assert(int_bytes(c.len() as int) == int_bytes(v));
            assert(s.subrange(i + 1, e1).len() == (int_bytes(v) + crlf()).len());
            assert(s.subrange(i, end) =~= seq![36u8] + (int_bytes(v) + crlf()) + c + crlf());
            assert(seq![36u8] + (int_bytes(v) + crlf()) + c + crlf() =~= seq![36u8] + int_bytes(v)
                + crlf() + c + crlf());
            assert(s.subrange(i, end) =~= encoding(m));
        }
    } else {
        assert(b == 42);
        lemma_scan_int_sound(s, i + 1);
        let v = scan_int(s, i + 1)->Done_0;
        let e1 = scan_int(s, i + 1)->Done_1;
        if v == -1 {
            assert(m == ValueModel::NullArray);
            assert(s.subrange(i + 1, end).len() == (int_bytes(v) + crlf()).len());
            assert(s.subrange(i, end) =~= seq![42u8] + (int_bytes(-1) + crlf()));
            assert(seq![42u8] + (int_bytes(-1) + crlf()) =~= seq![42u8] + int_bytes(-1) + crlf());
            assert(s.subrange(i, end) =~= encoding(m));
        } else {
            lemma_parse_elems_sound(s, e1, v);
            let ms = spec_parse_elems(s, e1, v)->Done_0;
            assert(m == ValueModel::Array(ms));
            assert(ms.len() == v);
            assert(s.subrange(e1, end) == encode_elems(ms, 0));
            assert(int_bytes(ms.len() as int) == int_bytes(v));
            assert(s.subrange(i + 1, e1).len() == (int_bytes(v) + crlf()).len());
            assert(s.subrange(i, end) =~= seq![42u8] + (int_bytes(v) + crlf()) + encode_elems(
                ms,
                0,
            ));
            assert(seq![42u8] + (int_bytes(v) + crlf()) + encode_elems(ms, 0) =~= seq![42u8]
                + int_bytes(v) + crlf() + encode_elems(ms, 0));
            assert(s.subrange(i, end) =~= encoding(m));
        }
    }
}

/// Soundness for element lists: `n` accepted frames are `n` well-formed
/// values whose concatenated encodings are the consumed bytes.
proof fn lemma_parse_elems_sound(s: Seq<u8>, i: int, n: int)
    requires
        0 <= i <= s.len(),
        0 <= n,
        spec_parse_elems(s, i, n) is Done,
    ensures
        ({
            let ms = spec_parse_elems(s, i, n)->Done_0;
            let end = spec_parse_elems(s, i, n)->Done_1;
            &&& i <= end <= s.len()
            &&& ms.len() == n
            &&& wf_elems(ms, 0)
            &&& s.subrange(i, end) == encode_elems(ms, 0)
        }),
    decreases s.len() - i, n + 1,
{
    let ms = spec_parse_elems(s, i, n)->Done_0;
    let end = spec_parse_elems(s, i, n)->Done_1;
    if n == 0 {
        assert(ms =~= Seq::<ValueModel>::empty());
        assert(s.subrange(i, i) =~= encode_elems(ms, 0));
    } else {
        lemma_parse_sound(s, i);
        let m = spec_parse_at(s, i)->Done_0;
        let e = spec_parse_at(s, i)->Done_1;
        lemma_parse_elems_sound(s, e, n - 1);
        let ms2 = spec_parse_elems(s, e, n - 1)->Done_0;
        assert(ms == seq![m] + ms2);
        lemma_elems_cons(m, ms2);
        assert(s.subrange(i, end) =~= s.subrange(i, e) + s.subrange(e, end));
        assert(s.subrange(i, end) == encoding(m) + encode_elems(ms2, 0));
    }
}

/// Every encoding is at least one byte long.
proof fn lemma_encoding_nonempty(m: ValueModel)
    ensures
        encoding(m).len() >= 1,
{
    match m {
        ValueModel::Null => {},
        ValueModel::NullArray => {},
        ValueModel::SimpleString(_) => {},
        ValueModel::Error(_) => {},
        ValueModel::Integer(_) => {},
        ValueModel::BulkString(_) => {},
        ValueModel::Array(_) => {},
    }
}

/// `scan_num` walks a digit run that ends in CRLF and accumulates its value.
proof fn lemma_scan_num_complete(s: Seq<u8>, d0: int, i: int, e: int)
    requires
        0 <= d0 <= i <= e,
        e + 2 <= s.len(),
        forall|k: int| i <= k < e ==> 48 <= #[trigger] s[k] <= 57,
        s[e] == 13,
        s[e + 1] == 10,
    ensures
        scan_num(s, i, digits_val(s.subrange(d0, i))) == ScanInt::Done(
            digits_val(s.subrange(d0, e)),
            e + 2,
        ),
    decreases e - i,
{
    if i < e {
        assert(s.subrange(d0, i + 1).drop_last() =~= s.subrange(d0, i));
        assert(s.subrange(d0, i + 1).last() == s[i]);
        lemma_scan_num_complete(s, d0, i + 1, e);
    }
}

/// `scan_line` walks CR-free content that ends in CRLF.
proof fn lemma_scan_line_complete(s: Seq<u8>, i: int, start: int, e: int)
    requires
        0 <= start <= i <= e,
        e + 2 <= s.len(),
        forall|k: int| i <= k < e ==> s[k] != 13,
        s[e] == 13,
        s[e + 1] == 10,
    ensures
        scan_line(s, i, start) == ScanLine::Done(s.subrange(start, e), e + 2),
    decreases e - i,
{
    if i < e {
        lemma_scan_line_complete(s, i + 1, start, e);
    }
}

/// `scan_int` accepts every canonical in-range integer followed by CRLF.
#[verifier::rlimit(100)]
proof fn lemma_scan_int_complete_neg(s: Seq<u8>, i: int, v: int)
    requires
        0 <= i,
        -9223372036854775808 <= v < 0,
        i + int_bytes(v).len() + 2 <= s.len(),
        s.subrange(i, i + int_bytes(v).len() as int + 2) == int_bytes(v) + crlf(),
    ensures
        scan_int(s, i) == ScanInt::Done(v, i + int_bytes(v).len() + 2),
{
    let ib = int_bytes(v);
    let e = i + ib.len() as int;
    assert forall|k: int| i <= k < i + ib.len() + 2 implies #[trigger] s[k] == (ib + crlf())[k - i] by {
        assert(s.subrange(i, i + ib.len() as int + 2)[k - i] == (ib + crlf())[k - i]);
    }
    assert(s[e] == 13 && s[e + 1] == 10);
    let mag = -v;
    lemma_dec_digits_props(mag as nat);
    let d = dec_digits(mag as nat);
    assert(ib == seq![45u8] + d);
    assert(s[i] == 45);
    assert(s[i + 1] == d[0]);
    assert(48 <= d[0] <= 57 && d[0] != 48);
    assert(forall|k: int| i + 1 <= k < e ==> s[k] == d[k - (i + 1)]);
    assert(forall|k: int| i + 1 <= k < e ==> 48 <= #[trigger] s[k] <= 57);
    assert(s.subrange(i + 1, i + 2).drop_last() =~= Seq::<u8>::empty());
    assert(digits_val(Seq::<u8>::empty()) == 0);
    assert(s.subrange(i + 1, i + 2).last() == s[i + 1]);
    lemma_scan_num_complete(s, i + 1, i + 2, e);
    assert(s.subrange(i + 1, e) =~= d);
    assert(digits_val(s.subrange(i + 1, e)) == mag);
    assert(scan_num(s, i + 2, (s[i + 1] - 48) as int) == ScanInt::Done(mag, e + 2));
    assert(mag <= 9223372036854775808);
}

#[verifier::rlimit(100)]
proof fn lemma_scan_int_complete_pos(s: Seq<u8>, i: int, v: int)
    requires
        0 <= i,
        0 < v <= 9223372036854775807,
        i + int_bytes(v).len() + 2 <= s.len(),
        s.subrange(i, i + int_bytes(v).len() as int + 2) == int_bytes(v) + crlf(),
    ensures
        scan_int(s, i) == ScanInt::Done(v, i + int_bytes(v).len() + 2),
{
    let ib = int_bytes(v);
    let e = i + ib.len() as int;
    assert forall|k: int| i <= k < i + ib.len() + 2 implies #[trigger] s[k] == (ib + crlf())[k - i] by {
        assert(s.subrange(i, i + ib.len() as int + 2)[k - i] == (ib + crlf())[k - i]);
    }
    assert(s[e] == 13 && s[e + 1] == 10);
    lemma_dec_digits_props(v as nat);
    let d = dec_digits(v as nat);
    assert(ib == d);
    assert(s[i] == d[0]);
    assert(48 <= d[0] <= 57 && d[0] != 48);
    assert(forall|k: int| i <= k < e ==> s[k] == d[k - i]);
    assert(forall|k: int| i <= k < e ==> 48 <= #[trigger] s[k] <= 57);
    assert(s.subrange(i, i + 1).drop_last() =~= Seq::<u8>::empty());
    assert(digits_val(Seq::<u8>::empty()) == 0);
    assert(s.subrange(i, i + 1).last() == s[i]);
    lemma_scan_num_complete(s, i, i + 1, e);
    assert(s.subrange(i, e) =~= d);
    assert(digits_val(s.subrange(i, e)) == v);
    assert(scan_num(s, i + 1, (s[i] - 48) as int) == ScanInt::Done(v, e + 2));
}

/// `scan_int` accepts every canonical in-range integer followed by CRLF.
proof fn lemma_scan_int_complete(s: Seq<u8>, i: int, v: int)
    requires
        0 <= i,
        -9223372036854775808 <= v <= 9223372036854775807,
        i + int_bytes(v).len() + 2 <= s.len(),
        s.subrange(i, i + int_bytes(v).len() + 2) == int_bytes(v) + crlf(),
    ensures
        scan_int(s, i) == ScanInt::Done(v, i + int_bytes(v).len() + 2),
{
    if v < 0 {
        lemma_scan_int_complete_neg(s, i, v);
    } else if v == 0 {
        let ib = int_bytes(v);
        assert forall|k: int|
            i <= k < i + ib.len() + 2 implies #[trigger] s[k] == (ib + crlf())[k - i] by {
            assert(s.subrange(i, i + ib.len() as int + 2)[k - i] == (ib + crlf())[k - i]);
        }
        assert(ib == dec_digits(0));
        assert(dec_digits(0) == seq![48u8]);
        assert(s[i] == 48 && s[i + 1] == 13 && s[i + 2] == 10);
    } else {
        lemma_scan_int_complete_pos(s, i, v);
    }
}

/// Completeness for the bulk-string arm of `lemma_parse_complete`.
proof fn lemma_parse_complete_bulk(s: Seq<u8>, i: int, c: Seq<u8>)
    requires
        0 <= i,
        wf(ValueModel::BulkString(c)),
        i + encoding(ValueModel::BulkString(c)).len() <= s.len(),
        s.subrange(i, i + encoding(ValueModel::BulkString(c)).len()) == encoding(
            ValueModel::BulkString(c),
        ),
    ensures
        spec_parse_at(s, i) == SpecParse::Done(
            ValueModel::BulkString(c),
            i + encoding(ValueModel::BulkString(c)).len(),
        ),
{
    let m = ValueModel::BulkString(c);
    let enc = encoding(m);
    let n = enc.len() as int;
    assert(forall|k: int| i <= k < i + n ==> #[trigger] s[k] == enc[k - i]) by {
        assert(forall|k: int|
            i <= k < i + n ==> #[trigger] s.subrange(i, i + n)[k - i] == enc[k - i]);
    }
    let v = c.len() as int;
    let ib = int_bytes(v);
    assert(s[i] == 36);
    assert(enc =~= seq![36u8] + (ib + crlf()) + c + crlf());
    let e1 = i + 1 + ib.len() as int + 2;
    assert(s.subrange(i + 1, e1) =~= ib + crlf());
    lemma_scan_int_complete(s, i + 1, v);
    assert(scan_int(s, i + 1) == ScanInt::Done(v, e1));
    assert(0 <= v < RESP_MAX_SIZE);
    assert(s.len() >= e1 + v + 2);
    assert(forall|k: int| e1 <= k < e1 + v ==> s[k] == c[k - e1]);
    assert(s[e1 + v] == 13 && s[e1 + v + 1] == 10);
    assert(s.subrange(e1, e1 + v) =~= c);
}

/// Completeness for the array arm of `lemma_parse_complete`.
proof fn lemma_parse_complete_array(s: Seq<u8>, i: int, m: ValueModel)
    requires
        0 <= i,
        m is Array,
        wf(m),
        i + encoding(m).len() <= s.len(),
        s.subrange(i, i + encoding(m).len()) == encoding(m),
    ensures
        spec_parse_at(s, i) == SpecParse::Done(m, i + encoding(m).len()),
    decreases m, 0int,
{
    let enc = encoding(m);
    let n = enc.len() as int;
    assert(forall|k: int| i <= k < i + n ==> #[trigger] s[k] == enc[k - i]) by {
        assert(forall|k: int|
            i <= k < i + n ==> #[trigger] s.subrange(i, i + n)[k - i] == enc[k - i]);
    }
    let ms = m->Array_0;
    let v = ms.len() as int;
    let ib = int_bytes(v);
    assert(s[i] == 42);
    assert(enc =~= seq![42u8] + (ib + crlf()) + encode_elems(ms, 0));
    let e1 = i + 1 + ib.len() as int + 2;
    assert(s.subrange(i + 1, e1) =~= ib + crlf());
    lemma_scan_int_complete(s, i + 1, v);
    assert(scan_int(s, i + 1) == ScanInt::Done(v, e1));
    assert(0 <= v < RESP_MAX_SIZE);
    assert(forall|k: int| e1 <= k < i + n ==> s[k] == encode_elems(ms, 0)[k - e1]);
    assert(s.subrange(e1, e1 + encode_elems(ms, 0).len()) =~= encode_elems(ms, 0));
    lemma_parse_elems_complete(s, e1, ms, 0);
    assert(ms.subrange(0, ms.len() as int) =~= ms);
}

/// Completeness: the mathematical parser accepts the encoding of every
/// well-formed value, consuming exactly that encoding.
#[verifier::rlimit(100)]
proof fn lemma_parse_complete(s: Seq<u8>, i: int, m: ValueModel)
    requires
        0 <= i,
        wf(m),
        i + encoding(m).len() <= s.len(),
        s.subrange(i, i + encoding(m).len()) == encoding(m),
    ensures
        spec_parse_at(s, i) == SpecParse::Done(m, i + encoding(m).len()),
    decreases m, 1int,
{
    let enc = encoding(m);
    let n = enc.len() as int;
    assert(forall|k: int| i <= k < i + n ==> #[trigger] s[k] == enc[k - i]) by {
        assert(forall|k: int|
            i <= k < i + n ==> #[trigger] s.subrange(i, i + n)[k - i] == enc[k - i]);
    }
    match m {
        ValueModel::Null => {
            assert(enc =~= seq![36u8, 45u8, 49u8, 13u8, 10u8]);
            assert(s.subrange(i + 1, i + 5) =~= int_bytes(-1) + crlf());
            lemma_scan_int_complete(s, i + 1, -1);
        },
        ValueModel::NullArray => {
            assert(enc =~= seq![42u8, 45u8, 49u8, 13u8, 10u8]);
            assert(s.subrange(i + 1, i + 5) =~= int_bytes(-1) + crlf());
            lemma_scan_int_complete(s, i + 1, -1);
        },
        ValueModel::SimpleString(c) => {
            let e = i + 1 + c.len() as int;
            assert(s[i] == 43);
            assert(forall|k: int| i + 1 <= k < e ==> s[k] == c[k - (i + 1)]);
            assert(forall|k: int| i + 1 <= k < e ==> s[k] != 13);
            assert(s[e] == 13 && s[e + 1] == 10);
            lemma_scan_line_complete(s, i + 1, i + 1, e);
            assert(s.subrange(i + 1, e) =~= c);
            assert(is_utf8(s.subrange(i + 1, e)));
        },
        ValueModel::Error(c) => {
            let e = i + 1 + c.len() as int;
            assert(s[i] == 45);
            assert(forall|k: int| i + 1 <= k < e ==> s[k] == c[k - (i + 1)]);
            assert(forall|k: int| i + 1 <= k < e ==> s[k] != 13);
            assert(s[e] == 13 && s[e + 1] == 10);
            lemma_scan_line_complete(s, i + 1, i + 1, e);
            assert(s.subrange(i + 1, e) =~= c);
            assert(is_utf8(s.subrange(i + 1, e)));
        },
        ValueModel::Integer(x) => {
            assert(s[i] == 58);
            assert(enc =~= seq![58u8] + (int_bytes(x as int) + crlf()));
            assert(s.subrange(i + 1, i + 1 + int_bytes(x as int).len() + 2) =~= int_bytes(x as int)
                + crlf());
            lemma_scan_int_complete(s, i + 1, x as int);
            assert((x as int) as i64 == x);
        },
        ValueModel::BulkString(c) => {
            lemma_parse_complete_bulk(s, i, c);
        },
        ValueModel::Array(ms) => {
            lemma_parse_complete_array(s, i, m);
        },
    }
}

/// Completeness for element lists: the concatenated encodings of the
/// remaining well-formed elements parse back to exactly those elements.
proof fn lemma_parse_elems_complete(s: Seq<u8>, i: int, ms: Seq<ValueModel>, j: int)
    requires
        0 <= i,
        0 <= j <= ms.len(),
        wf_elems(ms, j),
        i + encode_elems(ms, j).len() <= s.len(),
        s.subrange(i, i + encode_elems(ms, j).len()) == encode_elems(ms, j),
    ensures
        spec_parse_elems(s, i, ms.len() - j) == SpecParseList::Done(
            ms.subrange(j, ms.len() as int),
            i + encode_elems(ms, j).len(),
        ),
    decreases ms, ms.len() - j,
{
    let enc = encode_elems(ms, j);
    let n = enc.len() as int;
    assert(forall|k: int| i <= k < i + n ==> #[trigger] s[k] == enc[k - i]) by {
        assert(forall|k: int|
            i <= k < i + n ==> #[trigger] s.subrange(i, i + n)[k - i] == enc[k - i]);
    }
    if j == ms.len() {
        assert(ms.subrange(j, ms.len() as int) =~= Seq::<ValueModel>::empty());
    } else {
        let ej = encoding(ms[j]);
        assert(enc == ej + encode_elems(ms, j + 1));
        lemma_encoding_nonempty(ms[j]);
        assert(forall|k: int| 0 <= k < ej.len() ==> enc[k] == ej[k]);
        assert(s.subrange(i, i + ej.len()) =~= ej);
        lemma_parse_complete(s, i, ms[j]);
        let i2 = i + ej.len() as int;
        assert(forall|k: int|
            0 <= k < encode_elems(ms, j + 1).len() ==> enc[ej.len() + k] == #[trigger] encode_elems(
                ms,
                j + 1,
            )[k]);
        assert(s.subrange(i2, i2 + encode_elems(ms, j + 1).len()) =~= encode_elems(ms, j + 1));
        lemma_parse_elems_complete(s, i2, ms, j + 1);
        assert(seq![ms[j]] + ms.subrange(j + 1, ms.len() as int) =~= ms.subrange(
            j,
            ms.len() as int,
        ));
    }
}

/// `scan_num` answers `More` when the input ends inside the digit run or
/// inside its terminating CRLF.
proof fn lemma_scan_num_prefix(s: Seq<u8>, i: int, e: int, acc: int)
    requires
        0 <= i <= s.len(),
        i <= e,
        s.len() < e + 2,
        forall|k: int| i <= k < e && k < s.len() ==> 48 <= #[trigger] s[k] <= 57,
        e < s.len() ==> s[e] == 13,
    ensures
        scan_num(s, i, acc) is More,
    decreases s.len() - i,
{
    if i < s.len() {
        if i < e {
            lemma_scan_num_prefix(s, i + 1, e, acc * 10 + (s[i] - 48));
        }
    }
}

/// `scan_line` answers `More` when the input ends inside the content or
/// inside its terminating CRLF.
proof fn lemma_scan_line_prefix(s: Seq<u8>, i: int, start: int, e: int)
    requires
        0 <= start <= i <= s.len(),
        i <= e,
        s.len() < e + 2,
        forall|k: int| i <= k < e && k < s.len() ==> s[k] != 13,
        e < s.len() ==> s[e] == 13,
    ensures
        scan_line(s, i, start) is More,
    decreases s.len() - i,
{
    if i < s.len() {
        if i < e {
            lemma_scan_line_prefix(s, i + 1, start, e);
        }
    }
}

/// `scan_int` answers `More` on every strict prefix of a canonical integer
/// encoding and its CRLF.
proof fn lemma_scan_int_prefix(s: Seq<u8>, i: int, v: int)
    requires
        0 <= i <= s.len(),
        -9223372036854775808 <= v <= 9223372036854775807,
        s.len() - i < int_bytes(v).len() + 2,
        s.subrange(i, s.len() as int) == (int_bytes(v) + crlf()).take(s.len() - i),
    ensures
        scan_int(s, i) is More,
{
    let ib = int_bytes(v);
    let avail = s.len() - i;
    assert forall|k: int| i <= k < s.len() implies #[trigger] s[k] == (ib + crlf())[k - i] by {
        assert(s.subrange(i, s.len() as int)[k - i] == (ib + crlf()).take(s.len() - i)[k - i]);
    }
    if avail == 0 {
    } else if v < 0 {
        let mag = -v;
        lemma_dec_digits_props(mag as nat);
        let d = dec_digits(mag as nat);
        assert(ib == seq![45u8] + d);
        assert(s[i] == 45);
        if avail == 1 {
        } else {
            assert(s[i + 1] == d[0]);
            assert(48 <= d[0] <= 57 && d[0] != 48);
            let e = i + 1 + d.len() as int;
            lemma_scan_num_prefix(s, i + 2, e, (s[i + 1] - 48) as int);
        }
    } else if v == 0 {
        assert(ib == dec_digits(0));
        assert(dec_digits(0) == seq![48u8]);
        assert(s[i] == 48);
        lemma_scan_num_prefix(s, i + 1, i + 1, 0);
    } else {
        lemma_dec_digits_props(v as nat);
        let d = dec_digits(v as nat);
        assert(ib == d);
        assert(s[i] == d[0]);
        assert(48 <= d[0] <= 57 && d[0] != 48);
        let e = i + d.len() as int;
        lemma_scan_num_prefix(s, i + 1, e, (s[i] - 48) as int);
    }
}

/// Incomplete-prefix monotonicity: the mathematical parser answers `More`
/// on every strict prefix of the encoding of a well-formed value.
proof fn lemma_parse_prefix(s: Seq<u8>, i: int, m: ValueModel)
    requires
        0 <= i <= s.len(),
        wf(m),
        s.len() - i < encoding(m).len(),
        s.subrange(i, s.len() as int) == encoding(m).take(s.len() - i),
    ensures
        spec_parse_at(s, i) is More,
    decreases m, 0int,
{
    let enc = encoding(m);
    let avail = s.len() - i;
    assert forall|k: int| i <= k < s.len() implies #[trigger] s[k] == enc[k - i] by {
        assert(s.subrange(i, s.len() as int)[k - i] == enc.take(s.len() - i)[k - i]);
    }
    if avail == 0 {
    } else {
        match m {
            ValueModel::Null => {
                assert(enc =~= seq![36u8, 45u8, 49u8, 13u8, 10u8]);
                assert(s[i] == 36);
                assert(s.subrange(i + 1, s.len() as int) =~= (int_bytes(-1) + crlf()).take(
                    s.len() - i - 1,
                ));
                lemma_scan_int_prefix(s, i + 1, -1);
            },
            ValueModel::NullArray => {
                assert(enc =~= seq![42u8, 45u8, 49u8, 13u8, 10u8]);
                assert(s[i] == 42);
                assert(s.subrange(i + 1, s.len() as int) =~= (int_bytes(-1) + crlf()).take(
                    s.len() - i - 1,
                ));
                lemma_scan_int_prefix(s, i + 1, -1);
            },
            ValueModel::SimpleString(c) => {
                assert(s[i] == 43);
                let e = i + 1 + c.len() as int;
                assert(forall|k: int| i + 1 <= k < e && k < s.len() ==> s[k] != 13);
                lemma_scan_line_prefix(s, i + 1, i + 1, e);
            },
            ValueModel::Error(c) => {
                assert(s[i] == 45);
                let e = i + 1 + c.len() as int;
                assert(forall|k: int| i + 1 <= k < e && k < s.len() ==> s[k] != 13);
                lemma_scan_line_prefix(s, i + 1, i + 1, e);
            },
            ValueModel::Integer(x) => {
                assert(s[i] == 58);
                assert(enc =~= seq![58u8] + (int_bytes(x as int) + crlf()));
                assert(s.subrange(i + 1, s.len() as int) =~= (int_bytes(x as int) + crlf()).take(
                    s.len() - i - 1,
                ));
                lemma_scan_int_prefix(s, i + 1, x as int);
            },
            ValueModel::BulkString(c) => {
                let v = c.len() as int;
                let ib = int_bytes(v);
                assert(s[i] == 36);
                assert(enc =~= seq![36u8] + (ib + crlf()) + c + crlf());
                if avail - 1 < ib.len() + 2 {
                    assert(s.subrange(i + 1, s.len() as int) =~= (ib + crlf()).take(
                        s.len() - i - 1,
                    ));
                    lemma_scan_int_prefix(s, i + 1, v);
                } else {
                    let e1 = i + 1 + ib.len() as int + 2;
                    assert(s.subrange(i + 1, e1) =~= ib + crlf());
                    lemma_scan_int_complete(s, i + 1, v);
                    assert(scan_int(s, i + 1) == ScanInt::Done(v, e1));
                    assert(0 <= v < RESP_MAX_SIZE);
                    assert(s.len() < e1 + v + 2);
                }
            },
            ValueModel::Array(ms) => {
                let v = ms.len() as int;
                let ib = int_bytes(v);
                assert(s[i] == 42);
                assert(enc =~= seq![42u8] + (ib + crlf()) + encode_elems(ms, 0));
                if avail - 1 < ib.len() + 2 {
                    assert(s.subrange(i + 1, s.len() as int) =~= (ib + crlf()).take(
                        s.len() - i - 1,
                    ));
                    lemma_scan_int_prefix(s, i + 1, v);
                } else {
                    let e1 = i + 1 + ib.len() as int + 2;
                    assert(s.subrange(i + 1, e1) =~= ib + crlf());
                    lemma_scan_int_complete(s, i + 1, v);
                    assert(scan_int(s, i + 1) == ScanInt::Done(v, e1));
                    assert(0 <= v < RESP_MAX_SIZE);
                    assert(s.subrange(e1, s.len() as int) =~= encode_elems(ms, 0).take(
                        s.len() - e1,
                    ));
                    lemma_parse_elems_prefix(s, e1, ms, 0);
                }
            },
        }
    }
}

/// Incomplete-prefix monotonicity for element lists.
proof fn lemma_parse_elems_prefix(s: Seq<u8>, i: int, ms: Seq<ValueModel>, j: int)
    requires
        0 <= i <= s.len(),
        0 <= j <= ms.len(),
        wf_elems(ms, j),
        s.len() - i < encode_elems(ms, j).len(),
        s.subrange(i, s.len() as int) == encode_elems(ms, j).take(s.len() - i),
    ensures
        spec_parse_elems(s, i, ms.len() - j) is More,
    decreases ms, ms.len() - j,
{
    let enc = encode_elems(ms, j);
    let avail = s.len() - i;
    assert forall|k: int| i <= k < s.len() implies #[trigger] s[k] == enc[k - i] by {
        assert(s.subrange(i, s.len() as int)[k - i] == enc.take(s.len() - i)[k - i]);
    }
    assert(j < ms.len());
    let ej = encoding(ms[j]);
    assert(enc == ej + encode_elems(ms, j + 1));
    lemma_encoding_nonempty(ms[j]);
    if avail < ej.len() {
        assert(s.subrange(i, s.len() as int) =~= ej.take(avail));
        lemma_parse_prefix(s, i, ms[j]);
    } else {
        assert(s.subrange(i, i + ej.len()) =~= ej);
        lemma_parse_complete(s, i, ms[j]);
        let i2 = i + ej.len() as int;
        assert(forall|k: int|
            0 <= k < encode_elems(ms, j + 1).len() ==> enc[ej.len() + k] == #[trigger] encode_elems(
                ms,
                j + 1,
            )[k]);
        assert(s.subrange(i2, s.len() as int) =~= encode_elems(ms, j + 1).take(s.len() - i2));
        lemma_parse_elems_prefix(s, i2, ms, j + 1);
    }
}

/// Round trip, parse then serialize: a frame accepted by the parser while
/// consuming all of `b` re-serializes byte for byte to `b`.
pub proof fn lemma_round_trip_parse(b: Seq<u8>)
    requires
        spec_parse_at(b, 0) is Done,
        spec_parse_at(b, 0)->Done_1 == b.len(),
    ensures
        wf(spec_parse_at(b, 0)->Done_0),
        encoding(spec_parse_at(b, 0)->Done_0) == b,
{
    lemma_parse_sound(b, 0);
    assert(b.subrange(0, b.len() as int) =~= b);
}

/// Round trip, serialize then parse: the encoding of a well-formed value
/// parses back to exactly that value, consuming the whole encoding.
pub proof fn lemma_round_trip_serialize(m: ValueModel)
    requires
        wf(m),
    ensures
        spec_parse_at(encoding(m), 0) == SpecParse::Done(m, encoding(m).len() as int),
{
    let b = encoding(m);
    assert(b.subrange(0, b.len() as int) =~= b);
    lemma_parse_complete(b, 0, m);
}

/// Incomplete-prefix monotonicity: every strict prefix of a complete frame
/// leaves the parser wanting more input, never failing.
pub proof fn lemma_prefix_incomplete(m: ValueModel, k: int)
    requires
        wf(m),
        0 <= k < encoding(m).len(),
    ensures
        spec_parse_at(encoding(m).take(k), 0) is More,
{
    let p = encoding(m).take(k);
    assert(p.subrange(0, p.len() as int) =~= encoding(m).take(p.len() as int));
    lemma_parse_prefix(p, 0, m);
}

/// Serialization is injective on well-formed values: two well-formed
/// values with the same encoding are the same value.
pub proof fn lemma_encoding_injective(m1: ValueModel, m2: ValueModel)
    requires
        wf(m1),
        wf(m2),
        encoding(m1) == encoding(m2),
    ensures
        m1 == m2,
{
    lemma_round_trip_serialize(m1);
    lemma_round_trip_serialize(m2);
}

/// Length bounds: a declared bulk-string or array length outside
/// `{-1} ∪ [0, 512 MiB)` (yet within `i64`) is rejected as out of range,
/// whatever bytes follow the length header.
pub proof fn lemma_length_out_of_range(s: Seq<u8>, tag: u8, n: int)
    requires
        tag == 36 || tag == 42,
        -9223372036854775808 <= n <= 9223372036854775807,
        n < -1 || n >= RESP_MAX_SIZE,
        s.len() >= 1 + int_bytes(n).len() + 2,
        s[0] == tag,
        s.subrange(1, 1 + int_bytes(n).len() as int + 2) == int_bytes(n) + crlf(),
    ensures
        spec_parse_at(s, 0) == SpecParse::OutOfRange(
            if tag == 36 {
                OutOfRangeType::BulkString
            } else {
                OutOfRangeType::Array
            },
            n,
        ),
{
    lemma_scan_int_complete(s, 1, n);
}

} // verus!
