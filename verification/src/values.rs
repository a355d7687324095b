//! The forward-only argument cursor over a parsed array of wire values:
//! each "take next as X" operation advances one position and validates the
//! element's type; there is no rewinding.

use vstd::prelude::*;

use crate::database::{clone_bytes, storable_of};
use crate::decimal::{all_digits, digits_val};
use crate::value::{lemma_model_elems_index, model_elems, Value, ValueModel};

verus! {

/// Why an argument could not be taken from the cursor.
#[derive(Debug, Clone, PartialEq)]
pub enum Error {
    /// The element is not of a type acceptable here; carries the variant
    /// name of the offending element.
    InvalidType(&'static str),
    /// Text that should denote a base-10 integer does not.
    InvalidNumber,
    /// No elements remain.
    OutOfBounds,
}

/// The text content of a string-like wire value.
pub open spec fn string_of(m: ValueModel) -> Option<Seq<u8>> {
    match m {
        ValueModel::SimpleString(s) => Some(s),
        ValueModel::BulkString(s) => Some(s),
        _ => None,
    }
}

/// The byte content of a bulk string.
pub open spec fn bytes_of(m: ValueModel) -> Option<Seq<u8>> {
    match m {
        ValueModel::BulkString(s) => Some(s),
        _ => None,
    }
}

/// The integer denoted by a decimal text: an optional sign, then one or
/// more digits, within `i64` range. Leading zeros are accepted here.
pub open spec fn parse_i64_text(s: Seq<u8>) -> Option<int> {
    if s.len() == 0 {
        None
    } else {
        let neg = s[0] == 45;
        let ds = if s[0] == 45 || s[0] == 43 {
            s.skip(1)
        } else {
            s
        };
        if ds.len() == 0 || !all_digits(ds) {
            None
        } else {
            let v = if neg {
                -digits_val(ds)
            } else {
                digits_val(ds)
            };
            if -9223372036854775808 <= v <= 9223372036854775807 {
                Some(v)
            } else {
                None
            }
        }
    }
}

/// Reading a numeric argument: its value, unparseable text, or a value of
/// the wrong type.
pub enum NumRead {
    Num(int),
    BadText,
    WrongType,
}

/// The number a wire value denotes as a command argument: integers count
/// directly, string-like values are parsed as decimal text.
pub open spec fn number_of(m: ValueModel) -> NumRead {
    match m {
        ValueModel::SimpleString(s) => match parse_i64_text(s) {
            Some(v) => NumRead::Num(v),
            None => NumRead::BadText,
        },
        ValueModel::BulkString(s) => match parse_i64_text(s) {
            Some(v) => NumRead::Num(v),
            None => NumRead::BadText,
        },
        ValueModel::Integer(i) => NumRead::Num(i as int),
        _ => NumRead::WrongType,
    }
}

/// Parse decimal text as an `i64`, exactly as `parse_i64_text` does.
pub fn parse_i64_bytes(s: &Vec<u8>) -> (r: Option<i64>)
    ensures
        match r {
            Some(v) => parse_i64_text(s@) == Some(v as int),
            None => parse_i64_text(s@) is None,
        },
{
    let n = s.len();
    if n == 0 {
        return None;
    }
    let neg = s[0] == 45;
    let start: usize = if s[0] == 45 || s[0] == 43 {
        1
    } else {
        0
    };
    let ghost ds = if s@[0] == 45 || s@[0] == 43 {
        s@.skip(1)
    } else {
        s@
    };
    if start >= n {
        return None;
    }
    assert(s@.skip(1) =~= s@.subrange(1, n as int));
    assert(s@ =~= s@.subrange(0, n as int));
    let mut i: usize = start;
    let mut acc: u64 = 0;
    let ghost mut gacc: int = 0;
    assert(s@.subrange(start as int, start as int) =~= Seq::<u8>::empty());
    assert(digits_val(Seq::<u8>::empty()) == 0);
    while i < n
        invariant
            start <= i <= n,
            n == s@.len(),
            ds == s@.subrange(start as int, n as int),
            ds == (if s@[0] == 45 || s@[0] == 43 {
                s@.skip(1)
            } else {
                s@
            }),
            n >= 1,
            gacc >= 0,
            gacc == digits_val(s@.subrange(start as int, i as int)),
            forall|j: int| start <= j < i ==> 48 <= #[trigger] s@[j] <= 57,
            acc as int == if gacc <= 9223372036854775808int {
                gacc
            } else {
                9223372036854775809int
            },
        decreases n - i,
    {
        let b = s[i];
        if b < 48 || b > 57 {
            proof {
                assert(ds =~= s@.subrange(start as int, n as int));
                assert(ds[i - start] == s@[i as int]);
                assert(!all_digits(ds)) by {
                    assert(!(48 <= ds[i - start] <= 57));
                }
                assert(parse_i64_text(s@) is None);
            }
            return None;
        }
        let d: u8 = b - 48;
        if acc <= 922337203685477580 {
            acc = acc * 10 + (d as u64);
        } else {
            acc = 9223372036854775809;
        }
        proof {
            assert(s@.subrange(start as int, i as int + 1).drop_last() =~= s@.subrange(
                start as int,
                i as int,
            ));
            assert(s@.subrange(start as int, i as int + 1).last() == s@[i as int]);
            gacc = gacc * 10 + d;
        }
        i = i + 1;
    }
    proof {
        assert(ds =~= s@.subrange(start as int, n as int));
        assert(all_digits(ds)) by {
            assert(forall|j: int| 0 <= j < ds.len() ==> ds[j] == s@[start + j]);
        }
        assert(digits_val(ds) == gacc);
    }
    if neg {
        if acc <= 9223372036854775808 {
            let v: i64 = if acc == 9223372036854775808 {
                i64::MIN
            } else {
                -(acc as i64)
            };
            Some(v)
        } else {
            None
        }
    } else {
        if acc <= 9223372036854775807 {
            Some(acc as i64)
        } else {
            None
        }
    }
}

/// The forward-only cursor over the elements of a command array.
#[derive(Debug, PartialEq)]
pub struct Values {
    values: Vec<Value>,
    idx: usize,
}

impl Values {
    /// The cursor position never passes the end.
    pub closed spec fn wf(&self) -> bool {
        self.idx <= self.values@.len()
    }

    /// The models of the underlying elements.
    pub closed spec fn models(&self) -> Seq<ValueModel> {
        model_elems(self.values@, 0)
    }

    /// The position of the next element to be consumed.
    pub closed spec fn pos(&self) -> int {
        self.idx as int
    }

    /// A cursor at the start of `values`.
    pub fn new(values: Vec<Value>) -> (r: Values)
        ensures
            r.wf(),
            r.models() == model_elems(values@, 0),
            r.pos() == 0,
    {
        Values { values, idx: 0 }
    }

    /// Whether an element remains to be consumed.
    pub fn check_bounds(&self) -> (r: bool)
        ensures
            r == (self.pos() < self.models().len()),
    {
        proof {
            lemma_model_elems_index(self.values@);
        }
        self.idx < self.values.len()
    }

    /// How many elements remain to be consumed.
    pub fn remaining(&self) -> (r: usize)
        requires
            self.wf(),
        ensures
            r == self.models().len() - self.pos(),
    {
        proof {
            lemma_model_elems_index(self.values@);
        }
        self.values.len() - self.idx
    }

    /// Take the next element as a string: `SimpleString` and `BulkString`
    /// both qualify, and their content is returned as bytes.
    pub fn get_string(&mut self) -> (r: Result<Vec<u8>, Error>)
        requires
            old(self).wf(),
        ensures
            final(self).wf(),
            final(self).models() == old(self).models(),
            ({
                let ms = old(self).models();
                let p = old(self).pos();
                match r {
                    Ok(bytes) => p < ms.len() && string_of(ms[p]) == Some(bytes@) && final(self).pos() == p + 1,
                    Err(Error::OutOfBounds) => p >= ms.len() && final(self).pos() == p,
                    Err(Error::InvalidType(_)) => p < ms.len() && string_of(ms[p]) is None && final(self).pos() == p + 1,
                    Err(_) => false,
                }
            }),
    {
        proof {
            lemma_model_elems_index(self.values@);
        }
        if self.idx >= self.values.len() {
            return Err(Error::OutOfBounds);
        }
        let out = match &self.values[self.idx] {
            Value::SimpleString(s) => Ok(clone_bytes(s)),
            Value::BulkString(s) => Ok(clone_bytes(s)),
            v => Err(Error::InvalidType(v.value_type())),
        };
        self.idx = self.idx + 1;
        out
    }

    /// Take the next element as raw bytes: only `BulkString` qualifies.
    pub fn get_bytes(&mut self) -> (r: Result<Vec<u8>, Error>)
        requires
            old(self).wf(),
        ensures
            final(self).wf(),
            final(self).models() == old(self).models(),
            ({
                let ms = old(self).models();
                let p = old(self).pos();
                match r {
                    Ok(bytes) => p < ms.len() && bytes_of(ms[p]) == Some(bytes@) && final(self).pos() == p + 1,
                    Err(Error::OutOfBounds) => p >= ms.len() && final(self).pos() == p,
                    Err(Error::InvalidType(_)) => p < ms.len() && bytes_of(ms[p]) is None && final(self).pos() == p + 1,
                    Err(_) => false,
                }
            }),
    {
        proof {
            lemma_model_elems_index(self.values@);
        }
        if self.idx >= self.values.len() {
            return Err(Error::OutOfBounds);
        }
        let out = match &self.values[self.idx] {
            Value::BulkString(s) => Ok(clone_bytes(s)),
            v => Err(Error::InvalidType(v.value_type())),
        };
        self.idx = self.idx + 1;
        out
    }

    /// Take the next element as a number: an `Integer` directly, or
    /// string-like text parsed as base-10.
    pub fn get_number(&mut self) -> (r: Result<i64, Error>)
        requires
            old(self).wf(),
        ensures
            final(self).wf(),
            final(self).models() == old(self).models(),
            ({
                let ms = old(self).models();
                let p = old(self).pos();
                match r {
                    Ok(v) => p < ms.len() && number_of(ms[p]) == NumRead::Num(v as int) && final(self).pos() == p + 1,
                    Err(Error::OutOfBounds) => p >= ms.len() && final(self).pos() == p,
                    Err(Error::InvalidNumber) => p < ms.len() && number_of(ms[p]) is BadText
                        && final(self).pos() == p + 1,
                    Err(Error::InvalidType(_)) => p < ms.len() && number_of(ms[p]) is WrongType
                        && final(self).pos() == p + 1,
                }
            }),
    {
        proof {
            lemma_model_elems_index(self.values@);
        }
        if self.idx >= self.values.len() {
            return Err(Error::OutOfBounds);
        }
        let out = match &self.values[self.idx] {
            Value::SimpleString(s) => match parse_i64_bytes(s) {
                Some(v) => Ok(v),
                None => Err(Error::InvalidNumber),
            },
            Value::BulkString(s) => match parse_i64_bytes(s) {
                Some(v) => Ok(v),
                None => Err(Error::InvalidNumber),
            },
            Value::Integer(i) => Ok(*i),
            v => Err(Error::InvalidType(v.value_type())),
        };
        self.idx = self.idx + 1;
        out
    }

    /// Take the next element as a storable value (the `SET` payload).
    pub fn next(&mut self) -> (r: Result<crate::database::Value, Error>)
        requires
            old(self).wf(),
        ensures
            final(self).wf(),
            final(self).models() == old(self).models(),
            ({
                let ms = old(self).models();
                let p = old(self).pos();
                match r {
                    Ok(v) => p < ms.len() && storable_of(ms[p]) == Some(v.model()) && final(self).pos() == p + 1,
                    Err(Error::OutOfBounds) => p >= ms.len() && final(self).pos() == p,
                    Err(Error::InvalidType(_)) => p < ms.len() && storable_of(ms[p]) is None
                        && final(self).pos() == p + 1,
                    Err(_) => false,
                }
            }),
    {
        proof {
            lemma_model_elems_index(self.values@);
        }
        if self.idx >= self.values.len() {
            return Err(Error::OutOfBounds);
        }
        let out = match crate::database::Value::try_from_wire(&self.values[self.idx]) {
            Ok(v) => Ok(v),
            Err(_) => Err(Error::InvalidType(self.values[self.idx].value_type())),
        };
        self.idx = self.idx + 1;
        out
    }

    /// Aggregate arguments are not supported; the cursor hands back an
    /// empty slice of elements.
    pub fn get_array(&self) -> (r: Result<Vec<Value>, Error>)
        ensures
            match r {
                Ok(a) => a@.len() == 0,
                Err(_) => false,
            },
    {
        Ok(Vec::new())
    }
}

} // verus!
