//! The wire value data model: the tagged union of protocol values, its
//! mathematical model, and the byte encoding each value serializes to.

use vstd::prelude::*;

verus! {

/// Declared lengths for bulk strings and arrays must lie in `{-1} ∪ [0, 512 MiB)`.
pub const RESP_MAX_SIZE: u64 = 512 * 1024 * 1024;

/// Mathematical model of a wire value: what contracts and lemmas speak about.
pub enum ValueModel {
    Null,
    NullArray,
    SimpleString(Seq<u8>),
    Error(Seq<u8>),
    Integer(i64),
    BulkString(Seq<u8>),
    Array(Seq<ValueModel>),
}

/// A protocol value as sent over the wire.
///
/// `Null` is the absent bulk string and `NullArray` the absent aggregate;
/// both are distinct from the empty bulk string and the empty array.
#[derive(Debug, PartialEq)]
pub enum Value {
    Null,
    NullArray,
    SimpleString(Vec<u8>),
    Error(Vec<u8>),
    Integer(i64),
    BulkString(Vec<u8>),
    Array(Vec<Value>),
}

impl Value {
    /// The deep mathematical view of this value.
    pub open spec fn model(&self) -> ValueModel
        decreases self,
    {
        match self {
            Value::Null => ValueModel::Null,
            Value::NullArray => ValueModel::NullArray,
            Value::SimpleString(s) => ValueModel::SimpleString(s@),
            Value::Error(s) => ValueModel::Error(s@),
            Value::Integer(i) => ValueModel::Integer(*i),
            Value::BulkString(s) => ValueModel::BulkString(s@),
            Value::Array(elems) => ValueModel::Array(model_elems(elems@, 0)),
        }
    }
}

/// The models of `elems[i..]`, in order.
pub open spec fn model_elems(elems: Seq<Value>, i: int) -> Seq<ValueModel>
    decreases elems, elems.len() - i,
{
    if i < 0 || i >= elems.len() {
        Seq::empty()
    } else {
        seq![elems[i].model()] + model_elems(elems, i + 1)
    }
}

/// `model_elems(elems, i)` maps each remaining element to its model, index by index.
pub proof fn lemma_model_elems(elems: Seq<Value>, i: int)
    requires
        0 <= i <= elems.len(),
    ensures
        model_elems(elems, i).len() == elems.len() - i,
        forall|k: int|
            i <= k < elems.len() ==> #[trigger] model_elems(elems, i)[k - i] == elems[k].model(),
    decreases elems.len() - i,
{
    if i < elems.len() {
        lemma_model_elems(elems, i + 1);
        assert forall|k: int|
            i <= k < elems.len() implies #[trigger] model_elems(elems, i)[k - i]
            == elems[k].model() by {
            if k > i {
                assert(model_elems(elems, i + 1)[k - (i + 1)] == elems[k].model());
            }
        }
    }
}

/// A UTF-8 continuation byte.
pub open spec fn is_cont(b: u8) -> bool {
    128 <= b <= 191
}

/// The bytes spell valid UTF-8 text: ASCII, or a well-formed multi-byte
/// sequence (shortest form, no surrogates, at most U+10FFFF).
pub open spec fn is_utf8(s: Seq<u8>) -> bool
    decreases s.len(),
{
    if s.len() == 0 {
        true
    } else {
        let b0 = s[0];
        if b0 < 128 {
            is_utf8(s.skip(1))
        } else if 194 <= b0 <= 223 {
            s.len() >= 2 && is_cont(s[1]) && is_utf8(s.skip(2))
        } else if b0 == 224 {
            s.len() >= 3 && 160 <= s[1] <= 191 && is_cont(s[2]) && is_utf8(s.skip(3))
        } else if 225 <= b0 <= 236 {
            s.len() >= 3 && is_cont(s[1]) && is_cont(s[2]) && is_utf8(s.skip(3))
        } else if b0 == 237 {
            s.len() >= 3 && 128 <= s[1] <= 159 && is_cont(s[2]) && is_utf8(s.skip(3))
        } else if 238 <= b0 <= 239 {
            s.len() >= 3 && is_cont(s[1]) && is_cont(s[2]) && is_utf8(s.skip(3))
        } else if b0 == 240 {
            s.len() >= 4 && 144 <= s[1] <= 191 && is_cont(s[2]) && is_cont(s[3]) && is_utf8(
                s.skip(4),
            )
        } else if 241 <= b0 <= 243 {
            s.len() >= 4 && is_cont(s[1]) && is_cont(s[2]) && is_cont(s[3]) && is_utf8(s.skip(4))
        } else if b0 == 244 {
            s.len() >= 4 && 128 <= s[1] <= 143 && is_cont(s[2]) && is_cont(s[3]) && is_utf8(
                s.skip(4),
            )
        } else {
            false
        }
    }
}

/// Well-formed values: simple strings and error payloads are UTF-8 text
/// with no carriage return (a CR would terminate the frame early), and
/// bulk-string and array lengths stay under the 512 MiB ceiling.
pub open spec fn wf(m: ValueModel) -> bool
    decreases m, 0int,
{
    match m {
        ValueModel::Null => true,
        ValueModel::NullArray => true,
        ValueModel::SimpleString(s) => (forall|i: int| 0 <= i < s.len() ==> s[i] != 13u8)
            && is_utf8(s),
        ValueModel::Error(s) => (forall|i: int| 0 <= i < s.len() ==> s[i] != 13u8) && is_utf8(s),
        ValueModel::Integer(_) => true,
        ValueModel::BulkString(s) => s.len() < RESP_MAX_SIZE,
        ValueModel::Array(elems) => elems.len() < RESP_MAX_SIZE && wf_elems(elems, 0),
    }
}

/// Every element of `elems` from index `i` on is well formed.
pub open spec fn wf_elems(elems: Seq<ValueModel>, i: int) -> bool
    decreases elems, elems.len() - i,
{
    if i < 0 || i >= elems.len() {
        true
    } else {
        wf(elems[i]) && wf_elems(elems, i + 1)
    }
}

/// `model_elems` from the start maps each element to its model.
pub proof fn lemma_model_elems_index(elems: Seq<Value>)
    ensures
        model_elems(elems, 0).len() == elems.len(),
        forall|k: int|
            0 <= k < elems.len() ==> #[trigger] model_elems(elems, 0)[k] == elems[k].model(),
{
    lemma_model_elems(elems, 0);
    assert forall|k: int|
        0 <= k < elems.len() implies #[trigger] model_elems(elems, 0)[k] == elems[k].model() by {
        assert(model_elems(elems, 0)[k - 0] == elems[k].model());
    }
}

/// The canonical decimal digits of `n`, most significant first.
pub open spec fn dec_digits(n: nat) -> Seq<u8>
    decreases n,
{
    if n < 10 {
        seq![(48 + n) as u8]
    } else {
        dec_digits(n / 10) + seq![(48 + n % 10) as u8]
    }
}

/// The canonical decimal bytes of `i`, with a leading `-` when negative.
pub open spec fn int_bytes(i: int) -> Seq<u8> {
    if i < 0 {
        seq![45u8] + dec_digits((-i) as nat)
    } else {
        dec_digits(i as nat)
    }
}

/// The frame terminator.
pub open spec fn crlf() -> Seq<u8> {
    seq![13u8, 10u8]
}

/// The exact byte sequence a value serializes to.
pub open spec fn encoding(m: ValueModel) -> Seq<u8>
    decreases m, 0int,
{
    match m {
        ValueModel::Null => seq![36u8] + int_bytes(-1) + crlf(),
        ValueModel::NullArray => seq![42u8] + int_bytes(-1) + crlf(),
        ValueModel::SimpleString(s) => seq![43u8] + s + crlf(),
        ValueModel::Error(s) => seq![45u8] + s + crlf(),
        ValueModel::Integer(i) => seq![58u8] + int_bytes(i as int) + crlf(),
        ValueModel::BulkString(s) => seq![36u8] + int_bytes(s.len() as int) + crlf() + s + crlf(),
        ValueModel::Array(elems) => seq![42u8] + int_bytes(elems.len() as int) + crlf()
            + encode_elems(elems, 0),
    }
}

/// The concatenation of the encodings of `elems[i..]`.
pub open spec fn encode_elems(elems: Seq<ValueModel>, i: int) -> Seq<u8>
    decreases elems, elems.len() - i,
{
    if i < 0 || i >= elems.len() {
        Seq::empty()
    } else {
        encoding(elems[i]) + encode_elems(elems, i + 1)
    }
}

/// Short name of a value's variant.
pub open spec fn variant_name(m: ValueModel) -> Seq<char> {
    match m {
        ValueModel::Null => "null"@,
        ValueModel::NullArray => "null_array"@,
        ValueModel::SimpleString(_) => "simple_string"@,
        ValueModel::Error(_) => "error"@,
        ValueModel::Integer(_) => "integer"@,
        ValueModel::BulkString(_) => "bulk_string"@,
        ValueModel::Array(_) => "array"@,
    }
}

/// Append all of `data` to `out`.
pub(crate) fn push_slice(out: &mut Vec<u8>, data: &Vec<u8>)
    ensures
        final(out)@ == old(out)@ + data@,
{
    let mut i: usize = 0;
    while i < data.len()
        invariant
            i <= data@.len(),
            out@ == old(out)@ + data@.take(i as int),
        decreases data@.len() - i,
    {
        out.push(data[i]);
        assert(out@ =~= old(out)@ + data@.take(i as int + 1));
        i = i + 1;
    }
    assert(out@ =~= old(out)@ + data@);
}

impl Value {
    /// Append this value's wire encoding to `out`.
    #[verifier::rlimit(60)]
    fn serialize_ref(&self, out: &mut Vec<u8>)
        ensures
            final(out)@ == old(out)@ + encoding(self.model()),
        decreases self,
    {
        match self {
            Value::Null => {
                out.push(36);
                out.push(45);
                out.push(49);
                out.push(13);
                out.push(10);
                assert(out@ =~= old(out)@ + encoding(self.model()));
            }
            Value::NullArray => {
                out.push(42);
                out.push(45);
                out.push(49);
                out.push(13);
                out.push(10);
                assert(out@ =~= old(out)@ + encoding(self.model()));
            }
            Value::SimpleString(s) => {
                out.push(43);
                push_slice(out, s);
                out.push(13);
                out.push(10);
                assert(out@ =~= old(out)@ + encoding(self.model()));
            }
            Value::Error(s) => {
                out.push(45);
                push_slice(out, s);
                out.push(13);
                out.push(10);
                assert(out@ =~= old(out)@ + encoding(self.model()));
            }
            Value::Integer(i) => {
                out.push(58);
                crate::decimal::push_decimal_i64(*i, out);
                out.push(13);
                out.push(10);
                assert(out@ =~= old(out)@ + encoding(self.model()));
            }
            Value::BulkString(s) => {
                out.push(36);
                crate::decimal::push_decimal_u64(s.len() as u64, out);
                out.push(13);
                out.push(10);
                push_slice(out, s);
                out.push(13);
                out.push(10);
                assert(out@ =~= old(out)@ + encoding(self.model()));
            }
            Value::Array(elems) => {
                out.push(42);
                crate::decimal::push_decimal_u64(elems.len() as u64, out);
                out.push(13);
                out.push(10);
                let ghost ms = model_elems(elems@, 0);
                proof {
                    lemma_model_elems(elems@, 0);
                    assert forall|k: int|
                        0 <= k < elems@.len() implies #[trigger] ms[k] == elems@[k].model() by {
                        assert(model_elems(elems@, 0)[k - 0] == elems@[k].model());
                    }
                    assert(out@ + encode_elems(ms, 0) =~= old(out)@ + encoding(self.model()));
                }
                let mut i: usize = 0;
                while i < elems.len()
                    invariant
                        *self == Value::Array(*elems),
                        i <= elems@.len(),
                        ms == model_elems(elems@, 0),
                        ms.len() == elems@.len(),
                        forall|k: int|
                            0 <= k < elems@.len() ==> #[trigger] ms[k] == elems@[k].model(),
                        out@ + encode_elems(ms, i as int) == old(out)@ + encoding(self.model()),
                    decreases elems@.len() - i,
                {
                    let ghost pre = out@;
                    proof {
                        assert(self->Array_0 == *elems);
                        assert(decreases_to!(*self => *elems));
                        assert(decreases_to!(*elems => elems@));
                        assert(decreases_to!(elems@ => elems@[i as int]));
                    }
                    elems[i].serialize_ref(out);
                    proof {
                        assert(encode_elems(ms, i as int) == encoding(ms[i as int])
                            + encode_elems(ms, i as int + 1));
                        assert(out@ + encode_elems(ms, i as int + 1) =~= pre + encode_elems(
                            ms,
                            i as int,
                        ));
                    }
                    i = i + 1;
                }
                assert(out@ =~= out@ + encode_elems(ms, ms.len() as int));
            }
        }
    }

    /// Append this value's wire encoding to `output`, consuming the value.
    pub fn serialize(self, output: &mut Vec<u8>)
        ensures
            final(output)@ == old(output)@ + encoding(self.model()),
    {
        self.serialize_ref(output);
    }

    /// The short name of this value's variant.
    pub fn value_type(&self) -> (r: &'static str)
        ensures
            r@ == variant_name(self.model()),
    {
        match self {
            Value::Null => "null",
            Value::NullArray => "null_array",
            Value::SimpleString(_) => "simple_string",
            Value::Error(_) => "error",
            Value::Integer(_) => "integer",
            Value::BulkString(_) => "bulk_string",
            Value::Array(_) => "array",
        }
    }
}

} // verus!
