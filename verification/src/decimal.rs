//! Verified decimal formatting: the executable counterpart of the
//! `dec_digits` / `int_bytes` byte sequences used by the wire encoding.

use vstd::prelude::*;

use crate::value::{dec_digits, int_bytes};

verus! {

/// `10^k`.
pub open spec fn pow10(k: nat) -> int
    decreases k,
{
    if k == 0 {
        1
    } else {
        10 * pow10((k - 1) as nat)
    }
}

/// The number a run of ASCII digits denotes, most significant first.
pub open spec fn digits_val(d: Seq<u8>) -> int
    decreases d.len(),
{
    if d.len() == 0 {
        0
    } else {
        digits_val(d.drop_last()) * 10 + (d.last() - 48)
    }
}

/// ASCII decimal digit.
pub open spec fn all_digits(d: Seq<u8>) -> bool {
    forall|k: int| 0 <= k < d.len() ==> 48 <= #[trigger] d[k] <= 57
}

/// `dec_digits(n)` is a nonempty digit run without a leading zero (except
/// for zero itself) whose value is `n`.
pub proof fn lemma_dec_digits_props(n: nat)
    ensures
        dec_digits(n).len() >= 1,
        all_digits(dec_digits(n)),
        digits_val(dec_digits(n)) == n,
        n > 0 ==> dec_digits(n)[0] != 48,
        n == 0 ==> dec_digits(n) == seq![48u8],
    decreases n,
{
    if n < 10 {
        assert(dec_digits(n) == seq![(48 + n) as u8]);
        assert(dec_digits(n).drop_last() =~= Seq::<u8>::empty());
        assert(digits_val(Seq::<u8>::empty()) == 0);
        assert(digits_val(dec_digits(n)) == 0 * 10 + ((48 + n) as u8 - 48));
    } else {
        lemma_dec_digits_props(n / 10);
        let d = dec_digits(n);
        assert(d == dec_digits(n / 10) + seq![(48 + n % 10) as u8]);
        assert(d.drop_last() =~= dec_digits(n / 10));
        assert(d.last() == (48 + n % 10) as u8);
        assert(digits_val(d) == (n / 10) * 10 + n % 10);
    }
}

/// Digit runs denote values bounded by powers of ten; a run with a nonzero
/// leading digit is bounded below.
pub proof fn lemma_digits_val_bounds(d: Seq<u8>)
    requires
        all_digits(d),
    ensures
        0 <= digits_val(d) < pow10(d.len()),
        d.len() >= 1 && d[0] >= 49 ==> digits_val(d) >= pow10((d.len() - 1) as nat),
    decreases d.len(),
{
    if d.len() == 0 {
    } else {
        let dd = d.drop_last();
        assert(all_digits(dd));
        lemma_digits_val_bounds(dd);
        let r = d.last() - 48;
        assert(0 <= r <= 9);
        assert(digits_val(d) == digits_val(dd) * 10 + r);
        assert(pow10(d.len()) == 10 * pow10(dd.len()));
        assert(digits_val(dd) * 10 + r < pow10(d.len())) by (nonlinear_arith)
            requires
                0 <= digits_val(dd) < pow10(dd.len()),
                0 <= r <= 9,
                pow10(d.len()) == 10 * pow10(dd.len()),
        ;
        if d.len() >= 1 && d[0] >= 49 {
            if d.len() == 1 {
                assert(digits_val(d) == d[0] - 48 >= 1);
            } else {
                assert(dd[0] == d[0]);
                assert(digits_val(dd) >= pow10((dd.len() - 1) as nat));
                assert(pow10((d.len() - 1) as nat) == 10 * pow10((dd.len() - 1) as nat));
                assert(digits_val(dd) * 10 + r >= pow10((d.len() - 1) as nat)) by (nonlinear_arith)
                    requires
                        digits_val(dd) >= pow10((dd.len() - 1) as nat),
                        r >= 0,
                        pow10((d.len() - 1) as nat) == 10 * pow10((dd.len() - 1) as nat),
                ;
            }
        }
    }
}

/// A digit run without a leading zero is the canonical spelling of its
/// value.
pub proof fn lemma_digits_canonical(d: Seq<u8>)
    requires
        all_digits(d),
        d.len() >= 1,
        d[0] != 48 || d.len() == 1,
    ensures
        digits_val(d) >= 0,
        dec_digits(digits_val(d) as nat) == d,
    decreases d.len(),
{
    lemma_digits_val_bounds(d);
    if d.len() == 1 {
        assert(d.drop_last() =~= Seq::<u8>::empty());
        assert(digits_val(d) == d[0] - 48);
        assert(dec_digits((d[0] - 48) as nat) =~= d);
    } else {
        let dd = d.drop_last();
        let r = d.last() - 48;
        assert(dd[0] == d[0]);
        assert(d[0] >= 49);
        lemma_digits_canonical(dd);
        lemma_digits_val_bounds(dd);
        assert(digits_val(dd) >= pow10((dd.len() - 1) as nat));
        lemma_pow10_pos((dd.len() - 1) as nat);
        let v = digits_val(d);
        assert(v == digits_val(dd) * 10 + r);
        assert(v / 10 == digits_val(dd) && v % 10 == r) by (nonlinear_arith)
            requires
                v == digits_val(dd) * 10 + r,
                0 <= r <= 9,
        ;
        assert(v >= 10) by (nonlinear_arith)
            requires
                v == digits_val(dd) * 10 + r,
                digits_val(dd) >= 1,
                r >= 0,
        ;
        assert(dec_digits(v as nat) == dec_digits((v as nat) / 10) + seq![
            (48 + (v as nat) % 10) as u8,
        ]);
        assert((v as nat) / 10 == digits_val(dd) && (v as nat) % 10 == r);
        assert(dec_digits(v as nat) =~= d);
    }
}

/// `10^k` is positive.
pub proof fn lemma_pow10_pos(k: nat)
    ensures
        pow10(k) >= 1,
    decreases k,
{
    if k > 0 {
        lemma_pow10_pos((k - 1) as nat);
    }
}

/// Append the canonical decimal digits of `n` to `out`.
pub fn push_decimal_u64(n: u64, out: &mut Vec<u8>)
    ensures
        final(out)@ == old(out)@ + dec_digits(n as nat),
{
    if n < 10 {
        out.push(48 + n as u8);
        assert(out@ =~= old(out)@ + dec_digits(n as nat));
        return;
    }
    let mut tmp: Vec<u8> = Vec::new();
    let mut m: u64 = n;
    while m > 0
        invariant
            m > 0 ==> dec_digits(n as nat) == dec_digits(m as nat) + tmp@.reverse(),
            m == 0 ==> dec_digits(n as nat) == tmp@.reverse(),
        decreases m,
    {
        let d: u8 = (m % 10) as u8;
        let ghost pre = tmp@;
        tmp.push(48 + d);
        assert(tmp@.reverse() =~= seq![(48 + d) as u8] + pre.reverse());
        if m >= 10 {
            assert(dec_digits(m as nat) == dec_digits((m as nat) / 10) + seq![
                (48 + (m as nat) % 10) as u8,
            ]);
            assert(dec_digits(m as nat) + pre.reverse() =~= dec_digits((m as nat) / 10)
                + tmp@.reverse());
        } else {
            assert(dec_digits(m as nat) == seq![(48 + m as nat) as u8]);
            assert(dec_digits(m as nat) + pre.reverse() =~= tmp@.reverse());
        }
        m = m / 10;
    }
    let mut j: usize = tmp.len();
    while j > 0
        invariant
            j <= tmp@.len(),
            dec_digits(n as nat) == tmp@.reverse(),
            out@ == old(out)@ + tmp@.reverse().take(tmp@.len() - j),
        decreases j,
    {
        let ghost pre = out@;
        out.push(tmp[j - 1]);
        assert(out@ =~= old(out)@ + tmp@.reverse().take(tmp@.len() - (j - 1)));
        j = j - 1;
    }
    assert(out@ =~= old(out)@ + dec_digits(n as nat));
}

/// Append the canonical decimal bytes of `i` (leading `-` when negative) to `out`.
pub fn push_decimal_i64(i: i64, out: &mut Vec<u8>)
    ensures
        final(out)@ == old(out)@ + int_bytes(i as int),
{
    if i >= 0 {
        push_decimal_u64(i as u64, out);
    } else {
        out.push(45);
        let mag: u64 = if i == i64::MIN {
            9223372036854775808u64
        } else {
            (-i) as u64
        };
        assert(mag as nat == -(i as int));
        push_decimal_u64(mag, out);
        assert(out@ =~= old(out)@ + int_bytes(i as int));
    }
}

} // verus!
