//! Rendering the reported accuracy: a percentage in hundredths, as the
//! ASCII text `<integer part>.<two fraction digits>`.

use vstd::prelude::*;
use crate::parse::{all_digits, digits_val, is_digit};

verus! {

/// The decimal rendering of `n`, most significant digit first, with no
/// leading zero except for `0` itself.
pub open spec fn dec_str(n: nat) -> Seq<u8>
    decreases n,
{
    if n < 10 {
        seq![(48 + n) as u8]
    } else {
        dec_str(n / 10).push((48 + n % 10) as u8)
    }
}

/// The rendering is digits that read back as the rendered number: the
/// round trip from a number through its text to a value is the identity.
pub proof fn lemma_dec_str_val(n: nat)
    ensures
        all_digits(dec_str(n)),
        digits_val(dec_str(n)) == n,
        dec_str(n).len() >= 1,
    decreases n,
{
    if n < 10 {
        let s = dec_str(n);
        assert(s.drop_last() =~= Seq::<u8>::empty());
        assert(digits_val(Seq::<u8>::empty()) == 0);
        assert(digits_val(s) == 0 * 10 + ((48 + n) - 48));
    } else {
        lemma_dec_str_val(n / 10);
        let s = dec_str(n / 10);
        let d = (48 + n % 10) as u8;
        assert(s.push(d).drop_last() =~= s);
        assert(digits_val(s.push(d)) == digits_val(s) * 10 + (d - 48));
        assert forall|i: int| 0 <= i < s.push(d).len() implies is_digit(#[trigger] s.push(d)[i]) by {
            if i < s.len() {
                assert(s.push(d)[i] == s[i]);
            }
        }
    }
}

/// The accuracy text for a percentage in hundredths: the whole percents,
/// a dot, then exactly two fraction digits.
pub open spec fn percent_text(p: u64) -> Seq<u8> {
    dec_str((p / 100) as nat) + seq![46u8, (48 + (p / 10) % 10) as u8, (48 + p % 10) as u8]
}

/// Appends the decimal rendering of `n`.
fn push_dec(out: &mut Vec<u8>, n: u64)
    ensures
        final(out)@ == old(out)@ + dec_str(n as nat),
    decreases n,
{
    if n < 10 {
        out.push(48 + n as u8);
        proof {
            assert(out@ =~= old(out)@ + dec_str(n as nat));
        }
    } else {
        proof {
            assert(n as nat / 10 < n as nat) by (nonlinear_arith)
                requires
                    n >= 10,
            ;
        }
        push_dec(out, n / 10);
        out.push(48 + (n % 10) as u8);
        proof {
            assert(out@ =~= old(out)@ + dec_str(n as nat));
        }
    }
}

/// The accuracy text, as ASCII bytes: `10000` renders as `100.00`, `0` as
/// `0.00`, `5033` as `50.33`.
pub fn percent_bytes(p: u64) -> (r: Vec<u8>)
    ensures
        r@ == percent_text(p),
{
    let mut out: Vec<u8> = Vec::new();
    push_dec(&mut out, p / 100);
    out.push(46);
    out.push(48 + ((p / 10) % 10) as u8);
    out.push(48 + (p % 10) as u8);
    proof {
        assert(out@ =~= percent_text(p));
    }
    out
}

} // verus!
