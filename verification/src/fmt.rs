//! Plain, pure decimal formatting, callable independently of any host
//! object model: the building block for the structures' description
//! strings.

use vstd::prelude::*;

verus! {

/// The decimal digit character for `d` (meaningful for `0 <= d <= 9`).
pub open spec fn digit_char(d: int) -> char {
    ((48 + d) as u8) as char
}

/// The decimal representation of a non-negative number, most significant
/// digit first, without leading zeros (and `0` itself as a single digit).
pub open spec fn dec_nat(n: int) -> Seq<char>
    decreases n,
{
    if n < 10 {
        seq![digit_char(n)]
    } else {
        dec_nat(n / 10) + seq![digit_char(n % 10)]
    }
}

/// The decimal representation of a signed number: a `-` sign followed by
/// the magnitude when negative.
pub open spec fn dec_int(n: int) -> Seq<char> {
    if n < 0 {
        seq!['-'] + dec_nat(-n)
    } else {
        dec_nat(n)
    }
}

/// Appends the decimal representation of `v` to `s`.
#[verifier::loop_isolation(false)]
pub fn push_u64(s: &mut String, v: u64)
    ensures
        final(s)@ == old(s)@ + dec_nat(v as int),
{
    let ghost v0 = v as int;
    let mut digits: Vec<u8> = Vec::new();
    let mut rest = v;
    while rest >= 10
        invariant
            rest >= 0,
            dec_nat(v0) =~= dec_nat(rest as int) + digits@.reverse().map_values(
                |d: u8| digit_char(d as int),
            ),
            forall|t: int| 0 <= t < digits@.len() ==> #[trigger] digits@[t] < 10,
        decreases rest,
    {
        let d = (rest % 10) as u8;
        let ghost before = digits@;
        digits.push(d);
        rest = rest / 10;
        proof {
            assert(digits@.reverse() =~= seq![d] + before.reverse());
            assert(digits@.reverse().map_values(|x: u8| digit_char(x as int))
                =~= seq![digit_char(d as int)]
                    + before.reverse().map_values(|x: u8| digit_char(x as int)));
        }
    }
    let last = rest as u8;
    let ghost all = seq![digit_char(last as int)]
        + digits@.reverse().map_values(|d: u8| digit_char(d as int));
    proof {
        assert(dec_nat(rest as int) == seq![digit_char(rest as int)]);
        assert(dec_nat(v0) =~= all);
    }
    let c0 = (48 + last) as char;
    crate::text::push_char(s, c0);
    let mut t: usize = digits.len();
    while t > 0
        invariant
            t <= digits@.len(),
            forall|u: int| 0 <= u < digits@.len() ==> #[trigger] digits@[u] < 10,
            s@ =~= old(s)@ + all.subrange(0, digits@.len() - t + 1),
        decreases t,
    {
        t = t - 1;
        let c1 = (48 + digits[t]) as char;
        crate::text::push_char(s, c1);
        proof {
            let done = digits@.len() - t;
            assert(digits@.reverse()[done - 1] == digits@[t as int]);
            assert(all[done] == digit_char(digits@[t as int] as int));
            assert(s@ =~= old(s)@ + all.subrange(0, done + 1));
        }
    }
    proof {
        assert(all.subrange(0, all.len() as int) =~= all);
        assert(s@ =~= old(s)@ + dec_nat(v0));
    }
}

/// Appends the decimal representation of a signed value to `s`.
pub fn push_i64(s: &mut String, v: i64)
    ensures
        final(s)@ == old(s)@ + dec_int(v as int),
{
    if v >= 0 {
        push_u64(s, v as u64);
    } else {
        let mag: u64 = if v == i64::MIN {
            9223372036854775808u64
        } else {
            (-v) as u64
        };
        crate::text::push_char(s, '-');
        push_u64(s, mag);
        proof {
            assert(s@ =~= old(s)@ + (seq!['-'] + dec_nat(mag as int)));
        }
    }
}

} // verus!
