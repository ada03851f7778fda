//! Canonical bencode primitives: decimal digit strings, integer tokens,
//! and length-prefixed byte-string tokens.

use vstd::prelude::*;

verus! {

/// The shortest decimal digit string of `n`.
pub open spec fn dec_spec(n: nat) -> Seq<u8>
    decreases n,
{
    if n < 10 {
        seq![(48 + n) as u8]
    } else {
        dec_spec(n / 10).push((48 + n % 10) as u8)
    }
}

/// A bencode integer token: 'i', the decimal digits, 'e'.
pub open spec fn bint(n: nat) -> Seq<u8> {
    seq![105u8] + dec_spec(n) + seq![101u8]
}

/// A bencode byte-string token: the length in decimal, ':', the bytes.
pub open spec fn bstr(s: Seq<u8>) -> Seq<u8> {
    dec_spec(s.len()) + seq![58u8] + s
}

/// Appends the decimal digits of `n`.
pub fn push_decimal(out: &mut Vec<u8>, n: u64)
    ensures
        final(out)@ == old(out)@ + dec_spec(n as nat),
{
    let mut digits: Vec<u8> = Vec::new();
    let mut m = n;
    digits.push(48 + (m % 10) as u8);
    proof {
        assert(digits@ =~= seq![(48 + n as nat % 10) as u8]);
        assert(digits@.reverse() =~= digits@);
        if n >= 10 {
            assert(dec_spec(n as nat) == dec_spec(n as nat / 10).push((48 + n as nat % 10) as u8));
            assert(dec_spec(n as nat / 10).push((48 + n as nat % 10) as u8) =~= dec_spec(
                n as nat / 10,
            ) + digits@.reverse());
        }
    }
    m = m / 10;
    while m > 0
        invariant
            digits@.len() >= 1,
            m == 0 ==> dec_spec(n as nat) == digits@.reverse(),
            m > 0 ==> dec_spec(n as nat) == dec_spec(m as nat) + digits@.reverse(),
        decreases m,
    {
        let ghost pre = digits@;
        digits.push(48 + (m % 10) as u8);
        proof {
            let d = (48 + m as nat % 10) as u8;
            assert(digits@.reverse() =~= seq![d] + pre.reverse());
            if m >= 10 {
                assert(dec_spec(m as nat) == dec_spec(m as nat / 10).push(d));
                assert(dec_spec(m as nat / 10).push(d) + pre.reverse() =~= dec_spec(m as nat / 10)
                    + digits@.reverse());
            } else {
                assert(dec_spec(m as nat) =~= seq![d]);
                assert(seq![d] + pre.reverse() =~= digits@.reverse());
            }
        }
        m = m / 10;
    }
    let ghost rev = digits@.reverse();
    let mut j = digits.len();
    proof {
        assert(out@ + rev.take(0) =~= out@);
    }
    while j > 0
        invariant
            0 <= j <= digits@.len(),
            rev == digits@.reverse(),
            out@ == old(out)@ + rev.take(digits@.len() - j),
        decreases j,
    {
        j -= 1;
        out.push(digits[j]);
        proof {
            let k = digits@.len() - j - 1;
            assert(rev[k] == digits@[j as int]);
            assert(rev.take(k + 1) =~= rev.take(k).push(rev[k]));
            assert(old(out)@ + rev.take(k) + seq![digits@[j as int]] =~= old(out)@ + rev.take(
                k + 1,
            ));
        }
    }
    proof {
        assert(rev.take(digits@.len() as int) =~= rev);
    }
}

/// Appends a bencode byte-string token holding `s`.
pub fn push_bstr(out: &mut Vec<u8>, s: &[u8])
    ensures
        final(out)@ == old(out)@ + bstr(s@),
{
    push_decimal(out, s.len() as u64);
    out.push(58);  // ':'
    out.extend_from_slice(s);
    proof {
        assert(final(out)@ =~= old(out)@ + bstr(s@));
    }
}

/// Appends a bencode integer token holding `n`.
pub fn push_bint(out: &mut Vec<u8>, n: u64)
    ensures
        final(out)@ == old(out)@ + bint(n as nat),
{
    out.push(105);  // 'i'
    push_decimal(out, n);
    out.push(101);  // 'e'
    proof {
        assert(final(out)@ =~= old(out)@ + bint(n as nat));
    }
}

} // verus!
