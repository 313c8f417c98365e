//! Small byte-level helpers shared by the compiler, the engine and the
//! diagnostic call stack.

use vstd::prelude::*;

verus! {

/// Exact equality of two byte slices.
pub fn bytes_eq(a: &[u8], b: &[u8]) -> (r: bool)
    ensures
        r == (a@ == b@),
{
    if a.len() != b.len() {
        return false;
    }
    let n = a.len();
    let mut i: usize = 0;
    while i < n
        invariant
            n == a@.len() == b@.len(),
            i <= n,
            forall|j: int| 0 <= j < i ==> a@[j] == b@[j],
        decreases n - i,
    {
        if a[i] != b[i] {
            return false;
        }
        i = i + 1;
    }
    proof {
        assert(a@ =~= b@);
    }
    true
}

/// Decimal digit bytes of a nonnegative number, most significant first.
pub open spec fn dec_digits_bytes(n: nat) -> Seq<u8>
    decreases n,
{
    if n < 10 {
        seq![(48 + n) as u8]
    } else {
        dec_digits_bytes(n / 10).push((48 + n % 10) as u8)
    }
}

/// Renders a number as its decimal digit bytes.
pub fn usize_to_dec_bytes(n: usize) -> (r: Vec<u8>)
    ensures
        r@ == dec_digits_bytes(n as nat),
{
    let mut rev: Vec<u8> = Vec::new();
    let mut m: usize = n;
    proof {
        assert(rev@.reverse() =~= Seq::<u8>::empty());
        assert(dec_digits_bytes(n as nat) =~= dec_digits_bytes(m as nat) + rev@.reverse());
    }
    // collect the trailing digits of n, least significant first
    while m >= 10
        invariant
            dec_digits_bytes(n as nat) == dec_digits_bytes(m as nat) + rev@.reverse(),
        decreases m,
    {
        let d = (m % 10) as u8;
        let ghost old_rev = rev@;
        let ghost old_m = m as nat;
        rev.push(48 + d);
        m = m / 10;
        proof {
            assert(rev@ =~= old_rev.push((48 + old_m % 10) as u8));
            assert(rev@.reverse() =~= seq![(48 + old_m % 10) as u8] + old_rev.reverse());
            assert(dec_digits_bytes(old_m) == dec_digits_bytes(old_m / 10).push(
                (48 + old_m % 10) as u8,
            ));
            assert(dec_digits_bytes(old_m / 10) + rev@.reverse() =~= dec_digits_bytes(old_m)
                + old_rev.reverse());
        }
    }
    let mut out: Vec<u8> = Vec::new();
    out.push(48 + (m as u8));
    proof {
        assert(out@ =~= dec_digits_bytes(m as nat));
        assert(rev@.subrange(rev@.len() as int, rev@.len() as int).reverse()
            =~= Seq::<u8>::empty());
        assert(out@ =~= dec_digits_bytes(m as nat) + rev@.subrange(
            rev@.len() as int,
            rev@.len() as int,
        ).reverse());
    }
    // append the collected digits, most significant first
    let mut k: usize = rev.len();
    while k > 0
        invariant
            k <= rev@.len(),
            m < 10,
            dec_digits_bytes(n as nat) == dec_digits_bytes(m as nat) + rev@.reverse(),
            out@ == dec_digits_bytes(m as nat) + rev@.subrange(k as int, rev@.len() as int).reverse(),
        decreases k,
    {
        out.push(rev[k - 1]);
        k = k - 1;
        proof {
            assert(rev@.subrange(k as int, rev@.len() as int).reverse() =~= rev@.subrange(
                k + 1 as int,
                rev@.len() as int,
            ).reverse().push(rev@[k as int]));
            assert(out@ =~= dec_digits_bytes(m as nat) + rev@.subrange(
                k as int,
                rev@.len() as int,
            ).reverse());
        }
    }
    proof {
        assert(rev@.subrange(0, rev@.len() as int) =~= rev@);
        assert(out@ =~= dec_digits_bytes(n as nat));
    }
    out
}

} // verus!
