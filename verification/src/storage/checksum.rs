//! What a checksum shows.

use vstd::arithmetic::div_mod::lemma_mod_multiples_vanish;
use vstd::arithmetic::div_mod::lemma_mul_mod_noop_left;
use vstd::arithmetic::div_mod::lemma_small_mod;
use vstd::prelude::*;

use crate::storage::snapshot::fnv;
use crate::storage::snapshot::FNV_PRIME;

verus! {

/// The inverse of the factor of the hash, modulo 2^64.
const INVERSE: u64 = 0xce96_5057_aff6_957b;

proof fn lemma_undo(a: u64)
    ensures
        (a.wrapping_mul(FNV_PRIME) * INVERSE) % 0x1_0000_0000_0000_0000 == a,
{
    let m: int = 0x1_0000_0000_0000_0000;
    let p = a * FNV_PRIME;
    assert(p >= 0) by (nonlinear_arith)
        requires
            p == a * FNV_PRIME,
            a >= 0,
    ;
    assert(a.wrapping_mul(FNV_PRIME) == p % m);
    lemma_mul_mod_noop_left(p, INVERSE as int, m);
    let k = a * 887285111055;
    assert(p * INVERSE == m * k + a) by (nonlinear_arith)
        requires
            p == a * FNV_PRIME,
            k == a * 887285111055,
            m == 0x1_0000_0000_0000_0000int,
            FNV_PRIME * INVERSE == 0x1_0000_0000_0000_0000int * 887285111055 + 1,
    ;
    lemma_mod_multiples_vanish(k, a as int, m);
    lemma_small_mod(a as nat, m as nat);
}

proof fn lemma_step(a: u64, b: u64)
    requires
        a.wrapping_mul(FNV_PRIME) == b.wrapping_mul(FNV_PRIME),
    ensures
        a == b,
{
    lemma_undo(a);
    lemma_undo(b);
}

/// Of two rows of bytes that differ in one byte alone, each has its own hash: a single
/// altered byte is always noticed, wherever it stands.
pub proof fn law_checksum_one_byte(a: Seq<u8>, b: Seq<u8>, i: int)
    requires
        a.len() == b.len(),
        0 <= i < a.len(),
        a[i] != b[i],
        forall|j: int| 0 <= j < a.len() && j != i ==> a[j] == b[j],
    ensures
        fnv(a) != fnv(b),
    decreases a.len(),
{
    let (x, y) = (a.drop_last(), b.drop_last());
    let (p, q) = (fnv(x), fnv(y));
    let (s, t) = (a.last() as u64, b.last() as u64);
    let n = a.len() - 1;
    if i == n {
        assert(x =~= y);
        assert(s != t);
        assert(p ^ s != p ^ t) by (bit_vector)
            requires
                s != t,
        ;
    } else {
        law_checksum_one_byte(x, y, i);
        assert(a[n] == b[n]);
        assert(p ^ s != q ^ s) by (bit_vector)
            requires
                p != q,
        ;
    }
    if fnv(a) == fnv(b) {
        lemma_step(p ^ s, q ^ t);
    }
}

/// Two rows of bytes with the same bytes behind them have one hash exactly where they have
/// one hash without these.
pub proof fn law_checksum_goes_on(a: Seq<u8>, b: Seq<u8>, rest: Seq<u8>)
    ensures
        fnv(a) == fnv(b) <==> fnv(a + rest) == fnv(b + rest),
    decreases rest.len(),
{
    if rest.len() == 0 {
        assert(a + rest =~= a);
        assert(b + rest =~= b);
    } else {
        let front = rest.drop_last();
        assert((a + rest).drop_last() =~= a + front);
        assert((b + rest).drop_last() =~= b + front);
        law_checksum_goes_on(a, b, front);
        let (p, q) = (fnv(a + front), fnv(b + front));
        let s = rest.last() as u64;
        if p != q {
            assert(p ^ s != q ^ s) by (bit_vector)
                requires
                    p != q,
            ;
            if fnv(a + rest) == fnv(b + rest) {
                lemma_step(p ^ s, q ^ s);
            }
        }
    }
}

} // verus!
