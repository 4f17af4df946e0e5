use vstd::prelude::*;

verus! {

/// Bit `x` of `v` is set.
pub open spec fn has_bit(v: u64, x: u64) -> bool {
    v & (1u64 << x) != 0
}

/// The mask of the three cells `a`, `b` and `c`.
pub open spec fn mask3(a: u64, b: u64, c: u64) -> u64 {
    (1u64 << a) | (1u64 << b) | (1u64 << c)
}

pub proof fn lemma_or_bit(v: u64, w: u64, x: u64)
    requires
        x < 64,
    ensures
        has_bit(v | w, x) == (has_bit(v, x) || has_bit(w, x)),
{
    assert((v | w) & (1u64 << x) != 0 <==> (v & (1u64 << x) != 0 || w & (1u64 << x) != 0))
        by (bit_vector)
        requires
            x < 64,
    ;
}

pub proof fn lemma_set_bit(v: u64, y: u64, x: u64)
    requires
        x < 64,
        y < 64,
    ensures
        has_bit(v | (1u64 << y), x) == (has_bit(v, x) || x == y),
{
    assert((v | (1u64 << y)) & (1u64 << x) != 0 <==> (v & (1u64 << x) != 0 || x == y))
        by (bit_vector)
        requires
            x < 64,
            y < 64,
    ;
}

pub proof fn lemma_disjoint(v: u64, w: u64, x: u64)
    requires
        x < 64,
        v & w == 0,
    ensures
        !(has_bit(v, x) && has_bit(w, x)),
{
    assert(!(v & (1u64 << x) != 0 && w & (1u64 << x) != 0)) by (bit_vector)
        requires
            x < 64,
            v & w == 0,
    ;
}

pub proof fn lemma_disjoint_set(v: u64, w: u64, y: u64)
    requires
        y < 64,
        v & w == 0,
        !has_bit(w, y),
    ensures
        (v | (1u64 << y)) & w == 0,
{
    assert((v | (1u64 << y)) & w == 0) by (bit_vector)
        requires
            y < 64,
            v & w == 0,
            w & (1u64 << y) == 0,
    ;
}

/// `w` covers the mask of three cells exactly when it has each of them.
pub proof fn lemma_covers3(w: u64, a: u64, b: u64, c: u64)
    requires
        a < 64,
        b < 64,
        c < 64,
    ensures
        (w & mask3(a, b, c) == mask3(a, b, c)) == (has_bit(w, a) && has_bit(w, b) && has_bit(
            w,
            c,
        )),
        (w & mask3(a, b, c) == 0) == (!has_bit(w, a) && !has_bit(w, b) && !has_bit(w, c)),
{
    assert((w & ((1u64 << a) | (1u64 << b) | (1u64 << c)) == ((1u64 << a) | (1u64 << b) | (1u64
        << c))) == (w & (1u64 << a) != 0 && w & (1u64 << b) != 0 && w & (1u64 << c) != 0))
        by (bit_vector)
        requires
            a < 64,
            b < 64,
            c < 64,
    ;
    assert((w & ((1u64 << a) | (1u64 << b) | (1u64 << c)) == 0) == (w & (1u64 << a) == 0 && w & (
    1u64 << b) == 0 && w & (1u64 << c) == 0)) by (bit_vector)
        requires
            a < 64,
            b < 64,
            c < 64,
    ;
}

/// A word with every bit set is the all-ones word, and conversely.
pub proof fn lemma_all_bits(v: u64)
    ensures
        (v == 0xffff_ffff_ffff_ffffu64) <==> (forall|x: u64| x < 64 ==> #[trigger] has_bit(v, x)),
{
    if v == 0xffff_ffff_ffff_ffffu64 {
        assert forall|x: u64| x < 64 implies #[trigger] has_bit(v, x) by {
            assert(0xffff_ffff_ffff_ffffu64 & (1u64 << x) != 0) by (bit_vector)
                requires
                    x < 64,
            ;
        }
    } else if forall|x: u64| x < 64 ==> #[trigger] has_bit(v, x) {
        lemma_low_bits(v, 63);
        assert(has_bit(v, 63));
        assert(v == 0xffff_ffff_ffff_ffffu64) by (bit_vector)
            requires
                v & (((1u64 << 63u64) - 1) as u64) == (((1u64 << 63u64) - 1) as u64),
                v & (1u64 << 63u64) != 0,
        ;
    }
}

/// When bits `0..n` of `v` are set, `v` covers the mask of the `n` low bits.
proof fn lemma_low_bits(v: u64, n: u64)
    requires
        n <= 63,
        forall|x: u64| x < n ==> #[trigger] has_bit(v, x),
    ensures
        v & (((1u64 << n) - 1) as u64) == (((1u64 << n) - 1) as u64),
    decreases n,
{
    if n == 0 {
        assert(v & (((1u64 << 0u64) - 1) as u64) == (((1u64 << 0u64) - 1) as u64)) by (bit_vector);
    } else {
        let m = (n - 1) as u64;
        lemma_low_bits(v, m);
        assert(has_bit(v, m));
        assert(v & (((1u64 << n) - 1) as u64) == (((1u64 << n) - 1) as u64)) by (bit_vector)
            requires
                n <= 63,
                m == n - 1,
                v & (((1u64 << m) - 1) as u64) == (((1u64 << m) - 1) as u64),
                v & (1u64 << m) != 0,
        ;
    }
}

/// The number of set bits of `v`.
pub open spec fn popcount(v: u64) -> nat
    decreases v,
{
    if v == 0 {
        0
    } else {
        (v % 2) as nat + popcount(v / 2)
    }
}

proof fn lemma_popcount_le(v: u64)
    ensures
        popcount(v) <= v,
    decreases v,
{
    if v != 0 {
        lemma_popcount_le(v / 2);
    }
}

/// The number of set bits of `v`.
pub fn count_ones(v: u64) -> (r: u64)
    ensures
        r == popcount(v),
{
    let mut w = v;
    let mut c: u64 = 0;
    proof {
        lemma_popcount_le(v);
    }
    while w != 0
        invariant
            c + popcount(w) == popcount(v),
            popcount(v) <= v,
        decreases w,
    {
        assert(w & 1 == w % 2) by (bit_vector);
        assert(w >> 1 == w / 2) by (bit_vector);
        c = c + (w & 1);
        w = w >> 1;
    }
    c
}

/// The mask of three cells has exactly those cells.
pub proof fn lemma_mask3_bits(a: u64, b: u64, c: u64, y: u64)
    requires
        a < 64,
        b < 64,
        c < 64,
        y < 64,
    ensures
        has_bit(mask3(a, b, c), y) <==> (y == a || y == b || y == c),
{
    assert(((1u64 << a) | (1u64 << b) | (1u64 << c)) & (1u64 << y) != 0 <==> (y == a || y == b
        || y == c)) by (bit_vector)
        requires
            a < 64,
            b < 64,
            c < 64,
            y < 64,
    ;
}

} // verus!
