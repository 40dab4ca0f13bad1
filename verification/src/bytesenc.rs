//! Big-endian integer byte codecs.
//!
//! The WAL key layout and the memtable key sequence both rely on big-endian
//! encodings so that lexicographic byte order equals numeric order. This
//! module gives the encodings a mathematical model (`be_bytes_of`,
//! `nat_of_be_bytes`), proves the round trip and the order preservation, and
//! offers executable encoders and decoders proved against the model.

use vstd::prelude::*;
use vstd::arithmetic::power::{pow, lemma_pow_positive, lemma_pow_adds};
use vstd::arithmetic::div_mod::{
    lemma_breakdown, lemma_div_denominator, lemma_div_is_ordered, lemma_fundamental_div_mod,
    lemma_mod_mod, lemma_small_mod, lemma_mod_division_less_than_divisor,
};

verus! {

/// The big-endian byte string of width `len` whose value is `x mod 256^len`:
/// most significant byte first.
pub open spec fn be_bytes_of(x: nat, len: nat) -> Seq<u8>
    decreases len,
{
    if len == 0 {
        Seq::empty()
    } else {
        let p = pow(256, (len - 1) as nat) as nat;
        seq![((x / p) % 256) as u8] + be_bytes_of(x % p, (len - 1) as nat)
    }
}

/// The number a big-endian byte string denotes.
pub open spec fn nat_of_be_bytes(s: Seq<u8>) -> nat
    decreases s.len(),
{
    if s.len() == 0 {
        0
    } else {
        nat_of_be_bytes(s.drop_last()) * 256 + s.last() as nat
    }
}

/// Strict lexicographic order on byte strings.
pub open spec fn lex_less(a: Seq<u8>, b: Seq<u8>) -> bool
    decreases a.len(),
{
    if b.len() == 0 {
        false
    } else if a.len() == 0 {
        true
    } else if a[0] != b[0] {
        a[0] < b[0]
    } else {
        lex_less(a.drop_first(), b.drop_first())
    }
}

/// The powers of 256 the fixed-width codecs rely on.
pub proof fn lemma_pow256_values()
    ensures
        pow(256, 0) == 1,
        pow(256, 1) == 256,
        pow(256, 2) == 0x1_0000,
        pow(256, 3) == 0x100_0000,
        pow(256, 4) == 0x1_0000_0000,
        pow(256, 5) == 0x100_0000_0000,
        pow(256, 6) == 0x1_0000_0000_0000,
        pow(256, 7) == 0x100_0000_0000_0000,
        pow(256, 8) == 0x1_0000_0000_0000_0000,
{
    reveal(pow);
    assert(pow(256, 0) == 1);
    assert(pow(256, 1) == 256 * pow(256, 0));
    assert(pow(256, 2) == 256 * pow(256, 1));
    assert(pow(256, 3) == 256 * pow(256, 2));
    assert(pow(256, 4) == 256 * pow(256, 3));
    assert(pow(256, 5) == 256 * pow(256, 4));
    assert(pow(256, 6) == 256 * pow(256, 5));
    assert(pow(256, 7) == 256 * pow(256, 6));
    assert(pow(256, 8) == 256 * pow(256, 7));
}

pub proof fn lemma_be_bytes_len(x: nat, len: nat)
    ensures
        be_bytes_of(x, len).len() == len,
    decreases len,
{
    if len > 0 {
        let p = pow(256, (len - 1) as nat) as nat;
        lemma_pow_positive(256, (len - 1) as nat);
        lemma_be_bytes_len(x % p, (len - 1) as nat);
    }
}

/// Appending one more low-order byte: the alternative unfolding of
/// `be_bytes_of` from the least significant end.
pub proof fn lemma_be_bytes_snoc(x: nat, len: nat)
    requires
        len > 0,
    ensures
        be_bytes_of(x, len) == be_bytes_of(x / 256, (len - 1) as nat) + seq![(x % 256) as u8],
    decreases len,
{
    let p = pow(256, (len - 1) as nat) as nat;
    lemma_pow_positive(256, (len - 1) as nat);
    if len == 1 {
        assert(p == 1) by {
            lemma_pow256_values();
        }
        lemma_small_mod((x % 256) as nat, 256);
        assert(x / 1 == x && x % 1 == 0) by (nonlinear_arith);
        assert(x / p == x && x % p == 0);
        assert((x / p) % 256 == x % 256);
        assert(be_bytes_of(x % p, 0) =~= Seq::<u8>::empty());
        assert(be_bytes_of(x / 256, 0) =~= Seq::<u8>::empty());
        assert(be_bytes_of(x, 1) =~= be_bytes_of(x / 256, 0) + seq![(x % 256) as u8]);
    } else {
        let q = pow(256, (len - 2) as nat) as nat;
        lemma_pow_positive(256, (len - 2) as nat);
        assert(p == 256 * q) by {
            lemma_pow_adds(256, 1, (len - 2) as nat);
            lemma_pow256_values();
        }
        lemma_be_bytes_snoc(x % p, (len - 1) as nat);
        // x % p % 256 == x % 256
        lemma_mod_mod(x as int, 256, q as int);
        // (x % p) / 256 == (x / 256) % q
        lemma_breakdown(x as int, 256, q as int);
        assert((x % p) as int == 256 * ((x as int / 256) % (q as int)) + x as int % 256);
        assert((x % p) / 256 == (x / 256) % q) by {
            let r = (x as int / 256) % (q as int);
            let m = x as int % 256;
            assert(0 <= m < 256);
            assert((256 * r + m) / 256 == r) by (nonlinear_arith)
                requires 0 <= m < 256, 0 <= r;
        }
        // heads agree: (x / p) % 256 == ((x / 256) / q) % 256
        lemma_div_denominator(x as int, 256, q as int);
        assert(x as int / (256 * q as int) == (x as int / 256) / q as int);
        assert(be_bytes_of(x, len) =~= be_bytes_of(x / 256, (len - 1) as nat) + seq![(x % 256) as u8]);
    }
}

/// Decoding inverts encoding for values in range.
pub proof fn lemma_be_round_trip(x: nat, len: nat)
    requires
        x < pow(256, len),
    ensures
        nat_of_be_bytes(be_bytes_of(x, len)) == x,
    decreases len,
{
    lemma_pow_positive(256, len);
    if len == 0 {
        lemma_pow256_values();
    } else {
        lemma_be_bytes_snoc(x, len);
        let s = be_bytes_of(x, len);
        let t = be_bytes_of(x / 256, (len - 1) as nat);
        lemma_be_bytes_len(x / 256, (len - 1) as nat);
        assert(s.drop_last() =~= t);
        assert(s.last() == (x % 256) as u8);
        assert(x / 256 < pow(256, (len - 1) as nat)) by {
            let q = pow(256, (len - 1) as nat);
            lemma_pow_positive(256, (len - 1) as nat);
            assert(pow(256, len) == 256 * q) by {
                lemma_pow_adds(256, 1, (len - 1) as nat);
                lemma_pow256_values();
            }
            assert(x < 256 * q);
            assert(x / 256 < q) by (nonlinear_arith)
                requires x < 256 * (q as int), 0 < q;
        }
        lemma_be_round_trip(x / 256, (len - 1) as nat);
        lemma_fundamental_div_mod(x as int, 256);
    }
}

/// Fixed-width big-endian encoding preserves numeric order in the
/// lexicographic order of the byte strings.
pub proof fn lemma_be_order(x: nat, y: nat, len: nat)
    requires
        x < y,
        y < pow(256, len),
    ensures
        lex_less(be_bytes_of(x, len), be_bytes_of(y, len)),
    decreases len,
{
    lemma_pow_positive(256, len);
    if len == 0 {
        lemma_pow256_values();
    } else {
        let p = pow(256, (len - 1) as nat) as nat;
        lemma_pow_positive(256, (len - 1) as nat);
        assert(pow(256, len) == 256 * p) by {
            lemma_pow_adds(256, 1, (len - 1) as nat);
            lemma_pow256_values();
        }
        let a = be_bytes_of(x, len);
        let b = be_bytes_of(y, len);
        lemma_be_bytes_len(x % p, (len - 1) as nat);
        lemma_be_bytes_len(y % p, (len - 1) as nat);
        // Heads are the true quotients since x, y < 256 * p.
        assert(x / p < 256) by (nonlinear_arith)
            requires x < 256 * (p as int), 0 < p;
        assert(y / p < 256) by (nonlinear_arith)
            requires y < 256 * (p as int), 0 < p;
        lemma_small_mod(x / p, 256);
        lemma_small_mod(y / p, 256);
        lemma_div_is_ordered(x as int, y as int, p as int);
        if x / p == y / p {
            assert(x % p < y % p) by {
                lemma_fundamental_div_mod(x as int, p as int);
                lemma_fundamental_div_mod(y as int, p as int);
            }
            lemma_mod_division_less_than_divisor(y as int, p as int);
            lemma_be_order(x % p, y % p, (len - 1) as nat);
            assert(a.drop_first() =~= be_bytes_of(x % p, (len - 1) as nat));
            assert(b.drop_first() =~= be_bytes_of(y % p, (len - 1) as nat));
        } else {
            assert(a[0] < b[0]);
        }
    }
}

/// Big-endian encoder for `u64`, proved against the model.
pub fn u64_to_be_bytes(x: u64) -> (r: Vec<u8>)
    ensures
        r@ == be_bytes_of(x as nat, 8),
        r@.len() == 8,
{
    proof {
        lemma_be_bytes_len(x as nat, 8);
    }
    let mut r: Vec<u8> = Vec::new();
    let mut i: usize = 0;
    let mut rest: u64 = x;
    let mut out: [u8; 8] = [0; 8];
    // Peel low-order bytes into the array from the back.
    while i < 8
        invariant
            i <= 8,
            rest as nat == nat_shift_down(x as nat, i as nat),
            forall|j: int| 8 - i <= j < 8 ==> out[j] == be_bytes_of(x as nat, 8)[j],
        decreases 8 - i,
    {
        proof {
            lemma_peel_low_byte(x as nat, 8, i as nat);
        }
        out[7 - i] = (rest % 256) as u8;
        rest = rest / 256;
        i = i + 1;
    }
    let mut k: usize = 0;
    while k < 8
        invariant
            k <= 8,
            r@.len() == k,
            forall|j: int| 0 <= j < k ==> r@[j] == be_bytes_of(x as nat, 8)[j],
            forall|j: int| 0 <= j < 8 ==> out[j] == be_bytes_of(x as nat, 8)[j],
        decreases 8 - k,
    {
        r.push(out[k]);
        k = k + 1;
    }
    proof {
        assert(r@ =~= be_bytes_of(x as nat, 8));
    }
    r
}

/// `x` with its `i` low-order bytes removed.
pub open spec fn nat_shift_down(x: nat, i: nat) -> nat
    decreases i,
{
    if i == 0 {
        x
    } else {
        nat_shift_down(x, (i - 1) as nat) / 256
    }
}

/// Peeling the next low byte of the remaining value writes the byte that the
/// big-endian encoding holds at position `len - 1 - i`.
proof fn lemma_peel_low_byte(x: nat, len: nat, i: nat)
    requires
        i < len,
    ensures
        (nat_shift_down(x, i) % 256) as u8 == be_bytes_of(x % pow(256, len) as nat, len)[len - 1 - i],
        (nat_shift_down(x, i) % 256) as u8 == be_bytes_of(x, len)[len - 1 - i],
{
    lemma_shift_down_is_div(x, i);
    lemma_be_bytes_index_formula(x, len, (len - 1 - i) as int);
    lemma_be_bytes_mod(x, len);
    let q = pow(256, i) as nat;
    lemma_pow_positive(256, i);
    // nat_shift_down(x, i) == x / 256^i
    assert((x / q) % 256 == be_bytes_of(x, len)[len - 1 - i]);
}

proof fn lemma_shift_down_is_div(x: nat, i: nat)
    ensures
        nat_shift_down(x, i) == x / pow(256, i) as nat,
    decreases i,
{
    lemma_pow_positive(256, i);
    if i == 0 {
        lemma_pow256_values();
        assert(x / 1 == x) by (nonlinear_arith);
    } else {
        lemma_shift_down_is_div(x, (i - 1) as nat);
        let q = pow(256, (i - 1) as nat) as nat;
        lemma_pow_positive(256, (i - 1) as nat);
        assert(pow(256, i) == q * 256) by {
            lemma_pow_adds(256, (i - 1) as nat, 1);
            lemma_pow256_values();
        }
        lemma_div_denominator(x as int, q as int, 256);
    }
}

/// The byte at position `i` of the encoding is `(x / 256^(len-1-i)) % 256`.
pub proof fn lemma_be_bytes_index_formula(x: nat, len: nat, i: int)
    requires
        0 <= i < len,
    ensures
        be_bytes_of(x, len)[i] == ((x / pow(256, (len - 1 - i) as nat) as nat) % 256) as u8,
    decreases len,
{
    let p = pow(256, (len - 1) as nat) as nat;
    lemma_pow_positive(256, (len - 1) as nat);
    lemma_be_bytes_len(x % p, (len - 1) as nat);
    if i == 0 {
    } else {
        lemma_be_bytes_index_formula(x % p, (len - 1) as nat, i - 1);
        let q = pow(256, (len - 1 - i) as nat) as nat;
        lemma_pow_positive(256, (len - 1 - i) as nat);
        let w = pow(256, (i - 1) as nat) as nat;
        lemma_pow_positive(256, (i - 1) as nat);
        assert(p == q * (256 * w)) by {
            lemma_pow_adds(256, (len - 1 - i) as nat, i as nat);
            lemma_pow_adds(256, 1, (i - 1) as nat);
            lemma_pow256_values();
        }
        // (x % p) / q == (x / q) % (256 * w)
        lemma_breakdown(x as int, q as int, (256 * w) as int);
        assert((x % p) as int == q as int * ((x as int / q as int) % (256 * w) as int) + x as int % q as int);
        let r = (x as int / q as int) % (256 * w) as int;
        let m = x as int % q as int;
        assert(0 <= m < q) by {
            lemma_mod_division_less_than_divisor(x as int, q as int);
        }
        assert(0 <= r);
        assert((q as int * r + m) / q as int == r) by (nonlinear_arith)
            requires 0 <= m < q as int, 0 <= r, 0 < q as int;
        assert(((x % p) / q) as int == r);
        // ((x / q) % (256 * w)) % 256 == (x / q) % 256
        lemma_mod_mod(x as int / q as int, 256, w as int);
        assert(r % 256 == (x as int / q as int) % 256);
    }
}

/// The encoding only depends on `x mod 256^len`.
pub proof fn lemma_be_bytes_mod(x: nat, len: nat)
    ensures
        be_bytes_of(x % pow(256, len) as nat, len) == be_bytes_of(x, len),
    decreases len,
{
    lemma_pow_positive(256, len);
    let pl = pow(256, len) as nat;
    if len == 0 {
        assert(be_bytes_of(x % pl, 0) =~= be_bytes_of(x, 0));
    } else {
        let p = pow(256, (len - 1) as nat) as nat;
        lemma_pow_positive(256, (len - 1) as nat);
        assert(pl == 256 * p) by {
            lemma_pow_adds(256, 1, (len - 1) as nat);
            lemma_pow256_values();
        }
        // (x % pl) % p == x % p
        lemma_mod_mod(x as int, p as int, 256);
        // (x % pl) / p == (x / p) % 256
        lemma_breakdown(x as int, p as int, 256);
        let r = (x as int / p as int) % 256;
        let m = x as int % p as int;
        assert(0 <= m < p) by {
            lemma_mod_division_less_than_divisor(x as int, p as int);
        }
        assert((p as int * r + m) / p as int == r) by (nonlinear_arith)
            requires 0 <= m < p as int, 0 <= r, 0 < p as int;
        lemma_mod_mod(x as int / p as int, 256, 1);
        assert(((x % pl) / p) as int == r);
        assert((x % pl) / p < 256) by {
            lemma_mod_division_less_than_divisor(x as int / p as int, 256);
        }
        lemma_small_mod((x % pl) / p, 256);
        assert(be_bytes_of(x % pl, len) =~= be_bytes_of(x, len));
    }
}

/// Big-endian decoder for `u64`, proved against the model.
pub fn u64_from_be_bytes(s: &[u8]) -> (x: u64)
    requires
        s@.len() == 8,
    ensures
        x as nat == nat_of_be_bytes(s@),
        s@ == be_bytes_of(x as nat, 8),
{
    let mut acc: u64 = 0;
    let mut i: usize = 0;
    proof {
        lemma_pow256_values();
        assert(s@.take(0) =~= Seq::<u8>::empty());
    }
    while i < 8
        invariant
            i <= 8,
            s@.len() == 8,
            acc as nat == nat_of_be_bytes(s@.take(i as int)),
            acc < pow(256, i as nat),
        decreases 8 - i,
    {
        proof {
            lemma_pow_positive(256, i as nat);
            lemma_pow_adds(256, i as nat, 1);
            lemma_pow256_values();
            assert(s@.take(i as int + 1).drop_last() =~= s@.take(i as int));
            vstd::arithmetic::power::lemma_pow_increases(256, (i + 1) as nat, 8);
            let p = pow(256, i as nat);
            assert(acc as int * 256 + s@[i as int] < p * 256) by (nonlinear_arith)
                requires (acc as int) < p, s@[i as int] < 256, 0 < p;
        }
        acc = acc * 256 + (s[i] as u64);
        i = i + 1;
    }
    proof {
        assert(s@.take(8) =~= s@);
        lemma_pow256_values();
        lemma_nat_of_be_bytes_bound(s@);
        lemma_be_of_nat_of(s@);
    }
    acc
}

pub proof fn lemma_nat_of_be_bytes_bound(s: Seq<u8>)
    ensures
        nat_of_be_bytes(s) < pow(256, s.len()),
    decreases s.len(),
{
    lemma_pow_positive(256, s.len());
    if s.len() > 0 {
        lemma_nat_of_be_bytes_bound(s.drop_last());
        lemma_pow_adds(256, (s.len() - 1) as nat, 1);
        lemma_pow256_values();
        let t = nat_of_be_bytes(s.drop_last());
        let q = pow(256, (s.len() - 1) as nat);
        assert(t * 256 + s.last() < q * 256) by (nonlinear_arith)
            requires (t as int) < q, s.last() < 256;
    }
}

/// Encoding the number a byte string denotes gives the byte string back.
pub proof fn lemma_be_of_nat_of(s: Seq<u8>)
    ensures
        be_bytes_of(nat_of_be_bytes(s), s.len()) == s,
    decreases s.len(),
{
    if s.len() == 0 {
        assert(be_bytes_of(nat_of_be_bytes(s), 0) =~= s);
    } else {
        let t = s.drop_last();
        let v = nat_of_be_bytes(s);
        let vt = nat_of_be_bytes(t);
        lemma_be_of_nat_of(t);
        lemma_be_bytes_snoc(v, s.len());
        assert(v == vt * 256 + s.last());
        assert(v / 256 == vt && v % 256 == s.last()) by {
            lemma_fundamental_div_mod_converse_both(v as int, 256, vt as int, s.last() as int);
        }
        assert(be_bytes_of(v, s.len()) =~= s);
    }
}

proof fn lemma_fundamental_div_mod_converse_both(x: int, d: int, q: int, r: int)
    requires
        d > 0,
        0 <= r < d,
        x == q * d + r,
        0 <= q,
    ensures
        x / d == q,
        x % d == r,
{
    vstd::arithmetic::div_mod::lemma_fundamental_div_mod_converse(x, d, q, r);
}

/// Big-endian encoder for `u32`.
pub fn u32_to_be_bytes(x: u32) -> (r: Vec<u8>)
    ensures
        r@ == be_bytes_of(x as nat, 4),
        r@.len() == 4,
{
    let w = u64_to_be_bytes(x as u64);
    let mut r: Vec<u8> = Vec::new();
    r.push(w[4]);
    r.push(w[5]);
    r.push(w[6]);
    r.push(w[7]);
    proof {
        lemma_be_bytes_len(x as nat, 8);
        lemma_be_bytes_len(x as nat, 4);
        lemma_pow256_values();
        lemma_be_suffix(x as nat, 8, 4);
        assert(r@ =~= be_bytes_of(x as nat, 8).subrange(4, 8));
        assert(r@ =~= be_bytes_of(x as nat, 4));
    }
    r
}

/// For a value below `256^k`, the wide encoding ends in the narrow encoding.
pub proof fn lemma_be_suffix(x: nat, len: nat, k: nat)
    requires
        k <= len,
        x < pow(256, k),
    ensures
        be_bytes_of(x, len).subrange(len - k, len as int) =~= be_bytes_of(x, k),
{
    lemma_be_bytes_len(x, len);
    lemma_be_bytes_len(x, k);
    assert forall|i: int| 0 <= i < k implies be_bytes_of(x, len).subrange(len - k, len as int)[i]
        == be_bytes_of(x, k)[i] by {
        lemma_be_bytes_index_formula(x, len, len - k + i);
        lemma_be_bytes_index_formula(x, k, i);
    }
}

/// Big-endian decoder for `u32`.
pub fn u32_from_be_bytes(s: &[u8]) -> (x: u32)
    requires
        s@.len() == 4,
    ensures
        x as nat == nat_of_be_bytes(s@),
        s@ == be_bytes_of(x as nat, 4),
{
    let mut acc: u32 = 0;
    let mut i: usize = 0;
    proof {
        lemma_pow256_values();
        assert(s@.take(0) =~= Seq::<u8>::empty());
    }
    while i < 4
        invariant
            i <= 4,
            s@.len() == 4,
            acc as nat == nat_of_be_bytes(s@.take(i as int)),
            acc < pow(256, i as nat),
        decreases 4 - i,
    {
        proof {
            lemma_pow_positive(256, i as nat);
            lemma_pow_adds(256, i as nat, 1);
            lemma_pow256_values();
            assert(s@.take(i as int + 1).drop_last() =~= s@.take(i as int));
            vstd::arithmetic::power::lemma_pow_increases(256, (i + 1) as nat, 4);
            let p = pow(256, i as nat);
            assert(acc as int * 256 + s@[i as int] < p * 256) by (nonlinear_arith)
                requires (acc as int) < p, s@[i as int] < 256, 0 < p;
        }
        acc = acc * 256 + (s[i] as u32);
        i = i + 1;
    }
    proof {
        assert(s@.take(4) =~= s@);
        lemma_pow256_values();
        lemma_nat_of_be_bytes_bound(s@);
        lemma_be_of_nat_of(s@);
    }
    acc
}

} // verus!
