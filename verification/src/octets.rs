//! Big-endian octet strings read as numbers, unsigned and in two's
//! complement, and the facts about them that the codec rests on.

use vstd::prelude::*;

verus! {

/// 256 to the power `n`.
pub open spec fn pow256(n: nat) -> nat
    decreases n,
{
    if n == 0 {
        1
    } else {
        256 * pow256((n - 1) as nat)
    }
}

/// The unsigned number that `bytes` spell, most significant octet first.
pub open spec fn be_unsigned(bytes: Seq<u8>) -> nat
    decreases bytes.len(),
{
    if bytes.len() == 0 {
        0
    } else {
        be_unsigned(bytes.drop_last()) * 256 + bytes.last() as nat
    }
}

/// The signed number that `bytes` spell in two's complement, most
/// significant octet first. No octets spell zero.
pub open spec fn be_signed(bytes: Seq<u8>) -> int {
    if bytes.len() == 0 {
        0
    } else if bytes[0] < 128 {
        be_unsigned(bytes) as int
    } else {
        be_unsigned(bytes) - pow256(bytes.len())
    }
}

/// `bytes` is a two's-complement spelling with no octet to spare: it is not
/// empty, and where it has a second octet, the first octet and the high bit
/// of the second are neither all zeros nor all ones.
pub open spec fn is_minimal_signed(bytes: Seq<u8>) -> bool {
    &&& bytes.len() >= 1
    &&& bytes.len() > 1 ==> {
        &&& !(bytes[0] == 0 && bytes[1] < 128)
        &&& !(bytes[0] == 0xFF && bytes[1] >= 128)
    }
}

/// The octets of `bytes`, each with all its bits flipped.
pub open spec fn flipped(bytes: Seq<u8>) -> Seq<u8> {
    Seq::new(bytes.len(), |i: int| (255 - bytes[i]) as u8)
}

/// The number of binary digits of `n`; zero has none.
pub open spec fn bit_length(n: nat) -> nat
    decreases n,
{
    if n == 0 {
        0
    } else {
        1 + bit_length(n / 2)
    }
}

/// The first powers of 256, written out.
pub proof fn lemma_pow256_values()
    ensures
        pow256(0) == 1,
        pow256(1) == 0x100,
        pow256(2) == 0x1_0000,
        pow256(3) == 0x100_0000,
        pow256(4) == 0x1_0000_0000,
        pow256(8) == 0x1_0000_0000_0000_0000,
{
    reveal_with_fuel(pow256, 9);
}

pub proof fn lemma_pow256_positive(n: nat)
    ensures
        pow256(n) >= 1,
    decreases n,
{
    if n > 0 {
        lemma_pow256_positive((n - 1) as nat);
    }
}

pub proof fn lemma_pow256_monotonic(a: nat, b: nat)
    requires
        a <= b,
    ensures
        pow256(a) <= pow256(b),
    decreases b,
{
    if a < b {
        lemma_pow256_monotonic(a, (b - 1) as nat);
    }
}

/// An octet string of `n` octets spells a number below 256 to the `n`.
pub proof fn lemma_be_unsigned_bound(bytes: Seq<u8>)
    ensures
        be_unsigned(bytes) < pow256(bytes.len()),
    decreases bytes.len(),
{
    if bytes.len() > 0 {
        lemma_be_unsigned_bound(bytes.drop_last());
    }
}

/// Putting an octet in front adds it, scaled by the weight of its place.
pub proof fn lemma_be_unsigned_prepend(b: u8, bytes: Seq<u8>)
    ensures
        be_unsigned(seq![b] + bytes) == b as nat * pow256(bytes.len()) + be_unsigned(bytes),
    decreases bytes.len(),
{
    let whole = seq![b] + bytes;
    if bytes.len() == 0 {
        assert(whole.drop_last() =~= Seq::<u8>::empty());
        assert(be_unsigned(whole.drop_last()) == 0);
        assert(whole.last() == b);
        assert(be_unsigned(whole) == b as nat);
        assert(pow256(0) == 1);
        assert(be_unsigned(bytes) == 0);
    } else {
        assert(whole.drop_last() =~= seq![b] + bytes.drop_last());
        assert(whole.last() == bytes.last());
        lemma_be_unsigned_prepend(b, bytes.drop_last());
        let p = pow256(bytes.drop_last().len());
        assert(pow256(bytes.len()) == 256 * p);
        let d = be_unsigned(bytes.drop_last());
        let bn = b as nat;
        assert(be_unsigned(whole) == be_unsigned(whole.drop_last()) * 256 + whole.last() as nat);
        assert(be_unsigned(bytes) == d * 256 + bytes.last() as nat);
        assert((bn * p + d) * 256 == bn * (256 * p) + d * 256) by (nonlinear_arith);
    }
}

/// The first octet decides in which half of the range the number lies.
pub proof fn lemma_be_unsigned_first(bytes: Seq<u8>)
    requires
        bytes.len() >= 1,
    ensures
        bytes[0] as nat * pow256((bytes.len() - 1) as nat) <= be_unsigned(bytes),
        be_unsigned(bytes) < (bytes[0] as nat + 1) * pow256((bytes.len() - 1) as nat),
{
    let rest = bytes.drop_first();
    assert(bytes =~= seq![bytes[0]] + rest);
    lemma_be_unsigned_prepend(bytes[0], rest);
    lemma_be_unsigned_bound(rest);
    let p = pow256(rest.len());
    assert((bytes[0] as nat + 1) * p == bytes[0] as nat * p + p) by (nonlinear_arith);
}

/// A two's-complement spelling of `n >= 1` octets spells a number from
/// minus half of 256 to the `n` up to, but excluding, plus that half.
pub proof fn lemma_be_signed_range(bytes: Seq<u8>)
    requires
        bytes.len() >= 1,
    ensures
        -(128 * pow256((bytes.len() - 1) as nat)) <= be_signed(bytes),
        be_signed(bytes) < 128 * pow256((bytes.len() - 1) as nat),
{
    lemma_be_unsigned_first(bytes);
    lemma_be_unsigned_bound(bytes);
    let p = pow256((bytes.len() - 1) as nat);
    let f = bytes[0] as nat;
    assert(pow256(bytes.len()) == 256 * p);
    if bytes[0] < 128 {
        assert((f + 1) * p <= 128 * p) by (nonlinear_arith)
            requires
                f + 1 <= 128,
        ;
    } else {
        assert(f * p >= 128 * p) by (nonlinear_arith)
            requires
                f >= 128,
        ;
    }
}

/// A spelling with no octet to spare spells a number that one octet fewer
/// could not hold.
pub proof fn lemma_minimal_signed_needs_all(bytes: Seq<u8>)
    requires
        is_minimal_signed(bytes),
        bytes.len() >= 2,
    ensures
        be_signed(bytes) >= 128 * pow256((bytes.len() - 2) as nat) || be_signed(bytes) < -(128
            * pow256((bytes.len() - 2) as nat)),
{
    let n = bytes.len();
    let rest = bytes.drop_first();
    let q = pow256((n - 2) as nat);
    let p = pow256((n - 1) as nat);
    assert(p == 256 * q);
    assert(pow256(n) == 256 * p);
    assert(bytes =~= seq![bytes[0]] + rest);
    lemma_be_unsigned_prepend(bytes[0], rest);
    lemma_be_unsigned_first(rest);
    lemma_be_unsigned_bound(rest);
    assert(rest[0] == bytes[1]);
    let f = bytes[0] as nat;
    let s = bytes[1] as nat;
    let r = be_unsigned(rest);
    assert(s * q <= r < (s + 1) * q);
    if bytes[0] < 128 {
        // be_signed = f * p + r
        if f == 0 {
            assert(s >= 128);
            assert(s * q >= 128 * q) by (nonlinear_arith)
                requires
                    s >= 128,
            ;
        } else {
            assert(f * p >= p) by (nonlinear_arith)
                requires
                    f >= 1,
            ;
        }
    } else {
        // be_signed = f * p + r - 256 * p
        if f == 255 {
            assert(s < 128);
            assert((s + 1) * q <= 128 * q) by (nonlinear_arith)
                requires
                    s + 1 <= 128,
            ;
            assert(f * p == 255 * p);
        } else {
            assert(f * p <= 254 * p) by (nonlinear_arith)
                requires
                    f <= 254,
            ;
            lemma_pow256_positive((n - 2) as nat);
        }
    }
}

/// No spelling of the same number is shorter than one with no octet to
/// spare.
pub proof fn lemma_minimal_signed_is_shortest(minimal: Seq<u8>, other: Seq<u8>)
    requires
        is_minimal_signed(minimal),
        other.len() >= 1,
        be_signed(minimal) == be_signed(other),
    ensures
        minimal.len() <= other.len(),
{
    if minimal.len() > other.len() {
        lemma_minimal_signed_needs_all(minimal);
        lemma_be_signed_range(other);
        lemma_pow256_monotonic((other.len() - 1) as nat, (minimal.len() - 2) as nat);
        let a = pow256((other.len() - 1) as nat);
        let b = pow256((minimal.len() - 2) as nat);
        assert(128 * a <= 128 * b) by (nonlinear_arith)
            requires
                a <= b,
        ;
    }
}

/// Flipping every bit of a spelling of `m` gives a spelling of `-m - 1`.
pub proof fn lemma_flipped_unsigned(bytes: Seq<u8>)
    ensures
        be_unsigned(flipped(bytes)) + be_unsigned(bytes) + 1 == pow256(bytes.len()),
    decreases bytes.len(),
{
    if bytes.len() > 0 {
        lemma_flipped_unsigned(bytes.drop_last());
        assert(flipped(bytes).drop_last() =~= flipped(bytes.drop_last()));
        assert(flipped(bytes).last() == (255 - bytes.last()) as u8);
        assert(pow256(bytes.len()) == 256 * pow256((bytes.len() - 1) as nat));
    }
}

/// The base-256 digits of `n`, most significant first, with no leading
/// zero: zero has none.
pub open spec fn minimal_be(n: nat) -> Seq<u8>
    decreases n,
{
    if n == 0 {
        Seq::empty()
    } else {
        minimal_be(n / 256).push((n % 256) as u8)
    }
}

/// The base-256 digits of `m`, most significant first, as few as leave
/// the high bit of the first digit clear.
pub open spec fn nonneg_octets(m: nat) -> Seq<u8>
    decreases m,
{
    if m < 128 {
        seq![m as u8]
    } else {
        nonneg_octets(m / 256).push((m % 256) as u8)
    }
}

/// The two's-complement spelling of `z` with no octet to spare, most
/// significant octet first.
pub open spec fn signed_octets_of(z: int) -> Seq<u8> {
    if z >= 0 {
        nonneg_octets(z as nat)
    } else {
        flipped(nonneg_octets((-z - 1) as nat))
    }
}

/// The digits of `n` spell `n`, and they are as many as `n` needs: `n` is
/// below 256 to their number, and not below 256 to one less.
pub proof fn lemma_minimal_be(n: nat)
    ensures
        be_unsigned(minimal_be(n)) == n,
        n < pow256(minimal_be(n).len()),
        n > 0 ==> minimal_be(n).len() >= 1 && pow256((minimal_be(n).len() - 1) as nat) <= n,
        n > 0 ==> minimal_be(n)[0] != 0,
    decreases n,
{
    if n > 0 {
        lemma_minimal_be(n / 256);
        let shorter = minimal_be(n / 256);
        let digits = minimal_be(n);
        assert(digits.drop_last() =~= shorter);
        assert(digits.last() == (n % 256) as u8);
        assert(pow256(digits.len()) == 256 * pow256(shorter.len()));
        if n / 256 > 0 {
            assert(pow256(shorter.len()) == 256 * pow256((shorter.len() - 1) as nat));
            assert(digits[0] == shorter[0]);
        } else {
            assert(shorter.len() == 0);
            assert(pow256(0) == 1);
        }
    } else {
        assert(pow256(0) == 1);
    }
}

/// The digits of `m` spell `m` with the high bit of the first clear, and
/// none of them is to spare.
pub proof fn lemma_nonneg_octets(m: nat)
    ensures
        nonneg_octets(m).len() >= 1,
        nonneg_octets(m)[0] < 128,
        be_unsigned(nonneg_octets(m)) == m,
        is_minimal_signed(nonneg_octets(m)),
    decreases m,
{
    let digits = nonneg_octets(m);
    if m < 128 {
        assert(digits.drop_last() =~= Seq::<u8>::empty());
        assert(be_unsigned(digits.drop_last()) == 0);
    } else {
        lemma_nonneg_octets(m / 256);
        let shorter = nonneg_octets(m / 256);
        assert(digits.drop_last() =~= shorter);
        assert(digits.last() == (m % 256) as u8);
        assert(digits[0] == shorter[0]);
        if shorter.len() == 1 {
            assert(shorter.drop_last() =~= Seq::<u8>::empty());
            assert(be_unsigned(shorter.drop_last()) == 0);
            assert(shorter[0] as nat == m / 256);
            assert(digits[1] == (m % 256) as u8);
        } else {
            assert(digits[1] == shorter[1]);
        }
    }
}

/// The spelling of `z` spells `z` in two's complement, and none of its
/// octets is to spare.
pub proof fn lemma_signed_octets_of(z: int)
    ensures
        be_signed(signed_octets_of(z)) == z,
        is_minimal_signed(signed_octets_of(z)),
{
    if z >= 0 {
        lemma_nonneg_octets(z as nat);
    } else {
        let plain = nonneg_octets((-z - 1) as nat);
        lemma_nonneg_octets((-z - 1) as nat);
        lemma_flipped_unsigned(plain);
        assert(flipped(plain)[0] == (255 - plain[0]) as u8);
        if plain.len() > 1 {
            assert(flipped(plain)[1] == (255 - plain[1]) as u8);
        }
    }
}

/// No spelling of `z` in two's complement is shorter than
/// `signed_octets_of(z)`.
pub proof fn lemma_signed_octets_shortest(z: int, other: Seq<u8>)
    requires
        other.len() >= 1,
        be_signed(other) == z,
    ensures
        signed_octets_of(z).len() <= other.len(),
{
    lemma_signed_octets_of(z);
    lemma_minimal_signed_is_shortest(signed_octets_of(z), other);
}

/// A number that needs `k + 1` base-256 digits has its binary digits in
/// `k + 1` whole octets, and not in fewer.
pub proof fn lemma_bit_length_octets(x: nat, k: nat)
    requires
        pow256(k) <= x < pow256(k + 1),
    ensures
        (bit_length(x) + 7) / 8 == k + 1,
    decreases k,
{
    reveal_with_fuel(bit_length, 9);
    assert(pow256(0) == 1);
    assert(pow256(1) == 256 * pow256(0));
    if k == 0 {
        assert(1 <= x < 256);
    } else {
        assert(pow256(k) == 256 * pow256((k - 1) as nat));
        assert(pow256(k + 1) == 256 * pow256(k));
        lemma_pow256_positive((k - 1) as nat);
        assert(x >= 256);
        assert(bit_length(x) == 8 + bit_length(x / 256));
        lemma_bit_length_octets(x / 256, (k - 1) as nat);
    }
}

/// A two's-complement spelling whose first octet is neither all zeros nor
/// all ones spells a number whose absolute value has its binary digits in
/// as many whole octets as the spelling has, and not in fewer.
pub proof fn lemma_signed_bit_length_octets(bytes: Seq<u8>)
    requires
        bytes.len() >= 1,
        bytes[0] != 0,
        bytes[0] != 0xFF,
    ensures
        (bit_length(vstd::math::abs(be_signed(bytes)) as nat) + 7) / 8 == bytes.len(),
{
    let n = bytes.len();
    let p = pow256((n - 1) as nat);
    let f = bytes[0] as nat;
    let u = be_unsigned(bytes);
    lemma_be_unsigned_first(bytes);
    lemma_be_unsigned_bound(bytes);
    lemma_pow256_positive((n - 1) as nat);
    assert(pow256(n) == 256 * p);
    if bytes[0] < 128 {
        assert(f * p >= p) by (nonlinear_arith)
            requires
                f >= 1,
        ;
        lemma_bit_length_octets(u, (n - 1) as nat);
    } else {
        assert((f + 1) * p <= 255 * p) by (nonlinear_arith)
            requires
                f + 1 <= 255,
        ;
        assert(f * p >= 128 * p) by (nonlinear_arith)
            requires
                f >= 128,
        ;
        let magnitude = (pow256(n) - u) as nat;
        assert(vstd::math::abs(be_signed(bytes)) == magnitude);
        lemma_bit_length_octets(magnitude, (n - 1) as nat);
    }
}

/// The base-256 digits of `n`, most significant first, with no leading
/// zero.
pub fn unsigned_octets(n: u64) -> (out: Vec<u8>)
    ensures
        out@ == minimal_be(n as nat),
{
    let mut out: Vec<u8> = Vec::new();
    let mut rest: u64 = n;
    while rest > 0
        invariant
            minimal_be(n as nat) == minimal_be(rest as nat) + out@,
        decreases rest,
    {
        let ghost before = out@;
        let digit: u8 = (rest % 256) as u8;
        proof {
            assert(minimal_be(rest as nat) == minimal_be(rest as nat / 256).push(digit));
            assert(minimal_be(rest as nat / 256).push(digit) + before =~= minimal_be(
                rest as nat / 256,
            ) + (seq![digit] + before));
        }
        rest = rest / 256;
        out.insert(0, digit);
        assert(out@ =~= seq![digit] + before);
    }
    assert(minimal_be(0) + out@ =~= out@);
    out
}

/// The two's-complement spelling of `z` with no octet to spare, most
/// significant octet first.
pub fn signed_octets(z: i64) -> (out: Vec<u8>)
    ensures
        out@ == signed_octets_of(z as int),
        be_signed(out@) == z,
        is_minimal_signed(out@),
{
    let magnitude: u64 = if z >= 0 {
        z as u64
    } else {
        (-(z + 1)) as u64
    };
    let mut out: Vec<u8> = Vec::new();
    let mut first: u8 = (magnitude % 256) as u8;
    let mut rest: u64 = magnitude / 256;
    out.push(first);
    proof {
        assert(out@ =~= seq![first]);
        if magnitude >= 128 {
            assert(nonneg_octets(magnitude as nat) == nonneg_octets(rest as nat).push(first));
            assert(nonneg_octets(rest as nat).push(first) =~= nonneg_octets(rest as nat) + out@);
        }
    }
    while !(rest == 0 && first < 128)
        invariant
            out@.len() >= 1,
            out@[0] == first,
            nonneg_octets(magnitude as nat) == if rest == 0 && first < 128 {
                out@
            } else {
                nonneg_octets(rest as nat) + out@
            },
        decreases rest, (if first < 128 { 0int } else { 1int }),
    {
        let ghost before = out@;
        let ghost rest_before = rest;
        first = (rest % 256) as u8;
        rest = rest / 256;
        out.insert(0, first);
        proof {
            assert(out@ =~= seq![first] + before);
            if rest_before < 128 {
                assert(nonneg_octets(rest_before as nat) =~= seq![first]);
            } else {
                assert(nonneg_octets(rest_before as nat) == nonneg_octets(rest as nat).push(
                    first,
                ));
                assert(nonneg_octets(rest as nat).push(first) + before =~= nonneg_octets(
                    rest as nat,
                ) + out@);
            }
        }
    }
    if z < 0 {
        let ghost plain = out@;
        let mut i: usize = 0;
        while i < out.len()
            invariant
                out@.len() == plain.len(),
                i <= out@.len(),
                forall|j: int| 0 <= j < i ==> out@[j] == (255 - plain[j]) as u8,
                forall|j: int| i <= j < out@.len() ==> out@[j] == plain[j],
            decreases out@.len() - i,
        {
            let octet: u8 = out[i];
            out.set(i, 255 - octet);
            i += 1;
        }
        proof {
            assert(out@ =~= flipped(plain));
        }
    }
    proof {
        lemma_signed_octets_of(z as int);
    }
    out
}

} // verus!
