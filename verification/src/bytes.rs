//! The byte-level model shared by the reader and the encoder: little-endian
//! integers of fixed width, two's-complement coordinates of two to four
//! bytes, base-128 varints, and the zigzag mapping of signed deltas.

use vstd::prelude::*;

verus! {

/// Byte `k` of the little-endian two's-complement form of `v`.
pub open spec fn byte_of(v: int, k: int) -> u8 {
    if k == 0 {
        (v % 256) as u8
    } else if k == 1 {
        (v / 256 % 256) as u8
    } else if k == 2 {
        (v / 65536 % 256) as u8
    } else {
        (v / 16777216 % 256) as u8
    }
}

/// The low `n` bytes (at most four) of `v`, little-endian.
pub open spec fn le_bytes(v: int, n: nat) -> Seq<u8> {
    Seq::new(n, |k: int| byte_of(v, k))
}

/// The unsigned little-endian `u16` at `i`.
pub open spec fn u16_at(b: Seq<u8>, i: int) -> int {
    b[i] + 256 * b[i + 1]
}

/// The unsigned little-endian 24-bit integer at `i`.
pub open spec fn u24_at(b: Seq<u8>, i: int) -> int {
    b[i] + 256 * b[i + 1] + 65536 * b[i + 2]
}

/// The unsigned little-endian `u32` at `i`.
pub open spec fn u32_at(b: Seq<u8>, i: int) -> int {
    b[i] + 256 * b[i + 1] + 65536 * b[i + 2] + 16777216 * b[i + 3]
}

/// The unsigned little-endian `u64` at `i`.
pub open spec fn u64_at(b: Seq<u8>, i: int) -> int {
    u32_at(b, i) + 4294967296 * u32_at(b, i + 4)
}

/// The two's-complement reading of an unsigned value below `modulus`.
pub open spec fn signed(v: int, modulus: int) -> int {
    if v >= modulus / 2 { v - modulus } else { v }
}

/// The number of values an `n`-byte integer takes, for two to four bytes.
pub open spec fn modulus(n: int) -> int {
    if n == 2 {
        65536
    } else if n == 3 {
        16777216
    } else {
        4294967296
    }
}

/// The unsigned little-endian integer of `n` bytes (two to four) at `i`.
pub open spec fn unsigned_at(b: Seq<u8>, i: int, n: int) -> int {
    if n == 2 {
        u16_at(b, i)
    } else if n == 3 {
        u24_at(b, i)
    } else {
        u32_at(b, i)
    }
}

/// The sign-extended coordinate of `n` bytes (two to four) at `i`.
pub open spec fn fixed_at(b: Seq<u8>, i: int, n: int) -> int {
    signed(unsigned_at(b, i, n), modulus(n))
}

/// Whether `v` is storable as a two's-complement integer of `n` bytes.
pub open spec fn fits(v: int, n: int) -> bool {
    -(modulus(n) / 2) <= v < modulus(n) / 2
}

/// The base-256 digits of a value add up to it.
proof fn lemma_digits(v: int)
    ensures
        v % 256 + 256 * (v / 256 % 256) == v % 65536,
        v % 65536 + 65536 * (v / 65536 % 256) == v % 16777216,
        v % 16777216 + 16777216 * (v / 16777216 % 256) == v % 4294967296,
{
    assert((v / 256) / 256 == v / 65536);
    assert((v / 65536) / 256 == v / 16777216);
    assert((v / 16777216) / 256 == v / 4294967296);
}

/// Writing the low bytes of a value and reading them back gives the value
/// modulo the width.
pub proof fn lemma_unsigned_round_trip(b: Seq<u8>, i: int, v: int, n: nat)
    requires
        2 <= n <= 4,
        0 <= i,
        i + n <= b.len(),
        b.subrange(i, i + n) == le_bytes(v, n),
    ensures
        unsigned_at(b, i, n as int) == v % modulus(n as int),
{
    lemma_digits(v);
    let w = b.subrange(i, i + n);
    assert(w[0] == b[i] && w[1] == b[i + 1]);
    assert(n >= 3 ==> w[2] == b[i + 2]);
    assert(n >= 4 ==> w[3] == b[i + 3]);
    assert(w[0] == byte_of(v, 0) && w[1] == byte_of(v, 1));
    assert(n >= 3 ==> w[2] == byte_of(v, 2));
    assert(n >= 4 ==> w[3] == byte_of(v, 3));
}

/// A coordinate that fits its stored width survives a write and a read.
pub proof fn lemma_fixed_round_trip(b: Seq<u8>, i: int, v: int, n: nat)
    requires
        2 <= n <= 4,
        0 <= i,
        i + n <= b.len(),
        b.subrange(i, i + n) == le_bytes(v, n),
        fits(v, n as int),
    ensures
        fixed_at(b, i, n as int) == v,
{
    lemma_unsigned_round_trip(b, i, v, n);
}

/// The varint form of `v`: seven bits per byte, least significant group
/// first, the high bit set on every byte but the last.
pub open spec fn varint_bytes(v: nat) -> Seq<u8>
    decreases v,
{
    if v < 128 {
        seq![v as u8]
    } else {
        seq![(128 + v % 128) as u8] + varint_bytes(v / 128)
    }
}

/// The varint at `i`: its value and the position behind it, or `None` when
/// the bytes end before it does.
pub open spec fn varint_at(b: Seq<u8>, i: int) -> Option<(nat, int)>
    decreases b.len() - i,
{
    if !(0 <= i < b.len()) {
        None
    } else if b[i] < 128 {
        Some((b[i] as nat, i + 1))
    } else {
        match varint_at(b, i + 1) {
            Some((rest, next)) => Some(((b[i] - 128 + 128 * rest) as nat, next)),
            None => None,
        }
    }
}

/// `128^k`, the weight of the varint group `k`.
pub open spec fn pow128(k: nat) -> nat
    decreases k,
{
    if k == 0 { 1 } else { 128 * pow128((k - 1) as nat) }
}

/// A varint read stays within the bytes and consumes at least one.
pub proof fn lemma_varint_bounds(b: Seq<u8>, i: int)
    ensures
        varint_at(b, i) matches Some((v, next)) ==> 0 <= i < next <= b.len(),
    decreases b.len() - i,
{
    if 0 <= i < b.len() && b[i] >= 128 {
        lemma_varint_bounds(b, i + 1);
    }
}

/// A varint of `n` bytes is below `128^n`.
pub proof fn lemma_varint_value_bound(b: Seq<u8>, i: int)
    ensures
        varint_at(b, i) matches Some((v, next)) ==> v < pow128((next - i) as nat),
    decreases b.len() - i,
{
    lemma_varint_bounds(b, i);
    if 0 <= i < b.len() && b[i] >= 128 {
        lemma_varint_value_bound(b, i + 1);
        lemma_varint_bounds(b, i + 1);
        if varint_at(b, i + 1) is Some {
            let (rest, next) = varint_at(b, i + 1)->0;
            assert(pow128((next - i) as nat) == 128 * pow128((next - (i + 1)) as nat));
        }
    } else if 0 <= i < b.len() {
        assert(pow128(1) == 128) by {
            reveal_with_fuel(pow128, 2);
        }
    }
}

/// Reading a written varint gives back the value and the position behind it.
pub proof fn lemma_varint_round_trip(b: Seq<u8>, i: int, v: nat)
    requires
        0 <= i,
        i + varint_bytes(v).len() <= b.len(),
        b.subrange(i, i + varint_bytes(v).len()) == varint_bytes(v),
    ensures
        varint_at(b, i) == Some((v, i + varint_bytes(v).len() as int)),
    decreases v,
{
    let w = b.subrange(i, i + varint_bytes(v).len());
    assert(w[0] == b[i]);
    if v >= 128 {
        let rest = varint_bytes(v / 128);
        assert(varint_bytes(v).len() == 1 + rest.len());
        assert(b.subrange(i + 1, i + 1 + rest.len()) =~= rest) by {
            assert forall|k: int| 0 <= k < rest.len() implies b.subrange(
                i + 1,
                i + 1 + rest.len(),
            )[k] == rest[k] by {
                assert(w[k + 1] == varint_bytes(v)[k + 1]);
            }
        }
        lemma_varint_round_trip(b, i + 1, v / 128);
        assert(128 + v % 128 < 256);
        assert(b[i] - 128 + 128 * (v / 128) == v);
    }
}

/// A varint is never empty.
pub proof fn lemma_varint_len(v: nat)
    ensures
        varint_bytes(v).len() >= 1,
    decreases v,
{
    if v >= 128 {
        lemma_varint_len(v / 128);
    }
}

/// A varint below `128^k` takes at most `k` bytes.
pub proof fn lemma_varint_len_bound(v: nat, k: nat)
    requires
        k >= 1,
        v < pow128(k),
    ensures
        varint_bytes(v).len() <= k,
    decreases k,
{
    if v >= 128 {
        if k == 1 {
            reveal_with_fuel(pow128, 2);
        }
        lemma_varint_len_bound(v / 128, (k - 1) as nat);
    }
}

/// The zigzag image of a signed delta: `0, -1, 1, -2, ...` map to
/// `0, 1, 2, 3, ...`.
pub open spec fn zigzag_spec(v: int) -> nat {
    if v >= 0 { (2 * v) as nat } else { (-2 * v - 1) as nat }
}

/// The signed delta a zigzag value stands for.
pub open spec fn unzigzag_spec(v: nat) -> int {
    if v % 2 == 0 { (v / 2) as int } else { -((v / 2) as int) - 1 }
}

/// Zigzag and its inverse undo each other on every value.
pub proof fn lemma_zigzag_inverse(signed_value: int, unsigned_value: nat)
    ensures
        unzigzag_spec(zigzag_spec(signed_value)) == signed_value,
        zigzag_spec(unzigzag_spec(unsigned_value)) == unsigned_value,
{
}

/// Appends a `u16`, little-endian.
pub fn push_u16(out: &mut Vec<u8>, v: u16)
    ensures
        final(out)@ == old(out)@ + le_bytes(v as int, 2),
        final(out)@.len() == old(out)@.len() + 2,
        u16_at(final(out)@, old(out)@.len() as int) == v,
        forall|j: int| 0 <= j < old(out)@.len() ==> final(out)@[j] == old(out)@[j],
{
    out.push((v % 256) as u8);
    out.push((v / 256) as u8);
    assert(out@ =~= old(out)@ + le_bytes(v as int, 2));
}

/// Appends a `u32`, little-endian.
pub fn push_u32(out: &mut Vec<u8>, v: u32)
    ensures
        final(out)@ == old(out)@ + le_bytes(v as int, 4),
        final(out)@.len() == old(out)@.len() + 4,
        u32_at(final(out)@, old(out)@.len() as int) == v,
        forall|j: int| 0 <= j < old(out)@.len() ==> final(out)@[j] == old(out)@[j],
{
    out.push((v % 256) as u8);
    out.push((v / 256 % 256) as u8);
    out.push((v / 65536 % 256) as u8);
    out.push((v / 16777216) as u8);
    assert(out@ =~= old(out)@ + le_bytes(v as int, 4));
}

/// Appends the low `n` bytes (one to four) of a coordinate, little-endian
/// two's complement.
pub fn push_fixed(out: &mut Vec<u8>, v: i32, n: usize)
    requires
        1 <= n <= 4,
    ensures
        final(out)@ == old(out)@ + le_bytes(v as int, n as nat),
{
    let bits: u32 = if v < 0 { (v as i64 + 4294967296) as u32 } else { v as u32 };
    proof {
        lemma_byte_wrap(v as int);
    }
    out.push((bits % 256) as u8);
    if n >= 2 {
        out.push((bits / 256 % 256) as u8);
    }
    if n >= 3 {
        out.push((bits / 65536 % 256) as u8);
    }
    if n >= 4 {
        out.push((bits / 16777216) as u8);
    }
    assert(out@ =~= old(out)@ + le_bytes(bits as int, n as nat));
    assert(le_bytes(bits as int, n as nat) =~= le_bytes(v as int, n as nat));
}

/// Two's complement: adding the width's modulus leaves the bytes unchanged.
proof fn lemma_byte_wrap(v: int)
    ensures
        forall|k: int| 0 <= k < 4 ==> #[trigger] byte_of(v + 4294967296, k) == byte_of(v, k),
{
    assert((v + 4294967296) % 256 == v % 256);
    assert((v + 4294967296) / 256 == v / 256 + 16777216);
    assert((v / 256 + 16777216) % 256 == v / 256 % 256);
    assert((v + 4294967296) / 65536 == v / 65536 + 65536);
    assert((v / 65536 + 65536) % 256 == v / 65536 % 256);
    assert((v + 4294967296) / 16777216 == v / 16777216 + 256);
    assert((v / 16777216 + 256) % 256 == v / 16777216 % 256);
}

/// Appends a slice.
pub fn push_bytes(out: &mut Vec<u8>, bytes: &[u8])
    ensures
        final(out)@ == old(out)@ + bytes@,
{
    let mut i: usize = 0;
    while i < bytes.len()
        invariant
            i <= bytes@.len(),
            out@ =~= old(out)@ + bytes@.subrange(0, i as int),
        decreases bytes@.len() - i,
    {
        out.push(bytes[i]);
        i = i + 1;
    }
    assert(bytes@.subrange(0, bytes@.len() as int) =~= bytes@);
}

/// Whether `bytes` holds `expected` at `at`.
pub fn bytes_eq_at(bytes: &[u8], at: usize, expected: &[u8]) -> (equal: bool)
    requires
        at + expected@.len() <= bytes@.len(),
    ensures
        equal == (bytes@.subrange(at as int, at + expected@.len()) == expected@),
{
    let total: usize = bytes.len();
    let mut i: usize = 0;
    while i < expected.len()
        invariant
            i <= expected@.len(),
            at + expected@.len() <= total,
            total == bytes@.len(),
            forall|k: int| 0 <= k < i ==> bytes@[at + k] == expected@[k],
        decreases expected@.len() - i,
    {
        if bytes[at + i] != expected[i] {
            assert(bytes@.subrange(at as int, at + expected@.len())[i as int] != expected@[i as int]);
            return false;
        }
        i = i + 1;
    }
    assert(bytes@.subrange(at as int, at + expected@.len()) =~= expected@);
    true
}

/// `128^k`, counted up.
pub open spec fn group_weight(k: nat) -> nat
    decreases k,
{
    if k == 0 {
        1
    } else {
        group_weight((k - 1) as nat) * 128
    }
}

/// What the low seven bits of the first `n` bytes from `i` on add up to, the
/// first of them the least significant.
pub open spec fn groups_value(b: Seq<u8>, i: int, n: nat) -> int
    decreases n,
{
    if n == 0 {
        0
    } else {
        groups_value(b, i, (n - 1) as nat) + (b[i + n - 1] % 128) * group_weight((n - 1) as nat)
    }
}

/// Taking the first group off divides the rest by 128.
proof fn lemma_first_group(b: Seq<u8>, i: int, n: nat)
    requires
        n >= 1,
    ensures
        groups_value(b, i, n) == b[i] % 128 + 128 * groups_value(b, i + 1, (n - 1) as nat),
    decreases n,
{
    let k = (n - 1) as nat;
    if n == 1 {
        assert(groups_value(b, i, 0) == 0);
        assert(group_weight(0) == 1);
        assert(groups_value(b, i + 1, 0) == 0);
    } else {
        lemma_first_group(b, i, k);
        let last = (b[i + n - 1] % 128) as int;
        let w = group_weight((n - 2) as nat) as int;
        assert(group_weight(k) == w * 128);
        assert(last * (w * 128) == 128 * (last * w)) by (nonlinear_arith);
        assert(i + 1 + (n - 1) - 1 == i + n - 1);
        assert(groups_value(b, i + 1, k) == groups_value(b, i + 1, (n - 2) as nat) + last * w);
    }
}

/// A varint is read up to the first byte below 128, and its value is what the
/// low seven bits of its bytes add up to; without such a byte there is none.
pub proof fn lemma_varint_is_groups(b: Seq<u8>, i: int)
    requires
        0 <= i <= b.len(),
    ensures
        varint_at(b, i) is None <==> forall|k: int| i <= k < b.len() ==> b[k] >= 128,
        varint_at(b, i) matches Some((v, next)) ==> {
            &&& i < next <= b.len()
            &&& b[next - 1] < 128
            &&& forall|k: int| i <= k < next - 1 ==> b[k] >= 128
            &&& v == groups_value(b, i, (next - i) as nat)
        },
    decreases b.len() - i,
{
    if i < b.len() {
        if b[i] < 128 {
            lemma_first_group(b, i, 1);
            assert(groups_value(b, i + 1, 0) == 0);
        } else {
            lemma_varint_is_groups(b, i + 1);
            match varint_at(b, i + 1) {
                Some((rest, next)) => {
                    lemma_first_group(b, i, (next - i) as nat);
                    assert((next - i - 1) as nat == (next - (i + 1)) as nat);
                },
                None => {},
            }
        }
    }
}

/// A written varint is as long as its value needs: high bits on all bytes but
/// the last, no empty last group behind others, and groups that add up to the
/// value.
pub proof fn lemma_written_varint_is_groups(v: nat)
    ensures
        varint_bytes(v).len() >= 1,
        varint_bytes(v).last() < 128,
        forall|k: int| 0 <= k < varint_bytes(v).len() - 1 ==> varint_bytes(v)[k] >= 128,
        varint_bytes(v).len() > 1 ==> varint_bytes(v).last() > 0,
        groups_value(varint_bytes(v), 0, varint_bytes(v).len()) == v,
    decreases v,
{
    let b = varint_bytes(v);
    if v >= 128 {
        let rest = varint_bytes(v / 128);
        lemma_written_varint_is_groups(v / 128);
        assert(b == seq![(128 + v % 128) as u8] + rest);
        assert(b.last() == rest.last());
        assert forall|k: int| 0 <= k < b.len() - 1 implies b[k] >= 128 by {
            if k > 0 {
                assert(b[k] == rest[k - 1]);
            }
        }
        if rest.len() == 1 {
            lemma_first_group(rest, 0, 1);
            assert(groups_value(rest, 1, 0) == 0);
        }
    } 
    assert(b.subrange(0, b.len() as int) =~= b);
    lemma_varint_round_trip(b, 0, v);
    lemma_varint_is_groups(b, 0);
}

/// Integers are stored with the least significant byte first, and read back
/// from any two to four bytes.
pub proof fn lemma_bytes_are_little_endian(b: Seq<u8>, i: int, v: int)
    ensures
        unsigned_at(b, i, 2) == b[i] + 256 * b[i + 1],
        unsigned_at(b, i, 3) == b[i] + 256 * (b[i + 1] + 256 * b[i + 2]),
        unsigned_at(b, i, 4) == b[i] + 256 * (b[i + 1] + 256 * (b[i + 2] + 256 * b[i + 3])),
        u64_at(b, i) == unsigned_at(b, i, 4) + 0x1_0000_0000 * unsigned_at(b, i + 4, 4),
        forall|n: nat, k: int|
            0 <= k < n <= 4 ==> n == (#[trigger] le_bytes(v, n)).len() && (#[trigger] le_bytes(
                v,
                n,
            )[k]) == le_bytes(v, 4)[k],
        ({
            let w = le_bytes(v, 4);
            w[0] + 256 * (w[1] + 256 * (w[2] + 256 * w[3])) == v % 0x1_0000_0000
        }),
{
    lemma_digits(v);
}

/// A stored coordinate is read as the one number in the two's-complement range
/// of its width that agrees with its bytes modulo that width.
pub proof fn lemma_coordinates_are_twos_complement(b: Seq<u8>, i: int, v: int)
    ensures
        fixed_at(b, i, 2) == v <==> -0x8000 <= v < 0x8000 && v % 0x1_0000 == b[i] + 256 * b[i + 1],
        fixed_at(b, i, 3) == v <==> -0x80_0000 <= v < 0x80_0000 && v % 0x100_0000 == b[i] + 256
            * b[i + 1] + 65536 * b[i + 2],
        fixed_at(b, i, 4) == v <==> -0x8000_0000 <= v < 0x8000_0000 && v % 0x1_0000_0000 == b[i]
            + 256 * b[i + 1] + 65536 * b[i + 2] + 16777216 * b[i + 3],
{
}

/// Zigzag sets zero and the positive numbers on the even numbers, the negative
/// ones on the odd, both in order of size.
pub proof fn lemma_zigzag_interleaves(k: nat)
    ensures
        zigzag_spec(k as int) == k + k,
        zigzag_spec(-1 - k) == k + k + 1,
        unzigzag_spec(k + k) == k,
        unzigzag_spec(k + k + 1) == -1 - k,
{
}

} // verus!
