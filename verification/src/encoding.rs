use vstd::prelude::*;
use vstd::arithmetic::power2::{pow2, lemma2_to64, lemma_pow2_pos, lemma_pow2_adds};

verus! {

/// Zigzag mapping of a signed delta to an unsigned code: `0, -1, 1, -2, 2, ...`
/// become `0, 1, 2, 3, 4, ...`.
pub open spec fn zigzag_spec(value: i64) -> u64 {
    if value >= 0 {
        (2 * value) as u64
    } else {
        (-2 * value - 1) as u64
    }
}

/// Inverse of [`zigzag_spec`].
pub open spec fn unzigzag_spec(raw: u64) -> i64 {
    if raw % 2 == 0 {
        (raw / 2) as i64
    } else {
        (-((raw / 2) as int) - 1) as i64
    }
}

/// LEB128 encoding of an unsigned value: seven bits per byte, least significant
/// group first, the high bit set on every byte but the last.
pub open spec fn varint_spec(value: u64) -> Seq<u8>
    decreases value,
{
    if value < 128 {
        seq![value as u8]
    } else {
        seq![((value % 128) + 128) as u8] + varint_spec(value / 128)
    }
}

/// Sum of the 7-bit groups of the first `n` bytes from `pos`, weighted by their
/// position.
pub open spec fn varint_sum(bytes: Seq<u8>, pos: int, n: nat) -> nat
    decreases n,
{
    if n == 0 {
        0
    } else {
        varint_sum(bytes, pos, (n - 1) as nat) + ((bytes[pos + n - 1] % 128) as nat) * pow2(
            (7 * (n - 1)) as nat,
        )
    }
}

/// `k` is where the LEB128 number that starts at `pos` ends: every byte before it has
/// its high bit set, the byte at `k` has it clear, and the number spans at most ten bytes.
pub open spec fn varint_ends_at(bytes: Seq<u8>, pos: int, k: int) -> bool {
    &&& pos <= k < bytes.len()
    &&& k < pos + 10
    &&& bytes[k] < 128
    &&& forall|j: int| pos <= j < k ==> bytes[j] >= 128
}

/// The value decoded from the LEB128 number that ends at `k`, reduced modulo `2^64`.
pub open spec fn varint_decoded(bytes: Seq<u8>, pos: int, k: int) -> u64 {
    (varint_sum(bytes, pos, (k - pos + 1) as nat) % 0x1_0000_0000_0000_0000) as u64
}

/// Appends the zigzag LEB128 encoding of `value` to `buffer`.
pub fn encode_delta(buffer: &mut Vec<u8>, value: i64)
    ensures
        final(buffer)@ == old(buffer)@ + varint_spec(zigzag_spec(value)),
{
    let zigzag = ((value << 1) ^ (value >> 63)) as u64;
    assert(value >= 0 ==> ((value << 1) ^ (value >> 63)) as u64 == (2 * value) as u64)
        by (bit_vector);
    assert(value < 0 ==> ((value << 1) ^ (value >> 63)) as u64 == (-2 * value - 1) as u64)
        by (bit_vector);
    encode_varint(buffer, zigzag);
}

/// Reads one zigzag LEB128 number at `*cursor`; on failure the cursor stands where
/// [`decode_varint`] leaves it.
pub fn decode_delta(bytes: &[u8], cursor: &mut usize) -> (r: Option<i64>)
    requires
        *old(cursor) <= bytes@.len(),
    ensures
        *final(cursor) <= bytes@.len(),
        (exists|k: int| varint_ends_at(bytes@, *old(cursor) as int, k)) ==> {
            let k = choose|k: int| varint_ends_at(bytes@, *old(cursor) as int, k);
            &&& r == Some(unzigzag_spec(varint_decoded(bytes@, *old(cursor) as int, k)))
            &&& *final(cursor) == k + 1
        },
        !(exists|k: int| varint_ends_at(bytes@, *old(cursor) as int, k)) ==> r is None,
        !(exists|k: int| varint_ends_at(bytes@, *old(cursor) as int, k)) ==> *final(cursor) == (if *old(
            cursor,
        ) + 10 <= bytes@.len() {
            *old(cursor) + 10
        } else {
            bytes@.len() as int
        }),
{
    let raw = match decode_varint(bytes, cursor) {
        Some(v) => v,
        None => {
            return None;
        },
    };
    assert(raw & 1 <= 1) by (bit_vector);
    assert(raw >> 1 <= 0x7fff_ffff_ffff_ffff) by (bit_vector);
    let bit = (raw & 1) as i64;
    let neg = -bit;
    let half = (raw >> 1) as i64;
    let r = half ^ neg;
    assert(raw & 1 == raw % 2) by (bit_vector);
    assert(raw >> 1 == raw / 2) by (bit_vector);
    assert((raw >> 1) as i64 == half);
    assert(half >= 0) by (bit_vector)
        requires
            half == (raw >> 1) as i64,
    ;
    assert(neg == 0 ==> half ^ neg == half) by (bit_vector);
    assert((neg == -1 && half >= 0) ==> half ^ neg == -half - 1) by (bit_vector);
    Some(r)
}

/// Appends the LEB128 encoding of `value` to `buffer`.
pub fn encode_varint(buffer: &mut Vec<u8>, value: u64)
    ensures
        final(buffer)@ == old(buffer)@ + varint_spec(value),
    decreases value,
{
    if value >= 0x80 {
        let b = ((value as u8) & 0x7F) | 0x80;
        assert(((value as u8) & 0x7F) | 0x80 == ((value % 128) + 128) as u8) by (bit_vector);
        assert(value >> 7 == value / 128) by (bit_vector);
        buffer.push(b);
        let ghost mid = buffer@;
        encode_varint(buffer, value >> 7);
        assert(buffer@ =~= old(buffer)@ + varint_spec(value));
    } else {
        buffer.push(value as u8);
        assert(buffer@ =~= old(buffer)@ + varint_spec(value));
    }
}

/// Reads one LEB128 number at `*cursor`, advancing the cursor past it. Fails when the
/// bytes run out, or when the number runs past ten bytes.
pub fn decode_varint(bytes: &[u8], cursor: &mut usize) -> (r: Option<u64>)
    requires
        *old(cursor) <= bytes@.len(),
    ensures
        *final(cursor) <= bytes@.len(),
        (exists|k: int| varint_ends_at(bytes@, *old(cursor) as int, k)) ==> {
            let k = choose|k: int| varint_ends_at(bytes@, *old(cursor) as int, k);
            &&& r == Some(varint_decoded(bytes@, *old(cursor) as int, k))
            &&& *final(cursor) == k + 1
        },
        !(exists|k: int| varint_ends_at(bytes@, *old(cursor) as int, k)) ==> r is None,
        !(exists|k: int| varint_ends_at(bytes@, *old(cursor) as int, k)) ==> *final(cursor) == (if *old(
            cursor,
        ) + 10 <= bytes@.len() {
            *old(cursor) + 10
        } else {
            bytes@.len() as int
        }),
{
    let ghost pos = *cursor as int;
    let mut value = 0u64;
    let mut shift = 0u32;
    let mut n: usize = 0;
    proof {
        lemma2_to64();
    }

    while *cursor < bytes.len()
        invariant
            0 <= pos <= *cursor <= bytes@.len(),
            pos == *old(cursor) as int,
            n == *cursor - pos,
            n < 10,
            shift == 7 * n,
            value as nat == varint_sum(bytes@, pos, n as nat),
            (value as nat) < pow2(shift as nat),
            forall|j: int| pos <= j < *cursor ==> bytes@[j] >= 128,
        decreases bytes@.len() - *cursor,
    {
        let byte = bytes[*cursor];
        *cursor += 1;
        n += 1;
        proof {
            lemma_varint_step(bytes@, pos, n as nat, value, shift);
        }
        value |= ((byte & 0x7F) as u64) << shift;
        if byte & 0x80 == 0 {
            assert(byte & 0x80 == 0 ==> byte < 128) by (bit_vector);
            proof {
                assert(varint_ends_at(bytes@, pos, *cursor - 1));
                assert(value as nat == varint_sum(bytes@, pos, n as nat) % 0x1_0000_0000_0000_0000);
                lemma_varint_end_unique(bytes@, pos, *cursor - 1);
            }
            return Some(value);
        }
        assert(byte & 0x80 != 0 ==> byte >= 128) by (bit_vector);
        shift += 7;
        if shift >= 64 {
            proof {
                assert forall|k: int| !varint_ends_at(bytes@, pos, k) by {
                    if varint_ends_at(bytes@, pos, k) {
                        assert(bytes@[k] >= 128);
                    }
                }
            }
            return None;
        }
    }
    proof {
        assert forall|k: int| !varint_ends_at(bytes@, pos, k) by {
            if varint_ends_at(bytes@, pos, k) {
                assert(bytes@[k] >= 128);
            }
        }
    }
    None
}

/// The end of a LEB128 number is unique, so `choose` picks it.
pub proof fn lemma_varint_end_unique(bytes: Seq<u8>, pos: int, k: int)
    requires
        varint_ends_at(bytes, pos, k),
    ensures
        (choose|k2: int| varint_ends_at(bytes, pos, k2)) == k,
{
    let k2 = choose|k2: int| varint_ends_at(bytes, pos, k2);
    assert(varint_ends_at(bytes, pos, k2));
    if k2 < k {
        assert(bytes[k2] >= 128);
    }
    if k < k2 {
        assert(bytes[k] >= 128);
    }
}

/// One step of the decoding loop: OR-ing the next 7-bit group at `shift` adds it to the sum.
proof fn lemma_varint_step(bytes: Seq<u8>, pos: int, n: nat, value: u64, shift: u32)
    requires
        1 <= n <= 10,
        shift == 7 * (n - 1),
        0 <= pos,
        pos + n <= bytes.len(),
        value as nat == varint_sum(bytes, pos, (n - 1) as nat),
        (value as nat) < pow2(shift as nat),
    ensures
        ({
            let byte = bytes[pos + n - 1];
            let nv = value | (((byte & 0x7F) as u64) << shift);
            &&& nv as nat == varint_sum(bytes, pos, n) % 0x1_0000_0000_0000_0000
            &&& n < 10 ==> nv as nat == varint_sum(bytes, pos, n)
            &&& n < 10 ==> (nv as nat) < pow2((shift + 7) as nat)
        }),
{
    let byte = bytes[pos + n - 1];
    lemma2_to64();
    lemma_pow2_pos(shift as nat);
    let low = (byte & 0x7F) as u64;
    assert(byte & 0x7F == byte % 128) by (bit_vector);
    assert(low < 128);
    // the new group lands above the bits already set
    vstd::bits::lemma_u64_pow2_no_overflow(shift as nat);
    vstd::bits::lemma_u64_shl_is_mul(1u64, shift as u64);
    assert(value < (1u64 << shift));
    assert((value < (1u64 << shift) && shift < 64 && low < 128) ==> (value | (low << shift))
        == value + (low << shift)) by (bit_vector);
    if n < 10 {
        assert(shift <= 56);
        assert((shift <= 56 && low < 128) ==> (low << shift) == low * (1u64 << shift)) by (
        bit_vector);
        assert((1u64 << shift) as nat == pow2(shift as nat));
        lemma_pow2_adds(shift as nat, 7);
        assert(pow2(7) == 128) by {
            vstd::arithmetic::power2::lemma2_to64();
        }
        assert(low as nat * pow2(shift as nat) < pow2((shift + 7) as nat)) by (nonlinear_arith)
            requires
                low < 128,
                pow2((shift + 7) as nat) == pow2(shift as nat) * 128,
                pow2(shift as nat) > 0,
        ;
        assert(value + low * pow2(shift as nat) < pow2((shift + 7) as nat)) by (nonlinear_arith)
            requires
                value < pow2(shift as nat),
                low < 128,
                pow2((shift + 7) as nat) == pow2(shift as nat) * 128,
        ;

    } else {
        assert(shift == 63);
        assert((low < 128) ==> (low << 63u32) as nat == (low as nat * 0x8000_0000_0000_0000)
            % 0x1_0000_0000_0000_0000) by (bit_vector);
        assert(pow2(63) == 0x8000_0000_0000_0000) by {
            vstd::arithmetic::power2::lemma2_to64_rest();
        }
        assert((value as nat + (low as nat * 0x8000_0000_0000_0000) % 0x1_0000_0000_0000_0000)
            == (value as nat + low as nat * 0x8000_0000_0000_0000) % 0x1_0000_0000_0000_0000)
            by (nonlinear_arith)
            requires
                value < 0x8000_0000_0000_0000,
        ;
    }
}


/// Shape of an encoding: at most `k` bytes when `value < 2^(7k)`; every byte but the last
/// carries the continuation bit; the groups sum back to `value`.
proof fn lemma_varint_shape(value: u64, k: nat)
    requires
        k >= 1,
        (value as nat) < pow2(7 * k),
    ensures
        1 <= varint_spec(value).len() <= k,
        varint_spec(value)[varint_spec(value).len() - 1] < 128,
        forall|j: int| 0 <= j < varint_spec(value).len() - 1 ==> varint_spec(value)[j] >= 128,
        varint_sum(varint_spec(value), 0, varint_spec(value).len()) == value,
    decreases value,
{
    let s = varint_spec(value);
    if value < 128 {
        assert(s.len() == 1);
        assert(pow2(0) == 1) by {
            lemma2_to64();
        }
        assert(s[0] == value);
        assert(varint_sum(s, 0, 1) == varint_sum(s, 0, 0) + ((s[0] % 128) as nat) * pow2(0));
    } else {
        let rest = (value / 128) as u64;
        assert(pow2(7) == 128) by {
            lemma2_to64();
        }
        if k == 1 {
            assert(false);
        }
        lemma_pow2_adds(7 * (k - 1) as nat, 7);
        assert(7 * (k - 1) as nat + 7 == 7 * k);
        assert((rest as nat) < pow2(7 * (k - 1) as nat)) by (nonlinear_arith)
            requires
                value < pow2(7 * k),
                pow2(7 * k) == pow2(7 * (k - 1) as nat) * 128,
                rest == value / 128,
        ;
        lemma_varint_shape(rest, (k - 1) as nat);
        let t = varint_spec(rest);
        let b0 = ((value % 128) + 128) as u8;
        assert(s == seq![b0] + t);
        assert(s.len() == t.len() + 1);
        assert(s[0] == b0);
        assert forall|j: int| 0 <= j < t.len() implies s[1 + j] == t[j] by {}
        assert(s[s.len() - 1] == t[t.len() - 1]);
        assert forall|j: int| 0 <= j < s.len() - 1 implies s[j] >= 128 by {
            if j > 0 {
                assert(s[j] == t[j - 1]);
            }
        }
        lemma_varint_sum_front(s, 0, s.len());
        lemma_varint_sum_shift(s, 1, t, t.len());
        assert(b0 % 128 == value % 128);
        assert(varint_sum(s, 0, s.len()) == (value % 128) as nat + 128 * (rest as nat));
        assert(value == value % 128 + 128 * (value / 128));
    }
}

/// `varint_sum` reads its bytes through `bytes[pos + j]` only: a copy of them elsewhere sums
/// the same.
proof fn lemma_varint_sum_shift(bytes: Seq<u8>, pos: int, other: Seq<u8>, n: nat)
    requires
        0 <= pos,
        pos + n <= bytes.len(),
        n <= other.len(),
        forall|j: int| 0 <= j < n ==> bytes[pos + j] == other[j],
    ensures
        varint_sum(bytes, pos, n) == varint_sum(other, 0, n),
    decreases n,
{
    if n > 0 {
        lemma_varint_sum_shift(bytes, pos, other, (n - 1) as nat);
        assert(bytes[pos + n - 1] == other[n - 1]);
    }
}

/// Peeling the first byte: `sum(pos, n) = group(pos) + 128 * sum(pos + 1, n - 1)`.
proof fn lemma_varint_sum_front(bytes: Seq<u8>, pos: int, n: nat)
    requires
        n >= 1,
    ensures
        varint_sum(bytes, pos, n) == (bytes[pos] % 128) as nat + 128 * varint_sum(
            bytes,
            pos + 1,
            (n - 1) as nat,
        ),
    decreases n,
{
    lemma2_to64();
    if n == 1 {
        assert(varint_sum(bytes, pos, 1) == varint_sum(bytes, pos, 0) + ((bytes[pos] % 128) as nat)
            * pow2(0));
        assert(varint_sum(bytes, pos + 1, 0) == 0);
    } else {
        lemma_varint_sum_front(bytes, pos, (n - 1) as nat);
        let g = (bytes[pos + n - 1] % 128) as nat;
        assert(varint_sum(bytes, pos + 1, (n - 1) as nat) == varint_sum(
            bytes,
            pos + 1,
            (n - 2) as nat,
        ) + g * pow2(7 * (n - 2) as nat));
        assert(varint_sum(bytes, pos, n) == varint_sum(bytes, pos, (n - 1) as nat) + g * pow2(
            7 * (n - 1) as nat,
        ));
        lemma_pow2_adds(7 * (n - 2) as nat, 7);
        assert(7 * (n - 2) as nat + 7 == 7 * (n - 1) as nat);
        assert(pos + 1 + (n - 1) - 1 == pos + n - 1);
        let a = varint_sum(bytes, pos, (n - 1) as nat);
        let b = varint_sum(bytes, pos + 1, (n - 2) as nat);
        let p1 = pow2(7 * (n - 1) as nat);
        let p2 = pow2(7 * (n - 2) as nat);
        let h = (bytes[pos] % 128) as nat;
        assert(a + g * p1 == h + 128 * (b + g * p2)) by (nonlinear_arith)
            requires
                p1 == p2 * 128,
                a == h + 128 * b,
        ;
    }
}

/// Round trip of the LEB128 encoding: wherever `encode_varint`'s output stands in a byte
/// string, decoding at its first byte ends at its last byte and yields the encoded value.
pub proof fn lemma_varint_roundtrip(value: u64, prefix: Seq<u8>, suffix: Seq<u8>)
    ensures
        ({
            let bytes = prefix + varint_spec(value) + suffix;
            let pos = prefix.len() as int;
            let k = pos + varint_spec(value).len() - 1;
            &&& varint_ends_at(bytes, pos, k)
            &&& varint_decoded(bytes, pos, k) == value
        }),
{
    lemma2_to64();
    vstd::arithmetic::power2::lemma2_to64_rest();
    lemma_pow2_adds(64, 6);
    vstd::arithmetic::power2::lemma_pow2_strictly_increases(64, 70);
    assert((value as nat) < pow2(70));
    lemma_varint_shape(value, 10);
    let s = varint_spec(value);
    let bytes = prefix + s + suffix;
    let pos = prefix.len() as int;
    let k = pos + s.len() - 1;
    assert forall|j: int| 0 <= j < s.len() implies bytes[pos + j] == s[j] by {}
    assert forall|j: int| pos <= j < k implies bytes[j] >= 128 by {
        assert(bytes[j] == s[j - pos]);
    }
    assert(bytes[k] == s[s.len() - 1]);
    lemma_varint_sum_shift(bytes, pos, s, s.len());
    assert(k - pos + 1 == s.len());
}

/// Zigzag coding is invertible on every `i64`.
pub proof fn lemma_zigzag_roundtrip(value: i64)
    ensures
        unzigzag_spec(zigzag_spec(value)) == value,
{
}

} // verus!
