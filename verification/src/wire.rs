//! Little-endian integers and byte-range copies, the alphabet of every wire
//! structure in this crate.

use vstd::prelude::*;

verus! {

/// The `n` little-endian bytes of `value`, least significant byte first.
pub open spec fn le_bytes(value: nat, n: nat) -> Seq<u8>
    decreases n,
{
    if n == 0 {
        Seq::<u8>::empty()
    } else {
        seq![(value % 256) as u8] + le_bytes(value / 256, (n - 1) as nat)
    }
}

/// The natural number that a little-endian byte string denotes.
pub open spec fn le_value(bytes: Seq<u8>) -> nat
    decreases bytes.len(),
{
    if bytes.len() == 0 {
        0
    } else {
        bytes[0] as nat + 256 * le_value(bytes.skip(1))
    }
}

/// `256` raised to `n`: one more than the largest value that `n` bytes hold.
pub open spec fn byte_range(n: nat) -> nat
    decreases n,
{
    if n == 0 {
        1
    } else {
        256 * byte_range((n - 1) as nat)
    }
}

/// The bytes `[at, at + n)` of `bytes`, read as a little-endian number.
pub open spec fn le_field(bytes: Seq<u8>, at: int, n: int) -> nat {
    le_value(bytes.subrange(at, at + n))
}

/// Little-endian encoding has exactly the requested width.
pub proof fn lemma_le_bytes_len(value: nat, n: nat)
    ensures
        le_bytes(value, n).len() == n,
    decreases n,
{
    if n > 0 {
        lemma_le_bytes_len(value / 256, (n - 1) as nat);
    }
}

/// Reading back an encoded number gives the number, provided it fits.
pub proof fn lemma_le_round_trip(value: nat, n: nat)
    requires
        value < byte_range(n),
    ensures
        le_value(le_bytes(value, n)) == value,
    decreases n,
{
    lemma_le_bytes_len(value, n);
    if n > 0 {
        let rest = le_bytes(value / 256, (n - 1) as nat);
        assert(value / 256 < byte_range((n - 1) as nat)) by (nonlinear_arith)
            requires
                value < 256 * byte_range((n - 1) as nat),
        ;
        lemma_le_round_trip(value / 256, (n - 1) as nat);
        assert(le_bytes(value, n).skip(1) =~= rest);
    }
}

/// Encoding the number that a byte string denotes gives the byte string back.
pub proof fn lemma_le_value_round_trip(bytes: Seq<u8>)
    ensures
        le_bytes(le_value(bytes), bytes.len()) == bytes,
        le_value(bytes) < byte_range(bytes.len()),
    decreases bytes.len(),
{
    if bytes.len() > 0 {
        let rest = bytes.skip(1);
        lemma_le_value_round_trip(rest);
        let value = le_value(bytes);
        assert(value % 256 == bytes[0] as nat);
        assert(value / 256 == le_value(rest));
        assert(le_bytes(value, bytes.len()) =~= bytes);
    }
}

/// Two numbers that fit in `n` bytes and have the same encoding are equal.
pub proof fn lemma_le_bytes_injective(a: nat, b: nat, n: nat)
    requires
        a < byte_range(n),
        b < byte_range(n),
        le_bytes(a, n) == le_bytes(b, n),
    ensures
        a == b,
{
    lemma_le_round_trip(a, n);
    lemma_le_round_trip(b, n);
}

/// The bounds of the three widths that the wire format uses.
pub proof fn lemma_byte_ranges()
    ensures
        byte_range(2) == 0x1_0000,
        byte_range(4) == 0x1_0000_0000,
        byte_range(8) == 0x1_0000_0000_0000_0000,
{
    reveal_with_fuel(byte_range, 9);
}

/// The bound of request identifiers.
pub proof fn lemma_byte_range_16()
    ensures
        byte_range(16) == 0x1_0000_0000_0000_0000_0000_0000_0000_0000,
{
    reveal_with_fuel(byte_range, 17);
}

/// Four bytes denote a `u32`.
pub proof fn lemma_u32_field(bytes: Seq<u8>, at: int)
    requires
        0 <= at,
        at + 4 <= bytes.len(),
    ensures
        le_field(bytes, at, 4) <= u32::MAX,
{
    lemma_le_value_round_trip(bytes.subrange(at, at + 4));
    lemma_byte_ranges();
}

/// Two bytes denote a `u16`.
pub proof fn lemma_u16_field(bytes: Seq<u8>, at: int)
    requires
        0 <= at,
        at + 2 <= bytes.len(),
    ensures
        le_field(bytes, at, 2) <= u16::MAX,
{
    lemma_le_value_round_trip(bytes.subrange(at, at + 2));
    lemma_byte_ranges();
}

/// Eight bytes denote a `u64`.
pub proof fn lemma_u64_field(bytes: Seq<u8>, at: int)
    requires
        0 <= at,
        at + 8 <= bytes.len(),
    ensures
        le_field(bytes, at, 8) <= u64::MAX,
{
    lemma_le_value_round_trip(bytes.subrange(at, at + 8));
    lemma_byte_ranges();
}

/// The little-endian bytes of a `u16`.
pub fn u16_le(value: u16) -> (bytes: [u8; 2])
    ensures
        bytes@ == le_bytes(value as nat, 2),
{
    let bytes: [u8; 2] = [(value % 256) as u8, (value / 256) as u8];
    proof {
        reveal_with_fuel(le_bytes, 3);
        assert(bytes@ =~= le_bytes(value as nat, 2));
    }
    bytes
}

/// The little-endian bytes of a `u32`.
pub fn u32_le(value: u32) -> (bytes: [u8; 4])
    ensures
        bytes@ == le_bytes(value as nat, 4),
{
    let bytes: [u8; 4] = [
        (value % 256) as u8,
        (value / 256 % 256) as u8,
        (value / 256 / 256 % 256) as u8,
        (value / 256 / 256 / 256) as u8,
    ];
    proof {
        reveal_with_fuel(le_bytes, 5);
        assert(bytes@ =~= le_bytes(value as nat, 4));
    }
    bytes
}

/// The little-endian bytes of a `u64`.
pub fn u64_le(value: u64) -> (bytes: [u8; 8])
    ensures
        bytes@ == le_bytes(value as nat, 8),
{
    let v1: u64 = value / 256;
    let v2: u64 = v1 / 256;
    let v3: u64 = v2 / 256;
    let v4: u64 = v3 / 256;
    let v5: u64 = v4 / 256;
    let v6: u64 = v5 / 256;
    let v7: u64 = v6 / 256;
    let bytes: [u8; 8] = [
        (value % 256) as u8,
        (v1 % 256) as u8,
        (v2 % 256) as u8,
        (v3 % 256) as u8,
        (v4 % 256) as u8,
        (v5 % 256) as u8,
        (v6 % 256) as u8,
        (v7 % 256) as u8,
    ];
    proof {
        let t7 = le_bytes(v7 as nat, 1);
        let t6 = le_bytes(v6 as nat, 2);
        let t5 = le_bytes(v5 as nat, 3);
        let t4 = le_bytes(v4 as nat, 4);
        let t3 = le_bytes(v3 as nat, 5);
        let t2 = le_bytes(v2 as nat, 6);
        let t1 = le_bytes(v1 as nat, 7);
        assert(t7 =~= seq![bytes@[7]]) by {
            assert(le_bytes(v7 as nat / 256, 0) =~= Seq::<u8>::empty());
        }
        assert(t6 =~= bytes@.skip(6));
        assert(t5 =~= bytes@.skip(5));
        assert(t4 =~= bytes@.skip(4));
        assert(t3 =~= bytes@.skip(3));
        assert(t2 =~= bytes@.skip(2));
        assert(t1 =~= bytes@.skip(1));
        assert(bytes@ =~= le_bytes(value as nat, 8));
    }
    bytes
}

/// Reads the `u16` at offset `at`.
pub fn read_u16(bytes: &[u8], at: usize) -> (value: u16)
    requires
        at + 2 <= bytes.len(),
    ensures
        value as nat == le_field(bytes@, at as int, 2),
{
    let value: u16 = bytes[at] as u16 + 256 * bytes[at + 1] as u16;
    proof {
        reveal_with_fuel(le_value, 3);
    }
    value
}

/// Reads the `u32` at offset `at`.
pub fn read_u32(bytes: &[u8], at: usize) -> (value: u32)
    requires
        at + 4 <= bytes.len(),
    ensures
        value as nat == le_field(bytes@, at as int, 4),
{
    let value: u32 = bytes[at] as u32 + 256 * (bytes[at + 1] as u32 + 256 * (bytes[at + 2] as u32
        + 256 * bytes[at + 3] as u32));
    proof {
        reveal_with_fuel(le_value, 5);
    }
    value
}

/// Reads the `u64` at offset `at`.
pub fn read_u64(bytes: &[u8], at: usize) -> (value: u64)
    requires
        at + 8 <= bytes.len(),
    ensures
        value as nat == le_field(bytes@, at as int, 8),
{
    let low: u32 = read_u32(bytes, at);
    let high: u32 = read_u32(bytes, at + 4);
    let value: u64 = low as u64 + 0x1_0000_0000 * high as u64;
    proof {
        let all = bytes@.subrange(at as int, at + 8);
        let h = bytes@.subrange(at + 4, at + 8);
        reveal_with_fuel(le_value, 5);
        assert(all.skip(1).skip(1).skip(1).skip(1) =~= h);
        assert(le_value(all) == all[0] as nat + 256 * (all[1] as nat + 256 * (all[2] as nat + 256 * (
        all[3] as nat + 256 * le_value(h)))));
    }
    value
}

/// Reads sixteen bytes as a number.
pub fn read_u128(bytes: &[u8; 16]) -> (value: u128)
    ensures
        value as nat == le_value(bytes@),
{
    let low: u64 = read_u64(bytes, 0);
    let high: u64 = read_u64(bytes, 8);
    let value: u128 = low as u128 + 0x1_0000_0000_0000_0000 * high as u128;
    proof {
        let (l, h) = (bytes@.subrange(0, 8), bytes@.subrange(8, 16));
        assert(bytes@ =~= l + h);
        lemma_le_value_join(l, h);
        lemma_byte_ranges();
    }
    value
}

/// The number of joined byte strings: the second counts behind the first.
proof fn lemma_le_value_join(a: Seq<u8>, b: Seq<u8>)
    ensures
        le_value(a + b) == le_value(a) + byte_range(a.len()) * le_value(b),
    decreases a.len(),
{
    if a.len() == 0 {
        assert(a + b =~= b);
        let (p, v) = (byte_range(0), le_value(b));
        assert(p * v == v) by (nonlinear_arith)
            requires
                p == 1,
        ;
    } else {
        let rest = a.skip(1);
        lemma_le_value_join(rest, b);
        assert((a + b).skip(1) =~= rest + b);
        let (p, v) = (byte_range(rest.len()), le_value(b));
        assert(256 * (p * v) == (256 * p) * v) by (nonlinear_arith);
    }
}

/// Byte strings of one length that denote the same number are equal.
pub proof fn lemma_le_value_injective(a: Seq<u8>, b: Seq<u8>)
    requires
        a.len() == b.len(),
        le_value(a) == le_value(b),
    ensures
        a == b,
{
    lemma_le_value_round_trip(a);
    lemma_le_value_round_trip(b);
}

/// Words are little-endian: each byte counts 256 times as much as the one
/// before it.
pub proof fn lemma_words_are_little_endian(bytes: Seq<u8>, at: int)
    requires
        0 <= at,
        at + 2 <= bytes.len(),
    ensures
        le_field(bytes, at, 2) == bytes[at] + 0x100 * bytes[at + 1],
        at + 4 <= bytes.len() ==> le_field(bytes, at, 4) == bytes[at] + 0x100 * bytes[at + 1]
            + 0x1_0000 * bytes[at + 2] + 0x100_0000 * bytes[at + 3],
        at + 8 <= bytes.len() ==> le_field(bytes, at, 8) == bytes[at] + 0x100 * bytes[at + 1]
            + 0x1_0000 * bytes[at + 2] + 0x100_0000 * bytes[at + 3] + 0x1_0000_0000 * bytes[at + 4]
            + 0x100_0000_0000 * bytes[at + 5] + 0x1_0000_0000_0000 * bytes[at + 6]
            + 0x100_0000_0000_0000 * bytes[at + 7],
{
    lemma_short_word(bytes.subrange(at, at + 2));
    if at + 4 <= bytes.len() {
        lemma_short_word(bytes.subrange(at, at + 4));
    }
    if at + 8 <= bytes.len() {
        let (low, high) = (bytes.subrange(at, at + 4), bytes.subrange(at + 4, at + 8));
        assert(bytes.subrange(at, at + 8) =~= low + high);
        lemma_le_value_join(low, high);
        lemma_byte_ranges();
        lemma_short_word(low);
        lemma_short_word(high);
    }
}

/// The value of two and of four bytes.
proof fn lemma_short_word(word: Seq<u8>)
    requires
        word.len() == 2 || word.len() == 4,
    ensures
        word.len() == 2 ==> le_value(word) == word[0] + 0x100 * word[1],
        word.len() == 4 ==> le_value(word) == word[0] + 0x100 * word[1] + 0x1_0000 * word[2]
            + 0x100_0000 * word[3],
{
    reveal_with_fuel(le_value, 5);
}

/// What is written of a number of two, four and eight bytes, byte by byte.
pub proof fn lemma_words_are_written_low_byte_first(value: nat)
    ensures
        le_bytes(value, 2) == seq![(value % 256) as u8, (value / 0x100 % 256) as u8],
        le_bytes(value, 4) == seq![
            (value % 256) as u8,
            (value / 0x100 % 256) as u8,
            (value / 0x1_0000 % 256) as u8,
            (value / 0x100_0000 % 256) as u8,
        ],
        le_bytes(value, 8) == seq![
            (value % 256) as u8,
            (value / 0x100 % 256) as u8,
            (value / 0x1_0000 % 256) as u8,
            (value / 0x100_0000 % 256) as u8,
            (value / 0x1_0000_0000 % 256) as u8,
            (value / 0x100_0000_0000 % 256) as u8,
            (value / 0x1_0000_0000_0000 % 256) as u8,
            (value / 0x100_0000_0000_0000 % 256) as u8,
        ],
{
    reveal_with_fuel(le_bytes, 9);
    assert(le_bytes(value, 2) =~= seq![(value % 256) as u8, (value / 0x100 % 256) as u8]);
    assert(le_bytes(value, 4) =~= seq![
        (value % 256) as u8,
        (value / 0x100 % 256) as u8,
        (value / 0x1_0000 % 256) as u8,
        (value / 0x100_0000 % 256) as u8,
    ]);
    assert(le_bytes(value, 8) =~= seq![
        (value % 256) as u8,
        (value / 0x100 % 256) as u8,
        (value / 0x1_0000 % 256) as u8,
        (value / 0x100_0000 % 256) as u8,
        (value / 0x1_0000_0000 % 256) as u8,
        (value / 0x100_0000_0000 % 256) as u8,
        (value / 0x1_0000_0000_0000 % 256) as u8,
        (value / 0x100_0000_0000_0000 % 256) as u8,
    ]);
}

/// Overwriting bytes from a position on changes those and no others.
pub proof fn lemma_patched_only_there(base: Seq<u8>, at: int, patch: Seq<u8>, i: int)
    requires
        0 <= at,
        at + patch.len() <= base.len(),
        0 <= i < base.len(),
    ensures
        patched(base, at, patch).len() == base.len(),
        at <= i < at + patch.len() ==> patched(base, at, patch)[i] == patch[i - at],
        i < at || at + patch.len() <= i ==> patched(base, at, patch)[i] == base[i],
{
}

/// Copies the `N` bytes of `bytes` that start at `at` into an array.
pub fn read_array<const N: usize>(bytes: &[u8], at: usize) -> (out: [u8; N])
    requires
        at + N <= bytes.len(),
    ensures
        out@ == bytes@.subrange(at as int, at + N),
{
    let mut out: [u8; N] = [0u8; N];
    let mut i: usize = 0;
    while i < N
        invariant
            i <= N,
            at + N <= bytes.len(),
            out@.len() == N,
            forall|j: int| 0 <= j < i ==> out@[j] == bytes@[at + j],
        decreases N - i,
    {
        out[i] = bytes[at + i];
        i = i + 1;
    }
    assert(out@ =~= bytes@.subrange(at as int, at + N));
    out
}

/// `base` with the bytes from `at` on replaced by `patch`.
pub open spec fn patched(base: Seq<u8>, at: int, patch: Seq<u8>) -> Seq<u8> {
    base.take(at) + patch + base.skip(at + patch.len())
}

/// Overwrites the bytes of `buffer` from `at` on with `patch`.
pub fn put_bytes(buffer: &mut [u8], at: usize, patch: &[u8])
    requires
        at + patch@.len() <= old(buffer).len(),
    ensures
        final(buffer)@ == patched(old(buffer)@, at as int, patch@),
{
    let ghost before = buffer@;
    let mut i: usize = 0;
    while i < patch.len()
        invariant
            i <= patch@.len(),
            at + patch@.len() <= before.len() <= usize::MAX,
            buffer@.len() == before.len(),
            buffer@ =~= patched(before, at as int, patch@.take(i as int)),
        decreases patch@.len() - i,
    {
        buffer[at + i] = patch[i];
        i = i + 1;
    }
    assert(patch@.take(i as int) =~= patch@);
}

/// Appends bytes to a vector.
pub fn append_bytes(out: &mut Vec<u8>, bytes: &[u8])
    ensures
        final(out)@ == old(out)@ + bytes@,
{
    let ghost before = out@;
    out.extend_from_slice(bytes);
    assert(out@ =~= before + bytes@);
}

/// Whether two byte strings are equal.
pub fn same_bytes(a: &[u8], b: &[u8]) -> (same: bool)
    ensures
        same == (a@ == b@),
{
    if a.len() != b.len() {
        return false;
    }
    let mut i: usize = 0;
    while i < a.len()
        invariant
            i <= a@.len(),
            a@.len() == b@.len(),
            forall|j: int| 0 <= j < i ==> a@[j] == b@[j],
        decreases a@.len() - i,
    {
        if a[i] != b[i] {
            return false;
        }
        i = i + 1;
    }
    assert(a@ =~= b@);
    true
}

} // verus!
