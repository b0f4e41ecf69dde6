//! The Bech32 text form of API keys and the payload inside it.

use vstd::arithmetic::div_mod;
use vstd::arithmetic::power2;
use vstd::bits;
use vstd::prelude::*;
use vstd::slice::slice_subrange;
use vstd::utf8;

use crate::bit_groups;
use crate::text;
use crate::wire;

verus! {

/// The only payload format version that is understood.
pub const FORMAT_VERSION: u8 = 1;

/// The limits that an API key carries.
#[derive(Debug, Clone, Copy, PartialEq, Eq, Structural)]
pub struct ApiKeyLimits {
    /// Number of distinct rate counters.
    pub rate_buckets_max: u32,
    /// Number of distinct latency trackers.
    pub latency_services_max: u32,
    /// Number of distinct metrics labels.
    pub metrics_labels_max: u32,
    /// Storage of one latency tracker, in samples.
    pub latency_buffer_size_max: u32,
    /// Longest deduplication lifetime of a request, in milliseconds.
    pub dedup_ttl_ms_max: u32,
    /// Longest rate-counter window, in milliseconds.
    pub rate_window_size_ms_max: u32,
}

/// Everything that an encoded API key holds.
#[derive(Clone, PartialEq, Eq)]
pub struct DecodedApiKey {
    /// The human-readable prefix, in lower case.
    pub hrp: String,
    /// The prefix behind `rl-`.
    pub auth_method: String,
    /// The payload format version; zero where the payload has none.
    pub format_version: u8,
    /// The key identifier; zero where the payload has none.
    pub key_id: u64,
    /// The authentication material.
    pub auth_secret: Vec<u8>,
    /// The limits, where the payload has them.
    pub limits: Option<ApiKeyLimits>,
}

/// The content of a [`DecodedApiKey`].
pub ghost struct DecodedApiKeyView {
    pub hrp: Seq<char>,
    pub auth_method: Seq<char>,
    pub format_version: u8,
    pub key_id: u64,
    pub auth_secret: Seq<u8>,
    pub limits: Option<ApiKeyLimits>,
}

impl View for DecodedApiKey {
    type V = DecodedApiKeyView;

    open spec fn view(&self) -> DecodedApiKeyView {
        DecodedApiKeyView {
            hrp: self.hrp@,
            auth_method: self.auth_method@,
            format_version: self.format_version,
            key_id: self.key_id,
            auth_secret: self.auth_secret@,
            limits: self.limits,
        }
    }
}

/// Why an encoded API key was refused.
#[derive(Debug, Clone, PartialEq, Eq)]
pub enum DecodeError {
    EmptyInput,
    NonPrintable,
    MixedCase,
    MissingSeparator,
    EmptyHrp,
    ChecksumTooShort,
    InvalidCharset(char),
    ChecksumFailed,
    InvalidPadding,
    InvalidHrpPrefix,
    UnsupportedAuthMethod(String),
    InvalidPayloadLength { auth_method: String, expected: usize, actual: usize },
    UnsupportedFormatVersion(u8),
    InvalidPackedQuota,
}

/// The content of a [`DecodeError`].
pub ghost enum DecodeErrorView {
    EmptyInput,
    NonPrintable,
    MixedCase,
    MissingSeparator,
    EmptyHrp,
    ChecksumTooShort,
    InvalidCharset(char),
    ChecksumFailed,
    InvalidPadding,
    InvalidHrpPrefix,
    UnsupportedAuthMethod(Seq<char>),
    InvalidPayloadLength { auth_method: Seq<char>, expected: int, actual: int },
    UnsupportedFormatVersion(u8),
    InvalidPackedQuota,
}

impl View for DecodeError {
    type V = DecodeErrorView;

    open spec fn view(&self) -> DecodeErrorView {
        match *self {
            DecodeError::EmptyInput => DecodeErrorView::EmptyInput,
            DecodeError::NonPrintable => DecodeErrorView::NonPrintable,
            DecodeError::MixedCase => DecodeErrorView::MixedCase,
            DecodeError::MissingSeparator => DecodeErrorView::MissingSeparator,
            DecodeError::EmptyHrp => DecodeErrorView::EmptyHrp,
            DecodeError::ChecksumTooShort => DecodeErrorView::ChecksumTooShort,
            DecodeError::InvalidCharset(c) => DecodeErrorView::InvalidCharset(c),
            DecodeError::ChecksumFailed => DecodeErrorView::ChecksumFailed,
            DecodeError::InvalidPadding => DecodeErrorView::InvalidPadding,
            DecodeError::InvalidHrpPrefix => DecodeErrorView::InvalidHrpPrefix,
            DecodeError::UnsupportedAuthMethod(m) => DecodeErrorView::UnsupportedAuthMethod(m@),
            DecodeError::InvalidPayloadLength { auth_method, expected, actual } => {
                DecodeErrorView::InvalidPayloadLength {
                    auth_method: auth_method@,
                    expected: expected as int,
                    actual: actual as int,
                }
            },
            DecodeError::UnsupportedFormatVersion(v) => DecodeErrorView::UnsupportedFormatVersion(v),
            DecodeError::InvalidPackedQuota => DecodeErrorView::InvalidPackedQuota,
        }
    }
}

/// A decoding error and its content are of the same kind and say the same.
pub proof fn lemma_decode_error_content(error: DecodeError)
    ensures
        match error {
            DecodeError::EmptyInput => error@ is EmptyInput,
            DecodeError::NonPrintable => error@ is NonPrintable,
            DecodeError::MixedCase => error@ is MixedCase,
            DecodeError::MissingSeparator => error@ is MissingSeparator,
            DecodeError::EmptyHrp => error@ is EmptyHrp,
            DecodeError::ChecksumTooShort => error@ is ChecksumTooShort,
            DecodeError::InvalidCharset(c) => error@ == DecodeErrorView::InvalidCharset(c),
            DecodeError::ChecksumFailed => error@ is ChecksumFailed,
            DecodeError::InvalidPadding => error@ is InvalidPadding,
            DecodeError::InvalidHrpPrefix => error@ is InvalidHrpPrefix,
            DecodeError::UnsupportedAuthMethod(m) => error@
                == DecodeErrorView::UnsupportedAuthMethod(m@),
            DecodeError::InvalidPayloadLength { auth_method, expected, actual } => {
                error@ matches DecodeErrorView::InvalidPayloadLength {
                    auth_method: m,
                    expected: e,
                    actual: a,
                } && m == auth_method@ && e == expected && a == actual
            },
            DecodeError::UnsupportedFormatVersion(v) => error@
                == DecodeErrorView::UnsupportedFormatVersion(v),
            DecodeError::InvalidPackedQuota => error@ is InvalidPackedQuota,
        },
{
}

/// The data symbol of the five-bit value `v`.
pub open spec fn symbol_at(v: u8) -> char {
    match v {
        0 => 'q',
        1 => 'p',
        2 => 'z',
        3 => 'r',
        4 => 'y',
        5 => '9',
        6 => 'x',
        7 => '8',
        8 => 'g',
        9 => 'f',
        10 => '2',
        11 => 't',
        12 => 'v',
        13 => 'd',
        14 => 'w',
        15 => '0',
        16 => 's',
        17 => '3',
        18 => 'j',
        19 => 'n',
        20 => '5',
        21 => '4',
        22 => 'k',
        23 => 'h',
        24 => 'c',
        25 => 'e',
        26 => '6',
        27 => 'm',
        28 => 'u',
        29 => 'a',
        30 => '7',
        _ => 'l',
    }
}

/// The five-bit value of a data symbol, if it is one.
pub open spec fn symbol_value(c: char) -> Option<u8> {
    if exists|v: u8| v < 32 && symbol_at(v) == c {
        Some(choose|v: u8| v < 32 && symbol_at(v) == c)
    } else {
        None
    }
}

/// Different values have different symbols.
pub proof fn lemma_symbols_distinct(a: u8, b: u8)
    requires
        a < 32,
        b < 32,
        symbol_at(a) == symbol_at(b),
    ensures
        a == b,
{
}

/// A symbol's value is the value it was written from.
pub proof fn lemma_symbol_round_trip(v: u8)
    requires
        v < 32,
    ensures
        symbol_value(symbol_at(v)) == Some(v),
{
    let w = choose|w: u8| w < 32 && symbol_at(w) == symbol_at(v);
    lemma_symbols_distinct(v, w);
}

/// The data symbols in the order of their values.
pub proof fn lemma_symbols_in_order(v: u8)
    requires
        v < 32,
    ensures
        "qpzry9x8gf2tvdw0s3jn54khce6mua7l"@.len() == 32,
        symbol_at(v) == "qpzry9x8gf2tvdw0s3jn54khce6mua7l"@[v as int],
{
    reveal_strlit("qpzry9x8gf2tvdw0s3jn54khce6mua7l");
}

/// The five-bit value of a data symbol, if it is one.
pub fn char_to_value(c: char) -> (value: Option<u8>)
    ensures
        value == symbol_value(c),
        value matches Some(v) ==> v < 32 && symbol_at(v) == c,
{
    let value: Option<u8> = match c {
        'q' => Some(0),
        'p' => Some(1),
        'z' => Some(2),
        'r' => Some(3),
        'y' => Some(4),
        '9' => Some(5),
        'x' => Some(6),
        '8' => Some(7),
        'g' => Some(8),
        'f' => Some(9),
        '2' => Some(10),
        't' => Some(11),
        'v' => Some(12),
        'd' => Some(13),
        'w' => Some(14),
        '0' => Some(15),
        's' => Some(16),
        '3' => Some(17),
        'j' => Some(18),
        'n' => Some(19),
        '5' => Some(20),
        '4' => Some(21),
        'k' => Some(22),
        'h' => Some(23),
        'c' => Some(24),
        'e' => Some(25),
        '6' => Some(26),
        'm' => Some(27),
        'u' => Some(28),
        'a' => Some(29),
        '7' => Some(30),
        'l' => Some(31),
        _ => None,
    };
    proof {
        if let Some(v) = value {
            lemma_symbol_round_trip(v);
        }
    }
    value
}

/// The data symbol of a five-bit value.
pub fn value_to_char(v: u8) -> (symbol: Option<char>)
    ensures
        symbol == (if v < 32 {
            Some(symbol_at(v))
        } else {
            None
        }),
{
    match v {
        0 => Some('q'),
        1 => Some('p'),
        2 => Some('z'),
        3 => Some('r'),
        4 => Some('y'),
        5 => Some('9'),
        6 => Some('x'),
        7 => Some('8'),
        8 => Some('g'),
        9 => Some('f'),
        10 => Some('2'),
        11 => Some('t'),
        12 => Some('v'),
        13 => Some('d'),
        14 => Some('w'),
        15 => Some('0'),
        16 => Some('s'),
        17 => Some('3'),
        18 => Some('j'),
        19 => Some('n'),
        20 => Some('5'),
        21 => Some('4'),
        22 => Some('k'),
        23 => Some('h'),
        24 => Some('c'),
        25 => Some('e'),
        26 => Some('6'),
        27 => Some('m'),
        28 => Some('u'),
        29 => Some('a'),
        30 => Some('7'),
        31 => Some('l'),
        _ => None,
    }
}

/// The checksum's view of a prefix: the high bits, a zero, the low bits.
pub open spec fn hrp_expanded(hrp: Seq<u8>) -> Seq<u8> {
    Seq::new(hrp.len(), |i: int| hrp[i] >> 5) + seq![0u8] + Seq::new(hrp.len(), |i: int| hrp[i] & 31)
}

/// Expands a prefix for the checksum.
pub fn hrp_expand(hrp: &str) -> (out: Vec<u8>)
    ensures
        out@ == hrp_expanded(utf8::encode_utf8(hrp@)),
{
    let bytes: &[u8] = hrp.as_bytes();
    let mut out: Vec<u8> = Vec::new();
    let mut i: usize = 0;
    while i < bytes.len()
        invariant
            i <= bytes@.len(),
            out@ =~= Seq::new(i as nat, |j: int| bytes@[j] >> 5),
        decreases bytes@.len() - i,
    {
        out.push(bytes[i] >> 5);
        i = i + 1;
    }
    out.push(0);
    i = 0;
    while i < bytes.len()
        invariant
            i <= bytes@.len(),
            out@ =~= Seq::new(bytes@.len(), |j: int| bytes@[j] >> 5) + seq![0u8] + Seq::new(
                i as nat,
                |j: int| bytes@[j] & 31,
            ),
        decreases bytes@.len() - i,
    {
        out.push(bytes[i] & 31);
        i = i + 1;
    }
    out
}

/// The generator terms that the five overflowing bits of the state select.
pub open spec fn generator_terms(top: u32) -> u32 {
    (if top & 1 != 0 {
        0x3B6A57B2u32
    } else {
        0
    }) ^ (if (top >> 1) & 1 != 0 {
        0x26508E6Du32
    } else {
        0
    }) ^ (if (top >> 2) & 1 != 0 {
        0x1EA119FAu32
    } else {
        0
    }) ^ (if (top >> 3) & 1 != 0 {
        0x3D4233DDu32
    } else {
        0
    }) ^ (if (top >> 4) & 1 != 0 {
        0x2A1462B3u32
    } else {
        0
    })
}

/// One step of the checksum: shift the state by five bits, fold the overflow
/// back in, add the next value.
pub open spec fn polymod_step(state: u32, value: u8) -> u32 {
    ((state & 0x1FF_FFFF) << 5) ^ (value as u32) ^ generator_terms(state >> 25)
}

/// The checksum state after `values`.
pub open spec fn polymod_of(values: Seq<u8>) -> u32
    decreases values.len(),
{
    if values.len() == 0 {
        1
    } else {
        polymod_step(polymod_of(values.drop_last()), values.last())
    }
}

/// The checksum state after `values`.
pub fn polymod(values: &[u8]) -> (state: u32)
    ensures
        state == polymod_of(values@),
{
    let mut chk: u32 = 1;
    let mut i: usize = 0;
    while i < values.len()
        invariant
            i <= values@.len(),
            chk == polymod_of(values@.take(i as int)),
        decreases values@.len() - i,
    {
        let ghost before = chk;
        let v: u8 = values[i];
        let b: u32 = chk >> 25;
        chk = ((chk & 0x1FF_FFFF) << 5) ^ (v as u32);
        let g0: u32 = if b & 1 != 0 { 0x3B6A57B2 } else { 0 };
        let g1: u32 = if (b >> 1) & 1 != 0 { 0x26508E6D } else { 0 };
        let g2: u32 = if (b >> 2) & 1 != 0 { 0x1EA119FA } else { 0 };
        let g3: u32 = if (b >> 3) & 1 != 0 { 0x3D4233DD } else { 0 };
        let g4: u32 = if (b >> 4) & 1 != 0 { 0x2A1462B3 } else { 0 };
        let terms: u32 = g0 ^ g1 ^ g2 ^ g3 ^ g4;
        chk = chk ^ terms;
        proof {
            assert(values@.take(i + 1).drop_last() =~= values@.take(i as int));
            assert(chk == polymod_step(before, v));
        }
        i = i + 1;
    }
    assert(values@.take(i as int) =~= values@);
    chk
}

/// Whether `data`, which ends in six checksum values, belongs to `hrp`.
pub fn verify_checksum(hrp: &str, data: &[u8]) -> (valid: bool)
    ensures
        valid == (polymod_of(hrp_expanded(utf8::encode_utf8(hrp@)) + data@) == 1),
{
    let mut values: Vec<u8> = hrp_expand(hrp);
    wire::append_bytes(&mut values, data);
    polymod(values.as_slice()) == 1
}

/// The six checksum values of a 30-bit state, most significant first.
pub open spec fn checksum_values(state: u32) -> Seq<u8> {
    Seq::new(6, |i: int| ((state >> ((5 * (5 - i)) as u32)) & 31) as u8)
}

/// The checksum that makes `hrp` and `data` valid.
pub open spec fn checksum_of(hrp: Seq<u8>, data: Seq<u8>) -> Seq<u8> {
    checksum_values(polymod_of(hrp_expanded(hrp) + data + seq![0u8, 0, 0, 0, 0, 0]) ^ 1)
}

/// The checksum that makes `hrp` and `data` valid.
pub fn create_checksum(hrp: &str, data: &[u8]) -> (checksum: Vec<u8>)
    ensures
        checksum@ == checksum_of(utf8::encode_utf8(hrp@), data@),
{
    let mut values: Vec<u8> = hrp_expand(hrp);
    wire::append_bytes(&mut values, data);
    wire::append_bytes(&mut values, &[0u8, 0, 0, 0, 0, 0]);
    let pm: u32 = polymod(values.as_slice()) ^ 1;
    let mut out: Vec<u8> = Vec::new();
    let mut i: u32 = 0;
    assert(values@ =~= hrp_expanded(utf8::encode_utf8(hrp@)) + data@ + seq![0u8, 0, 0, 0, 0, 0]);
    while i < 6
        invariant
            i <= 6,
            out@ =~= checksum_values(pm).take(i as int),
        decreases 6 - i,
    {
        let shift: u32 = 5 * (5 - i);
        let low: u32 = (pm >> shift) & 31;
        assert((pm >> shift) & 31 < 32) by (bit_vector);
        out.push(low as u8);
        i = i + 1;
    }
    assert(out@ =~= checksum_values(pm));
    out
}

/// A step keeps the state within 30 bits.
proof fn lemma_step_bound(state: u32, value: u8)
    requires
        value < 32,
    ensures
        polymod_step(state, value) < 0x4000_0000,
{
    let top = state >> 25;
    let g = generator_terms(top);
    assert(g < 0x4000_0000) by {
        assert forall|a: u32, b: u32| a < 0x4000_0000 && b < 0x4000_0000 implies #[trigger] (a ^ b)
            < 0x4000_0000 by {
            assert((a ^ b) < 0x4000_0000) by (bit_vector)
                requires
                    a < 0x4000_0000,
                    b < 0x4000_0000,
            ;
        }
    }
    let v = value as u32;
    assert((((state & 0x1FF_FFFF) << 5) ^ v ^ g) < 0x4000_0000) by (bit_vector)
        requires
            v < 32,
            g < 0x4000_0000,
    ;
}

/// The state stays within 30 bits.
proof fn lemma_polymod_bound(values: Seq<u8>)
    requires
        forall|i: int| 0 <= i < values.len() ==> #[trigger] values[i] < 32,
    ensures
        polymod_of(values) < 0x4000_0000,
{
    if values.len() > 0 {
        lemma_step_bound(polymod_of(values.drop_last()), values.last());
    }
}

/// A difference in the low 25 bits of the state only moves up by five bits.
proof fn lemma_step_difference(state: u32, diff: u32, value: u8)
    requires
        diff < 0x200_0000,
    ensures
        polymod_step(state ^ diff, value) == polymod_step(state, 0) ^ ((diff << 5) ^ value as u32),
{
    assert((state ^ diff) >> 25 == state >> 25) by (bit_vector)
        requires
            diff < 0x200_0000,
    ;
    let g = generator_terms(state >> 25);
    let v = value as u32;
    assert((((state ^ diff) & 0x1FF_FFFF) << 5) ^ v ^ g == ((((state & 0x1FF_FFFF) << 5) ^ 0u32 ^ g)
        ^ ((diff << 5) ^ v))) by (bit_vector)
        requires
            diff < 0x200_0000,
    ;
}

/// Six five-bit values, packed most significant first.
pub open spec fn packed_six(c: Seq<u8>) -> u32 {
    ((((((((((c[0] as u32) << 5) ^ (c[1] as u32)) << 5) ^ (c[2] as u32)) << 5) ^ (c[3] as u32)) << 5)
        ^ (c[4] as u32)) << 5) ^ (c[5] as u32)
}

/// Six more values change the state that six zeros give by exactly their
/// packed difference.
proof fn lemma_polymod_six(values: Seq<u8>, c: Seq<u8>)
    requires
        c.len() == 6,
        forall|i: int| 0 <= i < 6 ==> #[trigger] c[i] < 32,
    ensures
        polymod_of(values + c) == polymod_of(values + seq![0u8, 0, 0, 0, 0, 0]) ^ packed_six(c),
{
    let z = seq![0u8, 0, 0, 0, 0, 0];
    let s = polymod_of(values);
    let d1 = c[0] as u32;
    let d2 = (d1 << 5) ^ (c[1] as u32);
    let d3 = (d2 << 5) ^ (c[2] as u32);
    let d4 = (d3 << 5) ^ (c[3] as u32);
    let d5 = (d4 << 5) ^ (c[4] as u32);
    let c0 = c[0] as u32;
    let c1 = c[1] as u32;
    let c2 = c[2] as u32;
    let c3 = c[3] as u32;
    let c4 = c[4] as u32;
    assert(c[0] < 32 && c[1] < 32 && c[2] < 32 && c[3] < 32 && c[4] < 32 && c[5] < 32);
    assert(d2 < 0x400) by (bit_vector)
        requires
            d1 < 32,
            c1 < 32,
            d2 == (d1 << 5) ^ c1,
    ;
    assert(d3 < 0x8000) by (bit_vector)
        requires
            d2 < 0x400,
            c2 < 32,
            d3 == (d2 << 5) ^ c2,
    ;
    assert(d4 < 0x10_0000) by (bit_vector)
        requires
            d3 < 0x8000,
            c3 < 32,
            d4 == (d3 << 5) ^ c3,
    ;
    assert(d5 < 0x200_0000) by (bit_vector)
        requires
            d4 < 0x10_0000,
            c4 < 32,
            d5 == (d4 << 5) ^ c4,
    ;
    assert(s ^ 0 == s) by (bit_vector);
    assert((0u32 << 5) ^ c0 == c0) by (bit_vector);
    lemma_polymod_one(values, c, z, 0, 0);
    lemma_polymod_one(values, c, z, 1, d1);
    lemma_polymod_one(values, c, z, 2, d2);
    lemma_polymod_one(values, c, z, 3, d3);
    lemma_polymod_one(values, c, z, 4, d4);
    lemma_polymod_one(values, c, z, 5, d5);
    assert(c.take(6) =~= c);
    assert(z.take(6) =~= z);
    assert(values + c.take(0) =~= values);
    assert(values + z.take(0) =~= values);
}

/// One of the six steps of [`lemma_polymod_six`].
proof fn lemma_polymod_one(values: Seq<u8>, c: Seq<u8>, z: Seq<u8>, i: int, diff: u32)
    requires
        0 <= i < 6,
        c.len() == 6,
        z == seq![0u8, 0, 0, 0, 0, 0],
        diff < 0x200_0000,
    ensures
        polymod_of(values + c.take(i)) == polymod_of(values + z.take(i)) ^ diff ==> polymod_of(
            values + c.take(i + 1),
        ) == polymod_of(values + z.take(i + 1)) ^ ((diff << 5) ^ c[i] as u32),
{
    let a = values + c.take(i + 1);
    let b = values + z.take(i + 1);
    assert(a.drop_last() =~= values + c.take(i));
    assert(b.drop_last() =~= values + z.take(i));
    assert(a.last() == c[i]);
    assert(b.last() == 0);
    lemma_step_difference(polymod_of(values + z.take(i)), diff, c[i]);
}

/// Packing the six checksum values of a 30-bit state gives the state back.
proof fn lemma_packed_checksum(state: u32)
    requires
        state < 0x4000_0000,
    ensures
        packed_six(checksum_values(state)) == state,
        checksum_values(state).len() == 6,
        forall|i: int| 0 <= i < 6 ==> #[trigger] checksum_values(state)[i] < 32,
{
    let c = checksum_values(state);
    assert forall|i: int| 0 <= i < 6 implies #[trigger] c[i] < 32 && c[i] as u32 == (state >> ((5 * (5
        - i)) as u32)) & 31 by {
        let shift = (5 * (5 - i)) as u32;
        assert((state >> shift) & 31 < 32) by (bit_vector);
    }
    let c0 = c[0] as u32;
    let c1 = c[1] as u32;
    let c2 = c[2] as u32;
    let c3 = c[3] as u32;
    let c4 = c[4] as u32;
    let c5 = c[5] as u32;
    assert(((((((((((c0) << 5) ^ (c1)) << 5) ^ (c2)) << 5) ^ (c3)) << 5) ^ (c4)) << 5) ^ (c5)
        == state) by (bit_vector)
        requires
            state < 0x4000_0000,
            c0 == (state >> 25) & 31,
            c1 == (state >> 20) & 31,
            c2 == (state >> 15) & 31,
            c3 == (state >> 10) & 31,
            c4 == (state >> 5) & 31,
            c5 == (state >> 0) & 31,
    ;
}

/// A prefix and data followed by their checksum are valid.
pub proof fn lemma_checksum_valid(hrp: Seq<u8>, data: Seq<u8>)
    requires
        forall|i: int| 0 <= i < data.len() ==> #[trigger] data[i] < 32,
    ensures
        polymod_of(hrp_expanded(hrp) + (data + checksum_of(hrp, data))) == 1,
        checksum_of(hrp, data).len() == 6,
        forall|i: int| 0 <= i < 6 ==> #[trigger] checksum_of(hrp, data)[i] < 32,
{
    let values = hrp_expanded(hrp) + data;
    let z = seq![0u8, 0, 0, 0, 0, 0];
    let zeroed = polymod_of(values + z);
    assert forall|i: int| 0 <= i < (values + z).len() implies #[trigger] (values + z)[i] < 32 by {
        if i < hrp.len() {
            let b = hrp[i];
            assert(b >> 5 < 32) by (bit_vector);
        } else if hrp.len() < i < 2 * hrp.len() + 1 {
            let b = hrp[i - hrp.len() - 1];
            assert(b & 31 < 32) by (bit_vector);
        } else if 2 * hrp.len() + 1 <= i < values.len() {
            assert(data[i - (2 * hrp.len() + 1)] < 32);
        }
    }
    lemma_polymod_bound(values + z);
    let state = zeroed ^ 1;
    assert(state < 0x4000_0000) by (bit_vector)
        requires
            zeroed < 0x4000_0000,
            state == zeroed ^ 1,
    ;
    lemma_packed_checksum(state);
    lemma_polymod_six(values, checksum_of(hrp, data));
    assert(zeroed ^ (zeroed ^ 1) == 1) by (bit_vector);
    assert(values + checksum_of(hrp, data) =~= hrp_expanded(hrp) + (data + checksum_of(hrp, data)));
}

/// The checksum takes one value after the other: the state, which starts at
/// one, is shifted by five bits, the value is added, and each bit that is
/// shifted out adds its generator.
pub proof fn lemma_checksum_value_by_value(values: Seq<u8>, value: u8)
    ensures
        polymod_of(Seq::empty()) == 1,
        ({
            let state = polymod_of(values);
            let top = state >> 25;
            let g0: u32 = if top & 1 != 0 { 0x3B6A57B2 } else { 0 };
            let g1: u32 = if (top >> 1) & 1 != 0 { 0x26508E6D } else { 0 };
            let g2: u32 = if (top >> 2) & 1 != 0 { 0x1EA119FA } else { 0 };
            let g3: u32 = if (top >> 3) & 1 != 0 { 0x3D4233DD } else { 0 };
            let g4: u32 = if (top >> 4) & 1 != 0 { 0x2A1462B3 } else { 0 };
            polymod_of(values.push(value)) == ((state & 0x1FF_FFFF) << 5) ^ (value as u32) ^ (g0
                ^ g1 ^ g2 ^ g3 ^ g4)
        }),
{
    assert(values.push(value).drop_last() =~= values);
}

/// The checksum sees a prefix as the high bits of its bytes, a zero, and their
/// low bits.
pub proof fn lemma_expanded_prefix(hrp: Seq<u8>, i: int)
    ensures
        hrp_expanded(hrp).len() == 2 * hrp.len() + 1,
        hrp_expanded(hrp)[hrp.len() as int] == 0,
        0 <= i < hrp.len() ==> hrp_expanded(hrp)[i] == hrp[i] >> 5 && hrp_expanded(hrp)[hrp.len()
            + 1 + i] == hrp[i] & 31,
{
}

/// Different states stay different, whatever value follows.
proof fn lemma_states_stay_apart(s: u32, t: u32, value: u8)
    requires
        s < 0x4000_0000,
        t < 0x4000_0000,
        polymod_step(s, value) == polymod_step(t, value),
    ensures
        s == t,
{
    assert(s == t) by (bit_vector)
        requires
            s < 0x4000_0000,
            t < 0x4000_0000,
            polymod_step(s, value) == polymod_step(t, value),
    ;
}

/// Different values lead to different states.
proof fn lemma_values_lead_apart(s: u32, a: u8, b: u8)
    requires
        polymod_step(s, a) == polymod_step(s, b),
    ensures
        a == b,
{
    assert(a == b) by (bit_vector)
        requires
            polymod_step(s, a) == polymod_step(s, b),
    ;
}

/// What led to different states still does so with the same values behind it.
proof fn lemma_states_apart_behind(a: Seq<u8>, b: Seq<u8>, tail: Seq<u8>)
    requires
        polymod_of(a) != polymod_of(b),
        forall|i: int| 0 <= i < a.len() ==> #[trigger] a[i] < 32,
        forall|i: int| 0 <= i < b.len() ==> #[trigger] b[i] < 32,
        forall|i: int| 0 <= i < tail.len() ==> #[trigger] tail[i] < 32,
    ensures
        polymod_of(a + tail) != polymod_of(b + tail),
    decreases tail.len(),
{
    if tail.len() == 0 {
        assert(a + tail =~= a);
        assert(b + tail =~= b);
    } else {
        let head = tail.drop_last();
        lemma_states_apart_behind(a, b, head);
        assert((a + tail).drop_last() =~= a + head);
        assert((b + tail).drop_last() =~= b + head);
        lemma_polymod_bound(a + head);
        lemma_polymod_bound(b + head);
        if polymod_of(a + tail) == polymod_of(b + tail) {
            lemma_states_stay_apart(polymod_of(a + head), polymod_of(b + head), tail.last());
        }
    }
}

/// No single wrong value goes unnoticed: if values check out, changing any one
/// of them makes the checksum fail.
pub proof fn lemma_one_wrong_value_is_noticed(values: Seq<u8>, i: int, wrong: u8)
    requires
        forall|j: int| 0 <= j < values.len() ==> #[trigger] values[j] < 32,
        0 <= i < values.len(),
        wrong < 32,
        wrong != values[i],
        polymod_of(values) == 1,
    ensures
        polymod_of(values.update(i, wrong)) != 1,
{
    let head = values.take(i);
    let tail = values.skip(i + 1);
    let (a, b) = (head.push(values[i]), head.push(wrong));
    assert(a.drop_last() =~= head);
    assert(b.drop_last() =~= head);
    if polymod_of(a) == polymod_of(b) {
        lemma_values_lead_apart(polymod_of(head), values[i], wrong);
    }
    lemma_states_apart_behind(a, b, tail);
    assert(a + tail =~= values);
    assert(b + tail =~= values.update(i, wrong));
}

/// Regroups a stream of bits from groups of `from_bits` into groups of
/// `to_bits`. With `pad` the last group is filled up with zeros; without it the
/// bits left over must be such padding, and are dropped.
pub fn convert_bits(data: &[u8], from_bits: u8, to_bits: u8, pad: bool) -> (out: Result<
    Vec<u8>,
    DecodeError,
>)
    requires
        1 <= from_bits <= 8,
        1 <= to_bits <= 8,
    ensures
        ({
            let from = from_bits as nat;
            let to = to_bits as nat;
            let total = data@.len() * from;
            match out {
                Ok(groups) => {
                    &&& bit_groups::groups_fit(data@, from)
                    &&& pad || bit_groups::ends_in_padding(data@, from, to)
                    &&& groups@ == bit_groups::regrouped(
                        data@,
                        from,
                        to,
                        if pad {
                            bit_groups::padded_count(total, to)
                        } else {
                            total / to
                        },
                    )
                },
                Err(e) => {
                    &&& e == DecodeError::InvalidPadding
                    &&& !bit_groups::groups_fit(data@, from) || (!pad
                        && !bit_groups::ends_in_padding(data@, from, to))
                },
            }
        }),
{
    let from: u32 = from_bits as u32;
    let to: u32 = to_bits as u32;
    let mut acc: u32 = 0;
    let mut bits: u32 = 0;
    let mut out: Vec<u8> = Vec::new();
    assert(1u32 << to >= 2 && 1u32 << ((from + to - 1) as u32) >= 2) by (bit_vector)
        requires
            1 <= from <= 8,
            1 <= to <= 8,
    ;
    let maxv: u32 = (1u32 << to) - 1;
    let max_acc: u32 = (1u32 << (from + to - 1)) - 1;
    let mut i: usize = 0;
    assert(bit_groups::low_bits(acc, 0) == 0) by (bit_vector)
        requires
            acc == 0,
    ;
    assert(0 * to == 0 && 0 * from == 0) by (nonlinear_arith);
    while i < data.len()
        invariant
            i <= data@.len(),
            1 <= from <= 8,
            1 <= to <= 8,
            from == from_bits,
            maxv == (1u32 << to) - 1,
            max_acc == (1u32 << ((from + to - 1) as u32)) - 1,
            acc <= max_acc,
            bits < to,
            out@.len() * to + bits == i * from,
            out@ =~= bit_groups::regrouped(data@, from as nat, to as nat, out@.len()),
            bit_groups::low_bits(acc, bits) == bit_groups::stream_value(
                data@,
                from as nat,
                out@.len() * to,
                bits as nat,
            ),
            forall|j: int| 0 <= j < i ==> (#[trigger] data@[j] as u32) >> from == 0,
        decreases data@.len() - i,
    {
        let value: u32 = data[i] as u32;
        if value >> from != 0 {
            return Err(DecodeError::InvalidPadding);
        }
        let ghost start = out@.len() * to;
        let ghost acc0 = acc;
        let ghost bits0 = bits;
        let ghost window0 = bit_groups::low_bits(acc, bits);
        acc = ((acc << from) | value) & max_acc;
        bits = bits + from;
        proof {
            assert((((acc0 << from) | value) & max_acc) <= max_acc) by (bit_vector);
            let joined = (window0 << from) | value;
            assert((acc & (((1u32 << bits) - 1) as u32)) == joined) by (bit_vector)
                requires
                    1 <= from <= 8,
                    1 <= to <= 8,
                    bits0 < to,
                    bits == bits0 + from,
                    value >> from == 0,
                    max_acc == ((1u32 << ((from + to - 1) as u32)) - 1) as u32,
                    acc0 <= max_acc,
                    acc == (((acc0 << from) | value) & max_acc),
                    window0 == (acc0 & (((1u32 << bits0) - 1) as u32)) as u32,
                    joined == (window0 << from) | value,
            ;
            bit_groups::lemma_read_group(
                data@,
                from,
                i as int,
                start,
                bits0,
                window0,
                value,
                joined,
            );
            assert((i + 1) * from == i * from + from) by (nonlinear_arith);
        }
        while bits >= to
            invariant
                i < data@.len(),
                1 <= from <= 8,
                1 <= to <= 8,
                maxv == (1u32 << to) - 1,
                max_acc == (1u32 << ((from + to - 1) as u32)) - 1,
                acc <= max_acc,
                bits <= from + to - 1,
                out@.len() * to + bits == (i + 1) * from,
                out@ =~= bit_groups::regrouped(data@, from as nat, to as nat, out@.len()),
                bit_groups::low_bits(acc, bits) == bit_groups::stream_value(
                    data@,
                    from as nat,
                    out@.len() * to,
                    bits as nat,
                ),
            decreases bits,
        {
            let ghost window = bit_groups::low_bits(acc, bits);
            let ghost whole = bits;
            let ghost at = out@.len() * to;
            bits = bits - to;
            let group: u32 = (acc >> bits) & maxv;
            proof {
                assert(group == window >> bits && group < 256 && (acc & (((1u32 << bits) - 1) as u32))
                    == (window & (((1u32 << bits) - 1) as u32))) by (bit_vector)
                    requires
                        1 <= from <= 8,
                        1 <= to <= 8,
                        whole <= from + to - 1,
                        whole >= to,
                        bits == whole - to,
                        maxv == ((1u32 << to) - 1) as u32,
                        window == (acc & (((1u32 << whole) - 1) as u32)) as u32,
                        group == (acc >> bits) & maxv,
                ;
                bit_groups::lemma_write_group(data@, from as nat, at, to, bits, window);
                assert((out@.len() + 1) * to == at + to) by (nonlinear_arith)
                    requires
                        at == out@.len() * to,
                ;
            }
            out.push(group as u8);
        }
        i = i + 1;
    }
    let ghost total = data@.len() * from;
    proof {
        div_mod::lemma_fundamental_div_mod_converse(
            total as int,
            to as int,
            out@.len() as int,
            bits as int,
        );
    }
    let ghost window = bit_groups::low_bits(acc, bits);
    let gap: u32 = to - bits;
    let last: u32 = (acc << gap) & maxv;
    proof {
        assert(last == window << gap) by (bit_vector)
            requires
                1 <= from <= 8,
                1 <= to <= 8,
                bits < to,
                gap == to - bits,
                maxv == ((1u32 << to) - 1) as u32,
                max_acc == ((1u32 << ((from + to - 1) as u32)) - 1) as u32,
                acc <= max_acc,
                window == (acc & (((1u32 << bits) - 1) as u32)) as u32,
                last == (acc << gap) & maxv,
        ;
        bit_groups::lemma_pad_group(data@, from as nat, out@.len() * to, to, bits, window);
        assert(out@.len() * to == total - bits);
    }
    if pad {
        if bits > 0 {
            out.push(last as u8);
        }
    } else {
        if bits >= from {
            return Err(DecodeError::InvalidPadding);
        }
        if last != 0 {
            return Err(DecodeError::InvalidPadding);
        }
    }
    Ok(out)
}

/// A printable ASCII code other than space.
pub open spec fn printable(byte: u8) -> bool {
    33 <= byte <= 126
}

/// The position of the last `1`, which ends the prefix.
pub open spec fn separator(bytes: Seq<u8>) -> Option<int>
    decreases bytes.len(),
{
    if bytes.len() == 0 {
        None
    } else if bytes.last() == 49 {
        Some(bytes.len() - 1)
    } else {
        separator(bytes.drop_last())
    }
}

/// The first byte that is no data symbol.
pub open spec fn first_foreign(symbols: Seq<u8>) -> Option<char>
    decreases symbols.len(),
{
    if symbols.len() == 0 {
        None
    } else if symbol_value(symbols[0] as char) is None {
        Some(symbols[0] as char)
    } else {
        first_foreign(symbols.skip(1))
    }
}

/// The values of data symbols.
pub open spec fn symbol_values(symbols: Seq<u8>) -> Seq<u8> {
    Seq::new(symbols.len(), |i: int| symbol_value(symbols[i] as char)->0)
}

/// What the two sides of the separator denote: the symbols are valid data, end
/// in the checksum of prefix and data, and the data before it spells bytes.
pub open spec fn decoded_parts(hrp: Seq<u8>, symbols: Seq<u8>) -> Result<
    (Seq<u8>, Seq<u8>),
    DecodeErrorView,
> {
    let data = symbol_values(symbols);
    let groups = data.take(data.len() - 6);
    if first_foreign(symbols) is Some {
        Err(DecodeErrorView::InvalidCharset(first_foreign(symbols)->0))
    } else if polymod_of(hrp_expanded(hrp) + data) != 1 {
        Err(DecodeErrorView::ChecksumFailed)
    } else if !bit_groups::ends_in_padding(groups, 5, 8) {
        Err(DecodeErrorView::InvalidPadding)
    } else {
        Ok((hrp, bit_groups::regrouped(groups, 5, 8, groups.len() * 5 / 8)))
    }
}

/// What the bytes of a Bech32 text denote: prefix and payload, or the first
/// reason to refuse them.
pub open spec fn decoded_bytes(bytes: Seq<u8>) -> Result<(Seq<u8>, Seq<u8>), DecodeErrorView> {
    let lower = text::lower_bytes(bytes);
    if bytes.len() == 0 {
        Err(DecodeErrorView::EmptyInput)
    } else if exists|i: int| 0 <= i < bytes.len() && !printable(#[trigger] bytes[i]) {
        Err(DecodeErrorView::NonPrintable)
    } else if (exists|i: int| 0 <= i < bytes.len() && 97 <= #[trigger] bytes[i] <= 122) && (exists|
        i: int,
    |
        0 <= i < bytes.len() && 65 <= #[trigger] bytes[i] <= 90) {
        Err(DecodeErrorView::MixedCase)
    } else {
        match separator(lower) {
            None => Err(DecodeErrorView::MissingSeparator),
            Some(at) => if at == 0 {
                Err(DecodeErrorView::EmptyHrp)
            } else if lower.len() - at - 1 < 6 {
                Err(DecodeErrorView::ChecksumTooShort)
            } else {
                decoded_parts(lower.take(at), lower.skip(at + 1))
            },
        }
    }
}

/// The separator is the last `1`, and there is none exactly if no byte is one.
pub proof fn lemma_separator_is_the_last_one(bytes: Seq<u8>)
    ensures
        match separator(bytes) {
            Some(at) => 0 <= at < bytes.len() && bytes[at] == 49 && forall|i: int|
                at < i < bytes.len() ==> #[trigger] bytes[i] != 49,
            None => forall|i: int| 0 <= i < bytes.len() ==> #[trigger] bytes[i] != 49,
        },
    decreases bytes.len(),
{
    if bytes.len() > 0 && bytes.last() != 49 {
        lemma_separator_is_the_last_one(bytes.drop_last());
        assert(forall|i: int|
            0 <= i < bytes.len() - 1 ==> #[trigger] bytes[i] == bytes.drop_last()[i]);
    }
}

/// The first byte that is no data symbol is reported, and there is none exactly
/// if all are.
pub proof fn lemma_first_foreign_byte(symbols: Seq<u8>)
    ensures
        match first_foreign(symbols) {
            Some(c) => exists|i: int|
                0 <= i < symbols.len() && #[trigger] symbols[i] as char == c && symbol_value(
                    c,
                ) is None && forall|j: int|
                    0 <= j < i ==> symbol_value(#[trigger] symbols[j] as char) is Some,
            None => forall|i: int|
                0 <= i < symbols.len() ==> symbol_value(#[trigger] symbols[i] as char) is Some,
        },
    decreases symbols.len(),
{
    if symbols.len() > 0 {
        let rest = symbols.skip(1);
        lemma_first_foreign_byte(rest);
        if symbol_value(symbols[0] as char) is None {
            assert(symbols[0] as char == first_foreign(symbols)->0);
        } else if let Some(c) = first_foreign(rest) {
            let i = choose|i: int|
                0 <= i < rest.len() && #[trigger] rest[i] as char == c && symbol_value(
                    c,
                ) is None && forall|j: int|
                    0 <= j < i ==> symbol_value(#[trigger] rest[j] as char) is Some;
            assert(symbols[i + 1] as char == c);
            assert forall|j: int| 0 <= j < i + 1 implies symbol_value(
                #[trigger] symbols[j] as char,
            ) is Some by {
                if j > 0 {
                    assert(rest[j - 1] == symbols[j]);
                }
            }
        } else {
            assert forall|j: int| 0 <= j < symbols.len() implies symbol_value(
                #[trigger] symbols[j] as char,
            ) is Some by {
                if j > 0 {
                    assert(rest[j - 1] == symbols[j]);
                }
            }
        }
    }
}

/// Why a text is no Bech32 text, before its data is looked at: it is empty, has
/// a byte that is not printable ASCII, mixes upper and lower case, has no
/// separator, nothing before the separator, or fewer than six symbols behind
/// it. The first of these that holds is the reason.
pub proof fn lemma_refused_texts(bytes: Seq<u8>)
    ensures
        ({
            let found = decoded_bytes(bytes);
            let unprintable = exists|i: int|
                0 <= i < bytes.len() && !(33 <= #[trigger] bytes[i] <= 126);
            let mixed = (exists|i: int| 0 <= i < bytes.len() && 97 <= #[trigger] bytes[i] <= 122)
                && (exists|i: int| 0 <= i < bytes.len() && 65 <= #[trigger] bytes[i] <= 90);
            let bare = forall|i: int| 0 <= i < bytes.len() ==> #[trigger] bytes[i] != 49;
            &&& bytes.len() == 0 ==> (found matches Err(e) && e is EmptyInput)
            &&& unprintable ==> (found matches Err(e) && e is NonPrintable)
            &&& !unprintable && mixed ==> (found matches Err(e) && e is MixedCase)
            &&& bytes.len() > 0 && !unprintable && !mixed && bare ==> (found matches Err(e)
                && e is MissingSeparator)
        }),
        forall|at: int|
            0 <= at < bytes.len() && #[trigger] bytes[at] == 49 && (forall|i: int|
                at < i < bytes.len() ==> #[trigger] bytes[i] != 49) && (forall|i: int|
                0 <= i < bytes.len() ==> 33 <= #[trigger] bytes[i] <= 126) && !((exists|i: int|
                0 <= i < bytes.len() && 97 <= #[trigger] bytes[i] <= 122) && (exists|i: int|
                0 <= i < bytes.len() && 65 <= #[trigger] bytes[i] <= 90)) ==> {
                &&& at == 0 ==> (decoded_bytes(bytes) matches Err(e) && e is EmptyHrp)
                &&& at > 0 && bytes.len() - at - 1 < 6 ==> (decoded_bytes(bytes) matches Err(e)
                    && e is ChecksumTooShort)
            },
{
    let lower = text::lower_bytes(bytes);
    lemma_separator_is_the_last_one(lower);
    assert forall|i: int| 0 <= i < bytes.len() implies (#[trigger] lower[i] == 49 <==> bytes[i]
        == 49) by {}
    assert forall|i: int| 0 <= i < bytes.len() implies (#[trigger] bytes[i] == 49 <==> lower[i]
        == 49) by {}
    assert forall|i: int| 0 <= i < bytes.len() && !(33 <= #[trigger] bytes[i]
        <= 126) implies !printable(bytes[i]) by {}
    assert forall|i: int| 0 <= i < bytes.len() && !printable(#[trigger] bytes[i]) implies !(33
        <= bytes[i] <= 126) by {}
}

/// The case of a text does not matter, as long as it is not mixed: in upper
/// case it is read as in lower case.
pub proof fn lemma_case_does_not_matter(bytes: Seq<u8>)
    requires
        forall|i: int| 0 <= i < bytes.len() ==> !(97 <= #[trigger] bytes[i] <= 122),
    ensures
        decoded_bytes(bytes) == decoded_bytes(text::lower_bytes(bytes)),
{
    let lower = text::lower_bytes(bytes);
    assert(text::lower_bytes(lower) =~= lower);
    assert forall|i: int| 0 <= i < bytes.len() implies printable(#[trigger] bytes[i]) == printable(
        lower[i],
    ) && !(65 <= lower[i] <= 90) by {}
    if exists|i: int| 0 <= i < bytes.len() && !printable(#[trigger] bytes[i]) {
        let i = choose|i: int| 0 <= i < bytes.len() && !printable(#[trigger] bytes[i]);
        assert(!printable(lower[i]));
    }
    if exists|i: int| 0 <= i < lower.len() && !printable(#[trigger] lower[i]) {
        let i = choose|i: int| 0 <= i < lower.len() && !printable(#[trigger] lower[i]);
        assert(!printable(bytes[i]));
    }
}

/// What a Bech32 text denotes: prefix and payload, or the first reason to
/// refuse it.
pub open spec fn bech32_decoded(addr: Seq<char>) -> Result<
    (Seq<char>, Seq<u8>),
    DecodeErrorView,
> {
    match decoded_bytes(utf8::encode_utf8(addr)) {
        Ok((hrp, payload)) => Ok((text::ascii_chars(hrp), payload)),
        Err(e) => Err(e),
    }
}

/// Finds the last `1`.
fn find_separator(bytes: &[u8]) -> (at: Option<usize>)
    ensures
        match at {
            Some(p) => separator(bytes@) == Some(p as int) && p < bytes@.len(),
            None => separator(bytes@) is None,
        },
{
    let mut end: usize = bytes.len();
    assert(bytes@.take(end as int) =~= bytes@);
    while end > 0
        invariant
            end <= bytes@.len(),
            separator(bytes@) == separator(bytes@.take(end as int)),
        decreases end,
    {
        assert(bytes@.take(end as int).drop_last() =~= bytes@.take(end - 1));
        if bytes[end - 1] == 49 {
            return Some(end - 1);
        }
        end = end - 1;
    }
    None
}

/// Reads data symbols, up to the first byte that is none.
fn read_symbols(symbols: &[u8]) -> (data: Result<Vec<u8>, DecodeError>)
    requires
        text::all_ascii(symbols@),
    ensures
        match data {
            Ok(values) => {
                &&& first_foreign(symbols@) is None
                &&& values@ == symbol_values(symbols@)
                &&& forall|i: int| 0 <= i < values@.len() ==> #[trigger] values@[i] < 32
            },
            Err(e) => first_foreign(symbols@) is Some && e@ == DecodeErrorView::InvalidCharset(
                first_foreign(symbols@)->0,
            ),
        },
{
    let mut data: Vec<u8> = Vec::new();
    let mut i: usize = 0;
    assert(symbols@.skip(0) =~= symbols@);
    while i < symbols.len()
        invariant
            i <= symbols@.len(),
            text::all_ascii(symbols@),
            first_foreign(symbols@) == first_foreign(symbols@.skip(i as int)),
            data@ =~= symbol_values(symbols@.take(i as int)),
            forall|j: int| 0 <= j < i ==> #[trigger] data@[j] < 32,
        decreases symbols@.len() - i,
    {
        let c: char = symbols[i] as char;
        assert(symbols@.skip(i as int).skip(1) =~= symbols@.skip(i + 1));
        match char_to_value(c) {
            Some(v) => data.push(v),
            None => return Err(DecodeError::InvalidCharset(c)),
        }
        i = i + 1;
    }
    assert(symbols@.take(i as int) =~= symbols@);
    Ok(data)
}

/// Splits a Bech32 text into its prefix, in lower case, and its payload.
pub fn bech32_decode(addr: &str) -> (decoded: Result<(String, Vec<u8>), DecodeError>)
    ensures
        match decoded {
            Ok(parts) => bech32_decoded(addr@) == Ok::<_, DecodeErrorView>((parts.0@, parts.1@)),
            Err(e) => bech32_decoded(addr@) == Err::<(Seq<char>, Seq<u8>), _>(e@),
        },
{
    let bytes: &[u8] = addr.as_bytes();
    if bytes.len() == 0 {
        return Err(DecodeError::EmptyInput);
    }
    let mut has_lower: bool = false;
    let mut has_upper: bool = false;
    let mut i: usize = 0;
    while i < bytes.len()
        invariant
            i <= bytes@.len(),
            bytes@ == utf8::encode_utf8(addr@),
            bytes@.len() > 0,
            forall|j: int| 0 <= j < i ==> printable(#[trigger] bytes@[j]),
            has_lower == exists|j: int| 0 <= j < i && 97 <= #[trigger] bytes@[j] <= 122,
            has_upper == exists|j: int| 0 <= j < i && 65 <= #[trigger] bytes@[j] <= 90,
        decreases bytes@.len() - i,
    {
        let byte: u8 = bytes[i];
        if byte < 33 || byte > 126 {
            assert(!printable(bytes@[i as int]));
            return Err(DecodeError::NonPrintable);
        }
        if 97 <= byte && byte <= 122 {
            has_lower = true;
        }
        if 65 <= byte && byte <= 90 {
            has_upper = true;
        }
        i = i + 1;
    }
    if has_lower && has_upper {
        return Err(DecodeError::MixedCase);
    }
    let lower: Vec<u8> = text::to_lower(bytes);
    assert(text::all_ascii(lower@)) by {
        assert forall|j: int| 0 <= j < lower@.len() implies #[trigger] lower@[j] < 128 by {
            assert(printable(bytes@[j]));
        }
    }
    let at: usize = match find_separator(lower.as_slice()) {
        Some(p) => p,
        None => return Err(DecodeError::MissingSeparator),
    };
    if at < 1 {
        return Err(DecodeError::EmptyHrp);
    }
    if lower.len() - at - 1 < 6 {
        return Err(DecodeError::ChecksumTooShort);
    }
    let mut hrp_bytes: Vec<u8> = Vec::new();
    wire::append_bytes(&mut hrp_bytes, slice_subrange(lower.as_slice(), 0, at));
    assert(hrp_bytes@ =~= lower@.take(at as int));
    let ghost prefix = hrp_bytes@;
    assert(text::all_ascii(prefix));
    let hrp: String = text::ascii_string(hrp_bytes);
    let symbols: &[u8] = slice_subrange(lower.as_slice(), at + 1, lower.len());
    assert(symbols@ =~= lower@.skip(at + 1));
    assert(text::all_ascii(symbols@));
    let data: Vec<u8> = match read_symbols(symbols) {
        Ok(d) => d,
        Err(e) => return Err(e),
    };
    proof {
        text::lemma_ascii_encoding(prefix);
    }
    if !verify_checksum(hrp.as_str(), data.as_slice()) {
        return Err(DecodeError::ChecksumFailed);
    }
    let groups: &[u8] = slice_subrange(data.as_slice(), 0, data.len() - 6);
    assert(groups@ =~= symbol_values(symbols@).take(data@.len() - 6));
    proof {
        assert forall|j: int| 0 <= j < groups@.len() implies #[trigger] groups@[j] < 32 by {
            assert(data@[j] < 32);
        }
        lemma_fit_five(groups@);
    }
    match convert_bits(groups, 5, 8, false) {
        Ok(payload) => Ok((hrp, payload)),
        Err(e) => Err(e),
    }
}

/// The data symbols of five-bit values.
pub open spec fn symbols_of(values: Seq<u8>) -> Seq<u8> {
    Seq::new(values.len(), |i: int| symbol_at(values[i]) as u8)
}

/// The five-bit groups of a payload, the last one filled up with zeros.
pub open spec fn payload_groups(payload: Seq<u8>) -> Seq<u8> {
    bit_groups::regrouped(payload, 8, 5, bit_groups::padded_count(payload.len() * 8, 5))
}

/// The bytes of the Bech32 text of a lower-case prefix and a payload.
pub open spec fn encoded_bytes(hrp: Seq<u8>, payload: Seq<u8>) -> Seq<u8> {
    let data = payload_groups(payload);
    hrp + seq![49u8] + symbols_of(data + checksum_of(hrp, data))
}

/// The Bech32 text of a prefix and a payload, or the reason to refuse the
/// prefix.
pub open spec fn bech32_encoded(hrp: Seq<char>, payload: Seq<u8>) -> Result<
    Seq<char>,
    DecodeErrorView,
> {
    let bytes = utf8::encode_utf8(hrp);
    if bytes.len() == 0 {
        Err(DecodeErrorView::EmptyHrp)
    } else if exists|i: int| 0 <= i < bytes.len() && !printable(#[trigger] bytes[i]) {
        Err(DecodeErrorView::NonPrintable)
    } else {
        Ok(text::ascii_chars(encoded_bytes(text::lower_bytes(bytes), payload)))
    }
}

/// What a Bech32 text looks like: the prefix in lower case, a `1`, one symbol for
/// every five bits of the payload, the last one filled up with zeros, and six
/// symbols of checksum. Each bit of the payload, counted from the highest bit of
/// its first byte on, is the bit of the symbols with the same number.
pub proof fn lemma_text_spells_the_payload(hrp: Seq<u8>, payload: Seq<u8>, j: int, k: int)
    ensures
        ({
            let n = hrp.len() as int;
            let groups = payload_groups(payload);
            let bytes = encoded_bytes(hrp, payload);
            &&& groups.len() == (8 * payload.len() + 4) / 5
            &&& bytes.len() == n + 1 + groups.len() + 6
            &&& bytes.take(n) == hrp
            &&& bytes[n] == 49
            &&& 0 <= j < groups.len() ==> groups[j] < 32 && bytes[n + 1 + j] as char
                == "qpzry9x8gf2tvdw0s3jn54khce6mua7l"@[groups[j] as int]
            &&& 0 <= k < 8 * payload.len() ==> ((groups[k / 5] as u32) >> ((4 - k % 5) as u32)) & 1
                == ((payload[k / 8] as u32) >> ((7 - k % 8) as u32)) & 1
        }),
{
    let n = hrp.len() as int;
    let groups = payload_groups(payload);
    let bytes = encoded_bytes(hrp, payload);
    lemma_bytes_fit(payload);
    bit_groups::lemma_split_then_join(payload, 8, 5);
    lemma_five_bits(groups);
    lemma_checksum_valid(hrp, groups);
    assert(bytes.take(n) =~= hrp);
    if 0 <= j < groups.len() {
        lemma_symbol_bytes(groups[j]);
        lemma_symbols_in_order(groups[j]);
    }
    if 0 <= k < 8 * payload.len() {
        bit_groups::lemma_regrouping_keeps_every_bit(
            payload,
            8,
            5,
            bit_groups::padded_count(payload.len() * 8, 5),
            k,
        );
    }
}

/// A text in which one data symbol was changed is refused.
pub proof fn lemma_one_wrong_symbol_is_refused(hrp: Seq<u8>, symbols: Seq<u8>, i: int, wrong: u8)
    requires
        decoded_parts(hrp, symbols) is Ok,
        text::all_ascii(symbols),
        0 <= i < symbols.len(),
        wrong < 128,
        wrong != symbols[i],
    ensures
        decoded_parts(hrp, symbols.update(i, wrong)) is Err,
{
    let changed = symbols.update(i, wrong);
    let data = symbol_values(symbols);
    lemma_symbols_written_back(symbols);
    if first_foreign(changed) is None {
        lemma_symbols_written_back(changed);
        let other = symbol_values(changed);
        assert(data[i] < 32 && other[i] < 32);
        assert(symbols_of(data)[i] == symbols[i]);
        assert(symbols_of(other)[i] == changed[i]);
        assert(data[i] != other[i]);
        assert(other =~= data.update(i, other[i]));
        let front = hrp_expanded(hrp);
        let values = front + data;
        assert forall|j: int| 0 <= j < values.len() implies #[trigger] values[j] < 32 by {
            if j < hrp.len() {
                let b = hrp[j];
                assert(b >> 5 < 32) by (bit_vector);
            } else if hrp.len() < j < 2 * hrp.len() + 1 {
                let b = hrp[j - hrp.len() - 1];
                assert(b & 31 < 32) by (bit_vector);
            } else if j >= front.len() {
                assert(data[j - front.len()] < 32);
            }
        }
        let at = front.len() + i;
        lemma_one_wrong_value_is_noticed(values, at as int, other[i]);
        assert(values.update(at as int, other[i]) =~= front + other);
    }
}

/// Bytes always fit in eight bits.
proof fn lemma_bytes_fit(payload: Seq<u8>)
    ensures
        bit_groups::groups_fit(payload, 8),
{
    assert forall|i: int| 0 <= i < payload.len() implies (#[trigger] payload[i] as u32) >> 8u32
        == 0 by {
        let v = payload[i] as u32;
        assert(v >> 8u32 == 0) by (bit_vector)
            requires
                v < 256,
        ;
    }
}

/// Values below 32 fit in five bits.
proof fn lemma_fit_five(values: Seq<u8>)
    requires
        forall|i: int| 0 <= i < values.len() ==> #[trigger] values[i] < 32,
    ensures
        bit_groups::groups_fit(values, 5),
{
    assert forall|i: int| 0 <= i < values.len() implies (#[trigger] values[i] as u32) >> 5u32
        == 0 by {
        let v = values[i] as u32;
        assert(v >> 5u32 == 0) by (bit_vector)
            requires
                v < 32,
        ;
    }
}

/// Values that fit in five bits are below 32.
proof fn lemma_five_bits(values: Seq<u8>)
    requires
        bit_groups::groups_fit(values, 5),
    ensures
        forall|i: int| 0 <= i < values.len() ==> #[trigger] values[i] < 32,
{
    assert forall|i: int| 0 <= i < values.len() implies #[trigger] values[i] < 32 by {
        let v = values[i] as u32;
        assert(v < 32) by (bit_vector)
            requires
                v >> 5u32 == 0,
        ;
    }
}

/// Every data symbol is a printable byte, in lower case and not the separator.
proof fn lemma_symbol_bytes(v: u8)
    requires
        v < 32,
    ensures
        ({
            let b = symbol_at(v) as u8;
            &&& printable(b)
            &&& b as char == symbol_at(v)
            &&& b != 49
            &&& !(65 <= b <= 90)
        }),
{
}

/// Writes values as data symbols.
fn write_symbols(out: &mut Vec<u8>, values: &[u8])
    requires
        forall|i: int| 0 <= i < values@.len() ==> #[trigger] values@[i] < 32,
        text::all_ascii(old(out)@),
    ensures
        final(out)@ == old(out)@ + symbols_of(values@),
        text::all_ascii(final(out)@),
{
    let ghost before = out@;
    let mut i: usize = 0;
    while i < values.len()
        invariant
            i <= values@.len(),
            forall|j: int| 0 <= j < values@.len() ==> #[trigger] values@[j] < 32,
            out@ =~= before + symbols_of(values@.take(i as int)),
            text::all_ascii(out@),
        decreases values@.len() - i,
    {
        proof {
            lemma_symbol_bytes(values@[i as int]);
        }
        if let Some(c) = value_to_char(values[i]) {
            out.push(c as u8);
        }
        i = i + 1;
    }
    assert(values@.take(i as int) =~= values@);
}

/// The Bech32 text of a prefix, put in lower case, and a payload.
pub fn bech32_encode(hrp: &str, payload: &[u8]) -> (encoded: Result<String, DecodeError>)
    ensures
        match encoded {
            Ok(t) => bech32_encoded(hrp@, payload@) == Ok::<_, DecodeErrorView>(t@),
            Err(e) => bech32_encoded(hrp@, payload@) == Err::<Seq<char>, _>(e@),
        },
{
    let bytes: &[u8] = hrp.as_bytes();
    if bytes.len() == 0 {
        return Err(DecodeError::EmptyHrp);
    }
    let mut i: usize = 0;
    while i < bytes.len()
        invariant
            i <= bytes@.len(),
            bytes@ == utf8::encode_utf8(hrp@),
            bytes@.len() > 0,
            forall|j: int| 0 <= j < i ==> printable(#[trigger] bytes@[j]),
        decreases bytes@.len() - i,
    {
        if bytes[i] < 33 || bytes[i] > 126 {
            assert(!printable(bytes@[i as int]));
            return Err(DecodeError::NonPrintable);
        }
        i = i + 1;
    }
    let lower: Vec<u8> = text::to_lower(bytes);
    let mut out: Vec<u8> = Vec::new();
    wire::append_bytes(&mut out, lower.as_slice());
    assert(text::all_ascii(lower@)) by {
        assert forall|j: int| 0 <= j < lower@.len() implies #[trigger] lower@[j] < 128 by {
            assert(printable(bytes@[j]));
        }
    }
    let ghost prefix = lower@;
    assert(out@ =~= prefix);
    out.push(49);
    let lower_hrp: String = text::ascii_string(lower);
    proof {
        text::lemma_ascii_encoding(prefix);
        lemma_bytes_fit(payload@);
    }
    let data: Vec<u8> = match convert_bits(payload, 8, 5, true) {
        Ok(d) => d,
        Err(e) => return Err(e),
    };
    let checksum: Vec<u8> = create_checksum(lower_hrp.as_str(), data.as_slice());
    proof {
        bit_groups::lemma_split_then_join(payload@, 8, 5);
        lemma_five_bits(data@);
        lemma_checksum_valid(prefix, data@);
    }
    let mut values: Vec<u8> = data;
    wire::append_bytes(&mut values, checksum.as_slice());
    write_symbols(&mut out, values.as_slice());
    assert(out@ =~= encoded_bytes(prefix, payload@));
    Ok(text::ascii_string(out))
}

/// A stretch without a `1` behind a `1` leaves the separator at that `1`.
proof fn lemma_separator(head: Seq<u8>, tail: Seq<u8>)
    requires
        forall|i: int| 0 <= i < tail.len() ==> #[trigger] tail[i] != 49,
    ensures
        separator(head + seq![49u8] + tail) == Some(head.len() as int),
    decreases tail.len(),
{
    let all = head + seq![49u8] + tail;
    if tail.len() > 0 {
        lemma_separator(head, tail.drop_last());
        assert(all.drop_last() =~= head + seq![49u8] + tail.drop_last());
    }
}

/// Symbols of values are no foreign bytes, and denote the values.
proof fn lemma_symbols_read_back(values: Seq<u8>)
    requires
        forall|i: int| 0 <= i < values.len() ==> #[trigger] values[i] < 32,
    ensures
        first_foreign(symbols_of(values)) is None,
        symbol_values(symbols_of(values)) == values,
    decreases values.len(),
{
    let symbols = symbols_of(values);
    assert forall|i: int| 0 <= i < values.len() implies #[trigger] symbol_values(symbols)[i]
        == values[i] && symbol_value(symbols[i] as char) is Some by {
        lemma_symbol_bytes(values[i]);
        lemma_symbol_round_trip(values[i]);
    }
    assert(symbol_values(symbols) =~= values);
    if values.len() > 0 {
        assert(symbol_values(symbols)[0] == values[0]);
        lemma_symbols_read_back(values.skip(1));
        assert(symbols.skip(1) =~= symbols_of(values.skip(1)));
    }
}

/// Decoding an encoded prefix and payload gives them back, the prefix in lower
/// case.
pub proof fn lemma_decode_of_encode(hrp: Seq<char>, payload: Seq<u8>)
    requires
        bech32_encoded(hrp, payload) is Ok,
    ensures
        bech32_decoded(bech32_encoded(hrp, payload)->Ok_0) == Ok::<_, DecodeErrorView>(
            (text::ascii_chars(text::lower_bytes(utf8::encode_utf8(hrp))), payload),
        ),
{
    let raw = utf8::encode_utf8(hrp);
    let prefix = text::lower_bytes(raw);
    let data = payload_groups(payload);
    let checksum = checksum_of(prefix, data);
    let values = data + checksum;
    let bytes = encoded_bytes(prefix, payload);
    lemma_bytes_fit(payload);
    bit_groups::lemma_split_then_join(payload, 8, 5);
    lemma_five_bits(data);
    lemma_checksum_valid(prefix, data);
    assert forall|i: int| 0 <= i < values.len() implies #[trigger] values[i] < 32 by {
        if i >= data.len() {
            assert(checksum[i - data.len()] < 32);
        }
    }
    let symbols = symbols_of(values);
    assert forall|i: int| 0 <= i < bytes.len() implies printable(#[trigger] bytes[i]) && !(65
        <= bytes[i] <= 90) by {
        if i < prefix.len() {
            assert(printable(raw[i]));
        } else if i > prefix.len() {
            lemma_symbol_bytes(values[i - prefix.len() - 1]);
        }
    }
    assert(text::lower_bytes(bytes) =~= bytes);
    assert forall|i: int| 0 <= i < symbols.len() implies #[trigger] symbols[i] != 49 by {
        lemma_symbol_bytes(values[i]);
    }
    lemma_separator(prefix, symbols);
    lemma_symbols_read_back(values);
    assert(bytes.take(prefix.len() as int) =~= prefix);
    assert(bytes.skip((prefix.len() + 1) as int) =~= symbols);
    assert(values.take(values.len() - 6) =~= data);
    assert(text::all_ascii(bytes)) by {
        assert forall|i: int| 0 <= i < bytes.len() implies #[trigger] bytes[i] < 128 by {
            assert(printable(bytes[i]));
        }
    }
    text::lemma_ascii_encoding(bytes);
    assert(decoded_parts(prefix, symbols) == Ok::<_, DecodeErrorView>((prefix, payload)));
}

/// Packing six five-bit values loses nothing.
proof fn lemma_packing_injective(a: Seq<u8>, b: Seq<u8>)
    requires
        a.len() == 6,
        b.len() == 6,
        forall|i: int| 0 <= i < 6 ==> #[trigger] a[i] < 32,
        forall|i: int| 0 <= i < 6 ==> #[trigger] b[i] < 32,
        packed_six(a) == packed_six(b),
    ensures
        a == b,
{
    let (a0, a1, a2) = (a[0] as u32, a[1] as u32, a[2] as u32);
    let (a3, a4, a5) = (a[3] as u32, a[4] as u32, a[5] as u32);
    let (b0, b1, b2) = (b[0] as u32, b[1] as u32, b[2] as u32);
    let (b3, b4, b5) = (b[3] as u32, b[4] as u32, b[5] as u32);
    assert(a0 == b0 && a1 == b1 && a2 == b2 && a3 == b3 && a4 == b4 && a5 == b5) by (bit_vector)
        requires
            a0 < 32 && a1 < 32 && a2 < 32 && a3 < 32 && a4 < 32 && a5 < 32,
            b0 < 32 && b1 < 32 && b2 < 32 && b3 < 32 && b4 < 32 && b5 < 32,
            ((((((((((a0 << 5) ^ a1) << 5) ^ a2) << 5) ^ a3) << 5) ^ a4) << 5) ^ a5)
                == ((((((((((b0 << 5) ^ b1) << 5) ^ b2) << 5) ^ b3) << 5) ^ b4) << 5) ^ b5),
    ;
    assert(a =~= b);
}

/// Only one checksum makes a prefix and data valid.
proof fn lemma_checksum_unique(hrp: Seq<u8>, data: Seq<u8>, c: Seq<u8>)
    requires
        forall|i: int| 0 <= i < data.len() ==> #[trigger] data[i] < 32,
        c.len() == 6,
        forall|i: int| 0 <= i < 6 ==> #[trigger] c[i] < 32,
        polymod_of(hrp_expanded(hrp) + (data + c)) == 1,
    ensures
        c == checksum_of(hrp, data),
{
    let values = hrp_expanded(hrp) + data;
    let good = checksum_of(hrp, data);
    lemma_checksum_valid(hrp, data);
    lemma_polymod_six(values, c);
    lemma_polymod_six(values, good);
    assert(values + c =~= hrp_expanded(hrp) + (data + c));
    assert(values + good =~= hrp_expanded(hrp) + (data + good));
    let z = polymod_of(values + seq![0u8, 0, 0, 0, 0, 0]);
    let (p, q) = (packed_six(c), packed_six(good));
    assert(p == q) by (bit_vector)
        requires
            z ^ p == 1,
            z ^ q == 1,
    ;
    lemma_packing_injective(c, good);
}

/// Where the separator is found, the bytes are a head, a `1`, and a tail.
proof fn lemma_separator_splits(bytes: Seq<u8>)
    ensures
        separator(bytes) matches Some(at) ==> 0 <= at < bytes.len() && bytes == bytes.take(at)
            + seq![49u8] + bytes.skip(at + 1),
    decreases bytes.len(),
{
    if bytes.len() > 0 {
        lemma_separator_splits(bytes.drop_last());
        if let Some(at) = separator(bytes) {
            if bytes.last() != 49 {
                assert(bytes.drop_last().skip(at + 1) =~= bytes.skip(at + 1).drop_last());
                assert(bytes.drop_last().take(at) =~= bytes.take(at));
                assert(bytes[at] == bytes.drop_last()[at]);
                assert(bytes.drop_last()[at] == (bytes.drop_last().take(at) + seq![49u8]
                    + bytes.drop_last().skip(at + 1))[at]);
            }
            assert(bytes =~= bytes.take(at) + seq![49u8] + bytes.skip(at + 1));
        }
    }
}

/// Without foreign bytes, symbols are what their values are written as.
proof fn lemma_symbols_written_back(symbols: Seq<u8>)
    requires
        text::all_ascii(symbols),
        first_foreign(symbols) is None,
    ensures
        symbols_of(symbol_values(symbols)) == symbols,
        forall|i: int| 0 <= i < symbols.len() ==> #[trigger] symbol_values(symbols)[i] < 32,
    decreases symbols.len(),
{
    if symbols.len() > 0 {
        let rest = symbols.skip(1);
        lemma_symbols_written_back(rest);
        assert(symbol_values(rest) =~= symbol_values(symbols).skip(1));
        assert forall|i: int| 0 <= i < symbols.len() implies #[trigger] symbol_values(symbols)[i]
            < 32 && symbols_of(symbol_values(symbols))[i] == symbols[i] by {
            if i > 0 {
                assert(symbol_values(rest)[i - 1] < 32);
                assert(symbols_of(symbol_values(rest))[i - 1] == rest[i - 1]);
            }
        }
    }
    assert(symbols_of(symbol_values(symbols)) =~= symbols);
}

/// A text that decodes is, in lower case, the text that its prefix and payload
/// encode to: each pair has one text only.
pub proof fn lemma_encode_of_decode(addr: Seq<char>)
    requires
        bech32_decoded(addr) is Ok,
    ensures
        ({
            let (hrp, payload) = bech32_decoded(addr)->Ok_0;
            bech32_encoded(hrp, payload) == Ok::<_, DecodeErrorView>(
                text::ascii_chars(text::lower_bytes(utf8::encode_utf8(addr))),
            )
        }),
{
    let bytes = utf8::encode_utf8(addr);
    let lower = text::lower_bytes(bytes);
    let at = separator(lower)->0;
    lemma_separator_splits(lower);
    let hrp = lower.take(at);
    let symbols = lower.skip(at + 1);
    let (prefix, payload) = bech32_decoded(addr)->Ok_0;
    assert forall|i: int| 0 <= i < lower.len() implies printable(#[trigger] lower[i]) by {
        assert(printable(bytes[i]));
    }
    assert(text::all_ascii(lower)) by {
        assert forall|i: int| 0 <= i < lower.len() implies #[trigger] lower[i] < 128 by {
            assert(printable(lower[i]));
        }
    }
    assert(text::all_ascii(hrp));
    assert(text::all_ascii(symbols));
    text::lemma_ascii_encoding(hrp);
    assert(prefix == text::ascii_chars(hrp));
    assert(text::lower_bytes(hrp) =~= hrp);
    assert forall|i: int| 0 <= i < hrp.len() implies printable(#[trigger] hrp[i]) by {
        assert(printable(lower[i]));
    }
    lemma_symbols_written_back(symbols);
    let data = symbol_values(symbols);
    let groups = data.take(data.len() - 6);
    let check = data.skip(data.len() - 6);
    assert(groups + check =~= data);
    assert forall|i: int| 0 <= i < groups.len() implies #[trigger] groups[i] < 32 by {
        assert(data[i] < 32);
    }
    assert forall|i: int| 0 <= i < 6 implies #[trigger] check[i] < 32 by {
        assert(data[data.len() - 6 + i] < 32);
    }
    lemma_fit_five(groups);
    lemma_checksum_unique(hrp, groups, check);
    bit_groups::lemma_join_then_split(groups, 5, 8);
    assert(payload_groups(payload) == groups);
    assert(encoded_bytes(hrp, payload) =~= lower);
}

/// The limits that a packed quota word denotes: three exponents of five bits,
/// one of four, the lifetime in tens of milliseconds in eight, and a last
/// exponent of five, whose highest value means no bound.
pub open spec fn limits_of_word(word: nat) -> Result<ApiKeyLimits, DecodeErrorView> {
    let rate_exp = word % 32;
    let latency_exp = word / 0x20 % 32;
    let labels_exp = word / 0x400 % 32;
    let buffer_exp = word / 0x8000 % 16;
    let dedup_units = word / 0x8_0000 % 256;
    let window_exp = word / 0x800_0000 % 32;
    if rate_exp > 24 || latency_exp > 24 || !(1 <= dedup_units <= 200) {
        Err(DecodeErrorView::InvalidPackedQuota)
    } else {
        Ok(
            ApiKeyLimits {
                rate_buckets_max: power2::pow2(rate_exp) as u32,
                latency_services_max: power2::pow2(latency_exp) as u32,
                metrics_labels_max: power2::pow2(labels_exp) as u32,
                latency_buffer_size_max: power2::pow2(buffer_exp) as u32,
                dedup_ttl_ms_max: (dedup_units * 10) as u32,
                rate_window_size_ms_max: if window_exp == 31 {
                    u32::MAX
                } else {
                    power2::pow2(window_exp) as u32
                },
            },
        )
    }
}

/// A number written as a digit and what stands above it.
proof fn lemma_low_digit(value: nat, base: nat, low: nat, high: nat)
    requires
        low < base,
        value == low + base * high,
    ensures
        value % base == low,
        value / base == high,
{
    assert(base * high == high * base) by (nonlinear_arith);
    div_mod::lemma_fundamental_div_mod_converse(
        value as int,
        base as int,
        high as int,
        low as int,
    );
}

/// The numbers of a quota word are found where they were put.
#[verifier::spinoff_prover]
proof fn lemma_unpacked(
    rate: nat,
    latency: nat,
    labels: nat,
    buffer: nat,
    dedup: nat,
    window: nat,
)
    requires
        rate < 32,
        latency < 32,
        labels < 32,
        buffer < 16,
        dedup < 256,
        window < 32,
    ensures
        ({
            let word = rate + 0x20 * latency + 0x400 * labels + 0x8000 * buffer + 0x8_0000 * dedup
                + 0x800_0000 * window;
            &&& word % 32 == rate
            &&& word / 0x20 % 32 == latency
            &&& word / 0x400 % 32 == labels
            &&& word / 0x8000 % 16 == buffer
            &&& word / 0x8_0000 % 256 == dedup
            &&& word / 0x800_0000 % 32 == window
        }),
{
    let w5 = window;
    let w4 = dedup + 256 * w5;
    let w3 = buffer + 16 * w4;
    let w2 = labels + 32 * w3;
    let w1 = latency + 32 * w2;
    let word = rate + 32 * w1;
    lemma_low_digit(word, 32, rate, w1);
    lemma_low_digit(w1, 32, latency, w2);
    lemma_low_digit(w2, 32, labels, w3);
    lemma_low_digit(w3, 16, buffer, w4);
    lemma_low_digit(w4, 256, dedup, w5);
    div_mod::lemma_div_denominator(word as int, 0x20, 0x20);
    div_mod::lemma_div_denominator(word as int, 0x400, 0x20);
    div_mod::lemma_div_denominator(word as int, 0x8000, 0x10);
    div_mod::lemma_div_denominator(word as int, 0x8_0000, 0x100);
}

/// What a quota word says, number by number: exponents of two for the rate
/// counters, the latency trackers, the labels and the storage, tens of
/// milliseconds for the lifetime, and an exponent of two for the window, of
/// which the highest means no bound. Exponents beyond 24 for counters or
/// trackers, and a lifetime of nothing or of more than two seconds, are refused.
#[verifier::spinoff_prover]
pub proof fn lemma_limits_of_packed_numbers(
    rate: nat,
    latency: nat,
    labels: nat,
    buffer: nat,
    dedup: nat,
    window: nat,
)
    requires
        rate < 32,
        latency < 32,
        labels < 32,
        buffer < 16,
        dedup < 256,
        window < 32,
    ensures
        ({
            let word = rate + 0x20 * latency + 0x400 * labels + 0x8000 * buffer + 0x8_0000 * dedup
                + 0x800_0000 * window;
            &&& rate > 24 || latency > 24 || dedup < 1 || dedup > 200 ==> (limits_of_word(
                word,
            ) matches Err(e) && e is InvalidPackedQuota)
            &&& rate <= 24 && latency <= 24 && 1 <= dedup <= 200 ==> (limits_of_word(
                word,
            ) matches Ok(limits) && {
                &&& limits.rate_buckets_max == power2::pow2(rate)
                &&& limits.latency_services_max == power2::pow2(latency)
                &&& limits.metrics_labels_max == power2::pow2(labels)
                &&& limits.latency_buffer_size_max == power2::pow2(buffer)
                &&& limits.dedup_ttl_ms_max == 10 * dedup
                &&& window == 31 ==> limits.rate_window_size_ms_max == u32::MAX
                &&& window < 31 ==> limits.rate_window_size_ms_max == power2::pow2(window)
            })
        }),
{
    let word = rate + 0x20 * latency + 0x400 * labels + 0x8000 * buffer + 0x8_0000 * dedup
        + 0x800_0000 * window;
    lemma_unpacked(rate, latency, labels, buffer, dedup, window);
    bits::lemma_u32_pow2_no_overflow(rate);
    bits::lemma_u32_pow2_no_overflow(latency);
    bits::lemma_u32_pow2_no_overflow(labels);
    bits::lemma_u32_pow2_no_overflow(buffer);
    bits::lemma_u32_pow2_no_overflow(window);
}

/// `2` to the power `exp`.
fn power_of_two(exp: u32) -> (value: u32)
    requires
        exp < 32,
    ensures
        value == power2::pow2(exp as nat) as u32,
{
    proof {
        bits::lemma_u32_pow2_no_overflow(exp as nat);
        bits::lemma_u32_shl_is_mul(1, exp);
    }
    1u32 << exp
}

/// Reads the packed quota word at `offset`.
pub fn limits_from_payload(payload: &[u8], offset: usize) -> (limits: Result<
    ApiKeyLimits,
    DecodeError,
>)
    requires
        offset + 4 <= payload.len(),
    ensures
        match limits {
            Ok(l) => limits_of_word(wire::le_field(payload@, offset as int, 4)) == Ok::<
                _,
                DecodeErrorView,
            >(l),
            Err(e) => limits_of_word(wire::le_field(payload@, offset as int, 4)) == Err::<
                ApiKeyLimits,
                _,
            >(e@),
        },
{
    let word: u32 = wire::read_u32(payload, offset);
    let rate_exp: u32 = word % 32;
    let latency_exp: u32 = word / 0x20 % 32;
    let labels_exp: u32 = word / 0x400 % 32;
    let buffer_exp: u32 = word / 0x8000 % 16;
    let dedup_units: u32 = word / 0x8_0000 % 256;
    let window_exp: u32 = word / 0x800_0000 % 32;
    if rate_exp > 24 || latency_exp > 24 || dedup_units < 1 || dedup_units > 200 {
        return Err(DecodeError::InvalidPackedQuota);
    }
    Ok(
        ApiKeyLimits {
            rate_buckets_max: power_of_two(rate_exp),
            latency_services_max: power_of_two(latency_exp),
            metrics_labels_max: power_of_two(labels_exp),
            latency_buffer_size_max: power_of_two(buffer_exp),
            dedup_ttl_ms_max: dedup_units * 10,
            rate_window_size_ms_max: if window_exp == 31 {
                u32::MAX
            } else {
                power_of_two(window_exp)
            },
        },
    )
}

/// The key of a versioned payload: version, identifier, `secret_len` bytes of
/// authentication material, quota word.
pub open spec fn versioned_key(hrp: Seq<char>, payload: Seq<u8>, secret_len: int) -> Result<
    DecodedApiKeyView,
    DecodeErrorView,
> {
    if payload.len() != 13 + secret_len {
        Err(
            DecodeErrorView::InvalidPayloadLength {
                auth_method: hrp.skip(3),
                expected: 13 + secret_len,
                actual: payload.len() as int,
            },
        )
    } else if payload[0] != FORMAT_VERSION {
        Err(DecodeErrorView::UnsupportedFormatVersion(payload[0]))
    } else {
        match limits_of_word(wire::le_field(payload, 9 + secret_len, 4)) {
            Ok(limits) => Ok(
                DecodedApiKeyView {
                    hrp,
                    auth_method: hrp.skip(3),
                    format_version: FORMAT_VERSION,
                    key_id: wire::le_field(payload, 1, 8) as u64,
                    auth_secret: payload.subrange(9, 9 + secret_len),
                    limits: Some(limits),
                },
            ),
            Err(e) => Err(e),
        }
    }
}

/// The key that a prefix and a payload denote.
pub open spec fn key_of_parts(hrp: Seq<char>, payload: Seq<u8>) -> Result<
    DecodedApiKeyView,
    DecodeErrorView,
> {
    let auth_method = hrp.skip(3);
    if !("rl-"@.is_prefix_of(hrp)) {
        Err(DecodeErrorView::InvalidHrpPrefix)
    } else if auth_method == "secret"@ {
        if payload.len() != 32 {
            Err(
                DecodeErrorView::InvalidPayloadLength {
                    auth_method,
                    expected: 32,
                    actual: payload.len() as int,
                },
            )
        } else {
            Ok(
                DecodedApiKeyView {
                    hrp,
                    auth_method,
                    format_version: 0,
                    key_id: 0,
                    auth_secret: payload,
                    limits: None,
                },
            )
        }
    } else if auth_method == "none"@ {
        versioned_key(hrp, payload, 0)
    } else if auth_method == "cookie"@ || auth_method == "aes"@ {
        versioned_key(hrp, payload, 32)
    } else {
        Err(DecodeErrorView::UnsupportedAuthMethod(auth_method))
    }
}

/// The key that an encoded text denotes, or the first reason to refuse it.
pub open spec fn decoded_api_key(encoded: Seq<char>) -> Result<DecodedApiKeyView, DecodeErrorView> {
    match bech32_decoded(encoded) {
        Ok((hrp, payload)) => key_of_parts(hrp, payload),
        Err(e) => Err(e),
    }
}

/// The key that the text of a prefix and a payload denotes is the key that
/// they denote themselves.
pub proof fn lemma_key_of_encoded(hrp: Seq<char>, payload: Seq<u8>)
    requires
        bech32_encoded(hrp, payload) is Ok,
    ensures
        decoded_api_key(bech32_encoded(hrp, payload)->Ok_0) == key_of_parts(
            text::ascii_chars(text::lower_bytes(utf8::encode_utf8(hrp))),
            payload,
        ),
{
    lemma_decode_of_encode(hrp, payload);
}

/// Whether `outcome` is what `expected` says, by content.
pub open spec fn is_outcome(
    outcome: Result<DecodedApiKey, DecodeError>,
    expected: Result<DecodedApiKeyView, DecodeErrorView>,
) -> bool {
    match outcome {
        Ok(key) => expected == Ok::<_, DecodeErrorView>(key@),
        Err(e) => expected == Err::<DecodedApiKeyView, _>(e@),
    }
}

/// Reads a versioned payload.
fn read_versioned_key(
    hrp: String,
    auth_method: String,
    payload: Vec<u8>,
    secret_len: usize,
) -> (key: Result<DecodedApiKey, DecodeError>)
    requires
        hrp@.len() >= 3,
        auth_method@ == hrp@.skip(3),
        secret_len <= 32,
    ensures
        is_outcome(key, versioned_key(hrp@, payload@, secret_len as int)),
{
    if payload.len() != 13 + secret_len {
        return Err(
            DecodeError::InvalidPayloadLength {
                auth_method,
                expected: 13 + secret_len,
                actual: payload.len(),
            },
        );
    }
    if payload[0] != FORMAT_VERSION {
        return Err(DecodeError::UnsupportedFormatVersion(payload[0]));
    }
    let key_id: u64 = wire::read_u64(payload.as_slice(), 1);
    let mut auth_secret: Vec<u8> = Vec::new();
    wire::append_bytes(&mut auth_secret, slice_subrange(payload.as_slice(), 9, 9 + secret_len));
    assert(auth_secret@ =~= payload@.subrange(9, 9 + secret_len));
    match limits_from_payload(payload.as_slice(), 9 + secret_len) {
        Ok(limits) => Ok(
            DecodedApiKey {
                hrp,
                auth_method,
                format_version: FORMAT_VERSION,
                key_id,
                auth_secret,
                limits: Some(limits),
            },
        ),
        Err(e) => Err(e),
    }
}

/// The text behind the first three characters, if those are `rl-`.
fn strip_prefix(hrp: &str) -> (rest: Option<String>)
    requires
        utf8::is_ascii_chars(hrp@),
    ensures
        match rest {
            Some(r) => "rl-"@.is_prefix_of(hrp@) && r@ == hrp@.skip(3),
            None => !("rl-"@.is_prefix_of(hrp@)),
        },
{
    let bytes: &[u8] = hrp.as_bytes();
    proof {
        reveal_strlit("rl-");
        utf8::is_ascii_chars_encode_utf8(hrp@);
        assert("rl-"@ =~= seq!['r', 'l', '-']);
    }
    if bytes.len() < 3 || bytes[0] != 114 || bytes[1] != 108 || bytes[2] != 45 {
        assert(!("rl-"@.is_prefix_of(hrp@))) by {
            if "rl-"@.is_prefix_of(hrp@) {
                assert(hrp@[0] == "rl-"@[0] && hrp@[1] == "rl-"@[1] && hrp@[2] == "rl-"@[2]);
            }
        }
        return None;
    }
    let mut rest: Vec<u8> = Vec::new();
    wire::append_bytes(&mut rest, slice_subrange(bytes, 3, bytes.len()));
    assert(text::all_ascii(rest@)) by {
        assert forall|i: int| 0 <= i < rest@.len() implies #[trigger] rest@[i] < 128 by {
            assert(hrp@[i + 3] <= '\u{7f}');
        }
    }
    assert(text::ascii_chars(rest@) =~= hrp@.skip(3)) by {
        assert forall|i: int| 0 <= i < rest@.len() implies text::ascii_chars(rest@)[i]
            == hrp@.skip(3)[i] by {
            assert(hrp@[i + 3] <= '\u{7f}');
        }
    }
    assert("rl-"@ =~= hrp@.take(3));
    Some(text::ascii_string(rest))
}

/// Reads the key that a prefix and a payload denote.
fn key_from_parts(hrp: String, payload: Vec<u8>) -> (key: Result<DecodedApiKey, DecodeError>)
    requires
        utf8::is_ascii_chars(hrp@),
    ensures
        is_outcome(key, key_of_parts(hrp@, payload@)),
{
    let auth_method: String = match strip_prefix(hrp.as_str()) {
        Some(m) => m,
        None => return Err(DecodeError::InvalidHrpPrefix),
    };
    proof {
        reveal_strlit("rl-");
    }
    if text::same_text(auth_method.as_str(), "secret") {
        if payload.len() != 32 {
            return Err(
                DecodeError::InvalidPayloadLength {
                    auth_method,
                    expected: 32,
                    actual: payload.len(),
                },
            );
        }
        Ok(
            DecodedApiKey {
                hrp,
                auth_method,
                format_version: 0,
                key_id: 0,
                auth_secret: payload,
                limits: None,
            },
        )
    } else if text::same_text(auth_method.as_str(), "none") {
        read_versioned_key(hrp, auth_method, payload, 0)
    } else if text::same_text(auth_method.as_str(), "cookie") || text::same_text(
        auth_method.as_str(),
        "aes",
    ) {
        read_versioned_key(hrp, auth_method, payload, 32)
    } else {
        Err(DecodeError::UnsupportedAuthMethod(auth_method))
    }
}

/// Reads an encoded API key.
pub fn decode_api_key(encoded: &str) -> (key: Result<DecodedApiKey, DecodeError>)
    ensures
        is_outcome(key, decoded_api_key(encoded@)),
{
    match bech32_decode(encoded) {
        Ok(parts) => {
            proof {
                lemma_decoded_prefix_ascii(encoded@);
            }
            key_from_parts(parts.0, parts.1)
        },
        Err(e) => Err(e),
    }
}

/// The payload that a key is issued with: format version one, the identifier in
/// eight bytes, the secret, the quota word in four bytes.
pub open spec fn issued_payload(key_id: u64, secret: Seq<u8>, word: u32) -> Seq<u8> {
    seq![1u8] + wire::le_bytes(key_id as nat, 8) + secret + wire::le_bytes(word as nat, 4)
}

/// Where the parts of an issued payload stand.
proof fn lemma_issued_payload(key_id: u64, secret: Seq<u8>, word: u32)
    ensures
        ({
            let payload = issued_payload(key_id, secret, word);
            let n = secret.len() as int;
            &&& payload.len() == 13 + n
            &&& payload[0] == 1
            &&& wire::le_field(payload, 1, 8) == key_id
            &&& payload.subrange(9, 9 + n) == secret
            &&& wire::le_field(payload, 9 + n, 4) == word
        }),
{
    let payload = issued_payload(key_id, secret, word);
    let n = secret.len() as int;
    wire::lemma_byte_ranges();
    wire::lemma_le_bytes_len(key_id as nat, 8);
    wire::lemma_le_bytes_len(word as nat, 4);
    assert(payload.subrange(1, 9) =~= wire::le_bytes(key_id as nat, 8));
    assert(payload.subrange(9, 9 + n) =~= secret);
    assert(payload.subrange(9 + n, 13 + n) =~= wire::le_bytes(word as nat, 4));
    wire::lemma_le_round_trip(key_id as nat, 8);
    wire::lemma_le_round_trip(word as nat, 4);
}

/// A prefix of lower-case ASCII letters and hyphens is encoded, and read, as it
/// is.
proof fn lemma_plain_prefix(hrp: Seq<char>, payload: Seq<u8>)
    requires
        hrp.len() > 0,
        forall|i: int| 0 <= i < hrp.len() ==> #[trigger] hrp[i] == '-' || 'a' <= hrp[i] <= 'z',
    ensures
        bech32_encoded(hrp, payload) is Ok,
        decoded_api_key(bech32_encoded(hrp, payload)->Ok_0) == key_of_parts(hrp, payload),
{
    assert(utf8::is_ascii_chars(hrp)) by {
        assert forall|i: int| 0 <= i < hrp.len() implies '\0' <= #[trigger] hrp[i] <= '\u{7f}' by {}
    }
    utf8::is_ascii_chars_encode_utf8(hrp);
    let bytes = utf8::encode_utf8(hrp);
    assert forall|i: int| 0 <= i < bytes.len() implies printable(#[trigger] bytes[i])
        && text::lower_byte(bytes[i]) == bytes[i] && bytes[i] as char == hrp[i] by {
        assert(hrp[i] == '-' || 'a' <= hrp[i] <= 'z');
    }
    assert(text::ascii_chars(text::lower_bytes(bytes)) =~= hrp);
    lemma_key_of_encoded(hrp, payload);
}

/// The four kinds of key, by prefix.
proof fn lemma_prefixes()
    ensures
        "rl-cookie"@ == "rl-"@ + "cookie"@,
        "rl-aes"@ == "rl-"@ + "aes"@,
        "rl-none"@ == "rl-"@ + "none"@,
        "rl-secret"@ == "rl-"@ + "secret"@,
        "rl-"@.len() == 3,
        "cookie"@ != "secret"@ && "cookie"@ != "none"@ && "cookie"@ != "aes"@,
        "aes"@ != "secret"@ && "aes"@ != "none"@,
        "none"@ != "secret"@,
        forall|i: int|
            0 <= i < "rl-cookie"@.len() ==> #[trigger] "rl-cookie"@[i] == '-' || 'a'
                <= "rl-cookie"@[i] <= 'z',
        forall|i: int|
            0 <= i < "rl-aes"@.len() ==> #[trigger] "rl-aes"@[i] == '-' || 'a' <= "rl-aes"@[i]
                <= 'z',
        forall|i: int|
            0 <= i < "rl-none"@.len() ==> #[trigger] "rl-none"@[i] == '-' || 'a' <= "rl-none"@[i]
                <= 'z',
        forall|i: int|
            0 <= i < "rl-secret"@.len() ==> #[trigger] "rl-secret"@[i] == '-' || 'a'
                <= "rl-secret"@[i] <= 'z',
{
    reveal_strlit("rl-");
    reveal_strlit("cookie");
    reveal_strlit("aes");
    reveal_strlit("none");
    reveal_strlit("secret");
    reveal_strlit("rl-cookie");
    reveal_strlit("rl-aes");
    reveal_strlit("rl-none");
    reveal_strlit("rl-secret");
    assert("rl-cookie"@ =~= "rl-"@ + "cookie"@);
    assert("rl-aes"@ =~= "rl-"@ + "aes"@);
    assert("rl-none"@ =~= "rl-"@ + "none"@);
    assert("rl-secret"@ =~= "rl-"@ + "secret"@);
    assert("cookie"@[0] == 'c' && "secret"@[0] == 's');
}

/// What follows `rl-` is the method.
proof fn lemma_method_of_prefix(method: Seq<char>)
    ensures
        "rl-"@.is_prefix_of("rl-"@ + method),
        ("rl-"@ + method).skip(3) == method,
{
    reveal_strlit("rl-");
    let hrp = "rl-"@ + method;
    assert(hrp.skip(3) =~= method);
    assert(hrp.take(3) =~= "rl-"@);
}

/// An issued payload is read part by part.
proof fn lemma_issued_parts(hrp: Seq<char>, key_id: u64, secret: Seq<u8>, word: u32)
    requires
        limits_of_word(word as nat) is Ok,
    ensures
        versioned_key(hrp, issued_payload(key_id, secret, word), secret.len() as int) matches Ok(key)
            && {
            &&& key.hrp == hrp
            &&& key.auth_method == hrp.skip(3)
            &&& key.format_version == 1
            &&& key.key_id == key_id
            &&& key.auth_secret == secret
            &&& key.limits == Some(limits_of_word(word as nat)->Ok_0)
        },
{
    lemma_issued_payload(key_id, secret, word);
}

/// An issued key with a secret is read as it was issued: the text of its prefix
/// and payload decodes to the same identifier, to the secret byte by byte and
/// in order, and to the limits of its quota word.
pub proof fn lemma_issued_key_is_read(key_id: u64, secret: Seq<u8>, word: u32)
    requires
        secret.len() == 32,
        limits_of_word(word as nat) is Ok,
    ensures
        ({
            let payload = issued_payload(key_id, secret, word);
            &&& bech32_encoded("rl-cookie"@, payload) matches Ok(encoded) && (decoded_api_key(
                encoded,
            ) matches Ok(key) && {
                &&& key.hrp == "rl-cookie"@
                &&& key.auth_method == "cookie"@
                &&& key.format_version == 1
                &&& key.key_id == key_id
                &&& key.auth_secret == secret
                &&& key.limits == Some(limits_of_word(word as nat)->Ok_0)
            })
            &&& bech32_encoded("rl-aes"@, payload) matches Ok(encoded) && (decoded_api_key(
                encoded,
            ) matches Ok(key) && {
                &&& key.hrp == "rl-aes"@
                &&& key.auth_method == "aes"@
                &&& key.format_version == 1
                &&& key.key_id == key_id
                &&& key.auth_secret == secret
                &&& key.limits == Some(limits_of_word(word as nat)->Ok_0)
            })
        }),
{
    let payload = issued_payload(key_id, secret, word);
    lemma_issued_parts("rl-cookie"@, key_id, secret, word);
    lemma_issued_parts("rl-aes"@, key_id, secret, word);
    lemma_prefixes();
    lemma_method_of_prefix("cookie"@);
    lemma_method_of_prefix("aes"@);
    lemma_plain_prefix("rl-cookie"@, payload);
    lemma_plain_prefix("rl-aes"@, payload);
}

/// An issued key without a secret is read as it was issued.
pub proof fn lemma_issued_key_without_secret_is_read(key_id: u64, word: u32)
    requires
        limits_of_word(word as nat) is Ok,
    ensures
        bech32_encoded("rl-none"@, issued_payload(key_id, Seq::empty(), word)) matches Ok(encoded)
            && (decoded_api_key(encoded) matches Ok(key) && {
            &&& key.hrp == "rl-none"@
            &&& key.auth_method == "none"@
            &&& key.format_version == 1
            &&& key.key_id == key_id
            &&& key.auth_secret.len() == 0
            &&& key.limits == Some(limits_of_word(word as nat)->Ok_0)
        }),
{
    let payload = issued_payload(key_id, Seq::empty(), word);
    lemma_issued_parts("rl-none"@, key_id, Seq::empty(), word);
    lemma_prefixes();
    lemma_method_of_prefix("none"@);
    lemma_plain_prefix("rl-none"@, payload);
}

/// A bare secret is read as its 32 bytes, in order, with neither identifier nor
/// limits.
pub proof fn lemma_bare_secret_is_read(secret: Seq<u8>)
    requires
        secret.len() == 32,
    ensures
        bech32_encoded("rl-secret"@, secret) matches Ok(encoded) && (decoded_api_key(
            encoded,
        ) matches Ok(key) && {
            &&& key.hrp == "rl-secret"@
            &&& key.auth_method == "secret"@
            &&& key.format_version == 0
            &&& key.key_id == 0
            &&& key.auth_secret == secret
            &&& key.limits is None
        }),
{
    lemma_prefixes();
    lemma_method_of_prefix("secret"@);
    lemma_plain_prefix("rl-secret"@, secret);
}

/// Why a well-encoded text is still no key: its prefix does not begin with
/// `rl-`, or names no method; the payload does not have the length that the
/// method asks for; its format version is not one; its quota word is invalid.
/// The first of these that holds is the reason.
pub proof fn lemma_refused_keys(hrp: Seq<char>, method: Seq<char>, payload: Seq<u8>)
    ensures
        !("rl-"@.is_prefix_of(hrp)) ==> (key_of_parts(hrp, payload) matches Err(e)
            && e is InvalidHrpPrefix),
        ({
            let found = key_of_parts("rl-"@ + method, payload);
            let n = payload.len() as int;
            let secret_len: int = if method == "none"@ { 0 } else { 32 };
            let versioned = method == "none"@ || method == "cookie"@ || method == "aes"@;
            &&& !versioned && method != "secret"@ ==> found == Err::<DecodedApiKeyView, _>(
                DecodeErrorView::UnsupportedAuthMethod(method),
            )
            &&& method == "secret"@ && n != 32 ==> found == Err::<DecodedApiKeyView, _>(
                DecodeErrorView::InvalidPayloadLength {
                    auth_method: method,
                    expected: 32,
                    actual: n,
                },
            )
            &&& versioned && n != 13 + secret_len ==> found == Err::<DecodedApiKeyView, _>(
                DecodeErrorView::InvalidPayloadLength {
                    auth_method: method,
                    expected: 13 + secret_len,
                    actual: n,
                },
            )
            &&& versioned && n == 13 + secret_len && payload[0] != 1 ==> found == Err::<
                DecodedApiKeyView,
                _,
            >(DecodeErrorView::UnsupportedFormatVersion(payload[0]))
            &&& versioned && n == 13 + secret_len && payload[0] == 1 ==> (found is Err
                <==> limits_of_word(wire::le_field(payload, 9 + secret_len, 4)) is Err) && (
            found matches Err(e) ==> e is InvalidPackedQuota)
        }),
{
    lemma_prefixes();
    lemma_method_of_prefix(method);
}

/// An outcome is the expected one exactly if it has the same content.
pub proof fn lemma_keys_are_compared_by_content(
    outcome: Result<DecodedApiKey, DecodeError>,
    expected: Result<DecodedApiKeyView, DecodeErrorView>,
)
    requires
        is_outcome(outcome, expected),
    ensures
        outcome is Ok <==> expected is Ok,
        outcome matches Ok(key) ==> {
            let content = expected->Ok_0;
            &&& content.hrp == key.hrp@
            &&& content.auth_method == key.auth_method@
            &&& content.format_version == key.format_version
            &&& content.key_id == key.key_id
            &&& content.auth_secret == key.auth_secret@
            &&& content.limits == key.limits
        },
        outcome matches Err(e) ==> expected->Err_0 == e@,
{
}

/// A key that carries limits names one of the three methods of requests, with
/// a secret of 32 bytes unless the method is `none`.
pub proof fn lemma_key_methods(encoded: Seq<char>)
    ensures
        decoded_api_key(encoded) matches Ok(key) ==> key.limits is Some ==> {
            ||| key.auth_method == "none"@ && key.auth_secret.len() == 0
            ||| key.auth_method == "cookie"@ && key.auth_secret.len() == 32
            ||| key.auth_method == "aes"@ && key.auth_secret.len() == 32
        },
{
}

/// A decoded prefix is ASCII text.
proof fn lemma_decoded_prefix_ascii(addr: Seq<char>)
    requires
        bech32_decoded(addr) is Ok,
    ensures
        utf8::is_ascii_chars((bech32_decoded(addr)->Ok_0).0),
{
    let bytes = utf8::encode_utf8(addr);
    let lower = text::lower_bytes(bytes);
    let at = separator(lower)->0;
    lemma_separator_splits(lower);
    assert forall|i: int| 0 <= i < at implies #[trigger] lower.take(at)[i] < 128 by {
        assert(printable(bytes[i]));
    }
    text::lemma_ascii_encoding(lower.take(at));
}

} // verus!
