//! Regrouping a stream of bits from groups of one width into groups of
//! another, most significant bit first.

use vstd::arithmetic::div_mod;
use vstd::arithmetic::power2;
use vstd::bits;
use vstd::prelude::*;

verus! {

/// Bit `k` of the stream that `data` spells in groups of `width` bits; zero
/// past the end.
pub open spec fn stream_bit(data: Seq<u8>, width: nat, k: int) -> nat {
    if 0 <= k < data.len() * width {
        (((data[k / width as int] as u32) >> ((width - 1 - k % width as int) as u32)) & 1) as nat
    } else {
        0
    }
}

/// The `n` bits of the stream from `start` on, read as a number.
pub open spec fn stream_value(data: Seq<u8>, width: nat, start: int, n: nat) -> nat
    decreases n,
{
    if n == 0 {
        0
    } else {
        2 * stream_value(data, width, start, (n - 1) as nat) + stream_bit(
            data,
            width,
            start + n - 1,
        )
    }
}

/// The first `count` groups of `to` bits of the stream that `data` spells in
/// groups of `from` bits.
pub open spec fn regrouped(data: Seq<u8>, from: nat, to: nat, count: nat) -> Seq<u8> {
    Seq::new(count, |j: int| stream_value(data, from, j * to, to) as u8)
}

/// Whether no group has a bit beyond its width.
pub open spec fn groups_fit(data: Seq<u8>, width: nat) -> bool {
    forall|i: int| 0 <= i < data.len() ==> (#[trigger] data[i] as u32) >> (width as u32) == 0
}

/// Whether groups of `from` bits spell whole groups of `to` bits: what is left
/// over is shorter than one group, and all of it is zero.
pub open spec fn ends_in_padding(data: Seq<u8>, from: nat, to: nat) -> bool {
    let total = data.len() * from;
    let rest = total % to;
    rest < from && stream_value(data, from, total - rest, rest) == 0
}

proof fn lemma_bit_range(data: Seq<u8>, width: nat, k: int)
    ensures
        stream_bit(data, width, k) <= 1,
{
    if 0 <= k < data.len() * width {
        let x = (data[k / width as int] as u32) >> ((width - 1 - k % width as int) as u32);
        assert(x & 1 <= 1) by (bit_vector);
    }
}

/// `n` bits denote less than `2` to the `n`.
pub proof fn lemma_stream_value_bound(data: Seq<u8>, width: nat, start: int, n: nat)
    ensures
        stream_value(data, width, start, n) < power2::pow2(n),
    decreases n,
{
    if n == 0 {
        power2::lemma2_to64();
    } else {
        lemma_stream_value_bound(data, width, start, (n - 1) as nat);
        lemma_bit_range(data, width, start + n - 1);
        power2::lemma_pow2_unfold(n);
    }
}

/// Consecutive stretches of bits join as digits do.
proof fn lemma_stream_split(data: Seq<u8>, width: nat, start: int, a: nat, b: nat)
    ensures
        stream_value(data, width, start, a + b) == stream_value(data, width, start, a)
            * power2::pow2(b) + stream_value(data, width, start + a, b),
    decreases b,
{
    if b == 0 {
        power2::lemma2_to64();
    } else {
        let c = (b - 1) as nat;
        lemma_stream_split(data, width, start, a, c);
        power2::lemma_pow2_unfold(b);
        let x = stream_value(data, width, start, a);
        let p = power2::pow2(c);
        assert(2 * (x * p) == x * (2 * p)) by (nonlinear_arith);
        assert((a + b - 1) as nat == a + c);
        assert(start + (a + b) - 1 == start + a + b - 1);
    }
}

/// Past its end the stream is zero.
proof fn lemma_stream_zero(data: Seq<u8>, width: nat, start: int, n: nat)
    requires
        start >= data.len() * width,
    ensures
        stream_value(data, width, start, n) == 0,
    decreases n,
{
    if n > 0 {
        lemma_stream_zero(data, width, start, (n - 1) as nat);
    }
}

/// Streams that agree on a stretch denote the same number there.
proof fn lemma_stream_agree(d1: Seq<u8>, w1: nat, d2: Seq<u8>, w2: nat, start: int, n: nat)
    requires
        forall|k: int| start <= k < start + n ==> #[trigger] stream_bit(d1, w1, k) == stream_bit(d2, w2, k),
    ensures
        stream_value(d1, w1, start, n) == stream_value(d2, w2, start, n),
    decreases n,
{
    if n > 0 {
        lemma_stream_agree(d1, w1, d2, w2, start, (n - 1) as nat);
        assert(stream_bit(d1, w1, start + n - 1) == stream_bit(d2, w2, start + n - 1));
    }
}

/// Position `i * width + m` is bit `m` of group `i`.
proof fn lemma_position(i: int, width: nat, m: int)
    requires
        0 <= m < width,
    ensures
        (i * width + m) / (width as int) == i,
        (i * width + m) % (width as int) == m,
{
    div_mod::lemma_fundamental_div_mod_converse(i * width + m, width as int, i, m);
}

/// The first `m` bits of a group are its value with the others shifted out.
proof fn lemma_group_prefix(data: Seq<u8>, width: nat, i: int, m: nat)
    requires
        1 <= width <= 8,
        m <= width,
        0 <= i < data.len(),
        (data[i] as u32) >> (width as u32) == 0,
    ensures
        stream_value(data, width, i * width, m) == (data[i] as u32) >> ((width - m) as u32),
    decreases m,
{
    if m > 0 {
        lemma_group_prefix(data, width, i, (m - 1) as nat);
        let v = data[i] as u32;
        let s = (width - m) as u32;
        let s1 = (width - m + 1) as u32;
        let k = i * width + m - 1;
        lemma_position(i, width, m - 1);
        assert(i * width + width <= data.len() * width) by (nonlinear_arith)
            requires
                i + 1 <= data.len(),
        ;
        assert(0 <= i * width) by (nonlinear_arith)
            requires
                0 <= i,
        ;
        assert(stream_bit(data, width, k) == ((v >> s) & 1) as nat);
        assert(v >> s == 2 * (v >> s1) + ((v >> s) & 1)) by (bit_vector)
            requires
                s < 8,
                s1 == s + 1,
                v < 256,
        ;
    }
}

/// A whole group denotes its value.
pub proof fn lemma_group_value(data: Seq<u8>, width: nat, i: int)
    requires
        1 <= width <= 8,
        0 <= i < data.len(),
        (data[i] as u32) >> (width as u32) == 0,
    ensures
        stream_value(data, width, i * width, width) == data[i],
{
    lemma_group_prefix(data, width, i, width);
    let v = data[i] as u32;
    assert(v >> 0 == v) by (bit_vector);
}

/// The low `n` bits of `acc`.
pub open spec fn low_bits(acc: u32, n: u32) -> u32 {
    (acc & (((1u32 << n) - 1) as u32)) as u32
}

proof fn lemma_shl_pow2(n: u32)
    requires
        n < 32,
    ensures
        1u32 << n == power2::pow2(n as nat),
{
    bits::lemma_u32_pow2_no_overflow(n as nat);
    bits::lemma_u32_shl_is_mul(1, n);
}

/// Reading group `i`, whose value is `value`, after `n` pending bits.
pub proof fn lemma_read_group(
    data: Seq<u8>,
    from: u32,
    i: int,
    start: int,
    n: u32,
    window: u32,
    value: u32,
    joined: u32,
)
    requires
        1 <= from <= 8,
        n < 8,
        0 <= i < data.len(),
        value == data[i],
        value >> from == 0,
        start + n == i * from,
        window == stream_value(data, from as nat, start, n as nat),
        joined == (window << from) | value,
    ensures
        joined == stream_value(data, from as nat, start, (n + from) as nat),
{
    lemma_stream_value_bound(data, from as nat, start, n as nat);
    power2::lemma2_to64();
    power2::lemma_pow2_strictly_increases(n as nat, 8);
    assert(window < 256);
    lemma_stream_split(data, from as nat, start, n as nat, from as nat);
    lemma_group_value(data, from as nat, i);
    let p = power2::pow2(from as nat);
    if from < 8 {
        power2::lemma_pow2_strictly_increases(from as nat, 8);
    }
    assert(window * p <= 255 * 256) by (nonlinear_arith)
        requires
            window <= 255,
            p <= 256,
    ;
    bits::lemma_u32_shl_is_mul(window, from);
    assert((window << from) | value == (window << from) + value) by (bit_vector)
        requires
            window < 256,
            1 <= from <= 8,
            value < 256,
            value >> from == 0,
    ;
}

/// Splitting the pending bits into one group and the bits that stay pending.
pub proof fn lemma_write_group(data: Seq<u8>, from: nat, start: int, to: u32, rest: u32, window: u32)
    requires
        1 <= to <= 8,
        rest <= 8,
        window == stream_value(data, from, start, (to + rest) as nat),
    ensures
        window >> rest == stream_value(data, from, start, to as nat),
        low_bits(window, rest) == stream_value(data, from, start + to, rest as nat),
{
    lemma_stream_split(data, from, start, to as nat, rest as nat);
    lemma_stream_value_bound(data, from, start + to, rest as nat);
    let hi = stream_value(data, from, start, to as nat);
    let lo = stream_value(data, from, start + to, rest as nat);
    let p = power2::pow2(rest as nat);
    div_mod::lemma_fundamental_div_mod_converse(window as int, p as int, hi as int, lo as int);
    bits::lemma_u32_shr_is_div(window, rest);
    bits::lemma_u32_low_bits_mask_is_mod(window, rest as nat);
    lemma_shl_pow2(rest);
}

/// Filling the last pending bits up with zeros.
pub proof fn lemma_pad_group(data: Seq<u8>, from: nat, start: int, to: u32, n: u32, window: u32)
    requires
        1 <= to <= 8,
        n < to,
        start + n == data.len() * from,
        window == stream_value(data, from, start, n as nat),
    ensures
        window << ((to - n) as u32) == stream_value(data, from, start, to as nat),
        window << ((to - n) as u32) < 256,
        (window << ((to - n) as u32) == 0) == (window == 0),
{
    let gap = (to - n) as u32;
    lemma_stream_split(data, from, start, n as nat, gap as nat);
    lemma_stream_zero(data, from, start + n, gap as nat);
    lemma_stream_value_bound(data, from, start, n as nat);
    lemma_stream_value_bound(data, from, start, to as nat);
    power2::lemma2_to64();
    if to < 8 {
        power2::lemma_pow2_strictly_increases(to as nat, 8);
    }
    assert(n as nat + gap as nat == to as nat);
    let p = power2::pow2(gap as nat);
    assert(window * p == stream_value(data, from, start, to as nat));
    bits::lemma_u32_shl_is_mul(window, gap);
    power2::lemma_pow2_pos(gap as nat);
    assert(window * p == 0 <==> window == 0) by (nonlinear_arith)
        requires
            p > 0,
    ;
}

/// Bit `m` of a stretch's number is bit `m` of the stretch.
proof fn lemma_value_bit(data: Seq<u8>, width: nat, start: int, n: nat, m: nat)
    requires
        m < n <= 8,
    ensures
        ((stream_value(data, width, start, n) as u32) >> ((n - 1 - m) as u32)) & 1 == stream_bit(
            data,
            width,
            start + m,
        ),
        stream_value(data, width, start, n) < 256,
{
    let below = (n - 1 - m) as nat;
    lemma_stream_value_bound(data, width, start, n);
    power2::lemma2_to64();
    if n < 8 {
        power2::lemma_pow2_strictly_increases(n, 8);
    }
    lemma_stream_split(data, width, start, (m + 1) as nat, below);
    lemma_stream_value_bound(data, width, start + m + 1, below);
    lemma_bit_range(data, width, start + m);
    assert((m + 1) as nat + below == n);
    let v = stream_value(data, width, start, n) as u32;
    let head = stream_value(data, width, start, (m + 1) as nat);
    div_mod::lemma_fundamental_div_mod_converse(
        v as int,
        power2::pow2(below) as int,
        head as int,
        stream_value(data, width, start + m + 1, below) as int,
    );
    let shift = below as u32;
    bits::lemma_u32_shr_is_div(v, shift);
    let x = v >> shift;
    assert(x & 1 == x % 2) by (bit_vector);
    assert(head == 2 * stream_value(data, width, start, m) + stream_bit(data, width, start + m));
}

/// Groups that are numbers of `to` bits stay within their width.
proof fn lemma_regrouped_fit(data: Seq<u8>, from: nat, to: nat, count: nat)
    requires
        1 <= to <= 8,
    ensures
        groups_fit(regrouped(data, from, to, count), to),
        forall|j: int|
            0 <= j < count ==> #[trigger] regrouped(data, from, to, count)[j] == stream_value(
                data,
                from,
                j * to,
                to,
            ),
{
    let out = regrouped(data, from, to, count);
    power2::lemma2_to64();
    if to < 8 {
        power2::lemma_pow2_strictly_increases(to, 8);
    }
    assert forall|j: int| 0 <= j < count implies #[trigger] out[j] == stream_value(
        data,
        from,
        j * to,
        to,
    ) && (out[j] as u32) >> (to as u32) == 0 by {
        lemma_stream_value_bound(data, from, j * to, to);
        bits::lemma_u32_shr_is_div(out[j] as u32, to as u32);
        div_mod::lemma_basic_div(out[j] as int, power2::pow2(to) as int);
    }
}

/// Regrouping keeps the bits of the stream that the new groups cover.
proof fn lemma_regrouped_bits(data: Seq<u8>, from: nat, to: nat, count: nat, k: int)
    requires
        1 <= to <= 8,
        k < count * to,
    ensures
        stream_bit(regrouped(data, from, to, count), to, k) == stream_bit(data, from, k),
{
    if k >= 0 {
        let j = k / to as int;
        let m = k % to as int;
        div_mod::lemma_fundamental_div_mod(k, to as int);
        assert(to as int * j == j * to) by (nonlinear_arith);
        assert(0 <= j < count) by (nonlinear_arith)
            requires
                0 <= k < count * to,
                k == j * to + m,
                0 <= m < to,
        ;
        lemma_regrouped_fit(data, from, to, count);
        lemma_value_bit(data, from, j * to, to, m as nat);
    }
}

/// Regrouping keeps every bit where it is in the stream: counted from the
/// highest bit of the first group on, each bit of the new groups is the bit of
/// the old ones with the same number.
pub proof fn lemma_regrouping_keeps_every_bit(data: Seq<u8>, from: nat, to: nat, count: nat, k: int)
    requires
        1 <= from <= 8,
        1 <= to <= 8,
        0 <= k < count * to,
        k < data.len() * from,
    ensures
        regrouped(data, from, to, count).len() == count,
        ((regrouped(data, from, to, count)[k / to as int] as u32) >> ((to - 1 - k % to as int)
            as u32)) & 1 == ((data[k / from as int] as u32) >> ((from - 1 - k % from as int)
            as u32)) & 1,
{
    lemma_regrouped_bits(data, from, to, count, k);
}

/// The number of groups of `to` bits that `total` bits fill, the last one
/// perhaps only in part.
pub open spec fn padded_count(total: nat, to: nat) -> nat {
    if total % to == 0 {
        total / to
    } else {
        total / to + 1
    }
}

/// The padded count is the least number of groups that holds all the bits.
proof fn lemma_padded_count(total: nat, to: nat, n: nat)
    requires
        to >= 1,
        total <= n * to < total + to,
    ensures
        padded_count(total, to) == n,
{
    if total == n * to {
        div_mod::lemma_fundamental_div_mod_converse(total as int, to as int, n as int, 0);
    } else {
        assert((n - 1) * to == n * to - to) by (nonlinear_arith);
        div_mod::lemma_fundamental_div_mod_converse(
            total as int,
            to as int,
            n - 1,
            total - (n - 1) * to,
        );
    }
}

/// What the padded count holds: all the bits, and less than one group more.
proof fn lemma_padded_bits(total: nat, to: nat)
    requires
        to >= 1,
    ensures
        total <= padded_count(total, to) * to < total + to,
{
    div_mod::lemma_fundamental_div_mod(total as int, to as int);
    let q = total / to;
    assert(q * to == to * q && (q + 1) * to == to * q + to) by (nonlinear_arith);
}

/// Splitting groups into narrower ones, with zeros filling the last, and
/// joining them again gives the groups back.
pub proof fn lemma_split_then_join(data: Seq<u8>, from: nat, to: nat)
    requires
        1 <= to <= from <= 8,
        groups_fit(data, from),
    ensures
        ({
            let narrow = regrouped(data, from, to, padded_count(data.len() * from, to));
            &&& groups_fit(narrow, to)
            &&& ends_in_padding(narrow, to, from)
            &&& narrow.len() * to / from == data.len()
            &&& regrouped(narrow, to, from, data.len()) == data
        }),
{
    let total = data.len() * from;
    let n = padded_count(total, to);
    let narrow = regrouped(data, from, to, n);
    lemma_padded_bits(total, to);
    lemma_regrouped_fit(data, from, to, n);
    assert(narrow.len() * to == n * to);
    div_mod::lemma_fundamental_div_mod_converse(
        (n * to) as int,
        from as int,
        data.len() as int,
        n * to - total,
    );
    assert forall|k: int| k < n * to implies #[trigger] stream_bit(narrow, to, k) == stream_bit(
        data,
        from,
        k,
    ) by {
        lemma_regrouped_bits(data, from, to, n, k);
    }
    let rest = (n * to - total) as nat;
    lemma_stream_agree(narrow, to, data, from, total as int, rest);
    lemma_stream_zero(data, from, total as int, rest);
    assert forall|i: int| 0 <= i < data.len() implies #[trigger] regrouped(
        narrow,
        to,
        from,
        data.len(),
    )[i] == data[i] by {
        assert(i * from + from <= total) by (nonlinear_arith)
            requires
                i + 1 <= data.len(),
                total == data.len() * from,
        ;
        lemma_stream_agree(narrow, to, data, from, i * from, from);
        lemma_group_value(data, from, i);
    }
    assert(regrouped(narrow, to, from, data.len()) =~= data);
}

/// Joining groups that end in padding into wider ones, and splitting those
/// again, gives the groups back.
pub proof fn lemma_join_then_split(data: Seq<u8>, from: nat, to: nat)
    requires
        1 <= from <= to <= 8,
        groups_fit(data, from),
        ends_in_padding(data, from, to),
    ensures
        ({
            let wide = regrouped(data, from, to, data.len() * from / to);
            &&& groups_fit(wide, to)
            &&& padded_count(wide.len() * to, from) == data.len()
            &&& regrouped(wide, to, from, data.len()) == data
        }),
{
    let total = data.len() * from;
    let q = total / to;
    let rest = total % to;
    let wide = regrouped(data, from, to, q);
    div_mod::lemma_fundamental_div_mod(total as int, to as int);
    assert(to * q == q * to) by (nonlinear_arith);
    lemma_regrouped_fit(data, from, to, q);
    lemma_padded_count(q * to, from, data.len());
    assert forall|k: int| k < total implies #[trigger] stream_bit(wide, to, k) == stream_bit(
        data,
        from,
        k,
    ) by {
        if k < q * to {
            lemma_regrouped_bits(data, from, to, q, k);
        } else {
            lemma_zero_bit(data, from, total - rest, rest, k);
        }
    }
    assert forall|i: int| 0 <= i < data.len() implies #[trigger] regrouped(
        wide,
        to,
        from,
        data.len(),
    )[i] == data[i] by {
        assert(i * from + from <= total) by (nonlinear_arith)
            requires
                i + 1 <= data.len(),
                total == data.len() * from,
        ;
        lemma_stream_agree(wide, to, data, from, i * from, from);
        lemma_group_value(data, from, i);
    }
    assert(regrouped(wide, to, from, data.len()) =~= data);
}

/// A stretch that denotes zero has no bit set.
proof fn lemma_zero_bit(data: Seq<u8>, width: nat, start: int, n: nat, k: int)
    requires
        stream_value(data, width, start, n) == 0,
        start <= k < start + n,
    ensures
        stream_bit(data, width, k) == 0,
    decreases n,
{
    if k < start + n - 1 {
        lemma_zero_bit(data, width, start, (n - 1) as nat, k);
    }
}

} // verus!
