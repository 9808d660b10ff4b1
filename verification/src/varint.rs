//! The variable-length integers of the file format: big-endian groups of seven bits, at
//! most nine bytes, the ninth of which gives all of its eight bits.

use vstd::prelude::*;

verus! {

/// A 64-bit pattern, given as an unsigned number, read as two's complement.
pub open spec fn as_signed64(v: nat) -> int {
    if v >= 0x8000_0000_0000_0000 {
        v - 0x1_0000_0000_0000_0000
    } else {
        v as int
    }
}

/// Decodes a variable-length integer from `s`, having consumed `i` bytes with the
/// continuation bit set, whose payload bits amount to `acc`.
///
/// Each of the first eight bytes gives its low seven bits and ends the integer when its
/// top bit is clear; a ninth byte gives all eight bits. The result is the 64-bit pattern
/// and the number of bytes that the integer takes, or `None` when `s` ends too early.
pub open spec fn varint_scan(s: Seq<u8>, i: nat, acc: nat) -> Option<(nat, nat)>
    decreases 8 - i,
{
    if i >= s.len() {
        None
    } else if i >= 8 {
        Some((acc * 256 + s[i as int] as nat, i + 1))
    } else if s[i as int] < 128 {
        Some((acc * 128 + s[i as int] as nat, i + 1))
    } else {
        varint_scan(s, i + 1, (acc * 128 + (s[i as int] - 128)) as nat)
    }
}

/// The variable-length integer at the start of `s`: its 64-bit pattern and its length in bytes.
pub open spec fn varint(s: Seq<u8>) -> Option<(nat, nat)> {
    varint_scan(s, 0, 0)
}

/// `128^i`: what `i` groups of seven bits stay below.
pub open spec fn groups_limit(i: nat) -> nat
    decreases i,
{
    if i == 0 {
        1
    } else {
        128 * groups_limit((i - 1) as nat)
    }
}

/// The values of `128^i` for the numbers of groups that occur.
pub proof fn lemma_groups_limit_values()
    ensures
        groups_limit(0) == 1,
        groups_limit(1) == 0x80,
        groups_limit(2) == 0x4000,
        groups_limit(3) == 0x20_0000,
        groups_limit(4) == 0x1000_0000,
        groups_limit(5) == 0x8_0000_0000,
        groups_limit(6) == 0x400_0000_0000,
        groups_limit(7) == 0x2_0000_0000_0000,
        groups_limit(8) == 0x100_0000_0000_0000,
{
    reveal_with_fuel(groups_limit, 10);
}

/// The 64-bit pattern of `value`, as an unsigned number.
pub open spec fn as_unsigned64(value: int) -> nat {
    if value < 0 {
        (value + 0x1_0000_0000_0000_0000) as nat
    } else {
        value as nat
    }
}

/// The number of groups of seven bits that it takes to write `v`: at least one.
pub open spec fn group_count(v: nat) -> nat
    decreases v,
{
    if v < 128 {
        1
    } else {
        1 + group_count(v / 128)
    }
}

/// The low `k` groups of seven bits of `w`, most significant first, each in a byte with
/// the continuation bit set.
pub open spec fn continuation_groups(w: nat, k: nat) -> Seq<u8>
    decreases k,
{
    if k == 0 {
        Seq::empty()
    } else {
        continuation_groups(w / 128, (k - 1) as nat).push((128 + w % 128) as u8)
    }
}

/// The bytes that encode the 64-bit pattern `v`. Below `2^56` these are its groups of
/// seven bits, as few as hold it, with the continuation bit on all but the last. From
/// `2^56` on they are nine bytes: eight groups of seven bits and a last byte of eight.
pub open spec fn varint_encoding(v: nat) -> Seq<u8> {
    if v < groups_limit(8) {
        continuation_groups(v / 128, (group_count(v) - 1) as nat).push((v % 128) as u8)
    } else {
        continuation_groups(v / 256, 8).push((v % 256) as u8)
    }
}

/// `k` groups take `k` bytes, and each of them has the continuation bit.
pub proof fn lemma_continuation_groups(w: nat, k: nat)
    ensures
        continuation_groups(w, k).len() == k,
        forall|j: int| 0 <= j < k ==> #[trigger] continuation_groups(w, k)[j] >= 128,
    decreases k,
{
    if k > 0 {
        lemma_continuation_groups(w / 128, (k - 1) as nat);
    }
}

/// `v` fits in `group_count(v)` groups of seven bits, and in no fewer.
pub proof fn lemma_group_count(v: nat)
    ensures
        group_count(v) >= 1,
        v < groups_limit(group_count(v)),
        v >= 128 ==> v >= groups_limit((group_count(v) - 1) as nat),
    decreases v,
{
    reveal_with_fuel(groups_limit, 2);
    if v >= 128 {
        lemma_group_count(v / 128);
    }
}

proof fn lemma_groups_limit_monotonic(i: nat, j: nat)
    requires
        i <= j,
    ensures
        groups_limit(i) <= groups_limit(j),
        groups_limit(i) >= 1,
    decreases j,
{
    if i < j {
        lemma_groups_limit_monotonic(i, (j - 1) as nat);
    } else if i > 0 {
        lemma_groups_limit_monotonic((i - 1) as nat, (i - 1) as nat);
    }
}

/// A number below `2^56` takes at most eight groups.
pub proof fn lemma_group_count_short(v: nat)
    requires
        v < groups_limit(8),
    ensures
        1 <= group_count(v) <= 8,
{
    lemma_group_count(v);
    if group_count(v) > 8 {
        lemma_groups_limit_monotonic(8, (group_count(v) - 1) as nat);
    }
}

/// Scanning over `k` leading continuation bytes collects the groups they hold.
proof fn lemma_scan_continuation(s: Seq<u8>, w: nat, k: nat)
    requires
        k <= 8,
        k <= s.len(),
        w < groups_limit(k),
        s.take(k as int) == continuation_groups(w, k),
    ensures
        varint(s) == varint_scan(s, k, w),
    decreases k,
{
    if k > 0 {
        let shorter = continuation_groups(w / 128, (k - 1) as nat);
        lemma_continuation_groups(w / 128, (k - 1) as nat);
        assert(s.take(k - 1) =~= shorter) by {
            assert(s.take(k - 1) =~= s.take(k as int).drop_last());
            assert(continuation_groups(w, k).drop_last() =~= shorter);
        }
        lemma_scan_continuation(s, w / 128, (k - 1) as nat);
        assert(s[k - 1] == s.take(k as int)[k - 1]);
        assert(s[k - 1] == (128 + w % 128) as u8);
    }
}

/// Decoding undoes encoding: the bytes that encode a 64-bit pattern, followed by any
/// others, decode to that pattern and to the length of its encoding.
pub proof fn lemma_varint_round_trip(v: nat, rest: Seq<u8>)
    requires
        v < 0x1_0000_0000_0000_0000,
    ensures
        varint(varint_encoding(v) + rest) == Some((v, varint_encoding(v).len())),
        1 <= varint_encoding(v).len() <= 9,
{
    lemma_groups_limit_values();
    let s = varint_encoding(v) + rest;
    if v < groups_limit(8) {
        lemma_group_count_short(v);
        lemma_group_count(v);
        let k = (group_count(v) - 1) as nat;
        lemma_continuation_groups(v / 128, k);
        assert(s.take(k as int) =~= continuation_groups(v / 128, k));
        assert(groups_limit(group_count(v)) == 128 * groups_limit(k));
        lemma_scan_continuation(s, v / 128, k);
        assert(s[k as int] == (v % 128) as u8);
    } else {
        lemma_continuation_groups(v / 256, 8);
        assert(s.take(8) =~= continuation_groups(v / 256, 8));
        lemma_scan_continuation(s, v / 256, 8);
        assert(s[8] == (v % 256) as u8);
    }
}

/// A non-negative number of at most 63 bits is its own 64-bit pattern, so that decoding
/// its encoding gives the number back.
pub proof fn lemma_varint_round_trip_signed(n: int, rest: Seq<u8>)
    requires
        0 <= n < 0x8000_0000_0000_0000,
    ensures
        varint(varint_encoding(as_unsigned64(n)) + rest) matches Some((v, len)) && as_signed64(v)
            == n && len == varint_encoding(as_unsigned64(n)).len(),
{
    lemma_varint_round_trip(as_unsigned64(n), rest);
}

/// A non-negative number of at most 63 bits that takes `k` groups of seven bits is
/// encoded in exactly `k` bytes, and the continuation bit is set on all of them but the
/// last. Up to eight bytes the last byte has the bit clear; a ninth byte gives eight bits
/// of the number and marks nothing.
pub proof fn lemma_varint_encoding_groups(v: nat)
    requires
        v < 0x8000_0000_0000_0000,
    ensures
        varint_encoding(v).len() == group_count(v),
        forall|j: int|
            0 <= j < group_count(v) - 1 ==> #[trigger] varint_encoding(v)[j] >= 128,
        v < groups_limit(8) ==> varint_encoding(v)[group_count(v) - 1] < 128,
{
    lemma_groups_limit_values();
    lemma_group_count(v);
    if v < groups_limit(8) {
        lemma_group_count_short(v);
        lemma_continuation_groups(v / 128, (group_count(v) - 1) as nat);
    } else {
        assert(groups_limit(9) == 0x8000_0000_0000_0000) by {
            reveal_with_fuel(groups_limit, 10);
        }
        if group_count(v) < 9 {
            lemma_groups_limit_monotonic(group_count(v), 8);
        }
        if group_count(v) > 9 {
            lemma_groups_limit_monotonic(9, (group_count(v) - 1) as nat);
        }
        lemma_continuation_groups(v / 256, 8);
    }
}

/// Appends to `out` the low `k` groups of seven bits of `w`, each with the continuation bit.
fn push_continuation_groups(w: u64, k: usize, out: &mut Vec<u8>)
    ensures
        final(out)@ == old(out)@ + continuation_groups(w as nat, k as nat),
    decreases k,
{
    if k > 0 {
        push_continuation_groups(w / 128, k - 1, out);
        let low: u8 = (w % 128) as u8;
        out.push(128 + low);
        assert(final(out)@ =~= old(out)@ + continuation_groups(w as nat, k as nat));
    } else {
        assert(final(out)@ =~= old(out)@ + continuation_groups(w as nat, k as nat));
    }
}

/// The bytes that encode `value` as a variable-length integer.
pub fn encode_varint(value: i64) -> (bytes: Vec<u8>)
    ensures
        bytes@ == varint_encoding(as_unsigned64(value as int)),
{
    let v: u64 = if value >= 0 {
        value as u64
    } else {
        u64::MAX - ((-(value + 1)) as u64)
    };
    let mut out: Vec<u8> = Vec::new();
    proof {
        lemma_groups_limit_values();
    }
    if v < 0x100_0000_0000_0000 {
        proof {
            lemma_group_count_short(v as nat);
        }
        let mut k: usize = 1;
        let mut rest: u64 = v;
        while rest >= 128
            invariant
                k >= 1,
                k + group_count(rest as nat) == 1 + group_count(v as nat),
                group_count(v as nat) <= 8,
            decreases rest,
        {
            rest = rest / 128;
            k = k + 1;
        }
        push_continuation_groups(v / 128, k - 1, &mut out);
        out.push((v % 128) as u8);
    } else {
        push_continuation_groups(v / 256, 8, &mut out);
        out.push((v % 256) as u8);
    }
    out
}

} // verus!
