//! Fixed-width integers, lowest byte first.
use vstd::prelude::*;

use crate::wire;

verus! {

pub open spec fn pow256(n: nat) -> nat
    decreases n,
{
    if n == 0 {
        1
    } else {
        256 * pow256((n - 1) as nat)
    }
}

/// The `n` lowest base-256 digits of `v`, lowest first.
pub open spec fn le_bytes(v: nat, n: nat) -> Seq<u8>
    decreases n,
{
    if n == 0 {
        Seq::empty()
    } else {
        seq![(v % 256) as u8] + le_bytes(v / 256, (n - 1) as nat)
    }
}

/// The number whose base-256 digits, lowest first, are `s`.
pub open spec fn le_value(s: Seq<u8>) -> nat
    decreases s.len(),
{
    if s.len() == 0 {
        0
    } else {
        s[0] as nat + 256 * le_value(s.drop_first())
    }
}

/// An `i32` as the unsigned number with the same two's complement digits.
pub open spec fn i32_digits(v: i32) -> nat {
    if v < 0 {
        (v + 0x1_0000_0000) as nat
    } else {
        v as nat
    }
}

/// An `i64` as the unsigned number with the same two's complement digits.
pub open spec fn i64_digits(v: i64) -> nat {
    if v < 0 {
        (v + 0x1_0000_0000_0000_0000) as nat
    } else {
        v as nat
    }
}

pub open spec fn i32_of_digits(v: nat) -> i32 {
    if v < 0x8000_0000 {
        v as i32
    } else {
        (v - 0x1_0000_0000) as i32
    }
}

pub open spec fn i64_of_digits(v: nat) -> i64 {
    if v < 0x8000_0000_0000_0000 {
        v as i64
    } else {
        (v - 0x1_0000_0000_0000_0000) as i64
    }
}

pub open spec fn u32_bytes(v: u32) -> Seq<u8> {
    le_bytes(v as nat, 4)
}

pub open spec fn u64_bytes(v: u64) -> Seq<u8> {
    le_bytes(v as nat, 8)
}

pub open spec fn i32_bytes(v: i32) -> Seq<u8> {
    le_bytes(i32_digits(v), 4)
}

pub open spec fn i64_bytes(v: i64) -> Seq<u8> {
    le_bytes(i64_digits(v), 8)
}

/// The four bytes at `pos` as a `u32`.
pub open spec fn u32_at(s: Seq<u8>, pos: int) -> u32 {
    le_value(s.subrange(pos, pos + 4)) as u32
}

pub open spec fn u64_at(s: Seq<u8>, pos: int) -> u64 {
    le_value(s.subrange(pos, pos + 8)) as u64
}

pub open spec fn i32_at(s: Seq<u8>, pos: int) -> i32 {
    i32_of_digits(le_value(s.subrange(pos, pos + 4)))
}

pub open spec fn i64_at(s: Seq<u8>, pos: int) -> i64 {
    i64_of_digits(le_value(s.subrange(pos, pos + 8)))
}

/// The concatenated encodings of a sequence of 32-bit patterns.
pub open spec fn u32_seq_bytes(values: Seq<u32>) -> Seq<u8>
    decreases values.len(),
{
    if values.len() == 0 {
        Seq::empty()
    } else {
        u32_seq_bytes(values.drop_last()) + u32_bytes(values.last())
    }
}

/// The 32-bit patterns that stand one behind the other in `s`.
pub open spec fn u32_seq_of(s: Seq<u8>) -> Seq<u32> {
    Seq::new(s.len() / 4, |i: int| u32_at(s, 4 * i))
}

/// The concatenated encodings of a sequence of signed 64-bit numbers.
pub open spec fn i64_seq_bytes(values: Seq<i64>) -> Seq<u8>
    decreases values.len(),
{
    if values.len() == 0 {
        Seq::empty()
    } else {
        i64_seq_bytes(values.drop_last()) + i64_bytes(values.last())
    }
}

/// The signed 64-bit numbers that stand one behind the other in `s`.
pub open spec fn i64_seq_of(s: Seq<u8>) -> Seq<i64> {
    Seq::new(s.len() / 8, |i: int| i64_at(s, 8 * i))
}

pub proof fn lemma_pow256()
    ensures
        pow256(4) == 0x1_0000_0000,
        pow256(8) == 0x1_0000_0000_0000_0000,
{
    reveal_with_fuel(pow256, 9);
}

pub proof fn lemma_le_bytes_len(v: nat, n: nat)
    ensures
        le_bytes(v, n).len() == n,
    decreases n,
{
    if n > 0 {
        lemma_le_bytes_len(v / 256, (n - 1) as nat);
    }
}

/// How many bytes each kind of number takes.
pub proof fn lemma_lens()
    ensures
        forall|v: u32| #[trigger] u32_bytes(v).len() == 4,
        forall|v: u64| #[trigger] u64_bytes(v).len() == 8,
        forall|v: i32| #[trigger] i32_bytes(v).len() == 4,
        forall|v: i64| #[trigger] i64_bytes(v).len() == 8,
{
    assert forall|v: u32| #[trigger] u32_bytes(v).len() == 4 by {
        lemma_le_bytes_len(v as nat, 4);
    }
    assert forall|v: u64| #[trigger] u64_bytes(v).len() == 8 by {
        lemma_le_bytes_len(v as nat, 8);
    }
    assert forall|v: i32| #[trigger] i32_bytes(v).len() == 4 by {
        lemma_le_bytes_len(i32_digits(v), 4);
    }
    assert forall|v: i64| #[trigger] i64_bytes(v).len() == 8 by {
        lemma_le_bytes_len(i64_digits(v), 8);
    }
}

pub proof fn lemma_le_value_bound(s: Seq<u8>)
    ensures
        le_value(s) < pow256(s.len()),
    decreases s.len(),
{
    if s.len() > 0 {
        lemma_le_value_bound(s.drop_first());
    }
}

/// Reading back the digits of a number that fits gives the number.
pub proof fn le_value_of_le_bytes(v: nat, n: nat)
    requires
        v < pow256(n),
    ensures
        le_value(le_bytes(v, n)) == v,
    decreases n,
{
    if n > 0 {
        le_value_of_le_bytes(v / 256, (n - 1) as nat);
        assert(le_bytes(v, n).drop_first() =~= le_bytes(v / 256, (n - 1) as nat));
    }
}

/// Writing the digits of what was read gives the bytes that were read.
pub proof fn le_bytes_of_le_value(s: Seq<u8>)
    ensures
        le_bytes(le_value(s), s.len()) == s,
    decreases s.len(),
{
    if s.len() > 0 {
        le_bytes_of_le_value(s.drop_first());
        let rest = le_value(s.drop_first());
        assert((s[0] as nat + 256 * rest) % 256 == s[0] as nat);
        assert((s[0] as nat + 256 * rest) / 256 == rest);
        assert(le_bytes(le_value(s), s.len()) =~= s);
    } else {
        assert(s =~= Seq::<u8>::empty());
    }
}

/// What is read at the place where a value was written is that value.
pub proof fn read_back_u32(s: Seq<u8>, pos: int, v: u32)
    requires
        wire::occurs(s, pos, u32_bytes(v)),
    ensures
        u32_at(s, pos) == v,
        pos + 4 <= s.len(),
{
    lemma_pow256();
    lemma_le_bytes_len(v as nat, 4);
    le_value_of_le_bytes(v as nat, 4);
}

pub proof fn read_back_u64(s: Seq<u8>, pos: int, v: u64)
    requires
        wire::occurs(s, pos, u64_bytes(v)),
    ensures
        u64_at(s, pos) == v,
        pos + 8 <= s.len(),
{
    lemma_pow256();
    lemma_le_bytes_len(v as nat, 8);
    le_value_of_le_bytes(v as nat, 8);
}

pub proof fn read_back_i32(s: Seq<u8>, pos: int, v: i32)
    requires
        wire::occurs(s, pos, i32_bytes(v)),
    ensures
        i32_at(s, pos) == v,
        pos + 4 <= s.len(),
{
    lemma_pow256();
    lemma_le_bytes_len(i32_digits(v), 4);
    le_value_of_le_bytes(i32_digits(v), 4);
}

pub proof fn read_back_i64(s: Seq<u8>, pos: int, v: i64)
    requires
        wire::occurs(s, pos, i64_bytes(v)),
    ensures
        i64_at(s, pos) == v,
        pos + 8 <= s.len(),
{
    lemma_pow256();
    lemma_le_bytes_len(i64_digits(v), 8);
    le_value_of_le_bytes(i64_digits(v), 8);
}

pub proof fn lemma_u32_seq_bytes_len(values: Seq<u32>)
    ensures
        u32_seq_bytes(values).len() == 4 * values.len(),
    decreases values.len(),
{
    if values.len() > 0 {
        lemma_u32_seq_bytes_len(values.drop_last());
        lemma_le_bytes_len(values.last() as nat, 4);
    }
}

pub proof fn lemma_u32_seq_bytes_item(values: Seq<u32>, i: int)
    requires
        0 <= i < values.len(),
    ensures
        u32_seq_bytes(values).len() == 4 * values.len(),
        u32_seq_bytes(values).subrange(4 * i, 4 * i + 4) == u32_bytes(values[i]),
    decreases values.len(),
{
    lemma_u32_seq_bytes_len(values);
    lemma_u32_seq_bytes_len(values.drop_last());
    lemma_le_bytes_len(values.last() as nat, 4);
    let all = u32_seq_bytes(values);
    let front = u32_seq_bytes(values.drop_last());
    if i == values.len() - 1 {
        assert(all.subrange(4 * i, 4 * i + 4) =~= u32_bytes(values[i]));
    } else {
        lemma_u32_seq_bytes_item(values.drop_last(), i);
        assert(all.subrange(4 * i, 4 * i + 4) =~= front.subrange(4 * i, 4 * i + 4));
    }
}

/// Decoding the encoding of a sequence of patterns gives the sequence.
pub proof fn u32_seq_round_trip(values: Seq<u32>)
    ensures
        u32_seq_of(u32_seq_bytes(values)) == values,
{
    let s = u32_seq_bytes(values);
    lemma_u32_seq_bytes_len(values);
    assert forall|i: int| 0 <= i < values.len() implies u32_at(s, 4 * i) == values[i] by {
        lemma_u32_seq_bytes_item(values, i);
        lemma_le_bytes_len(values[i] as nat, 4);
        read_back_u32(s, 4 * i, values[i]);
    }
    assert(u32_seq_of(s) =~= values);
}

pub proof fn lemma_i64_seq_bytes_len(values: Seq<i64>)
    ensures
        i64_seq_bytes(values).len() == 8 * values.len(),
    decreases values.len(),
{
    if values.len() > 0 {
        lemma_i64_seq_bytes_len(values.drop_last());
        lemma_lens();
    }
}

pub proof fn lemma_i64_seq_bytes_item(values: Seq<i64>, i: int)
    requires
        0 <= i < values.len(),
    ensures
        i64_seq_bytes(values).len() == 8 * values.len(),
        i64_seq_bytes(values).subrange(8 * i, 8 * i + 8) == i64_bytes(values[i]),
    decreases values.len(),
{
    lemma_i64_seq_bytes_len(values);
    lemma_i64_seq_bytes_len(values.drop_last());
    lemma_lens();
    let all = i64_seq_bytes(values);
    let front = i64_seq_bytes(values.drop_last());
    if i == values.len() - 1 {
        assert(all.subrange(8 * i, 8 * i + 8) =~= i64_bytes(values[i]));
    } else {
        lemma_i64_seq_bytes_item(values.drop_last(), i);
        assert(all.subrange(8 * i, 8 * i + 8) =~= front.subrange(8 * i, 8 * i + 8));
    }
}

/// Decoding the encoding of a sequence of signed numbers gives the sequence.
pub proof fn i64_seq_round_trip(values: Seq<i64>)
    ensures
        i64_seq_of(i64_seq_bytes(values)) == values,
{
    let s = i64_seq_bytes(values);
    lemma_i64_seq_bytes_len(values);
    assert forall|i: int| 0 <= i < values.len() implies i64_at(s, 8 * i) == values[i] by {
        lemma_i64_seq_bytes_item(values, i);
        lemma_lens();
        read_back_i64(s, 8 * i, values[i]);
    }
    assert(i64_seq_of(s) =~= values);
}

/// Appends the `n` lowest base-256 digits of `v`.
fn push_le(out: &mut Vec<u8>, v: u64, n: usize)
    requires
        n <= 8,
    ensures
        final(out)@ == old(out)@ + le_bytes(v as nat, n as nat),
{
    let ghost start = out@;
    let mut rest: u64 = v;
    let mut k: usize = n;
    assert(out@ + le_bytes(v as nat, n as nat) =~= start + le_bytes(v as nat, n as nat));
    while k > 0
        invariant
            k <= n <= 8,
            out@ + le_bytes(rest as nat, k as nat) == start + le_bytes(v as nat, n as nat),
        decreases k,
    {
        let ghost before = out@;
        out.push((rest % 256) as u8);
        proof {
            assert(out@ + le_bytes(rest as nat / 256, (k - 1) as nat) =~= before + le_bytes(
                rest as nat,
                k as nat,
            ));
        }
        rest = rest / 256;
        k = k - 1;
    }
    assert(out@ + le_bytes(rest as nat, 0) =~= out@);
}

/// The number that the `n` bytes at `pos` stand for.
fn read_le(bytes: &[u8], pos: usize, n: usize) -> (v: u64)
    requires
        n <= 8,
        pos + n <= bytes@.len(),
    ensures
        v as nat == le_value(bytes@.subrange(pos as int, pos + n)),
{
    let mut v: u64 = 0;
    let mut k: usize = n;
    let total: usize = bytes.len();
    let ghost whole = bytes@.subrange(pos as int, pos + n);
    proof {
        lemma_pow256();
        assert(whole.skip(n as int) =~= Seq::<u8>::empty());
    }
    while k > 0
        invariant
            k <= n <= 8,
            pos + n <= total,
            total == bytes@.len(),
            whole == bytes@.subrange(pos as int, pos + n),
            v as nat == le_value(whole.skip(k as int)),
            pow256(8) == 0x1_0000_0000_0000_0000,
        decreases k,
    {
        k = k - 1;
        proof {
            let tail = whole.skip(k as int);
            assert(tail.drop_first() =~= whole.skip(k + 1));
            assert(tail[0] == bytes@[pos + k]);
            lemma_le_value_bound(tail);
            lemma_pow256_monotone(tail.len(), 8);
        }
        v = v * 256 + bytes[pos + k] as u64;
    }
    assert(whole.skip(0) =~= whole);
    v
}

pub proof fn lemma_pow256_monotone(a: nat, b: nat)
    requires
        a <= b,
    ensures
        pow256(a) <= pow256(b),
    decreases b,
{
    if a < b {
        lemma_pow256_monotone(a, (b - 1) as nat);
    }
}

pub fn write_u32_le(out: &mut Vec<u8>, v: u32)
    ensures
        final(out)@ == old(out)@ + u32_bytes(v),
{
    push_le(out, v as u64, 4);
}

pub fn write_u64_le(out: &mut Vec<u8>, v: u64)
    ensures
        final(out)@ == old(out)@ + u64_bytes(v),
{
    push_le(out, v, 8);
}

/// The unsigned number with the same two's complement digits as `v`.
pub fn i64_to_digits(v: i64) -> (r: u64)
    ensures
        r as nat == i64_digits(v),
{
    assert((v as u64) as int == if v < 0 { v + 0x1_0000_0000_0000_0000 } else { v as int })
        by (bit_vector);
    v as u64
}

/// The signed number with the same two's complement digits as `v`.
pub fn digits_to_i64(v: u64) -> (r: i64)
    ensures
        r == i64_of_digits(v as nat),
{
    if v < 0x8000_0000_0000_0000 {
        v as i64
    } else {
        (v as i128 - 0x1_0000_0000_0000_0000) as i64
    }
}

pub fn write_i32_le(out: &mut Vec<u8>, v: i32)
    ensures
        final(out)@ == old(out)@ + i32_bytes(v),
{
    let digits: u32 = v as u32;
    assert((v as u32) as int == if v < 0 { v + 0x1_0000_0000 } else { v as int }) by (bit_vector);
    push_le(out, digits as u64, 4);
}

pub fn write_i64_le(out: &mut Vec<u8>, v: i64)
    ensures
        final(out)@ == old(out)@ + i64_bytes(v),
{
    push_le(out, i64_to_digits(v), 8);
}

/// Appends every pattern of `values`, each as four bytes.
pub fn write_f32_slice(out: &mut Vec<u8>, values: &[u32])
    ensures
        final(out)@ == old(out)@ + u32_seq_bytes(values@),
{
    let ghost start = out@;
    assert(values@.take(0) =~= Seq::<u32>::empty());
    assert(start + u32_seq_bytes(values@.take(0)) =~= start);
    for i in 0..values.len()
        invariant
            out@ == start + u32_seq_bytes(values@.take(i as int)),
    {
        write_u32_le(out, values[i]);
        proof {
            let next = values@.take(i + 1);
            assert(next.drop_last() =~= values@.take(i as int));
            assert(out@ =~= start + u32_seq_bytes(next));
        }
    }
    assert(values@.take(values@.len() as int) =~= values@);
}

/// Appends every number of `values`, each as eight bytes.
pub fn write_i64_slice(out: &mut Vec<u8>, values: &[i64])
    ensures
        final(out)@ == old(out)@ + i64_seq_bytes(values@),
{
    let ghost start = out@;
    assert(values@.take(0) =~= Seq::<i64>::empty());
    assert(start + i64_seq_bytes(values@.take(0)) =~= start);
    for i in 0..values.len()
        invariant
            out@ == start + i64_seq_bytes(values@.take(i as int)),
    {
        write_i64_le(out, values[i]);
        proof {
            let next = values@.take(i + 1);
            assert(next.drop_last() =~= values@.take(i as int));
            assert(out@ =~= start + i64_seq_bytes(next));
        }
    }
    assert(values@.take(values@.len() as int) =~= values@);
}

/// As many signed 64-bit numbers as fit into the bytes.
pub fn numbers_of(bytes: &[u8]) -> (r: Vec<i64>)
    ensures
        r@ == i64_seq_of(bytes@),
{
    let mut values: Vec<i64> = Vec::new();
    let n: usize = bytes.len() / 8;
    let total: usize = bytes.len();
    for i in 0..n
        invariant
            n == bytes@.len() / 8,
            total == bytes@.len(),
            values@ == i64_seq_of(bytes@).take(i as int),
    {
        values.push(read_i64_le(bytes, 8 * i));
        assert(values@ =~= i64_seq_of(bytes@).take(i + 1));
    }
    assert(values@ =~= i64_seq_of(bytes@));
    values
}

pub fn read_u32_le(bytes: &[u8], pos: usize) -> (v: u32)
    requires
        pos + 4 <= bytes@.len(),
    ensures
        v == u32_at(bytes@, pos as int),
{
    let digits: u64 = read_le(bytes, pos, 4);
    proof {
        lemma_pow256();
        lemma_le_value_bound(bytes@.subrange(pos as int, pos + 4));
    }
    digits as u32
}

pub fn read_u64_le(bytes: &[u8], pos: usize) -> (v: u64)
    requires
        pos + 8 <= bytes@.len(),
    ensures
        v == u64_at(bytes@, pos as int),
{
    read_le(bytes, pos, 8)
}

pub fn read_i32_le(bytes: &[u8], pos: usize) -> (v: i32)
    requires
        pos + 4 <= bytes@.len(),
    ensures
        v == i32_at(bytes@, pos as int),
{
    let digits: u64 = read_le(bytes, pos, 4);
    proof {
        lemma_pow256();
        lemma_le_value_bound(bytes@.subrange(pos as int, pos + 4));
    }
    if digits < 0x8000_0000 {
        digits as i32
    } else {
        (digits as i64 - 0x1_0000_0000) as i32
    }
}

pub fn read_i64_le(bytes: &[u8], pos: usize) -> (v: i64)
    requires
        pos + 8 <= bytes@.len(),
    ensures
        v == i64_at(bytes@, pos as int),
{
    digits_to_i64(read_le(bytes, pos, 8))
}

} // verus!
