//! Variable-length integers (seven bits to a byte, lowest first, the top bit set on every byte but
//! the last) and the row-id sections made of them.
use vstd::prelude::*;

use crate::error::IndexError;
use crate::little_endian;
use crate::wire;

verus! {

/// The shortest encoding of `v`.
pub open spec fn varint_bytes(v: nat) -> Seq<u8>
    decreases v,
{
    if v < 0x80 {
        seq![v as u8]
    } else {
        seq![(v % 0x80 + 0x80) as u8] + varint_bytes(v / 0x80)
    }
}

/// What one integer at the front of `s` decodes to when `read` of its bytes have been consumed
/// already: its remaining digits as a number, and how many bytes they take. Ten bytes hold 64 bits
/// with the last byte at most one.
pub open spec fn varint_parse(s: Seq<u8>, read: nat) -> Result<(nat, nat), IndexError>
    decreases s.len(),
{
    if read >= 10 {
        Err(IndexError::VarintTooLong)
    } else if s.len() == 0 {
        Err(IndexError::VarintTruncated)
    } else if read == 9 && s[0] % 0x80 > 1 {
        Err(IndexError::VarintTooLong)
    } else if s[0] < 0x80 {
        Ok((s[0] as nat, 1))
    } else {
        match varint_parse(s.drop_first(), read + 1) {
            Ok((v, n)) => Ok(((s[0] - 0x80) as nat + 0x80 * v, n + 1)),
            Err(e) => Err(e),
        }
    }
}

/// The integer at `pos` of `s` and the position behind it.
pub open spec fn varint_at(s: Seq<u8>, pos: nat) -> Result<(u64, nat), IndexError> {
    if pos >= s.len() {
        Err(IndexError::VarintTruncated)
    } else {
        match varint_parse(s.skip(pos as int), 0) {
            Ok((v, n)) => Ok((v as u64, pos + n)),
            Err(e) => Err(e),
        }
    }
}

/// Where reading stops without an integer: at the end of the bytes, or behind the tenth byte. A
/// position behind the end stays.
pub open spec fn stopped_at(s: Seq<u8>, pos: nat, e: IndexError) -> nat {
    if e == IndexError::VarintTooLong {
        pos + 10
    } else if pos <= s.len() {
        s.len()
    } else {
        pos
    }
}

/// The bound on the digits that may still follow once `read` bytes have been consumed.
pub open spec fn digit_bound(read: nat) -> nat
    decreases 10 - read,
{
    if read >= 10 {
        0
    } else if read == 9 {
        2
    } else {
        0x80 * digit_bound(read + 1)
    }
}

pub open spec fn pow128(n: nat) -> nat
    decreases n,
{
    if n == 0 {
        1
    } else {
        0x80 * pow128((n - 1) as nat)
    }
}

proof fn lemma_digit_bound_zero()
    ensures
        digit_bound(0) == 0x1_0000_0000_0000_0000,
{
    reveal_with_fuel(digit_bound, 11);
}

proof fn lemma_digit_bound_product(read: nat)
    requires
        read < 10,
    ensures
        pow128(read) * digit_bound(read) == 0x1_0000_0000_0000_0000,
        pow128(read) >= 1,
        digit_bound(read) >= 2,
    decreases read,
{
    if read == 0 {
        lemma_digit_bound_zero();
    } else {
        lemma_digit_bound_product((read - 1) as nat);
        let p = pow128((read - 1) as nat);
        let b = digit_bound(read);
        assert(digit_bound((read - 1) as nat) == 0x80 * b);
        assert((0x80 * p) * b == p * (0x80 * b)) by (nonlinear_arith);
        assert(b >= 2) by {
            if b < 2 {
                reveal_with_fuel(digit_bound, 11);
            }
        }
    }
}

proof fn lemma_parse_bound(s: Seq<u8>, read: nat)
    ensures
        match varint_parse(s, read) {
            Ok((v, n)) => v < digit_bound(read) && 1 <= n <= s.len() && n + read <= 10,
            Err(_) => true,
        },
    decreases s.len(),
{
    if read < 10 && s.len() > 0 {
        lemma_digit_bound_product(read);
        if s[0] >= 0x80 {
            lemma_parse_bound(s.drop_first(), read + 1);
            if read == 9 {
                assert(varint_parse(s.drop_first(), 10) is Err);
            }
        } else if read < 9 {
            lemma_digit_bound_product(read + 1);
        }
    }
}

/// Every integer that is read fits into 64 bits and ends inside the bytes.
pub proof fn varint_at_bounds(s: Seq<u8>, pos: nat)
    requires
        pos <= s.len(),
    ensures
        match varint_at(s, pos) {
            Ok((v, next)) => pos < next <= s.len() && next <= pos + 10 && varint_parse(
                s.skip(pos as int),
                0,
            )->Ok_0.0 == v as nat,
            Err(_) => true,
        },
{
    lemma_parse_bound(s.skip(pos as int), 0);
    lemma_digit_bound_zero();
}

proof fn lemma_parse_of_bytes(v: nat, read: nat, rest: Seq<u8>)
    requires
        read < 10,
        v < digit_bound(read),
    ensures
        varint_parse(varint_bytes(v) + rest, read) == Ok::<(nat, nat), IndexError>(
            (v, varint_bytes(v).len()),
        ),
    decreases v,
{
    let s = varint_bytes(v) + rest;
    if v < 0x80 {
        assert(s[0] == v as u8);
    } else {
        assert(read < 9);
        let tail = varint_bytes(v / 0x80);
        assert(s[0] == (v % 0x80 + 0x80) as u8);
        assert(s.drop_first() =~= tail + rest);
        lemma_parse_of_bytes(v / 0x80, read + 1, rest);
    }
}

/// An integer that was appended to `front` and followed by anything reads back as it was.
pub proof fn varint_round_trip(front: Seq<u8>, v: u64, rest: Seq<u8>)
    ensures
        varint_at(front + varint_bytes(v as nat) + rest, front.len()) == Ok::<
            (u64, nat),
            IndexError,
        >((v, front.len() + varint_bytes(v as nat).len())),
{
    lemma_digit_bound_zero();
    lemma_parse_of_bytes(v as nat, 0, rest);
    let s = front + varint_bytes(v as nat) + rest;
    assert(s.skip(front.len() as int) =~= varint_bytes(v as nat) + rest);
}

/// The same, for an integer found in the middle of longer bytes.
pub proof fn lemma_varint_found(s: Seq<u8>, pos: nat, v: u64)
    requires
        wire::occurs(s, pos as int, varint_bytes(v as nat)),
    ensures
        varint_at(s, pos) == Ok::<(u64, nat), IndexError>(
            (v, pos + varint_bytes(v as nat).len()),
        ),
{
    let n = varint_bytes(v as nat).len();
    let front = s.take(pos as int);
    let rest = s.skip((pos + n) as int);
    assert(s =~= front + varint_bytes(v as nat) + rest);
    varint_round_trip(front, v, rest);
}

/// Appends the shortest encoding of `value`.
pub fn write_u64_varint(buf: &mut Vec<u8>, value: u64)
    ensures
        final(buf)@ == old(buf)@ + varint_bytes(value as nat),
{
    let ghost start = buf@;
    let mut rest: u64 = value;
    while rest >= 0x80
        invariant
            buf@ + varint_bytes(rest as nat) == start + varint_bytes(value as nat),
        decreases rest,
    {
        let ghost before = buf@;
        buf.push((rest % 0x80 + 0x80) as u8);
        proof {
            assert(buf@ + varint_bytes(rest as nat / 0x80) =~= before + varint_bytes(rest as nat));
        }
        rest = rest / 0x80;
    }
    let ghost before = buf@;
    buf.push(rest as u8);
    assert(buf@ =~= before + varint_bytes(rest as nat));
}

/// Reads the integer at `*pos` and moves `*pos` behind it.
pub fn read_u64_varint(bytes: &[u8], pos: &mut usize) -> (r: Result<u64, IndexError>)
    ensures
        *old(pos) <= bytes@.len() ==> *final(pos) <= bytes@.len(),
        match r {
            Ok(v) => varint_at(bytes@, *old(pos) as nat) == Ok::<(u64, nat), IndexError>(
                (v, *final(pos) as nat),
            ),
            Err(e) => varint_at(bytes@, *old(pos) as nat) == Err::<(u64, nat), IndexError>(e)
                && *final(pos) == stopped_at(bytes@, *old(pos) as nat, e),
        },
{
    if *pos >= bytes.len() {
        return Err(IndexError::VarintTruncated);
    }
    let ghost start = *pos as nat;
    let ghost whole = bytes@.skip(start as int);
    let mut value: u64 = 0;
    let mut weight: u64 = 1;
    let mut read: usize = 0;
    proof {
        lemma_digit_bound_zero();
    }
    loop
        invariant
            read <= 9,
            start == *old(pos),
            start < bytes@.len(),
            start + read == *pos,
            *pos <= bytes@.len(),
            weight as nat == pow128(read as nat),
            value < weight,
            whole == bytes@.skip(start as int),
            varint_parse(whole, 0) == (match varint_parse(bytes@.skip(*pos as int), read as nat) {
                Ok((v, n)) => Ok::<(nat, nat), IndexError>((value as nat + weight as nat * v, n + read as nat)),
                Err(e) => Err::<(nat, nat), IndexError>(e),
            }),
        decreases 10 - read,
    {
        let ghost rest = bytes@.skip(*pos as int);
        proof {
            lemma_digit_bound_product(read as nat);
        }
        if *pos >= bytes.len() {
            return Err(IndexError::VarintTruncated);
        }
        let byte: u8 = bytes[*pos];
        *pos = *pos + 1;
        assert(rest[0] == byte);
        assert(rest.drop_first() =~= bytes@.skip(*pos as int));
        let digit: u64 = (byte % 0x80) as u64;
        if read == 9 && digit > 1 {
            return Err(IndexError::VarintTooLong);
        }
        let ghost old_value = value;
        proof {
            let w = weight as int;
            let b = digit_bound(read as nat) as int;
            let dg = digit as int;
            if read < 9 {
                lemma_digit_bound_product((read + 1) as nat);
                assert(b >= 0x80 * 2);
            }
            assert(dg + 1 <= b);
            assert(value + w * dg < 0x1_0000_0000_0000_0000 && w * dg >= 0) by (nonlinear_arith)
                requires
                    value < w,
                    0 <= dg,
                    dg + 1 <= b,
                    w * b == 0x1_0000_0000_0000_0000,
            ;
        }
        value = value + weight * digit;
        if byte < 0x80 {
            return Ok(value);
        }
        if read == 9 {
            assert(varint_parse(rest.drop_first(), 10) is Err);
            return Err(IndexError::VarintTooLong);
        }
        proof {
            let w = weight as int;
            let dg = digit as int;
            lemma_digit_bound_product((read + 1) as nat);
            let b = digit_bound((read + 1) as nat) as int;
            assert(w * 0x80 < 0x1_0000_0000_0000_0000) by (nonlinear_arith)
                requires
                    (0x80 * w) * b == 0x1_0000_0000_0000_0000,
                    b >= 2,
                    w >= 1,
            ;
            assert(value < w * 0x80) by (nonlinear_arith)
                requires
                    value == old_value + w * dg,
                    old_value < w,
                    dg < 0x80,
            ;
            match varint_parse(rest.drop_first(), (read + 1) as nat) {
                Ok((v, n)) => {
                    let lhs = old_value as int + w * (dg + 0x80 * v);
                    assert(lhs == value as int + (w * 0x80) * v) by (nonlinear_arith)
                        requires
                            lhs == old_value as int + w * (dg + 0x80 * v),
                            value == old_value + w * dg,
                    ;
                },
                Err(_) => {},
            }
        }
        weight = weight * 0x80;
        read = read + 1;
    }
}

/// How far `id` lies behind `prev`, counted modulo 2^64.
pub open spec fn id_step(prev: i64, id: i64) -> nat {
    ((id - prev) % 0x1_0000_0000_0000_0000) as nat
}

/// The id that lies `step` behind `prev`, counted modulo 2^64.
pub open spec fn id_after(prev: i64, step: u64) -> i64 {
    little_endian::i64_of_digits(
        (little_endian::i64_digits(prev) + step as nat) % 0x1_0000_0000_0000_0000,
    )
}

pub open spec fn ids_sorted(ids: Seq<i64>) -> bool {
    forall|i: int, j: int| 0 <= i <= j < ids.len() ==> ids[i] <= ids[j]
}

/// The id before the one at `i`; the first one counts from `base`.
pub open spec fn id_before(base: i64, ids: Seq<i64>, i: int) -> i64 {
    if i == 0 {
        base
    } else {
        ids[i - 1]
    }
}

/// The id section of `ids`: each id as its step from the one before.
pub open spec fn ids_bytes(base: i64, ids: Seq<i64>) -> Seq<u8>
    decreases ids.len(),
{
    if ids.len() == 0 {
        Seq::empty()
    } else {
        ids_bytes(base, ids.drop_last()) + varint_bytes(
            id_step(id_before(base, ids, ids.len() - 1), ids.last()),
        )
    }
}

/// Decodes ids from `pos` on until there are `count` of them, `got` being those before `pos`; the
/// result holds all of them and the position behind the last.
pub open spec fn ids_parse(
    s: Seq<u8>,
    base: i64,
    pos: nat,
    got: Seq<i64>,
    count: nat,
) -> Result<(Seq<i64>, nat), IndexError>
    decreases count - got.len(),
{
    if got.len() >= count {
        Ok((got, pos))
    } else {
        match varint_at(s, pos) {
            Err(e) => Err(e),
            Ok((step, next)) => {
                let prev = id_before(base, got, got.len() as int);
                let id = id_after(prev, step);
                if id < prev {
                    Err(IndexError::IdsNotSorted)
                } else {
                    ids_parse(s, base, next, got.push(id), count)
                }
            },
        }
    }
}

/// The ids of a section that must end with its last id.
pub open spec fn ids_of_section(s: Seq<u8>, base: i64, count: nat) -> Result<Seq<i64>, IndexError> {
    match ids_parse(s, base, 0, Seq::empty(), count) {
        Err(e) => Err(e),
        Ok((ids, pos)) => if pos == s.len() {
            Ok(ids)
        } else {
            Err(IndexError::IdsTrailingBytes)
        },
    }
}

proof fn lemma_step_and_back(prev: i64, id: i64)
    ensures
        id_step(prev, id) < 0x1_0000_0000_0000_0000,
        id_after(prev, id_step(prev, id) as u64) == id,
{
}

proof fn lemma_ids_bytes_take(base: i64, ids: Seq<i64>, k: int)
    requires
        0 <= k < ids.len(),
    ensures
        ids_bytes(base, ids.take(k + 1)) == ids_bytes(base, ids.take(k)) + varint_bytes(
            id_step(id_before(base, ids, k), ids[k]),
        ),
{
    assert(ids.take(k + 1).drop_last() =~= ids.take(k));
}

proof fn lemma_ids_bytes_prefix(base: i64, ids: Seq<i64>, k: int)
    requires
        0 <= k <= ids.len(),
    ensures
        ids_bytes(base, ids.take(k)).len() <= ids_bytes(base, ids).len(),
        ids_bytes(base, ids).take(ids_bytes(base, ids.take(k)).len() as int) == ids_bytes(
            base,
            ids.take(k),
        ),
    decreases ids.len() - k,
{
    if k == ids.len() {
        assert(ids.take(k) =~= ids);
        assert(ids_bytes(base, ids).take(ids_bytes(base, ids).len() as int) =~= ids_bytes(base, ids));
    } else {
        lemma_ids_bytes_prefix(base, ids, k + 1);
        lemma_ids_bytes_take(base, ids, k);
        let long = ids_bytes(base, ids.take(k + 1));
        let short = ids_bytes(base, ids.take(k));
        assert(ids_bytes(base, ids).take(short.len() as int) =~= long.take(short.len() as int));
        assert(long.take(short.len() as int) =~= short);
    }
}

proof fn lemma_ids_parse_of_bytes(base: i64, ids: Seq<i64>, rest: Seq<u8>, k: int)
    requires
        ids_sorted(ids),
        ids.len() > 0 ==> base <= ids[0],
        0 <= k <= ids.len(),
    ensures
        ids_parse(
            ids_bytes(base, ids) + rest,
            base,
            ids_bytes(base, ids.take(k)).len(),
            ids.take(k),
            ids.len(),
        ) == Ok::<(Seq<i64>, nat), IndexError>((ids, ids_bytes(base, ids).len())),
    decreases ids.len() - k,
{
    let s = ids_bytes(base, ids) + rest;
    if k == ids.len() {
        assert(ids.take(k) =~= ids);
    } else {
        let pos = ids_bytes(base, ids.take(k)).len();
        let prev = id_before(base, ids, k);
        let step = id_step(prev, ids[k]);
        lemma_step_and_back(prev, ids[k]);
        lemma_ids_bytes_take(base, ids, k);
        lemma_ids_bytes_prefix(base, ids, k + 1);
        let upto = ids_bytes(base, ids.take(k + 1));
        assert(s.subrange(pos as int, (pos + varint_bytes(step).len()) as int) =~= upto.skip(
            pos as int,
        ));
        assert(upto.skip(pos as int) =~= varint_bytes(step));
        lemma_varint_found(s, pos, step as u64);
        assert(id_before(base, ids.take(k), k) == prev);
        assert(ids.take(k).push(ids[k]) =~= ids.take(k + 1));
        lemma_ids_parse_of_bytes(base, ids, rest, k + 1);
    }
}

/// Ids that go up read back as they were written, whatever follows their section.
pub proof fn ids_round_trip(base: i64, ids: Seq<i64>, rest: Seq<u8>)
    requires
        ids_sorted(ids),
        ids.len() > 0 ==> base <= ids[0],
    ensures
        ids_parse(ids_bytes(base, ids) + rest, base, 0, Seq::empty(), ids.len()) == Ok::<
            (Seq<i64>, nat),
            IndexError,
        >((ids, ids_bytes(base, ids).len())),
        ids_of_section(ids_bytes(base, ids), base, ids.len()) == Ok::<Seq<i64>, IndexError>(ids),
{
    assert(ids.take(0) =~= Seq::<i64>::empty());
    lemma_ids_parse_of_bytes(base, ids, rest, 0);
    lemma_ids_parse_of_bytes(base, ids, Seq::empty(), 0);
    assert(ids_bytes(base, ids) + Seq::<u8>::empty() =~= ids_bytes(base, ids));
}

proof fn lemma_ids_parse_sorted(s: Seq<u8>, base: i64, pos: nat, got: Seq<i64>, count: nat)
    requires
        ids_sorted(got),
        got.len() > 0 ==> base <= got[0],
        got.len() <= count,
    ensures
        match ids_parse(s, base, pos, got, count) {
            Ok((ids, _)) => ids_sorted(ids) && ids.len() == count && (ids.len() > 0 ==> base
                <= ids[0]),
            Err(_) => true,
        },
    decreases count - got.len(),
{
    if got.len() < count {
        match varint_at(s, pos) {
            Err(_) => {},
            Ok((step, next)) => {
                let prev = id_before(base, got, got.len() as int);
                let id = id_after(prev, step);
                if id >= prev {
                    lemma_ids_parse_sorted(s, base, next, got.push(id), count);
                }
            },
        }
    }
}

/// Whatever an id section holds, the ids that are read from it go up from its base.
pub proof fn decoded_ids_are_sorted(s: Seq<u8>, base: i64, count: nat)
    ensures
        match ids_parse(s, base, 0, Seq::empty(), count) {
            Ok((ids, _)) => ids_sorted(ids) && ids.len() == count && (ids.len() > 0 ==> base
                <= ids[0]),
            Err(_) => true,
        },
{
    lemma_ids_parse_sorted(s, base, 0, Seq::empty(), count);
}

/// The base (the first id, zero without ids) and the id section of `ids`.
pub fn encode_delta_varint_ids(ids: &[i64]) -> (r: (i64, Vec<u8>))
    ensures
        r.0 == (if ids@.len() == 0 {
            0
        } else {
            ids@[0]
        }),
        r.1@ == ids_bytes(r.0, ids@),
{
    let mut buf: Vec<u8> = Vec::new();
    if ids.len() == 0 {
        return (0, buf);
    }
    let base: i64 = ids[0];
    let mut prev: i64 = base;
    assert(ids@.take(0) =~= Seq::<i64>::empty());
    for i in 0..ids.len()
        invariant
            ids@.len() > 0,
            base == ids@[0],
            prev == id_before(base, ids@, i as int),
            buf@ == ids_bytes(base, ids@.take(i as int)),
    {
        let id: i64 = ids[i];
        let step: u64 = little_endian::i64_to_digits(id).wrapping_sub(
            little_endian::i64_to_digits(prev),
        );
        assert(step as nat == id_step(prev, id));
        write_u64_varint(&mut buf, step);
        proof {
            lemma_ids_bytes_take(base, ids@, i as int);
        }
        prev = id;
    }
    assert(ids@.take(ids@.len() as int) =~= ids@);
    (base, buf)
}

/// Decodes `count` ids from the front of `buf`, with the position behind the last one.
pub fn decode_id_prefix(base: i64, buf: &[u8], count: usize) -> (r: Result<
    (Vec<i64>, usize),
    IndexError,
>)
    ensures
        match r {
            Ok((ids, pos)) => ids_parse(buf@, base, 0, Seq::empty(), count as nat) == Ok::<
                (Seq<i64>, nat),
                IndexError,
            >((ids@, pos as nat)) && ids_sorted(ids@) && pos <= buf@.len(),
            Err(e) => ids_parse(buf@, base, 0, Seq::empty(), count as nat) == Err::<
                (Seq<i64>, nat),
                IndexError,
            >(e),
        },
{
    let mut ids: Vec<i64> = Vec::new();
    let mut pos: usize = 0;
    let mut current: u64 = little_endian::i64_to_digits(base);
    let mut prev: i64 = base;
    for i in 0..count
        invariant
            ids@.len() == i,
            pos <= buf@.len(),
            prev == id_before(base, ids@, i as int),
            current as nat == little_endian::i64_digits(prev),
            ids_parse(buf@, base, 0, Seq::empty(), count as nat) == ids_parse(
                buf@,
                base,
                pos as nat,
                ids@,
                count as nat,
            ),
    {
        let step: u64 = match read_u64_varint(buf, &mut pos) {
            Ok(v) => v,
            Err(e) => {
                return Err(e);
            },
        };
        current = current.wrapping_add(step);
        let id: i64 = little_endian::digits_to_i64(current);
        assert(id == id_after(prev, step));
        if id < prev {
            return Err(IndexError::IdsNotSorted);
        }
        prev = id;
        ids.push(id);
    }
    proof {
        decoded_ids_are_sorted(buf@, base, count as nat);
    }
    Ok((ids, pos))
}

/// Decodes an id section that must hold `count` ids and nothing else.
pub fn decode_delta_varint_ids(base: i64, buf: &[u8], count: usize) -> (r: Result<
    Vec<i64>,
    IndexError,
>)
    ensures
        match r {
            Ok(ids) => ids_of_section(buf@, base, count as nat) == Ok::<Seq<i64>, IndexError>(ids@)
                && ids_sorted(ids@),
            Err(e) => ids_of_section(buf@, base, count as nat) == Err::<Seq<i64>, IndexError>(e),
        },
{
    match decode_id_prefix(base, buf, count) {
        Err(e) => Err(e),
        Ok((ids, pos)) => {
            if pos != buf.len() {
                return Err(IndexError::IdsTrailingBytes);
            }
            Ok(ids)
        },
    }
}

} // verus!
