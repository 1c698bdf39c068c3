//! The table of lists that begin with an id section, and the centroids before it.
use vstd::prelude::*;

use crate::error::IndexError;
use crate::index_io_util;
use crate::list_table;
use crate::little_endian;
use crate::wire;

verus! {

/// What the table says of the lists: where each starts, how many rows it has, and how long its id
/// section is.
#[verifier::ext_equal]
pub struct IdTable {
    pub offsets: Seq<i64>,
    pub counts: Seq<i32>,
    pub id_lens: Seq<i32>,
}

pub open spec fn no_table() -> IdTable {
    IdTable {
        offsets: Seq::empty(),
        counts: Seq::empty(),
        id_lens: Seq::empty(),
    }
}

impl IdTable {
    /// One entry for each of `nlist` lists, none with a negative length.
    pub open spec fn fits(self, nlist: nat) -> bool {
        &&& self.offsets.len() == nlist
        &&& self.counts.len() == nlist
        &&& self.id_lens.len() == nlist
        &&& forall|i: int| 0 <= i < nlist ==> #[trigger] self.counts[i] >= 0
        &&& forall|i: int| 0 <= i < nlist ==> #[trigger] self.id_lens[i] >= 0
    }

    pub open spec fn prefix(self, k: int) -> IdTable {
        IdTable {
            offsets: self.offsets.take(k),
            counts: self.counts.take(k),
            id_lens: self.id_lens.take(k),
        }
    }

    pub open spec fn entry(self, i: int) -> Seq<u8> {
        little_endian::i64_bytes(self.offsets[i]) + little_endian::i32_bytes(self.counts[i])
            + little_endian::i32_bytes(self.id_lens[i])
    }

    pub open spec fn entries(self) -> Seq<Seq<u8>> {
        Seq::new(self.offsets.len(), |i: int| self.entry(i))
    }

    /// The table as it is stored.
    pub open spec fn bytes(self) -> Seq<u8> {
        wire::concat(self.entries())
    }
}

/// Reads the table from `pos` on until there are `nlist` entries, `got` being those before.
pub open spec fn parse_table(
    s: Seq<u8>,
    pos: nat,
    got: IdTable,
    nlist: nat,
) -> Result<IdTable, IndexError>
    decreases nlist - got.offsets.len(),
{
    let list_id = got.offsets.len() as usize;
    let at = pos as int;
    if got.offsets.len() >= nlist {
        Ok(got)
    } else if pos + 12 > s.len() {
        Err(IndexError::UnexpectedEof)
    } else if little_endian::i32_at(s, at + 8) < 0 {
        Err(IndexError::NegativeListCount { found: little_endian::i32_at(s, at + 8), list_id })
    } else if pos + 16 > s.len() {
        Err(IndexError::UnexpectedEof)
    } else if little_endian::i32_at(s, at + 12) < 0 {
        Err(IndexError::NegativeIdBytes { found: little_endian::i32_at(s, at + 12), list_id })
    } else {
        parse_table(
            s,
            pos + 16,
            IdTable {
                offsets: got.offsets.push(little_endian::i64_at(s, at)),
                counts: got.counts.push(little_endian::i32_at(s, at + 8)),
                id_lens: got.id_lens.push(little_endian::i32_at(s, at + 12)),
            },
            nlist,
        )
    }
}

/// The table of the lists.
pub struct IdTableVecs {
    pub offsets: Vec<i64>,
    pub counts: Vec<i32>,
    pub id_lens: Vec<i32>,
}

impl View for IdTableVecs {
    type V = IdTable;

    open spec fn view(&self) -> IdTable {
        IdTable {
            offsets: self.offsets@,
            counts: self.counts@,
            id_lens: self.id_lens@,
        }
    }
}

/// Reads a table that starts at `start`.
pub fn read_table(section: &[u8], start: usize, nlist: usize) -> (r: Result<
    IdTableVecs,
    IndexError,
>)
    requires
        start <= section@.len(),
    ensures
        match r {
            Ok(t) => {
                &&& parse_table(section@, start as nat, no_table(), nlist as nat) == Ok::<
                    IdTable,
                    IndexError,
                >(t@)
                &&& t@.fits(nlist as nat)
            },
            Err(e) => parse_table(section@, start as nat, no_table(), nlist as nat)
                == Err::<IdTable, IndexError>(e),
        },
{
    let total: usize = section.len();
    let mut t = IdTableVecs {
        offsets: Vec::new(),
        counts: Vec::new(),
        id_lens: Vec::new(),
    };
    let mut pos: usize = start;
    assert(t@ =~= no_table());
    for i in 0..nlist
        invariant
            total == section@.len(),
            start <= pos <= total,
            t@.fits(i as nat),
            parse_table(section@, start as nat, no_table(), nlist as nat) == parse_table(
                section@,
                pos as nat,
                t@,
                nlist as nat,
            ),
    {
        if total - pos < 12 {
            return Err(IndexError::UnexpectedEof);
        }
        let offset: i64 = little_endian::read_i64_le(section, pos);
        let count: i32 = little_endian::read_i32_le(section, pos + 8);
        if count < 0 {
            return Err(IndexError::NegativeListCount { found: count, list_id: i });
        }
        if total - pos < 16 {
            return Err(IndexError::UnexpectedEof);
        }
        let id_len: i32 = little_endian::read_i32_le(section, pos + 12);
        if id_len < 0 {
            return Err(IndexError::NegativeIdBytes { found: id_len, list_id: i });
        }
        t.offsets.push(offset);
        t.counts.push(count);
        t.id_lens.push(id_len);
        pos = pos + 16;
    }
    Ok(t)
}

/// Appends a table.
pub fn write_table(out: &mut Vec<u8>, t: &IdTableVecs, nlist: usize)
    requires
        t@.fits(nlist as nat),
    ensures
        final(out)@ == old(out)@ + t@.bytes(),
{
    let ghost start = out@;
    let ghost entries = t@.entries();
    proof {
        wire::lemma_concat_none(entries);
        assert(start + Seq::<u8>::empty() =~= start);
    }
    for i in 0..nlist
        invariant
            t@.fits(nlist as nat),
            entries == t@.entries(),
            out@ == start + wire::concat(entries.take(i as int)),
    {
        let ghost before = out@;
        little_endian::write_i64_le(out, t.offsets[i]);
        little_endian::write_i32_le(out, t.counts[i]);
        little_endian::write_i32_le(out, t.id_lens[i]);
        proof {
            wire::lemma_concat_next(entries, i as int);
            assert(out@ =~= before + t@.entry(i as int));
            assert(out@ =~= start + wire::concat(entries.take(i + 1)));
        }
    }
    proof {
        wire::lemma_concat_all(entries);
    }
}

proof fn lemma_entry_found(s: Seq<u8>, pos: int, t: IdTable, i: int)
    requires
        wire::occurs(s, pos, t.entry(i)),
    ensures
        t.entry(i).len() == 16,
        pos + 16 <= s.len(),
        little_endian::i64_at(s, pos) == t.offsets[i],
        little_endian::i32_at(s, pos + 8) == t.counts[i],
        little_endian::i32_at(s, pos + 12) == t.id_lens[i],
{
    let a = little_endian::i64_bytes(t.offsets[i]);
    let b = little_endian::i32_bytes(t.counts[i]);
    let c = little_endian::i32_bytes(t.id_lens[i]);
    little_endian::lemma_lens();
    wire::lemma_occurs_split(s, pos, a + b, c);
    wire::lemma_occurs_split(s, pos, a, b);
    little_endian::read_back_i64(s, pos, t.offsets[i]);
    little_endian::read_back_i32(s, pos + 8, t.counts[i]);
    little_endian::read_back_i32(s, pos + 12, t.id_lens[i]);
}

pub proof fn lemma_table_len(t: IdTable, k: int)
    requires
        0 <= k <= t.offsets.len(),
    ensures
        wire::concat(t.entries().take(k)).len() == 16 * k,
        t.bytes().len() == 16 * t.offsets.len(),
{
    little_endian::lemma_lens();
    let parts = t.entries().take(k);
    assert forall|i: int| 0 <= i < parts.len() implies (#[trigger] parts[i]).len() == 16 by {
        assert(parts[i] == t.entry(i));
    }
    wire::lemma_concat_len(parts, 16);
    let all = t.entries();
    assert forall|i: int| 0 <= i < all.len() implies (#[trigger] all[i]).len() == 16 by {
        assert(all[i] == t.entry(i));
    }
    wire::lemma_concat_len(all, 16);
}

/// A stored table reads back.
pub proof fn lemma_table_found(
    s: Seq<u8>,
    pos: int,
    t: IdTable,
    nlist: nat,
    k: int,
)
    requires
        wire::occurs(s, pos, t.bytes()),
        t.fits(nlist),
        0 <= k <= nlist,
        nlist <= usize::MAX,
    ensures
        parse_table(s, (pos + 16 * k) as nat, t.prefix(k), nlist) == Ok::<
            IdTable,
            IndexError,
        >(t),
    decreases nlist - k,
{
    if k == nlist {
        assert(t.prefix(k) =~= t);
    } else {
        let parts = t.entries();
        wire::lemma_concat_part(s, pos, parts, k);
        lemma_table_len(t, k);
        lemma_entry_found(s, pos + 16 * k, t, k);
        assert(IdTable {
            offsets: t.prefix(k).offsets.push(t.offsets[k]),
            counts: t.prefix(k).counts.push(t.counts[k]),
            id_lens: t.prefix(k).id_lens.push(t.id_lens[k]),
        } =~= t.prefix(k + 1));
        lemma_table_found(s, pos, t, nlist, k + 1);
    }
}

/// The centroids and the table behind them.
pub open spec fn parse_section(s: Seq<u8>, d: usize, nlist: usize) -> Result<
    (Seq<u32>, IdTable),
    IndexError,
> {
    match index_io_util::section_size(nlist, d) {
        Err(e) => Err(e),
        Ok(size) => if s.len() < 4 * size {
            Err(IndexError::UnexpectedEof)
        } else {
            match parse_table(s, (4 * size) as nat, no_table(), nlist as nat) {
                Err(e) => Err(e),
                Ok(table) => Ok((little_endian::u32_seq_of(s.take(4 * size)), table)),
            }
        },
    }
}

/// Reads the centroids and the table behind them.
pub fn read_section(section: &[u8], d: usize, nlist: usize) -> (r: Result<
    (Vec<u32>, IdTableVecs),
    IndexError,
>)
    ensures
        match r {
            Ok((centroids, table)) => {
                &&& parse_section(section@, d, nlist) == Ok::<(Seq<u32>, IdTable), IndexError>(
                    (centroids@, table@),
                )
                &&& centroids@.len() == nlist * d
                &&& table@.fits(nlist as nat)
            },
            Err(e) => parse_section(section@, d, nlist) == Err::<(Seq<u32>, IdTable), IndexError>(
                e,
            ),
        },
{
    let size: usize = match index_io_util::checked_section_size(nlist, d) {
        Ok(v) => v,
        Err(e) => {
            return Err(e);
        },
    };
    let total: usize = section.len();
    if (total as u64) < 4 * (size as u64) {
        return Err(IndexError::UnexpectedEof);
    }
    let centroids: Vec<u32> = index_io_util::patterns_of(list_table::part_of(section, 0, 4 * size));
    proof {
        assert(section@.subrange(0, 4 * size) =~= section@.take(4 * size));
        assert(centroids@.len() == size);
    }
    match read_table(section, 4 * size, nlist) {
        Ok(table) => Ok((centroids, table)),
        Err(e) => Err(e),
    }
}

/// How long the centroids and the table are together.
pub fn section_len(d: usize, nlist: usize) -> (r: Result<usize, IndexError>)
    ensures
        match index_io_util::section_size(nlist, d) {
            Err(e) => r == Err::<usize, IndexError>(e),
            Ok(size) => if 4 * size + 16 * nlist > usize::MAX {
                r == Err::<usize, IndexError>(IndexError::SectionSizeOverflow)
            } else {
                r == Ok::<usize, IndexError>((4 * size + 16 * nlist) as usize)
            },
        },
{
    match index_io_util::checked_section_size(nlist, d) {
        Err(e) => Err(e),
        Ok(size) => {
            let len: u128 = 4 * (size as u128) + 16 * (nlist as u128);
            if len > usize::MAX as u128 {
                return Err(IndexError::SectionSizeOverflow);
            }
            Ok(len as usize)
        },
    }
}

/// Stored centroids and a stored table read back, whatever follows them.
pub proof fn section_round_trip(centroids: Seq<u32>, t: IdTable, d: usize, nlist: usize, rest: Seq<u8>)
    requires
        centroids.len() == nlist * d,
        nlist * d <= index_io_util::MAX_SECTION_ELEMENTS,
        t.fits(nlist as nat),
    ensures
        parse_section(
            little_endian::u32_seq_bytes(centroids) + t.bytes() + rest,
            d,
            nlist,
        ) == Ok::<(Seq<u32>, IdTable), IndexError>((centroids, t)),
{
    let front = little_endian::u32_seq_bytes(centroids);
    let s = front + t.bytes() + rest;
    little_endian::lemma_u32_seq_bytes_len(centroids);
    little_endian::u32_seq_round_trip(centroids);
    wire::lemma_occurs_whole(s);
    wire::lemma_occurs_split(s, 0, front + t.bytes(), rest);
    wire::lemma_occurs_split(s, 0, front, t.bytes());
    assert(s.take(4 * (nlist * d)) =~= front);
    assert(t.prefix(0) =~= no_table());
    lemma_table_found(s, front.len() as int, t, nlist as nat, 0);
}

} // verus!
