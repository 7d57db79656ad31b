//! The binary layout of stored entries and of the id map.
//!
//! An entry is its id (8 bytes), its vector's length (4 bytes), each
//! component's `f32` bits (4 bytes each), its metadata's length (4 bytes)
//! and the metadata bytes; every number is little-endian. Missing metadata
//! is written as length zero, and length zero is read as missing metadata.
//! An id-map record is an id (8 bytes) and a position (4 bytes).

use vstd::prelude::*;

use crate::copying::opt_bytes_view;
use crate::le_bytes::{push_len_le, push_u32_le, push_u64_le, read_u32_le, read_u64_le};
use crate::le_bytes::{le_bytes, le_value, lemma_le_bytes_len, lemma_le_roundtrip, lemma_pow256_4_8, pow256};

verus! {

/// What a stored vector holds.
pub struct EntryView {
    pub id: i64,
    pub vector: Seq<u32>,
    pub metadata: Option<Seq<u8>>,
}

/// The 64 bits of an id.
pub open spec fn id_bits(id: i64) -> nat {
    (id as u64) as nat
}

/// The bytes of a sequence of words, 4 little-endian bytes each.
pub open spec fn words_bytes(v: Seq<u32>) -> Seq<u8>
    decreases v.len(),
{
    if v.len() == 0 {
        Seq::empty()
    } else {
        le_bytes(v[0] as nat, 4) + words_bytes(v.drop_first())
    }
}

/// The length a file records for metadata.
pub open spec fn meta_len(m: Option<Seq<u8>>) -> nat {
    match m {
        Some(b) => b.len(),
        None => 0,
    }
}

/// The metadata bytes a file records.
pub open spec fn meta_bytes(m: Option<Seq<u8>>) -> Seq<u8> {
    match m {
        Some(b) => b,
        None => Seq::empty(),
    }
}

/// The bytes of one entry.
pub open spec fn entry_bytes(e: EntryView) -> Seq<u8> {
    le_bytes(id_bits(e.id), 8) + le_bytes(e.vector.len(), 4) + words_bytes(e.vector) + le_bytes(
        meta_len(e.metadata),
        4,
    ) + meta_bytes(e.metadata)
}

/// The bytes of a sequence of entries, one after the other.
pub open spec fn entries_bytes(es: Seq<EntryView>) -> Seq<u8>
    decreases es.len(),
{
    if es.len() == 0 {
        Seq::empty()
    } else {
        entry_bytes(es[0]) + entries_bytes(es.drop_first())
    }
}

/// The bytes of one id-map record.
pub open spec fn pair_bytes(id: i64, index: nat) -> Seq<u8> {
    le_bytes(id_bits(id), 8) + le_bytes(index, 4)
}

/// The id-map records of a sequence of entries: each id with its position.
pub open spec fn id_map_bytes(es: Seq<EntryView>, from: nat) -> Seq<u8>
    decreases es.len(),
{
    if es.len() == 0 {
        Seq::empty()
    } else {
        pair_bytes(es[0].id, from) + id_map_bytes(es.drop_first(), from + 1)
    }
}

/// The id whose 64 bits are these.
pub open spec fn id_of_bits(bits: nat) -> i64 {
    (bits as u64) as i64
}

/// The `n` words at the start of the data, if there are enough bytes.
pub open spec fn parse_words(data: Seq<u8>, n: nat) -> Option<Seq<u32>>
    decreases n,
{
    if n == 0 {
        Some(Seq::empty())
    } else if data.len() < 4 {
        None
    } else {
        match parse_words(data.skip(4), (n - 1) as nat) {
            Some(rest) => Some(seq![le_value(data.take(4)) as u32] + rest),
            None => None,
        }
    }
}

/// The entry at the start of the data and the number of bytes it takes, if
/// there are enough bytes.
pub open spec fn parse_entry(data: Seq<u8>) -> Option<(EntryView, nat)> {
    if data.len() < 12 {
        None
    } else {
        let id = id_of_bits(le_value(data.take(8)));
        let n = le_value(data.subrange(8, 12));
        let after_words: int = 12 + 4 * (n as int);
        if data.len() < after_words + 4 {
            None
        } else {
            match parse_words(data.skip(12), n) {
                Some(vector) => {
                    let m = le_value(data.subrange(after_words, after_words + 4));
                    let end: int = after_words + 4 + m;
                    if data.len() < end {
                        None
                    } else {
                        let metadata = if m > 0 {
                            Some(data.subrange(after_words + 4, end))
                        } else {
                            None
                        };
                        Some((EntryView { id, vector, metadata }, end as nat))
                    }
                },
                None => None,
            }
        }
    }
}

/// The first `count` entries of the data and the number of bytes they take,
/// if there are enough bytes.
pub open spec fn parse_entries(data: Seq<u8>, count: nat) -> Option<(Seq<EntryView>, nat)>
    decreases count,
{
    if count == 0 {
        Some((Seq::empty(), 0))
    } else {
        match parse_entry(data) {
            Some((e, n)) => match parse_entries(data.skip(n as int), (count - 1) as nat) {
                Some((es, m)) => Some((seq![e] + es, n + m)),
                None => None,
            },
            None => None,
        }
    }
}

/// An entry as it reads back: metadata of length zero reads as missing.
pub open spec fn as_read(e: EntryView) -> EntryView {
    EntryView {
        metadata: if meta_len(e.metadata) == 0 {
            None
        } else {
            e.metadata
        },
        ..e
    }
}

/// An entry whose lengths a file can record.
pub open spec fn storable(e: EntryView) -> bool {
    e.vector.len() <= u32::MAX && meta_len(e.metadata) <= u32::MAX
}

proof fn lemma_words_bytes_len(v: Seq<u32>)
    ensures
        words_bytes(v).len() == 4 * v.len(),
    decreases v.len(),
{
    if v.len() > 0 {
        lemma_le_bytes_len(v[0] as nat, 4);
        lemma_words_bytes_len(v.drop_first());
    }
}

proof fn lemma_words_bytes_snoc(v: Seq<u32>, w: u32)
    ensures
        words_bytes(v.push(w)) == words_bytes(v) + le_bytes(w as nat, 4),
    decreases v.len(),
{
    if v.len() == 0 {
        reveal_with_fuel(words_bytes, 2);
        assert(v.push(w).drop_first() =~= Seq::<u32>::empty());
        assert(words_bytes(v.push(w)) =~= le_bytes(w as nat, 4) + Seq::<u8>::empty());
        assert(words_bytes(v) =~= Seq::<u8>::empty());
        assert(words_bytes(v) + le_bytes(w as nat, 4) =~= le_bytes(w as nat, 4));
    } else {
        assert(v.push(w).drop_first() =~= v.drop_first().push(w));
        lemma_words_bytes_snoc(v.drop_first(), w);
        assert(words_bytes(v.push(w)) =~= le_bytes(v[0] as nat, 4) + words_bytes(v.drop_first().push(w)));
        assert(words_bytes(v.push(w)) =~= words_bytes(v) + le_bytes(w as nat, 4));
    }
}

/// Reading words back from their bytes gives the words.
proof fn lemma_parse_words(v: Seq<u32>, rest: Seq<u8>)
    ensures
        parse_words(words_bytes(v) + rest, v.len()) == Some(v),
    decreases v.len(),
{
    if v.len() > 0 {
        let head = le_bytes(v[0] as nat, 4);
        let tail = words_bytes(v.drop_first());
        let data = words_bytes(v) + rest;
        lemma_pow256_4_8();
        lemma_le_roundtrip(v[0] as nat, 4);
        assert(data =~= head + (tail + rest));
        assert(data.take(4) =~= head);
        assert(data.skip(4) =~= tail + rest);
        lemma_parse_words(v.drop_first(), rest);
        assert(seq![v[0]] + v.drop_first() =~= v);
    }
}

/// Reading an entry back from its bytes gives the entry as it reads back,
/// and the number of its bytes.
#[verifier::rlimit(50)]
pub proof fn lemma_parse_entry(e: EntryView, rest: Seq<u8>)
    requires
        storable(e),
    ensures
        parse_entry(entry_bytes(e) + rest) == Some((as_read(e), entry_bytes(e).len())),
{
    let data = entry_bytes(e) + rest;
    let n = e.vector.len();
    let m = meta_len(e.metadata);
    let a = le_bytes(id_bits(e.id), 8);
    let b = le_bytes(n, 4);
    let w = words_bytes(e.vector);
    let c = le_bytes(m, 4);
    let d = meta_bytes(e.metadata);
    lemma_pow256_4_8();
    lemma_le_roundtrip(id_bits(e.id), 8);
    lemma_le_roundtrip(n, 4);
    lemma_le_roundtrip(m, 4);
    lemma_words_bytes_len(e.vector);
    assert(data =~= a + (b + (w + (c + (d + rest)))));
    assert(data.take(8) =~= a);
    assert(data.subrange(8, 12) =~= b);
    assert(data.skip(12) =~= w + (c + (d + rest)));
    lemma_parse_words(e.vector, c + (d + rest));
    let aw: int = 12 + 4 * (n as int);
    assert(data.subrange(aw, aw + 4) =~= c);
    assert(id_of_bits(id_bits(e.id)) == e.id) by {
        let x = e.id;
        assert(((x as u64) as i64) == x) by (bit_vector);
    }
    if m > 0 {
        assert(data.subrange(aw + 4, aw + 4 + m) =~= d);
    }
    assert(entry_bytes(e).len() == aw + 4 + m);
}

/// Reading entries back from their bytes gives the entries as they read
/// back, and the number of their bytes.
pub proof fn lemma_parse_entries(es: Seq<EntryView>, rest: Seq<u8>)
    requires
        forall|i: int| 0 <= i < es.len() ==> storable(#[trigger] es[i]),
    ensures
        parse_entries(entries_bytes(es) + rest, es.len()) == Some(
            (es.map_values(|e: EntryView| as_read(e)), entries_bytes(es).len()),
        ),
    decreases es.len(),
{
    if es.len() == 0 {
        assert(es.map_values(|e: EntryView| as_read(e)) =~= Seq::<EntryView>::empty());
    } else {
        let first = entry_bytes(es[0]);
        let tail = entries_bytes(es.drop_first());
        let data = entries_bytes(es) + rest;
        assert(data =~= first + (tail + rest));
        lemma_parse_entry(es[0], tail + rest);
        assert(data.skip(first.len() as int) =~= tail + rest);
        assert forall|i: int| 0 <= i < es.drop_first().len() implies storable(#[trigger] es.drop_first()[i]) by {
            assert(es.drop_first()[i] == es[i + 1]);
        }
        lemma_parse_entries(es.drop_first(), rest);
        assert(seq![as_read(es[0])] + es.drop_first().map_values(|e: EntryView| as_read(e)) =~= es.map_values(
            |e: EntryView| as_read(e),
        ));
    }
}

/// The words of data long enough to hold `n` of them.
proof fn lemma_parse_words_at(s: Seq<u8>, n: nat)
    requires
        s.len() >= 4 * n,
    ensures
        parse_words(s, n) == Some(Seq::new(n, |i: int| le_value(s.subrange(4 * i, 4 * i + 4)) as u32)),
    decreases n,
{
    if n > 0 {
        lemma_parse_words_at(s.skip(4), (n - 1) as nat);
        let v = Seq::new(n, |i: int| le_value(s.subrange(4 * i, 4 * i + 4)) as u32);
        let rest = Seq::new((n - 1) as nat, |i: int| le_value(s.skip(4).subrange(4 * i, 4 * i + 4)) as u32);
        assert forall|i: int| 0 <= i < n - 1 implies rest[i] == v[i + 1] by {
            assert(s.skip(4).subrange(4 * i, 4 * i + 4) =~= s.subrange(4 * (i + 1), 4 * (i + 1) + 4));
        }
        assert(s.take(4) =~= s.subrange(0, 4));
        assert(seq![le_value(s.take(4)) as u32] + rest =~= v);
    }
}

/// Appends the bytes of an entry.
pub fn encode_entry(buf: &mut Vec<u8>, id: i64, vector: &[u32], metadata: &Option<Vec<u8>>)
    ensures
        final(buf)@ == old(buf)@ + entry_bytes(EntryView { id, vector: vector@, metadata: opt_bytes_view(*metadata) }),
{
    let ghost start = buf@;
    push_u64_le(buf, id as u64);
    push_len_le(buf, vector.len());
    let ghost after_len = buf@;
    let mut i: usize = 0;
    while i < vector.len()
        invariant
            i <= vector@.len(),
            buf@ == after_len + words_bytes(vector@.take(i as int)),
        decreases vector@.len() - i,
    {
        push_u32_le(buf, vector[i]);
        proof {
            assert(vector@.take(i + 1) =~= vector@.take(i as int).push(vector@[i as int]));
            lemma_words_bytes_snoc(vector@.take(i as int), vector@[i as int]);
        }
        i += 1;
    }
    proof {
        assert(vector@.take(vector@.len() as int) =~= vector@);
    }
    match metadata {
        Some(m) => {
            push_len_le(buf, m.len());
            let mut j: usize = 0;
            let ghost before = buf@;
            while j < m.len()
                invariant
                    j <= m@.len(),
                    buf@ == before + m@.take(j as int),
                decreases m@.len() - j,
            {
                buf.push(m[j]);
                proof {
                    assert(m@.take(j + 1) =~= m@.take(j as int).push(m@[j as int]));
                }
                j += 1;
            }
            proof {
                assert(m@.take(m@.len() as int) =~= m@);
            }
        },
        None => {
            push_u32_le(buf, 0);
        },
    }
    proof {
        let e = EntryView { id, vector: vector@, metadata: opt_bytes_view(*metadata) };
        assert(id_bits(id) == (id as u64) as nat);
        assert(buf@ =~= start + entry_bytes(e));
    }
}

/// Appends the bytes of one id-map record (the position's lowest 32 bits).
pub fn encode_pair(buf: &mut Vec<u8>, id: i64, index: usize)
    ensures
        final(buf)@ == old(buf)@ + pair_bytes(id, index as nat),
{
    push_u64_le(buf, id as u64);
    push_len_le(buf, index);
    proof {
        assert(final(buf)@ =~= old(buf)@ + pair_bytes(id, index as nat));
    }
}

/// Copies `data[start..end]`.
pub fn copy_range(data: &[u8], start: usize, end: usize) -> (r: Vec<u8>)
    requires
        start <= end <= data@.len(),
    ensures
        r@ == data@.subrange(start as int, end as int),
{
    let mut r: Vec<u8> = Vec::with_capacity(end - start);
    let mut i: usize = start;
    while i < end
        invariant
            start <= i <= end,
            end <= data@.len(),
            r@ == data@.subrange(start as int, i as int),
        decreases end - i,
    {
        r.push(data[i]);
        proof {
            assert(data@.subrange(start as int, i + 1) =~= data@.subrange(start as int, i as int).push(
                data@[i as int],
            ));
        }
        i += 1;
    }
    r
}

/// Reads the entry whose bytes start at `pos`: its id, vector and metadata,
/// and the position after it; `None` when the bytes end too soon.
#[verifier::rlimit(40)]
pub fn decode_entry(data: &[u8], pos: usize) -> (r: Option<(i64, Vec<u32>, Option<Vec<u8>>, usize)>)
    requires
        pos <= data@.len(),
    ensures
        match parse_entry(data@.skip(pos as int)) {
            Some((e, n)) => r matches Some((id, v, m, end)) && id == e.id && v@ == e.vector && opt_bytes_view(m)
                == e.metadata && end == pos + n,
            None => r is None,
        },
{
    let ghost d = data@.skip(pos as int);
    let len = data.len();
    if len - pos < 12 {
        return None;
    }
    let id_bits = read_u64_le(data, pos);
    let id = id_bits as i64;
    let n = read_u32_le(data, pos + 8) as usize;
    proof {
        assert(d.take(8) =~= data@.subrange(pos as int, pos + 8));
        assert(d.subrange(8, 12) =~= data@.subrange(pos + 8, pos + 12));
        assert(id == id_of_bits(le_value(d.take(8))));
    }
    let avail = len - pos - 12;
    if n > avail / 4 {
        return None;
    }
    if avail - 4 * n < 4 {
        return None;
    }
    let words_start = pos + 12;
    let mut vector: Vec<u32> = Vec::with_capacity(n);
    let mut i: usize = 0;
    while i < n
        invariant
            i <= n,
            words_start == pos + 12,
            words_start + 4 * n + 4 <= data@.len(),
            words_start + 4 * n + 4 <= data.len(),
            vector@.len() == i,
            forall|j: int| 0 <= j < i ==> vector@[j] == le_value(data@.subrange(words_start + 4 * j, words_start + 4 * j + 4)) as u32,
        decreases n - i,
    {
        let w = read_u32_le(data, words_start + 4 * i);
        vector.push(w);
        i += 1;
    }
    let meta_pos = words_start + 4 * n;
    let m = read_u32_le(data, meta_pos) as usize;
    proof {
        let s = d.skip(12);
        lemma_parse_words_at(s, n as nat);
        assert forall|j: int| 0 <= j < n implies vector@[j] == le_value(s.subrange(4 * j, 4 * j + 4)) as u32 by {
            assert(s.subrange(4 * j, 4 * j + 4) =~= data@.subrange(words_start + 4 * j, words_start + 4 * j + 4));
        }
        assert(vector@ =~= Seq::new(n as nat, |j: int| le_value(s.subrange(4 * j, 4 * j + 4)) as u32));
        assert(d.subrange(12 + 4 * n, 12 + 4 * n + 4) =~= data@.subrange(meta_pos as int, meta_pos + 4));
    }
    if len - (meta_pos + 4) < m {
        return None;
    }
    let end = meta_pos + 4 + m;
    let metadata = if m > 0 {
        Some(copy_range(data, meta_pos + 4, end))
    } else {
        None
    };
    proof {
        if m > 0 {
            assert(d.subrange(12 + 4 * n + 4, 12 + 4 * n + 4 + m) =~= data@.subrange(meta_pos + 4, end as int));
        }
    }
    Some((id, vector, metadata, end))
}

/// A length-prefixed section: the bytes' length (4 bytes), then the bytes.
pub open spec fn section_bytes(b: Seq<u8>) -> Seq<u8> {
    le_bytes(b.len(), 4) + b
}

/// The section that starts at `pos`, and the position after it, if the
/// data is long enough.
pub open spec fn parse_section(data: Seq<u8>, pos: nat) -> Option<(Seq<u8>, nat)> {
    if pos + 4 > data.len() {
        None
    } else {
        let p = pos as int;
        let n = le_value(data.subrange(p, p + 4));
        if p + 4 + n > data.len() {
            None
        } else {
            Some((data.subrange(p + 4, p + 4 + n), (p + 4 + n) as nat))
        }
    }
}

/// Appends a length-prefixed section.
pub fn push_section(buf: &mut Vec<u8>, b: &[u8])
    ensures
        final(buf)@ == old(buf)@ + section_bytes(b@),
{
    push_len_le(buf, b.len());
    let ghost before = buf@;
    let mut j: usize = 0;
    while j < b.len()
        invariant
            j <= b@.len(),
            buf@ == before + b@.take(j as int),
        decreases b@.len() - j,
    {
        buf.push(b[j]);
        proof {
            assert(b@.take(j + 1) =~= b@.take(j as int).push(b@[j as int]));
        }
        j += 1;
    }
    proof {
        assert(b@.take(b@.len() as int) =~= b@);
        assert(final(buf)@ =~= old(buf)@ + section_bytes(b@));
    }
}

/// Reads the section that starts at `pos`; `None` when the data ends too
/// soon.
pub fn read_section(data: &[u8], pos: usize) -> (r: Option<(Vec<u8>, usize)>)
    requires
        pos <= data@.len(),
    ensures
        match parse_section(data@, pos as nat) {
            Some((b, end)) => r matches Some((v, e)) && v@ == b && e == end,
            None => r is None,
        },
{
    if data.len() - pos < 4 {
        return None;
    }
    let n = read_u32_le(data, pos) as usize;
    if data.len() - pos - 4 < n {
        return None;
    }
    let b = copy_range(data, pos + 4, pos + 4 + n);
    Some((b, pos + 4 + n))
}

/// Reading back what was written: a section at some position of the data
/// reads as its bytes, whatever follows it.
pub proof fn law_section_roundtrip(before: Seq<u8>, b: Seq<u8>, after: Seq<u8>)
    requires
        b.len() <= u32::MAX,
    ensures
        parse_section(before + section_bytes(b) + after, before.len()) == Some(
            (b, before.len() + 4 + b.len()),
        ),
{
    let data = before + section_bytes(b) + after;
    lemma_pow256_4_8();
    lemma_le_roundtrip(b.len(), 4);
    let p = before.len() as int;
    assert(data.subrange(p, p + 4) =~= le_bytes(b.len(), 4));
    assert(data.subrange(p + 4, p + 4 + b.len()) =~= b);
}

} // verus!
