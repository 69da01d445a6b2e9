//! The chunk save codec: a frequency table over the voxel ids, a Huffman
//! bit stream over the chunk volume, and the byte layout of both. Decoding
//! what was encoded gives the chunk content back; that round trip is part
//! of the decoder's contract.

use vstd::prelude::*;

use crate::bytes::{le_bytes, le_val, lemma_le_bytes_len, lemma_le_roundtrip, lemma_le_val_bound,
    lemma_pack_bits_len, lemma_pack_unpack, pack_bits, pack_bits_spec, pow256, push_le, read_le,
    unpack_bits};
use crate::cfg::CHUNK_VOLUME;
use crate::chunk::{Chunk, FillType};
use crate::voxel::{is_id_valid, is_id_valid_spec, ReinterpretError, VOXEL_DATA_LEN};

verus! {

/// How many times `id` occurs in `ids`.
pub open spec fn cnt_of(ids: Seq<u16>, id: u16) -> int
    decreases ids.len(),
{
    if ids.len() == 0 {
        0
    } else {
        cnt_of(ids.drop_last(), id) + if ids.last() == id {
            1int
        } else {
            0int
        }
    }
}

pub proof fn lemma_cnt_of_bounds(ids: Seq<u16>, id: u16)
    ensures
        0 <= cnt_of(ids, id) <= ids.len(),
    decreases ids.len(),
{
    if ids.len() > 0 {
        lemma_cnt_of_bounds(ids.drop_last(), id);
    }
}

/// `id` occurs in `ids` exactly when its count is positive.
pub proof fn lemma_cnt_of_occurs(ids: Seq<u16>, id: u16)
    ensures
        cnt_of(ids, id) > 0 <==> exists|i: int| 0 <= i < ids.len() && #[trigger] ids[i] == id,
    decreases ids.len(),
{
    lemma_cnt_of_bounds(ids, id);
    lemma_cnt_of_bounds(ids.drop_last(), id);
    if ids.len() > 0 {
        lemma_cnt_of_occurs(ids.drop_last(), id);
        if ids.last() == id {
            assert(ids[ids.len() - 1] == id);
        } else {
            if exists|i: int| 0 <= i < ids.len() && #[trigger] ids[i] == id {
                let i = choose|i: int| 0 <= i < ids.len() && #[trigger] ids[i] == id;
                assert(i < ids.len() - 1);
                assert(ids.drop_last()[i] == id);
                assert(cnt_of(ids.drop_last(), id) > 0);
            }
            if cnt_of(ids.drop_last(), id) > 0 {
                let i = choose|i: int|
                    0 <= i < ids.drop_last().len() && #[trigger] ids.drop_last()[i] == id;
                assert(ids[i] == id);
            }
        }
    }
}

/// The frequency table over ids below `hi`: one `(id, count)` entry per id
/// that occurs, in ascending id order.
pub open spec fn freq_table_upto(ids: Seq<u16>, hi: int) -> Seq<(u16, u64)>
    decreases hi,
{
    if hi <= 0 {
        Seq::empty()
    } else {
        freq_table_upto(ids, hi - 1) + if cnt_of(ids, (hi - 1) as u16) > 0 {
            seq![((hi - 1) as u16, cnt_of(ids, (hi - 1) as u16) as u64)]
        } else {
            Seq::empty()
        }
    }
}

/// The canonical frequency table of a valid id buffer.
pub open spec fn freq_table(ids: Seq<u16>) -> Seq<(u16, u64)> {
    freq_table_upto(ids, VOXEL_DATA_LEN as int)
}

/// A well-formed frequency table: ids strictly ascending (hence distinct)
/// and every count positive.
pub open spec fn freqs_wf(t: Seq<(u16, u64)>) -> bool {
    &&& forall|i: int, j: int| 0 <= i < j < t.len() ==> (#[trigger] t[i]).0 < (#[trigger] t[j]).0
    &&& forall|i: int| 0 <= i < t.len() ==> (#[trigger] t[i]).1 >= 1
}

/// Whether `id` has an entry in the table.
pub open spec fn freq_has(t: Seq<(u16, u64)>, id: u16) -> bool {
    exists|j: int| 0 <= j < t.len() && (#[trigger] t[j]).0 == id
}

/// Every entry of the table built up to `hi` carries an id below `hi`, a
/// positive count equal to the id's count in the buffer, and the entries
/// are strictly ascending; an id below `hi` has an entry exactly when it
/// occurs.
pub proof fn lemma_freq_table_upto(ids: Seq<u16>, hi: int)
    requires
        hi <= 0x1_0000,
        ids.len() <= 0xffff_ffff,
    ensures
        freqs_wf(freq_table_upto(ids, hi)),
        freq_table_upto(ids, hi).len() <= if hi >= 0 {
            hi
        } else {
            0
        },
        forall|j: int|
            0 <= j < freq_table_upto(ids, hi).len() ==> {
                let e = #[trigger] freq_table_upto(ids, hi)[j];
                e.0 < hi && cnt_of(ids, e.0) == e.1 && e.1 >= 1
            },
        forall|id: u16|
            0 <= id < hi ==> (#[trigger] cnt_of(ids, id) > 0 <==> freq_has(
                freq_table_upto(ids, hi),
                id,
            )),
    decreases hi,
{
    if hi > 0 {
        lemma_freq_table_upto(ids, hi - 1);
        let prev = freq_table_upto(ids, hi - 1);
        let cur = freq_table_upto(ids, hi);
        lemma_cnt_of_bounds(ids, (hi - 1) as u16);
        assert forall|j: int| 0 <= j < cur.len() implies {
            let e = #[trigger] cur[j];
            e.0 < hi && cnt_of(ids, e.0) == e.1 && e.1 >= 1
        } by {
            if j < prev.len() {
                assert(cur[j] == prev[j]);
            } else {
                assert(cur[j] == ((hi - 1) as u16, cnt_of(ids, (hi - 1) as u16) as u64));
            }
        }
        assert forall|i: int, j: int| 0 <= i < j < cur.len() implies (#[trigger] cur[i]).0 < (
        #[trigger] cur[j]).0 by {
            if j < prev.len() {
                assert(cur[i] == prev[i] && cur[j] == prev[j]);
            } else {
                assert(cur[i] == prev[i]);
                assert(prev[i].0 < hi - 1);
                assert(cur[j].0 == (hi - 1) as u16);
            }
        }
        assert forall|id: u16| 0 <= id < hi implies (#[trigger] cnt_of(ids, id) > 0 <==> freq_has(
            cur,
            id,
        )) by {
            if id < hi - 1 {
                if cnt_of(ids, id) > 0 {
                    let j = choose|j: int| 0 <= j < prev.len() && (#[trigger] prev[j]).0 == id;
                    assert(cur[j].0 == id);
                } else {
                    if freq_has(cur, id) {
                        let j = choose|j: int| 0 <= j < cur.len() && (#[trigger] cur[j]).0 == id;
                        assert(j < prev.len() && prev[j].0 == id);
                    }
                }
            } else {
                if cnt_of(ids, id) > 0 {
                    assert(cur[cur.len() - 1].0 == id);
                } else {
                    if freq_has(cur, id) {
                        let j = choose|j: int| 0 <= j < cur.len() && (#[trigger] cur[j]).0 == id;
                        assert(j < prev.len() && prev[j].0 == id);
                    }
                }
            }
        }
    }
}

/// The counts over ids below `hi` added up.
pub open spec fn sum_counts(ids: Seq<u16>, hi: int) -> int
    decreases hi,
{
    if hi <= 0 {
        0
    } else {
        sum_counts(ids, hi - 1) + cnt_of(ids, (hi - 1) as u16)
    }
}

/// Dropping the last element lowers exactly one count by one.
proof fn lemma_sum_counts_drop(ids: Seq<u16>, hi: int)
    requires
        ids.len() > 0,
        hi <= 0x1_0000,
    ensures
        sum_counts(ids, hi) == sum_counts(ids.drop_last(), hi) + if ids.last() < hi {
            1int
        } else {
            0int
        },
    decreases hi,
{
    if hi > 0 {
        lemma_sum_counts_drop(ids, hi - 1);
        assert(cnt_of(ids, (hi - 1) as u16) == cnt_of(ids.drop_last(), (hi - 1) as u16) + if ids.last()
            == (hi - 1) as u16 {
            1int
        } else {
            0int
        });
        assert((ids.last() == (hi - 1) as u16) <==> (ids.last() == hi - 1));
    }
}

/// A buffer of ids below `hi` has counts over `0..hi` summing to its
/// length.
pub proof fn lemma_sum_counts_total(ids: Seq<u16>, hi: int)
    requires
        forall|i: int| 0 <= i < ids.len() ==> 0 <= #[trigger] ids[i] < hi,
        hi <= 0x1_0000,
    ensures
        sum_counts(ids, hi) == ids.len(),
    decreases ids.len(),
{
    if ids.len() == 0 {
        lemma_sum_counts_empty(ids, hi);
    } else {
        assert(forall|i: int|
            0 <= i < ids.drop_last().len() ==> 0 <= #[trigger] ids.drop_last()[i] < hi);
        lemma_sum_counts_total(ids.drop_last(), hi);
        lemma_sum_counts_drop(ids, hi);
        assert(ids.last() == ids[ids.len() - 1]);
    }
}

proof fn lemma_sum_counts_empty(ids: Seq<u16>, hi: int)
    requires
        ids.len() == 0,
    ensures
        sum_counts(ids, hi) == 0,
    decreases hi,
{
    if hi > 0 {
        lemma_sum_counts_empty(ids, hi - 1);
    }
}

/// If all of `ids` is one value `a`, every element is `a`.
pub proof fn lemma_single_symbol(ids: Seq<u16>, a: u16, i: int)
    requires
        forall|k: int| 0 <= k < ids.len() ==> is_id_valid_spec(#[trigger] ids[k]),
        forall|id: u16| is_id_valid_spec(id) && id != a ==> cnt_of(ids, id) <= 0,
        0 <= i < ids.len(),
    ensures
        ids[i] == a,
{
    if ids[i] != a {
        lemma_cnt_of_occurs(ids, ids[i]);
    }
}

/// The Huffman bit stream that the outside coder produces for the symbol
/// string `ids` under the frequency table `freqs`. With a fixed table of
/// distinct symbols the coder is deterministic, so this is a function of
/// the two arguments alone.
pub uninterp spec fn huff_bits(freqs: Seq<(u16, u64)>, ids: Seq<u16>) -> Seq<bool>;

/// Relies on `huffman_compress::CodeBuilder` and `Book::encode`: the code
/// built from a table of distinct symbols is deterministic and stable, so
/// the emitted bits are a function of the table and the symbols alone.
#[verifier::external_body]
fn huffman_encode(freqs: &Vec<(u16, u64)>, ids: &Vec<u16>) -> (r: Vec<bool>)
    requires
        freqs_wf(freqs@),
        freqs@.len() >= 2,
        forall|i: int| 0 <= i < ids@.len() ==> freq_has(freqs@, #[trigger] ids@[i]),
    ensures
        r@ == huff_bits(freqs@, ids@),
{
    let (book, _) = huffman_compress::CodeBuilder::from_iter(
        freqs.iter().map(|&(k, w)| (k, w)),
    ).finish();
    let mut bits: Vec<bool> = Vec::new();
    for id in ids.iter() {
        bits.extend(book.get(id).expect("id is in the table").iter());
    }
    bits
}

/// Relies on `huffman_compress::Tree::unbounded_decoder`: the code built
/// from at least two distinct symbols is prefix-free with non-empty code
/// words, so decoding the exact encoding of a symbol string yields that
/// string back, and nothing more once the bits are consumed.
#[verifier::external_body]
fn huffman_decode(freqs: &Vec<(u16, u64)>, bits: &Vec<bool>) -> (r: Vec<u16>)
    requires
        freqs_wf(freqs@),
        freqs@.len() >= 2,
    ensures
        forall|ids: Seq<u16>|
            (forall|i: int| 0 <= i < ids.len() ==> freq_has(freqs@, #[trigger] ids[i]))
                && bits@ == #[trigger] huff_bits(freqs@, ids) ==> r@ == ids,
{
    let (_, tree) = huffman_compress::CodeBuilder::from_iter(
        freqs.iter().map(|&(k, w)| (k, w)),
    ).finish();
    tree.unbounded_decoder(bits.iter().copied()).collect()
}

/// Counts how often each voxel id occurs, as the canonical frequency
/// table: ascending ids, positive counts.
pub fn count_voxel_frequencies(ids: &Vec<u16>) -> (r: Vec<(u16, u64)>)
    requires
        forall|i: int| 0 <= i < ids@.len() ==> is_id_valid_spec(#[trigger] ids@[i]),
        ids@.len() <= CHUNK_VOLUME,
    ensures
        r@ == freq_table(ids@),
{
    let len: usize = ids.len();
    let mut counts: Vec<u64> = Vec::new();
    counts.push(0);
    counts.push(0);
    counts.push(0);
    counts.push(0);
    let mut i: usize = 0;
    while i < len
        invariant
            len == ids@.len() <= CHUNK_VOLUME,
            forall|k: int| 0 <= k < ids@.len() ==> is_id_valid_spec(#[trigger] ids@[k]),
            i <= len,
            counts@.len() == 4,
            forall|id: u16| id < 4 ==> #[trigger] counts@[id as int] == cnt_of(ids@.take(i as int), id),
        decreases len - i,
    {
        let id: u16 = ids[i];
        proof {
            lemma_cnt_of_bounds(ids@.take(i as int), id);
            assert forall|id2: u16| id2 < 4 implies cnt_of(ids@.take(i + 1), id2) == cnt_of(
                ids@.take(i as int),
                id2,
            ) + (if id == id2 {
                1int
            } else {
                0int
            }) by {
                assert(ids@.take(i + 1).drop_last() =~= ids@.take(i as int));
                assert(ids@.take(i + 1).last() == id);
            }
        }
        let c: u64 = counts[id as usize];
        counts.set(id as usize, c + 1);
        i += 1;
    }
    proof {
        assert(ids@.take(len as int) =~= ids@);
    }
    let mut r: Vec<(u16, u64)> = Vec::new();
    let mut id: u16 = 0;
    while id < 4
        invariant
            id <= 4,
            counts@.len() == 4,
            forall|k: u16| k < 4 ==> #[trigger] counts@[k as int] == cnt_of(ids@, k),
            r@ == freq_table_upto(ids@, id as int),
        decreases 4 - id,
    {
        let c: u64 = counts[id as usize];
        if c > 0 {
            r.push((id, c));
        }
        proof {
            if c > 0 {
                assert(r@ =~= freq_table_upto(ids@, id as int + 1));
            } else {
                assert(r@ =~= freq_table_upto(ids@, id as int + 1));
            }
        }
        id += 1;
    }
    r
}

/// The byte layout of a frequency table: per entry the id as two bytes
/// and the count as eight, little-endian.
pub open spec fn table_bytes(t: Seq<(u16, u64)>) -> Seq<u8>
    decreases t.len(),
{
    if t.len() == 0 {
        Seq::empty()
    } else {
        le_bytes(t[0].0 as int, 2) + le_bytes(t[0].1 as int, 8) + table_bytes(t.skip(1))
    }
}

pub proof fn lemma_table_bytes_len(t: Seq<(u16, u64)>)
    ensures
        table_bytes(t).len() == 10 * t.len(),
    decreases t.len(),
{
    if t.len() > 0 {
        lemma_table_bytes_len(t.skip(1));
        lemma_le_bytes_len(t[0].0 as int, 2);
        lemma_le_bytes_len(t[0].1 as int, 8);
    }
}

/// Where each entry's fields sit in the table bytes.
pub proof fn lemma_table_bytes_index(t: Seq<(u16, u64)>, j: int)
    requires
        0 <= j < t.len(),
    ensures
        table_bytes(t).subrange(10 * j, 10 * j + 2) == le_bytes(t[j].0 as int, 2),
        table_bytes(t).subrange(10 * j + 2, 10 * j + 10) == le_bytes(t[j].1 as int, 8),
    decreases j,
{
    lemma_table_bytes_len(t);
    lemma_le_bytes_len(t[0].0 as int, 2);
    lemma_le_bytes_len(t[0].1 as int, 8);
    if j == 0 {
        assert(table_bytes(t).subrange(0, 2) =~= le_bytes(t[0].0 as int, 2));
        assert(table_bytes(t).subrange(2, 10) =~= le_bytes(t[0].1 as int, 8));
    } else {
        lemma_table_bytes_index(t.skip(1), j - 1);
        lemma_table_bytes_len(t.skip(1));
        assert(table_bytes(t).subrange(10 * j, 10 * j + 2) =~= table_bytes(t.skip(1)).subrange(
            10 * (j - 1),
            10 * (j - 1) + 2,
        ));
        assert(table_bytes(t).subrange(10 * j + 2, 10 * j + 10) =~= table_bytes(
            t.skip(1),
        ).subrange(10 * (j - 1) + 2, 10 * (j - 1) + 10));
        assert(t.skip(1)[j - 1] == t[j]);
    }
}

/// The counts of a table added up.
pub open spec fn table_sum(t: Seq<(u16, u64)>) -> int
    decreases t.len(),
{
    if t.len() == 0 {
        0
    } else {
        table_sum(t.drop_last()) + t.last().1
    }
}

/// The canonical frequency table's counts add up to the count sum of the
/// id buffer.
pub proof fn lemma_table_sum(ids: Seq<u16>, hi: int)
    requires
        0 <= hi <= 0x1_0000,
        ids.len() <= 0xffff_ffff,
    ensures
        table_sum(freq_table_upto(ids, hi)) == sum_counts(ids, hi),
    decreases hi,
{
    if hi > 0 {
        lemma_table_sum(ids, hi - 1);
        lemma_cnt_of_bounds(ids, (hi - 1) as u16);
        let prev = freq_table_upto(ids, hi - 1);
        let cur = freq_table_upto(ids, hi);
        if cnt_of(ids, (hi - 1) as u16) > 0 {
            assert(cur.drop_last() =~= prev);
            assert(cur.last() == ((hi - 1) as u16, cnt_of(ids, (hi - 1) as u16) as u64));
        } else {
            assert(cur =~= prev);
        }
    }
}

/// The byte layout of one serialized chunk. A uniform chunk is a tagged
/// id, constant-size whatever the volume; an explicit chunk is its
/// frequency table followed by the packed Huffman bit stream over all
/// `32³` ids. A table of a single id needs no bits at all.
pub open spec fn chunk_blob(ft: FillType, ids: Seq<u16>) -> Seq<u8> {
    match ft {
        FillType::AllSame(id) => seq![1u8] + le_bytes(id as int, 2),
        FillType::Default => {
            let t = freq_table(ids);
            let bits = if t.len() >= 2 {
                huff_bits(t, ids)
            } else {
                Seq::empty()
            };
            seq![0u8] + le_bytes(t.len() as int, 8) + table_bytes(t) + le_bytes(
                bits.len() as int,
                8,
            ) + pack_bits_spec(bits)
        },
    }
}

/// What a serialized chunk may hold: a valid uniform id, or a full volume
/// of valid ids.
pub open spec fn blob_ok(ft: FillType, ids: Seq<u16>) -> bool {
    match ft {
        FillType::AllSame(id) => is_id_valid_spec(id),
        FillType::Default => ids.len() == CHUNK_VOLUME && forall|i: int|
            0 <= i < ids.len() ==> is_id_valid_spec(#[trigger] ids[i]),
    }
}

/// Whether the Huffman bit stream of an explicit chunk fits a vector on
/// this machine; what the encoder in fact produced always does.
pub open spec fn blob_fits(ft: FillType, ids: Seq<u16>) -> bool {
    match ft {
        FillType::AllSame(id) => true,
        FillType::Default => freq_table(ids).len() >= 2 ==> huff_bits(
            freq_table(ids),
            ids,
        ).len() <= usize::MAX,
    }
}

/// Serializes a chunk into its blob: uniform chunks as a tagged id,
/// explicit chunks Huffman-compressed over their frequency table.
pub fn encode_chunk(chunk: &Chunk) -> (r: Vec<u8>)
    requires
        chunk.wf(),
    ensures
        r@ == chunk_blob(chunk.fill_type, chunk.ids()),
        blob_fits(chunk.fill_type, chunk.ids()),
{
    proof {
        crate::voxel::lemma_pow256_small();
        crate::bytes::lemma_pow256_le(2, 8);
    }
    match chunk.fill_type {
        FillType::AllSame(id) => {
            let mut out: Vec<u8> = Vec::new();
            out.push(1u8);
            push_le(&mut out, id as u64, 2);
            proof {
                assert(out@ =~= chunk_blob(chunk.fill_type, chunk.ids()));
            }
            out
        },
        FillType::Default => {
            let ghost ids = chunk.ids();
            let freqs = count_voxel_frequencies(&chunk.voxel_ids);
            let ghost t = freq_table(ids);
            proof {
                lemma_freq_table_upto(ids, VOXEL_DATA_LEN as int);
            }
            let bits: Vec<bool> = if freqs.len() >= 2 {
                proof {
                    assert forall|i: int| 0 <= i < ids.len() implies freq_has(
                        t,
                        #[trigger] ids[i],
                    ) by {
                        lemma_cnt_of_occurs(ids, ids[i]);
                        assert(ids[ids.len() - 1 - (ids.len() - 1 - i)] == ids[i]);
                    }
                }
                huffman_encode(&freqs, &chunk.voxel_ids)
            } else {
                Vec::new()
            };
            let mut out: Vec<u8> = Vec::new();
            out.push(0u8);
            push_le(&mut out, freqs.len() as u64, 8);
            let ghost header = seq![0u8] + le_bytes(t.len() as int, 8);
            let m: usize = freqs.len();
            let mut j: usize = 0;
            proof {
                assert(t.skip(0) =~= t);
            }
            while j < m
                invariant
                    m == t.len(),
                    freqs@ == t,
                    j <= m,
                    header == seq![0u8] + le_bytes(t.len() as int, 8),
                    out@ + table_bytes(t.skip(j as int)) == header + table_bytes(t),
                decreases m - j,
            {
                let (id, cnt) = freqs[j];
                proof {
                    crate::voxel::lemma_pow256_small();
                    assert(pow256(8) == 0x1_0000_0000_0000_0000) by {
                        reveal_with_fuel(pow256, 9);
                    }
                    assert(t.skip(j as int)[0] == t[j as int]);
                    assert(t.skip(j as int).skip(1) =~= t.skip(j as int + 1));
                    assert(table_bytes(t.skip(j as int)) == le_bytes(t[j as int].0 as int, 2)
                        + le_bytes(t[j as int].1 as int, 8) + table_bytes(t.skip(j as int + 1)));
                }
                push_le(&mut out, id as u64, 2);
                push_le(&mut out, cnt, 8);
                proof {
                    assert(out@ + table_bytes(t.skip(j as int + 1)) =~= header + table_bytes(t));
                }
                j += 1;
            }
            proof {
                assert(t.skip(m as int) =~= Seq::<(u16, u64)>::empty());
                assert(out@ =~= header + table_bytes(t));
                assert(pow256(8) == 0x1_0000_0000_0000_0000) by {
                    reveal_with_fuel(pow256, 9);
                }
            }
            push_le(&mut out, bits.len() as u64, 8);
            let mut packed: Vec<u8> = pack_bits(&bits);
            out.append(&mut packed);
            proof {
                assert(out@ =~= chunk_blob(chunk.fill_type, chunk.ids()));
            }
            out
        },
    }
}

/// What a successful decode owes for a given source chunk content.
pub open spec fn decode_good(
    r: Result<(Vec<u16>, FillType), ReinterpretError>,
    ft: FillType,
    ids: Seq<u16>,
) -> bool {
    match r {
        Ok(p) => p.1 == ft && match ft {
            FillType::AllSame(id) => p.0@.len() == 0,
            FillType::Default => p.0@ == ids,
        },
        Err(_) => false,
    }
}

/// The pieces of a uniform chunk's blob.
proof fn lemma_blob_same_parts(id: u16, ids: Seq<u16>)
    ensures
        chunk_blob(FillType::AllSame(id), ids).len() == 3,
        chunk_blob(FillType::AllSame(id), ids)[0] == 1u8,
        le_val(chunk_blob(FillType::AllSame(id), ids).subrange(1, 3)) == id,
{
    let b = chunk_blob(FillType::AllSame(id), ids);
    lemma_le_bytes_len(id as int, 2);
    assert(b.subrange(1, 3) =~= le_bytes(id as int, 2));
    crate::voxel::lemma_pow256_small();
    lemma_le_roundtrip(id as int, 2);
}

/// The pieces of an explicit chunk's blob: where each field sits, what it
/// reads back as, and the facts about the frequency table the decoder
/// checks.
proof fn lemma_blob_default_parts(ids: Seq<u16>)
    requires
        blob_ok(FillType::Default, ids),
        blob_fits(FillType::Default, ids),
    ensures
        ({
            let t = freq_table(ids);
            let bits: Seq<bool> = if t.len() >= 2 {
                huff_bits(t, ids)
            } else {
                Seq::empty()
            };
            let b = chunk_blob(FillType::Default, ids);
            &&& 1 <= t.len() <= 4
            &&& freqs_wf(t)
            &&& table_sum(t) == CHUNK_VOLUME
            &&& forall|j: int|
                0 <= j < t.len() ==> (#[trigger] t[j]).0 < VOXEL_DATA_LEN && 1 <= t[j].1
                    <= CHUNK_VOLUME
            &&& forall|i: int| 0 <= i < ids.len() ==> freq_has(t, #[trigger] ids[i])
            &&& bits.len() <= usize::MAX
            &&& b.len() == 17 + 10 * t.len() + (bits.len() + 7) / 8
            &&& b[0] == 0u8
            &&& le_val(b.subrange(1, 9)) == t.len()
            &&& forall|j: int|
                0 <= j < t.len() ==> le_val(
                    #[trigger] b.subrange(9 + 10 * j, 9 + 10 * j + 2),
                ) == t[j].0 && le_val(b.subrange(9 + 10 * j + 2, 9 + 10 * j + 10)) == t[j].1
            &&& le_val(b.subrange(9 + 10 * t.len() as int, 17 + 10 * t.len() as int))
                == bits.len()
            &&& b.subrange(17 + 10 * t.len() as int, b.len() as int) == pack_bits_spec(bits)
            &&& (t.len() == 1 ==> bits.len() == 0 && forall|i: int|
                0 <= i < ids.len() ==> #[trigger] ids[i] == t[0].0)
        }),
{
    let t = freq_table(ids);
    let bits: Seq<bool> = if t.len() >= 2 {
        huff_bits(t, ids)
    } else {
        Seq::empty()
    };
    let b = chunk_blob(FillType::Default, ids);
    lemma_freq_table_upto(ids, VOXEL_DATA_LEN as int);
    lemma_table_sum(ids, VOXEL_DATA_LEN as int);
    lemma_sum_counts_total(ids, VOXEL_DATA_LEN as int);
    assert forall|i: int| 0 <= i < ids.len() implies freq_has(t, #[trigger] ids[i]) by {
        lemma_cnt_of_occurs(ids, ids[i]);
        assert(exists|k: int| 0 <= k < ids.len() && ids[k] == ids[i]);
    }
    assert(t.len() >= 1) by {
        assert(freq_has(t, ids[0]));
    }
    assert forall|j: int| 0 <= j < t.len() implies (#[trigger] t[j]).0 < VOXEL_DATA_LEN && 1 <= t[
        j
    ].1 <= CHUNK_VOLUME by {
        lemma_cnt_of_bounds(ids, t[j].0);
    }
    let m = t.len() as int;
    lemma_le_bytes_len(m, 8);
    lemma_table_bytes_len(t);
    lemma_le_bytes_len(bits.len() as int, 8);
    lemma_pack_bits_len(bits);
    assert(pow256(8) == 0x1_0000_0000_0000_0000) by {
        reveal_with_fuel(pow256, 9);
    }
    crate::voxel::lemma_pow256_small();
    assert(b.subrange(1, 9) =~= le_bytes(m, 8));
    lemma_le_roundtrip(m, 8);
    assert forall|j: int| 0 <= j < t.len() implies le_val(
        #[trigger] b.subrange(9 + 10 * j, 9 + 10 * j + 2),
    ) == t[j].0 && le_val(b.subrange(9 + 10 * j + 2, 9 + 10 * j + 10)) == t[j].1 by {
        lemma_table_bytes_index(t, j);
        assert(b.subrange(9 + 10 * j, 9 + 10 * j + 2) =~= table_bytes(t).subrange(
            10 * j,
            10 * j + 2,
        ));
        assert(b.subrange(9 + 10 * j + 2, 9 + 10 * j + 10) =~= table_bytes(t).subrange(
            10 * j + 2,
            10 * j + 10,
        ));
        lemma_le_roundtrip(t[j].0 as int, 2);
        lemma_le_roundtrip(t[j].1 as int, 8);
    }
    assert(b.subrange(9 + 10 * m, 17 + 10 * m) =~= le_bytes(bits.len() as int, 8));
    lemma_le_roundtrip(bits.len() as int, 8);
    assert(b.subrange(17 + 10 * m, b.len() as int) =~= pack_bits_spec(bits));
    if t.len() == 1 {
        assert forall|i: int| 0 <= i < ids.len() implies #[trigger] ids[i] == t[0].0 by {
            assert forall|id: u16|
                is_id_valid_spec(id) && id != t[0].0 implies cnt_of(ids, id) <= 0 by {
                if cnt_of(ids, id) > 0 {
                    assert(freq_has(t, id));
                    let j = choose|j: int| 0 <= j < t.len() && (#[trigger] t[j]).0 == id;
                }
            }
            lemma_single_symbol(ids, t[0].0, i);
        }
    }
}

/// Reads a chunk blob back: the id buffer and fill type it carries.
/// Rejects truncated or inconsistent blobs; on any blob the encoder can
/// produce, returns exactly the content that was encoded.
#[verifier::rlimit(100)]
pub fn decode_chunk(bytes: &Vec<u8>) -> (r: Result<(Vec<u16>, FillType), ReinterpretError>)
    ensures
        match r {
            Ok(p) => blob_ok(p.1, p.0@) && (p.1 is Default ==> p.0@.len() == CHUNK_VOLUME) && (
            p.1 is AllSame ==> p.0@.len() == 0),
            Err(_) => true,
        },
        forall|ft: FillType, ids0: Seq<u16>|
            blob_ok(ft, ids0) && blob_fits(ft, ids0) && bytes@ == #[trigger] chunk_blob(ft, ids0)
                ==> decode_good(r, ft, ids0),
{
    let n: usize = bytes.len();
    if n == 0 {
        proof {
            assert forall|ft: FillType, ids0: Seq<u16>|
                blob_ok(ft, ids0) && blob_fits(ft, ids0) && bytes@ == #[trigger] chunk_blob(
                    ft,
                    ids0,
                ) implies false by {
                match ft {
                    FillType::AllSame(id0) => lemma_blob_same_parts(id0, ids0),
                    FillType::Default => lemma_blob_default_parts(ids0),
                }
            }
        }
        return Err(ReinterpretError::Truncated);
    }
    let tag: u8 = bytes[0];
    if tag == 1 {
        if n != 3 {
            proof {
                assert forall|ft: FillType, ids0: Seq<u16>|
                    blob_ok(ft, ids0) && blob_fits(ft, ids0) && bytes@ == #[trigger] chunk_blob(
                        ft,
                        ids0,
                    ) implies false by {
                    match ft {
                        FillType::AllSame(id0) => lemma_blob_same_parts(id0, ids0),
                        FillType::Default => lemma_blob_default_parts(ids0),
                    }
                }
            }
            return Err(ReinterpretError::Truncated);
        }
        let id: u16 = read_le(bytes, 1, 2) as u16;
        proof {
            lemma_le_val_bound(bytes@.subrange(1, 3));
            crate::voxel::lemma_pow256_small();
        }
        if !is_id_valid(id) {
            proof {
                assert forall|ft: FillType, ids0: Seq<u16>|
                    blob_ok(ft, ids0) && blob_fits(ft, ids0) && bytes@ == #[trigger] chunk_blob(
                        ft,
                        ids0,
                    ) implies false by {
                    match ft {
                        FillType::AllSame(id0) => lemma_blob_same_parts(id0, ids0),
                        FillType::Default => lemma_blob_default_parts(ids0),
                    }
                }
            }
            return Err(ReinterpretError::InvalidData);
        }
        let out: Vec<u16> = Vec::new();
        proof {
            assert forall|ft: FillType, ids0: Seq<u16>|
                blob_ok(ft, ids0) && blob_fits(ft, ids0) && bytes@ == #[trigger] chunk_blob(
                    ft,
                    ids0,
                ) implies decode_good(
                Ok::<(Vec<u16>, FillType), ReinterpretError>((out, FillType::AllSame(id))),
                ft,
                ids0,
            ) by {
                match ft {
                    FillType::AllSame(id0) => {
                        lemma_blob_same_parts(id0, ids0);
                        assert(id == id0);
                    },
                    FillType::Default => lemma_blob_default_parts(ids0),
                }
            }
        }
        return Ok((out, FillType::AllSame(id)));
    }
    if tag != 0 || n < 17 {
        proof {
            assert forall|ft: FillType, ids0: Seq<u16>|
                blob_ok(ft, ids0) && blob_fits(ft, ids0) && bytes@ == #[trigger] chunk_blob(
                    ft,
                    ids0,
                ) implies false by {
                match ft {
                    FillType::AllSame(id0) => lemma_blob_same_parts(id0, ids0),
                    FillType::Default => lemma_blob_default_parts(ids0),
                }
            }
        }
        return Err(ReinterpretError::Truncated);
    }
    let m64: u64 = read_le(bytes, 1, 8);
    if m64 == 0 || m64 > 4 {
        proof {
            assert forall|ft: FillType, ids0: Seq<u16>|
                blob_ok(ft, ids0) && blob_fits(ft, ids0) && bytes@ == #[trigger] chunk_blob(
                    ft,
                    ids0,
                ) implies false by {
                match ft {
                    FillType::AllSame(id0) => lemma_blob_same_parts(id0, ids0),
                    FillType::Default => lemma_blob_default_parts(ids0),
                }
            }
        }
        return Err(ReinterpretError::InvalidData);
    }
    let m: usize = m64 as usize;
    if n < 17 + 10 * m {
        proof {
            assert forall|ft: FillType, ids0: Seq<u16>|
                blob_ok(ft, ids0) && blob_fits(ft, ids0) && bytes@ == #[trigger] chunk_blob(
                    ft,
                    ids0,
                ) implies false by {
                match ft {
                    FillType::AllSame(id0) => lemma_blob_same_parts(id0, ids0),
                    FillType::Default => lemma_blob_default_parts(ids0),
                }
            }
        }
        return Err(ReinterpretError::Truncated);
    }
    let mut freqs: Vec<(u16, u64)> = Vec::new();
    let mut j: usize = 0;
    while j < m
        invariant
            1 <= m <= 4,
            m == m64,
            m64 == le_val(bytes@.subrange(1, 9)),
            n == bytes@.len(),
            17 + 10 * m <= n,
            bytes@[0] == 0u8,
            j <= m,
            freqs@.len() == j,
            freqs_wf(freqs@),
            forall|k: int|
                0 <= k < j ==> (#[trigger] freqs@[k]).0 == le_val(
                    bytes@.subrange(9 + 10 * k, 9 + 10 * k + 2),
                ) && freqs@[k].1 == le_val(bytes@.subrange(9 + 10 * k + 2, 9 + 10 * k + 10))
                    && freqs@[k].0 < VOXEL_DATA_LEN && 1 <= freqs@[k].1 <= CHUNK_VOLUME,
        decreases m - j,
    {
        let id: u16 = read_le(bytes, 9 + 10 * j, 2) as u16;
        let cnt: u64 = read_le(bytes, 9 + 10 * j + 2, 8);
        proof {
            lemma_le_val_bound(bytes@.subrange(9 + 10 * j as int, 9 + 10 * j as int + 2));
            crate::voxel::lemma_pow256_small();
        }
        let mut bad: bool = !is_id_valid(id) || cnt == 0 || cnt > CHUNK_VOLUME as u64;
        if !bad && j > 0 {
            let prev = freqs[j - 1];
            if id <= prev.0 {
                bad = true;
            }
        }
        if bad {
            proof {
                assert forall|ft: FillType, ids0: Seq<u16>|
                    blob_ok(ft, ids0) && blob_fits(ft, ids0) && bytes@ == #[trigger] chunk_blob(
                        ft,
                        ids0,
                    ) implies false by {
                    match ft {
                        FillType::AllSame(id0) => lemma_blob_same_parts(id0, ids0),
                        FillType::Default => {
                            lemma_blob_default_parts(ids0);
                            let t = freq_table(ids0);
                            assert(m64 == t.len()) by {
                                assert(bytes@.subrange(1, 9) == chunk_blob(
                                    FillType::Default,
                                    ids0,
                                ).subrange(1, 9));
                            }
                            assert(id == t[j as int].0 && cnt == t[j as int].1) by {
                                assert(bytes@.subrange(9 + 10 * j as int, 9 + 10 * j as int + 2)
                                    == chunk_blob(FillType::Default, ids0).subrange(
                                    9 + 10 * j as int,
                                    9 + 10 * j as int + 2,
                                ));
                                assert(bytes@.subrange(
                                    9 + 10 * j as int + 2,
                                    9 + 10 * j as int + 10,
                                ) == chunk_blob(FillType::Default, ids0).subrange(
                                    9 + 10 * j as int + 2,
                                    9 + 10 * j as int + 10,
                                ));
                            }
                            if j > 0 {
                                assert(freqs@[j as int - 1].0 == t[j as int - 1].0) by {
                                    assert(bytes@.subrange(
                                        9 + 10 * (j as int - 1),
                                        9 + 10 * (j as int - 1) + 2,
                                    ) == chunk_blob(FillType::Default, ids0).subrange(
                                        9 + 10 * (j as int - 1),
                                        9 + 10 * (j as int - 1) + 2,
                                    ));
                                }
                            }
                        },
                    }
                }
            }
            return Err(ReinterpretError::InvalidData);
        }
        freqs.push((id, cnt));
        proof {
            assert forall|a: int, b2: int| 0 <= a < b2 < freqs@.len() implies (
            #[trigger] freqs@[a]).0 < (#[trigger] freqs@[b2]).0 by {
                if b2 < freqs@.len() - 1 {
                } else {
                    if a < freqs@.len() - 2 {
                        assert(freqs@[a].0 < freqs@[freqs@.len() - 2].0);
                    }
                }
            }
        }
        j += 1;
    }
    let mut total: u64 = 0;
    let mut k: usize = 0;
    while k < m
        invariant
            m == freqs@.len() <= 4,
            k <= m,
            total == table_sum(freqs@.take(k as int)),
            total <= k * CHUNK_VOLUME,
            forall|i2: int| 0 <= i2 < m ==> 1 <= (#[trigger] freqs@[i2]).1 <= CHUNK_VOLUME,
        decreases m - k,
    {
        let e = freqs[k];
        proof {
            assert(freqs@.take(k as int + 1).drop_last() =~= freqs@.take(k as int));
            assert(freqs@.take(k as int + 1).last() == freqs@[k as int]);
        }
        total = total + e.1;
        k += 1;
    }
    proof {
        assert(freqs@.take(m as int) =~= freqs@);
    }
    if total != CHUNK_VOLUME as u64 {
        proof {
            assert forall|ft: FillType, ids0: Seq<u16>|
                blob_ok(ft, ids0) && blob_fits(ft, ids0) && bytes@ == #[trigger] chunk_blob(
                    ft,
                    ids0,
                ) implies false by {
                match ft {
                    FillType::AllSame(id0) => lemma_blob_same_parts(id0, ids0),
                    FillType::Default => {
                        lemma_blob_default_parts(ids0);
                        lemma_parsed_is_table(bytes@, ids0, freqs@);
                    },
                }
            }
        }
        return Err(ReinterpretError::InvalidData);
    }
    let nbits64: u64 = read_le(bytes, 9 + 10 * m, 8);
    if nbits64 > usize::MAX as u64 {
        proof {
            assert forall|ft: FillType, ids0: Seq<u16>|
                blob_ok(ft, ids0) && blob_fits(ft, ids0) && bytes@ == #[trigger] chunk_blob(
                    ft,
                    ids0,
                ) implies false by {
                match ft {
                    FillType::AllSame(id0) => lemma_blob_same_parts(id0, ids0),
                    FillType::Default => {
                        lemma_blob_default_parts(ids0);
                        lemma_parsed_is_table(bytes@, ids0, freqs@);
                        assert(bytes@.subrange(9 + 10 * m as int, 17 + 10 * m as int)
                            == chunk_blob(FillType::Default, ids0).subrange(
                            9 + 10 * m as int,
                            17 + 10 * m as int,
                        ));
                    },
                }
            }
        }
        return Err(ReinterpretError::InvalidData);
    }
    let nb: usize = nbits64 as usize;
    let rem: usize = n - 17 - 10 * m;
    let expected: usize = nb / 8 + if nb % 8 != 0 {
        1
    } else {
        0
    };
    if rem != expected {
        proof {
            assert forall|ft: FillType, ids0: Seq<u16>|
                blob_ok(ft, ids0) && blob_fits(ft, ids0) && bytes@ == #[trigger] chunk_blob(
                    ft,
                    ids0,
                ) implies false by {
                match ft {
                    FillType::AllSame(id0) => lemma_blob_same_parts(id0, ids0),
                    FillType::Default => {
                        lemma_blob_default_parts(ids0);
                        lemma_parsed_is_table(bytes@, ids0, freqs@);
                        assert(bytes@.subrange(9 + 10 * m as int, 17 + 10 * m as int)
                            == chunk_blob(FillType::Default, ids0).subrange(
                            9 + 10 * m as int,
                            17 + 10 * m as int,
                        ));
                    },
                }
            }
        }
        return Err(ReinterpretError::Truncated);
    }
    let base: usize = 17 + 10 * m;
    let mut packed: Vec<u8> = Vec::new();
    let mut k2: usize = 0;
    while k2 < rem
        invariant
            base + rem == n,
            n == bytes@.len(),
            base == 17 + 10 * m,
            k2 <= rem,
            packed@ == bytes@.subrange(base as int, base as int + k2 as int),
        decreases rem - k2,
    {
        proof {
            assert(bytes@.subrange(base as int, base as int + k2 + 1) =~= bytes@.subrange(
                base as int,
                base as int + k2 as int,
            ).push(bytes@[base + k2]));
        }
        let byte: u8 = bytes[base + k2];
        packed.push(byte);
        k2 += 1;
    }
    proof {
        assert(nb <= packed@.len() * 8) by {
            assert(packed@.len() == rem);
            assert(nb == 8 * (nb / 8) + nb % 8);
        }
    }
    let bits: Vec<bool> = unpack_bits(&packed, nb);
    if m == 1 {
        if nb != 0 {
            proof {
                assert forall|ft: FillType, ids0: Seq<u16>|
                    blob_ok(ft, ids0) && blob_fits(ft, ids0) && bytes@ == #[trigger] chunk_blob(
                        ft,
                        ids0,
                    ) implies false by {
                    match ft {
                        FillType::AllSame(id0) => lemma_blob_same_parts(id0, ids0),
                        FillType::Default => {
                            lemma_blob_default_parts(ids0);
                            lemma_parsed_is_table(bytes@, ids0, freqs@);
                            assert(bytes@.subrange(9 + 10 * m as int, 17 + 10 * m as int)
                                == chunk_blob(FillType::Default, ids0).subrange(
                                9 + 10 * m as int,
                                17 + 10 * m as int,
                            ));
                        },
                    }
                }
            }
            return Err(ReinterpretError::InvalidData);
        }
        let only = freqs[0];
        let mut out: Vec<u16> = Vec::new();
        let mut i: usize = 0;
        while i < CHUNK_VOLUME
            invariant
                i <= CHUNK_VOLUME,
                out@.len() == i,
                forall|q: int| 0 <= q < i ==> #[trigger] out@[q] == only.0,
                only == freqs@[0],
                freqs@.len() >= 1,
                freqs@[0].0 < VOXEL_DATA_LEN,
            decreases CHUNK_VOLUME - i,
        {
            out.push(only.0);
            i += 1;
        }
        proof {
            assert forall|ft: FillType, ids0: Seq<u16>|
                blob_ok(ft, ids0) && blob_fits(ft, ids0) && bytes@ == #[trigger] chunk_blob(
                    ft,
                    ids0,
                ) implies decode_good(
                Ok::<(Vec<u16>, FillType), ReinterpretError>((out, FillType::Default)),
                ft,
                ids0,
            ) by {
                match ft {
                    FillType::AllSame(id0) => lemma_blob_same_parts(id0, ids0),
                    FillType::Default => {
                        lemma_blob_default_parts(ids0);
                        lemma_parsed_is_table(bytes@, ids0, freqs@);
                        let t = freq_table(ids0);
                        assert(freqs@[0] == t[0]);
                        assert(out@ =~= ids0);
                    },
                }
            }
        }
        return Ok((out, FillType::Default));
    }
    let decoded: Vec<u16> = huffman_decode(&freqs, &bits);
    let ok_len: bool = decoded.len() == CHUNK_VOLUME;
    let mut all_valid: bool = true;
    let mut q: usize = 0;
    let dlen: usize = decoded.len();
    while q < dlen
        invariant
            dlen == decoded@.len(),
            q <= dlen,
            all_valid == forall|i2: int| 0 <= i2 < q ==> is_id_valid_spec(#[trigger] decoded@[i2]),
        decreases dlen - q,
    {
        let v = decoded[q];
        if !is_id_valid(v) {
            all_valid = false;
        }
        proof {
            if !is_id_valid_spec(decoded@[q as int]) {
                assert(!(forall|i2: int|
                    0 <= i2 < q + 1 ==> is_id_valid_spec(#[trigger] decoded@[i2])));
            }
        }
        q += 1;
    }
    let good: bool = ok_len && all_valid;
    proof {
        assert forall|ft: FillType, ids0: Seq<u16>|
            blob_ok(ft, ids0) && blob_fits(ft, ids0) && bytes@ == #[trigger] chunk_blob(ft, ids0)
            implies good && decode_good(
            Ok::<(Vec<u16>, FillType), ReinterpretError>((decoded, FillType::Default)),
            ft,
            ids0,
        ) by {
            match ft {
                FillType::AllSame(id0) => lemma_blob_same_parts(id0, ids0),
                FillType::Default => {
                    lemma_blob_default_parts(ids0);
                    lemma_parsed_is_table(bytes@, ids0, freqs@);
                    let t = freq_table(ids0);
                    assert(t.len() >= 2);
                    let bits0 = huff_bits(t, ids0);
                    assert(bytes@.subrange(9 + 10 * m as int, 17 + 10 * m as int) == chunk_blob(
                        FillType::Default,
                        ids0,
                    ).subrange(9 + 10 * m as int, 17 + 10 * m as int));
                    assert(nb == bits0.len());
                    assert(packed@ =~= chunk_blob(FillType::Default, ids0).subrange(
                        17 + 10 * m as int,
                        n as int,
                    ));
                    assert(packed@ == pack_bits_spec(bits0));
                    lemma_pack_unpack(bits0);
                    assert(bits@ == bits0);
                    assert(bits@ == huff_bits(freqs@, ids0));
                    assert(forall|i2: int|
                        0 <= i2 < ids0.len() ==> freq_has(freqs@, #[trigger] ids0[i2]));
                    assert(decoded@ == ids0);
                },
            }
        }
    }
    if !good {
        return Err(ReinterpretError::InvalidData);
    }
    Ok((decoded, FillType::Default))
}

/// A table parsed out of a genuine blob is the blob's own frequency
/// table.
proof fn lemma_parsed_is_table(bytes: Seq<u8>, ids0: Seq<u16>, freqs: Seq<(u16, u64)>)
    requires
        blob_ok(FillType::Default, ids0),
        blob_fits(FillType::Default, ids0),
        bytes == chunk_blob(FillType::Default, ids0),
        freqs.len() == freq_table(ids0).len(),
        forall|k: int|
            0 <= k < freqs.len() ==> (#[trigger] freqs[k]).0 == le_val(
                bytes.subrange(9 + 10 * k, 9 + 10 * k + 2),
            ) && freqs[k].1 == le_val(bytes.subrange(9 + 10 * k + 2, 9 + 10 * k + 10)),
    ensures
        freqs == freq_table(ids0),
{
    lemma_blob_default_parts(ids0);
    let t = freq_table(ids0);
    assert forall|k: int| 0 <= k < freqs.len() implies freqs[k] == t[k] by {
        assert(freqs[k].0 == t[k].0 && freqs[k].1 == t[k].1);
        assert(freqs[k] == (freqs[k].0, freqs[k].1));
        assert(t[k] == (t[k].0, t[k].1));
    }
    assert(freqs =~= t);
}

} // verus!
