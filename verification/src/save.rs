//! The save-file container: a fixed header of section descriptors, a
//! sizes section, and a pointer-indexed array of chunk blobs that supports
//! random access. Reading back a written file yields the same sizes and
//! blobs; that round trip is part of the reader's contract.

use vstd::prelude::*;

use crate::bytes::{le_bytes, le_val, lemma_le_bytes_len, lemma_le_roundtrip, lemma_le_val_bound,
    pow256, push_le, read_le};
use crate::cfg::MAX_CHUNKS;
use crate::math::USize3;
use crate::voxel::ReinterpretError;

verus! {

/// Section tag of the grid dimensions.
pub const SIZES_SECTION_ID: u64 = 1;

/// Section tag of the chunk pointer array.
pub const ARRAY_SECTION_ID: u64 = 2;

/// The lengths of all blobs added up.
pub open spec fn sum_lens(bs: Seq<Seq<u8>>) -> int
    decreases bs.len(),
{
    if bs.len() == 0 {
        0
    } else {
        bs[0].len() + sum_lens(bs.skip(1))
    }
}

/// All blobs laid end to end.
pub open spec fn blobs_concat(bs: Seq<Seq<u8>>) -> Seq<u8>
    decreases bs.len(),
{
    if bs.len() == 0 {
        Seq::empty()
    } else {
        bs[0] + blobs_concat(bs.skip(1))
    }
}

/// The pointer table: per blob its absolute file offset and length, the
/// first blob lying at `base`.
pub open spec fn entry_table(bs: Seq<Seq<u8>>, base: int) -> Seq<u8>
    decreases bs.len(),
{
    if bs.len() == 0 {
        Seq::empty()
    } else {
        le_bytes(base, 8) + le_bytes(bs[0].len() as int, 8) + entry_table(
            bs.skip(1),
            base + bs[0].len(),
        )
    }
}

/// The whole save file: two section descriptors, the three grid
/// dimensions, then the pointer table and the blobs it indexes.
pub open spec fn save_file_spec(sizes: USize3, bs: Seq<Seq<u8>>) -> Seq<u8> {
    le_bytes(SIZES_SECTION_ID as int, 8) + le_bytes(48, 8) + le_bytes(24, 8) + le_bytes(
        ARRAY_SECTION_ID as int,
        8,
    ) + le_bytes(72, 8) + le_bytes(16 * bs.len() + sum_lens(bs), 8) + le_bytes(sizes.x as int, 8)
        + le_bytes(sizes.y as int, 8) + le_bytes(sizes.z as int, 8) + entry_table(
        bs,
        72 + 16 * bs.len() as int,
    ) + blobs_concat(bs)
}

/// What a save file may describe: a grid within the configured bound,
/// one blob per chunk, and a total size a vector can hold.
pub open spec fn save_ok(sizes: USize3, bs: Seq<Seq<u8>>) -> bool {
    &&& sizes.x * sizes.y * sizes.z == bs.len()
    &&& sizes.x <= MAX_CHUNKS && sizes.y <= MAX_CHUNKS && sizes.z <= MAX_CHUNKS
    &&& sizes.x * sizes.y * sizes.z <= MAX_CHUNKS
    &&& 72 + 16 * bs.len() + sum_lens(bs) <= usize::MAX
}

pub proof fn lemma_sum_lens_nonneg(bs: Seq<Seq<u8>>)
    ensures
        sum_lens(bs) >= 0,
    decreases bs.len(),
{
    if bs.len() > 0 {
        lemma_sum_lens_nonneg(bs.skip(1));
    }
}

pub proof fn lemma_blobs_concat_len(bs: Seq<Seq<u8>>)
    ensures
        blobs_concat(bs).len() == sum_lens(bs),
    decreases bs.len(),
{
    if bs.len() > 0 {
        lemma_blobs_concat_len(bs.skip(1));
    }
}

pub proof fn lemma_entry_table_len(bs: Seq<Seq<u8>>, base: int)
    ensures
        entry_table(bs, base).len() == 16 * bs.len(),
    decreases bs.len(),
{
    if bs.len() > 0 {
        lemma_entry_table_len(bs.skip(1), base + bs[0].len());
        lemma_le_bytes_len(base, 8);
        lemma_le_bytes_len(bs[0].len() as int, 8);
    }
}

/// Where entry `j` sits in the pointer table and what it reads as: the
/// offset `base` plus the lengths of the blobs before `j`, then blob
/// `j`'s length.
pub proof fn lemma_entry_table_index(bs: Seq<Seq<u8>>, base: int, j: int)
    requires
        0 <= j < bs.len(),
        0 <= base,
        base + sum_lens(bs) < pow256(8),
    ensures
        le_val(entry_table(bs, base).subrange(16 * j, 16 * j + 8)) == base + sum_lens(bs.take(j)),
        le_val(entry_table(bs, base).subrange(16 * j + 8, 16 * j + 16)) == bs[j].len(),
    decreases j,
{
    lemma_entry_table_len(bs, base);
    lemma_le_bytes_len(base, 8);
    lemma_le_bytes_len(bs[0].len() as int, 8);
    lemma_sum_lens_nonneg(bs.skip(1));
    lemma_sum_lens_nonneg(bs);
    if j == 0 {
        assert(entry_table(bs, base).subrange(0, 8) =~= le_bytes(base, 8));
        assert(entry_table(bs, base).subrange(8, 16) =~= le_bytes(bs[0].len() as int, 8));
        lemma_le_roundtrip(base, 8);
        assert(bs[0].len() <= base + sum_lens(bs));
        lemma_le_roundtrip(bs[0].len() as int, 8);
        assert(sum_lens(bs.take(0)) == 0);
    } else {
        lemma_entry_table_index(bs.skip(1), base + bs[0].len(), j - 1);
        lemma_entry_table_len(bs.skip(1), base + bs[0].len());
        assert(entry_table(bs, base).subrange(16 * j, 16 * j + 8) =~= entry_table(
            bs.skip(1),
            base + bs[0].len(),
        ).subrange(16 * (j - 1), 16 * (j - 1) + 8));
        assert(entry_table(bs, base).subrange(16 * j + 8, 16 * j + 16) =~= entry_table(
            bs.skip(1),
            base + bs[0].len(),
        ).subrange(16 * (j - 1) + 8, 16 * (j - 1) + 16));
        assert(bs.skip(1)[j - 1] == bs[j]);
        lemma_sum_lens_take_step(bs, j);
    }
}

/// The prefix sums of blob lengths grow one blob at a time.
pub proof fn lemma_sum_lens_take_step(bs: Seq<Seq<u8>>, j: int)
    requires
        1 <= j <= bs.len(),
    ensures
        sum_lens(bs.take(j)) == bs[0].len() + sum_lens(bs.skip(1).take(j - 1)),
    decreases j,
{
    assert(bs.take(j)[0] == bs[0]);
    assert(bs.take(j).skip(1) =~= bs.skip(1).take(j - 1));
}

/// Each blob lies at its entry's offset in the file body.
pub proof fn lemma_blobs_concat_index(bs: Seq<Seq<u8>>, j: int)
    requires
        0 <= j < bs.len(),
    ensures
        sum_lens(bs.take(j)) >= 0,
        sum_lens(bs.take(j)) + bs[j].len() <= sum_lens(bs),
        blobs_concat(bs).subrange(
            sum_lens(bs.take(j)),
            sum_lens(bs.take(j)) + bs[j].len(),
        ) == bs[j],
    decreases j,
{
    lemma_blobs_concat_len(bs);
    lemma_sum_lens_nonneg(bs.take(j));
    lemma_blobs_concat_len(bs.skip(1));
    lemma_sum_lens_nonneg(bs.skip(1));
    if j == 0 {
        assert(sum_lens(bs.take(0)) == 0);
        assert(blobs_concat(bs).subrange(0, bs[0].len() as int) =~= bs[0]);
    } else {
        lemma_blobs_concat_index(bs.skip(1), j - 1);
        lemma_sum_lens_take_step(bs, j);
        assert(bs.skip(1)[j - 1] == bs[j]);
        let off = sum_lens(bs.take(j));
        assert(blobs_concat(bs).subrange(off, off + bs[j].len()) =~= blobs_concat(
            bs.skip(1),
        ).subrange(off - bs[0].len(), off - bs[0].len() + bs[j].len()));
    }
}

/// Writes the save file for a grid of the given dimensions and one
/// serialized blob per chunk.
pub fn save_bytes(sizes: USize3, blobs: &Vec<Vec<u8>>) -> (r: Vec<u8>)
    requires
        save_ok(sizes, blobs@.map_values(|b: Vec<u8>| b@)),
    ensures
        r@ == save_file_spec(sizes, blobs@.map_values(|b: Vec<u8>| b@)),
{
    let ghost bs = blobs@.map_values(|b: Vec<u8>| b@);
    let vol: usize = blobs.len();
    proof {
        assert(pow256(8) == 0x1_0000_0000_0000_0000) by {
            reveal_with_fuel(pow256, 9);
        }
        lemma_sum_lens_nonneg(bs);
    }
    let mut total_lens: usize = 0;
    let mut j: usize = 0;
    while j < vol
        invariant
            vol == blobs@.len(),
            bs == blobs@.map_values(|b: Vec<u8>| b@),
            j <= vol,
            total_lens == sum_lens(bs.take(j as int)),
            72 + 16 * bs.len() + sum_lens(bs) <= usize::MAX,
        decreases vol - j,
    {
        proof {
            lemma_sum_lens_prefix_bound(bs, j as int + 1);
            lemma_sum_lens_take_unfold(bs, j as int);
        }
        total_lens = total_lens + blobs[j].len();
        j += 1;
    }
    proof {
        assert(bs.take(vol as int) =~= bs);
    }
    let mut out: Vec<u8> = Vec::new();
    push_le(&mut out, SIZES_SECTION_ID, 8);
    push_le(&mut out, 48, 8);
    push_le(&mut out, 24, 8);
    push_le(&mut out, ARRAY_SECTION_ID, 8);
    push_le(&mut out, 72, 8);
    push_le(&mut out, (16 * vol + total_lens) as u64, 8);
    push_le(&mut out, sizes.x as u64, 8);
    push_le(&mut out, sizes.y as u64, 8);
    push_le(&mut out, sizes.z as u64, 8);
    let base: usize = 72 + 16 * vol;
    let ghost header = out@;
    let mut off: usize = base;
    let mut j2: usize = 0;
    while j2 < vol
        invariant
            vol == blobs@.len(),
            bs == blobs@.map_values(|b: Vec<u8>| b@),
            j2 <= vol,
            base == 72 + 16 * vol,
            72 + 16 * bs.len() + sum_lens(bs) <= usize::MAX,
            off == base + sum_lens(bs.take(j2 as int)),
            header + entry_table(bs, base as int) == out@ + entry_table(
                bs.skip(j2 as int),
                off as int,
            ),
        decreases vol - j2,
    {
        proof {
            assert(pow256(8) == 0x1_0000_0000_0000_0000) by {
                reveal_with_fuel(pow256, 9);
            }
            lemma_sum_lens_prefix_bound(bs, j2 as int + 1);
            lemma_sum_lens_take_unfold(bs, j2 as int);
            lemma_sum_lens_nonneg(bs.take(j2 as int));
            assert(bs.skip(j2 as int)[0] == bs[j2 as int]);
            assert(bs.skip(j2 as int).skip(1) =~= bs.skip(j2 as int + 1));
        }
        let blen: usize = blobs[j2].len();
        push_le(&mut out, off as u64, 8);
        push_le(&mut out, blen as u64, 8);
        proof {
            assert(out@ + entry_table(bs.skip(j2 as int + 1), off as int + blen as int) =~= header
                + entry_table(bs, base as int));
        }
        off = off + blen;
        j2 += 1;
    }
    proof {
        assert(bs.skip(vol as int) =~= Seq::<Seq<u8>>::empty());
        assert(out@ =~= header + entry_table(bs, base as int));
    }
    let ghost with_table = out@;
    let mut j3: usize = 0;
    while j3 < vol
        invariant
            vol == blobs@.len(),
            bs == blobs@.map_values(|b: Vec<u8>| b@),
            j3 <= vol,
            with_table + blobs_concat(bs) == out@ + blobs_concat(bs.skip(j3 as int)),
        decreases vol - j3,
    {
        proof {
            assert(bs.skip(j3 as int)[0] == bs[j3 as int]);
            assert(bs.skip(j3 as int).skip(1) =~= bs.skip(j3 as int + 1));
        }
        let mut piece: Vec<u8> = copy_bytes(&blobs[j3]);
        out.append(&mut piece);
        proof {
            assert(out@ + blobs_concat(bs.skip(j3 as int + 1)) =~= with_table + blobs_concat(bs));
        }
        j3 += 1;
    }
    proof {
        assert(bs.skip(vol as int) =~= Seq::<Seq<u8>>::empty());
        assert(out@ =~= save_file_spec(sizes, bs));
    }
    out
}

/// A fresh copy of a byte vector.
fn copy_bytes(b: &Vec<u8>) -> (r: Vec<u8>)
    ensures
        r@ == b@,
{
    let mut r: Vec<u8> = Vec::new();
    let len: usize = b.len();
    let mut i: usize = 0;
    while i < len
        invariant
            len == b@.len(),
            i <= len,
            r@ == b@.take(i as int),
        decreases len - i,
    {
        proof {
            assert(b@.take(i + 1) =~= b@.take(i as int).push(b@[i as int]));
        }
        let v = b[i];
        r.push(v);
        i += 1;
    }
    proof {
        assert(b@.take(len as int) =~= b@);
    }
    r
}

/// Every prefix sum of blob lengths is at most the total.
proof fn lemma_sum_lens_prefix_bound(bs: Seq<Seq<u8>>, j: int)
    requires
        0 <= j <= bs.len(),
    ensures
        0 <= sum_lens(bs.take(j)) <= sum_lens(bs),
    decreases bs.len() - j,
{
    lemma_sum_lens_nonneg(bs.take(j));
    if j == bs.len() {
        assert(bs.take(j) =~= bs);
    } else {
        lemma_sum_lens_prefix_bound(bs, j + 1);
        lemma_sum_lens_take_unfold(bs, j);
    }
}

/// One more blob in the prefix adds its length to the sum.
proof fn lemma_sum_lens_take_unfold(bs: Seq<Seq<u8>>, j: int)
    requires
        0 <= j < bs.len(),
    ensures
        sum_lens(bs.take(j + 1)) == sum_lens(bs.take(j)) + bs[j].len(),
    decreases j,
{
    if j == 0 {
        assert(bs.take(1)[0] == bs[0]);
        assert(bs.take(1).skip(1) =~= Seq::<Seq<u8>>::empty());
        assert(bs.take(0) =~= Seq::<Seq<u8>>::empty());
    } else {
        lemma_sum_lens_take_unfold(bs.skip(1), j - 1);
        lemma_sum_lens_take_step(bs, j + 1);
        lemma_sum_lens_take_step(bs, j);
        assert(bs.skip(1)[j - 1] == bs[j]);
    }
}

/// The pieces of a genuine save file: each header field, dimension,
/// pointer entry and blob, where it sits and what it reads back as.
proof fn lemma_save_parts(sizes: USize3, bs: Seq<Seq<u8>>)
    requires
        save_ok(sizes, bs),
    ensures
        ({
            let b = save_file_spec(sizes, bs);
            let base = 72 + 16 * bs.len() as int;
            &&& b.len() == base + sum_lens(bs)
            &&& le_val(b.subrange(0, 8)) == SIZES_SECTION_ID
            &&& le_val(b.subrange(8, 16)) == 48
            &&& le_val(b.subrange(16, 24)) == 24
            &&& le_val(b.subrange(24, 32)) == ARRAY_SECTION_ID
            &&& le_val(b.subrange(32, 40)) == 72
            &&& le_val(b.subrange(40, 48)) == 16 * bs.len() + sum_lens(bs)
            &&& le_val(b.subrange(48, 56)) == sizes.x
            &&& le_val(b.subrange(56, 64)) == sizes.y
            &&& le_val(b.subrange(64, 72)) == sizes.z
            &&& forall|j: int|
                0 <= j < bs.len() ==> le_val(
                    #[trigger] b.subrange(72 + 16 * j, 72 + 16 * j + 8),
                ) == base + sum_lens(bs.take(j)) && le_val(
                    b.subrange(72 + 16 * j + 8, 72 + 16 * j + 16),
                ) == bs[j].len()
            &&& forall|j: int|
                0 <= j < bs.len() ==> 0 <= base + sum_lens(#[trigger] bs.take(j)) && base
                    + sum_lens(bs.take(j)) + bs[j].len() <= b.len() && b.subrange(
                    base + sum_lens(bs.take(j)),
                    base + sum_lens(bs.take(j)) + bs[j].len(),
                ) == bs[j]
        }),
{
    let b = save_file_spec(sizes, bs);
    let base = 72 + 16 * bs.len() as int;
    let header: Seq<u8> = le_bytes(SIZES_SECTION_ID as int, 8) + le_bytes(48, 8) + le_bytes(24, 8)
        + le_bytes(ARRAY_SECTION_ID as int, 8) + le_bytes(72, 8) + le_bytes(
        16 * bs.len() + sum_lens(bs),
        8,
    ) + le_bytes(sizes.x as int, 8) + le_bytes(sizes.y as int, 8) + le_bytes(sizes.z as int, 8);
    assert(pow256(8) == 0x1_0000_0000_0000_0000) by {
        reveal_with_fuel(pow256, 9);
    }
    lemma_sum_lens_nonneg(bs);
    lemma_le_bytes_len(SIZES_SECTION_ID as int, 8);
    lemma_le_bytes_len(48, 8);
    lemma_le_bytes_len(24, 8);
    lemma_le_bytes_len(ARRAY_SECTION_ID as int, 8);
    lemma_le_bytes_len(72, 8);
    lemma_le_bytes_len(16 * bs.len() + sum_lens(bs), 8);
    lemma_le_bytes_len(sizes.x as int, 8);
    lemma_le_bytes_len(sizes.y as int, 8);
    lemma_le_bytes_len(sizes.z as int, 8);
    lemma_entry_table_len(bs, base);
    lemma_blobs_concat_len(bs);
    assert(b.subrange(0, 8) =~= le_bytes(SIZES_SECTION_ID as int, 8));
    assert(b.subrange(8, 16) =~= le_bytes(48, 8));
    assert(b.subrange(16, 24) =~= le_bytes(24, 8));
    assert(b.subrange(24, 32) =~= le_bytes(ARRAY_SECTION_ID as int, 8));
    assert(b.subrange(32, 40) =~= le_bytes(72, 8));
    assert(b.subrange(40, 48) =~= le_bytes(16 * bs.len() + sum_lens(bs), 8));
    assert(b.subrange(48, 56) =~= le_bytes(sizes.x as int, 8));
    assert(b.subrange(56, 64) =~= le_bytes(sizes.y as int, 8));
    assert(b.subrange(64, 72) =~= le_bytes(sizes.z as int, 8));
    lemma_le_roundtrip(SIZES_SECTION_ID as int, 8);
    lemma_le_roundtrip(48, 8);
    lemma_le_roundtrip(24, 8);
    lemma_le_roundtrip(ARRAY_SECTION_ID as int, 8);
    lemma_le_roundtrip(72, 8);
    lemma_le_roundtrip(16 * bs.len() + sum_lens(bs), 8);
    lemma_le_roundtrip(sizes.x as int, 8);
    lemma_le_roundtrip(sizes.y as int, 8);
    lemma_le_roundtrip(sizes.z as int, 8);
    assert forall|j: int| 0 <= j < bs.len() implies le_val(
        #[trigger] b.subrange(72 + 16 * j, 72 + 16 * j + 8),
    ) == base + sum_lens(bs.take(j)) && le_val(b.subrange(72 + 16 * j + 8, 72 + 16 * j + 16))
        == bs[j].len() by {
        lemma_entry_table_index(bs, base, j);
        assert(b.subrange(72 + 16 * j, 72 + 16 * j + 8) =~= entry_table(bs, base).subrange(
            16 * j,
            16 * j + 8,
        ));
        assert(b.subrange(72 + 16 * j + 8, 72 + 16 * j + 16) =~= entry_table(bs, base).subrange(
            16 * j + 8,
            16 * j + 16,
        ));
    }
    assert forall|j: int| 0 <= j < bs.len() implies 0 <= base + sum_lens(#[trigger] bs.take(j))
        && base + sum_lens(bs.take(j)) + bs[j].len() <= b.len() && b.subrange(
        base + sum_lens(bs.take(j)),
        base + sum_lens(bs.take(j)) + bs[j].len(),
    ) == bs[j] by {
        lemma_blobs_concat_index(bs, j);
        assert(b.subrange(base + sum_lens(bs.take(j)), base + sum_lens(bs.take(j)) + bs[j].len())
            =~= blobs_concat(bs).subrange(sum_lens(bs.take(j)), sum_lens(bs.take(j)) + bs[j].len()));
    }
}

/// Whether `blob` is exactly the file region that pointer entry `k`
/// designates.
pub open spec fn parsed_entry_ok(bytes: Seq<u8>, blob: Seq<u8>, k: int) -> bool {
    exists|s: int, e: int|
        0 <= s <= e <= bytes.len() && le_val(bytes.subrange(72 + 16 * k, 72 + 16 * k + 8)) == s
            && le_val(bytes.subrange(72 + 16 * k + 8, 72 + 16 * k + 16)) == e - s && blob
            == #[trigger] bytes.subrange(s, e)
}

/// What a successful read owes for a given written grid.
pub open spec fn read_good(
    r: Result<(USize3, Vec<Vec<u8>>), ReinterpretError>,
    sizes: USize3,
    bs: Seq<Seq<u8>>,
) -> bool {
    match r {
        Ok(p) => p.0 == sizes && p.1@.map_values(|b: Vec<u8>| b@) == bs,
        Err(_) => false,
    }
}

/// No written file lets the reader's strict cursor disagree with a
/// pointer entry or run past the end.
proof fn lemma_loop_reject(
    bytes: Seq<u8>,
    w: u64,
    h: u64,
    d: u64,
    vol: int,
    j: int,
    cursor: int,
    off: int,
    blen: int,
)
    requires
        w == le_val(bytes.subrange(48, 56)),
        h == le_val(bytes.subrange(56, 64)),
        d == le_val(bytes.subrange(64, 72)),
        vol == w * h * d,
        0 <= j < vol,
        cursor == if j == 0 {
            72 + 16 * vol
        } else {
            le_val(bytes.subrange(72 + 16 * (j - 1), 72 + 16 * (j - 1) + 8)) + le_val(
                bytes.subrange(72 + 16 * (j - 1) + 8, 72 + 16 * (j - 1) + 16),
            )
        },
        off == le_val(bytes.subrange(72 + 16 * j, 72 + 16 * j + 8)),
        blen == le_val(bytes.subrange(72 + 16 * j + 8, 72 + 16 * j + 16)),
        off != cursor || cursor + blen > bytes.len(),
    ensures
        forall|sizes: USize3, bs: Seq<Seq<u8>>|
            bytes == #[trigger] save_file_spec(sizes, bs) ==> !save_ok(sizes, bs),
{
    assert forall|sizes: USize3, bs: Seq<Seq<u8>>|
        bytes == #[trigger] save_file_spec(sizes, bs) implies !save_ok(sizes, bs) by {
        if save_ok(sizes, bs) {
            lemma_save_parts(sizes, bs);
            assert(bytes.subrange(48, 56) == save_file_spec(sizes, bs).subrange(48, 56));
            assert(bytes.subrange(56, 64) == save_file_spec(sizes, bs).subrange(56, 64));
            assert(bytes.subrange(64, 72) == save_file_spec(sizes, bs).subrange(64, 72));
            assert(w == sizes.x && h == sizes.y && d == sizes.z);
            assert(vol == bs.len());
            lemma_cursor_matches(bytes, sizes, bs, j, cursor);
        }
    }
}

/// No written file leaves bytes behind the last blob.
proof fn lemma_tail_reject(bytes: Seq<u8>, w: u64, h: u64, d: u64, vol: int, cursor: int, n: int)
    requires
        n == bytes.len(),
        w == le_val(bytes.subrange(48, 56)),
        h == le_val(bytes.subrange(56, 64)),
        d == le_val(bytes.subrange(64, 72)),
        vol == w * h * d,
        cursor == if vol == 0 {
            72 + 16 * vol
        } else {
            le_val(bytes.subrange(72 + 16 * (vol - 1), 72 + 16 * (vol - 1) + 8)) + le_val(
                bytes.subrange(72 + 16 * (vol - 1) + 8, 72 + 16 * (vol - 1) + 16),
            )
        },
        cursor != n,
    ensures
        forall|sizes: USize3, bs: Seq<Seq<u8>>|
            bytes == #[trigger] save_file_spec(sizes, bs) ==> !save_ok(sizes, bs),
{
    assert forall|sizes: USize3, bs: Seq<Seq<u8>>|
        bytes == #[trigger] save_file_spec(sizes, bs) implies !save_ok(sizes, bs) by {
        if save_ok(sizes, bs) {
            lemma_save_parts(sizes, bs);
            assert(bytes.subrange(48, 56) == save_file_spec(sizes, bs).subrange(48, 56));
            assert(bytes.subrange(56, 64) == save_file_spec(sizes, bs).subrange(56, 64));
            assert(bytes.subrange(64, 72) == save_file_spec(sizes, bs).subrange(64, 72));
            assert(w == sizes.x && h == sizes.y && d == sizes.z);
            assert(vol == bs.len());
            lemma_cursor_matches(bytes, sizes, bs, vol, cursor);
        }
    }
}

/// Reads a save file back: the grid dimensions and one blob per chunk.
/// Rejects truncated or inconsistent files; on any file the writer can
/// produce, returns exactly the sizes and blobs that were written.
#[verifier::rlimit(100)]
pub fn read_save(bytes: &Vec<u8>) -> (r: Result<(USize3, Vec<Vec<u8>>), ReinterpretError>)
    ensures
        match r {
            Ok(p) => p.0.x * p.0.y * p.0.z == p.1@.len() && p.0.x <= MAX_CHUNKS && p.0.y
                <= MAX_CHUNKS && p.0.z <= MAX_CHUNKS && p.0.x * p.0.y * p.0.z <= MAX_CHUNKS,
            Err(_) => true,
        },
        forall|sizes: USize3, bs: Seq<Seq<u8>>|
            save_ok(sizes, bs) && bytes@ == #[trigger] save_file_spec(sizes, bs) ==> read_good(
                r,
                sizes,
                bs,
            ),
{
    let n: usize = bytes.len();
    if n < 72 {
        proof {
            assert forall|sizes: USize3, bs: Seq<Seq<u8>>|
                save_ok(sizes, bs) && bytes@ == #[trigger] save_file_spec(sizes, bs)
                implies false by {
                lemma_save_parts(sizes, bs);
                lemma_sum_lens_nonneg(bs);
            }
        }
        return Err(ReinterpretError::Truncated);
    }
    let ok_header: bool = read_le(bytes, 0, 8) == SIZES_SECTION_ID && read_le(bytes, 8, 8) == 48
        && read_le(bytes, 16, 8) == 24 && read_le(bytes, 24, 8) == ARRAY_SECTION_ID && read_le(
        bytes,
        32,
        8,
    ) == 72;
    let arr_len: u64 = read_le(bytes, 40, 8);
    let w: u64 = read_le(bytes, 48, 8);
    let h: u64 = read_le(bytes, 56, 8);
    let d: u64 = read_le(bytes, 64, 8);
    let mut dims_ok: bool = w <= MAX_CHUNKS as u64 && h <= MAX_CHUNKS as u64 && d <= MAX_CHUNKS
        as u64;
    let mut vol64: u64 = 0;
    if dims_ok {
        proof {
            assert(w * h <= 0x100_0000 && w * h * d <= 0x1_0000_0000_0000) by (nonlinear_arith)
                requires w <= 4096 && h <= 4096 && d <= 4096;
        }
        vol64 = w * h * d;
        if vol64 > MAX_CHUNKS as u64 {
            dims_ok = false;
        }
    }
    if !ok_header || !dims_ok || arr_len as u128 != (n - 72) as u128 {
        proof {
            assert forall|sizes: USize3, bs: Seq<Seq<u8>>|
                save_ok(sizes, bs) && bytes@ == #[trigger] save_file_spec(sizes, bs)
                implies false by {
                lemma_save_parts(sizes, bs);
                lemma_sum_lens_nonneg(bs);
            }
        }
        return Err(ReinterpretError::InvalidData);
    }
    let vol: usize = vol64 as usize;
    if (n - 72) / 16 < vol {
        proof {
            assert forall|sizes: USize3, bs: Seq<Seq<u8>>|
                save_ok(sizes, bs) && bytes@ == #[trigger] save_file_spec(sizes, bs)
                implies false by {
                lemma_save_parts(sizes, bs);
                lemma_sum_lens_nonneg(bs);
            }
        }
        return Err(ReinterpretError::Truncated);
    }
    let sizes_out = USize3 { x: w as usize, y: h as usize, z: d as usize };
    let base: usize = 72 + 16 * vol;
    let mut out: Vec<Vec<u8>> = Vec::new();
    let mut cursor: usize = base;
    let mut j: usize = 0;
    while j < vol
        invariant
            n == bytes@.len(),
            72 + 16 * vol <= n,
            base == 72 + 16 * vol,
            w == le_val(bytes@.subrange(48, 56)),
            h == le_val(bytes@.subrange(56, 64)),
            d == le_val(bytes@.subrange(64, 72)),
            vol == w * h * d,
            j <= vol,
            base <= cursor <= n,
            out@.len() == j,
            forall|k: int| 0 <= k < j ==> #[trigger] parsed_entry_ok(bytes@, out@[k]@, k),
            cursor as int == if j == 0 {
                base as int
            } else {
                le_val(bytes@.subrange(72 + 16 * (j - 1), 72 + 16 * (j - 1) + 8)) + le_val(
                    bytes@.subrange(72 + 16 * (j - 1) + 8, 72 + 16 * (j - 1) + 16),
                )
            },
        decreases vol - j,
    {
        let off: u64 = read_le(bytes, 72 + 16 * j, 8);
        let blen: u64 = read_le(bytes, 72 + 16 * j + 8, 8);
        if off as u128 != cursor as u128 || cursor as u128 + blen as u128 > n as u128 {
            proof {
                lemma_loop_reject(
                    bytes@,
                    w,
                    h,
                    d,
                    vol as int,
                    j as int,
                    cursor as int,
                    off as int,
                    blen as int,
                );
            }
            return Err(ReinterpretError::Truncated);
        }
        let start: usize = cursor;
        let end: usize = cursor + blen as usize;
        let mut piece: Vec<u8> = Vec::new();
        let mut k2: usize = start;
        while k2 < end
            invariant
                start <= k2 <= end <= n,
                n == bytes@.len(),
                piece@ == bytes@.subrange(start as int, k2 as int),
            decreases end - k2,
        {
            proof {
                assert(bytes@.subrange(start as int, k2 + 1) =~= bytes@.subrange(
                    start as int,
                    k2 as int,
                ).push(bytes@[k2 as int]));
            }
            let byte: u8 = bytes[k2];
            piece.push(byte);
            k2 += 1;
        }
        out.push(piece);
        cursor = end;
        j += 1;
        proof {
            assert forall|k: int| 0 <= k < j implies #[trigger] parsed_entry_ok(
                bytes@,
                out@[k]@,
                k,
            ) by {
                if k == j - 1 {
                    assert(0 <= start as int <= end as int <= bytes@.len() && le_val(
                        bytes@.subrange(72 + 16 * k, 72 + 16 * k + 8),
                    ) == start as int && le_val(bytes@.subrange(72 + 16 * k + 8, 72 + 16 * k + 16))
                        == end - start && out@[k]@ == bytes@.subrange(start as int, end as int));
                }
            }
        }
    }
    if cursor != n {
        proof {
            lemma_tail_reject(bytes@, w, h, d, vol as int, cursor as int, n as int);
        }
        return Err(ReinterpretError::Truncated);
    }
    proof {
        assert forall|sizes: USize3, bs: Seq<Seq<u8>>|
            save_ok(sizes, bs) && bytes@ == #[trigger] save_file_spec(sizes, bs) implies read_good(
            Ok::<(USize3, Vec<Vec<u8>>), ReinterpretError>((sizes_out, out)),
            sizes,
            bs,
        ) by {
            lemma_save_parts(sizes, bs);
            assert(bytes@.subrange(48, 56) == save_file_spec(sizes, bs).subrange(48, 56));
            assert(bytes@.subrange(56, 64) == save_file_spec(sizes, bs).subrange(56, 64));
            assert(bytes@.subrange(64, 72) == save_file_spec(sizes, bs).subrange(64, 72));
            assert(w == sizes.x && h == sizes.y && d == sizes.z);
            assert(vol == bs.len());
            assert(sizes_out == sizes);
            assert(out@.len() == bs.len());
            assert forall|k: int| 0 <= k < bs.len() implies out@[k]@ == bs[k] by {
                assert(parsed_entry_ok(bytes@, out@[k]@, k));
                let (s0, e0): (int, int) = choose|s: int, e: int|
                    0 <= s <= e <= bytes@.len() && le_val(
                        bytes@.subrange(72 + 16 * k, 72 + 16 * k + 8),
                    ) == s && le_val(bytes@.subrange(72 + 16 * k + 8, 72 + 16 * k + 16)) == e - s
                        && out@[k]@ == #[trigger] bytes@.subrange(s, e);
            }
            assert(out@.map_values(|b: Vec<u8>| b@) =~= bs);
        }
    }
    Ok((sizes_out, out))
}

/// In a genuine file, the strict sequential cursor of the reader equals
/// the offset written into entry `j`; entry `j`'s end stays within the
/// file.
proof fn lemma_cursor_matches(
    bytes: Seq<u8>,
    sizes: USize3,
    bs: Seq<Seq<u8>>,
    j: int,
    cursor: int,
)
    requires
        save_ok(sizes, bs),
        bytes == save_file_spec(sizes, bs),
        0 <= j <= bs.len(),
        cursor == if j == 0 {
            72 + 16 * bs.len() as int
        } else {
            le_val(bytes.subrange(72 + 16 * (j - 1), 72 + 16 * (j - 1) + 8)) + le_val(
                bytes.subrange(72 + 16 * (j - 1) + 8, 72 + 16 * (j - 1) + 16),
            )
        },
    ensures
        cursor == 72 + 16 * bs.len() + sum_lens(bs.take(j)),
        j < bs.len() ==> le_val(bytes.subrange(72 + 16 * j, 72 + 16 * j + 8)) == cursor && cursor
            + le_val(bytes.subrange(72 + 16 * j + 8, 72 + 16 * j + 16)) <= bytes.len(),
        j == bs.len() ==> cursor == bytes.len(),
{
    lemma_save_parts(sizes, bs);
    let b = save_file_spec(sizes, bs);
    let base = 72 + 16 * bs.len() as int;
    if j == 0 {
        assert(sum_lens(bs.take(0)) == 0);
    } else {
        lemma_sum_lens_take_unfold(bs, j - 1);
        assert(le_val(b.subrange(72 + 16 * (j - 1), 72 + 16 * (j - 1) + 8)) == base + sum_lens(
            bs.take(j - 1),
        ));
        assert(le_val(b.subrange(72 + 16 * (j - 1) + 8, 72 + 16 * (j - 1) + 16)) == bs[j
            - 1].len());
    }
    if j == bs.len() {
        assert(bs.take(j) =~= bs);
    } else {
        lemma_blobs_concat_index(bs, j);
        assert(le_val(b.subrange(72 + 16 * j, 72 + 16 * j + 8)) == base + sum_lens(bs.take(j)));
        assert(le_val(b.subrange(72 + 16 * j + 8, 72 + 16 * j + 16)) == bs[j].len());
    }
}

} // verus!
