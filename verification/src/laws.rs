//! The codec's global laws, stated and proved over the specification
//! functions the executable contracts use.

use vstd::prelude::*;
use crate::EntryModel;
use crate::encode::{
    adof_bytes, adof_part, encode_spec, header_part, ids_bytes, junk_part, names_bytes, nmof_part,
    offs_bytes, pack_blobs, pack_bytes, pack_part, tnid_part, tnnm_part,
};
use crate::hash::crc32_of;
use crate::layout::{
    first_match, fits, is_fresh, junk_pad, lemma_first_match_range,
    lemma_names_len_to_bounds, lemma_pack_cum_le_sum, names_len, names_len_to, pack_cum,
    pack_size, pack_start, pair_of, size_bound, string_start, sum_pad16, total_size,
};

verus! {

/// Two entries whose payload checksums agree resolve to the same first
/// occurrence.
proof fn lemma_first_match_eq(files: Seq<EntryModel>, i: int, j: int)
    requires
        0 <= i < files.len(),
        0 <= j < files.len(),
        crc32_of(files[i].data) == crc32_of(files[j].data),
    ensures
        first_match(files, i, 0) == first_match(files, j, 0),
{
    lemma_first_match_range(files, i, 0);
    lemma_first_match_range(files, j, 0);
    let fi = first_match(files, i, 0);
    let fj = first_match(files, j, 0);
    if fi < fj {
        if fi < i {
            assert(crc32_of(files[fi].data) == crc32_of(files[j].data));
            assert(false);
        } else {
            assert(fi == i);
            assert(i < fj <= j);
            assert(crc32_of(files[i].data) != crc32_of(files[j].data));
            assert(false);
        }
    } else if fj < fi {
        if fj < j {
            assert(crc32_of(files[fj].data) == crc32_of(files[i].data));
            assert(false);
        } else {
            assert(fj == j);
            assert(j < fi <= i);
            assert(crc32_of(files[j].data) != crc32_of(files[i].data));
            assert(false);
        }
    }
}

/// Dedup law, first half: any two entries with byte-identical payloads are
/// encoded with identical ADOF (offset, size) pairs.
pub proof fn lemma_dedup_pairs(files: Seq<EntryModel>, i: int, j: int)
    requires
        0 <= i < files.len(),
        0 <= j < files.len(),
        files[i].data == files[j].data,
    ensures
        pair_of(files, i) == pair_of(files, j),
{
    lemma_first_match_eq(files, i, j);
}

/// Dedup law, second half: the pack payload holds at most one physical copy
/// of any byte content, because no two of the entries it writes (the fresh
/// ones) carry identical payloads.
pub proof fn lemma_pack_single_copy(files: Seq<EntryModel>, i: int, j: int)
    requires
        0 <= i < j < files.len(),
        is_fresh(files, i),
        is_fresh(files, j),
    ensures
        files[i].data != files[j].data,
{
    if files[i].data == files[j].data {
        assert(crc32_of(files[i].data) == crc32_of(files[j].data));
        assert(false);
    }
}

/// When no two entries share a payload checksum, deduplication reserves
/// nothing, and the encoded length reaches the un-deduplicated bound.
pub proof fn lemma_size_bound_exact(files: Seq<EntryModel>)
    requires
        forall|i: int, j: int|
            0 <= i < j < files.len() ==> crc32_of(files[i].data) != crc32_of(files[j].data),
    ensures
        total_size(files) == size_bound(files),
{
    lemma_all_fresh_cum(files, files.len() as int);
}

proof fn lemma_all_fresh_cum(files: Seq<EntryModel>, i: int)
    requires
        0 <= i <= files.len(),
        forall|x: int, y: int|
            0 <= x < y < files.len() ==> crc32_of(files[x].data) != crc32_of(files[y].data),
    ensures
        pack_cum(files, i) == sum_pad16(files, i),
    decreases i,
{
    if i > 0 {
        lemma_all_fresh_cum(files, i - 1);
        assert(is_fresh(files, i - 1));
    }
}

pub proof fn lemma_ids_bytes_len(files: Seq<EntryModel>, i: int)
    requires
        0 <= i,
    ensures
        ids_bytes(files, i).len() == 4 * i,
        offs_bytes(files, i).len() == 4 * i,
        adof_bytes(files, i).len() == 8 * i,
        names_bytes(files, i).len() == names_len_to(files, i),
        pack_blobs(files, i).len() == pack_cum(files, i),
    decreases i,
{
    if i > 0 {
        lemma_ids_bytes_len(files, i - 1);
        crate::bytes::lemma_pad16(files[i - 1].data.len() as int);
    }
}

/// The encoded buffer's length is exactly the total the layout computes.
pub proof fn lemma_encoded_len(files: Seq<EntryModel>)
    requires
        fits(files),
    ensures
        encode_spec(files).len() == total_size(files),
{
    let n = files.len() as int;
    lemma_ids_bytes_len(files, n);
    crate::layout::lemma_fits_bounds(files);
    assert(header_part(files).len() == 24);
    assert(tnid_part(files).len() == 8 + 4 * n);
    assert(nmof_part(files).len() == 8 + 4 * n);
    assert(adof_part(files).len() == 8 + 8 * n);
    assert(tnnm_part(files).len() == 8 + names_len(files));
    assert(junk_part(files).len() == 8 + junk_pad(files));
    assert(pack_part(files).len() == 8 + pack_size(files));
}

/// Single-entry edge case: a one-entry container's encoding ends right after
/// its payload's last byte, with no trailing 16-byte alignment padding.
pub proof fn lemma_single_entry_no_padding(files: Seq<EntryModel>)
    requires
        fits(files),
        files.len() == 1,
    ensures
        encode_spec(files).len() == pack_start(files) + files[0].data.len(),
{
    lemma_encoded_len(files);
}

/// Multi-entry counterpart: with two or more entries the pack payload is a
/// sum of 16-byte-aligned blocks, so the trailing padding is always
/// included.
#[verifier::rlimit(60)]
pub proof fn lemma_multi_entry_padding(files: Seq<EntryModel>)
    requires
        fits(files),
        files.len() != 1,
    ensures
        encode_spec(files).len() == pack_start(files) + pack_cum(files, files.len() as int),
        pack_cum(files, files.len() as int) % 16 == 0,
        files.len() > 0 ==> pack_cum(files, files.len() as int) >= crate::bytes::pad16(
            files[0].data.len() as int,
        ),
{
    let n = files.len() as int;
    assert(encode_spec(files).len() == pack_start(files) + pack_cum(files, n)) by {
        lemma_encoded_len(files);
    }
    assert(pack_cum(files, n) % 16 == 0) by {
        lemma_pack_cum_le_sum(files, n);
    }
    if files.len() > 0 {
        assert(pack_cum(files, 1) == crate::bytes::pad16(files[0].data.len() as int)) by {
            assert(is_fresh(files, 0));
            assert(pack_cum(files, 0) == 0);
        }
        assert(pack_cum(files, 1) <= pack_cum(files, n)) by {
            crate::layout::lemma_pack_cum_mono(files, 1, n);
        }
    }
}

} // verus!
