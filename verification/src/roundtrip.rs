//! Round-trip laws: decoding what the encoder produced yields the original
//! container, and re-encoding then reproduces the buffer byte for byte.

use vstd::prelude::*;
use vstd::utf8::{encode_utf8_decode_utf8, encode_utf8_valid_utf8};
use crate::EntryModel;
use crate::bytes::{u32_at, u32_le, lemma_u32_le_at, pad16};
use crate::decode::{
    build_entries, decode_spec, entry_at, find_null, init_state, parse_pairs, parse_u32s, walk,
    SecState,
};
use crate::encode::{
    adof_bytes, adof_part, encode_spec, header_part, ids_bytes, junk_part, names_bytes,
    nmof_part, offs_bytes, pack_blobs, pack_bytes, pack_part, tnid_part, tnnm_part,
};
use crate::hash::crc32_of;
use crate::layout::{
    first_match, fits, is_fresh, junk_pad, lemma_first_match_range, lemma_fits_bounds,
    lemma_names_len_to_bounds,
    lemma_names_len_to_mono, lemma_pack_cum_le_sum, lemma_pack_cum_mono, name_bytes, name_off,
    names_len, names_len_to, pack_cum, pack_size, pack_start, pair_of, total_size,
};
use crate::laws::lemma_ids_bytes_len;

verus! {

/// No name carries an interior null byte, so the decoder's terminator scan
/// recovers each name exactly.
pub open spec fn names_terminated(m: Seq<EntryModel>) -> bool {
    forall|i: int, k: int|
        0 <= i < m.len() && 0 <= k < name_bytes(m[i]).len() ==> name_bytes(m[i])[k] != 0
}

/// Payload checksums identify payloads: entries whose checksums agree hold
/// the same bytes.
pub open spec fn no_checksum_collision(m: Seq<EntryModel>) -> bool {
    forall|i: int, j: int|
        0 <= i < m.len() && 0 <= j < m.len() && crc32_of(m[i].data) == crc32_of(m[j].data)
            ==> m[i].data == m[j].data
}

/// A four-byte little-endian field reads back as the value written.
proof fn lemma_u32_field(b: Seq<u8>, p: int, x: u32)
    requires
        0 <= p,
        p + 4 <= b.len(),
        b.subrange(p, p + 4) == u32_le(x),
    ensures
        u32_at(b, p) == x,
{
    lemma_u32_le_at(x);
    assert(b[p] == u32_le(x)[0] && b[p + 1] == u32_le(x)[1] && b[p + 2] == u32_le(x)[2] && b[p
        + 3] == u32_le(x)[3]) by {
        assert(b.subrange(p, p + 4)[0] == b[p]);
        assert(b.subrange(p, p + 4)[1] == b[p + 1]);
        assert(b.subrange(p, p + 4)[2] == b[p + 2]);
        assert(b.subrange(p, p + 4)[3] == b[p + 3]);
    }
}

/// The id table holds entry `t`'s id in its `t`-th field.
proof fn lemma_ids_extract(m: Seq<EntryModel>, i: int, t: int)
    requires
        0 <= t < i,
    ensures
        ids_bytes(m, i).subrange(4 * t, 4 * t + 4) == u32_le(m[t].id),
        offs_bytes(m, i).subrange(4 * t, 4 * t + 4) == u32_le(name_off(m, t) as u32),
        adof_bytes(m, i).subrange(8 * t, 8 * t + 4) == u32_le(pair_of(m, t).0),
        adof_bytes(m, i).subrange(8 * t + 4, 8 * t + 8) == u32_le(pair_of(m, t).1),
    decreases i,
{
    lemma_ids_bytes_len(m, i);
    lemma_ids_bytes_len(m, i - 1);
    if t == i - 1 {
        assert(ids_bytes(m, i).subrange(4 * t, 4 * t + 4) =~= u32_le(m[t].id));
        assert(offs_bytes(m, i).subrange(4 * t, 4 * t + 4) =~= u32_le(name_off(m, t) as u32));
        assert(adof_bytes(m, i).subrange(8 * t, 8 * t + 4) =~= u32_le(pair_of(m, t).0));
        assert(adof_bytes(m, i).subrange(8 * t + 4, 8 * t + 8) =~= u32_le(pair_of(m, t).1));
    } else {
        lemma_ids_extract(m, i - 1, t);
        assert(ids_bytes(m, i).subrange(4 * t, 4 * t + 4) =~= ids_bytes(m, i - 1).subrange(
            4 * t,
            4 * t + 4,
        ));
        assert(offs_bytes(m, i).subrange(4 * t, 4 * t + 4) =~= offs_bytes(m, i - 1).subrange(
            4 * t,
            4 * t + 4,
        ));
        assert(adof_bytes(m, i).subrange(8 * t, 8 * t + 4) =~= adof_bytes(m, i - 1).subrange(
            8 * t,
            8 * t + 4,
        ));
        assert(adof_bytes(m, i).subrange(8 * t + 4, 8 * t + 8) =~= adof_bytes(m, i - 1).subrange(
            8 * t + 4,
            8 * t + 8,
        ));
    }
}

/// The string section holds entry `t`'s name, null-terminated, at its
/// computed relative offset.
proof fn lemma_names_extract(m: Seq<EntryModel>, i: int, t: int)
    requires
        0 <= t < i,
    ensures
        names_bytes(m, i).subrange(names_len_to(m, t), names_len_to(m, t + 1)) == name_bytes(
            m[t],
        ) + seq![0u8],
    decreases i,
{
    lemma_ids_bytes_len(m, i);
    lemma_ids_bytes_len(m, i - 1);
    lemma_names_len_to_bounds(m, t);
    lemma_names_len_to_mono(m, t + 1, i);
    if t == i - 1 {
        assert(names_bytes(m, i).subrange(names_len_to(m, t), names_len_to(m, t + 1))
            =~= name_bytes(m[t]) + seq![0u8]);
    } else {
        lemma_names_extract(m, i - 1, t);
        lemma_names_len_to_mono(m, t + 1, i - 1);
        assert(names_bytes(m, i).subrange(names_len_to(m, t), names_len_to(m, t + 1))
            =~= names_bytes(m, i - 1).subrange(names_len_to(m, t), names_len_to(m, t + 1)));
    }
}

/// The pack payload holds each fresh entry's bytes at its cumulative padded
/// offset.
proof fn lemma_pack_extract(m: Seq<EntryModel>, i: int, f: int)
    requires
        0 <= f < i,
        is_fresh(m, f),
    ensures
        pack_blobs(m, i).subrange(
            pack_cum(m, f),
            pack_cum(m, f) + m[f].data.len(),
        ) == m[f].data,
    decreases i,
{
    lemma_ids_bytes_len(m, i);
    lemma_ids_bytes_len(m, i - 1);
    lemma_pack_cum_le_sum(m, f);
    crate::bytes::lemma_pad16(m[i - 1].data.len() as int);
    if f == i - 1 {
        assert(pack_blobs(m, i).subrange(pack_cum(m, f), pack_cum(m, f) + m[f].data.len())
            =~= m[f].data);
    } else {
        lemma_pack_extract(m, i - 1, f);
        lemma_pack_cum_mono(m, f + 1, i - 1);
        crate::bytes::lemma_pad16(m[f].data.len() as int);
        assert(pack_blobs(m, i).subrange(pack_cum(m, f), pack_cum(m, f) + m[f].data.len())
            =~= pack_blobs(m, i - 1).subrange(pack_cum(m, f), pack_cum(m, f) + m[f].data.len()));
    }
}

/// A scan that runs over non-null bytes stops exactly at the terminator.
proof fn lemma_find_null_exact(b: Seq<u8>, j: int, z: int)
    requires
        0 <= j <= z < b.len(),
        forall|k: int| j <= k < z ==> b[k] != 0,
        b[z] == 0,
    ensures
        find_null(b, j) == Some(z),
    decreases z - j,
{
    if j < z {
        lemma_find_null_exact(b, j + 1, z);
    }
}

/// Where each section of the encoding begins and ends.
#[verifier::rlimit(100)]
proof fn lemma_part_offsets(m: Seq<EntryModel>)
    requires
        fits(m),
    ensures
        encode_spec(m).len() == total_size(m),
        encode_spec(m).subrange(0, 24) == header_part(m),
        encode_spec(m).subrange(24, 32 + 4 * m.len() as int) == tnid_part(m),
        encode_spec(m).subrange(32 + 4 * m.len() as int, 40 + 8 * m.len() as int) == nmof_part(m),
        encode_spec(m).subrange(40 + 8 * m.len() as int, 48 + 16 * m.len() as int) == adof_part(m),
        encode_spec(m).subrange(48 + 16 * m.len() as int, 56 + 16 * m.len() as int + names_len(m))
            == tnnm_part(m),
        encode_spec(m).subrange(
            56 + 16 * m.len() as int + names_len(m),
            64 + 16 * m.len() as int + names_len(m) + junk_pad(m),
        ) == junk_part(m),
        encode_spec(m).subrange(
            64 + 16 * m.len() as int + names_len(m) + junk_pad(m),
            total_size(m) as int,
        ) == pack_part(m),
{
    let n = m.len() as int;
    crate::laws::lemma_encoded_len(m);
    lemma_ids_bytes_len(m, n);
    lemma_fits_bounds(m);
    assert(header_part(m).len() == 24);
    assert(tnid_part(m).len() == 8 + 4 * n);
    assert(nmof_part(m).len() == 8 + 4 * n);
    assert(adof_part(m).len() == 8 + 8 * n);
    assert(tnnm_part(m).len() == 8 + names_len(m));
    assert(junk_part(m).len() == 8 + junk_pad(m));
    assert(pack_part(m).len() == 8 + pack_size(m));
    assert(encode_spec(m).subrange(0, 24) =~= header_part(m));
    assert(encode_spec(m).subrange(24, 32 + 4 * n) =~= tnid_part(m));
    assert(encode_spec(m).subrange(32 + 4 * n, 40 + 8 * n) =~= nmof_part(m));
    assert(encode_spec(m).subrange(40 + 8 * n, 48 + 16 * n) =~= adof_part(m));
    assert(encode_spec(m).subrange(48 + 16 * n, 56 + 16 * n + names_len(m)) =~= tnnm_part(m));
    assert(encode_spec(m).subrange(
        56 + 16 * n + names_len(m),
        64 + 16 * n + names_len(m) + junk_pad(m),
    ) =~= junk_part(m));
    assert(encode_spec(m).subrange(64 + 16 * n + names_len(m) + junk_pad(m), total_size(m) as int)
        =~= pack_part(m));
}

proof fn lemma_sub_sub(e: Seq<u8>, a: int, b: int, x: int, y: int)
    requires
        0 <= a <= b <= e.len(),
        0 <= x <= y <= b - a,
    ensures
        e.subrange(a + x, a + y) == e.subrange(a, b).subrange(x, y),
{
    assert(e.subrange(a + x, a + y) =~= e.subrange(a, b).subrange(x, y));
}

/// The id table the encoder wrote, as values.
pub open spec fn ids_of(m: Seq<EntryModel>) -> Seq<u32> {
    Seq::new(m.len(), |t: int| m[t].id)
}

/// The name-offset table the encoder wrote, as values.
pub open spec fn noffs_of(m: Seq<EntryModel>) -> Seq<u32> {
    Seq::new(m.len(), |t: int| (name_off(m, t) as u32))
}

/// The audio-offset table the encoder wrote, as values.
pub open spec fn pairs_of(m: Seq<EntryModel>) -> Seq<(u32, u32)> {
    Seq::new(m.len(), |t: int| pair_of(m, t))
}

/// The header fields of the encoding read back as written.
#[verifier::rlimit(100)]
proof fn lemma_header_fields(m: Seq<EntryModel>)
    requires
        fits(m),
    ensures
        encode_spec(m).len() == total_size(m),
        encode_spec(m).len() >= 72,
        encode_spec(m).subrange(0, 4) == crate::bytes::nus3_tag(),
        u32_at(encode_spec(m), 4) as int == total_size(m) - 8,
        encode_spec(m).subrange(8, 16) == crate::bytes::audiindx_tag(),
        u32_at(encode_spec(m), 16) == 4,
        u32_at(encode_spec(m), 20) as int == m.len() as int,
{
    let e = encode_spec(m);
    let n = m.len() as int;
    lemma_part_offsets(m);
    lemma_fits_bounds(m);
    let h = header_part(m);
    assert(h.len() == 24);
    lemma_sub_sub(e, 0, 24, 0, 4);
    assert(h.subrange(0, 4) =~= crate::bytes::nus3_tag());
    lemma_sub_sub(e, 0, 24, 4, 8);
    assert(h.subrange(4, 8) =~= u32_le((total_size(m) - 8) as u32));
    lemma_u32_field(e, 4, (total_size(m) - 8) as u32);
    lemma_sub_sub(e, 0, 24, 8, 16);
    assert(h.subrange(8, 16) =~= crate::bytes::audiindx_tag());
    lemma_sub_sub(e, 0, 24, 16, 20);
    assert(h.subrange(16, 20) =~= u32_le(4u32));
    lemma_u32_field(e, 16, 4u32);
    lemma_sub_sub(e, 0, 24, 20, 24);
    assert(h.subrange(20, 24) =~= u32_le(n as u32));
    lemma_u32_field(e, 20, n as u32);
}

/// One tag sequence per section, and no two of them equal.
proof fn lemma_tags_distinct()
    ensures
        crate::bytes::tnid_tag() != crate::bytes::pack_tag(),
        crate::bytes::nmof_tag() != crate::bytes::pack_tag(),
        crate::bytes::adof_tag() != crate::bytes::pack_tag(),
        crate::bytes::tnnm_tag() != crate::bytes::pack_tag(),
        crate::bytes::junk_tag() != crate::bytes::pack_tag(),
        crate::bytes::tnid_tag() != crate::bytes::nmof_tag(),
        crate::bytes::tnid_tag() != crate::bytes::adof_tag(),
        crate::bytes::tnid_tag() != crate::bytes::tnnm_tag(),
        crate::bytes::tnid_tag() != crate::bytes::junk_tag(),
        crate::bytes::nmof_tag() != crate::bytes::adof_tag(),
        crate::bytes::nmof_tag() != crate::bytes::tnnm_tag(),
        crate::bytes::nmof_tag() != crate::bytes::junk_tag(),
        crate::bytes::adof_tag() != crate::bytes::tnnm_tag(),
        crate::bytes::adof_tag() != crate::bytes::junk_tag(),
        crate::bytes::tnnm_tag() != crate::bytes::junk_tag(),
{
    assert(crate::bytes::tnid_tag()[0] == 0x54u8);
    assert(crate::bytes::nmof_tag()[0] == 0x4eu8);
    assert(crate::bytes::adof_tag()[0] == 0x41u8);
    assert(crate::bytes::tnnm_tag()[2] == 0x4eu8);
    assert(crate::bytes::junk_tag()[0] == 0x4au8);
    assert(crate::bytes::pack_tag()[0] == 0x50u8);
    assert(crate::bytes::tnid_tag()[2] == 0x49u8);
    assert(crate::bytes::adof_tag()[1] == 0x44u8);
    assert(crate::bytes::tnnm_tag()[0] == 0x54u8);
    assert(crate::bytes::nmof_tag()[1] == 0x4du8);
    assert(crate::bytes::junk_tag()[1] == 0x55u8);
    assert(crate::bytes::tnnm_tag()[1] == 0x4eu8);
    assert(crate::bytes::tnid_tag()[1] == 0x4eu8);
    assert(crate::bytes::adof_tag()[2] == 0x4fu8);
    assert(crate::bytes::nmof_tag()[2] == 0x4fu8);
    assert(crate::bytes::nmof_tag()[3] == 0x46u8);
    assert(crate::bytes::tnnm_tag()[3] == 0x4du8);
}

/// Consuming the TNID section stores the id table.
#[verifier::rlimit(100)]
proof fn lemma_walk_step_tnid(m: Seq<EntryModel>, st: SecState)
    requires
        fits(m),
    ensures
        walk(encode_spec(m), 24, m.len() as int, st) == walk(
            encode_spec(m),
            32 + 4 * m.len() as int,
            m.len() as int,
            SecState {
                ids: Some(ids_of(m)),
                name_offs: st.name_offs,
                pairs: st.pairs,
                saw_tnnm: st.saw_tnnm,
            },
        ),
{
    let e = encode_spec(m);
    let n = m.len() as int;
    let o2 = 32 + 4 * n;
    lemma_part_offsets(m);
    lemma_fits_bounds(m);
    lemma_ids_bytes_len(m, n);
    lemma_tags_distinct();
    assert(e.subrange(24, 28) == crate::bytes::tnid_tag()) by {
        lemma_sub_sub(e, 24, o2, 0, 4);
        assert(tnid_part(m).subrange(0, 4) =~= crate::bytes::tnid_tag());
    }
    assert(u32_at(e, 28) as int == 4 * n) by {
        lemma_sub_sub(e, 24, o2, 4, 8);
        assert(tnid_part(m).subrange(4, 8) =~= u32_le((4 * n) as u32));
        lemma_u32_field(e, 28, (4 * n) as u32);
    }
    assert(parse_u32s(e, 32, n) =~= ids_of(m)) by {
        assert forall|t: int| 0 <= t < n implies u32_at(e, 32 + 4 * t) == m[t].id by {
            lemma_sub_sub(e, 24, o2, 8 + 4 * t, 8 + 4 * t + 4);
            lemma_ids_extract(m, n, t);
            assert(tnid_part(m).subrange(8 + 4 * t, 8 + 4 * t + 4) =~= ids_bytes(m, n).subrange(
                4 * t,
                4 * t + 4,
            ));
            lemma_u32_field(e, 32 + 4 * t, m[t].id);
        }
    }
}

#[verifier::rlimit(100)]
proof fn lemma_walk_step_nmof(m: Seq<EntryModel>, st: SecState)
    requires
        fits(m),
    ensures
        walk(encode_spec(m), 32 + 4 * m.len() as int, m.len() as int, st) == walk(
            encode_spec(m),
            40 + 8 * m.len() as int,
            m.len() as int,
            SecState {
                ids: st.ids,
                name_offs: Some(noffs_of(m)),
                pairs: st.pairs,
                saw_tnnm: st.saw_tnnm,
            },
        ),
{
    let e = encode_spec(m);
    let n = m.len() as int;
    let o2 = 32 + 4 * n;
    let o3 = 40 + 8 * n;
    lemma_part_offsets(m);
    lemma_fits_bounds(m);
    lemma_ids_bytes_len(m, n);
    lemma_tags_distinct();
    assert(e.subrange(o2, o2 + 4) == crate::bytes::nmof_tag()) by {
        lemma_sub_sub(e, o2, o3, 0, 4);
        assert(nmof_part(m).subrange(0, 4) =~= crate::bytes::nmof_tag());
    }
    assert(u32_at(e, o2 + 4) as int == 4 * n) by {
        lemma_sub_sub(e, o2, o3, 4, 8);
        assert(nmof_part(m).subrange(4, 8) =~= u32_le((4 * n) as u32));
        lemma_u32_field(e, o2 + 4, (4 * n) as u32);
    }
    assert(parse_u32s(e, o2 + 8, n) =~= noffs_of(m)) by {
        assert forall|t: int| 0 <= t < n implies u32_at(e, o2 + 8 + 4 * t) == (name_off(
            m,
            t,
        ) as u32) by {
            lemma_sub_sub(e, o2, o3, 8 + 4 * t, 8 + 4 * t + 4);
            lemma_ids_extract(m, n, t);
            assert(nmof_part(m).subrange(8 + 4 * t, 8 + 4 * t + 4) =~= offs_bytes(m, n).subrange(
                4 * t,
                4 * t + 4,
            ));
            lemma_u32_field(e, o2 + 8 + 4 * t, (name_off(m, t) as u32));
        }
    }
}

#[verifier::rlimit(100)]
proof fn lemma_walk_step_adof(m: Seq<EntryModel>, st: SecState)
    requires
        fits(m),
    ensures
        walk(encode_spec(m), 40 + 8 * m.len() as int, m.len() as int, st) == walk(
            encode_spec(m),
            48 + 16 * m.len() as int,
            m.len() as int,
            SecState {
                ids: st.ids,
                name_offs: st.name_offs,
                pairs: Some(pairs_of(m)),
                saw_tnnm: st.saw_tnnm,
            },
        ),
{
    let e = encode_spec(m);
    let n = m.len() as int;
    let o3 = 40 + 8 * n;
    let o4 = 48 + 16 * n;
    lemma_part_offsets(m);
    lemma_fits_bounds(m);
    lemma_ids_bytes_len(m, n);
    lemma_tags_distinct();
    assert(e.subrange(o3, o3 + 4) == crate::bytes::adof_tag()) by {
        lemma_sub_sub(e, o3, o4, 0, 4);
        assert(adof_part(m).subrange(0, 4) =~= crate::bytes::adof_tag());
    }
    assert(u32_at(e, o3 + 4) as int == 8 * n) by {
        lemma_sub_sub(e, o3, o4, 4, 8);
        assert(adof_part(m).subrange(4, 8) =~= u32_le((8 * n) as u32));
        lemma_u32_field(e, o3 + 4, (8 * n) as u32);
    }
    assert(parse_pairs(e, o3 + 8, n) =~= pairs_of(m)) by {
        assert forall|t: int| 0 <= t < n implies u32_at(e, o3 + 8 + 8 * t) == pair_of(m, t).0
            && u32_at(e, o3 + 8 + 8 * t + 4) == pair_of(m, t).1 by {
            lemma_sub_sub(e, o3, o4, 8 + 8 * t, 8 + 8 * t + 4);
            lemma_sub_sub(e, o3, o4, 8 + 8 * t + 4, 8 + 8 * t + 8);
            lemma_ids_extract(m, n, t);
            assert(adof_part(m).subrange(8 + 8 * t, 8 + 8 * t + 4) =~= adof_bytes(m, n).subrange(
                8 * t,
                8 * t + 4,
            ));
            assert(adof_part(m).subrange(8 + 8 * t + 4, 8 + 8 * t + 8) =~= adof_bytes(
                m,
                n,
            ).subrange(8 * t + 4, 8 * t + 8));
            lemma_u32_field(e, o3 + 8 + 8 * t, pair_of(m, t).0);
            lemma_u32_field(e, o3 + 8 + 8 * t + 4, pair_of(m, t).1);
        }
    }
}

#[verifier::rlimit(100)]
proof fn lemma_walk_step_tail(m: Seq<EntryModel>, st: SecState)
    requires
        fits(m),
    ensures
        walk(encode_spec(m), 48 + 16 * m.len() as int, m.len() as int, st) == Some(
            SecState {
                ids: st.ids,
                name_offs: st.name_offs,
                pairs: st.pairs,
                saw_tnnm: true,
            },
        ),
{
    let e = encode_spec(m);
    let n = m.len() as int;
    let ln = names_len(m);
    let j = junk_pad(m);
    let o4 = 48 + 16 * n;
    let o5 = 56 + 16 * n + ln;
    let o6 = 64 + 16 * n + ln + j;
    lemma_part_offsets(m);
    lemma_fits_bounds(m);
    lemma_tags_distinct();
    assert(e.subrange(o4, o4 + 4) == crate::bytes::tnnm_tag()) by {
        lemma_sub_sub(e, o4, o5, 0, 4);
        assert(tnnm_part(m).subrange(0, 4) =~= crate::bytes::tnnm_tag());
    }
    assert(u32_at(e, o4 + 4) as int == ln) by {
        lemma_sub_sub(e, o4, o5, 4, 8);
        assert(tnnm_part(m).subrange(4, 8) =~= u32_le(ln as u32));
        lemma_u32_field(e, o4 + 4, ln as u32);
    }
    let st4 = SecState { ids: st.ids, name_offs: st.name_offs, pairs: st.pairs, saw_tnnm: true };
    assert(walk(e, o4, n, st) == walk(e, o5, n, st4));
    assert(e.subrange(o5, o5 + 4) == crate::bytes::junk_tag()) by {
        lemma_sub_sub(e, o5, o6, 0, 4);
        assert(junk_part(m).subrange(0, 4) =~= crate::bytes::junk_tag());
    }
    assert(u32_at(e, o5 + 4) as int == j) by {
        lemma_sub_sub(e, o5, o6, 4, 8);
        assert(junk_part(m).subrange(4, 8) =~= u32_le(j as u32));
        lemma_u32_field(e, o5 + 4, j as u32);
    }
    assert(walk(e, o5, n, st4) == walk(e, o6, n, st4));
    assert(e.subrange(o6, o6 + 4) == crate::bytes::pack_tag()) by {
        lemma_sub_sub(e, o6, total_size(m) as int, 0, 4);
        assert(pack_part(m).subrange(0, 4) =~= crate::bytes::pack_tag());
    }
    assert(u32_at(e, o6 + 4) as int == pack_size(m)) by {
        lemma_sub_sub(e, o6, total_size(m) as int, 4, 8);
        assert(pack_part(m).subrange(4, 8) =~= u32_le(pack_size(m) as u32));
        lemma_u32_field(e, o6 + 4, pack_size(m) as u32);
    }
    assert(walk(e, o6, n, st4) == Some(st4));
}

/// Walking the sections of an encoding collects exactly the tables the
/// encoder wrote, and consumes the PACK section last.
proof fn lemma_walk_encoding(m: Seq<EntryModel>)
    requires
        fits(m),
    ensures
        walk(encode_spec(m), 24, m.len() as int, init_state()) == Some(
            SecState {
                ids: Some(ids_of(m)),
                name_offs: Some(noffs_of(m)),
                pairs: Some(pairs_of(m)),
                saw_tnnm: true,
            },
        ),
{
    let st0 = init_state();
    lemma_walk_step_tnid(m, st0);
    let st1 = SecState {
        ids: Some(ids_of(m)),
        name_offs: st0.name_offs,
        pairs: st0.pairs,
        saw_tnnm: st0.saw_tnnm,
    };
    lemma_walk_step_nmof(m, st1);
    let st2 = SecState {
        ids: st1.ids,
        name_offs: Some(noffs_of(m)),
        pairs: st1.pairs,
        saw_tnnm: st1.saw_tnnm,
    };
    lemma_walk_step_adof(m, st2);
    let st3 = SecState {
        ids: st2.ids,
        name_offs: st2.name_offs,
        pairs: Some(pairs_of(m)),
        saw_tnnm: st2.saw_tnnm,
    };
    lemma_walk_step_tail(m, st3);
}

/// Entry `t`'s name region of the encoding: the name bytes, then the null
/// terminator the scan stops at.
#[verifier::rlimit(100)]
proof fn lemma_name_region(m: Seq<EntryModel>, t: int)
    requires
        fits(m),
        names_terminated(m),
        0 <= t < m.len(),
    ensures
        find_null(encode_spec(m), name_off(m, t)) == Some(
            name_off(m, t) + name_bytes(m[t]).len(),
        ),
        encode_spec(m).subrange(name_off(m, t), name_off(m, t) + name_bytes(m[t]).len())
            == name_bytes(m[t]),
{
    let e = encode_spec(m);
    let n = m.len() as int;
    let ln = names_len(m);
    let o4 = 48 + 16 * n;
    let o5 = 56 + 16 * n + ln;
    let noff = name_off(m, t);
    let nl = name_bytes(m[t]).len() as int;
    lemma_part_offsets(m);
    lemma_fits_bounds(m);
    lemma_ids_bytes_len(m, n);
    lemma_names_extract(m, n, t);
    lemma_names_len_to_bounds(m, t);
    lemma_names_len_to_mono(m, t + 1, n);
    assert(names_len_to(m, t + 1) == names_len_to(m, t) + nl + 1);
    assert(noff == o4 + 8 + names_len_to(m, t));
    assert(e.subrange(noff, noff + nl + 1) == name_bytes(m[t]) + seq![0u8]) by {
        lemma_sub_sub(e, o4, o5, 8 + names_len_to(m, t), 8 + names_len_to(m, t + 1));
        assert(tnnm_part(m).subrange(8 + names_len_to(m, t), 8 + names_len_to(m, t + 1))
            =~= names_bytes(m, n).subrange(names_len_to(m, t), names_len_to(m, t + 1)));
    }
    assert(e.subrange(noff, noff + nl) =~= name_bytes(m[t])) by {
        assert forall|k: int| 0 <= k < nl implies e.subrange(noff, noff + nl)[k] == name_bytes(
            m[t],
        )[k] by {
            assert(e.subrange(noff, noff + nl + 1)[k] == e[noff + k]);
            assert((name_bytes(m[t]) + seq![0u8])[k] == name_bytes(m[t])[k]);
        }
    }
    assert(e[noff + nl] == 0) by {
        assert(e.subrange(noff, noff + nl + 1)[nl] == e[noff + nl]);
        assert((name_bytes(m[t]) + seq![0u8])[nl] == 0u8);
    }
    assert forall|k: int| noff <= k < noff + nl implies e[k] != 0 by {
        assert(e.subrange(noff, noff + nl + 1)[k - noff] == e[k]);
        assert((name_bytes(m[t]) + seq![0u8])[k - noff] == name_bytes(m[t])[k - noff]);
        assert(name_bytes(m[t])[k - noff] != 0);
    }
    lemma_find_null_exact(e, noff, noff + nl);
}

/// A fresh entry's payload sits in the pack region at its cumulative padded
/// offset.
#[verifier::rlimit(100)]
proof fn lemma_data_region(m: Seq<EntryModel>, f: int)
    requires
        fits(m),
        0 <= f < m.len(),
        is_fresh(m, f),
    ensures
        encode_spec(m).subrange(
            pack_start(m) + pack_cum(m, f),
            pack_start(m) + pack_cum(m, f) + m[f].data.len(),
        ) == m[f].data,
{
    let e = encode_spec(m);
    let n = m.len() as int;
    let o6 = 64 + 16 * n + names_len(m) + junk_pad(m);
    lemma_part_offsets(m);
    lemma_fits_bounds(m);
    assert(pack_start(m) == o6 + 8);
    if n == 1 {
        assert(f == 0);
        assert(pack_cum(m, 0) == 0);
        assert(pack_bytes(m) == m[0].data);
        assert(e.subrange(o6 + 8, o6 + 8 + m[0].data.len()) =~= m[0].data) by {
            lemma_sub_sub(e, o6, total_size(m) as int, 8, 8 + m[0].data.len() as int);
            assert(pack_part(m).subrange(8, 8 + m[0].data.len() as int) =~= pack_bytes(m));
        }
    } else {
        lemma_pack_extract(m, n, f);
        lemma_pack_cum_le_sum(m, f);
        lemma_pack_cum_mono(m, f + 1, n);
        crate::bytes::lemma_pad16(m[f].data.len() as int);
        assert(pack_cum(m, f + 1) == pack_cum(m, f) + pad16(m[f].data.len() as int));
        lemma_sub_sub(
            e,
            o6,
            total_size(m) as int,
            8 + pack_cum(m, f),
            8 + pack_cum(m, f) + m[f].data.len() as int,
        );
        assert(pack_part(m).subrange(
            8 + pack_cum(m, f),
            8 + pack_cum(m, f) + m[f].data.len() as int,
        ) =~= pack_blobs(m, n).subrange(pack_cum(m, f), pack_cum(m, f) + m[f].data.len() as int));
    }
}

/// Row `t` of the tables decodes back to entry `t` itself.
#[verifier::rlimit(100)]
proof fn lemma_entry_roundtrip(m: Seq<EntryModel>, t: int)
    requires
        fits(m),
        names_terminated(m),
        no_checksum_collision(m),
        0 <= t < m.len(),
    ensures
        entry_at(
            encode_spec(m),
            m[t].id,
            (name_off(m, t) as u32),
            pair_of(m, t),
        ) == Some(m[t]),
{
    let e = encode_spec(m);
    let n = m.len() as int;
    lemma_part_offsets(m);
    lemma_fits_bounds(m);
    lemma_names_len_to_bounds(m, t);
    lemma_names_len_to_mono(m, t + 1, n);
    assert((name_off(m, t) as u32) as int == name_off(m, t));
    lemma_name_region(m, t);
    let nb = e.subrange(name_off(m, t), name_off(m, t) + name_bytes(m[t]).len());
    assert(nb == vstd::utf8::encode_utf8(m[t].name));
    encode_utf8_valid_utf8(m[t].name);
    encode_utf8_decode_utf8(m[t].name);
    let fm = first_match(m, t, 0);
    lemma_first_match_range(m, t, 0);
    assert(is_fresh(m, fm));
    assert(m[fm].data == m[t].data) by {
        if fm < t {
            assert(crc32_of(m[fm].data) == crc32_of(m[t].data));
        }
    }
    lemma_pack_cum_le_sum(m, fm);
    lemma_pack_cum_mono(m, fm + 1, n);
    crate::bytes::lemma_pad16(m[fm].data.len() as int);
    assert(pair_of(m, t).0 as int == pack_start(m) + pack_cum(m, fm));
    assert(pair_of(m, t).1 as int == m[fm].data.len());
    lemma_data_region(m, fm);
    assert(pair_of(m, t).0 + pair_of(m, t).1 <= e.len());
    assert(e.subrange(pair_of(m, t).0 as int, pair_of(m, t).0 + pair_of(m, t).1) == m[t].data);
}

/// The first `t` table rows rebuild the first `t` entries.
proof fn lemma_build_roundtrip(m: Seq<EntryModel>, t: int)
    requires
        fits(m),
        names_terminated(m),
        no_checksum_collision(m),
        0 <= t <= m.len(),
    ensures
        build_entries(encode_spec(m), ids_of(m), noffs_of(m), pairs_of(m), t) == Some(m.take(t)),
    decreases t,
{
    if t == 0 {
        assert(m.take(0) =~= Seq::<EntryModel>::empty());
    } else {
        lemma_build_roundtrip(m, t - 1);
        lemma_entry_roundtrip(m, t - 1);
        assert(m.take(t) =~= m.take(t - 1).push(m[t - 1]));
    }
}

/// A successful null scan saw only non-null bytes before the terminator.
proof fn lemma_find_null_props(b: Seq<u8>, j: int)
    requires
        find_null(b, j) is Some,
    ensures
        j <= find_null(b, j)->0 < b.len(),
        b[find_null(b, j)->0] == 0,
        forall|k: int| j <= k < find_null(b, j)->0 ==> b[k] != 0,
    decreases b.len() - j,
{
    if !(j < 0 || j >= b.len()) && b[j] != 0 {
        lemma_find_null_props(b, j + 1);
    }
}

/// Any entry a decode produces carries a null-free name: its name bytes are
/// exactly the scanned bytes, which stop before the terminator.
proof fn lemma_entry_name_terminated(b: Seq<u8>, id: u32, noff: u32, pair: (u32, u32))
    requires
        entry_at(b, id, noff, pair) is Some,
    ensures
        forall|k: int|
            0 <= k < name_bytes(entry_at(b, id, noff, pair)->0).len() ==> name_bytes(
                entry_at(b, id, noff, pair)->0,
            )[k] != 0,
{
    lemma_find_null_props(b, noff as int);
    let z = find_null(b, noff as int)->0;
    let nb = b.subrange(noff as int, z);
    vstd::utf8::decode_utf8_encode_utf8(nb);
    assert(name_bytes(entry_at(b, id, noff, pair)->0) == nb);
    assert forall|k: int| 0 <= k < nb.len() implies nb[k] != 0 by {
        assert(nb[k] == b[noff + k]);
    }
}

/// Every container a decode produces satisfies `names_terminated`: the name
/// hypothesis of the round-trip laws holds of decoded containers by itself.
pub proof fn lemma_decoded_names_terminated(b: Seq<u8>)
    requires
        decode_spec(b) is Some,
    ensures
        names_terminated(decode_spec(b)->0),
{
    let count = u32_at(b, 20) as int;
    let st = walk(b, 24, count, init_state())->0;
    lemma_build_names(b, st.ids->0, st.name_offs->0, st.pairs->0, count);
}

proof fn lemma_build_names(b: Seq<u8>, ids: Seq<u32>, noffs: Seq<u32>, pairs: Seq<(u32, u32)>, k: int)
    requires
        build_entries(b, ids, noffs, pairs, k) is Some,
    ensures
        names_terminated(build_entries(b, ids, noffs, pairs, k)->0),
        build_entries(b, ids, noffs, pairs, k)->0.len() == if k <= 0 {
            0
        } else {
            k
        },
    decreases k,
{
    if k > 0 {
        lemma_build_names(b, ids, noffs, pairs, k - 1);
        lemma_entry_name_terminated(b, ids[k - 1], noffs[k - 1], pairs[k - 1]);
        let s = build_entries(b, ids, noffs, pairs, k)->0;
        let prev = build_entries(b, ids, noffs, pairs, k - 1)->0;
        assert forall|i: int, t: int|
            0 <= i < s.len() && 0 <= t < name_bytes(s[i]).len() implies name_bytes(s[i])[t]
            != 0 by {
            if i < prev.len() {
                assert(s[i] == prev[i]);
            } else {
                assert(s[i] == entry_at(b, ids[k - 1], noffs[k - 1], pairs[k - 1])->0);
            }
        }
    }
}

/// Idempotence law: decoding what the encoder produced yields the original
/// container back, entry for entry, as long as no two distinct payloads
/// collide on their checksum.
pub proof fn lemma_decode_encode(m: Seq<EntryModel>)
    requires
        fits(m),
        names_terminated(m),
    ensures
        no_checksum_collision(m) ==> decode_spec(encode_spec(m)) == Some(m),
{
    if no_checksum_collision(m) {
        let e = encode_spec(m);
        let n = m.len() as int;
        lemma_header_fields(m);
        lemma_walk_encoding(m);
        lemma_build_roundtrip(m, n);
        assert(8 + u32_at(e, 4) <= e.len());
        assert(u32_at(e, 20) as int == n);
        assert(m.take(n) =~= m);
    }
}

/// Round-trip law: a buffer this encoder produced decodes successfully, and
/// re-encoding the decoded container reproduces the buffer byte for byte.
/// The name hypothesis costs nothing for the containers the law speaks of:
/// by `lemma_decoded_names_terminated` every decoded container satisfies it.
/// The checksum hypothesis is essential: the format aliases payloads by
/// CRC-32 alone, so two distinct payloads with one checksum truly collapse.
pub proof fn lemma_encode_roundtrip(m: Seq<EntryModel>, b: Seq<u8>)
    requires
        fits(m),
        names_terminated(m),
        b == encode_spec(m),
    ensures
        no_checksum_collision(m) ==> decode_spec(b) is Some && encode_spec(decode_spec(b)->0)
            == b,
{
    lemma_decode_encode(m);
}

} // verus!
