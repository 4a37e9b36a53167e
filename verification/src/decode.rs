//! The chunk decoder: walks the tagged sections of a buffer and rebuilds the
//! entry list, or reports the buffer malformed.

use vstd::prelude::*;
use vstd::slice::{slice_subrange, slice_to_vec};
use vstd::utf8::{decode_utf8, encode_utf8_decode_utf8, valid_utf8};
use crate::AudioFile;
use crate::EntryModel;
use crate::Nus3audioFile;
use crate::bytes::{
    adof_tag, audiindx_tag, junk_tag, nmof_tag, nus3_tag, pack_tag, read_u32_at, tnid_tag,
    tnnm_tag, u32_at,
};
use crate::hash::string_from_bytes;

verus! {

/// The only decode-time failure: a missing tag, a bad magic, a size or an
/// offset that leaves the buffer, or a malformed name.
#[derive(Debug, PartialEq, Eq, Structural, Clone, Copy)]
pub enum Nus3audioError {
    MalformedContainer,
}

/// What the section walk has collected so far.
pub struct SecState {
    pub ids: Option<Seq<u32>>,
    pub name_offs: Option<Seq<u32>>,
    pub pairs: Option<Seq<(u32, u32)>>,
    pub saw_tnnm: bool,
}

pub open spec fn init_state() -> SecState {
    SecState { ids: None, name_offs: None, pairs: None, saw_tnnm: false }
}

/// `k` little-endian u32 values starting at `pos`.
pub open spec fn parse_u32s(b: Seq<u8>, pos: int, k: int) -> Seq<u32> {
    Seq::new(k as nat, |t: int| u32_at(b, pos + 4 * t))
}

/// `k` little-endian (u32, u32) pairs starting at `pos`.
pub open spec fn parse_pairs(b: Seq<u8>, pos: int, k: int) -> Seq<(u32, u32)> {
    Seq::new(k as nat, |t: int| (u32_at(b, pos + 8 * t), u32_at(b, pos + 8 * t + 4)))
}

/// Walk the tagged sections from `pos` until a PACK section is consumed.
/// Every id, name-offset and audio-offset table must carry exactly `count`
/// entries; an unknown tag, a truncated section or a missing PACK is
/// malformed.
pub open spec fn walk(b: Seq<u8>, pos: int, count: int, st: SecState) -> Option<SecState>
    decreases b.len() - pos,
{
    if pos < 0 || pos + 8 > b.len() {
        None
    } else {
        let tag = b.subrange(pos, pos + 4);
        let size = u32_at(b, pos + 4) as int;
        if pos + 8 + size > b.len() {
            None
        } else if tag == pack_tag() {
            Some(st)
        } else {
            let next: Option<SecState> = if tag == tnid_tag() {
                if size == 4 * count {
                    Some(
                        SecState {
                            ids: Some(parse_u32s(b, pos + 8, count)),
                            name_offs: st.name_offs,
                            pairs: st.pairs,
                            saw_tnnm: st.saw_tnnm,
                        },
                    )
                } else {
                    None
                }
            } else if tag == nmof_tag() {
                if size == 4 * count {
                    Some(
                        SecState {
                            ids: st.ids,
                            name_offs: Some(parse_u32s(b, pos + 8, count)),
                            pairs: st.pairs,
                            saw_tnnm: st.saw_tnnm,
                        },
                    )
                } else {
                    None
                }
            } else if tag == adof_tag() {
                if size == 8 * count {
                    Some(
                        SecState {
                            ids: st.ids,
                            name_offs: st.name_offs,
                            pairs: Some(parse_pairs(b, pos + 8, count)),
                            saw_tnnm: st.saw_tnnm,
                        },
                    )
                } else {
                    None
                }
            } else if tag == tnnm_tag() {
                Some(
                    SecState {
                        ids: st.ids,
                        name_offs: st.name_offs,
                        pairs: st.pairs,
                        saw_tnnm: true,
                    },
                )
            } else if tag == junk_tag() {
                Some(st)
            } else {
                None
            };
            match next {
                None => None,
                Some(st2) => walk(b, pos + 8 + size, count, st2),
            }
        }
    }
}

/// The first null byte at or after `j`.
pub open spec fn find_null(b: Seq<u8>, j: int) -> Option<int>
    decreases b.len() - j,
{
    if j < 0 || j >= b.len() {
        None
    } else if b[j] == 0 {
        Some(j)
    } else {
        find_null(b, j + 1)
    }
}

/// The entry described by one row of the tables: its name runs from its
/// absolute name offset to the next null byte and must be valid UTF-8, and
/// its payload is the absolute (offset, size) slice of the whole buffer.
pub open spec fn entry_at(b: Seq<u8>, id: u32, noff: u32, pair: (u32, u32)) -> Option<EntryModel> {
    match find_null(b, noff as int) {
        None => None,
        Some(k) => {
            let nb = b.subrange(noff as int, k);
            if !valid_utf8(nb) {
                None
            } else if pair.0 + pair.1 > b.len() {
                None
            } else {
                Some(
                    EntryModel {
                        id,
                        name: decode_utf8(nb),
                        data: b.subrange(pair.0 as int, pair.0 + pair.1),
                    },
                )
            }
        },
    }
}

/// The first `k` entries, rebuilt from the three tables in positional order.
pub open spec fn build_entries(
    b: Seq<u8>,
    ids: Seq<u32>,
    noffs: Seq<u32>,
    pairs: Seq<(u32, u32)>,
    k: int,
) -> Option<Seq<EntryModel>>
    decreases k,
{
    if k <= 0 {
        Some(Seq::empty())
    } else {
        match build_entries(b, ids, noffs, pairs, k - 1) {
            None => None,
            Some(s) => match entry_at(b, ids[k - 1], noffs[k - 1], pairs[k - 1]) {
                None => None,
                Some(e) => Some(s.push(e)),
            },
        }
    }
}

/// The decoded entry list of a buffer, or `None` when the buffer is
/// malformed: wrong magic, a declared size past the buffer end, a table of
/// the wrong size, an unknown tag, a missing section, an out-of-bounds
/// offset, or a name that is not valid UTF-8.
pub open spec fn decode_spec(b: Seq<u8>) -> Option<Seq<EntryModel>> {
    if b.len() < 24 {
        None
    } else if b.subrange(0, 4) != nus3_tag() {
        None
    } else if 8 + u32_at(b, 4) > b.len() {
        None
    } else if b.subrange(8, 16) != audiindx_tag() {
        None
    } else if u32_at(b, 16) != 4 {
        None
    } else {
        let count = u32_at(b, 20) as int;
        match walk(b, 24, count, init_state()) {
            None => None,
            Some(st) => {
                if st.ids is Some && st.name_offs is Some && st.pairs is Some && st.saw_tnnm {
                    build_entries(b, st.ids->0, st.name_offs->0, st.pairs->0, count)
                } else {
                    None
                }
            },
        }
    }
}

/// True exactly when the four bytes at `pos` are the given tag.
fn tag4_eq(b: &[u8], pos: usize, t0: u8, t1: u8, t2: u8, t3: u8) -> (r: bool)
    requires
        pos + 4 <= b@.len(),
    ensures
        r == (b@.subrange(pos as int, pos as int + 4) == seq![t0, t1, t2, t3]),
{
    let r = b[pos] == t0 && b[pos + 1] == t1 && b[pos + 2] == t2 && b[pos + 3] == t3;
    proof {
        let s = b@.subrange(pos as int, pos as int + 4);
        assert(s[0] == b@[pos as int] && s[1] == b@[pos as int + 1] && s[2] == b@[pos as int + 2]
            && s[3] == b@[pos as int + 3]);
        if r {
            assert(s =~= seq![t0, t1, t2, t3]);
        }
    }
    r
}

/// Read a table of `count` u32 values at `pos`.
fn read_u32s(b: &[u8], pos: usize, count: u32) -> (r: Vec<u32>)
    requires
        pos + 4 * (count as int) <= b@.len() <= usize::MAX,
    ensures
        r@ == parse_u32s(b@, pos as int, count as int),
{
    let mut v: Vec<u32> = Vec::new();
    let mut t: usize = 0;
    while t < count as usize
        invariant
            pos + 4 * (count as int) <= b@.len() <= usize::MAX,
            t <= count as int,
            v@.len() == t,
            forall|x: int| 0 <= x < t ==> v@[x] == u32_at(b@, pos + 4 * x),
        decreases count as int - t,
    {
        v.push(read_u32_at(b, pos + 4 * t));
        t = t + 1;
    }
    proof {
        assert(v@ =~= parse_u32s(b@, pos as int, count as int));
    }
    v
}

/// Read a table of `count` (u32, u32) pairs at `pos`.
fn read_pairs(b: &[u8], pos: usize, count: u32) -> (r: Vec<(u32, u32)>)
    requires
        pos + 8 * (count as int) <= b@.len() <= usize::MAX,
    ensures
        r@ == parse_pairs(b@, pos as int, count as int),
{
    let mut v: Vec<(u32, u32)> = Vec::new();
    let mut t: usize = 0;
    while t < count as usize
        invariant
            pos + 8 * (count as int) <= b@.len() <= usize::MAX,
            t <= count as int,
            v@.len() == t,
            forall|x: int| 0 <= x < t ==> v@[x] == (u32_at(b@, pos + 8 * x), u32_at(
                b@,
                pos + 8 * x + 4,
            )),
        decreases count as int - t,
    {
        let a = read_u32_at(b, pos + 8 * t);
        let c = read_u32_at(b, pos + 8 * t + 4);
        v.push((a, c));
        t = t + 1;
    }
    proof {
        assert(v@ =~= parse_pairs(b@, pos as int, count as int));
    }
    v
}

impl Nus3audioFile {
    /// Decode a buffer into a container, or report it malformed, exactly as
    /// `decode_spec` states.
    #[verifier::rlimit(60)]
    pub fn decode(data: &[u8]) -> (r: Result<Nus3audioFile, Nus3audioError>)
        ensures
            r is Ok <==> decode_spec(data@) is Some,
            r is Ok ==> (r->Ok_0)@ == decode_spec(data@)->0,
            r is Err ==> r->Err_0 == Nus3audioError::MalformedContainer,
    {
        let ghost b = data@;
        let len = data.len();
        if len < 24 {
            return Err(Nus3audioError::MalformedContainer);
        }
        if !tag4_eq(data, 0, 0x4e, 0x55, 0x53, 0x33) {
            return Err(Nus3audioError::MalformedContainer);
        }
        let declared = read_u32_at(data, 4);
        if (declared as u64) + 8 > (len as u64) {
            return Err(Nus3audioError::MalformedContainer);
        }
        if !(tag4_eq(data, 8, 0x41, 0x55, 0x44, 0x49) && tag4_eq(data, 12, 0x49, 0x4e, 0x44, 0x58))
        {
            proof {
                if b.subrange(8, 16) == audiindx_tag() {
                    assert(b.subrange(8, 12)[0] == b.subrange(8, 16)[0]);
                    assert(b.subrange(8, 12)[1] == b.subrange(8, 16)[1]);
                    assert(b.subrange(8, 12)[2] == b.subrange(8, 16)[2]);
                    assert(b.subrange(8, 12)[3] == b.subrange(8, 16)[3]);
                    assert(b.subrange(12, 16)[0] == b.subrange(8, 16)[4]);
                    assert(b.subrange(12, 16)[1] == b.subrange(8, 16)[5]);
                    assert(b.subrange(12, 16)[2] == b.subrange(8, 16)[6]);
                    assert(b.subrange(12, 16)[3] == b.subrange(8, 16)[7]);
                    assert(b.subrange(8, 12) =~= seq![0x41u8, 0x55u8, 0x44u8, 0x49u8]);
                    assert(b.subrange(12, 16) =~= seq![0x49u8, 0x4eu8, 0x44u8, 0x58u8]);
                }
            }
            return Err(Nus3audioError::MalformedContainer);
        }
        proof {
            assert(b.subrange(8, 16) =~= b.subrange(8, 12) + b.subrange(12, 16));
            assert(b.subrange(8, 16) =~= audiindx_tag());
        }
        if read_u32_at(data, 16) != 4 {
            return Err(Nus3audioError::MalformedContainer);
        }
        let count = read_u32_at(data, 20);
        let ghost cnt = count as int;

        // Walk the tagged sections until PACK.
        let mut pos: usize = 24;
        let mut finished: bool = false;
        let mut ids_v: Option<Vec<u32>> = None;
        let mut noffs_v: Option<Vec<u32>> = None;
        let mut pairs_v: Option<Vec<(u32, u32)>> = None;
        let mut saw_tnnm: bool = false;
        while !finished
            invariant
                b == data@,
                len == b.len(),
                cnt == count as int,
                24 <= pos <= len,
                decode_spec(b) == match walk(b, 24, cnt, init_state()) {
                    None => None::<Seq<EntryModel>>,
                    Some(st) => {
                        if st.ids is Some && st.name_offs is Some && st.pairs is Some
                            && st.saw_tnnm {
                            build_entries(b, st.ids->0, st.name_offs->0, st.pairs->0, cnt)
                        } else {
                            None
                        }
                    },
                },
                walk(b, 24, cnt, init_state()) == (if finished {
                    Some(cur_state(&ids_v, &noffs_v, &pairs_v, saw_tnnm))
                } else {
                    walk(b, pos as int, cnt, cur_state(&ids_v, &noffs_v, &pairs_v, saw_tnnm))
                }),
            decreases (if finished { 0int } else { len - pos + 1 }),
        {
            if len - pos < 8 {
                return Err(Nus3audioError::MalformedContainer);
            }
            let size = read_u32_at(data, pos + 4);
            if (size as u64) > ((len - pos - 8) as u64) {
                return Err(Nus3audioError::MalformedContainer);
            }
            let body = pos + 8;
            if tag4_eq(data, pos, 0x50, 0x41, 0x43, 0x4b) {
                // PACK ends the walk.
                finished = true;
                pos = body + size as usize;
            } else if tag4_eq(data, pos, 0x54, 0x4e, 0x49, 0x44) {
                if (size as u64) != 4 * (count as u64) {
                    proof {
                        assert(walk(b, pos as int, cnt, cur_state(&ids_v, &noffs_v, &pairs_v,
                            saw_tnnm)) is None);
                    }
                    return Err(Nus3audioError::MalformedContainer);
                }
                ids_v = Some(read_u32s(data, body, count));
                pos = body + size as usize;
            } else if tag4_eq(data, pos, 0x4e, 0x4d, 0x4f, 0x46) {
                if (size as u64) != 4 * (count as u64) {
                    proof {
                        assert(walk(b, pos as int, cnt, cur_state(&ids_v, &noffs_v, &pairs_v,
                            saw_tnnm)) is None);
                    }
                    return Err(Nus3audioError::MalformedContainer);
                }
                noffs_v = Some(read_u32s(data, body, count));
                pos = body + size as usize;
            } else if tag4_eq(data, pos, 0x41, 0x44, 0x4f, 0x46) {
                if (size as u64) != 8 * (count as u64) {
                    proof {
                        assert(walk(b, pos as int, cnt, cur_state(&ids_v, &noffs_v, &pairs_v,
                            saw_tnnm)) is None);
                    }
                    return Err(Nus3audioError::MalformedContainer);
                }
                pairs_v = Some(read_pairs(data, body, count));
                pos = body + size as usize;
            } else if tag4_eq(data, pos, 0x54, 0x4e, 0x4e, 0x4d) {
                saw_tnnm = true;
                pos = body + size as usize;
            } else if tag4_eq(data, pos, 0x4a, 0x55, 0x4e, 0x4b) {
                pos = body + size as usize;
            } else {
                return Err(Nus3audioError::MalformedContainer);
            }
        }

        proof {
            lemma_walk_lens(b, 24, cnt, init_state());
        }
        let (ids_t, noffs_t, pairs_t) = match (ids_v, noffs_v, pairs_v) {
            (Some(a), Some(o), Some(p)) => (a, o, p),
            _ => {
                return Err(Nus3audioError::MalformedContainer);
            },
        };
        if !saw_tnnm {
            return Err(Nus3audioError::MalformedContainer);
        }
        let ghost idsq = ids_t@;
        let ghost noffsq = noffs_t@;
        let ghost pairsq = pairs_t@;
        proof {
            assert(decode_spec(b) == build_entries(b, idsq, noffsq, pairsq, cnt));
        }

        // Rebuild the entries from the three positional tables.
        let mut entries: Vec<AudioFile> = Vec::new();
        let mut i: usize = 0;
        while i < count as usize
            invariant
                b == data@,
                len == b.len(),
                i <= cnt,
                cnt == count as int,
                idsq.len() == cnt && noffsq.len() == cnt && pairsq.len() == cnt,
                ids_t@ == idsq && noffs_t@ == noffsq && pairs_t@ == pairsq,
                decode_spec(b) == build_entries(b, idsq, noffsq, pairsq, cnt),
                build_entries(b, idsq, noffsq, pairsq, i as int) == Some(
                    entries@.map_values(|x: AudioFile| x@),
                ),
            decreases cnt - i,
        {
            let noff = noffs_t[i];
            if (noff as u64) >= (len as u64) {
                proof {
                    assert(find_null(b, noff as int) is None);
                    assert(entry_at(b, idsq[i as int], noffsq[i as int], pairsq[i as int])
                        is None);
                    lemma_build_entries_fail(b, idsq, noffsq, pairsq, i as int, cnt);
                }
                return Err(Nus3audioError::MalformedContainer);
            }
            // Scan for the name's null terminator.
            let mut k: usize = noff as usize;
            while k < len && data[k] != 0
                invariant
                    b == data@,
                    len == b.len(),
                    noff as int <= k <= len,
                    find_null(b, noff as int) == find_null(b, k as int),
                decreases len - k,
            {
                k = k + 1;
            }
            if k >= len {
                proof {
                    assert(find_null(b, noff as int) is None);
                    assert(entry_at(b, idsq[i as int], noffsq[i as int], pairsq[i as int])
                        is None);
                    assert(build_entries(b, idsq, noffsq, pairsq, cnt) is None) by {
                        lemma_build_entries_fail(b, idsq, noffsq, pairsq, i as int, cnt);
                    }
                }
                return Err(Nus3audioError::MalformedContainer);
            }
            proof {
                assert(find_null(b, k as int) == Some(k as int));
                assert(noff as int <= k as int);
            }
            let name_vec = slice_to_vec(slice_subrange(data, noff as usize, k));
            let ghost nb = b.subrange(noff as int, k as int);
            let name = match string_from_bytes(name_vec) {
                Some(s) => s,
                None => {
                    proof {
                        assert(entry_at(b, idsq[i as int], noffsq[i as int], pairsq[i as int])
                            is None);
                        lemma_build_entries_fail(b, idsq, noffsq, pairsq, i as int, cnt);
                    }
                    return Err(Nus3audioError::MalformedContainer);
                },
            };
            proof {
                encode_utf8_decode_utf8(name@);
                assert(decode_utf8(nb) == name@);
            }
            let (off, sz) = pairs_t[i];
            if (off as u64) + (sz as u64) > (len as u64) {
                proof {
                    assert(entry_at(b, idsq[i as int], noffsq[i as int], pairsq[i as int])
                        is None);
                    lemma_build_entries_fail(b, idsq, noffsq, pairsq, i as int, cnt);
                }
                return Err(Nus3audioError::MalformedContainer);
            }
            let data_vec = slice_to_vec(slice_subrange(data, off as usize, off as usize
                + sz as usize));
            let entry = AudioFile { id: ids_t[i], name, data: data_vec };
            proof {
                assert(entry_at(b, idsq[i as int], noffsq[i as int], pairsq[i as int]) == Some(
                    entry@,
                ));
            }
            entries.push(entry);
            i = i + 1;
            proof {
                assert(entries@.map_values(|x: AudioFile| x@) =~= build_entries(
                    b,
                    idsq,
                    noffsq,
                    pairsq,
                    i as int,
                )->0);
            }
        }
        let r = Nus3audioFile { files: entries };
        proof {
            assert(r@ == decode_spec(b)->0);
        }
        Ok(r)
    }

    /// Decode a buffer that is known to be well-formed.
    pub fn from_bytes(data: &[u8]) -> (r: Nus3audioFile)
        requires
            decode_spec(data@) is Some,
        ensures
            r@ == decode_spec(data@)->0,
    {
        match Self::decode(data) {
            Ok(f) => f,
            Err(_) => vstd::pervasive::unreached(),
        }
    }
}

/// The walk state the executable decoder has collected.
pub open spec fn cur_state(
    ids_v: &Option<Vec<u32>>,
    noffs_v: &Option<Vec<u32>>,
    pairs_v: &Option<Vec<(u32, u32)>>,
    saw_tnnm: bool,
) -> SecState {
    SecState {
        ids: match ids_v {
            Some(v) => Some(v@),
            None => None,
        },
        name_offs: match noffs_v {
            Some(v) => Some(v@),
            None => None,
        },
        pairs: match pairs_v {
            Some(v) => Some(v@),
            None => None,
        },
        saw_tnnm: saw_tnnm,
    }
}

/// The walk only ever stores tables of exactly `count` rows.
proof fn lemma_walk_lens(b: Seq<u8>, pos: int, count: int, st: SecState)
    requires
        count >= 0,
        st.ids is Some ==> st.ids->0.len() == count,
        st.name_offs is Some ==> st.name_offs->0.len() == count,
        st.pairs is Some ==> st.pairs->0.len() == count,
        walk(b, pos, count, st) is Some,
    ensures
        walk(b, pos, count, st)->0.ids is Some ==> walk(b, pos, count, st)->0.ids->0.len()
            == count,
        walk(b, pos, count, st)->0.name_offs is Some ==> walk(
            b,
            pos,
            count,
            st,
        )->0.name_offs->0.len() == count,
        walk(b, pos, count, st)->0.pairs is Some ==> walk(b, pos, count, st)->0.pairs->0.len()
            == count,
    decreases b.len() - pos,
{
    let tag = b.subrange(pos, pos + 4);
    let size = u32_at(b, pos + 4) as int;
    if tag == pack_tag() {
    } else if tag == tnid_tag() {
        lemma_walk_lens(
            b,
            pos + 8 + size,
            count,
            SecState {
                ids: Some(parse_u32s(b, pos + 8, count)),
                name_offs: st.name_offs,
                pairs: st.pairs,
                saw_tnnm: st.saw_tnnm,
            },
        );
    } else if tag == nmof_tag() {
        lemma_walk_lens(
            b,
            pos + 8 + size,
            count,
            SecState {
                ids: st.ids,
                name_offs: Some(parse_u32s(b, pos + 8, count)),
                pairs: st.pairs,
                saw_tnnm: st.saw_tnnm,
            },
        );
    } else if tag == adof_tag() {
        lemma_walk_lens(
            b,
            pos + 8 + size,
            count,
            SecState {
                ids: st.ids,
                name_offs: st.name_offs,
                pairs: Some(parse_pairs(b, pos + 8, count)),
                saw_tnnm: st.saw_tnnm,
            },
        );
    } else if tag == tnnm_tag() {
        lemma_walk_lens(
            b,
            pos + 8 + size,
            count,
            SecState {
                ids: st.ids,
                name_offs: st.name_offs,
                pairs: st.pairs,
                saw_tnnm: true,
            },
        );
    } else if tag == junk_tag() {
        lemma_walk_lens(b, pos + 8 + size, count, st);
    }
}

/// Once one entry fails to build, the whole table fails.
proof fn lemma_build_entries_fail(
    b: Seq<u8>,
    ids: Seq<u32>,
    noffs: Seq<u32>,
    pairs: Seq<(u32, u32)>,
    i: int,
    k: int,
)
    requires
        0 <= i < k,
        entry_at(b, ids[i], noffs[i], pairs[i]) is None,
    ensures
        build_entries(b, ids, noffs, pairs, k) is None,
    decreases k,
{
    if i < k - 1 {
        lemma_build_entries_fail(b, ids, noffs, pairs, i, k - 1);
    }
}

} // verus!
