//! The chunk encoder: serializes a container into the fixed section order,
//! using the offsets and sizes the layout computes.

use vstd::prelude::*;
use crate::AudioFile;
use crate::EntryModel;
use crate::Nus3audioFile;
use crate::bytes::{
    adof_tag, audiindx_tag, junk_tag, nmof_tag, nus3_tag, pack_tag, pad16, push4, push_slice,
    push_u32_le, push_zeros, tnid_tag, tnnm_tag, u32_le, zeros, get_padding_amount,
};
use crate::hash::{crc32, crc32_of};
use crate::layout::{
    fits, first_match, is_fresh, junk_pad, lemma_first_match_range,
    lemma_first_match_self, lemma_fits_bounds, lemma_names_len_to_bounds, lemma_names_len_to_mono,
    lemma_pack_cum_le_sum, lemma_pack_cum_mono, lemma_sum_pad16_mono,
    name_bytes, name_off, names_len, names_len_to, pack_cum, pack_size, pack_start, pair_of,
    string_start, sum_pad16, total_size,
};

verus! {

/// The id table: every entry's id, little-endian, in entry order.
pub open spec fn ids_bytes(files: Seq<EntryModel>, i: int) -> Seq<u8>
    decreases i,
{
    if i <= 0 {
        Seq::empty()
    } else {
        ids_bytes(files, i - 1) + u32_le(files[i - 1].id)
    }
}

/// The name-offset table: every entry's absolute name offset, in entry order.
pub open spec fn offs_bytes(files: Seq<EntryModel>, i: int) -> Seq<u8>
    decreases i,
{
    if i <= 0 {
        Seq::empty()
    } else {
        offs_bytes(files, i - 1) + u32_le(name_off(files, i - 1) as u32)
    }
}

/// The audio-offset table: every entry's (offset, size) pair, aliased pairs
/// repeated verbatim.
pub open spec fn adof_bytes(files: Seq<EntryModel>, i: int) -> Seq<u8>
    decreases i,
{
    if i <= 0 {
        Seq::empty()
    } else {
        adof_bytes(files, i - 1) + u32_le(pair_of(files, i - 1).0) + u32_le(
            pair_of(files, i - 1).1,
        )
    }
}

/// The string section payload: every name, null-terminated, in entry order.
pub open spec fn names_bytes(files: Seq<EntryModel>, i: int) -> Seq<u8>
    decreases i,
{
    if i <= 0 {
        Seq::empty()
    } else {
        names_bytes(files, i - 1) + name_bytes(files[i - 1]) + seq![0u8]
    }
}

/// The pack payloads of the fresh entries among the first `i`, each padded
/// with zeros to the next 16-byte boundary.
pub open spec fn pack_blobs(files: Seq<EntryModel>, i: int) -> Seq<u8>
    decreases i,
{
    if i <= 0 {
        Seq::empty()
    } else {
        pack_blobs(files, i - 1) + if is_fresh(files, i - 1) {
            files[i - 1].data + zeros(pad16(files[i - 1].data.len() as int) - files[i - 1].data.len())
        } else {
            Seq::<u8>::empty()
        }
    }
}

/// The pack section payload: deduplicated padded payloads, except that a
/// one-entry container holds its single payload without trailing padding.
pub open spec fn pack_bytes(files: Seq<EntryModel>) -> Seq<u8> {
    if files.len() == 1 {
        files[0].data
    } else {
        pack_blobs(files, files.len() as int)
    }
}

/// The leading NUS3 and AUDIINDX headers: total remaining size, the fixed
/// index size field, and the entry count.
pub open spec fn header_part(m: Seq<EntryModel>) -> Seq<u8> {
    nus3_tag() + u32_le((total_size(m) - 8) as u32) + audiindx_tag() + u32_le(4) + u32_le(
        m.len() as u32,
    )
}

pub open spec fn tnid_part(m: Seq<EntryModel>) -> Seq<u8> {
    tnid_tag() + u32_le((4 * m.len() as int) as u32) + ids_bytes(m, m.len() as int)
}

pub open spec fn nmof_part(m: Seq<EntryModel>) -> Seq<u8> {
    nmof_tag() + u32_le((4 * m.len() as int) as u32) + offs_bytes(m, m.len() as int)
}

pub open spec fn adof_part(m: Seq<EntryModel>) -> Seq<u8> {
    adof_tag() + u32_le((8 * m.len() as int) as u32) + adof_bytes(m, m.len() as int)
}

pub open spec fn tnnm_part(m: Seq<EntryModel>) -> Seq<u8> {
    tnnm_tag() + u32_le(names_len(m) as u32) + names_bytes(m, m.len() as int)
}

pub open spec fn junk_part(m: Seq<EntryModel>) -> Seq<u8> {
    junk_tag() + u32_le(junk_pad(m) as u32) + zeros(junk_pad(m))
}

pub open spec fn pack_part(m: Seq<EntryModel>) -> Seq<u8> {
    pack_tag() + u32_le(pack_size(m) as u32) + pack_bytes(m)
}

/// The whole encoded buffer, byte for byte.
pub open spec fn encode_spec(m: Seq<EntryModel>) -> Seq<u8> {
    header_part(m) + tnid_part(m) + nmof_part(m) + adof_part(m) + tnnm_part(m) + junk_part(m)
        + pack_part(m)
}

fn emit_header(f: &mut Vec<u8>, filesize: usize, n: usize, Ghost(m): Ghost<Seq<EntryModel>>)
    requires
        fits(m),
        n == m.len(),
        filesize == total_size(m),
    ensures
        final(f)@ == old(f)@ + header_part(m),
{
    proof {
        lemma_fits_bounds(m);
    }
    push4(f, 0x4e, 0x55, 0x53, 0x33);
    push_u32_le(f, (filesize - 8) as u32);
    push4(f, 0x41, 0x55, 0x44, 0x49);
    push4(f, 0x49, 0x4e, 0x44, 0x58);
    push_u32_le(f, 4);
    push_u32_le(f, n as u32);
    proof {
        assert(seq![0x41u8, 0x55u8, 0x44u8, 0x49u8] + seq![0x49u8, 0x4eu8, 0x44u8, 0x58u8]
            =~= audiindx_tag());
        assert(f@ =~= old(f)@ + header_part(m));
    }
}

fn emit_tnid(f: &mut Vec<u8>, files: &Vec<AudioFile>, Ghost(m): Ghost<Seq<EntryModel>>)
    requires
        fits(m),
        m == files@.map_values(|x: AudioFile| x@),
    ensures
        final(f)@ == old(f)@ + tnid_part(m),
{
    proof {
        lemma_fits_bounds(m);
    }
    let n = files.len();
    push4(f, 0x54, 0x4e, 0x49, 0x44);
    push_u32_le(f, (4 * n) as u32);
    let ghost p = f@;
    let mut i: usize = 0;
    while i < n
        invariant
            n == files@.len(),
            m == files@.map_values(|x: AudioFile| x@),
            i <= n,
            f@ == p + ids_bytes(m, i as int),
        decreases n - i,
    {
        proof {
            assert(m[i as int] == files@[i as int]@);
        }
        push_u32_le(f, files[i].id);
        i = i + 1;
        proof {
            assert(f@ =~= p + ids_bytes(m, i as int));
        }
    }
    proof {
        assert(f@ =~= old(f)@ + tnid_part(m));
    }
}

fn emit_nmof(f: &mut Vec<u8>, offs: &Vec<u32>, Ghost(m): Ghost<Seq<EntryModel>>)
    requires
        fits(m),
        offs@.len() == m.len(),
        forall|j: int| 0 <= j < m.len() ==> offs@[j] == (name_off(m, j) as u32),
    ensures
        final(f)@ == old(f)@ + nmof_part(m),
{
    proof {
        lemma_fits_bounds(m);
    }
    let n = offs.len();
    push4(f, 0x4e, 0x4d, 0x4f, 0x46);
    push_u32_le(f, (4 * n) as u32);
    let ghost p = f@;
    let mut i: usize = 0;
    while i < n
        invariant
            n == offs@.len() == m.len(),
            forall|j: int| 0 <= j < m.len() ==> offs@[j] == (name_off(m, j) as u32),
            i <= n,
            f@ == p + offs_bytes(m, i as int),
        decreases n - i,
    {
        push_u32_le(f, offs[i]);
        i = i + 1;
        proof {
            assert(f@ =~= p + offs_bytes(m, i as int));
        }
    }
    proof {
        assert(f@ =~= old(f)@ + nmof_part(m));
    }
}

fn emit_adof(f: &mut Vec<u8>, pairs: &Vec<(u32, u32)>, Ghost(m): Ghost<Seq<EntryModel>>)
    requires
        fits(m),
        pairs@.len() == m.len(),
        forall|j: int| 0 <= j < m.len() ==> pairs@[j] == pair_of(m, j),
    ensures
        final(f)@ == old(f)@ + adof_part(m),
{
    proof {
        lemma_fits_bounds(m);
    }
    let n = pairs.len();
    push4(f, 0x41, 0x44, 0x4f, 0x46);
    push_u32_le(f, (8 * n) as u32);
    let ghost p = f@;
    let mut i: usize = 0;
    while i < n
        invariant
            n == pairs@.len() == m.len(),
            forall|j: int| 0 <= j < m.len() ==> pairs@[j] == pair_of(m, j),
            i <= n,
            f@ == p + adof_bytes(m, i as int),
        decreases n - i,
    {
        push_u32_le(f, pairs[i].0);
        push_u32_le(f, pairs[i].1);
        i = i + 1;
        proof {
            assert(f@ =~= p + adof_bytes(m, i as int));
        }
    }
    proof {
        assert(f@ =~= old(f)@ + adof_part(m));
    }
}

fn emit_tnnm(
    f: &mut Vec<u8>,
    files: &Vec<AudioFile>,
    string_section_size: usize,
    Ghost(m): Ghost<Seq<EntryModel>>,
)
    requires
        fits(m),
        m == files@.map_values(|x: AudioFile| x@),
        string_section_size == names_len(m),
    ensures
        final(f)@ == old(f)@ + tnnm_part(m),
{
    proof {
        lemma_fits_bounds(m);
    }
    let n = files.len();
    push4(f, 0x54, 0x4e, 0x4e, 0x4d);
    push_u32_le(f, string_section_size as u32);
    let ghost p = f@;
    let mut i: usize = 0;
    while i < n
        invariant
            n == files@.len(),
            m == files@.map_values(|x: AudioFile| x@),
            i <= n,
            f@ == p + names_bytes(m, i as int),
        decreases n - i,
    {
        proof {
            assert(m[i as int] == files@[i as int]@);
        }
        push_slice(f, files[i].name.as_str().as_bytes());
        f.push(0u8);
        i = i + 1;
        proof {
            assert(f@ =~= p + names_bytes(m, i as int));
        }
    }
    proof {
        assert(f@ =~= old(f)@ + tnnm_part(m));
    }
}

fn emit_junk(f: &mut Vec<u8>, junk_pad_amt: usize, Ghost(m): Ghost<Seq<EntryModel>>)
    requires
        fits(m),
        junk_pad_amt == junk_pad(m),
    ensures
        final(f)@ == old(f)@ + junk_part(m),
{
    proof {
        lemma_fits_bounds(m);
    }
    push4(f, 0x4a, 0x55, 0x4e, 0x4b);
    push_u32_le(f, junk_pad_amt as u32);
    push_zeros(f, junk_pad_amt);
    proof {
        assert(f@ =~= old(f)@ + junk_part(m));
    }
}

fn emit_pack(
    f: &mut Vec<u8>,
    files: &Vec<AudioFile>,
    flags: &Vec<bool>,
    pack_sz: usize,
    Ghost(m): Ghost<Seq<EntryModel>>,
)
    requires
        fits(m),
        m == files@.map_values(|x: AudioFile| x@),
        flags@.len() == m.len(),
        forall|j: int| 0 <= j < m.len() ==> flags@[j] == is_fresh(m, j),
        pack_sz == pack_size(m),
    ensures
        final(f)@ == old(f)@ + pack_part(m),
{
    proof {
        lemma_fits_bounds(m);
    }
    let n = files.len();
    push4(f, 0x50, 0x41, 0x43, 0x4b);
    push_u32_le(f, pack_sz as u32);
    if n == 1 {
        push_slice(f, self_data(files, 0));
        proof {
            assert(m[0] == files@[0]@);
            assert(f@ =~= old(f)@ + pack_part(m));
        }
    } else {
        let ghost p = f@;
        let mut i: usize = 0;
        while i < n
            invariant
                n == files@.len() == m.len(),
                n != 1,
                m == files@.map_values(|x: AudioFile| x@),
                fits(m),
                flags@.len() == m.len(),
                forall|j: int| 0 <= j < m.len() ==> flags@[j] == is_fresh(m, j),
                i <= n,
                f@ == p + pack_blobs(m, i as int),
            decreases n - i,
        {
            proof {
                assert(m[i as int] == files@[i as int]@);
                lemma_fits_bounds(m);
                lemma_sum_pad16_mono(m, i + 1, n as int);
                lemma_sum_pad16_mono(m, 0, i as int);
                crate::bytes::lemma_pad16(files@[i as int]@.data.len() as int);
            }
            if flags[i] {
                let len = self_data(files, i).len();
                let rem = len % 0x10;
                let pad_extra: usize = if rem == 0 {
                    0
                } else {
                    0x10 - rem
                };
                proof {
                    assert(pad_extra == pad16(len as int) - len);
                }
                push_slice(f, self_data(files, i));
                push_zeros(f, pad_extra);
            }
            i = i + 1;
            proof {
                assert(f@ =~= p + pack_blobs(m, i as int));
            }
        }
        proof {
            assert(f@ =~= old(f)@ + pack_part(m));
        }
    }
}

/// The payload slice of entry `i`.
fn self_data(files: &Vec<AudioFile>, i: usize) -> (r: &[u8])
    requires
        i < files@.len(),
    ensures
        r@ == files@[i as int].data@,
{
    files[i].data.as_slice()
}

impl Nus3audioFile {
    /// Serialize the container: the fixed section order, the computed name
    /// and pack offsets, content-deduplicated pack payloads, and the
    /// format's padding rules, appended to `f` byte-exactly as
    /// `encode_spec` states.
    #[verifier::rlimit(60)]
    pub fn write(&self, f: &mut Vec<u8>)
        requires
            fits(self@),
        ensures
            final(f)@ == old(f)@ + encode_spec(self@),
    {
        let ghost m = self@;
        let n = self.files.len();
        proof {
            lemma_fits_bounds(m);
            assert(m.len() == n);
        }

        // Offset calculation: name offsets and the string section size.
        let string_section_start: usize = 8 + 16 + (8 + 4 * n) + (8 + 4 * n) + (8 + 8 * n) + 8;
        let mut string_offsets: Vec<u32> = Vec::new();
        let mut string_section_size: usize = 0;
        let mut i: usize = 0;
        while i < n
            invariant
                n == m.len(),
                m == self@,
                fits(m),
                string_section_start == string_start(n as int),
                i <= n,
                string_offsets@.len() == i,
                forall|j: int| 0 <= j < i ==> string_offsets@[j] == (name_off(m, j) as u32),
                string_section_size == names_len_to(m, i as int),
            decreases n - i,
        {
            proof {
                lemma_fits_bounds(m);
                lemma_names_len_to_mono(m, i as int, n as int);
                lemma_names_len_to_mono(m, i + 1, n as int);
                assert(m[i as int] == self.files@[i as int]@);
            }
            string_offsets.push((string_section_start + string_section_size) as u32);
            string_section_size = string_section_size + self.files[i].name.as_str().len() + 1;
            i = i + 1;
        }

        let junk_pad_amt = get_padding_amount(string_section_start + string_section_size + 8);
        let pack_section_start: usize = string_section_start + string_section_size + 8
            + junk_pad_amt + 8;
        proof {
            assert(junk_pad_amt == junk_pad(m));
            assert(pack_section_start == pack_start(m));
        }

        // Content deduplication: one (offset, size) pair per entry, aliased
        // pairs repeated, fresh payloads assigned the next padded slot.
        let mut crcs: Vec<u32> = Vec::new();
        let mut pairs: Vec<(u32, u32)> = Vec::new();
        let mut flags: Vec<bool> = Vec::new();
        let mut cum: usize = 0;
        let mut i: usize = 0;
        while i < n
            invariant
                n == m.len(),
                m == self@,
                fits(m),
                pack_section_start == pack_start(m),
                i <= n,
                crcs@.len() == i,
                forall|j: int| 0 <= j < i ==> crcs@[j] == crc32_of(m[j].data),
                pairs@.len() == i,
                forall|j: int| 0 <= j < i ==> pairs@[j] == pair_of(m, j),
                flags@.len() == i,
                forall|j: int| 0 <= j < i ==> flags@[j] == is_fresh(m, j),
                cum == pack_cum(m, i as int),
            decreases n - i,
        {
            proof {
                assert(m[i as int] == self.files@[i as int]@);
                lemma_fits_bounds(m);
                lemma_pack_cum_le_sum(m, i as int);
                lemma_pack_cum_le_sum(m, i + 1);
                lemma_pack_cum_mono(m, i + 1, n as int);
                lemma_sum_pad16_mono(m, i + 1, n as int);
                crate::bytes::lemma_pad16(m[i as int].data.len() as int);
            }
            let h = crc32(self_data(&self.files, i));
            let mut found: bool = false;
            let mut at: usize = 0;
            let mut j: usize = 0;
            while j < i
                invariant
                    i <= crcs@.len() && i <= m.len(),
                    h == crc32_of(m[i as int].data),
                    forall|j2: int| 0 <= j2 < crcs@.len() ==> crcs@[j2] == crc32_of(m[j2].data),
                    j <= i,
                    !found ==> forall|j2: int|
                        0 <= j2 < j ==> crc32_of(m[j2].data) != crc32_of(m[i as int].data),
                    found ==> at < i && crc32_of(m[at as int].data) == crc32_of(m[i as int].data)
                        && (forall|j2: int|
                        0 <= j2 < at ==> crc32_of(m[j2].data) != crc32_of(m[i as int].data)),
                decreases i - j,
            {
                if !found && crcs[j] == h {
                    found = true;
                    at = j;
                }
                j = j + 1;
            }
            crcs.push(h);
            if found {
                proof {
                    lemma_first_match_range(m, i as int, 0);
                    assert(first_match(m, i as int, 0) == at as int);
                    assert(is_fresh(m, at as int));
                    lemma_first_match_self(m, at as int);
                    assert(pair_of(m, at as int) == pair_of(m, i as int));
                    assert(!is_fresh(m, i as int));
                }
                let p = pairs[at];
                pairs.push(p);
                flags.push(false);
            } else {
                proof {
                    assert(is_fresh(m, i as int));
                    lemma_first_match_self(m, i as int);
                }
                let len = self_data(&self.files, i).len();
                pairs.push(((pack_section_start + cum) as u32, len as u32));
                flags.push(true);
                let rem = len % 0x10;
                let pad_extra: usize = if rem == 0 {
                    0
                } else {
                    0x10 - rem
                };
                proof {
                    assert(len + pad_extra == pad16(len as int));
                }
                cum = cum + len + pad_extra;
            }
            i = i + 1;
        }

        let pack_sz: usize = if n == 1 {
            proof {
                assert(m[0] == self.files@[0]@);
            }
            self.files[0].data.len()
        } else {
            cum
        };
        let filesize: usize = pack_section_start + pack_sz;
        proof {
            assert(pack_sz == pack_size(m));
            assert(filesize == total_size(m));
        }

        // Emission, in the fixed section order.
        let ghost p0 = f@;
        emit_header(f, filesize, n, Ghost(m));
        emit_tnid(f, &self.files, Ghost(m));
        emit_nmof(f, &string_offsets, Ghost(m));
        emit_adof(f, &pairs, Ghost(m));
        emit_tnnm(f, &self.files, string_section_size, Ghost(m));
        emit_junk(f, junk_pad_amt, Ghost(m));
        emit_pack(f, &self.files, &flags, pack_sz, Ghost(m));
        proof {
            assert(f@ =~= p0 + encode_spec(m));
        }
    }
}

} // verus!
