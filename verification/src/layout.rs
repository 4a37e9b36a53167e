//! Sizes and absolute offsets of every section of an encoded container,
//! computed before any byte is emitted, including the content-hash
//! deduplication of pack payloads.

use vstd::prelude::*;
use vstd::utf8::encode_utf8;
use crate::EntryModel;
use crate::Nus3audioFile;
use crate::bytes::{pad16, pad_amount, get_padding_amount};
use crate::hash::{crc32, crc32_of};

verus! {

/// The UTF-8 bytes of an entry's name.
pub open spec fn name_bytes(e: EntryModel) -> Seq<u8> {
    encode_utf8(e.name)
}

/// Total bytes of the first `i` names, each with its null terminator.
pub open spec fn names_len_to(files: Seq<EntryModel>, i: int) -> int
    decreases i,
{
    if i <= 0 {
        0
    } else {
        names_len_to(files, i - 1) + name_bytes(files[i - 1]).len() + 1
    }
}

/// Size of the string section: every name with its null terminator.
pub open spec fn names_len(files: Seq<EntryModel>) -> int {
    names_len_to(files, files.len() as int)
}

/// Absolute offset of the string section's payload: the fixed headers plus
/// the id, name-offset and audio-offset tables precede it.
pub open spec fn string_start(n: int) -> int {
    56 + 16 * n
}

/// Absolute offset of entry `i`'s name within the encoded buffer.
pub open spec fn name_off(files: Seq<EntryModel>, i: int) -> int {
    string_start(files.len() as int) + names_len_to(files, i)
}

/// Zero bytes of the JUNK section, aligning the start of the pack payload.
pub open spec fn junk_pad(files: Seq<EntryModel>) -> int {
    pad_amount(string_start(files.len() as int) + names_len(files) + 8)
}

/// Absolute offset of the pack section's payload.
pub open spec fn pack_start(files: Seq<EntryModel>) -> int {
    string_start(files.len() as int) + names_len(files) + 8 + junk_pad(files) + 8
}

/// Entry `i` introduces a payload no earlier entry already introduced, judged
/// by the payload's checksum.
pub open spec fn is_fresh(files: Seq<EntryModel>, i: int) -> bool {
    forall|j: int| 0 <= j < i ==> crc32_of(files[j].data) != crc32_of(files[i].data)
}

/// Bytes reserved in the pack payload by the first `i` entries: each fresh
/// payload, rounded up to a 16-byte multiple.
pub open spec fn pack_cum(files: Seq<EntryModel>, i: int) -> int
    decreases i,
{
    if i <= 0 {
        0
    } else {
        pack_cum(files, i - 1) + if is_fresh(files, i - 1) {
            pad16(files[i - 1].data.len() as int)
        } else {
            0
        }
    }
}

/// The first index at or after `j` whose payload checksum equals entry `i`'s;
/// `i` itself when no earlier entry matches.
pub open spec fn first_match(files: Seq<EntryModel>, i: int, j: int) -> int
    decreases i - j,
{
    if j >= i {
        i
    } else if crc32_of(files[j].data) == crc32_of(files[i].data) {
        j
    } else {
        first_match(files, i, j + 1)
    }
}

/// Entry `i`'s (absolute offset, size) pair in the audio-offset table: its
/// own fresh slot, or verbatim the pair of the first entry with the same
/// payload checksum.
pub open spec fn pair_of(files: Seq<EntryModel>, i: int) -> (u32, u32) {
    let f = first_match(files, i, 0);
    (
        ((pack_start(files) + pack_cum(files, f)) as u32),
        (files[f].data.len() as u32),
    )
}

/// The indices of the fresh entries among the first `i`, in order: only these
/// payloads are physically written to the pack payload.
pub open spec fn fresh_to(files: Seq<EntryModel>, i: int) -> Seq<int>
    decreases i,
{
    if i <= 0 {
        Seq::empty()
    } else {
        fresh_to(files, i - 1) + if is_fresh(files, i - 1) {
            seq![i - 1]
        } else {
            Seq::<int>::empty()
        }
    }
}

/// Size of the pack payload: the deduplicated padded total, except that a
/// one-entry container omits the trailing padding of its single payload.
pub open spec fn pack_size(files: Seq<EntryModel>) -> int {
    if files.len() == 1 {
        files[0].data.len() as int
    } else {
        pack_cum(files, files.len() as int)
    }
}

/// Length of the whole encoded buffer.
pub open spec fn total_size(files: Seq<EntryModel>) -> int {
    pack_start(files) + pack_size(files)
}

/// Padded payload bytes summed over every entry, duplicates included: an
/// upper bound of the pack payload, reached when no checksums repeat.
pub open spec fn sum_pad16(files: Seq<EntryModel>, i: int) -> int
    decreases i,
{
    if i <= 0 {
        0
    } else {
        sum_pad16(files, i - 1) + pad16(files[i - 1].data.len() as int)
    }
}

/// The encoded length were every entry's payload packed separately: an
/// upper bound of `total_size`, used as the format's overflow bound.
pub open spec fn size_bound(files: Seq<EntryModel>) -> int {
    pack_start(files) + if files.len() == 1 {
        files[0].data.len() as int
    } else {
        sum_pad16(files, files.len() as int)
    }
}

/// Every size field of the encoding fits its u32 slot.
pub open spec fn fits(files: Seq<EntryModel>) -> bool {
    size_bound(files) <= 0xFFFF_FFFF
}

pub proof fn lemma_names_len_to_bounds(files: Seq<EntryModel>, i: int)
    requires
        0 <= i,
    ensures
        names_len_to(files, i) >= i,
    decreases i,
{
    if i > 0 {
        lemma_names_len_to_bounds(files, i - 1);
    }
}

pub proof fn lemma_names_len_to_mono(files: Seq<EntryModel>, i: int, j: int)
    requires
        0 <= i <= j,
    ensures
        names_len_to(files, i) <= names_len_to(files, j),
    decreases j - i,
{
    if i < j {
        lemma_names_len_to_mono(files, i, j - 1);
        lemma_names_len_to_bounds(files, 0);
    }
}

pub proof fn lemma_sum_pad16_mono(files: Seq<EntryModel>, i: int, j: int)
    requires
        0 <= i <= j,
    ensures
        sum_pad16(files, i) <= sum_pad16(files, j),
    decreases j - i,
{
    if i < j {
        lemma_sum_pad16_mono(files, i, j - 1);
        lemma_pad16_entry(files, j - 1);
    }
}

proof fn lemma_pad16_entry(files: Seq<EntryModel>, i: int)
    ensures
        pad16(files[i].data.len() as int) >= files[i].data.len(),
        pad16(files[i].data.len() as int) % 16 == 0,
{
    crate::bytes::lemma_pad16(files[i].data.len() as int);
}

/// Deduplication only shrinks the pack payload.
pub proof fn lemma_pack_cum_le_sum(files: Seq<EntryModel>, i: int)
    requires
        0 <= i,
    ensures
        0 <= pack_cum(files, i) <= sum_pad16(files, i),
        pack_cum(files, i) % 16 == 0,
    decreases i,
{
    if i > 0 {
        lemma_pack_cum_le_sum(files, i - 1);
        lemma_pad16_entry(files, i - 1);
    }
}

pub proof fn lemma_pack_cum_mono(files: Seq<EntryModel>, i: int, j: int)
    requires
        0 <= i <= j,
    ensures
        pack_cum(files, i) <= pack_cum(files, j),
    decreases j - i,
{
    if i < j {
        lemma_pack_cum_mono(files, i, j - 1);
        lemma_pad16_entry(files, j - 1);
    }
}

/// `first_match(files, i, j)` is the least index in `[j, i]` whose payload
/// checksum equals entry `i`'s, or `i` itself when none matches.
pub proof fn lemma_first_match_range(files: Seq<EntryModel>, i: int, j: int)
    requires
        0 <= j <= i,
    ensures
        j <= first_match(files, i, j) <= i,
        first_match(files, i, j) < i ==> crc32_of(files[first_match(files, i, j)].data)
            == crc32_of(files[i].data),
        forall|k: int|
            j <= k < first_match(files, i, j) ==> crc32_of(files[k].data) != crc32_of(
                files[i].data,
            ),
    decreases i - j,
{
    if j < i && crc32_of(files[j].data) != crc32_of(files[i].data) {
        lemma_first_match_range(files, i, j + 1);
    }
}

/// The first entry with a given payload checksum is itself fresh, and is its
/// own first match.
pub proof fn lemma_first_match_self(files: Seq<EntryModel>, i: int)
    requires
        0 <= i,
        is_fresh(files, i),
    ensures
        first_match(files, i, 0) == i,
{
    lemma_first_match_range(files, i, 0);
}

/// The encoded buffer is never longer than the un-deduplicated bound.
pub proof fn lemma_total_le_bound(files: Seq<EntryModel>)
    ensures
        total_size(files) <= size_bound(files),
{
    if files.len() != 1 {
        lemma_pack_cum_le_sum(files, files.len() as int);
    }
}

/// Bounds that hold of every section offset once the whole encoding fits its
/// u32 size fields.
pub proof fn lemma_fits_bounds(m: Seq<EntryModel>)
    requires
        fits(m),
    ensures
        0 <= names_len(m),
        0 <= junk_pad(m) < 16,
        72 <= pack_start(m),
        pack_start(m) + pack_size(m) <= size_bound(m) <= 0xFFFF_FFFF,
        0 <= pack_size(m),
        m.len() != 1 ==> pack_start(m) + sum_pad16(m, m.len() as int) <= size_bound(m),
        56 + 16 * m.len() <= size_bound(m),
{
    lemma_names_len_to_bounds(m, m.len() as int);
    lemma_total_le_bound(m);
    lemma_pack_cum_le_sum(m, m.len() as int);
    if m.len() == 1 {
        lemma_sum_pad16_mono(m, 0, 1);
    }
}

impl Nus3audioFile {
    /// Length in bytes of this container's encoding: exactly what `write`
    /// appends, with byte-identical payloads deduplicated by checksum and
    /// the single-entry container's trailing padding omitted.
    #[verifier::rlimit(60)]
    pub fn calc_size(&self) -> (r: usize)
        requires
            fits(self@),
        ensures
            r == total_size(self@),
    {
        let ghost m = self@;
        let n = self.files.len();
        proof {
            lemma_fits_bounds(m);
            assert(m.len() == n);
        }
        let tnid_size: usize = 4 + 4 + 4 * n;
        let string_section_start: usize = 8 + 16 + tnid_size + tnid_size + (4 + 4 + 8 * n) + 4 + 4;

        let mut string_section_size: usize = 0;
        let mut i: usize = 0;
        while i < n
            invariant
                n == m.len(),
                m == self@,
                fits(m),
                string_section_start == string_start(n as int),
                i <= n,
                string_section_size == names_len_to(m, i as int),
            decreases n - i,
        {
            proof {
                lemma_fits_bounds(m);
                lemma_names_len_to_mono(m, i as int, n as int);
                lemma_names_len_to_mono(m, i + 1, n as int);
                assert(m[i as int] == self.files@[i as int]@);
            }
            string_section_size = string_section_size + self.files[i].name.as_str().len() + 1;
            i = i + 1;
        }

        let junk_size: usize = 4 + 4 + get_padding_amount(
            string_section_start + string_section_size + 4 + 4,
        );
        let pack_section_start: usize = string_section_start + string_section_size + junk_size + 4
            + 4;
        proof {
            assert(pack_section_start == pack_start(m));
        }

        // The same checksum deduplication as `write`: a payload whose
        // checksum was already seen reserves no new space.
        let mut crcs: Vec<u32> = Vec::new();
        let mut cum: usize = 0;
        let mut k: usize = 0;
        while k < n
            invariant
                n == m.len(),
                m == self@,
                fits(m),
                k <= n,
                crcs@.len() == k,
                forall|j: int| 0 <= j < k ==> crcs@[j] == crc32_of(m[j].data),
                cum == pack_cum(m, k as int),
            decreases n - k,
        {
            proof {
                assert(m[k as int] == self.files@[k as int]@);
                lemma_fits_bounds(m);
                lemma_pack_cum_le_sum(m, k as int);
                lemma_pack_cum_le_sum(m, k + 1);
                lemma_pack_cum_mono(m, k + 1, n as int);
                lemma_sum_pad16_mono(m, k + 1, n as int);
                crate::bytes::lemma_pad16(m[k as int].data.len() as int);
            }
            let h = crc32(self.files[k].data.as_slice());
            let mut found: bool = false;
            let mut j: usize = 0;
            while j < k
                invariant
                    k <= crcs@.len() && k <= m.len(),
                    h == crc32_of(m[k as int].data),
                    forall|j2: int| 0 <= j2 < crcs@.len() ==> crcs@[j2] == crc32_of(m[j2].data),
                    j <= k,
                    !found ==> forall|j2: int|
                        0 <= j2 < j ==> crc32_of(m[j2].data) != crc32_of(m[k as int].data),
                    found ==> exists|j2: int|
                        0 <= j2 < k && crc32_of(m[j2].data) == crc32_of(m[k as int].data),
                decreases k - j,
            {
                if !found && crcs[j] == h {
                    found = true;
                }
                j = j + 1;
            }
            crcs.push(h);
            if found {
                proof {
                    assert(!is_fresh(m, k as int));
                }
            } else {
                proof {
                    assert(is_fresh(m, k as int));
                }
                let len = self.files[k].data.len();
                let rem = len % 0x10;
                let pad_extra: usize = if rem == 0 {
                    0
                } else {
                    0x10 - rem
                };
                proof {
                    assert(len + pad_extra == pad16(len as int));
                }
                cum = cum + len + pad_extra;
            }
            k = k + 1;
        }

        let pack_sz: usize = if n == 1 {
            proof {
                assert(m[0] == self.files@[0]@);
            }
            self.files[0].data.len()
        } else {
            cum
        };
        proof {
            assert(pack_sz == pack_size(m));
        }
        pack_section_start + pack_sz
    }
}

} // verus!
