//! The tone-label encoder: a sorted hash table derived from the entries,
//! independent of the container layout.

use vstd::prelude::*;
use vstd::utf8::encode_utf8;
use crate::EntryModel;
use crate::Nus3audioFile;
use crate::bytes::{push_u32_le, push_u64_le, u32_le, u64_le};
use crate::hash::{crc32, crc32_of, lower_of, lowercase};

verus! {

/// An entry's 64-bit tone key: the checksum of its lowercased name in the
/// low 32 bits, the name's byte length in bits 32 to 39, and the id in the
/// bits above.
pub open spec fn tone_key(e: EntryModel) -> u64 {
    (crc32_of(encode_utf8(lower_of(e.name))) as u64) | ((encode_utf8(e.name).len() as u64) << 32)
        | ((e.id as u64) << 40)
}

/// The part of a key the sort compares: its low 40 bits.
pub open spec fn key40(x: u64) -> u64 {
    x & 0xff_ffff_ffff
}

/// All tone keys, in entry order.
pub open spec fn keys_of(files: Seq<EntryModel>) -> Seq<u64> {
    files.map_values(|e: EntryModel| tone_key(e))
}

/// Insert `x` into a sequence sorted by `key40`, after every element whose
/// key compares less than or equal: the stable insertion position.
pub open spec fn insert_sorted(s: Seq<u64>, x: u64) -> Seq<u64>
    decreases s.len(),
{
    if s.len() == 0 {
        seq![x]
    } else if key40(s.last()) <= key40(x) {
        s.push(x)
    } else {
        insert_sorted(s.drop_last(), x).push(s.last())
    }
}

/// The stable sort of a key sequence by `key40`: what a stable sort that
/// compares only the low 40 bits leaves behind.
pub open spec fn stable_sorted(s: Seq<u64>) -> Seq<u64>
    decreases s.len(),
{
    if s.len() == 0 {
        s
    } else {
        insert_sorted(stable_sorted(s.drop_last()), s.last())
    }
}

/// The sorted keys as little-endian 64-bit values.
pub open spec fn u64s_bytes(s: Seq<u64>, i: int) -> Seq<u8>
    decreases i,
{
    if i <= 0 {
        Seq::empty()
    } else {
        u64s_bytes(s, i - 1) + u64_le(s[i - 1])
    }
}

/// The whole tone-label buffer: version 1, the entry count, then the keys
/// sorted ascending by their low 40 bits, encounter order kept among equals.
pub open spec fn tonelabel_spec(files: Seq<EntryModel>) -> Seq<u8> {
    let sorted = stable_sorted(keys_of(files));
    u32_le(1) + u32_le(files.len() as u32) + u64s_bytes(sorted, sorted.len() as int)
}

pub proof fn lemma_insert_sorted_len(s: Seq<u64>, x: u64)
    ensures
        insert_sorted(s, x).len() == s.len() + 1,
    decreases s.len(),
{
    if s.len() > 0 && !(key40(s.last()) <= key40(x)) {
        lemma_insert_sorted_len(s.drop_last(), x);
    }
}

pub proof fn lemma_stable_sorted_len(s: Seq<u64>)
    ensures
        stable_sorted(s).len() == s.len(),
    decreases s.len(),
{
    if s.len() > 0 {
        lemma_stable_sorted_len(s.drop_last());
        lemma_insert_sorted_len(stable_sorted(s.drop_last()), s.last());
    }
}

/// Insert one key at its stable position in a vector sorted by `key40`.
fn insert_key(sorted: &mut Vec<u64>, x: u64)
    ensures
        final(sorted)@ == insert_sorted(old(sorted)@, x),
{
    let ghost s = sorted@;
    proof {
        assert(s.take(s.len() as int) =~= s);
        assert(s.skip(s.len() as int) =~= Seq::<u64>::empty());
        assert(insert_sorted(s.take(s.len() as int), x) + s.skip(s.len() as int) =~= insert_sorted(
            s,
            x,
        ));
    }
    let mut cut: usize = sorted.len();
    while cut > 0 && (sorted[cut - 1] & 0xff_ffff_ffff) > (x & 0xff_ffff_ffff)
        invariant
            s == sorted@,
            cut <= s.len(),
            insert_sorted(s, x) == insert_sorted(s.take(cut as int), x) + s.skip(cut as int),
        decreases cut,
    {
        proof {
            let c = cut as int;
            assert(s.take(c).last() == s[c - 1]);
            assert(s.take(c).drop_last() =~= s.take(c - 1));
            assert(insert_sorted(s.take(c), x) == insert_sorted(s.take(c - 1), x).push(s[c - 1]));
            assert(insert_sorted(s.take(c - 1), x).push(s[c - 1]) + s.skip(c) =~= insert_sorted(
                s.take(c - 1),
                x,
            ) + s.skip(c - 1));
        }
        cut = cut - 1;
    }
    proof {
        let c = cut as int;
        if c == 0 {
            assert(s.take(0) =~= Seq::<u64>::empty());
            assert(insert_sorted(s.take(0), x) =~= seq![x]);
        } else {
            assert(s.take(c).last() == s[c - 1]);
            assert(insert_sorted(s.take(c), x) == s.take(c).push(x));
        }
        assert(insert_sorted(s.take(c), x) + s.skip(c) =~= s.insert(c, x));
    }
    sorted.insert(cut, x);
}

impl Nus3audioFile {
    /// Length in bytes of this container's tone-label encoding.
    pub fn calc_tonelabel_size(&self) -> (r: usize)
        requires
            8 + 8 * self@.len() <= usize::MAX,
        ensures
            r == 8 + 8 * self@.len(),
    {
        8 + 8 * self.files.len()
    }

    /// Serialize the tone-label table: version, count, and every entry's
    /// tone key, sorted ascending by the low 40 bits with encounter order
    /// kept among equal keys, appended to `f` byte-exactly as
    /// `tonelabel_spec` states.
    pub fn write_tonelabel(&self, f: &mut Vec<u8>)
        requires
            self@.len() <= 0xFFFF_FFFF,
            forall|j: int|
                0 <= j < self@.len() ==> encode_utf8(self@[j].name).len() <= usize::MAX,
        ensures
            final(f)@ == old(f)@ + tonelabel_spec(self@),
    {
        let ghost m = self@;
        let n = self.files.len();

        let mut keys: Vec<u64> = Vec::new();
        let mut i: usize = 0;
        while i < n
            invariant
                n == m.len(),
                m == self@,
                i <= n,
                forall|j: int| 0 <= j < n ==> encode_utf8(m[j].name).len() <= usize::MAX,
                keys@.len() == i,
                forall|j: int| 0 <= j < i ==> keys@[j] == tone_key(m[j]),
            decreases n - i,
        {
            proof {
                assert(m[i as int] == self.files@[i as int]@);
            }
            let low = lowercase(self.files[i].name.as_str());
            let c = crc32(low.as_str().as_bytes());
            let key: u64 = (c as u64) | ((self.files[i].name.as_str().len() as u64) << 32u64) | (
            (self.files[i].id as u64) << 40u64);
            keys.push(key);
            i = i + 1;
        }
        proof {
            assert(keys@ =~= keys_of(m));
        }

        let mut sorted: Vec<u64> = Vec::new();
        let mut i: usize = 0;
        while i < n
            invariant
                n == keys@.len(),
                keys@ == keys_of(m),
                i <= n,
                sorted@ == stable_sorted(keys@.take(i as int)),
            decreases n - i,
        {
            insert_key(&mut sorted, keys[i]);
            i = i + 1;
            proof {
                assert(keys@.take(i as int).drop_last() =~= keys@.take(i as int - 1));
                assert(keys@.take(i as int).last() == keys@[i as int - 1]);
            }
        }
        proof {
            assert(keys@.take(n as int) =~= keys_of(m));
            assert(sorted@ == stable_sorted(keys_of(m)));
            lemma_stable_sorted_len(keys_of(m));
        }

        let ghost p0 = f@;
        push_u32_le(f, 1);
        push_u32_le(f, n as u32);
        let ghost p1 = f@;
        let mut i: usize = 0;
        while i < n
            invariant
                n == sorted@.len(),
                f@ == p1 + u64s_bytes(sorted@, i as int),
                i <= n,
            decreases n - i,
        {
            push_u64_le(f, sorted[i]);
            i = i + 1;
            proof {
                assert(f@ =~= p1 + u64s_bytes(sorted@, i as int));
            }
        }
        proof {
            assert(stable_sorted(keys_of(m)).len() == sorted@.len());
            assert(f@ =~= p0 + tonelabel_spec(m));
        }
    }
}

} // verus!
