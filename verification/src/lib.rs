//! Codec for the NUS3AUDIO tagged-chunk container format: decoding a byte
//! buffer into a list of named audio entries, encoding such a list back into
//! bytes, and a small companion "tone label" format derived from the entries.

use vstd::prelude::*;
use vstd::string::StringExecFns;

pub mod bytes;
pub mod hash;
pub mod layout;
pub mod encode;
pub mod decode;
pub mod tonelabel;
pub mod laws;
pub mod roundtrip;

verus! {

/// Mathematical model of one audio entry: its identifier, its name as a
/// character sequence, and its payload bytes.
pub struct EntryModel {
    pub id: u32,
    pub name: Seq<char>,
    pub data: Seq<u8>,
}

/// One named, identified audio payload inside a container.
pub struct AudioFile {
    pub id: u32,
    pub name: String,
    pub data: Vec<u8>,
}

/// An ordered collection of audio entries; the position of an entry is its
/// index into every per-entry table of the wire format.
pub struct Nus3audioFile {
    pub files: Vec<AudioFile>,
}

impl View for AudioFile {
    type V = EntryModel;

    open spec fn view(&self) -> EntryModel {
        EntryModel { id: self.id, name: self.name@, data: self.data@ }
    }
}

impl View for Nus3audioFile {
    type V = Seq<EntryModel>;

    open spec fn view(&self) -> Seq<EntryModel> {
        self.files@.map_values(|f: AudioFile| f@)
    }
}

/// First four bytes of an Opus payload.
pub open spec fn opus_magic() -> Seq<u8> {
    seq![0x4fu8, 0x50u8, 0x55u8, 0x53u8]
}

/// First four bytes of an IDSP payload.
pub open spec fn idsp_magic() -> Seq<u8> {
    seq![0x49u8, 0x44u8, 0x53u8, 0x50u8]
}

/// The filename extension inferred from the first four payload bytes.
pub open spec fn ext_of(data: Seq<u8>) -> Seq<char> {
    if data.len() >= 4 && data.subrange(0, 4) == opus_magic() {
        ".lopus"@
    } else if data.len() >= 4 && data.subrange(0, 4) == idsp_magic() {
        ".idsp"@
    } else {
        ".bin"@
    }
}

impl Nus3audioFile {
    /// An empty container.
    pub fn new() -> (r: Self)
        ensures
            r@ == Seq::<EntryModel>::empty(),
    {
        let r = Nus3audioFile { files: Vec::new() };
        proof {
            assert(r@ =~= Seq::<EntryModel>::empty());
        }
        r
    }
}

impl AudioFile {
    /// An entry with the given id, an empty name and an empty payload.
    pub fn from_id(id: u32) -> (r: Self)
        ensures
            r@.id == id,
            r@.name == Seq::<char>::empty(),
            r@.data == Seq::<u8>::empty(),
    {
        let r = AudioFile { data: Vec::new(), name: String::new(), id };
        proof {
            assert(r@.data =~= Seq::<u8>::empty());
        }
        r
    }

    /// The entry's name with an extension inferred from its payload's first
    /// four bytes.
    pub fn filename(&self) -> (r: String)
        ensures
            r@ == self@.name + ext_of(self@.data),
    {
        let ext: &str = if self.data.len() >= 4 {
            if self.data[0] == 0x4f && self.data[1] == 0x50 && self.data[2] == 0x55
                && self.data[3] == 0x53 {
                proof {
                    assert(self.data@.subrange(0, 4) =~= opus_magic());
                }
                ".lopus"
            } else if self.data[0] == 0x49 && self.data[1] == 0x44 && self.data[2] == 0x53
                && self.data[3] == 0x50 {
                proof {
                    assert(self.data@.subrange(0, 4) =~= idsp_magic());
                    assert(self.data@.subrange(0, 4) != opus_magic());
                }
                ".idsp"
            } else {
                proof {
                    if self.data@.subrange(0, 4) == opus_magic() {
                        assert(self.data@.subrange(0, 4)[0] == 0x4fu8);
                        assert(self.data@.subrange(0, 4)[1] == 0x50u8);
                        assert(self.data@.subrange(0, 4)[2] == 0x55u8);
                        assert(self.data@.subrange(0, 4)[3] == 0x53u8);
                    }
                    if self.data@.subrange(0, 4) == idsp_magic() {
                        assert(self.data@.subrange(0, 4)[0] == 0x49u8);
                        assert(self.data@.subrange(0, 4)[1] == 0x44u8);
                        assert(self.data@.subrange(0, 4)[2] == 0x53u8);
                        assert(self.data@.subrange(0, 4)[3] == 0x50u8);
                    }
                }
                ".bin"
            }
        } else {
            ".bin"
        };
        self.name.clone().concat(ext)
    }
}

} // verus!
