use nus3audio::{AudioFile, Nus3audioFile};
use nus3audio::decode::Nus3audioError;

fn test_file() -> &'static [u8] {
    b"NUS3x\x00\x00\x00AUDIINDX\x04\x00\x00\x00\x01\x00\x00\x00TNID\x04\x00\x00\x00E\x00\x00\x00NMOF\x04\x00\x00\x00H\x00\x00\x00ADOF\x08\x00\x00\x00p\x00\x00\x00\x05\x00\x00\x00TNNM\n\x00\x00\x00test_name\x00JUNK\x0e\x00\x00\x00\x00\x00\x00\x00\x00\x00\x00\x00\x00\x00\x00\x00\x00\x00PACK\x10\x00\x00\x00test\n\x00\x00\x00\x00\x00\x00\x00\x00\x00\x00\x00"
}

fn repeat_test_file() -> &'static [u8] {
    b"NUS3\x98\x00\x00\x00AUDIINDX\x04\x00\x00\x00\x02\x00\x00\x00TNID\x08\x00\x00\x00\x00\x00\x00\x00\x01\x00\x00\x00NMOF\x08\x00\x00\x00X\x00\x00\x00f\x00\x00\x00ADOF\x10\x00\x00\x00\x90\x00\x00\x00\x07\x00\x00\x00\x90\x00\x00\x00\x07\x00\x00\x00TNNM\x1c\x00\x00\x00repeat_test_1\x00repeat_test_2\x00JUNK\x0c\x00\x00\x00\x00\x00\x00\x00\x00\x00\x00\x00\x00\x00\x00\x00PACK\x10\x00\x00\x00repeat\n\x00\x00\x00\x00\x00\x00\x00\x00\x00"
}

#[test]
fn attempt_parse_test_file() {
    let nus_file = Nus3audioFile::from_bytes(&test_file()[..]);
    assert_eq!(nus_file.files.len(), 1);
    assert_eq!(nus_file.files[0].name, "test_name");
    assert_eq!(nus_file.files[0].data, b"test\n");
    assert_eq!(nus_file.files[0].id, 69);
}

#[test]
fn attempt_parse_repeat_test_file() {
    let nus_file = Nus3audioFile::from_bytes(&repeat_test_file()[..]);
    assert_eq!(nus_file.files.len(), 2);
    assert_eq!(nus_file.files[0].name, "repeat_test_1");
    assert_eq!(nus_file.files[0].data, b"repeat\n");
    assert_eq!(nus_file.files[0].id, 0);
    assert_eq!(nus_file.files.len(), 2);
    assert_eq!(nus_file.files[1].name, "repeat_test_2");
    assert_eq!(nus_file.files[1].data, b"repeat\n");
    assert_eq!(nus_file.files[1].id, 1);
}

#[test]
fn test_write_file() {
    let nus_file = Nus3audioFile::from_bytes(&repeat_test_file()[..]);
    let mut nus_write_file: Vec<u8> = Vec::with_capacity(repeat_test_file().len());
    nus_file.write(&mut nus_write_file);
    assert_eq!(repeat_test_file(), &nus_write_file[..]);
}

#[test]
fn repeat_entries_share_one_adof_pair() {
    let nus_file = Nus3audioFile::from_bytes(&repeat_test_file()[..]);
    assert_eq!(nus_file.files[0].data, nus_file.files[1].data);
    let mut out: Vec<u8> = Vec::new();
    nus_file.write(&mut out);
    // ADOF payload for two entries sits at bytes 64..80: the pairs coincide.
    assert_eq!(out[64..72], out[72..80]);
    // One physical copy: the pack payload is a single padded blob.
    assert_eq!(out.len(), 0x90 + 0x10);
}

#[test]
fn distinct_payloads_are_both_packed() {
    let nus_file = Nus3audioFile {
        files: vec![
            AudioFile { id: 1, name: String::from("a"), data: vec![1, 2, 3] },
            AudioFile { id: 2, name: String::from("b"), data: vec![9, 9, 9] },
        ],
    };
    let mut out: Vec<u8> = Vec::new();
    nus_file.write(&mut out);
    // Two distinct payloads occupy two padded blocks after the pack start.
    assert_eq!(out.len(), 112 + 32);
    assert_ne!(out[64..72], out[72..80]);
}

#[test]
fn duplicate_payloads_share_space() {
    let nus_file = Nus3audioFile {
        files: vec![
            AudioFile { id: 1, name: String::from("a"), data: vec![1, 2, 3] },
            AudioFile { id: 2, name: String::from("b"), data: vec![1, 2, 3] },
        ],
    };
    let mut out: Vec<u8> = Vec::new();
    nus_file.write(&mut out);
    assert_eq!(out.len(), 112 + 16);
    assert_eq!(out[64..72], out[72..80]);
}

#[test]
fn single_entry_encoding_omits_trailing_padding() {
    let nus_file = Nus3audioFile::from_bytes(&test_file()[..]);
    let mut out: Vec<u8> = Vec::new();
    nus_file.write(&mut out);
    // The pack payload starts at 112 and holds exactly the 5 payload bytes.
    assert_eq!(out.len(), 117);
    assert_eq!(&out[104..108], b"PACK");
    assert_eq!(&out[108..112], &[5, 0, 0, 0]);
    assert_eq!(&out[112..117], b"test\n");
    // A second entry with the same payload brings the padding back.
    let two = Nus3audioFile {
        files: vec![
            AudioFile { id: 69, name: String::from("test_name"), data: b"test\n".to_vec() },
            AudioFile { id: 70, name: String::from("other_name"), data: b"test\n".to_vec() },
        ],
    };
    let mut out2: Vec<u8> = Vec::new();
    two.write(&mut out2);
    assert_eq!(out2.len() % 16, 0);
}

#[test]
fn roundtrip_after_encode() {
    let original = Nus3audioFile {
        files: vec![
            AudioFile { id: 7, name: String::from("first"), data: vec![1, 2, 3, 4, 5] },
            AudioFile { id: 7, name: String::from(""), data: vec![] },
            AudioFile { id: 9, name: String::from("third"), data: vec![1, 2, 3, 4, 5] },
        ],
    };
    let mut out: Vec<u8> = Vec::new();
    original.write(&mut out);
    let back = Nus3audioFile::decode(&out).unwrap();
    assert_eq!(back.files.len(), 3);
    for (a, b) in original.files.iter().zip(back.files.iter()) {
        assert_eq!(a.id, b.id);
        assert_eq!(a.name, b.name);
        assert_eq!(a.data, b.data);
    }
}

#[test]
fn empty_container_roundtrip() {
    let empty = Nus3audioFile::new();
    assert_eq!(empty.calc_size(), 80);
    let mut out: Vec<u8> = Vec::new();
    empty.write(&mut out);
    assert_eq!(out.len(), 80);
    let back = Nus3audioFile::decode(&out).unwrap();
    assert_eq!(back.files.len(), 0);
}

#[test]
fn calc_size_of_sample_files() {
    let one = Nus3audioFile::from_bytes(&test_file()[..]);
    // One entry: the unpadded payload length counts.
    assert_eq!(one.calc_size(), 117);
    let two = Nus3audioFile::from_bytes(&repeat_test_file()[..]);
    // The two payloads are byte-identical, so one padded copy is reserved:
    // calc_size reports exactly the re-encoded length.
    assert_eq!(two.calc_size(), 0x90 + 0x10);
    let mut out: Vec<u8> = Vec::new();
    two.write(&mut out);
    assert_eq!(two.calc_size(), out.len());
}

#[test]
fn decode_rejects_bad_magic() {
    let mut buf = test_file().to_vec();
    buf[0] = b'X';
    assert!(matches!(
        Nus3audioFile::decode(&buf),
        Err(Nus3audioError::MalformedContainer)
    ));
}

#[test]
fn decode_rejects_truncated_buffer() {
    assert!(Nus3audioFile::decode(&[]).is_err());
    assert!(Nus3audioFile::decode(&test_file()[..50]).is_err());
}

#[test]
fn decode_rejects_wrong_table_size() {
    let mut buf = test_file().to_vec();
    // The TNID size field at offset 28 must equal four times the count.
    buf[28] = 8;
    assert!(Nus3audioFile::decode(&buf).is_err());
}

#[test]
fn decode_rejects_unknown_tag() {
    let mut buf = test_file().to_vec();
    // Corrupt the JUNK tag.
    let pos = buf.windows(4).position(|w| w == b"JUNK").unwrap();
    buf[pos + 3] = b'X';
    assert!(Nus3audioFile::decode(&buf).is_err());
}

#[test]
fn tone_label_single_entry() {
    let nus_file = Nus3audioFile {
        files: vec![AudioFile { id: 5, name: String::from("Foo"), data: vec![] }],
    };
    assert_eq!(nus_file.calc_tonelabel_size(), 16);
    let mut out: Vec<u8> = Vec::new();
    nus_file.write_tonelabel(&mut out);
    assert_eq!(out.len(), 16);
    assert_eq!(&out[0..4], &[1, 0, 0, 0]);
    assert_eq!(&out[4..8], &[1, 0, 0, 0]);
    let key = u64::from_le_bytes(out[8..16].try_into().unwrap());
    assert_eq!((key & 0xffff_ffff) as u32, crc::crc32::checksum_ieee(b"foo"));
    assert_eq!((key >> 32) & 0xff, 3);
    assert_eq!(key >> 40, 5);
}

#[test]
fn tone_label_folds_case() {
    let upper = Nus3audioFile {
        files: vec![AudioFile { id: 5, name: String::from("Foo"), data: vec![] }],
    };
    let lower = Nus3audioFile {
        files: vec![AudioFile { id: 5, name: String::from("foo"), data: vec![] }],
    };
    let mut a: Vec<u8> = Vec::new();
    let mut b: Vec<u8> = Vec::new();
    upper.write_tonelabel(&mut a);
    lower.write_tonelabel(&mut b);
    assert_eq!(a, b);
}

#[test]
fn tone_label_sorts_by_low_bits() {
    let nus_file = Nus3audioFile {
        files: vec![
            AudioFile { id: 1, name: String::from("zzzz"), data: vec![] },
            AudioFile { id: 2, name: String::from("aaaa"), data: vec![] },
        ],
    };
    let mut out: Vec<u8> = Vec::new();
    nus_file.write_tonelabel(&mut out);
    assert_eq!(out.len(), 24);
    let k0 = u64::from_le_bytes(out[8..16].try_into().unwrap());
    let k1 = u64::from_le_bytes(out[16..24].try_into().unwrap());
    assert!((k0 & 0xff_ffff_ffff) <= (k1 & 0xff_ffff_ffff));
}

#[test]
fn filename_extension_follows_payload_magic() {
    let opus = AudioFile { id: 1, name: String::from("song"), data: b"OPUSxx".to_vec() };
    assert_eq!(opus.filename(), "song.lopus");
    let idsp = AudioFile { id: 2, name: String::from("song"), data: b"IDSP".to_vec() };
    assert_eq!(idsp.filename(), "song.idsp");
    let other = AudioFile { id: 3, name: String::from("song"), data: b"tiny".to_vec() };
    assert_eq!(other.filename(), "song.bin");
    let short = AudioFile { id: 4, name: String::from("song"), data: vec![1] };
    assert_eq!(short.filename(), "song.bin");
}

#[test]
fn from_id_starts_empty() {
    let entry = AudioFile::from_id(42);
    assert_eq!(entry.id, 42);
    assert_eq!(entry.name, "");
    assert!(entry.data.is_empty());
}
