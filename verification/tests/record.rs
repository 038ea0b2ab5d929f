use afp_dumper::record::{is_framed, read_record, strip_padding, RecordError, SfRecord};

const SFI_LEN: usize = 8;
const FLAG_EXTENSION: u8 = 0x80;
const FLAG_PADDING: u8 = 0x08;
const FRAME_BYTE: u8 = 0x5a;

fn sf(type_id: &[u8; 3], data: &[u8], flags: u8) -> Vec<u8> {
    let len = (SFI_LEN + data.len()) as u16;
    let mut v = vec![FRAME_BYTE];
    v.extend_from_slice(&len.to_be_bytes());
    v.extend_from_slice(type_id);
    v.push(flags);
    v.extend_from_slice(&[0x00, 0x00]);
    v.extend_from_slice(data);
    v
}

// the record at a hit offset, with the whole file as the window
fn read_at(file: &[u8], offset: u64) -> Result<Option<SfRecord>, RecordError> {
    read_record(file, 0, file.len() as u64, offset, is_framed(file))
}

const NOP: [u8; 3] = [0xd3, 0xee, 0xee];

#[test]
fn reads_record_data_at_a_hit_offset() {
    let blob = sf(&NOP, b"hello", 0x00);
    // offset 3 is where the type id sits behind the X'5A' frame and the
    // two length bytes
    let rec = read_at(&blob, 3).unwrap().unwrap();
    assert_eq!(rec.type_id, NOP);
    assert_eq!(rec.data, b"hello");
}

#[test]
fn rejects_a_hit_inside_payload_bytes() {
    // the NOP id appearing in the middle of another record's data must not
    // decode as a record of its own
    let blob = sf(&[0xd3, 0xee, 0xfb], b"\x00\x08\xd3\xee\xee\x00\x00\x00junk", 0x00);
    let hit = blob
        .windows(3)
        .position(|w| w == NOP)
        .expect("planted id") as u64;
    assert!(read_at(&blob, hit).unwrap().is_none());
}

#[test]
fn strips_trailing_padding() {
    // one byte of padding, length carried in that byte
    let blob = sf(&NOP, b"data\x01", FLAG_PADDING);
    assert_eq!(read_at(&blob, 3).unwrap().unwrap().data, b"data");
}

#[test]
fn strips_long_padding_form() {
    // four pad bytes, length in the last three with a X'00' terminator
    let blob = sf(&NOP, b"data\x00\x00\x04\x00", FLAG_PADDING);
    assert_eq!(read_at(&blob, 3).unwrap().unwrap().data, b"data");
}

#[test]
fn skips_an_sfi_extension() {
    // extension is 3 bytes including its own length byte
    let blob = sf(&NOP, b"\x03\xaa\xbbreal", FLAG_EXTENSION);
    assert_eq!(read_at(&blob, 3).unwrap().unwrap().data, b"real");
}

#[test]
fn rejects_a_length_running_past_end_of_file() {
    let mut blob = sf(&NOP, b"hello", 0x00);
    blob[1] = 0x7f; // absurd SFLength
    blob[2] = 0xff;
    assert!(read_at(&blob, 3).unwrap().is_none());
}

#[test]
fn a_record_must_be_followed_by_a_frame_or_the_end() {
    let mut blob = sf(&NOP, b"one", 0x00);
    blob.extend(sf(&NOP, b"two", 0x00));
    assert_eq!(read_at(&blob, 3).unwrap().unwrap().data, b"one");
    assert_eq!(read_at(&blob, 15).unwrap().unwrap().data, b"two");
    // trailing garbage after the first record breaks its framing
    let mut blob = sf(&NOP, b"one", 0x00);
    blob.push(0x00);
    assert!(read_at(&blob, 3).unwrap().is_none());
}

#[test]
fn unframed_files_have_the_length_first() {
    let blob = sf(&NOP, b"bare", 0x00)[1..].to_vec();
    assert!(!is_framed(&blob));
    let rec = read_record(&blob, 0, blob.len() as u64, 2, false).unwrap().unwrap();
    assert_eq!(rec.data, b"bare");
}

#[test]
fn hits_too_close_to_the_start_are_not_records() {
    let blob = sf(&NOP, b"x", 0x00);
    assert!(read_at(&blob, 0).unwrap().is_none());
    assert!(read_at(&blob, 2).unwrap().is_none());
}

#[test]
fn a_length_below_the_introducer_is_rejected() {
    let mut blob = sf(&NOP, b"abc", 0x00);
    blob[2] = 0x07;
    assert!(read_at(&blob, 3).unwrap().is_none());
}

#[test]
fn a_framed_hit_past_the_end_of_file_is_an_error() {
    let blob = sf(&NOP, b"abc", 0x00);
    let empty: [u8; 0] = [];
    assert_eq!(
        read_record(&empty, blob.len() as u64, blob.len() as u64, blob.len() as u64 + 10, true)
            .err(),
        Some(RecordError::PastEndOfFile)
    );
}

#[test]
fn a_window_of_the_file_reads_like_the_whole_file() {
    let mut blob = vec![FRAME_BYTE; 1];
    blob.extend(vec![0x00; 40]);
    let base = blob.len() as u64;
    blob.extend(sf(&NOP, b"later", 0x00));
    let window = &blob[base as usize..];
    let rec = read_record(window, base, blob.len() as u64, base + 3, true).unwrap().unwrap();
    assert_eq!(rec.data, b"later");
}

#[test]
fn padding_forms() {
    let mut d = b"abc\x02".to_vec();
    strip_padding(&mut d);
    assert_eq!(d, b"ab");
    // a padding length longer than the data is left alone
    let mut d = b"ab\x09".to_vec();
    strip_padding(&mut d);
    assert_eq!(d, b"ab\x09");
    // a short buffer ending in X'00' is left alone
    let mut d = b"\x00".to_vec();
    strip_padding(&mut d);
    assert_eq!(d, b"\x00");
    let mut d: Vec<u8> = Vec::new();
    strip_padding(&mut d);
    assert!(d.is_empty());
}

#[test]
fn framing_is_sniffed_from_the_first_byte() {
    assert!(is_framed(&[0x5a, 0x00]));
    assert!(!is_framed(&[0x00, 0x5a]));
    assert!(!is_framed(&[]));
}
