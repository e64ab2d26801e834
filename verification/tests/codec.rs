use kvlog::codec::{read_entry, read_entry_to_vec, read_u32, skip_entry, write_entry};

#[test]
fn framing_round_trip() {
    let mut out = Vec::new();
    write_entry(&mut out, b"hello", b"world");
    assert_eq!(
        out,
        vec![0, 0, 0, 5, 104, 101, 108, 108, 111, 0, 0, 0, 5, 119, 111, 114, 108, 100]
    );

    let mut buf = Vec::new();
    let end = read_entry(out.as_slice(), 0, &mut buf).unwrap();
    assert_eq!(buf, b"hello".to_vec());
    assert_eq!(end, 9);
    let (value, end) = read_entry_to_vec(out.as_slice(), end).unwrap();
    assert_eq!(value, b"world".to_vec());
    assert_eq!(end, out.len());
}

#[test]
fn empty_payload_round_trip() {
    let mut out = Vec::new();
    write_entry(&mut out, b"", b"");
    assert_eq!(out, vec![0, 0, 0, 0, 0, 0, 0, 0]);
    let (key, end) = read_entry_to_vec(out.as_slice(), 0).unwrap();
    assert_eq!(key, Vec::<u8>::new());
    assert_eq!(end, 4);
    let (value, end) = read_entry_to_vec(out.as_slice(), end).unwrap();
    assert_eq!(value, Vec::<u8>::new());
    assert_eq!(end, 8);
}

#[test]
fn read_u32_is_big_endian() {
    let data = [0u8, 0, 1, 2];
    assert_eq!(read_u32(&data, 0), Some((258, 4)));
    let data = [0xffu8, 0xff, 0xff, 0xff];
    assert_eq!(read_u32(&data, 0), Some((u32::MAX, 4)));
}

#[test]
fn read_u32_needs_four_bytes() {
    let data = [1u8, 2, 3];
    assert_eq!(read_u32(&data, 0), None);
    let data = [0u8, 0, 0, 0];
    assert_eq!(read_u32(&data, 1), None);
}

#[test]
fn reads_fail_on_short_payload() {
    // header says four bytes, stream holds two
    let data = [0u8, 0, 0, 4, 9, 9];
    let mut buf = vec![7u8];
    assert_eq!(read_entry(&data, 0, &mut buf), None);
    // a failed read leaves the buffer alone
    assert_eq!(buf, vec![7u8]);
    assert_eq!(skip_entry(&data, 0), None);
}

#[test]
fn skip_steps_over_one_frame() {
    let mut out = Vec::new();
    write_entry(&mut out, b"abc", b"de");
    assert_eq!(skip_entry(out.as_slice(), 0), Some(7));
    assert_eq!(skip_entry(out.as_slice(), 7), Some(13));
}
