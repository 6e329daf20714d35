use our_fractal_core::codec::{u128_to_slice, u128_to_u32slice, u32_to_slice};
use our_fractal_core::{BinaryManager, DbError, Mode};

#[test]
fn u32_to_slice_test() {
    let tag: u32 = 0x2010_0010;
    let mut buf: Vec<u8> = Vec::new();
    let copy = u32_to_slice(tag, &mut buf, 24).unwrap();
    assert_eq!(buf, vec![0x20, 0x10, 0x00, 0x10]);
    assert_eq!(copy, buf);
}

#[test]
fn u128_to_u32slice_test() {
    let tag: u128 = 0x1010_0010_2010_0010_3010_0010_4010_0010;
    let mut buf: Vec<u32> = Vec::new();
    u128_to_u32slice(tag, &mut buf, 96).unwrap();
    assert_eq!(buf, vec![0x1010_0010, 0x2010_0010, 0x3010_0010, 0x4010_0010]);
}

#[test]
fn u128_to_slice_test() {
    let mut buf: Vec<u8> = vec![0xee];
    u128_to_slice(0x0102_0304_0506_0708_090a_0b0c_0d0e_0f10, &mut buf, 120).unwrap();
    assert_eq!(buf, vec![0xee, 1, 2, 3, 4, 5, 6, 7, 8, 9, 10, 11, 12, 13, 14, 15, 16]);
}

#[test]
fn slices_from_a_lower_digit_are_shorter() {
    let mut buf: Vec<u8> = Vec::new();
    u32_to_slice(0x1234_5678, &mut buf, 8).unwrap();
    assert_eq!(buf, vec![0x56, 0x78]);
    let mut buf: Vec<u8> = Vec::new();
    u32_to_slice(0x1234_5678, &mut buf, 4).unwrap();
    assert_eq!(buf, vec![0x67]);
}

#[test]
fn primitives_are_written_most_significant_byte_first() {
    let mut b = BinaryManager::new();
    b.add_u32(0x0102_0304).unwrap();
    b.add_u8(0xaa);
    b.add_bool(true);
    b.add_bool(false);
    b.add_usize(0x0506);
    assert_eq!(
        b.write(),
        vec![1, 2, 3, 4, 0xaa, 1, 0, 0, 0, 0, 0, 0, 0, 0, 0, 0, 0, 0, 0, 0, 0, 5, 6]
    );
}

#[test]
fn a_string_is_written_with_its_length_in_bytes() {
    let mut b = BinaryManager::new();
    b.add_str(&format!("aé")).unwrap();
    assert_eq!(
        b.write(),
        vec![0, 0, 0, 0, 0, 0, 0, 0, 0, 0, 0, 0, 0, 0, 0, 3, 0x61, 0xc3, 0xa9]
    );
}

#[test]
fn checksum_is_the_sum_modulo_256() {
    let mut b = BinaryManager::new();
    assert_eq!(b.check_sum(), Ok(0));
    b.add_u8(0xff);
    b.add_u8(0x02);
    assert_eq!(b.check_sum(), Ok(0x01));
    b.add_u8(0xff);
    assert_eq!(b.check_sum(), Ok(0x00));
}

#[test]
fn a_closed_scope_is_a_record() {
    let mut b = BinaryManager::new();
    b.create_child(Mode::Write);
    b.get_child().unwrap().add_start_data();
    b.get_child().unwrap().add_u32(0x20).unwrap();
    b.get_child().unwrap().add_u8(7);
    b.end_child_and_add_data().unwrap();
    assert_eq!(b.write(), vec![0, 2, 0, 0, 0, 0x20, 7, 3, 0x27]);
    assert!(b.child.is_empty());
}

#[test]
fn end_data_returns_the_whole_buffer() {
    let mut b = BinaryManager::new();
    b.add_start_data();
    b.add_u8(0x10);
    assert_eq!(b.add_end_data().unwrap(), vec![0, 2, 0x10, 3, 0x10]);
}

#[test]
fn without_a_scope_there_is_nothing_to_close() {
    let mut b = BinaryManager::new();
    assert_eq!(b.get_child().err(), Some(DbError::MissingChild));
    assert_eq!(b.end_child_and_add_data(), Err(DbError::MissingChild));
    assert_eq!(b.read_child(), Err(DbError::MissingChild));
}

#[test]
fn scanning_stops_at_markers() {
    let mut b = BinaryManager::new();
    b.read_to_end(&[9, 9, 0, 2, 5, 3, 1]);
    assert!(b.next_stx_index());
    assert_eq!(b.index, 3);
    assert!(b.next_stx_index());
    assert_eq!(b.index, 3);
    b.index = 4;
    assert!(!b.next_stx_index());
    assert_eq!(b.index, 5);
    b.index = 6;
    assert!(!b.next_stx_index());
    assert_eq!(b.index, 7);
}

#[test]
fn reading_primitives() {
    let mut b = BinaryManager::new();
    let mut bytes = vec![0xab, 0x12, 0x34, 0x56, 0x78];
    bytes.extend_from_slice(&[0, 0, 0, 0, 0, 0, 0, 0, 0, 0, 0, 0, 0, 0, 1, 2]);
    bytes.extend_from_slice(&[7, 8, 9]);
    b.read_to_end(&bytes);
    assert_eq!(b.read_u8(), Ok(0xab));
    assert_eq!(b.read_u32(), Ok(0x1234_5678));
    assert_eq!(b.read_u128(), Ok(0x0102));
    assert_eq!(b.read_u8_vec(2), Ok(vec![7, 8]));
    assert_eq!(b.read_u8_vec(2), Err(DbError::Truncated));
    assert_eq!(b.read_u8(), Ok(9));
    assert_eq!(b.read_u8(), Err(DbError::Truncated));
    assert_eq!(b.read_u32(), Err(DbError::Truncated));
    assert_eq!(b.read_u128(), Err(DbError::Truncated));
}

#[test]
fn reading_a_string() {
    let mut b = BinaryManager::new();
    b.add_str(&format!("taro")).unwrap();
    b.add_u8(0x55);
    let bytes = b.write();
    let mut r = BinaryManager::new();
    r.read_to_end(&bytes);
    assert_eq!(r.read_str(), Ok(format!("taro")));
    assert_eq!(r.index, 20);
    assert_eq!(r.read_u8(), Ok(0x55));
}

#[test]
fn a_string_that_is_cut_off_or_not_utf8_is_refused() {
    let mut bytes = vec![0u8; 15];
    bytes.push(4);
    bytes.extend_from_slice(b"tar");
    let mut r = BinaryManager::new();
    r.read_to_end(&bytes);
    assert_eq!(r.read_str(), Err(DbError::Truncated));
    assert_eq!(r.index, 0);

    let mut bytes = vec![0u8; 15];
    bytes.push(2);
    bytes.extend_from_slice(&[0xff, 0xfe]);
    let mut r = BinaryManager::new();
    r.read_to_end(&bytes);
    assert_eq!(r.read_str(), Err(DbError::InvalidUtf8));
    assert_eq!(r.index, 0);

    let mut r = BinaryManager::new();
    r.read_to_end(&[0xff; 16]);
    assert_eq!(r.read_field(), Err(DbError::Truncated));
}

#[test]
fn a_read_scope_sees_the_unread_bytes() {
    let mut b = BinaryManager::new();
    b.read_to_end(&[9, 0, 2, 0x10, 3, 0x10, 0, 2]);
    assert!(b.next_stx_index());
    b.create_child(Mode::Read);
    assert_eq!(b.get_child().unwrap().buf, vec![2, 0x10, 3, 0x10, 0, 2]);
    assert_eq!(b.get_child().unwrap().read_u8(), Ok(2));
    assert_eq!(b.get_child().unwrap().read_u8(), Ok(0x10));
    assert_eq!(b.get_child().unwrap().read_u8(), Ok(3));
    assert_eq!(b.read_child(), Ok(()));
    assert_eq!(b.index, 6);
    assert!(b.next_stx_index());
    assert_eq!(b.index, 7);
}

#[test]
fn a_wrong_checksum_is_refused() {
    let mut b = BinaryManager::new();
    b.read_to_end(&[2, 0x10, 3, 0x15]);
    b.create_child(Mode::Read);
    b.get_child().unwrap().index = 3;
    assert_eq!(b.read_child(), Err(DbError::ChecksumMismatch));
    assert_eq!(b.index, 0);

    let mut c = BinaryManager::new();
    c.read_to_end(&[2, 0x10, 3, 0x10]);
    c.index = 3;
    assert_eq!(c.read_check_sum(), Ok(3));
    assert_eq!(c.buf, vec![2, 0x10, 3]);

    let mut d = BinaryManager::new();
    d.read_to_end(&[2, 0x10, 3]);
    d.index = 3;
    assert_eq!(d.read_check_sum(), Err(DbError::Truncated));
}

#[test]
fn read_str_value_gives_the_length_in_words() {
    let mut bytes = vec![0u8; 15];
    bytes.push(1);
    bytes.extend_from_slice(&[1, 2, 3, 4, 5]);
    let mut r = BinaryManager::new();
    r.read_to_end(&bytes);
    assert_eq!(r.read_str_value(), Ok(vec![0, 0, 0, 1]));
    assert_eq!(r.index, 21);

    let mut bytes = vec![0u8; 15];
    bytes.push(1);
    bytes.extend_from_slice(&[1, 2, 3, 4]);
    let mut r = BinaryManager::new();
    r.read_to_end(&bytes);
    assert_eq!(r.read_str_value(), Err(DbError::Truncated));
    assert_eq!(r.index, 0);
}
