use vpin::vpx::material::{read_padded_cstring, write_padded_cstring_truncate, PaddedCStringError};

#[test]
fn test_padded_cstring() {
    let s = "test";
    let mut bytes: Vec<u8> = Vec::new();
    write_padded_cstring_truncate(s, &mut bytes, 32);
    let read_s = read_padded_cstring(&mut bytes, 32).unwrap();
    assert_eq!(s, read_s);
}

#[test]
fn test_padded_cstring_truncated() {
    let s = "A too long string that should be truncated";
    let mut bytes: Vec<u8> = Vec::new();
    write_padded_cstring_truncate(s, &mut bytes, 8);
    let read_s = read_padded_cstring(&mut bytes, 8).unwrap();
    assert_eq!("A too l", read_s);
}

#[test]
fn padded_cstring_is_latin1_then_zeros_and_reading_takes_the_field() {
    let mut bytes: Vec<u8> = vec![7];
    write_padded_cstring_truncate("M\u{e9}tal", &mut bytes, 8);
    assert_eq!(bytes, vec![7, b'M', 0xe9, b't', b'a', b'l', 0, 0, 0]);
    bytes.extend_from_slice(&[1, 2]);
    let mut field = bytes.split_off(1);
    assert_eq!(read_padded_cstring(&mut field, 8), Ok("M\u{e9}tal".to_string()));
    assert_eq!(field, vec![1, 2]);
}

#[test]
fn padded_cstring_without_nul_is_an_error() {
    let mut bytes: Vec<u8> = vec![b'a', b'b', b'c', 0];
    assert_eq!(read_padded_cstring(&mut bytes, 3), Err(PaddedCStringError));
    assert_eq!(bytes, vec![0]);
}
