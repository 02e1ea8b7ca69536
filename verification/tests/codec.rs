use runtime_storage::codec::{decode, encode, Codec, DecodeError, DefaultValue};
use runtime_storage::endian::{read_le, write_le};

#[test]
fn integers_are_little_endian() {
    assert_eq!(encode(&7u8), vec![7]);
    assert_eq!(encode(&0x0102u16), vec![2, 1]);
    assert_eq!(encode(&1u32), vec![1, 0, 0, 0]);
    assert_eq!(encode(&0x0102030405060708u64), vec![8, 7, 6, 5, 4, 3, 2, 1]);
}

#[test]
fn bool_is_one_byte() {
    assert_eq!(encode(&false), vec![0]);
    assert_eq!(encode(&true), vec![1]);
    assert_eq!(decode::<bool>(&[0]), Ok(false));
    assert_eq!(decode::<bool>(&[1]), Ok(true));
    assert_eq!(decode::<bool>(&[2]), Err(DecodeError));
}

#[test]
fn option_is_tagged() {
    assert_eq!(encode(&None::<u16>), vec![0]);
    assert_eq!(encode(&Some(7u16)), vec![1, 7, 0]);
    assert_eq!(decode::<Option<u16>>(&[0]), Ok(None));
    assert_eq!(decode::<Option<u16>>(&[1, 7, 0]), Ok(Some(7)));
    assert_eq!(decode::<Option<u16>>(&[3, 7, 0]), Err(DecodeError));
    assert_eq!(decode::<Option<u16>>(&[1, 7]), Err(DecodeError));
}

#[test]
fn pair_is_its_parts_in_order() {
    assert_eq!(encode(&(true, 5u8)), vec![1, 5]);
    assert_eq!(encode(&(0x0102u16, (3u8, false))), vec![2, 1, 3, 0]);
    assert_eq!(decode::<(bool, u8)>(&[1, 5]), Ok((true, 5)));
}

#[test]
fn sequence_is_length_prefixed() {
    assert_eq!(encode(&vec![1u8, 2]), vec![2, 0, 0, 0, 0, 0, 0, 0, 1, 2]);
    assert_eq!(encode(&Vec::<u32>::new()), vec![0, 0, 0, 0, 0, 0, 0, 0]);
    assert_eq!(decode::<Vec<u8>>(&[2, 0, 0, 0, 0, 0, 0, 0, 1, 2]), Ok(vec![1, 2]));
}

#[test]
fn round_trip_of_nested_values() {
    let value: Vec<(Option<Vec<u8>>, (u32, bool))> = vec![
        (None, (0, false)),
        (Some(vec![]), (1, true)),
        (Some(vec![9, 8, 7]), (u32::MAX, true)),
    ];
    let bytes = encode(&value);
    assert_eq!(decode::<Vec<(Option<Vec<u8>>, (u32, bool))>>(&bytes), Ok(value));
}

#[test]
fn round_trip_of_integers() {
    for v in [0u64, 1, 255, 256, 65535, 65536, u32::MAX as u64, u64::MAX] {
        assert_eq!(decode::<u64>(&encode(&v)), Ok(v));
    }
    for v in [0u32, 1, 255, 256, 65535, 65536, u32::MAX] {
        assert_eq!(decode::<u32>(&encode(&v)), Ok(v));
    }
    for v in [0u16, 1, 255, 256, u16::MAX] {
        assert_eq!(decode::<u16>(&encode(&v)), Ok(v));
    }
    for v in [0u8, 1, 255] {
        assert_eq!(decode::<u8>(&encode(&v)), Ok(v));
    }
}

#[test]
fn truncated_input_is_rejected() {
    assert_eq!(decode::<u32>(&[1, 0, 0]), Err(DecodeError));
    assert_eq!(decode::<u64>(&[]), Err(DecodeError));
    assert_eq!(decode::<Vec<u8>>(&[2, 0, 0, 0, 0, 0, 0, 0, 1]), Err(DecodeError));
    assert_eq!(decode::<Vec<u8>>(&[2, 0, 0, 0]), Err(DecodeError));
    assert_eq!(decode::<(u8, u16)>(&[1, 2]), Err(DecodeError));
}

#[test]
fn trailing_bytes_are_rejected() {
    assert_eq!(decode::<u8>(&[1, 2]), Err(DecodeError));
    assert_eq!(decode::<u32>(&[1, 0, 0, 0, 0]), Err(DecodeError));
    assert_eq!(decode::<Vec<u8>>(&[1, 0, 0, 0, 0, 0, 0, 0, 1, 2]), Err(DecodeError));
}

#[test]
fn huge_length_is_rejected_without_panic() {
    let bytes = [255, 255, 255, 255, 255, 255, 255, 255, 1, 2, 3];
    assert_eq!(decode::<Vec<u8>>(&bytes), Err(DecodeError));
}

#[test]
fn distinct_values_have_distinct_encodings() {
    let a = encode(&(vec![1u8], vec![2u8, 3]));
    let b = encode(&(vec![1u8, 2], vec![3u8]));
    assert_ne!(a, b);
}

#[test]
fn little_endian_bytes_of_a_width() {
    let mut out = vec![9u8];
    write_le(&mut out, 0x0102030405060708, 8);
    assert_eq!(out, vec![9, 8, 7, 6, 5, 4, 3, 2, 1]);
    let mut low = Vec::new();
    write_le(&mut low, 0x0102030405060708, 3);
    assert_eq!(low, vec![8, 7, 6]);
    let mut none = Vec::new();
    write_le(&mut none, 77, 0);
    assert_eq!(none, Vec::<u8>::new());
    assert_eq!(read_le(&[9, 8, 7, 6, 5, 4, 3, 2, 1], 1, 8), 0x0102030405060708);
    assert_eq!(read_le(&[9, 8, 7, 6], 1, 2), 0x0708);
    assert_eq!(read_le(&[9, 8, 7, 6], 4, 0), 0);
    assert_eq!(read_le(&[255; 8], 0, 8), u64::MAX);
}

#[test]
fn default_values() {
    assert_eq!(<u8 as DefaultValue>::default_value(), 0);
    assert_eq!(<u16 as DefaultValue>::default_value(), 0);
    assert_eq!(<u32 as DefaultValue>::default_value(), 0);
    assert_eq!(<u64 as DefaultValue>::default_value(), 0);
    assert_eq!(<bool as DefaultValue>::default_value(), false);
    assert_eq!(<Option<u8> as DefaultValue>::default_value(), None);
    assert_eq!(<Vec<u8> as DefaultValue>::default_value(), Vec::<u8>::new());
    assert_eq!(<(u8, bool) as DefaultValue>::default_value(), (0, false));
}

#[test]
fn decode_at_reads_one_value_and_tells_where_it_ends() {
    let bytes = [7u8, 1, 0, 0, 0, 1, 9];
    assert_eq!(<u32 as Codec>::decode_at(&bytes, 1), Some((1, 5)));
    assert_eq!(<Option<u8> as Codec>::decode_at(&bytes, 5), Some((Some(9), 7)));
    assert_eq!(<u32 as Codec>::decode_at(&bytes, 4), None);
    assert_eq!(<u8 as Codec>::decode_at(&bytes, 7), None);
    let mut out = vec![0u8];
    5u16.encode_to(&mut out);
    assert_eq!(out, vec![0, 5, 0]);
}
