use kvs::codec::decode_record;
use kvs::codec::encode_record;
use kvs::codec::Record;
use kvs::make_path;

#[test]
fn put_record_has_the_documented_frame() {
    let rec = Record::Put { key: b"a".to_vec(), value: b"1".to_vec() };
    let bytes = encode_record(&rec);
    // tag 0, key length 1 (little endian), key "a", value length 1, value "1".
    assert_eq!(bytes, vec![0u8, 1, 0, 0, 0, 97, 1, 0, 0, 0, 49]);
}

#[test]
fn remove_record_has_the_documented_frame() {
    let rec = Record::Remove { key: b"ab".to_vec() };
    let bytes = encode_record(&rec);
    assert_eq!(bytes, vec![1u8, 2, 0, 0, 0, 97, 98]);
}

#[test]
fn length_prefix_is_little_endian() {
    let rec = Record::Remove { key: vec![7u8; 258] };
    let bytes = encode_record(&rec);
    assert_eq!(&bytes[..5], &[1u8, 2, 1, 0, 0]);
    assert_eq!(bytes.len(), 5 + 258);
}

#[test]
fn decode_inverts_encode() {
    let rec = Record::Put { key: b"with\nnewline".to_vec(), value: vec![0u8, 255, 10, 0] };
    let bytes = encode_record(&rec);
    let (back, end) = decode_record(&bytes, 0).expect("an encoded record decodes");
    assert_eq!(end, bytes.len());
    match back {
        Record::Put { key, value } => {
            assert_eq!(key, b"with\nnewline".to_vec());
            assert_eq!(value, vec![0u8, 255, 10, 0]);
        }
        Record::Remove { .. } => panic!("decoded the wrong variant"),
    }
}

#[test]
fn decode_walks_consecutive_records() {
    let first = Record::Put { key: b"k".to_vec(), value: b"v".to_vec() };
    let second = Record::Remove { key: b"k".to_vec() };
    let mut bytes = encode_record(&first);
    let boundary = bytes.len();
    bytes.extend_from_slice(&encode_record(&second));

    let (_, end1) = decode_record(&bytes, 0).expect("first record decodes");
    assert_eq!(end1, boundary);
    let (back, end2) = decode_record(&bytes, end1).expect("second record decodes");
    assert_eq!(end2, bytes.len());
    match back {
        Record::Remove { key } => assert_eq!(key, b"k".to_vec()),
        Record::Put { .. } => panic!("decoded the wrong variant"),
    }
}

#[test]
fn decode_rejects_bad_frames() {
    assert!(decode_record(&Vec::new(), 0).is_none());
    assert!(decode_record(&vec![9u8, 0, 0, 0, 0], 0).is_none());
    let rec = Record::Put { key: b"key".to_vec(), value: b"value".to_vec() };
    let mut bytes = encode_record(&rec);
    bytes.pop();
    assert!(decode_record(&bytes, 0).is_none());
    // An offset inside a frame is not a record boundary: here it lands on the
    // key-length field, whose low byte is no known tag.
    let whole = encode_record(&rec);
    assert!(decode_record(&whole, 1).is_none());
}

#[test]
fn make_path_joins_the_log_file_name() {
    assert_eq!(make_path("/tmp/kv"), "/tmp/kv/commands.log".to_string());
}
