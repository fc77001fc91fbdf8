use veloci::compact::{read_u32, read_u32_seq, write_u32, write_u32_seq, CompactError};

#[test]
fn test_struct_u32() {
    // A struct of two u32 fields is its fields one after another.
    let mut encoded: Vec<u8> = vec![];
    write_u32(&mut encoded, 5);
    write_u32(&mut encoded, 5);
    // 1 bytes each u32
    assert_eq!(encoded.len(), 2);
    let (a, pos) = read_u32(&encoded, 0).unwrap();
    let (b, end) = read_u32(&encoded, pos).unwrap();
    assert_eq!((a, b, end), (5, 5, 2));
}

#[test]
fn test_tuple_u32() {
    let test: (u32, u32) = (5, 5);
    let mut encoded: Vec<u8> = vec![];
    write_u32(&mut encoded, test.0);
    write_u32(&mut encoded, test.1);
    // 1 bytes each u32
    assert_eq!(encoded.len(), 2);
    let (a, pos) = read_u32(&encoded, 0).unwrap();
    let (b, _) = read_u32(&encoded, pos).unwrap();
    let decoded: (u32, u32) = (a, b);
    assert_eq!(test, decoded);
}

#[test]
fn test_vec_u32() {
    let test: Vec<u32> = vec![5, 5];
    let mut encoded: Vec<u8> = vec![];
    write_u32_seq(&mut encoded, &test).unwrap();
    // 1 bytes each u32
    assert_eq!(encoded.len(), 3);
    let (decoded, end) = read_u32_seq(&encoded, 0).unwrap();
    assert_eq!(end, 3);
    assert_eq!(test, decoded);
}

fn encode(v: u32) -> Vec<u8> {
    let mut out = vec![];
    write_u32(&mut out, v);
    out
}

#[test]
fn varint_sizes() {
    assert_eq!(encode(0), vec![0]);
    assert_eq!(encode(127), vec![127]);
    assert_eq!(encode(128), vec![0x80, 0x01]);
    assert_eq!(encode(300), vec![0xac, 0x02]);
    assert_eq!(encode(16383).len(), 2);
    assert_eq!(encode(16384).len(), 3);
    assert_eq!(encode((1 << 21) - 1).len(), 3);
    assert_eq!(encode(1 << 21).len(), 4);
    assert_eq!(encode((1 << 28) - 1).len(), 4);
    assert_eq!(encode(1 << 28).len(), 5);
    assert_eq!(encode(u32::MAX), vec![0xff, 0xff, 0xff, 0xff, 0x0f]);
}

#[test]
fn varints_read_back() {
    let values = [0u32, 1, 5, 127, 128, 500, 5000, 16383, 16384, 2_097_151, 2_097_152, 4_000_000_000, u32::MAX];
    let mut data = vec![9u8, 9];
    let mut starts = vec![];
    for v in values.iter() {
        starts.push(data.len());
        write_u32(&mut data, *v);
    }
    for (i, v) in values.iter().enumerate() {
        let (got, end) = read_u32(&data, starts[i]).unwrap();
        assert_eq!(got, *v);
        assert_eq!(end, if i + 1 < starts.len() { starts[i + 1] } else { data.len() });
    }
}

#[test]
fn truncated_data_is_refused() {
    assert_eq!(read_u32(&[], 0), Err(CompactError::UnexpectedEnd));
    assert_eq!(read_u32(&[0x80], 0), Err(CompactError::UnexpectedEnd));
    assert_eq!(read_u32(&[0x80, 0x80], 0), Err(CompactError::UnexpectedEnd));
    assert_eq!(read_u32(&[1, 2], 2), Err(CompactError::UnexpectedEnd));
    assert_eq!(read_u32(&[1, 2], 7), Err(CompactError::UnexpectedEnd));
    assert_eq!(read_u32_seq(&[2, 5], 0), Err(CompactError::UnexpectedEnd));
    // A fifth byte ends the varint whatever its high bit says.
    assert_eq!(read_u32(&[0xff, 0xff, 0xff, 0xff, 0xff, 0x00], 0), Ok((u32::MAX, 5)));
}

#[test]
fn sequences_read_back_with_trailing_data() {
    let test: Vec<u32> = vec![0, 300, u32::MAX, 7];
    let mut encoded = vec![42u8];
    write_u32_seq(&mut encoded, &test).unwrap();
    let end_of_seq = encoded.len();
    write_u32(&mut encoded, 99);
    let (decoded, end) = read_u32_seq(&encoded, 1).unwrap();
    assert_eq!(decoded, test);
    assert_eq!(end, end_of_seq);
    let mut empty = vec![];
    write_u32_seq(&mut empty, &[]).unwrap();
    assert_eq!(empty, vec![0]);
    assert_eq!(read_u32_seq(&empty, 0), Ok((vec![], 1)));
}
