use veloci::doc_loader::{decode_offsets, DocError, DocLoader, Persistence};

#[test]
fn bounds_come_from_the_loaded_offsets() {
    let mut p = Persistence::new();
    assert_eq!(DocLoader::doc_bounds(&p, 0), Err(DocError::NotLoaded));
    DocLoader::load(&mut p, vec![0, 10, 25, 25, 40]);
    assert_eq!(DocLoader::doc_bounds(&p, 0), Ok((0, 10)));
    assert_eq!(DocLoader::doc_bounds(&p, 1), Ok((10, 25)));
    assert_eq!(DocLoader::doc_bounds(&p, 2), Ok((25, 25)));
    assert_eq!(DocLoader::doc_bounds(&p, 3), Ok((25, 40)));
    assert_eq!(DocLoader::doc_bounds(&p, 4), Err(DocError::OutOfRange));
    assert_eq!(DocLoader::doc_bounds(&p, usize::MAX), Err(DocError::OutOfRange));
}

#[test]
fn inverted_offsets_are_refused() {
    let mut p = Persistence::new();
    DocLoader::load(&mut p, vec![10, 5]);
    assert_eq!(DocLoader::doc_bounds(&p, 0), Err(DocError::Inverted));
}

#[test]
fn a_later_load_replaces_the_offsets() {
    let mut p = Persistence::new();
    DocLoader::load(&mut p, vec![0, 1]);
    DocLoader::load(&mut p, vec![5, 9, 12]);
    assert_eq!(DocLoader::doc_bounds(&p, 1), Ok((9, 12)));
}

#[test]
fn indices_are_kept_by_path() {
    let mut p = Persistence::new();
    p.insert_index_64("a".to_string(), vec![1]);
    p.insert_index_64("b".to_string(), vec![2, 3]);
    p.insert_index_64("a".to_string(), vec![4]);
    assert_eq!(p.get_index_64(&"a".to_string()), Some(&vec![4]));
    assert_eq!(p.get_index_64(&"b".to_string()), Some(&vec![2, 3]));
    assert_eq!(p.get_index_64(&"c".to_string()), None);
}

#[test]
fn offsets_files_hold_little_endian_u64s() {
    let bytes = [1u8, 0, 0, 0, 0, 0, 0, 0, 0, 1, 0, 0, 0, 0, 0, 0, 0xff, 0xff, 0xff, 0xff, 0xff, 0xff, 0xff, 0xff];
    assert_eq!(decode_offsets(&bytes), Some(vec![1, 256, u64::MAX]));
    assert_eq!(decode_offsets(&[]), Some(vec![]));
    assert_eq!(decode_offsets(&bytes[..7]), None);
    assert_eq!(decode_offsets(&bytes[..9]), None);
}
