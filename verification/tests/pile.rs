use triblespace::repo::pile::{
    branch_record, padding_for_blob, BlobMetadata, GetBlobError, Pile, ReadError, MAGIC_MARKER_BLOB,
};
use triblespace::repo::PushResult;

const MAX_PILE_SIZE: usize = 1 << 20;

/// Appends `data` as a blob to the pile and its file, as a writer would.
fn put(pile: &mut Pile<MAX_PILE_SIZE>, file: &mut Vec<u8>, data: &[u8], ts: u64) -> [u8; 32] {
    let (hash, rec) = pile.put(data, ts);
    if let Some(rec) = rec {
        file.extend_from_slice(&rec);
        pile.put_written(&hash, data.len() as u64, ts);
    }
    hash
}

#[test]
fn recover_shrink() {
    let mut file = Vec::new();
    let mut pile: Pile<MAX_PILE_SIZE> = Pile::new();
    put(&mut pile, &mut file, &[1u8; 20], 1);
    let len = file.len();
    file.truncate(len - 10);
    let mut reopened: Pile<MAX_PILE_SIZE> = Pile::new();
    let valid = match reopened.refresh(&file) {
        Err(ReadError::CorruptPile { valid_length }) => valid_length,
        _ => panic!("expected a corrupt pile"),
    };
    file.truncate(valid);
    let mut again: Pile<MAX_PILE_SIZE> = Pile::new();
    assert!(again.refresh(&file).is_ok());
    assert_eq!(file.len(), 0);
}

#[test]
fn try_open_corrupt_reports_length() {
    let mut file = Vec::new();
    let mut pile: Pile<MAX_PILE_SIZE> = Pile::new();
    put(&mut pile, &mut file, &[1u8; 20], 1);
    let len = file.len();
    file.truncate(len - 10);
    let mut reopened: Pile<MAX_PILE_SIZE> = Pile::new();
    match reopened.refresh(&file) {
        Err(ReadError::CorruptPile { valid_length }) => assert_eq!(valid_length, 0),
        other => panic!("unexpected result: {other:?}"),
    }
}

#[test]
fn open_truncates_unknown_magic() {
    let mut file = Vec::new();
    let mut pile: Pile<MAX_PILE_SIZE> = Pile::new();
    put(&mut pile, &mut file, &[1u8; 20], 1);
    let valid_len = file.len();
    file.extend_from_slice(&[0u8; 16]);
    let mut reopened: Pile<MAX_PILE_SIZE> = Pile::new();
    let valid = match reopened.refresh(&file) {
        Err(ReadError::CorruptPile { valid_length }) => valid_length,
        _ => panic!("expected a corrupt pile"),
    };
    file.truncate(valid);
    assert_eq!(file.len(), valid_len);
}

#[test]
fn try_open_partial_header_reports_length() {
    let mut file = Vec::new();
    let mut pile: Pile<MAX_PILE_SIZE> = Pile::new();
    put(&mut pile, &mut file, &[1u8; 20], 1);
    let file_len = file.len();
    file.extend_from_slice(&[0u8; 8]);
    let mut reopened: Pile<MAX_PILE_SIZE> = Pile::new();
    match reopened.refresh(&file) {
        Err(ReadError::CorruptPile { valid_length }) => assert_eq!(valid_length as u64, file_len as u64),
        other => panic!("unexpected result: {other:?}"),
    }
}

#[test]
fn refresh_errors_on_malformed_append() {
    let mut file = Vec::new();
    let mut pile: Pile<MAX_PILE_SIZE> = Pile::new();
    put(&mut pile, &mut file, &[1u8; 4], 1);
    assert!(pile.refresh(&file).is_ok());
    file.extend_from_slice(b"garbage");
    assert!(pile.refresh(&file).is_err());
}

#[test]
fn put_and_get_preserves_blob_bytes() {
    let mut file = Vec::new();
    let mut pile: Pile<MAX_PILE_SIZE> = Pile::new();
    let data = vec![42u8; 100];
    let hash = put(&mut pile, &mut file, &data, 7);
    assert!(pile.refresh(&file).is_ok());
    let fetched = pile.get(&file, &hash).unwrap();
    assert_eq!(fetched, data);
    let mut reopened: Pile<MAX_PILE_SIZE> = Pile::new();
    assert!(reopened.refresh(&file).is_ok());
    assert_eq!(reopened.get(&file, &hash).unwrap(), data);
}

#[test]
fn put_duplicate_blob_does_not_grow_file() {
    let mut file = Vec::new();
    let mut pile: Pile<MAX_PILE_SIZE> = Pile::new();
    let data = vec![9u8; 32];
    let h1 = put(&mut pile, &mut file, &data, 1);
    let len_after_first = file.len();
    let h2 = put(&mut pile, &mut file, &data, 2);
    assert_eq!(h1, h2);
    assert_eq!(len_after_first, file.len());
}

#[test]
fn metadata_reports_blob_length() {
    let mut file = Vec::new();
    let mut pile: Pile<MAX_PILE_SIZE> = Pile::new();
    let data = vec![7u8; 16];
    let hash = put(&mut pile, &mut file, &data, 11);
    let meta = pile.metadata(&hash).expect("metadata");
    assert_eq!(meta.length, data.len() as u64);
    assert!(pile.refresh(&file).is_ok());
    assert_eq!(pile.metadata(&hash), Some(BlobMetadata { timestamp: 11, length: 16 }));
}

#[test]
fn in_flight_blob_is_not_found_until_read_back() {
    let mut file = Vec::new();
    let mut pile: Pile<MAX_PILE_SIZE> = Pile::new();
    let hash = put(&mut pile, &mut file, &[5u8; 3], 1);
    assert!(matches!(pile.get(&file, &hash), Err(GetBlobError::BlobNotFound)));
    assert!(pile.refresh(&file).is_ok());
    assert_eq!(pile.get(&file, &hash).unwrap(), vec![5u8; 3]);
}

#[test]
fn corrupted_blob_bytes_fail_validation() {
    let mut file = Vec::new();
    let mut pile: Pile<MAX_PILE_SIZE> = Pile::new();
    let hash = put(&mut pile, &mut file, &[5u8; 3], 1);
    file[64] = 6;
    let mut reopened: Pile<MAX_PILE_SIZE> = Pile::new();
    assert!(reopened.refresh(&file).is_ok());
    match reopened.get(&file, &hash) {
        Err(GetBlobError::ValidationError(bytes)) => assert_eq!(bytes, vec![6u8, 5, 5]),
        other => panic!("unexpected result: {other:?}"),
    }
}

#[test]
fn update_conflict_returns_current_head() {
    let mut file = Vec::new();
    let mut pile: Pile<MAX_PILE_SIZE> = Pile::new();
    let h1 = put(&mut pile, &mut file, &[1u8; 5], 1);
    let h2 = put(&mut pile, &mut file, &[2u8; 5], 2);
    let branch_id = [1u8; 16];
    assert_eq!(pile.update(&branch_id, None, &h1), PushResult::Success());
    file.extend_from_slice(&branch_record(&branch_id, &h1));
    match pile.update(&branch_id, Some(h2), &h1) {
        PushResult::Conflict(existing) => assert_eq!(existing, Some(h1)),
        other => panic!("unexpected result: {other:?}"),
    }
    assert_eq!(pile.head(&branch_id), Some(h1));
}

#[test]
fn branch_update_conflict_returns_existing_head() {
    let mut file = Vec::new();
    let mut pile: Pile<MAX_PILE_SIZE> = Pile::new();
    let h1 = put(&mut pile, &mut file, &[1u8; 8], 1);
    let h2 = put(&mut pile, &mut file, &[2u8; 8], 2);
    let branch_id = [3u8; 16];
    assert_eq!(pile.update(&branch_id, None, &h1), PushResult::Success());
    match pile.update(&branch_id, Some(h2), &h2) {
        PushResult::Conflict(existing) => assert_eq!(existing, Some(h1)),
        other => panic!("expected conflict, got {other:?}"),
    }
    assert_eq!(pile.head(&branch_id), Some(h1));
}

#[test]
fn insert_after_branch_preserves_head() {
    let mut file = Vec::new();
    let mut pile: Pile<MAX_PILE_SIZE> = Pile::new();
    let h1 = put(&mut pile, &mut file, &[1u8; 5], 1);
    let branch_id = [1u8; 16];
    assert_eq!(pile.update(&branch_id, None, &h1), PushResult::Success());
    file.extend_from_slice(&branch_record(&branch_id, &h1));
    put(&mut pile, &mut file, &[2u8; 5], 2);
    let mut reopened: Pile<MAX_PILE_SIZE> = Pile::new();
    assert!(reopened.refresh(&file).is_ok());
    assert_eq!(reopened.head(&branch_id), Some(h1));
}

#[test]
fn blob_after_branch_is_clean() {
    let mut file = Vec::new();
    let mut pile: Pile<MAX_PILE_SIZE> = Pile::new();
    let branch_id = [1u8; 16];
    let head = [2u8; 32];
    assert_eq!(pile.update(&branch_id, None, &head), PushResult::Success());
    file.extend_from_slice(&branch_record(&branch_id, &head));
    pile.branch_written(file.len());
    let data = vec![3u8; 8];
    let hash = put(&mut pile, &mut file, &data, 3);
    assert!(pile.refresh(&file).is_ok());
    assert_eq!(pile.get(&file, &hash).unwrap(), data);
}

#[test]
fn nil_branch_id_is_corrupt() {
    let mut file = Vec::new();
    file.extend_from_slice(&branch_record(&[0u8; 16], &[1u8; 32]));
    let mut pile: Pile<MAX_PILE_SIZE> = Pile::new();
    match pile.refresh(&file) {
        Err(ReadError::CorruptPile { valid_length }) => assert_eq!(valid_length, 0),
        other => panic!("unexpected result: {other:?}"),
    }
}

#[test]
fn pile_too_large() {
    let file = vec![0u8; 128];
    let mut pile: Pile<64> = Pile::new();
    assert!(matches!(pile.refresh(&file), Err(ReadError::PileTooLarge)));
}

#[test]
fn branches_lists_each_branch_once() {
    let mut pile: Pile<MAX_PILE_SIZE> = Pile::new();
    assert_eq!(pile.update(&[1u8; 16], None, &[9u8; 32]), PushResult::Success());
    assert_eq!(pile.update(&[2u8; 16], None, &[9u8; 32]), PushResult::Success());
    assert_eq!(pile.update(&[1u8; 16], Some([9u8; 32]), &[8u8; 32]), PushResult::Success());
    let mut it = pile.branches();
    let mut ids = Vec::new();
    while let Some(id) = it.next() {
        ids.push(id);
    }
    ids.sort();
    assert_eq!(ids, vec![[1u8; 16], [2u8; 16]]);
    assert_eq!(pile.head(&[1u8; 16]), Some([8u8; 32]));
}

#[test]
fn blob_record_layout() {
    let mut pile: Pile<MAX_PILE_SIZE> = Pile::new();
    let mut file = Vec::new();
    let hash = put(&mut pile, &mut file, &[0xAB; 3], 0x0102);
    assert_eq!(file.len(), 128);
    assert_eq!(&file[0..16], &MAGIC_MARKER_BLOB);
    assert_eq!(&file[16..24], &0x0102u64.to_le_bytes());
    assert_eq!(&file[24..32], &3u64.to_le_bytes());
    assert_eq!(&file[32..64], &hash);
    assert_eq!(&file[64..67], &[0xAB; 3]);
    assert!(file[67..].iter().all(|b| *b == 0));
}

#[test]
fn padding_formula() {
    assert_eq!(padding_for_blob(0), 0);
    assert_eq!(padding_for_blob(1), 63);
    assert_eq!(padding_for_blob(64), 0);
    assert_eq!(padding_for_blob(100), 28);
}
