use triblespace::pile::{GetError, InsertError, LoadError, Pile, ValidationState};
use triblespace::repo::pile::MAGIC_MARKER_BRANCH;

const MAX: usize = 1 << 20;

fn loaded(file: &[u8]) -> Pile<MAX> {
    match Pile::<MAX>::load(file) {
        Ok(p) => p,
        Err(e) => panic!("load failed: {e:?}"),
    }
}

#[test]
fn load_empty_pile() {
    let p = loaded(&[]);
    assert_eq!(p.get_branch(&[1u8; 16]), None);
}

#[test]
fn load_rejects_unaligned_file() {
    assert!(matches!(Pile::<MAX>::load(&[0u8; 10]), Err(LoadError::FileLengthError)));
}

#[test]
fn load_rejects_large_file() {
    assert!(matches!(Pile::<64>::load(&[0u8; 128]), Err(LoadError::PileTooLarge)));
}

#[test]
fn load_rejects_unknown_marker() {
    assert!(matches!(Pile::<MAX>::load(&[0u8; 64]), Err(LoadError::MagicMarkerError)));
}

#[test]
fn written_blob_loads_back() {
    let mut pile = loaded(&[]);
    let mut file = Vec::new();
    let data = vec![3u8; 64];
    let (hash, rec, at) = pile.insert_blob(&data, 5).unwrap();
    assert_eq!(at, 0);
    // a blob of 64 bytes gets a full 64 bytes of padding
    assert_eq!(rec.len(), 192);
    file.extend_from_slice(&rec);
    let mut reloaded = loaded(&file);
    assert_eq!(reloaded.get_blob(&file, &hash).unwrap(), Some(data));
}

#[test]
fn truncated_blob_is_unexpected_end() {
    let mut pile = loaded(&[]);
    let (_, rec, _) = pile.insert_blob(&[1u8; 100], 5).unwrap();
    let mut cut = rec.clone();
    cut.truncate(128);
    assert!(matches!(Pile::<MAX>::load(&cut), Err(LoadError::UnexpectedEndOfFile)));
}

#[test]
fn branch_loads_back() {
    let mut pile = loaded(&[]);
    let rec = pile.commit_branch(&[4u8; 16], &[5u8; 32]).unwrap();
    assert_eq!(&rec[0..16], &MAGIC_MARKER_BRANCH);
    pile.branch_written(&[4u8; 16], &[5u8; 32]);
    assert_eq!(pile.get_branch(&[4u8; 16]), Some([5u8; 32]));
    let reloaded = loaded(&rec);
    assert_eq!(reloaded.get_branch(&[4u8; 16]), Some([5u8; 32]));
}

#[test]
fn insert_beyond_limit_is_refused() {
    let mut pile = Pile::<128>::load(&[]).unwrap();
    assert!(pile.insert_blob(&[1u8; 10], 0).is_ok());
    assert!(matches!(pile.insert_blob(&[1u8; 10], 0), Err(InsertError::PileTooLarge)));
    assert!(matches!(pile.commit_branch(&[1u8; 16], &[0u8; 32]), Err(InsertError::PileTooLarge)));
}

#[test]
fn unvalidated_blob_is_checked_once() {
    let mut pile = loaded(&[]);
    let data = vec![9u8; 10];
    let (hash, rec, _) = pile.insert_blob(&data, 1).unwrap();
    let mut file = rec.clone();
    file[64] = 8;
    let mut reloaded = loaded(&file);
    match reloaded.get_blob(&file, &hash) {
        Err(GetError::ValidationError(bytes)) => assert_eq!(bytes[0], 8),
        other => panic!("unexpected result: {other:?}"),
    }
    assert!(matches!(reloaded.get_blob(&file, &hash), Err(GetError::ValidationError(_))));
    assert!(matches!(reloaded.get_blob(&file, &[0u8; 32]), Ok(None)));
}

#[test]
fn written_blob_entry_state() {
    let mut pile = loaded(&[]);
    let (hash, rec, at) = pile.insert_blob(&[1u8, 2, 3], 1).unwrap();
    pile.blob_written(&hash, ValidationState::Validated, at, 3);
    // the entry of a blob written by this pile starts where its record starts
    assert_eq!(pile.get_blob(&rec, &hash).unwrap(), Some(rec[0..3].to_vec()));
}
