use triblespace::id::rngid::{genid, rngid};
use triblespace::id::fucid::{fucid, FUCIDgen};
use triblespace::id::ufoid::{ufoid_at, ufoid_from};
use triblespace::id::{id_from_value, id_into_value};

#[test]
fn fucid_unique() {
    assert!(fucid() != fucid());
}

#[test]
fn fucid_salted_ids_count_up_xor_salt() {
    let mut salt = [0u8; 16];
    salt[15] = 5;
    let mut gen = FUCIDgen::new_salted(salt);
    let first = gen.next();
    let second = gen.next();
    let mut expect_first = [0u8; 16];
    expect_first[15] = 5;
    let mut expect_second = [0u8; 16];
    expect_second[15] = 4;
    assert_eq!(first.raw, expect_first);
    assert_eq!(second.raw, expect_second);
}

#[test]
fn fucid_salt_is_big_endian() {
    let mut salt = [0u8; 16];
    salt[0] = 0x80;
    let mut gen = FUCIDgen::new_salted(salt);
    let id = gen.next();
    assert_eq!(id.raw, salt);
    let id2 = gen.next();
    let mut expect = salt;
    expect[15] = 1;
    assert_eq!(id2.raw, expect);
}

#[test]
fn id_value_round_trip() {
    let id = [7u8; 16];
    let v = id_into_value(&id);
    assert_eq!(&v[0..16], &[0u8; 16]);
    assert_eq!(&v[16..32], &id);
    assert_eq!(id_from_value(&v), Some(id));
}

#[test]
fn id_from_value_rejects_non_id() {
    let mut v = [0u8; 32];
    v[3] = 1;
    assert_eq!(id_from_value(&v), None);
}

fn now_in_ms() -> u128 {
    std::time::SystemTime::now()
        .duration_since(std::time::UNIX_EPOCH)
        .expect("time went backwards")
        .as_millis()
}

#[test]
fn ufoid_unique() {
    assert!(ufoid_at(now_in_ms()) != ufoid_at(now_in_ms()));
}

#[test]
fn ufoid_starts_with_big_endian_timestamp() {
    let id = ufoid_at(0x1_2345_6789_abcd);
    assert_eq!(&id[0..4], &[0x67, 0x89, 0xab, 0xcd]);
    let id = ufoid_at(7);
    assert_eq!(&id[0..4], &[0, 0, 0, 7]);
}

#[test]
fn fresh_id_keeps_its_bytes() {
    let id = triblespace::id::FreshId::new([5u8; 16]);
    assert_eq!(id.raw, [5u8; 16]);
}

#[test]
fn ufoid_from_takes_tail_from_random_bytes() {
    let random = [9u8, 9, 9, 9, 1, 2, 3, 4, 5, 6, 7, 8, 9, 10, 11, 12];
    let id = ufoid_from(0x0102_0304, random);
    assert_eq!(id, [1, 2, 3, 4, 1, 2, 3, 4, 5, 6, 7, 8, 9, 10, 11, 12]);
}

#[test]
fn fucid_generator_ids_are_salt_xor_count() {
    let mut g = FUCIDgen::new_salted([0xAA; 16]);
    let salt = u128::from_be_bytes([0xAA; 16]);
    for k in 0..5u128 {
        assert_eq!(g.next().raw, (salt ^ k).to_be_bytes());
    }
}

#[test]
fn rngid_and_genid_differ_between_calls() {
    assert_ne!(rngid().raw, rngid().raw);
    assert_ne!(genid(), genid());
}
