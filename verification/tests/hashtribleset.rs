use triblespace::hashtribleset::HashTribleSet;

fn trible(e: u8, a: u8, v: u8) -> [u8; 64] {
    let mut t = [0u8; 64];
    t[..16].copy_from_slice(&[e; 16]);
    t[16..32].copy_from_slice(&[a; 16]);
    t[32..].copy_from_slice(&[v; 32]);
    t
}

#[test]
fn hash_trible_set_counts_distinct_tribles() {
    let mut set = HashTribleSet::new();
    assert_eq!(set.len(), 0);
    set.add(&trible(1, 2, 3));
    set.add(&trible(1, 2, 4));
    set.add(&trible(1, 2, 3));
    set.add(&trible(5, 2, 3));
    assert_eq!(set.len(), 3);
}

#[test]
fn hash_trible_set_accepts_arbitrary_bytes() {
    let mut set = HashTribleSet::new();
    for i in 0..200u8 {
        let mut t = [0u8; 64];
        for (j, b) in t.iter_mut().enumerate() {
            *b = i.wrapping_mul(31).wrapping_add(j as u8);
        }
        set.add(&t);
    }
    assert_eq!(set.len(), 200);
}
