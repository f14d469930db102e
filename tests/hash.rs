use lv::hash::{fingerprint_hash, hash_plan, le_bytes, to_hex, whole_hash, HashPlan};

#[test]
fn sha512_of_abc() {
    let h = whole_hash(&b"abc".to_vec());
    assert_eq!(
        h,
        "ddaf35a193617abacc417349ae20413112e6fa4e89a97ea20a9eeee64b55d39a2192992a274fc1a836ba3c23a3feebbd454d4423643ce80e2a9ac94fa54ca49f"
    );
}

#[test]
fn hex_and_le() {
    assert_eq!(to_hex(&vec![0x00, 0xab, 0x7f]), "00ab7f");
    assert_eq!(le_bytes(0x0102), vec![2, 1, 0, 0, 0, 0, 0, 0]);
}

#[test]
fn plans_by_size() {
    assert_eq!(hash_plan(0), HashPlan::Whole);
    assert_eq!(hash_plan(2 * 1024 * 1024), HashPlan::Whole);
    assert_eq!(hash_plan(2 * 1024 * 1024 + 1), HashPlan::Fingerprint { head: 65536, tail: true });
}

#[test]
fn fingerprint_has_prefix_and_window() {
    let size: u64 = 3 * 1024 * 1024;
    let head = vec![1u8; 65536];
    let tail = vec![2u8; 65536];
    let a = fingerprint_hash(&head, &tail, size);
    assert!(a.starts_with("fp:"));
    assert_eq!(a.len(), 3 + 128);
    let mut head2 = head.clone();
    head2[0] = 9;
    assert_ne!(fingerprint_hash(&head2, &tail, size), a);
    assert_eq!(fingerprint_hash(&head, &tail, size), a);
    assert_ne!(fingerprint_hash(&head, &tail, size + 1), a);
}
