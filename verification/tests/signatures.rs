use vulhunt_engine::signature::{SignatureEntry, sort_entries};

fn sorted(keys: &[&[u8]]) -> Vec<Vec<u8>> {
    let entries = keys.iter().map(|key| SignatureEntry { key: key.to_vec() }).collect();
    sort_entries(entries).into_iter().map(|entry| entry.key).collect()
}

#[test]
fn entries_are_sorted() {
    assert_eq!(
        sorted(&[b"libc/2", b"libb", b"libc", b"", b"libc/10"]),
        vec![
            b"".to_vec(),
            b"libb".to_vec(),
            b"libc".to_vec(),
            b"libc/10".to_vec(),
            b"libc/2".to_vec(),
        ]
    );
}

#[test]
fn the_order_given_does_not_matter() {
    let expected = sorted(&[b"a", b"b", b"c"]);
    assert_eq!(sorted(&[b"c", b"b", b"a"]), expected);
    assert_eq!(sorted(&[b"b", b"a", b"c"]), expected);
}

#[test]
fn equal_entries_all_stay() {
    assert_eq!(sorted(&[b"b", b"a", b"b"]), vec![b"a".to_vec(), b"b".to_vec(), b"b".to_vec()]);
    assert!(sorted(&[]).is_empty());
}

#[test]
fn a_prefix_comes_first() {
    let short = SignatureEntry { key: vec![1, 2] };
    let long = SignatureEntry { key: vec![1, 2, 0] };
    assert!(short.is_at_most(&long));
    assert!(!long.is_at_most(&short));
    assert!(short.is_at_most(&short));
    let high = SignatureEntry { key: vec![200] };
    assert!(long.is_at_most(&high));
    assert!(!high.is_at_most(&long));
}
