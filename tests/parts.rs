use pastebin_store::service::bytes_contain;
use pastebin_store::ByteStore;

#[test]
fn byte_store_read_write_append() {
    let mut b = ByteStore::new();
    b.append(&[1, 2, 3, 4, 5]);
    b.write(1, &[9, 8]);
    assert_eq!(b.to_vec(), vec![1, 9, 8, 4, 5]);
    assert_eq!(b.read(2, 3), vec![8, 4, 5]);
    assert_eq!(b.len(), 5);
}

#[test]
fn byte_containment() {
    assert!(bytes_contain(b"hello", b"ll"));
    assert!(bytes_contain(b"hello", b""));
    assert!(bytes_contain(b"hello", b"hello"));
    assert!(!bytes_contain(b"hello", b"hellox"));
    assert!(!bytes_contain(b"hello", b"lo!"));
}
