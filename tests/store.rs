use pastebin_store::{Paste, PasteError, PasteStore, MAX_RECORD_LEN};

fn store_with(n: u64) -> PasteStore {
    let mut s = PasteStore::new();
    for i in 0..n {
        let id = s.create_paste(format!("paste number {}", i), 100 + i).unwrap();
        assert_eq!(id, i);
    }
    s
}

#[test]
fn create_then_get_returns_content_and_id() {
    let mut s = PasteStore::new();
    let id = s.create_paste("hello world".to_string(), 42).unwrap();
    let p = s.get_paste(id).unwrap();
    assert_eq!(p, Paste { id, content: "hello world".to_string(), timestamp: 42 });
}

#[test]
fn create_keeps_non_ascii_content() {
    let mut s = PasteStore::new();
    let id = s.create_paste("grüße, 世界 🦀".to_string(), 1).unwrap();
    assert_eq!(s.get_paste(id).unwrap().content, "grüße, 世界 🦀");
}

#[test]
fn blank_content_is_rejected_and_nothing_is_stored() {
    let mut s = PasteStore::new();
    let before = s.to_bytes();
    assert!(matches!(s.create_paste("".to_string(), 1), Err(PasteError::InvalidInput(_))));
    assert!(matches!(s.create_paste("   ".to_string(), 1), Err(PasteError::InvalidInput(_))));
    assert!(matches!(s.create_paste("\t\n ".to_string(), 1), Err(PasteError::InvalidInput(_))));
    assert_eq!(s.to_bytes(), before);
    assert_eq!(s.counter(), 0);
    assert!(s.list_all_pastes().unwrap().is_empty());
}

#[test]
fn content_with_surrounding_spaces_is_kept_whole() {
    let mut s = PasteStore::new();
    let id = s.create_paste("  x  ".to_string(), 1).unwrap();
    assert_eq!(s.get_paste(id).unwrap().content, "  x  ");
}

#[test]
fn oversize_content_is_rejected() {
    let mut s = PasteStore::new();
    let largest = "a".repeat(MAX_RECORD_LEN - 16);
    assert!(s.create_paste(largest.clone(), 1).is_ok());
    let before = s.to_bytes();
    let too_long = "a".repeat(MAX_RECORD_LEN - 15);
    assert!(matches!(s.create_paste(too_long, 1), Err(PasteError::InvalidInput(_))));
    assert_eq!(s.to_bytes(), before);
    assert_eq!(s.get_paste(0).unwrap().content, largest);
}

#[test]
fn sequential_ids_strictly_increase() {
    let mut s = PasteStore::new();
    let mut last: Option<u64> = None;
    for i in 0..20u64 {
        let id = s.create_paste(format!("p{}", i), i).unwrap();
        if let Some(l) = last {
            assert!(id > l);
        }
        last = Some(id);
    }
    assert_eq!(s.counter(), 20);
}

#[test]
fn get_unknown_or_deleted_id_is_not_found() {
    let mut s = store_with(3);
    assert_eq!(s.get_paste(7), Err(PasteError::NotFound(7)));
    s.delete_paste(1).unwrap();
    assert_eq!(s.get_paste(1), Err(PasteError::NotFound(1)));
    assert_eq!(s.delete_paste(1), Err(PasteError::NotFound(1)));
}

#[test]
fn update_replaces_content_and_advances_timestamp() {
    let mut s = PasteStore::new();
    let id = s.create_paste("old".to_string(), 10).unwrap();
    let p = s.update_paste(id, "new".to_string(), 20).unwrap();
    assert_eq!(p, Paste { id, content: "new".to_string(), timestamp: 20 });
    assert_eq!(s.get_paste(id).unwrap(), p);
    let q = s.update_paste(id, "newer".to_string(), 5).unwrap();
    assert_eq!(q.timestamp, 20);
    assert_eq!(q.id, id);
    assert_eq!(s.get_paste(id).unwrap().content, "newer");
}

#[test]
fn update_errors() {
    let mut s = store_with(1);
    assert!(matches!(s.update_paste(0, "".to_string(), 1), Err(PasteError::InvalidInput(_))));
    assert_eq!(s.update_paste(5, "x".to_string(), 1), Err(PasteError::NotFound(5)));
    let too_long = "b".repeat(MAX_RECORD_LEN);
    assert!(matches!(s.update_paste(0, too_long, 1), Err(PasteError::InvalidInput(_))));
    assert_eq!(s.get_paste(0).unwrap().content, "paste number 0");
}

#[test]
fn delete_returns_record_and_id_is_never_reissued() {
    let mut s = store_with(3);
    let gone = s.delete_paste(2).unwrap();
    assert_eq!(gone.content, "paste number 2");
    assert_eq!(s.get_paste(2), Err(PasteError::NotFound(2)));
    let id = s.create_paste("later".to_string(), 9).unwrap();
    assert_eq!(id, 3);
}

#[test]
fn pagination_over_twelve_records() {
    let s = store_with(12);
    let first = s.list_pastes(Some(1), Some(5)).unwrap();
    assert_eq!(first.iter().map(|p| p.id).collect::<Vec<u64>>(), vec![0, 1, 2, 3, 4]);
    let third = s.list_pastes(Some(3), Some(5)).unwrap();
    assert_eq!(third.iter().map(|p| p.id).collect::<Vec<u64>>(), vec![10, 11]);
    assert!(s.list_pastes(Some(4), Some(5)).unwrap().is_empty());
    let default = s.list_pastes(None, None).unwrap();
    assert_eq!(default.iter().map(|p| p.id).collect::<Vec<u64>>(), vec![0, 1, 2, 3, 4]);
}

#[test]
fn pagination_zero_and_huge_pages_are_empty() {
    let s = store_with(4);
    assert!(s.list_pastes(Some(0), Some(5)).unwrap().is_empty());
    assert!(s.list_pastes(Some(1), Some(0)).unwrap().is_empty());
    assert!(s.list_pastes(Some(u64::MAX), Some(u64::MAX)).unwrap().is_empty());
    assert_eq!(s.list_pastes(Some(1), Some(u64::MAX)).unwrap().len(), 4);
}

#[test]
fn pagination_skips_deleted_records() {
    let mut s = store_with(6);
    s.delete_paste(1).unwrap();
    let page = s.list_pastes(Some(1), Some(3)).unwrap();
    assert_eq!(page.iter().map(|p| p.id).collect::<Vec<u64>>(), vec![0, 2, 3]);
}

#[test]
fn search_finds_substring_in_id_order() {
    let mut s = PasteStore::new();
    s.create_paste("a foo here".to_string(), 1).unwrap();
    s.create_paste("nothing".to_string(), 2).unwrap();
    s.create_paste("foofoo".to_string(), 3).unwrap();
    s.create_paste("Foo capital".to_string(), 4).unwrap();
    let found = s.search_pastes("foo").unwrap();
    assert_eq!(found.iter().map(|p| p.id).collect::<Vec<u64>>(), vec![0, 2]);
    assert!(s.search_pastes("").unwrap().is_empty());
    assert!(s.search_pastes("absent").unwrap().is_empty());
}

#[test]
fn restart_reattaches_to_the_same_records() {
    let mut s = store_with(3);
    let id = s.create_paste("durable".to_string(), 77).unwrap();
    s.delete_paste(1).unwrap();
    let before = s.get_paste(id).unwrap();
    let reloaded = PasteStore::from_bytes(s.to_bytes()).unwrap();
    assert_eq!(reloaded.get_paste(id).unwrap(), before);
    assert_eq!(reloaded.get_paste(1), Err(PasteError::NotFound(1)));
    assert_eq!(reloaded.counter(), 4);
    assert_eq!(reloaded.list_all_pastes().unwrap(), s.list_all_pastes().unwrap());
}

#[test]
fn bad_layout_is_refused() {
    assert!(matches!(PasteStore::from_bytes(Vec::new()), Err(PasteError::BadLayout)));
    let mut bytes = PasteStore::new().to_bytes();
    bytes[0] = b'X';
    assert!(matches!(PasteStore::from_bytes(bytes), Err(PasteError::BadLayout)));
    let mut short = store_with(1).to_bytes();
    short.pop();
    assert!(matches!(PasteStore::from_bytes(short), Err(PasteError::BadLayout)));
}

#[test]
fn corrupt_record_is_reported() {
    let s = store_with(2);
    let mut bytes = s.to_bytes();
    // Slot of id 1 starts at 12 + 1027; its record starts 3 bytes later.
    let rec = 12 + 1027 + 3;
    bytes[rec + 16] = 0xff;
    let broken = PasteStore::from_bytes(bytes).unwrap();
    assert_eq!(broken.get_paste(1), Err(PasteError::CorruptRecord(1)));
    assert_eq!(broken.list_all_pastes(), Err(PasteError::CorruptRecord(1)));
    assert!(broken.get_paste(0).is_ok());
}

#[test]
fn record_with_wrong_id_is_corrupt() {
    let s = store_with(2);
    let mut bytes = s.to_bytes();
    let rec = 12 + 3;
    bytes[rec] = 9;
    let broken = PasteStore::from_bytes(bytes).unwrap();
    assert_eq!(broken.get_paste(0), Err(PasteError::CorruptRecord(0)));
}

#[test]
fn codec_round_trip_and_layout() {
    let p = Paste { id: 0x0102030405060708, content: "hé".to_string(), timestamp: 5 };
    let b = p.encode().unwrap();
    assert_eq!(b.len(), 16 + 3);
    assert_eq!(&b[0..8], &[8, 7, 6, 5, 4, 3, 2, 1]);
    assert_eq!(&b[8..16], &[5, 0, 0, 0, 0, 0, 0, 0]);
    assert_eq!(&b[16..], "hé".as_bytes());
    assert_eq!(Paste::decode(&b), Some(p));
    assert_eq!(Paste::decode(&b[0..10]), None);
    let mut bad = b.clone();
    bad[16] = 0xc3;
    bad[17] = 0x28;
    assert_eq!(Paste::decode(&bad), None);
}

#[test]
fn oversize_encoding_is_refused() {
    let p = Paste { id: 1, content: "z".repeat(MAX_RECORD_LEN), timestamp: 0 };
    assert_eq!(p.encode(), Err(PasteError::Oversize));
}

#[test]
fn error_constructors() {
    assert_eq!(PasteError::not_found(4), PasteError::NotFound(4));
    assert_eq!(PasteError::invalid_input("bad"), PasteError::InvalidInput("bad".to_string()));
}

#[test]
fn many_creates_are_all_retrievable() {
    let mut s = PasteStore::new();
    let mut ids = Vec::new();
    for i in 0..50u64 {
        ids.push(s.create_paste(format!("item {}", i), i).unwrap());
    }
    let mut sorted = ids.clone();
    sorted.dedup();
    assert_eq!(sorted.len(), 50);
    for (i, id) in ids.iter().enumerate() {
        assert_eq!(s.get_paste(*id).unwrap().content, format!("item {}", i));
    }
}

#[test]
fn open_or_init_is_idempotent() {
    let fresh = PasteStore::open_or_init(Vec::new()).unwrap();
    assert_eq!(fresh.to_bytes(), PasteStore::new().to_bytes());
    let mut s = store_with(2);
    s.create_paste("again".to_string(), 3).unwrap();
    let reopened = PasteStore::open_or_init(s.to_bytes()).unwrap();
    assert_eq!(reopened.to_bytes(), s.to_bytes());
    assert_eq!(reopened.get_paste(2).unwrap().content, "again");
    assert!(matches!(PasteStore::open_or_init(vec![1, 2, 3]), Err(PasteError::BadLayout)));
}
