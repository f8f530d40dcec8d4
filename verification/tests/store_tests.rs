use todo_store::TodoError;
use todo_store::codec::{decode, encode};
use todo_store::handlers::{AuthContext, TodoStore};
use todo_store::item::Item;
use todo_store::principal::Principal;

fn principal(bytes: &[u8]) -> Principal {
    Principal::from_bytes(bytes.to_vec()).expect("identity fits the format")
}

fn auth(bytes: &[u8]) -> AuthContext {
    AuthContext { caller: principal(bytes) }
}

#[test]
fn codec_round_trip() {
    let item = Item::new(principal(&[1, 2, 3]), String::from("buy milk"));
    let bytes = encode(&item).expect("small item encodes");
    let back = decode(&bytes).expect("encoded bytes decode");
    assert_eq!(back, item);
}

#[test]
fn codec_round_trip_empty_content() {
    let item = Item::new(principal(&[]), String::new());
    let bytes = encode(&item).expect("small item encodes");
    assert_eq!(bytes.len(), 1);
    let back = decode(&bytes).expect("encoded bytes decode");
    assert_eq!(back, item);
}

#[test]
fn codec_round_trip_multibyte_content() {
    let item = Item::new(principal(&[9; 29]), String::from("déjà vu ✓"));
    let bytes = encode(&item).expect("small item encodes");
    let back = decode(&bytes).expect("encoded bytes decode");
    assert_eq!(back, item);
}

#[test]
fn encode_rejects_oversized_record() {
    let long = "x".repeat(200);
    let item = Item::new(principal(&[1]), long);
    assert_eq!(encode(&item), Err(TodoError::Codec));
}

#[test]
fn encode_accepts_record_at_the_bound() {
    // 1 length byte + 2 owner bytes + 125 content bytes = 128
    let item = Item::new(principal(&[1, 2]), "y".repeat(125));
    let bytes = encode(&item).expect("record of exactly the bound encodes");
    assert_eq!(bytes.len(), 128);
    let item2 = Item::new(principal(&[1, 2]), "y".repeat(126));
    assert_eq!(encode(&item2), Err(TodoError::Codec));
}

#[test]
fn decode_rejects_malformed_bytes() {
    // empty record
    assert_eq!(decode(&vec![]), Err(TodoError::Codec));
    // owner length beyond the identity format
    assert_eq!(decode(&vec![30]), Err(TodoError::Codec));
    // owner length beyond the record
    assert_eq!(decode(&vec![3, 1]), Err(TodoError::Codec));
    // content bytes that are not UTF-8
    assert_eq!(decode(&vec![1, 7, 0xff, 0xfe]), Err(TodoError::Codec));
    // oversized record
    assert_eq!(decode(&vec![0; 200]), Err(TodoError::Codec));
}

#[test]
fn create_then_get_returns_the_item() {
    let mut store = TodoStore::new();
    let a = auth(&[1]);
    assert_eq!(store.create(&a, 7, String::from("water the plants")), Ok(()));
    let got = store.get(7).expect("created key is present");
    assert_eq!(got.owner, a.caller);
    assert_eq!(got.content, "water the plants");
}

#[test]
fn get_on_absent_key_returns_none() {
    let store = TodoStore::new();
    assert!(store.get(1).is_none());
}

#[test]
fn duplicate_create_is_rejected_and_keeps_the_original() {
    let mut store = TodoStore::new();
    let a = auth(&[1]);
    assert_eq!(store.create(&a, 3, String::from("first")), Ok(()));
    assert_eq!(
        store.create(&a, 3, String::from("second")),
        Err(TodoError::DuplicateKey)
    );
    assert_eq!(store.get(3).unwrap().content, "first");
}

#[test]
fn update_by_owner_replaces_the_item() {
    let mut store = TodoStore::new();
    let a = auth(&[1]);
    assert_eq!(store.create(&a, 4, String::from("old")), Ok(()));
    assert_eq!(store.update(&a, 4, String::from("new")), Ok(()));
    assert_eq!(store.get(4).unwrap().content, "new");
}

#[test]
fn update_by_non_owner_fails_and_leaves_the_item() {
    let mut store = TodoStore::new();
    let a = auth(&[1]);
    let b = auth(&[2]);
    assert_eq!(store.create(&a, 5, String::from("buy milk")), Ok(()));
    assert_eq!(
        store.update(&b, 5, String::from("buy oat milk")),
        Err(TodoError::NotOwner)
    );
    let got = store.get(5).unwrap();
    assert_eq!(got.content, "buy milk");
    assert_eq!(got.owner, a.caller);
}

#[test]
fn update_on_absent_key_reports_not_owner() {
    let mut store = TodoStore::new();
    let a = auth(&[1]);
    assert_eq!(store.update(&a, 42, String::from("x")), Err(TodoError::NotOwner));
}

#[test]
fn delete_by_owner_removes_the_key() {
    let mut store = TodoStore::new();
    let a = auth(&[1]);
    assert_eq!(store.create(&a, 6, String::from("z")), Ok(()));
    assert_eq!(store.delete(&a, 6), Ok(()));
    assert!(store.get(6).is_none());
}

#[test]
fn delete_by_non_owner_fails_and_leaves_the_key() {
    let mut store = TodoStore::new();
    let a = auth(&[1]);
    let b = auth(&[2]);
    assert_eq!(store.create(&a, 8, String::from("keep me")), Ok(()));
    assert_eq!(store.delete(&b, 8), Err(TodoError::NotOwner));
    assert_eq!(store.get(8).unwrap().content, "keep me");
}

#[test]
fn delete_on_absent_key_reports_not_owner() {
    let mut store = TodoStore::new();
    let a = auth(&[1]);
    assert_eq!(store.delete(&a, 99), Err(TodoError::NotOwner));
}

#[test]
fn create_oversized_record_reports_codec_error() {
    let mut store = TodoStore::new();
    let a = auth(&[1]);
    assert_eq!(
        store.create(&a, 1, "w".repeat(300)),
        Err(TodoError::Codec)
    );
    assert!(store.get(1).is_none());
}

#[test]
fn fetch_all_pages_in_key_order() {
    let mut store = TodoStore::new();
    let a = auth(&[1]);
    for key in 1..=10u64 {
        assert_eq!(store.create(&a, key, format!("task {}", key)), Ok(()));
    }
    let page = store.fetch_all(&a, 1, 3).expect("first page");
    let contents: Vec<String> = page.items.iter().map(|it| it.content.clone()).collect();
    assert_eq!(contents, vec!["task 1", "task 2", "task 3"]);
    assert!(page.has_next_page);

    // skip = 9, take = 3: only the item of key 10 remains
    let page = store.fetch_all(&a, 4, 3).expect("fourth page");
    let contents: Vec<String> = page.items.iter().map(|it| it.content.clone()).collect();
    assert_eq!(contents, vec!["task 10"]);

    // far beyond the data: an empty page, no error
    let page = store.fetch_all(&a, 100, 3).expect("page beyond the data");
    assert!(page.items.is_empty());

    // a page number of zero is rejected rather than left to wrap
    assert_eq!(
        store.fetch_all(&a, 0, 3).err(),
        Some(TodoError::InvalidArgument)
    );
}

#[test]
fn fetch_all_orders_by_key_not_by_insertion() {
    let mut store = TodoStore::new();
    let a = auth(&[1]);
    assert_eq!(store.create(&a, 5, String::from("five")), Ok(()));
    assert_eq!(store.create(&a, 1, String::from("one")), Ok(()));
    assert_eq!(store.create(&a, 9, String::from("nine")), Ok(()));
    let page = store.fetch_all(&a, 1, 10).expect("one page holds all");
    let contents: Vec<String> = page.items.iter().map(|it| it.content.clone()).collect();
    assert_eq!(contents, vec!["one", "five", "nine"]);
}

#[test]
fn fetch_all_returns_only_the_callers_items() {
    let mut store = TodoStore::new();
    let a = auth(&[1]);
    let b = auth(&[2]);
    assert_eq!(store.create(&a, 1, String::from("a1")), Ok(()));
    assert_eq!(store.create(&b, 2, String::from("b2")), Ok(()));
    assert_eq!(store.create(&a, 3, String::from("a3")), Ok(()));
    assert_eq!(store.create(&b, 4, String::from("b4")), Ok(()));
    let page = store.fetch_all(&a, 1, 10).expect("page of caller a");
    let contents: Vec<String> = page.items.iter().map(|it| it.content.clone()).collect();
    assert_eq!(contents, vec!["a1", "a3"]);
    for it in &page.items {
        assert_eq!(it.owner, a.caller);
    }
}

#[test]
fn fetch_all_with_zero_page_size_yields_empty_page() {
    let mut store = TodoStore::new();
    let a = auth(&[1]);
    assert_eq!(store.create(&a, 1, String::from("x")), Ok(()));
    let page = store.fetch_all(&a, 1, 0).expect("empty page, no error");
    assert!(page.items.is_empty());
    assert!(page.has_next_page);
}

#[test]
fn load_yields_a_working_store() {
    // off the canister target the durable region starts fresh, so the
    // loaded store is empty and behaves like a new one
    let mut store = TodoStore::load().expect("a fresh region loads");
    let a = auth(&[4]);
    assert!(store.get(1).is_none());
    assert_eq!(store.create(&a, 1, String::from("persisted")), Ok(()));
    assert_eq!(store.get(1).unwrap().content, "persisted");
}

#[test]
fn principal_equality_is_by_bytes() {
    let p = principal(&[1, 2]);
    let q = principal(&[1, 2]);
    let r = principal(&[1, 3]);
    assert!(p.equals(&q));
    assert!(!p.equals(&r));
    assert_eq!(p.as_bytes().as_slice(), &[1, 2]);
    assert!(Principal::from_bytes(vec![0; 30]).is_none());
}
