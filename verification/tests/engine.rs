use crdt_text::doc::Doc;
use crdt_text::doc::DocError;

fn chars(s: &str) -> Vec<char> {
    s.chars().collect()
}

fn text_of(d: &Doc) -> String {
    d.read().into_iter().collect()
}

#[test]
fn scenario_hello() {
    let mut d = Doc::new(1);
    d.insert(0, &chars("Hi")).unwrap();
    assert_eq!(text_of(&d), "Hi");
    d.insert(2, &chars("!")).unwrap();
    assert_eq!(text_of(&d), "Hi!");
    d.delete(1, 1).unwrap();
    assert_eq!(text_of(&d), "H!");
    d.insert(1, &chars("ello")).unwrap();
    assert_eq!(text_of(&d), "Hello!");
}

#[test]
fn round_trip_single_insert() {
    let mut d = Doc::new(7);
    d.insert(0, &chars("hello world")).unwrap();
    assert_eq!(text_of(&d), "hello world");
}

#[test]
fn round_trip_many_inserts() {
    let mut d = Doc::new(7);
    d.insert(0, &chars("ad")).unwrap();
    d.insert(1, &chars("c")).unwrap();
    d.insert(1, &chars("b")).unwrap();
    d.insert(4, &chars("e")).unwrap();
    d.insert(0, &chars("_")).unwrap();
    assert_eq!(text_of(&d), "_abcde");
}

#[test]
fn insert_at_visible_length_appends() {
    let mut d = Doc::new(2);
    d.insert(0, &chars("ab")).unwrap();
    assert_eq!(d.insert(2, &chars("c")), Ok(()));
    assert_eq!(text_of(&d), "abc");
}

#[test]
fn insert_past_visible_length_fails() {
    let mut d = Doc::new(2);
    d.insert(0, &chars("ab")).unwrap();
    assert_eq!(d.insert(3, &chars("c")), Err(DocError::IndexOutOfRange));
    assert_eq!(text_of(&d), "ab");
    assert_eq!(d.visible_len(), 2);
}

#[test]
fn insert_into_empty_past_zero_fails() {
    let mut d = Doc::new(2);
    assert_eq!(d.insert(1, &chars("x")), Err(DocError::IndexOutOfRange));
    assert_eq!(text_of(&d), "");
}

#[test]
fn delete_whole_document_clears() {
    let mut d = Doc::new(3);
    d.insert(0, &chars("abcdef")).unwrap();
    assert_eq!(d.delete(0, 6), Ok(()));
    assert_eq!(text_of(&d), "");
    assert_eq!(d.visible_len(), 0);
}

#[test]
fn delete_zero_is_noop() {
    let mut d = Doc::new(3);
    d.insert(0, &chars("abc")).unwrap();
    assert_eq!(d.delete(1, 0), Ok(()));
    assert_eq!(d.delete(3, 0), Ok(()));
    assert_eq!(text_of(&d), "abc");
}

#[test]
fn delete_past_visible_length_fails() {
    let mut d = Doc::new(3);
    d.insert(0, &chars("abc")).unwrap();
    assert_eq!(d.delete(1, 3), Err(DocError::IndexOutOfRange));
    assert_eq!(d.delete(4, 0), Err(DocError::IndexOutOfRange));
    assert_eq!(text_of(&d), "abc");
}

#[test]
fn deleted_text_never_reappears() {
    let mut d = Doc::new(4);
    d.insert(0, &chars("aXb")).unwrap();
    d.delete(1, 1).unwrap();
    assert_eq!(text_of(&d), "ab");
    d.insert(1, &chars("y")).unwrap();
    d.insert(0, &chars("z")).unwrap();
    d.delete(3, 1).unwrap();
    assert!(!text_of(&d).contains('X'));
}

#[test]
fn tombstones_keep_elements_in_store() {
    let mut d = Doc::new(4);
    d.insert(0, &chars("abc")).unwrap();
    assert_eq!(d.all_elements().len(), 3);
    d.delete(0, 2).unwrap();
    assert_eq!(d.all_elements().len(), 3);
    let tombs: usize = d.all_elements().iter().filter(|e| e.tombstone).count();
    assert_eq!(tombs, 2);
    assert_eq!(d.visible_len(), 1);
}

#[test]
fn appends_accumulate_each_once() {
    let mut d = Doc::new(5);
    let letters = "abcdefghij";
    for (k, c) in letters.chars().enumerate() {
        let mut one = Vec::new();
        one.push(c);
        d.insert(k, &one).unwrap();
    }
    let t = text_of(&d);
    assert_eq!(t.len(), letters.len());
    for c in letters.chars() {
        assert_eq!(t.chars().filter(|x| *x == c).count(), 1);
    }
}

#[test]
fn repeated_front_inserts_stay_ordered() {
    let mut d = Doc::new(6);
    for _ in 0..50 {
        d.insert(0, &chars("x")).unwrap();
    }
    d.insert(0, &chars("s")).unwrap();
    let t = text_of(&d);
    assert_eq!(t.len(), 51);
    assert!(t.starts_with('s'));
}

#[test]
fn update_text_delete_then_insert() {
    let mut d = Doc::new(8);
    d.insert(0, &chars("hello world")).unwrap();
    d.update_text(6, 5, &chars("there")).unwrap();
    assert_eq!(text_of(&d), "hello there");
}

#[test]
fn update_text_insert_only() {
    let mut d = Doc::new(8);
    d.insert(0, &chars("ab")).unwrap();
    d.update_text(1, 0, &chars("--")).unwrap();
    assert_eq!(text_of(&d), "a--b");
}

#[test]
fn update_text_delete_only() {
    let mut d = Doc::new(8);
    d.insert(0, &chars("abcd")).unwrap();
    d.update_text(1, 2, &Vec::new()).unwrap();
    assert_eq!(text_of(&d), "ad");
}

#[test]
fn update_text_nothing_asked_is_noop() {
    let mut d = Doc::new(8);
    d.insert(0, &chars("ab")).unwrap();
    assert_eq!(d.update_text(9, 0, &Vec::new()), Ok(()));
    assert_eq!(text_of(&d), "ab");
}

#[test]
fn update_text_out_of_range_leaves_document() {
    let mut d = Doc::new(8);
    d.insert(0, &chars("ab")).unwrap();
    assert_eq!(
        d.update_text(1, 5, &chars("x")),
        Err(DocError::IndexOutOfRange)
    );
    assert_eq!(text_of(&d), "ab");
}

#[test]
fn empty_document_reads_empty() {
    let d = Doc::new(9);
    assert_eq!(text_of(&d), "");
    assert_eq!(d.visible_len(), 0);
    assert_eq!(d.all_elements().len(), 0);
}
