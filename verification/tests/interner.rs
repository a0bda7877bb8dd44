use string_internal::{StringId, StringInternal};

#[test]
fn it_works_basic() {
    let mut db = StringInternal::new();
    let string_id = db.add("hello world!");
    assert_eq!(string_id, db.add("hello world!"));
    assert_eq!(db.get(string_id), "hello world!");
}

#[test]
fn it_works_advanced() {
    let mut db = StringInternal::with_capacity(1000000);
    for i in 0..5_000_000 {
        db.add(&i.to_string());
    }
    for i in 0..5_000_000 {
        let a = i.to_string();
        assert_eq!(db.add(&a).0, i);
        assert_eq!(db.get(StringId(i)), a);
    }
}

#[test]
fn example_works() {
    let mut string_internal = StringInternal::new();
    let string_id = string_internal.add("Mr. Smith");
    assert_eq!(string_internal.get(string_id), "Mr. Smith");
}

#[test]
fn adding_again_returns_the_first_identifier() {
    let mut db = StringInternal::new();
    let first = db.add("again");
    db.add("something else");
    for _ in 0..100 {
        assert_eq!(db.add("again"), first);
    }
    assert_eq!(first, StringId(0));
    assert_eq!(db.len(), 2);
}

#[test]
fn round_trip_is_exact() {
    let texts = [
        "plain",
        " leading and trailing ",
        "héllo wörld",
        "日本語",
        "😀😀",
        "tab\tand\nnewline",
        "\u{0}",
        "é",
        "e\u{301}",
    ];
    let mut db = StringInternal::with_capacity(16);
    for text in texts {
        let id = db.add(text);
        assert_eq!(db.get(id), text);
        assert_eq!(db.get(id).as_bytes(), text.as_bytes());
    }
    for (i, text) in texts.iter().enumerate() {
        assert_eq!(db.get(StringId(i)), *text);
    }
}

#[test]
fn content_is_not_normalized() {
    let mut db = StringInternal::new();
    let lower = db.add("hello");
    let upper = db.add("Hello");
    let spaced = db.add("hello ");
    let composed = db.add("é");
    let decomposed = db.add("e\u{301}");
    assert_eq!(lower, StringId(0));
    assert_eq!(upper, StringId(1));
    assert_eq!(spaced, StringId(2));
    assert_eq!(composed, StringId(3));
    assert_eq!(decomposed, StringId(4));
    assert_eq!(db.len(), 5);
}

#[test]
fn identifiers_are_dense_in_order_of_first_appearance() {
    let mut db = StringInternal::new();
    let order = ["a", "b", "a", "c", "b", "d", "a", "e"];
    let expected = [0, 1, 0, 2, 1, 3, 0, 4];
    for (text, id) in order.iter().zip(expected) {
        assert_eq!(db.add(text), StringId(id));
    }
    assert_eq!(db.len(), 5);
    assert_eq!(db.get(StringId(0)), "a");
    assert_eq!(db.get(StringId(1)), "b");
    assert_eq!(db.get(StringId(2)), "c");
    assert_eq!(db.get(StringId(3)), "d");
    assert_eq!(db.get(StringId(4)), "e");
}

#[test]
fn earlier_texts_survive_growth() {
    let mut db = StringInternal::with_capacity(4);
    let mut kept: Vec<(StringId, String)> = Vec::new();
    for i in 0..10 {
        let text = format!("early-{i}");
        let id = db.add(&text);
        kept.push((id, text));
    }
    let mut growths = 0;
    let mut capacity = db.capacity();
    for i in 0..20_000 {
        let text = format!("later text number {i} {}", "x".repeat(i % 50));
        let id = db.add(&text);
        if db.capacity() != capacity {
            assert!(db.capacity() > capacity);
            capacity = db.capacity();
            growths += 1;
        }
        assert_eq!(db.get(id), text);
        if i % 1000 == 0 {
            for (id, text) in &kept {
                assert_eq!(db.get(*id), text);
            }
        }
    }
    assert!(growths > 3);
    for (i, (id, text)) in kept.iter().enumerate() {
        assert_eq!(*id, StringId(i));
        assert_eq!(db.get(*id), text);
        assert_eq!(db.add(text), *id);
    }
}

#[test]
fn empty_string_is_an_entry_like_any_other() {
    let mut db = StringInternal::new();
    let first = db.add("");
    let second = db.add("");
    assert_eq!(first, second);
    assert_eq!(first, StringId(0));
    assert_eq!(db.get(first), "");
    assert_eq!(db.len(), 1);

    let mut db = StringInternal::new();
    let a = db.add("a");
    let empty = db.add("");
    let b = db.add("b");
    assert_eq!((a, empty, b), (StringId(0), StringId(1), StringId(2)));
    assert_eq!(db.add(""), empty);
    assert_eq!(db.get(empty), "");
    assert_eq!(db.get(a), "a");
    assert_eq!(db.get(b), "b");
}

#[test]
fn new_starts_with_one_hundred_bytes() {
    let db = StringInternal::new();
    assert_eq!(db.capacity(), 100);
    assert_eq!(db.len(), 0);
}

#[test]
fn with_capacity_starts_with_the_given_capacity() {
    let db = StringInternal::with_capacity(12345);
    assert_eq!(db.capacity(), 12345);
    assert_eq!(db.len(), 0);
    let db = StringInternal::with_capacity(0);
    assert_eq!(db.capacity(), 0);
}

#[test]
fn with_capacity_for_internals_behaves_like_with_capacity() {
    let mut db = StringInternal::with_capacity_for_internals(16, 2);
    assert_eq!(db.capacity(), 16);
    assert_eq!(db.len(), 0);
    for i in 0..100 {
        assert_eq!(db.add(&format!("text {i}")), StringId(i));
    }
    for i in 0..100 {
        assert_eq!(db.get(StringId(i)), format!("text {i}"));
    }
    let mut db = StringInternal::with_capacity_for_internals(16, 0);
    assert_eq!(db.add("first"), StringId(0));
    assert_eq!(db.get(StringId(0)), "first");
}

#[test]
fn arena_is_kept_while_the_text_stays_below_its_capacity() {
    let mut db = StringInternal::new();
    db.add(&"x".repeat(99));
    assert_eq!(db.capacity(), 100);
}

#[test]
fn arena_grows_when_a_text_reaches_its_capacity() {
    let mut db = StringInternal::new();
    db.add(&"x".repeat(100));
    assert_eq!(db.capacity(), 128 + 100);

    let mut db = StringInternal::new();
    db.add(&"x".repeat(99));
    db.add("y");
    assert_eq!(db.capacity(), 128 + 1);
}

#[test]
fn capacity_follows_each_growth() {
    let mut db = StringInternal::with_capacity(8);
    db.add("abcd");
    assert_eq!(db.capacity(), 8);
    db.add("efgh");
    assert_eq!(db.capacity(), 8 + 4);
    db.add("ijklmnop");
    assert_eq!(db.capacity(), 16 + 8);
    db.add("q");
    assert_eq!(db.capacity(), 24);
    db.add("abcd");
    db.add("ijklmnop");
    assert_eq!(db.capacity(), 24);
    assert_eq!(db.get(StringId(0)), "abcd");
    assert_eq!(db.get(StringId(1)), "efgh");
    assert_eq!(db.get(StringId(2)), "ijklmnop");
    assert_eq!(db.get(StringId(3)), "q");
    assert_eq!(db.len(), 4);
}

#[test]
fn capacity_counts_bytes_not_characters() {
    let mut db = StringInternal::with_capacity(8);
    db.add("éé");
    assert_eq!(db.capacity(), 8);
    db.add("éé");
    assert_eq!(db.capacity(), 8);
    db.add("üü");
    assert_eq!(db.capacity(), 8 + 4);
    assert_eq!(db.get(StringId(0)), "éé");
    assert_eq!(db.get(StringId(1)), "üü");
}

#[test]
fn zero_capacity_grows_on_the_first_text() {
    let mut db = StringInternal::with_capacity(0);
    let empty = db.add("");
    assert_eq!(db.capacity(), 1);
    let a = db.add("a");
    assert_eq!(db.capacity(), 1 + 1);
    assert_eq!(db.get(empty), "");
    assert_eq!(db.get(a), "a");
}

#[test]
fn text_longer_than_every_capacity_is_stored() {
    let mut db = StringInternal::with_capacity(4);
    let short = db.add("ab");
    let long_text = "long ".repeat(200);
    let long = db.add(&long_text);
    assert_eq!(db.capacity(), 4 + 1000);
    assert_eq!(db.get(long), long_text);
    assert_eq!(db.get(short), "ab");
    assert_eq!(db.add(&long_text), long);
}

#[test]
fn adding_a_held_text_leaves_the_arena_alone() {
    let mut db = StringInternal::with_capacity(8);
    db.add("abcdefg");
    assert_eq!(db.capacity(), 8);
    for _ in 0..10 {
        db.add("abcdefg");
    }
    assert_eq!(db.capacity(), 8);
    assert_eq!(db.len(), 1);
}

#[test]
fn try_add_agrees_with_add() {
    let mut db = StringInternal::with_capacity(8);
    assert_eq!(db.try_add("one"), Some(StringId(0)));
    assert_eq!(db.try_add("two"), Some(StringId(1)));
    assert_eq!(db.try_add("one"), Some(StringId(0)));
    assert_eq!(db.add("two"), StringId(1));
    assert_eq!(db.try_add("a text that does not fit"), Some(StringId(2)));
    assert_eq!(db.capacity(), 8 + 24);
    assert_eq!(db.get(StringId(2)), "a text that does not fit");
    assert_eq!(db.len(), 3);
}

#[test]
fn len_counts_distinct_texts() {
    let mut db = StringInternal::new();
    assert_eq!(db.len(), 0);
    db.add("a");
    assert_eq!(db.len(), 1);
    db.add("a");
    assert_eq!(db.len(), 1);
    db.add("b");
    assert_eq!(db.len(), 2);
}

#[test]
fn identifiers_compare_by_their_index() {
    assert_eq!(StringId(3), StringId(3));
    assert_ne!(StringId(3), StringId(4));
    let id = StringId(7);
    let copy = id;
    assert_eq!(id, copy);
    assert_eq!(id.0, 7);
}

#[test]
fn try_get_knows_the_issued_identifiers_only() {
    let mut db = StringInternal::new();
    assert_eq!(db.try_get(StringId(0)), None);
    let a = db.add("a");
    let b = db.add("b");
    assert_eq!(db.try_get(a), Some("a"));
    assert_eq!(db.try_get(b), Some("b"));
    assert_eq!(db.try_get(StringId(db.len())), None);
    assert_eq!(db.try_get(StringId(db.len() + 1)), None);
    assert_eq!(db.try_get(StringId(usize::MAX)), None);
    db.add("a");
    assert_eq!(db.try_get(StringId(2)), None);
    let c = db.add("c");
    assert_eq!(c, StringId(2));
    assert_eq!(db.try_get(StringId(2)), Some("c"));
}
