use clipring::ring::{contains_text, Entry, Ring};

fn ring_with(items: &[&str]) -> Ring {
    let mut ring = Ring::new(50);
    for (i, s) in items.iter().enumerate() {
        ring.push(s.as_bytes().to_vec(), i as u64 * 1000);
    }
    ring
}

#[test]
fn newest_entry_is_index_zero() {
    let ring = ring_with(&["first", "second", "third"]);
    assert_eq!(ring.get(0).unwrap().data, b"third");
    assert_eq!(ring.get(2).unwrap().data, b"first");
}

#[test]
fn ids_are_stable_and_monotonic() {
    let ring = ring_with(&["a", "b", "c"]);
    let ids: Vec<u64> = ring.iter().map(|e| e.id).collect();
    assert_eq!(ids, [3, 2, 1]);
}

#[test]
fn duplicate_push_promotes_instead_of_duplicating() {
    let mut ring = ring_with(&["a", "b", "c"]);
    ring.set_pinned(2, true).unwrap();
    ring.push(b"a".to_vec(), 9000);
    assert_eq!(ring.len(), 3, "no duplicate entry created");
    assert_eq!(ring.get(0).unwrap().data, b"a");
    assert_eq!(ring.get(0).unwrap().id, 1, "identity survives promotion");
    assert_eq!(ring.get(0).unwrap().at_ms, 9000, "timestamp refreshed");
    assert!(ring.get(0).unwrap().pinned, "pin state survives promotion");
}

#[test]
fn capacity_evicts_oldest_unpinned() {
    let mut ring = Ring::new(3);
    for (i, s) in ["a", "b", "c", "d"].iter().enumerate() {
        ring.push(s.as_bytes().to_vec(), i as u64);
    }
    assert_eq!(ring.len(), 3);
    assert!(ring.iter().all(|e| e.data != b"a"), "oldest was evicted");
}

#[test]
fn pinned_entries_survive_eviction() {
    let mut ring = Ring::new(2);
    ring.push(b"precious".to_vec(), 0);
    ring.set_pinned(0, true).unwrap();
    for i in 0..10u64 {
        ring.push(format!("noise-{i}").into_bytes(), i + 1);
    }
    assert!(
        ring.iter().any(|e| e.data == b"precious"),
        "pinned entry must never be evicted"
    );
    assert_eq!(ring.len(), 3);
}

#[test]
fn unpinning_reapplies_capacity() {
    let mut ring = Ring::new(1);
    ring.push(b"old".to_vec(), 0);
    ring.set_pinned(0, true).unwrap();
    ring.push(b"new".to_vec(), 1);
    assert_eq!(ring.len(), 2);
    ring.set_pinned(1, false).unwrap();
    assert_eq!(ring.len(), 1);
    assert_eq!(ring.get(0).unwrap().data, b"new");
}

#[test]
fn promote_moves_entry_to_front() {
    let mut ring = ring_with(&["a", "b", "c"]);
    ring.promote(2, 9000).unwrap();
    assert_eq!(ring.get(0).unwrap().data, b"a");
    assert_eq!(ring.len(), 3);
}

#[test]
fn remove_and_clear_behave() {
    let mut ring = ring_with(&["a", "b", "c"]);
    ring.set_pinned(2, true).unwrap();
    let removed = ring.remove(0).unwrap();
    assert_eq!(removed.data, b"c");
    assert_eq!(ring.clear(false), 1, "clear removes only unpinned");
    assert_eq!(ring.len(), 1);
    assert_eq!(ring.clear(true), 1, "clear --all removes pinned too");
    assert!(ring.is_empty());
}

#[test]
fn out_of_range_index_is_a_useful_error() {
    let mut ring = ring_with(&["only"]);
    let err = ring.remove(5).unwrap_err();
    assert!(err.contains("no entry 5"), "err was: {err}");
    assert!(err.contains("1 entry"), "err was: {err}");
}

#[test]
fn search_is_case_insensitive_and_ordered() {
    let ring = ring_with(&["SELECT * FROM users", "plain", "select 1"]);
    assert_eq!(ring.search("select"), vec![0, 2]);
    assert!(ring.search("missing").is_empty());
}

#[test]
fn search_skips_binary_entries() {
    let mut ring = Ring::new(10);
    ring.push(vec![0xff, 0xfe, b'a'], 0);
    ring.push(b"a text".to_vec(), 1);
    assert_eq!(ring.search("a"), vec![0]);
}

#[test]
fn from_entries_resumes_ids_and_enforces_capacity() {
    let stored = vec![
        Entry { id: 9, at_ms: 2, pinned: false, data: b"new".to_vec() },
        Entry { id: 4, at_ms: 1, pinned: true, data: b"old".to_vec() },
    ];
    let mut ring = Ring::from_entries(stored, 50);
    ring.push(b"next".to_vec(), 3);
    assert_eq!(ring.get(0).unwrap().id, 10, "ids never repeat after reload");

    let stored: Vec<Entry> = (0..5)
        .map(|i| Entry { id: 5 - i, at_ms: 0, pinned: false, data: vec![i as u8] })
        .collect();
    assert_eq!(Ring::from_entries(stored, 2).len(), 2);
}

#[test]
fn errors_for_every_index_operation_name_the_size() {
    let mut ring = ring_with(&["a", "b"]);
    assert_eq!(ring.promote(2, 0).unwrap_err(), "no entry 2 (history has 2 entries)");
    assert_eq!(ring.set_pinned(7, true).unwrap_err(), "no entry 7 (history has 2 entries)");
    let mut empty = Ring::new(5);
    assert_eq!(empty.remove(0).unwrap_err(), "no entry 0 (history has 0 entries)");
}

#[test]
fn capacity_is_at_least_one_and_counts_pins() {
    let mut ring = Ring::new(0);
    assert_eq!(ring.capacity(), 1);
    ring.push(b"x".to_vec(), 0);
    ring.set_pinned(0, true).unwrap();
    ring.push(b"y".to_vec(), 1);
    assert_eq!(ring.pinned_count(), 1);
    assert_eq!(ring.len(), 2);
}

#[test]
fn no_two_entries_ever_hold_the_same_bytes() {
    let mut ring = Ring::new(4);
    for (i, s) in ["a", "b", "a", "c", "b", "a", "d", "e"].iter().enumerate() {
        ring.push(s.as_bytes().to_vec(), i as u64);
        let datas: Vec<&Vec<u8>> = ring.iter().map(|e| &e.data).collect();
        for x in 0..datas.len() {
            for y in x + 1..datas.len() {
                assert_ne!(datas[x], datas[y]);
            }
        }
        assert_eq!(ring.get(0).unwrap().data, s.as_bytes());
    }
}

#[test]
fn clear_keeps_exactly_the_pinned_entries_in_order() {
    let mut ring = ring_with(&["a", "b", "c", "d"]);
    ring.set_pinned(0, true).unwrap();
    ring.set_pinned(2, true).unwrap();
    assert_eq!(ring.clear(false), 2);
    let left: Vec<&[u8]> = ring.iter().map(|e| e.data.as_slice()).collect();
    assert_eq!(left, vec![&b"d"[..], &b"b"[..]]);
    assert!(ring.iter().all(|e| e.pinned));
}

#[test]
fn text_is_the_utf8_content_only() {
    let e = Entry { id: 1, at_ms: 0, pinned: false, data: "héllo".as_bytes().to_vec() };
    assert_eq!(e.text(), Some("héllo"));
    let b = Entry { id: 1, at_ms: 0, pinned: false, data: vec![0xff] };
    assert_eq!(b.text(), None);
}

#[test]
fn new_ids_never_repeat_after_removals() {
    let mut ring = ring_with(&["a", "b", "c"]);
    ring.remove(0).unwrap();
    ring.push(b"z".to_vec(), 5);
    assert_eq!(ring.get(0).unwrap().id, 4);
    assert_eq!(ring.next_id(), 5);
}

#[test]
fn contains_text_is_substring_search() {
    assert!(contains_text("select * from users", "from"));
    assert!(contains_text("abc", ""));
    assert!(contains_text("", ""));
    assert!(!contains_text("", "a"));
    assert!(!contains_text("abc", "abcd"));
    assert!(contains_text("日本語テキスト", "テキ"));
    assert!(!contains_text("Select", "select"));
}

#[test]
fn search_lowercases_beyond_ascii() {
    let ring = ring_with(&["ÉCOLE", "ecole", "Straße"]);
    assert_eq!(ring.search("école"), vec![2]);
    assert_eq!(ring.search("STRASSE"), Vec::<usize>::new());
    assert_eq!(ring.search("ß"), vec![0]);
    assert_eq!(ring.search(""), vec![0, 1, 2]);
}

#[test]
fn ids_stay_pairwise_distinct_across_operations() {
    let stored = vec![
        Entry { id: 7, at_ms: 0, pinned: true, data: b"p".to_vec() },
        Entry { id: 3, at_ms: 0, pinned: false, data: b"q".to_vec() },
    ];
    let mut ring = Ring::from_entries(stored, 2);
    let check = |r: &Ring| {
        let ids: Vec<u64> = r.iter().map(|e| e.id).collect();
        for a in 0..ids.len() {
            for b in a + 1..ids.len() {
                assert_ne!(ids[a], ids[b], "ids {ids:?}");
            }
        }
    };
    for step in 0..30u64 {
        ring.push(format!("d{}", step % 5).into_bytes(), step);
        check(&ring);
        if step % 4 == 0 {
            ring.set_pinned(0, step % 8 == 0).unwrap();
            check(&ring);
        }
        if step % 6 == 0 && ring.len() > 1 {
            ring.promote(ring.len() - 1, step).unwrap();
            check(&ring);
        }
        if step % 9 == 0 {
            ring.remove(0).unwrap();
            check(&ring);
        }
    }
    ring.clear(false);
    check(&ring);
}
