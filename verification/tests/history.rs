use cooee::history::{Entry, History, CAP};

#[test]
fn newest_first_and_ids_unique() {
    let mut h = History::in_memory();
    let a = h.push(1_000, "one".into(), 1, 2);
    let b = h.push(1_000, "two".into(), 1, 2);
    assert!(b.id > a.id);
    let list = h.entries();
    assert_eq!(list[0].text, "two");
    assert_eq!(list[1].text, "one");
}

#[test]
fn capped_at_the_oldest_end() {
    let mut h = History::in_memory();
    for i in 0..(CAP + 10) {
        h.push(0, format!("{i}"), 0, 0);
    }
    let list = h.entries();
    assert_eq!(list.len(), CAP);
    assert_eq!(list[0].text, format!("{}", CAP + 9));
    assert_eq!(list.last().unwrap().text, "10");
}

#[test]
fn remove_and_clear() {
    let mut h = History::in_memory();
    let a = h.push(5, "keep".into(), 0, 0);
    let b = h.push(5, "drop".into(), 0, 0);
    h.remove(b.id);
    assert_eq!(h.entries(), vec![a.clone()]);
    h.clear();
    assert!(h.entries().is_empty());
}

#[test]
fn an_id_is_the_time_or_one_more_than_the_newest() {
    let mut h = History::in_memory();
    assert_eq!(h.push(0, "a".into(), 0, 0).id, 1);
    assert_eq!(h.push(70, "b".into(), 3, 4).id, 70);
    assert_eq!(h.push(69, "c".into(), 0, 0).id, 71);
    assert_eq!(h.len(), 3);
    assert_eq!(h.stored()[1].inference_ms, 3);
    assert_eq!(h.stored()[1].elapsed_ms, 4);
}

#[test]
fn removing_an_unknown_id_changes_nothing() {
    let mut h = History::in_memory();
    let a = h.push(9, "a".into(), 0, 0);
    h.remove(a.id + 1);
    assert_eq!(h.entries(), vec![a]);
}

#[test]
fn a_stored_history_comes_back_and_a_broken_one_is_empty() {
    let e = Entry { id: 4, text: "x".to_string(), inference_ms: 1, elapsed_ms: 2 };
    let h = History::load(Some(vec![e.clone()]), Some("here".to_string()));
    assert_eq!(h.entries(), vec![e]);
    assert_eq!(h.path().map(|p| p.as_str()), Some("here"));
    let none = History::load(None, None);
    assert_eq!(none.len(), 0);
    assert!(none.path().is_none());
}
