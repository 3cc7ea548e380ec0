use editor_core::search::SearchManager;

fn manager(text: &str) -> SearchManager {
    SearchManager::new(text.to_string())
}

#[test]
fn find_all_non_overlapping_leftmost() {
    let m = manager("ababab");
    assert_eq!(m.find_all("ab"), vec![0, 2, 4]);
    let m = manager("aaaa");
    assert_eq!(m.find_all("aa"), vec![0, 2]);
    assert_eq!(m.find_all("aaa"), vec![0]);
}

#[test]
fn find_all_absent_term_and_empty_content() {
    let m = manager("hello world");
    assert_eq!(m.find_all("xyz"), Vec::<usize>::new());
    assert_eq!(m.find_all("hello world!"), Vec::<usize>::new());
    let e = manager("");
    assert_eq!(e.find_all("a"), Vec::<usize>::new());
}

#[test]
fn find_all_empty_term_matches_each_char_boundary() {
    let m = manager("ab");
    assert_eq!(m.find_all(""), vec![0, 1, 2]);
    let u = manager("é!");
    assert_eq!(u.find_all(""), vec![0, 2, 3]);
    assert_eq!(manager("").find_all(""), vec![0]);
}

#[test]
fn find_all_gives_byte_offsets() {
    let m = manager("héllo");
    assert_eq!(m.find_all("l"), vec![3, 4]);
    assert_eq!(m.find_all("é"), vec![1]);
}

#[test]
fn find_all_agrees_with_match_indices() {
    let text = "the cat sat on the mat; the end";
    let m = manager(text);
    for term in ["the", "at", "t", " ", "end", "q", "the end"] {
        let expected: Vec<usize> = text.match_indices(term).map(|p| p.0).collect();
        assert_eq!(m.find_all(term), expected);
    }
}

#[test]
fn find_next_cycles_through_matches() {
    let mut m = manager("ababab");
    assert_eq!(m.find_next("ab"), Some(0));
    assert_eq!(m.find_next("ab"), Some(2));
    assert_eq!(m.find_next("ab"), Some(4));
    assert_eq!(m.find_next("ab"), Some(0));
}

#[test]
fn find_next_visits_each_match_once_per_cycle() {
    let mut m = manager("one two one three one");
    let all = m.find_all("one");
    assert_eq!(all, vec![0, 8, 18]);
    let mut seen = Vec::new();
    for _ in 0..all.len() {
        seen.push(m.find_next("one").unwrap());
    }
    assert_eq!(seen, all);
    assert_eq!(m.find_next("one"), Some(all[0]));
}

#[test]
fn find_next_without_match_is_none() {
    let mut m = manager("abc");
    assert_eq!(m.find_next("z"), None);
    assert_eq!(m.found_indices(), Vec::<usize>::new());
}

#[test]
fn find_next_new_term_searches_afresh() {
    let mut m = manager("ab cd ab cd");
    assert_eq!(m.find_next("ab"), Some(0));
    assert_eq!(m.find_next("cd"), Some(3));
    assert_eq!(m.find_next("cd"), Some(9));
    assert_eq!(m.found_indices(), vec![3, 9]);
}

#[test]
fn find_next_keeps_cache_for_same_term() {
    let mut m = manager("xaxa");
    assert_eq!(m.find_next("a"), Some(1));
    m.set_content("aaaa".to_string());
    assert_eq!(m.find_next("a"), Some(3));
    assert_eq!(m.find_next("a"), Some(1));
}

#[test]
fn shift_after_index_moves_only_later_offsets() {
    let mut m = manager("ababab");
    m.find_next("ab");
    m.clear();
    for o in [0, 2, 4] {
        m.insert_in_order(o);
    }
    m.shift_after_index(2, 3, false);
    assert_eq!(m.found_indices(), vec![0, 2, 7]);
    m.shift_after_index(2, 3, true);
    assert_eq!(m.found_indices(), vec![0, 2, 4]);
    m.shift_after_index(0, 1, true);
    assert_eq!(m.found_indices(), vec![0, 1, 3]);
}

#[test]
fn shift_after_index_on_empty_does_nothing() {
    let mut m = manager("abc");
    m.shift_after_index(0, 5, true);
    assert_eq!(m.found_indices(), Vec::<usize>::new());
}

#[test]
fn insert_in_order_keeps_offsets_sorted() {
    let mut m = manager("");
    for o in [5, 1, 9, 3, 7] {
        m.insert_in_order(o);
    }
    assert_eq!(m.found_indices(), vec![1, 3, 5, 7, 9]);
    m.insert_in_order(5);
    assert_eq!(m.found_indices(), vec![1, 3, 5, 5, 7, 9]);
    m.insert_in_order(0);
    m.insert_in_order(10);
    assert_eq!(m.found_indices(), vec![0, 1, 3, 5, 5, 7, 9, 10]);
}

#[test]
fn remove_element_drops_every_copy() {
    let mut m = manager("");
    for o in [2, 4, 4, 6] {
        m.insert_in_order(o);
    }
    m.remove_element(4);
    assert_eq!(m.found_indices(), vec![2, 6]);
    m.remove_element(100);
    assert_eq!(m.found_indices(), vec![2, 6]);
}

#[test]
fn remove_last_and_clear_on_empty_do_not_panic() {
    let mut m = manager("text");
    m.remove_last();
    m.clear();
    m.remove_element(0);
    assert_eq!(m.found_indices(), Vec::<usize>::new());
}

#[test]
fn remove_last_drops_last_surfaced_match() {
    let mut m = manager("ababab");
    assert_eq!(m.find_next("ab"), Some(0));
    assert_eq!(m.found_indices(), vec![2, 4, 0]);
    m.remove_last();
    assert_eq!(m.found_indices(), vec![2, 4]);
    assert_eq!(m.find_next("ab"), Some(2));
}

#[test]
fn clear_forgets_the_cache() {
    let mut m = manager("ababab");
    m.find_next("ab");
    m.clear();
    assert_eq!(m.found_indices(), Vec::<usize>::new());
    assert_eq!(m.find_next("ab"), Some(0));
}

#[test]
fn replace_all_rewrites_the_content() {
    let mut m = manager("a-b-c");
    assert_eq!(m.replace_all("-", "+"), "a+b+c");
    assert_eq!(m.get_content(), "a+b+c");
    assert_eq!(m.replace_all("aa", "x"), "a+b+c");
    let mut n = manager("aaa");
    assert_eq!(n.replace_all("aa", "b"), "ba");
}

#[test]
fn replace_all_keeps_the_cache() {
    let mut m = manager("ab ab");
    m.find_next("ab");
    m.replace_all("ab", "xyz");
    assert_eq!(m.found_indices(), vec![3, 0]);
}

#[test]
fn get_and_set_content() {
    let mut m = manager("first");
    assert_eq!(m.get_content(), "first");
    m.set_content("second".to_string());
    assert_eq!(m.get_content(), "second");
}
