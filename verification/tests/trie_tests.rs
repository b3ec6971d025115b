use qst_ext_appsearcher_rust::trie::Trie;

#[test]
fn test_trie() {
    let mut trie = Trie::new();
    trie.insert("lol".to_string(), 2);
    assert_eq!(trie.search("l".to_string()), Some(&vec![2]));
}

#[test]
fn search_exact_word_gives_its_values_in_insertion_order() {
    let mut trie = Trie::new();
    trie.insert("code".to_string(), 1);
    trie.insert("code".to_string(), 5);
    trie.insert("coder".to_string(), 7);
    assert_eq!(trie.search("code".to_string()), Some(&vec![1, 5]));
    assert_eq!(trie.search("coder".to_string()), Some(&vec![7]));
}

#[test]
fn search_gives_first_completion_in_key_order() {
    let mut trie = Trie::new();
    trie.insert("abz".to_string(), 3);
    trie.insert("aby".to_string(), 4);
    trie.insert("abyx".to_string(), 5);
    assert_eq!(trie.search("ab".to_string()), Some(&vec![4]));
    assert_eq!(trie.search("a".to_string()), Some(&vec![4]));
    assert_eq!(trie.search("abz".to_string()), Some(&vec![3]));
}

#[test]
fn search_without_completion_is_none() {
    let mut trie = Trie::new();
    assert_eq!(trie.search("x".to_string()), None);
    trie.insert("lol".to_string(), 2);
    assert_eq!(trie.search("x".to_string()), None);
    assert_eq!(trie.search("lolx".to_string()), None);
}

#[test]
fn insert_lowercases_and_search_is_case_sensitive() {
    let mut trie = Trie::new();
    trie.insert("Firefox".to_string(), 9);
    assert_eq!(trie.search("firefox".to_string()), Some(&vec![9]));
    assert_eq!(trie.search("Firefox".to_string()), None);
}

#[test]
fn search_prefix_counts_every_alignment() {
    let mut trie = Trie::new();
    trie.insert("lol".to_string(), 2);
    let hits: Vec<i32> = trie.search_prefix("l".to_string()).into_iter().copied().collect();
    assert_eq!(hits, vec![2, 2]);
}

#[test]
fn search_prefix_is_case_insensitive_and_tolerates_gaps() {
    let mut trie = Trie::new();
    trie.insert("Visual Studio Code".to_string(), 1);
    trie.insert("Firefox".to_string(), 2);
    let hits: Vec<u32> = trie.search_prefix("VIS".to_string()).into_iter().copied().collect();
    assert_eq!(hits, vec![1]);
    let gaps: Vec<u32> = trie.search_prefix("frf".to_string()).into_iter().copied().collect();
    assert_eq!(gaps, vec![2]);
    let none: Vec<u32> = trie.search_prefix("zz".to_string()).into_iter().copied().collect();
    assert!(none.is_empty());
}

#[test]
fn search_prefix_gap_limit_is_three() {
    let mut trie = Trie::new();
    trie.insert("abcdex".to_string(), 1);
    trie.insert("abcdx".to_string(), 2);
    let hits: Vec<u32> = trie.search_prefix("x".to_string()).into_iter().copied().collect();
    assert_eq!(hits, vec![]);
    let near: Vec<u32> = trie.search_prefix("dx".to_string()).into_iter().copied().collect();
    assert_eq!(near, vec![2, 1]);
}

#[test]
fn empty_prefix_collects_everything_in_word_order() {
    let mut trie = Trie::new();
    trie.insert("b".to_string(), 2);
    trie.insert("a".to_string(), 1);
    trie.insert("ab".to_string(), 3);
    let all: Vec<u32> = trie.search_prefix(String::new()).into_iter().copied().collect();
    assert_eq!(all, vec![1, 3, 2]);
}

#[test]
fn inserted_value_is_found_by_search_and_prefix_search() {
    let mut trie = Trie::new();
    trie.insert("term".to_string(), 1u32);
    trie.insert("Term".to_string(), 2u32);
    assert_eq!(trie.search("term".to_string()), Some(&vec![1, 2]));
    let hits: Vec<u32> = trie.search_prefix("term".to_string()).into_iter().copied().collect();
    assert!(hits.contains(&2));
}

#[test]
fn prefix_search_finds_every_completion_and_only_stored_values() {
    let mut trie = Trie::new();
    let words = ["alpha", "alpine", "altitude", "beta", "alp"];
    for (i, w) in words.iter().enumerate() {
        trie.insert(w.to_string(), i as u32);
    }
    let hits: Vec<u32> = trie.search_prefix("alp".to_string()).into_iter().copied().collect();
    for (i, w) in words.iter().enumerate() {
        if w.starts_with("alp") {
            assert!(hits.contains(&(i as u32)));
        }
    }
    for h in &hits {
        assert!((*h as usize) < words.len());
    }
    assert!(!hits.contains(&3));
}

#[test]
fn first_completion_precedes_longer_and_larger_words() {
    let mut trie = Trie::new();
    trie.insert("ba".to_string(), 1u32);
    trie.insert("b".to_string(), 2u32);
    trie.insert("a".to_string(), 3u32);
    assert_eq!(trie.search(String::new()), Some(&vec![3]));
    assert_eq!(trie.search("b".to_string()), Some(&vec![2]));
}

#[test]
fn normalized_entry_points_take_the_key_as_given() {
    let mut trie = Trie::new();
    trie.insert_key("Mixed".to_string(), 1u32);
    assert_eq!(trie.search("Mixed".to_string()), Some(&vec![1]));
    assert_eq!(trie.search("mixed".to_string()), None);
    let exact: Vec<u32> = trie.search_prefix_key("Mi".to_string()).into_iter().copied().collect();
    assert_eq!(exact, vec![1]);
    let lowered: Vec<u32> = trie.search_prefix("Mi".to_string()).into_iter().copied().collect();
    assert!(lowered.is_empty());
}

#[test]
fn longer_query_never_adds_a_match() {
    let mut trie = Trie::new();
    for (i, w) in ["chrome", "chromium", "clock", "calculator"].iter().enumerate() {
        trie.insert(w.to_string(), i as u32);
    }
    let short: Vec<u32> = trie.search_prefix("c".to_string()).into_iter().copied().collect();
    let long: Vec<u32> = trie.search_prefix("chro".to_string()).into_iter().copied().collect();
    assert!(long.iter().all(|x| short.contains(x)));
    assert!(long.contains(&0) && long.contains(&1) && !long.contains(&2));
}

#[test]
fn insert_never_removes_a_match() {
    let mut trie = Trie::new();
    trie.insert("terminal".to_string(), 1u32);
    let before: Vec<u32> = trie.search_prefix("tml".to_string()).into_iter().copied().collect();
    trie.insert("term".to_string(), 2u32);
    let after: Vec<u32> = trie.search_prefix("tml".to_string()).into_iter().copied().collect();
    assert_eq!(before, vec![1]);
    assert!(before.iter().all(|x| after.contains(x)));
}

#[test]
fn empty_prefix_keeps_insertion_order_within_a_word() {
    let mut trie = Trie::new();
    trie.insert("b".to_string(), 1u32);
    trie.insert("A".to_string(), 2u32);
    trie.insert("b".to_string(), 3u32);
    trie.insert("a".to_string(), 4u32);
    let all: Vec<u32> = trie.search_prefix(String::new()).into_iter().copied().collect();
    assert_eq!(all, vec![2, 4, 1, 3]);
}

#[test]
fn insert_keeps_prefix_hit_counts() {
    let mut trie = Trie::new();
    trie.insert("lol".to_string(), 2u32);
    let before: Vec<u32> = trie.search_prefix("l".to_string()).into_iter().copied().collect();
    trie.insert("lo".to_string(), 5u32);
    let after: Vec<u32> = trie.search_prefix("l".to_string()).into_iter().copied().collect();
    assert_eq!(before, vec![2, 2]);
    let count = |v: &Vec<u32>, x: u32| v.iter().filter(|y| **y == x).count();
    assert!(count(&after, 2) >= count(&before, 2));
    assert!(after.contains(&5));
}

#[test]
fn insert_keeps_unrelated_search() {
    let mut trie = Trie::new();
    trie.insert("abc".to_string(), 1u32);
    trie.insert("abd".to_string(), 2u32);
    let before = trie.search("abd".to_string()).cloned();
    trie.insert("Abz".to_string(), 3u32);
    assert_eq!(trie.search("abd".to_string()).cloned(), before);
    assert_eq!(before, Some(vec![2]));
    assert_eq!(trie.search("x".to_string()), None);
}
