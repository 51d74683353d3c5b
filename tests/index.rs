use player_index::hash_table::HashMap;
use player_index::trie::Trie;

#[test]
fn test_hashmap_insertion_and_get() {
    let mut map = HashMap::new(10);

    map.insert(1, "one");
    map.insert(2, "two");
    map.insert(10, "ten");

    assert_eq!(map.get(&1), Some(&mut "one"));
    assert_eq!(map.get(&2), Some(&mut "two"));
    assert_eq!(map.get(&10), Some(&mut "ten"));
    assert_eq!(map.get(&3), None);
}

#[test]
fn test_trie_insertion_and_search() {
    let mut trie = Trie::new();

    trie.insert("hello");
    trie.insert("hELl");
    trie.insert("heLIcopter");

    assert!(trie.search("hello"));
    assert!(trie.search("hell"));
    assert!(trie.search("helicopter"));
    assert!(!trie.search("helic"));
    assert!(!trie.search("helloo"));
}

#[test]
fn test_trie_insert_with_id_and_get_id() {
    let mut trie = Trie::new();

    trie.insert_with_id("aPPle", 65);
    trie.insert_with_id("baNAna", 66);
    trie.insert("cherry");

    assert_eq!(trie.get_id("apple"), Some(vec![65]));
    assert_eq!(trie.get_id("banana"), Some(vec![66]));
    assert_eq!(trie.get_id("cherry"), None);
}

#[test]
fn test_trie_starts_with() {
    let mut trie = Trie::new();

    trie.insert("apple");
    trie.insert("app");
    trie.insert("banana");

    assert!(trie.starts_with("app"));
    assert!(trie.starts_with("baNana"));
    assert!(!trie.starts_with("bananas"));
    assert!(!trie.starts_with("bat"));
}

#[test]
fn test_trie_get_words_starting_with() {
    let mut trie = Trie::new();

    trie.insert("AppLe");
    trie.insert("aPp");
    trie.insert("bAnAna");
    trie.insert("baT");

    let words_with_app = trie.get_words_starting_with("app");
    assert_eq!(words_with_app, vec!["app".to_string(), "apple".to_string()]);

    let words_with_b = trie.get_words_starting_with("b");
    assert_eq!(words_with_b, vec!["banana".to_string(), "bat".to_string()]);

    let words_with_nonexistent_prefix = trie.get_words_starting_with("nonexistent");
    assert_eq!(words_with_nonexistent_prefix, Vec::<String>::new());
}

#[test]
fn first_inserted_value_wins() {
    let mut map: HashMap<u32, &str> = HashMap::new(7);
    map.insert(3, "first");
    map.insert(10, "other bucket mate");
    map.insert(3, "second");
    assert_eq!(map.search_non_mut(&3), Some(&"first"));
    assert_eq!(map.search_non_mut(&10), Some(&"other bucket mate"));
    assert_eq!(map.search_non_mut(&17), None);
}

#[test]
fn missing_key_is_not_found() {
    let mut map: HashMap<u32, u32> = HashMap::new(5);
    assert_eq!(map.search(&4), None);
    map.insert(4, 40);
    assert_eq!(map.search(&9), None);
    assert_eq!(map.search_non_mut(&4), Some(&40));
}

#[test]
fn search_changes_value_in_place() {
    let mut map: HashMap<u32, u32> = HashMap::new(3);
    map.insert(5, 1);
    if let Some(v) = map.search(&5) {
        *v = 9;
    }
    assert_eq!(map.search_non_mut(&5), Some(&9));
}

#[test]
fn hash_and_occupancy() {
    let mut map: HashMap<u32, u32> = HashMap::new(4);
    assert_eq!(map.hash(&9), 1);
    assert_eq!(map.hash(&4), 0);
    assert_eq!(map.occupancy(), 0);
    map.insert(1, 0);
    map.insert(5, 0);
    map.insert(2, 0);
    assert_eq!(map.occupancy(), 2);
    assert_eq!(map.bucket_count(), 4);
    assert_eq!(map.bucket(1).len(), 2);
}

#[test]
fn char_keys_hash_by_code() {
    let mut map: HashMap<char, usize> = HashMap::new(26);
    assert_eq!(map.hash(&'a'), 19);
    map.insert('a', 1);
    map.insert('{', 2);
    assert_eq!(map.search_non_mut(&'a'), Some(&1));
    assert_eq!(map.search_non_mut(&'{'), Some(&2));
}

#[test]
fn words_under_prefix_scenario() {
    let mut trie = Trie::new();
    trie.insert_with_id("Ann", 1);
    trie.insert_with_id("Anna", 2);
    assert_eq!(trie.get_words_starting_with("an"), vec!["ann".to_string(), "anna".to_string()]);
    assert_eq!(trie.get_words_starting_with("AN"), vec!["ann".to_string(), "anna".to_string()]);
}

#[test]
fn words_in_colliding_buckets_are_all_listed() {
    let mut trie = Trie::new();
    trie.insert("ab");
    trie.insert("a|");
    let words = trie.get_words_starting_with("a");
    assert_eq!(words.len(), 2);
    assert!(words.contains(&"ab".to_string()));
    assert!(words.contains(&"a|".to_string()));
}

#[test]
fn ids_are_kept_per_insertion() {
    let mut trie = Trie::new();
    trie.insert_with_id("Great", 1);
    trie.insert_with_id("great", 1);
    trie.insert_with_id("GREAT", 3);
    assert_eq!(trie.get_id("great"), Some(vec![1, 1, 3]));
    assert_eq!(trie.get_id("gre"), None);
    assert!(trie.starts_with("gre"));
    assert!(trie.starts_with(""));
    assert_eq!(trie.get_words_starting_with("great"), vec!["great".to_string()]);
    assert_eq!(trie.ids_of_word("great"), Some(vec![1, 1, 3]));
    assert_eq!(trie.ids_of_word("GREAT"), None);
}

#[test]
fn empty_trie_answers_nothing() {
    let trie = Trie::new();
    assert!(!trie.search("a"));
    assert!(!trie.starts_with("a"));
    assert!(trie.starts_with(""));
    assert_eq!(trie.get_id("a"), None);
    assert_eq!(trie.get_words_starting_with(""), Vec::<String>::new());
}

#[test]
fn space_and_letter_sharing_a_bucket_are_both_listed() {
    let mut t = Trie::new();
    t.insert("an");
    t.insert("a b");
    assert!(t.search("a b"));
    assert!(t.search("an"));
    let words = t.get_words_starting_with("a");
    assert_eq!(words.len(), 2);
    assert!(words.contains(&"an".to_string()));
    assert!(words.contains(&"a b".to_string()));
}
