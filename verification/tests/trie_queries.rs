use libpealimrs::prefix_tree::Trie;

fn strings(items: &[&str]) -> Vec<String> {
    items.iter().map(|s| String::from(*s)).collect()
}

fn sorted(mut v: Vec<String>) -> Vec<String> {
    v.sort();
    v
}

#[test]
fn empty_trie_finds_nothing() {
    let trie = Trie::new();
    assert!(trie.find("", 15).is_empty());
    assert!(trie.find("a", 15).is_empty());
}

#[test]
fn prefixes_of_an_inserted_key_find_its_id() {
    let mut trie = Trie::new();
    trie.insert(String::from("labrador"), String::from("2"));
    let key: Vec<char> = "labrador".chars().collect();
    for n in 0..=key.len() {
        let prefix: String = key[..n].iter().collect();
        assert_eq!(trie.find(&prefix, usize::MAX), strings(&["2"]));
    }
}

#[test]
fn prefix_without_extension_finds_nothing() {
    let mut trie = Trie::new();
    trie.insert(String::from("laboratory"), String::from("1"));
    assert!(trie.find("lab0", 15).is_empty());
    assert!(trie.find("laboratoryx", 15).is_empty());
    assert!(trie.find("b", 15).is_empty());
}

#[test]
fn lookup_by_second_prefix_finds_third_word() {
    let mut trie = Trie::new();
    trie.insert(String::from("laboratory"), String::from("1"));
    trie.insert(String::from("labrador"), String::from("2"));
    trie.insert(String::from("lincoln"), String::from("3"));
    assert_eq!(sorted(trie.find("lab", 15)), strings(&["1", "2"]));
    assert_eq!(trie.find("lin", 15), strings(&["3"]));
}

#[test]
fn limit_keeps_the_shallowest_in_order() {
    let mut trie = Trie::new();
    trie.insert(String::from("laboratory"), String::from("1"));
    trie.insert(String::from("labrador"), String::from("2"));
    trie.insert(String::from("labyrinth"), String::from("3"));
    assert_eq!(trie.find("lab", 2), strings(&["2", "3"]));
    assert_eq!(trie.find("lab", 1), strings(&["2"]));
    assert_eq!(trie.find("lab", 3), strings(&["2", "3", "1"]));
    assert_eq!(trie.find("lab", 15), strings(&["2", "3", "1"]));
}

#[test]
fn limit_zero_finds_nothing() {
    let mut trie = Trie::new();
    trie.insert(String::from("a"), String::from("1"));
    assert!(trie.find("a", 0).is_empty());
    assert!(trie.find("", 0).is_empty());
}

#[test]
fn empty_prefix_matches_the_whole_trie() {
    let mut trie = Trie::new();
    trie.insert(String::from("b"), String::from("1"));
    trie.insert(String::from("ab"), String::from("2"));
    trie.insert(String::from(""), String::from("0"));
    assert_eq!(trie.find("", 15), strings(&["0", "1", "2"]));
}

#[test]
fn the_prefix_node_itself_is_tested_first() {
    let mut trie = Trie::new();
    trie.insert(String::from("apple"), String::from("long"));
    trie.insert(String::from("app"), String::from("short"));
    assert_eq!(trie.find("app", 1), strings(&["short"]));
}

#[test]
fn reinserting_a_pair_reports_it_once() {
    let mut trie = Trie::new();
    trie.insert(String::from("apple"), String::from("7"));
    trie.insert(String::from("apple"), String::from("7"));
    assert_eq!(trie.find("apple", 15), strings(&["7"]));
    assert_eq!(trie.find("", 15), strings(&["7"]));
}

#[test]
fn a_key_may_carry_several_ids() {
    let mut trie = Trie::new();
    trie.insert(String::from("apple"), String::from("1"));
    trie.insert(String::from("apple"), String::from("2"));
    assert_eq!(sorted(trie.find("apple", 15)), strings(&["1", "2"]));
    assert_eq!(trie.find("apple", 1).len(), 1);
}

#[test]
fn an_id_under_several_keys_is_listed_once() {
    let mut trie = Trie::new();
    trie.insert(String::from("hello"), String::from("x"));
    trie.insert(String::from("help"), String::from("x"));
    trie.insert(String::from("he"), String::from("x"));
    assert_eq!(trie.find("he", 15), strings(&["x"]));
    assert_eq!(trie.find("hel", 15), strings(&["x"]));
}

#[test]
fn keys_are_sequences_of_code_points() {
    let mut trie = Trie::new();
    trie.insert(String::from("ללכת"), String::from("go"));
    trie.insert(String::from("ללמוד"), String::from("learn"));
    trie.insert(String::from("לשבת"), String::from("sit"));
    assert_eq!(trie.find("לל", 15), strings(&["go", "learn"]));
    assert_eq!(trie.find("לש", 15), strings(&["sit"]));
    assert_eq!(trie.find("ל", 1), strings(&["go"]));
}

#[test]
fn find_string_is_find() {
    let mut trie = Trie::new();
    trie.insert(String::from("rust"), String::from("0"));
    trie.insert(String::from("rusty"), String::from("1"));
    assert_eq!(trie.find_string(String::from("rust"), 15), trie.find("rust", 15));
    assert_eq!(trie.find_string(String::from("rust"), 1), strings(&["0"]));
}
