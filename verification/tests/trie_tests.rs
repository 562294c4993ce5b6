use autocomplete::trie::AutocompleteSystem;

fn setup_with_usernames() -> AutocompleteSystem {
    let mut system = AutocompleteSystem::new();
    let usernames = ["alice", "albert", "bob", "carol", "caroline"];
    for &username in &usernames {
        system.insert(username);
    }
    system
}

#[test]
fn test_starts_with_specific() {
    let system = setup_with_usernames();

    let mut al_results = system.starts_with("al");
    al_results.sort();
    let mut expected_al = vec!["alice", "albert"];
    expected_al.sort();
    assert_eq!(al_results, expected_al);

    let mut car_results = system.starts_with("car");
    car_results.sort();
    let mut expected_car = vec!["carol", "caroline"];
    expected_car.sort();
    assert_eq!(car_results, expected_car);

    let no_results = system.starts_with("xyz");
    assert!(no_results.is_empty());
}

#[test]
fn test_insert_empty_string() {
    let mut system = setup_with_usernames();
    system.insert("");
    assert!(
        !system.contains(""),
        "Inserting empty string should not mark root as end of word"
    );
}

#[test]
fn test_search_empty_string() {
    let system = setup_with_usernames();
    assert!(
        !system.contains(""),
        "Searching for empty string should return false"
    );
}

#[test]
fn test_autocomplete_empty_string() {
    let system = setup_with_usernames();
    let results = system.starts_with("");

    let mut expected_results = vec!["alice", "albert", "bob", "carol", "caroline"];
    expected_results.sort();

    let mut results_sorted = results.clone();
    results_sorted.sort();

    assert_eq!(
        results_sorted, expected_results,
        "Autocomplete for empty string should return all usernames"
    );
}

#[test]
fn test_contains_after_insert() {
    let mut system = AutocompleteSystem::new();
    system.insert("caroline");
    assert!(system.contains("caroline"));
    assert!(!system.contains("nope"));
    assert!(!system.contains("carol"), "a proper prefix of a key is not a member");
}

#[test]
fn test_insert_twice_no_duplicates() {
    let mut system = AutocompleteSystem::new();
    system.insert("bob");
    system.insert("bob");
    let results = system.starts_with("b");
    assert_eq!(results, vec!["bob"]);
    assert!(system.contains("bob"));
}

#[test]
fn test_insert_empty_changes_nothing() {
    let mut system = setup_with_usernames();
    system.insert("");
    assert!(system.contains("alice"));
    let mut results = system.starts_with("");
    results.sort();
    let mut expected = vec!["alice", "albert", "bob", "carol", "caroline"];
    expected.sort();
    assert_eq!(results, expected);
}

#[test]
fn test_new_index_is_empty() {
    let system = AutocompleteSystem::new();
    assert!(!system.contains("anything"));
    assert!(system.starts_with("").is_empty());
    assert!(system.starts_with("a").is_empty());
}

#[test]
fn test_key_that_extends_another() {
    let mut system = AutocompleteSystem::new();
    system.insert("car");
    system.insert("carol");
    assert!(system.contains("car"));
    assert!(system.contains("carol"));
    let mut results = system.starts_with("car");
    results.sort();
    assert_eq!(results, vec!["car", "carol"]);
    let mut all = system.starts_with("");
    all.sort();
    assert_eq!(all, vec!["car", "carol"]);
}

#[test]
fn test_prefix_equal_to_key() {
    let mut system = AutocompleteSystem::new();
    system.insert("bob");
    let results = system.starts_with("bob");
    assert_eq!(results, vec!["bob"]);
    let none = system.starts_with("bobby");
    assert!(none.is_empty());
}

#[test]
fn test_full_scenario() {
    let system = setup_with_usernames();
    assert!(system.contains("caroline"));
    assert!(!system.contains("nope"));

    let mut car = system.starts_with("car");
    car.sort();
    assert_eq!(car, vec!["carol", "caroline"]);

    let b = system.starts_with("b");
    assert_eq!(b, vec!["bob"]);

    let mut al = system.starts_with("al");
    al.sort();
    assert_eq!(al, vec!["albert", "alice"]);

    let mut all = system.starts_with("");
    all.sort();
    assert_eq!(all, vec!["albert", "alice", "bob", "carol", "caroline"]);

    let xyz = system.starts_with("xyz");
    assert!(xyz.is_empty());
}
