use ponysay::list::{name_precedes, pony_list};
use ponysay::pony::Pony;
use std::cmp::Ordering;

fn pony(path: &str) -> Pony {
    Pony::new(path.to_string()).unwrap()
}

#[test]
fn names_are_ordered_as_in_the_dictionary() {
    assert!(name_precedes("alice", "bob"));
    assert!(!name_precedes("bob", "alice"));
    assert!(name_precedes("al", "alice"));
    assert!(!name_precedes("alice", "al"));
    assert!(name_precedes("alice", "alice"));
    assert!(name_precedes("", "a"));
    assert!(name_precedes("", ""));
    assert!(name_precedes("Zecora", "applejack"));
    assert!(name_precedes("z", "é"));
}

#[test]
fn list_is_sorted_by_name() {
    let paths: Vec<String> = ["d/rarity.pony", "d/notes.txt", "d/applejack.pony", "d/spike.pony", "d/apple.pony"]
        .iter()
        .map(|path| path.to_string())
        .collect();
    let listed: Vec<String> = pony_list(&paths).iter().map(|p| p.name().to_string()).collect();
    assert_eq!(listed, vec!["apple", "applejack", "rarity", "spike"]);
}

#[test]
fn characters_of_one_name_keep_their_order() {
    let paths: Vec<String> =
        ["b/x.pony", "a/x.pony", "c/a.pony"].iter().map(|path| path.to_string()).collect();
    let listed: Vec<String> = pony_list(&paths).iter().map(|p| p.path().to_string()).collect();
    assert_eq!(listed, vec!["c/a.pony", "b/x.pony", "a/x.pony"]);
}

#[test]
fn list_of_nothing_is_empty() {
    assert!(pony_list(&vec![]).is_empty());
}

#[test]
fn ponies_compare_by_their_names() {
    assert_eq!(pony("z/alice.pony").partial_cmp(&pony("a/bob.pony")), Some(Ordering::Less));
    assert_eq!(pony("a/bob.pony").partial_cmp(&pony("z/alice.pony")), Some(Ordering::Greater));
    assert_eq!(pony("a/bob.pony").partial_cmp(&pony("z/bob.pony")), Some(Ordering::Equal));
    assert!(pony("z/alice.pony") < pony("a/bob.pony"));
}
