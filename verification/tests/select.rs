use ponysay::paths::{file_stem_of, to_pony_name};
use ponysay::pony::{DisplayError, Pony};
use ponysay::quote::{calculate_quote, quote_constraint, split_names, with_quote_constraint, QuoteSource};
use ponysay::select::{
    add_new, calculate_constraints, choose_one, choose_pony, constrain_ponies, discover,
    find_by_name, holds, pick, select_pony, Constraint, SelectError,
};
use ponysay::template::{parse_pony, ParseError, Token};

fn strings(items: &[&str]) -> Vec<String> {
    items.iter().map(|item| item.to_string()).collect()
}

fn names(ponies: &Vec<Pony>) -> Vec<String> {
    ponies.iter().map(|pony| pony.name().to_string()).collect()
}

fn name(text: &str) -> Constraint {
    Constraint::Name(text.to_string())
}

fn path(text: &str) -> Constraint {
    Constraint::Path(text.to_string())
}

#[test]
fn name_is_the_stem_of_a_pony_file() {
    assert_eq!(to_pony_name("share/ponies/alice.pony"), Some("alice".to_string()));
    assert_eq!(to_pony_name("alice.pony"), Some("alice".to_string()));
    assert_eq!(to_pony_name("a.b/alice.bob.pony"), Some("alice.bob".to_string()));
    assert_eq!(to_pony_name("..pony"), Some(".".to_string()));
}

#[test]
fn other_files_have_no_name() {
    assert_eq!(to_pony_name("share/ponies/alice.txt"), None);
    assert_eq!(to_pony_name("share/ponies/alice"), None);
    assert_eq!(to_pony_name("share/ponies/.pony"), None);
    assert_eq!(to_pony_name("share/ponies.pony/alice"), None);
    assert_eq!(to_pony_name("alice.pony/.."), None);
    assert_eq!(to_pony_name("dir/.."), None);
    assert_eq!(to_pony_name("."), None);
    assert_eq!(to_pony_name("/"), None);
    assert_eq!(to_pony_name("alice.PONY"), None);
    assert_eq!(to_pony_name("alice.pony2"), None);
    assert_eq!(to_pony_name(""), None);
}

#[test]
fn end_of_a_path_that_names_nothing_is_passed_over() {
    assert_eq!(to_pony_name("dir/bob.pony/"), Some("bob".to_string()));
    assert_eq!(to_pony_name("dir/bob.pony/."), Some("bob".to_string()));
    assert_eq!(to_pony_name("dir/bob.pony//./"), Some("bob".to_string()));
    assert_eq!(to_pony_name("./bob.pony"), Some("bob".to_string()));
    let pony = Pony::new("dir/bob.pony/".to_string()).unwrap();
    assert_eq!(pony.name(), "bob");
    assert_eq!(pony.path(), "dir/bob.pony/");
}

#[test]
fn stem_of_a_quote_file() {
    assert_eq!(file_stem_of("quotes/alice+bob.1"), Some("alice+bob".to_string()));
    assert_eq!(file_stem_of("quotes/alice+bob"), Some("alice+bob".to_string()));
    assert_eq!(file_stem_of("quotes/.hidden"), Some(".hidden".to_string()));
    assert_eq!(file_stem_of("a.b/c"), Some("c".to_string()));
    assert_eq!(file_stem_of("quotes/alice+bob/"), Some("alice+bob".to_string()));
    assert_eq!(file_stem_of("quotes/.."), None);
    assert_eq!(file_stem_of(""), None);
}

fn all_paths(alphabet: &[char], longest: usize) -> Vec<String> {
    let mut paths = vec![String::new()];
    let mut from = 0;
    for _ in 0..longest {
        let upto = paths.len();
        for i in from..upto {
            for c in alphabet {
                let mut longer = paths[i].clone();
                longer.push(*c);
                paths.push(longer);
            }
        }
        from = upto;
    }
    paths
}

#[test]
fn names_agree_with_the_paths_of_std() {
    for short in all_paths(&['/', '.', 'a'], 7) {
        let stem = std::path::Path::new(&short)
            .file_stem()
            .and_then(|stem| stem.to_str())
            .map(|stem| stem.to_string());
        assert_eq!(file_stem_of(&short), stem, "{:?}", short);
        for path in [short.replace('a', "b.pony"), short.replace('a', ".pony"), short.replace('a', "pony")] {
            let at = std::path::Path::new(&path);
            let name = if at.extension().and_then(|e| e.to_str()) == Some("pony") {
                at.file_stem().and_then(|stem| stem.to_str()).map(|stem| stem.to_string())
            } else {
                None
            };
            assert_eq!(to_pony_name(&path), name, "{:?}", path);
        }
    }
}

#[test]
fn quote_file_without_a_name_asks_for_no_one() {
    assert_eq!(quote_constraint("quotes/.."), name(""));
    assert_eq!(quote_constraint("quotes/alice/"), name("alice"));
}

#[test]
fn pony_knows_its_path_and_name() {
    let pony = Pony::new("dir/alice.pony".to_string()).unwrap();
    assert_eq!(pony.path(), "dir/alice.pony");
    assert_eq!(pony.name(), "alice");
    assert!(!pony.is_loaded());
    assert!(Pony::new("dir/alice.txt".to_string()).is_none());
}

#[test]
fn ponies_are_the_same_by_their_path() {
    let one = Pony::new("a/alice.pony".to_string()).unwrap();
    let mut same = Pony::new("a/alice.pony".to_string()).unwrap();
    same.load("$balloon$".to_string());
    let other = Pony::new("b/alice.pony".to_string()).unwrap();
    assert!(one == same);
    assert!(one != other);
}

#[test]
fn pony_keeps_the_text_it_was_given_first() {
    let mut pony = Pony::new("alice.pony".to_string()).unwrap();
    assert_eq!(pony.display("Hi".to_string()), Err(DisplayError::NotLoaded));
    pony.load("$balloon$\n $\\$\n  alice\n".to_string());
    assert!(pony.is_loaded());
    pony.load("other".to_string());
    assert_eq!(
        pony.display("Hi".to_string()),
        Ok(" ____ \n< Hi >\n ---- \n  \\ \n  alice\n".to_string())
    );
}

#[test]
fn pony_with_a_broken_template_is_not_shown() {
    let mut pony = Pony::new("alice.pony".to_string()).unwrap();
    pony.load("art $balloon".to_string());
    assert_eq!(
        pony.display("Hi".to_string()),
        Err(DisplayError::Parse(ParseError::UnterminatedSegment))
    );
}

#[test]
fn words_that_end_in_the_extension_are_paths() {
    let constraints = calculate_constraints(&strings(&["alice", "dir/bob.pony", ".pony", "pony"]));
    assert_eq!(constraints, vec![name("alice"), path("dir/bob.pony"), path(".pony"), name("pony")]);
}

#[test]
fn name_constraint_is_met_by_that_name_only() {
    let alice = Pony::new("dir/alice.pony".to_string()).unwrap();
    assert!(ponysay::select::matches(&alice, &name("alice")));
    assert!(!ponysay::select::matches(&alice, &name("bob")));
    assert!(!ponysay::select::matches(&alice, &path("dir/alice.pony")));
}

#[test]
fn discover_passes_over_what_is_no_template() {
    let found = discover(&strings(&["d/alice.pony", "d/readme.txt", "d/bob.pony", "d/.pony"]));
    assert_eq!(names(&found), strings(&["alice", "bob"]));
}

#[test]
fn without_constraints_every_template_is_a_candidate() {
    let paths = strings(&["d/alice.pony", "d/notes", "d/bob.pony"]);
    let found = constrain_ponies(&paths, vec![]);
    assert_eq!(names(&found), strings(&["alice", "bob"]));
}

#[test]
fn candidates_by_path_come_before_candidates_by_name() {
    let paths = strings(&["d/alice.pony", "d/bob.pony", "d/carol.pony"]);
    let found = constrain_ponies(&paths, vec![name("carol"), path("x/dave.pony"), name("alice")]);
    assert_eq!(names(&found), strings(&["dave", "alice", "carol"]));
    assert_eq!(found[0].path(), "x/dave.pony");
}

#[test]
fn path_without_extension_is_dropped() {
    let paths = strings(&["d/alice.pony", "d/bob.pony"]);
    let with = constrain_ponies(&paths, vec![path("x/dave.txt"), name("bob")]);
    let without = constrain_ponies(&paths, vec![name("bob")]);
    assert_eq!(names(&with), names(&without));
    assert_eq!(names(&with), strings(&["bob"]));
}

#[test]
fn path_without_extension_alone_leaves_no_candidate() {
    let paths = strings(&["d/alice.pony"]);
    assert!(constrain_ponies(&paths, vec![path("x/dave.txt")]).is_empty());
    assert_eq!(choose_pony(&paths, vec![path("x/dave.txt")]), Err(SelectError::NoMatch));
}

#[test]
fn single_name_is_always_chosen() {
    let paths = strings(&["d/alice.pony", "d/bob.pony", "d/carol.pony"]);
    for _ in 0..50 {
        let chosen = choose_pony(&paths, vec![name("alice")]).unwrap();
        assert_eq!(chosen.name(), "alice");
        assert_eq!(chosen.path(), "d/alice.pony");
    }
}

#[test]
fn every_candidate_is_chosen_sometimes() {
    let paths = strings(&["d/alice.pony", "d/bob.pony", "d/carol.pony"]);
    let mut seen = [false, false, false];
    for _ in 0..2000 {
        let chosen = choose_pony(&paths, vec![]).unwrap();
        match chosen.name() {
            "alice" => seen[0] = true,
            "bob" => seen[1] = true,
            "carol" => seen[2] = true,
            other => panic!("{} is no candidate", other),
        }
    }
    assert_eq!(seen, [true, true, true]);
}

#[test]
fn no_template_and_no_match_are_told_apart() {
    assert_eq!(choose_pony(&strings(&["d/notes.txt"]), vec![]), Err(SelectError::NoPonies));
    assert_eq!(choose_pony(&vec![], vec![name("alice")]), Err(SelectError::NoPonies));
    assert_eq!(
        choose_pony(&strings(&["d/bob.pony"]), vec![name("alice")]),
        Err(SelectError::NoMatch)
    );
}

#[test]
fn select_pony_of_none_and_of_one() {
    assert!(select_pony(vec![]).is_none());
    let only = select_pony(discover(&strings(&["d/alice.pony"]))).unwrap();
    assert_eq!(only.name(), "alice");
}

#[test]
fn pick_takes_the_item_at_the_index() {
    assert_eq!(pick(vec![10, 20, 30], 0), Some(10));
    assert_eq!(pick(vec![10, 20, 30], 1), Some(20));
    assert_eq!(pick(vec![10, 20, 30], 2), Some(30));
    assert_eq!(pick(vec![10, 20, 30], 3), None);
    assert_eq!(pick(Vec::<u8>::new(), 0), None);
}

#[test]
fn choose_one_stays_within_the_list() {
    assert_eq!(choose_one(Vec::<u8>::new()), None);
    assert_eq!(choose_one(vec![7]), Some(7));
    for _ in 0..200 {
        let chosen = choose_one(vec![1, 2, 3]).unwrap();
        assert!(chosen == 1 || chosen == 2 || chosen == 3);
    }
}

#[test]
fn names_of_a_quote_file() {
    assert_eq!(split_names("alice+bob"), strings(&["alice", "bob"]));
    assert_eq!(split_names("alice"), strings(&["alice"]));
    assert_eq!(split_names(""), strings(&[""]));
    assert_eq!(split_names("a++b+"), strings(&["a", "", "b", ""]));
}

#[test]
fn quote_names_one_of_its_characters() {
    let mut seen = [false, false];
    for _ in 0..500 {
        match quote_constraint("quotes/alice+bob.3") {
            Constraint::Name(chosen) if chosen == "alice" => seen[0] = true,
            Constraint::Name(chosen) if chosen == "bob" => seen[1] = true,
            other => panic!("{:?} is not in the quote's name", other),
        }
    }
    assert_eq!(seen, [true, true]);
    assert_eq!(quote_constraint("quotes/alice"), name("alice"));
}

#[test]
fn quote_constraint_gives_way_to_the_callers() {
    assert_eq!(with_quote_constraint(vec![], Some(name("alice"))), vec![name("alice")]);
    assert_eq!(with_quote_constraint(vec![name("bob")], Some(name("alice"))), vec![name("bob")]);
    assert_eq!(with_quote_constraint(vec![name("bob")], None), vec![name("bob")]);
    assert_eq!(with_quote_constraint(vec![], None), vec![]);
}

#[test]
fn quote_comes_from_the_first_source_there_is() {
    assert_eq!(calculate_quote(true, Some("Hi".to_string()), true), QuoteSource::RandomFile);
    assert_eq!(
        calculate_quote(false, Some("Hi".to_string()), true),
        QuoteSource::Argument("Hi".to_string())
    );
    assert_eq!(calculate_quote(false, None, true), QuoteSource::Piped);
    assert_eq!(calculate_quote(false, None, false), QuoteSource::Nothing);
}

#[test]
fn first_path_of_a_name_is_found() {
    let paths = strings(&["a/readme", "a/bob.pony", "a/alice.pony", "b/alice.pony"]);
    assert_eq!(find_by_name(&paths, "alice"), Some(2));
    assert_eq!(find_by_name(&paths, "bob"), Some(1));
    assert_eq!(find_by_name(&paths, "readme"), None);
    assert_eq!(find_by_name(&vec![], "alice"), None);
}

#[test]
fn template_named_by_path_and_by_name_is_one_candidate() {
    let paths = strings(&["d/alice.pony"]);
    let found = constrain_ponies(&paths, vec![path("d/alice.pony"), name("alice")]);
    assert_eq!(found.len(), 1);
    assert_eq!(found[0].path(), "d/alice.pony");
}

#[test]
fn candidate_named_twice_is_taken_once() {
    let paths = strings(&["d/alice.pony", "d/bob.pony", "d/alice.pony"]);
    let found = constrain_ponies(
        &paths,
        vec![path("x/dave.pony"), name("bob"), path("x/dave.pony"), name("alice"), name("bob")],
    );
    let listed: Vec<String> = found.iter().map(|pony| pony.path().to_string()).collect();
    assert_eq!(listed, strings(&["x/dave.pony", "d/alice.pony", "d/bob.pony"]));
    let all = constrain_ponies(&paths, vec![]);
    let listed: Vec<String> = all.iter().map(|pony| pony.path().to_string()).collect();
    assert_eq!(listed, strings(&["d/alice.pony", "d/bob.pony"]));
}

#[test]
fn same_name_at_two_paths_is_two_candidates() {
    let paths = strings(&["d/alice.pony"]);
    let found = constrain_ponies(&paths, vec![path("x/alice.pony"), name("alice")]);
    let listed: Vec<String> = found.iter().map(|pony| pony.path().to_string()).collect();
    assert_eq!(listed, strings(&["x/alice.pony", "d/alice.pony"]));
}

#[test]
fn pick_among_candidates_is_not_biased_by_repeats() {
    let paths = strings(&["d/alice.pony", "d/bob.pony"]);
    let mut alice = 0;
    let rounds = 4000;
    for _ in 0..rounds {
        let constraints = vec![path("d/alice.pony"), name("alice"), name("bob")];
        if choose_pony(&paths, constraints).unwrap().name() == "alice" {
            alice += 1;
        }
    }
    assert!(alice > rounds * 2 / 5 && alice < rounds * 3 / 5, "{} of {}", alice, rounds);
}

#[test]
fn character_is_added_unless_its_path_is_held() {
    let mut ponies = discover(&strings(&["d/alice.pony"]));
    assert!(holds(&ponies, "d/alice.pony"));
    assert!(!holds(&ponies, "x/alice.pony"));
    add_new(&mut ponies, Pony::new("d/alice.pony".to_string()).unwrap());
    assert_eq!(ponies.len(), 1);
    add_new(&mut ponies, Pony::new("x/alice.pony".to_string()).unwrap());
    assert_eq!(ponies.len(), 2);
    assert_eq!(ponies[1].path(), "x/alice.pony");
}

#[test]
fn what_is_shown_is_one_literal_when_read_again() {
    let mut pony = Pony::new("alice.pony".to_string()).unwrap();
    pony.load("$$$\nNAME: alice\n\n$$$\n$balloon$\n $\\$\n  alice\n".to_string());
    let shown = pony.display("Hi there".to_string()).unwrap();
    assert!(!shown.contains('$'));
    let again = parse_pony(&shown).unwrap();
    assert!(again.metadata.is_empty());
    assert_eq!(again.tokens, vec![Token::Literal(shown)]);
}
