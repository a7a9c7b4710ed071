use transform::filter::{FilterSeed, FilterSet};

fn rx(p: &str) -> FilterSeed {
    FilterSeed::Regex(String::from(p))
}

fn set(entries: Vec<(&str, Vec<FilterSeed>)>) -> FilterSet {
    let entries = entries
        .into_iter()
        .map(|(n, s)| (String::from(n), s))
        .collect::<Vec<_>>();
    FilterSet::try_new(entries).expect("valid configuration")
}

#[test]
fn regex_leaf_matches_anywhere() {
    let fs = set(vec![("digits", vec![rx("^\\d+$")])]);
    assert!(fs.is_match_with("digits", "123"));
    assert!(!fs.is_match_with("digits", "abc"));
    assert!(!fs.is_match_with("digits", "12a"));
    let fs2 = set(vec![("mid", vec![rx("bc")])]);
    assert!(fs2.is_match_with("mid", "abcd"));
}

#[test]
fn empty_expression_list_always_matches() {
    let fs = set(vec![("anything", vec![])]);
    assert!(fs.is_match_with("anything", ""));
    assert!(fs.is_match_with("anything", "whatever"));
}

#[test]
fn top_level_list_is_a_conjunction() {
    let fs = set(vec![("both", vec![rx("^a"), rx("z$")])]);
    assert!(fs.is_match_with("both", "a...z"));
    assert!(!fs.is_match_with("both", "a..."));
    assert!(!fs.is_match_with("both", "...z"));
}

#[test]
fn and_or_combinators() {
    let fs = set(vec![
        (
            "mix",
            vec![FilterSeed::Or(vec![
                FilterSeed::And(vec![rx("^a"), rx("b$")]),
                rx("^zz"),
            ])],
        ),
    ]);
    assert!(fs.is_match_with("mix", "a...b"));
    assert!(fs.is_match_with("mix", "zz!"));
    assert!(!fs.is_match_with("mix", "a...c"));
}

#[test]
fn not_inverts() {
    let fs = set(vec![("no_digits", vec![FilterSeed::Not(vec![rx("\\d")])])]);
    assert!(fs.is_match_with("no_digits", "abc"));
    assert!(!fs.is_match_with("no_digits", "a1c"));
}

#[test]
fn not_is_involutive() {
    // negate of Not(e) evaluates as e, for a leaf and for a combinator
    let plain = set(vec![("e", vec![rx("^x")])]);
    let doubled = set(vec![(
        "e",
        vec![FilterSeed::Not(vec![FilterSeed::Not(vec![rx("^x")])])],
    )]);
    for text in ["x-ray", "yz", "", "xx"] {
        assert_eq!(plain.is_match_with("e", text), doubled.is_match_with("e", text));
    }
    let plain2 = set(vec![("e", vec![FilterSeed::And(vec![rx("a"), rx("b")])])]);
    let doubled2 = set(vec![(
        "e",
        vec![FilterSeed::Not(vec![FilterSeed::Not(vec![FilterSeed::And(vec![
            rx("a"),
            rx("b"),
        ])])])],
    )]);
    for text in ["ab", "a", "b", ""] {
        assert_eq!(plain2.is_match_with("e", text), doubled2.is_match_with("e", text));
    }
}

#[test]
fn and_short_circuits_on_first_false() {
    // the second pattern would match everything; the conjunction is still
    // false because the first one already failed
    let fs = set(vec![("sc", vec![FilterSeed::And(vec![rx("^never-ever$"), rx(".*")])])]);
    assert!(!fs.is_match_with("sc", "something else"));
}

#[test]
fn is_match_all_requires_every_filter() {
    let fs = set(vec![("a", vec![rx("^a")]), ("z", vec![rx("z$")])]);
    assert!(fs.is_match_all("a...z"));
    assert!(!fs.is_match_all("a..."));
    assert!(!fs.is_match_all("...z"));
}

#[test]
fn duplicate_names_are_rejected() {
    let entries = vec![
        (String::from("dup"), vec![rx(".*")]),
        (String::from("dup"), vec![rx("^a")]),
    ];
    assert!(FilterSet::try_new(entries).is_err());
}

#[test]
fn invalid_regex_is_rejected() {
    let entries = vec![(String::from("bad"), vec![rx("foo(bar")])];
    assert!(FilterSet::try_new(entries).is_err());
    let entries2 = vec![(String::from("ok"), vec![rx("foo")])];
    assert!(FilterSet::new_filter(entries2).is_ok());
}

#[test]
fn unknown_name_reported() {
    let fs = set(vec![("known", vec![rx(".*")])]);
    assert!(fs.contains_name("known"));
    assert!(!fs.contains_name("unknown"));
}
