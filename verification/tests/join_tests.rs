use transform::filter::FilterSeed;
use transform::join::JoinSet;

fn rx(p: &str) -> FilterSeed {
    FilterSeed::Regex(String::from(p))
}

fn run(set: &JoinSet, inputs: &[&str]) -> Vec<bool> {
    let mut h = set.new_handle();
    inputs.iter().map(|s| h.should_join(s)).collect()
}

#[test]
fn start_end_machine() {
    let set = JoinSet::new_filter(Some(vec![rx("^BEGIN")]), None, Some(vec![rx("^END")]))
        .expect("legal combination");
    // outside a group only a start matches; inside, everything belongs to it
    // until the end line closes it
    assert_eq!(
        run(&set, &["noise", "BEGIN foo", "middle", "END bar", "trailing"]),
        vec![false, true, true, true, false]
    );
}

#[test]
fn start_while_machine() {
    let set = JoinSet::new_filter(Some(vec![rx("^BEGIN")]), Some(vec![rx("^\\s")]), None)
        .expect("legal combination");
    assert_eq!(
        run(&set, &["BEGIN", " in", " in", "out", "BEGIN"]),
        vec![true, true, true, false, true]
    );
}

#[test]
fn while_machine_is_stateless() {
    let set = JoinSet::new_filter(None, Some(vec![rx("^\\s")]), None).expect("legal combination");
    assert_eq!(run(&set, &["a", " b", " c", "d"]), vec![false, true, true, false]);
}

#[test]
fn should_join_is_deterministic() {
    let set = JoinSet::new_filter(Some(vec![rx("^B")]), None, Some(vec![rx("^E")]))
        .expect("legal combination");
    let inputs = ["x", "B1", "y", "E1", "B2", "z"];
    assert_eq!(run(&set, &inputs), run(&set, &inputs));
}

#[test]
fn illegal_combinations_are_rejected() {
    assert!(JoinSet::new_filter(None, None, None).is_err());
    assert!(JoinSet::new_filter(Some(vec![rx("a")]), None, None).is_err());
    assert!(JoinSet::new_filter(None, None, Some(vec![rx("a")])).is_err());
    assert!(JoinSet::new_filter(None, Some(vec![rx("a")]), Some(vec![rx("b")])).is_err());
    assert!(
        JoinSet::new_filter(Some(vec![rx("a")]), Some(vec![rx("b")]), Some(vec![rx("c")])).is_err()
    );
    assert!(JoinSet::new_filter(Some(vec![rx("a")]), None, Some(vec![rx("b")])).is_ok());
    assert!(JoinSet::new_filter(Some(vec![rx("a")]), Some(vec![rx("b")]), None).is_ok());
    assert!(JoinSet::new_filter(None, Some(vec![rx("a")]), None).is_ok());
}

#[test]
fn bad_regex_in_join_is_rejected() {
    assert!(JoinSet::new_filter(None, Some(vec![rx("(")]), None).is_err());
}
