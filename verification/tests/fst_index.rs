use veloci::fst_index::{build_line_map, fuzzy_search, text_lines, FuzzyError};

fn strings(v: &[&str]) -> Vec<String> {
    v.iter().map(|s| s.to_string()).collect()
}

#[test]
fn fuzzy_search_finds_keys_within_the_distance() {
    let keys = strings(&["fa", "fo", "fob", "focus", "foo", "food", "foul"]);
    let found = fuzzy_search(&keys, "foo", 1).unwrap();
    assert_eq!(found, strings(&["fo", "fob", "foo", "food"]));
    let exact = fuzzy_search(&keys, "foo", 0).unwrap();
    assert_eq!(exact, strings(&["foo"]));
}

#[test]
fn fuzzy_search_of_a_far_term_finds_nothing() {
    let keys = strings(&["寿司は焦げられない"]);
    assert_eq!(fuzzy_search(&keys, "anschauen", 2).unwrap(), Vec::<String>::new());
    assert_eq!(fuzzy_search(&keys, "寿司は焦げられない", 0).unwrap(), keys);
}

#[test]
fn fuzzy_search_keeps_repeated_keys_once() {
    let keys = strings(&["a", "a", "b"]);
    assert_eq!(fuzzy_search(&keys, "a", 0).unwrap(), strings(&["a"]));
}

#[test]
fn fuzzy_search_refuses_unsorted_keys() {
    let keys = strings(&["b", "a"]);
    assert_eq!(fuzzy_search(&keys, "a", 1), Err(FuzzyError::Unsorted));
}

#[test]
fn line_map_maps_lines_to_positions() {
    let lines = strings(&["alpha", "beta", "gamma"]);
    let bytes = build_line_map(&lines).unwrap();
    let map = fst::Map::new(bytes).unwrap();
    assert_eq!(map.get("alpha"), Some(0));
    assert_eq!(map.get("beta"), Some(1));
    assert_eq!(map.get("gamma"), Some(2));
    assert_eq!(map.len(), 3);
}

#[test]
fn line_map_refuses_lines_out_of_order() {
    assert_eq!(build_line_map(&strings(&["b", "a"])), Err(1));
    assert_eq!(build_line_map(&strings(&["a", "c", "c"])), Err(2));
    assert!(build_line_map(&strings(&[])).is_ok());
}

#[test]
fn lines_agree_with_std() {
    let cases = ["", "a", "a\n", "a\nb", "a\r\nb\r\n", "a\rb", "a\r", "\n", "\n\n", "\r\n", "x\r\r\ny", "\na"];
    for case in cases.iter() {
        let expected: Vec<String> = case.lines().map(|l| l.to_string()).collect();
        assert_eq!(text_lines(case), expected, "case {:?}", case);
    }
}

#[test]
fn fuzzy_search_finds_only_near_keys() {
    let keys = strings(&["f", "fo", "foo", "fooo", "foooo", "goo"]);
    assert_eq!(fuzzy_search(&keys, "foo", 1).unwrap(), strings(&["fo", "foo", "fooo", "goo"]));
}
