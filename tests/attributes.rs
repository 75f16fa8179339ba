use xml_events::get_attributes;

fn pairs(v: &[(&str, &str)]) -> Vec<(String, String)> {
    v.iter().map(|(k, v)| (k.to_string(), v.to_string())).collect()
}

#[test]
fn attributes_split_on_first_equals() {
    assert_eq!(get_attributes(&["a=b=c"]), pairs(&[("a", "b=c")]));
}

#[test]
fn attributes_skip_tokens_without_equals() {
    assert_eq!(
        get_attributes(&["x=1", "flag", "y='2'"]),
        pairs(&[("x", "1"), ("y", "2")])
    );
    assert_eq!(get_attributes(&["flag"]), pairs(&[]));
    assert_eq!(get_attributes(&[]), pairs(&[]));
}

#[test]
fn attributes_strip_one_pair_of_quotes() {
    assert_eq!(
        get_attributes(&["a=\"v\"", "b='w'", "c=\"\"v\"\"", "d=\"", "e='x\""]),
        pairs(&[("a", "v"), ("b", "w"), ("c", "\"v\""), ("d", "\""), ("e", "'x\"")])
    );
}

#[test]
fn attributes_last_value_wins_and_first_position_stays() {
    assert_eq!(
        get_attributes(&["k=1", "m=2", "k=3"]),
        pairs(&[("k", "3"), ("m", "2")])
    );
}

#[test]
fn attributes_allow_empty_name_and_value() {
    assert_eq!(get_attributes(&["=v", "k="]), pairs(&[("", "v"), ("k", "")]));
}
