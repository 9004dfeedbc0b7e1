use zdb::merge::merge;

fn list(entries: &[(&str, &str)]) -> Vec<(String, String)> {
    entries.iter().map(|(k, v)| (k.to_string(), v.to_string())).collect()
}

#[test]
fn merge_of_no_lists_is_empty() {
    assert_eq!(merge(&Vec::new()), Vec::<(String, String)>::new());
    assert_eq!(merge(&vec![Vec::new(), Vec::new()]), Vec::<(String, String)>::new());
}

#[test]
fn merge_of_one_list_is_that_list() {
    let only = list(&[("a", "1"), ("b", "2"), ("c", "3")]);
    assert_eq!(merge(&vec![only.clone()]), only);
}

#[test]
fn merge_interleaves_keys_in_ascending_order() {
    let lists = vec![
        list(&[("b", "1"), ("e", "1"), ("x", "1")]),
        list(&[("a", "2"), ("f", "2")]),
        list(&[("c", "3"), ("d", "3"), ("z", "3")]),
    ];
    assert_eq!(
        merge(&lists),
        list(&[
            ("a", "2"),
            ("b", "1"),
            ("c", "3"),
            ("d", "3"),
            ("e", "1"),
            ("f", "2"),
            ("x", "1"),
            ("z", "3"),
        ])
    );
}

#[test]
fn merge_keeps_the_value_of_the_last_list_with_a_key() {
    let lists = vec![
        list(&[("a", "first"), ("k", "first"), ("m", "first")]),
        list(&[("k", "second"), ("m", "second")]),
        list(&[("a", "third"), ("k", "third")]),
        list(&[]),
    ];
    assert_eq!(merge(&lists), list(&[("a", "third"), ("k", "third"), ("m", "second")]));
}

#[test]
fn merge_of_equal_lists_is_one_of_them() {
    let same = list(&[("a", "1"), ("b", "2")]);
    let newer = list(&[("a", "9"), ("b", "8")]);
    assert_eq!(merge(&vec![same.clone(), same.clone()]), same);
    assert_eq!(merge(&vec![same, newer.clone()]), newer);
}
