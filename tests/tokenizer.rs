use coil::tokenizer::tokenize;

fn count_of(table: &[(String, usize)], term: &str) -> Option<usize> {
    table.iter().find(|(t, _)| t == term).map(|(_, c)| *c)
}

#[test]
fn tokenize_folds_case() {
    let t = tokenize("Cat cat CAT");
    assert_eq!(t, vec![("cat".to_string(), 3)]);
}

#[test]
fn tokenize_splits_at_newlines() {
    let t = tokenize("red\nblue\r\ngreen");
    assert_eq!(t.len(), 3);
    assert_eq!(count_of(&t, "red"), Some(1));
    assert_eq!(count_of(&t, "blue"), Some(1));
    assert_eq!(count_of(&t, "green"), Some(1));
}

#[test]
fn tokenize_splits_at_tabs_and_runs_of_spaces() {
    let t = tokenize("  a\tb   a  ");
    assert_eq!(t, vec![("a".to_string(), 2), ("b".to_string(), 1)]);
}

#[test]
fn tokenize_counts_sum_to_token_count() {
    let text = "the quick fox and the lazy dog and the cat";
    let t = tokenize(text);
    let total: usize = t.iter().map(|(_, c)| *c).sum();
    assert_eq!(total, text.split_whitespace().count());
    assert_eq!(count_of(&t, "the"), Some(3));
    assert_eq!(count_of(&t, "and"), Some(2));
}

#[test]
fn tokenize_keeps_first_occurrence_order() {
    let t = tokenize("b a b c a b");
    let keys: Vec<&str> = t.iter().map(|(k, _)| k.as_str()).collect();
    assert_eq!(keys, vec!["b", "a", "c"]);
}

#[test]
fn tokenize_empty_text() {
    assert!(tokenize("").is_empty());
}

#[test]
fn tokenize_blank_text() {
    assert!(tokenize(" \n\t \u{a0}\u{3000} ").is_empty());
}

#[test]
fn tokenize_is_deterministic() {
    assert_eq!(tokenize("One two ONE three"), tokenize("One two ONE three"));
}

#[test]
fn tokenize_unicode_lowercase() {
    let t = tokenize("ÉCOLE école");
    assert_eq!(t, vec![("école".to_string(), 2)]);
}
