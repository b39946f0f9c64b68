use mdchunk::substitute::apply_substitutions;
use mdchunk::substitute::build_table;
use mdchunk::substitute::read_substitutions;
use mdchunk::substitute::SubstitutionError;

fn row(fields: &[&str]) -> Vec<String> {
    fields.iter().map(|f| f.to_string()).collect()
}

#[test]
fn single_rule_replaces_every_occurrence() {
    let table = build_table(&vec![row(&["foo", "bar"])]).unwrap();
    assert_eq!(apply_substitutions("foo foo", &table), "bar bar".to_string());
}

#[test]
fn empty_table_is_identity() {
    let table = build_table(&vec![]).unwrap();
    assert_eq!(
        apply_substitutions("hello world", &table),
        "hello world".to_string()
    );
}

#[test]
fn unmatched_rule_has_no_effect() {
    let table = build_table(&vec![row(&["zzz", "yyy"])]).unwrap();
    assert_eq!(apply_substitutions("abc", &table), "abc".to_string());
}

#[test]
fn longest_pattern_wins_at_each_position() {
    let table = build_table(&vec![row(&["a", "Y"]), row(&["ab", "X"])]).unwrap();
    assert_eq!(apply_substitutions("aba", &table), "XY".to_string());
}

#[test]
fn replacement_is_not_rescanned() {
    let table = build_table(&vec![row(&["a", "b"]), row(&["b", "c"])]).unwrap();
    assert_eq!(apply_substitutions("ab", &table), "bc".to_string());
}

#[test]
fn later_duplicate_pattern_overrides_earlier() {
    let table = build_table(&vec![row(&["k", "1"]), row(&["k", "2"])]).unwrap();
    assert_eq!(apply_substitutions("k", &table), "2".to_string());
}

#[test]
fn rows_without_two_fields_are_skipped() {
    let rows = vec![row(&["x"]), row(&["foo", "bar", "baz"]), row(&["a", "b"])];
    let table = build_table(&rows).unwrap();
    assert_eq!(apply_substitutions("x foo a", &table), "x foo b".to_string());
}

#[test]
fn empty_pattern_is_rejected() {
    let rows = vec![row(&["ok", "fine"]), row(&["", "boom"])];
    assert!(matches!(
        build_table(&rows),
        Err(SubstitutionError::EmptyFrom)
    ));
}

#[test]
fn table_is_read_from_delimited_bytes() {
    let data = b"from,to\nfoo,bar\n";
    let table = read_substitutions(data).unwrap();
    assert_eq!(apply_substitutions("foo foo", &table), "bar bar".to_string());
}

#[test]
fn wrong_width_rows_in_table_bytes_are_skipped() {
    let data = b"from,to\nlone\nfoo,bar,baz\na,b\n";
    let table = read_substitutions(data).unwrap();
    assert_eq!(
        apply_substitutions("lone foo a", &table),
        "lone foo b".to_string()
    );
}

#[test]
fn unparsable_table_bytes_are_fatal() {
    let data = b"from,to\n\xff\xfe,x\n";
    assert!(matches!(
        read_substitutions(data),
        Err(SubstitutionError::UnreadableTable)
    ));
}

#[test]
fn empty_pattern_in_table_bytes_is_rejected() {
    let data = b"from,to\n,boom\n";
    assert!(matches!(
        read_substitutions(data),
        Err(SubstitutionError::EmptyFrom)
    ));
}
