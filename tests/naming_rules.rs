use transcript_archive::naming::{parse_key, select_latest, Selector};

fn paths(names: &[&str]) -> Vec<String> {
    names.iter().map(|s| s.to_string()).collect()
}

#[test]
fn numbered_transcript_has_its_number() {
    assert_eq!(parse_key("transcriptions/42.csv"), Some(42));
    assert_eq!(parse_key("transcriptions/0.csv"), Some(0));
    assert_eq!(parse_key("transcriptions/007.csv"), Some(7));
}

#[test]
fn nested_transcript_uses_last_segment() {
    assert_eq!(parse_key("transcriptions/a/7.csv"), Some(7));
    assert_eq!(parse_key("transcriptions/7/notes.csv"), None);
}

#[test]
fn non_transcripts_have_no_number() {
    assert_eq!(parse_key("transcriptions/latest.csv"), None);
    assert_eq!(parse_key("other/10.csv"), None);
    assert_eq!(parse_key("transcriptions/10.txt"), None);
    assert_eq!(parse_key("transcriptions/.csv"), None);
    assert_eq!(parse_key("transcriptions/+5.csv"), None);
    assert_eq!(parse_key("transcriptions/-5.csv"), None);
    assert_eq!(parse_key("transcriptions/1 2.csv"), None);
    assert_eq!(parse_key("transcriptions/"), None);
    assert_eq!(parse_key(""), None);
    assert_eq!(parse_key("transcriptions10.csv"), None);
}

#[test]
fn largest_number_fits() {
    assert_eq!(
        parse_key("transcriptions/18446744073709551615.csv"),
        Some(u64::MAX)
    );
    assert_eq!(parse_key("transcriptions/18446744073709551616.csv"), None);
    assert_eq!(parse_key("transcriptions/99999999999999999999999.csv"), None);
}

#[test]
fn select_latest_picks_largest_number() {
    let ps = paths(&[
        "transcriptions/0.csv",
        "transcriptions/42.csv",
        "transcriptions/5.csv",
    ]);
    assert_eq!(select_latest(&ps), Some(1));
}

#[test]
fn select_latest_compares_numbers_not_text() {
    let ps = paths(&["transcriptions/9.csv", "transcriptions/10.csv"]);
    assert_eq!(select_latest(&ps), Some(1));
}

#[test]
fn select_latest_keeps_first_of_equal_numbers() {
    let ps = paths(&[
        "transcriptions/a/5.csv",
        "transcriptions/3.csv",
        "transcriptions/b/5.csv",
        "transcriptions/05.csv",
    ]);
    assert_eq!(select_latest(&ps), Some(0));
}

#[test]
fn select_latest_ignores_other_entries() {
    let ps = paths(&[
        "transcriptions/latest.csv",
        "other/10.csv",
        "transcriptions/3.csv",
        "transcriptions/99.txt",
    ]);
    assert_eq!(select_latest(&ps), Some(2));
}

#[test]
fn select_latest_without_candidates_is_none() {
    assert_eq!(select_latest(&Vec::new()), None);
    let ps = paths(&["readme.md", "other/1.csv", "transcriptions/x.csv"]);
    assert_eq!(select_latest(&ps), None);
}

#[test]
fn selector_follows_one_pass() {
    let mut s = Selector::new();
    assert_eq!(s.selected(), None);
    s.observe("transcriptions/5.csv".to_string());
    assert_eq!(s.selected_key(), Some(5));
    s.observe("other/50.csv".to_string());
    assert_eq!(s.selected_key(), Some(5));
    s.observe("transcriptions/b/5.csv".to_string());
    assert_eq!(s.selected().map(|p| p.as_str()), Some("transcriptions/5.csv"));
    s.observe("transcriptions/12.csv".to_string());
    assert_eq!(s.selected_key(), Some(12));
    assert_eq!(s.into_selected(), Some("transcriptions/12.csv".to_string()));
}
