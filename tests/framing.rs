use journal_store::framing::file_text;

#[test]
fn file_text_puts_one_record_per_line() {
    let lines = vec!["{\"id\":1}".to_string(), "{\"id\":2}".to_string()];
    assert_eq!(file_text(&lines), "{\"id\":1}\n{\"id\":2}\n");
}

#[test]
fn file_text_of_no_records_is_empty() {
    assert_eq!(file_text(&Vec::new()), "");
}

#[test]
fn file_text_keeps_empty_and_non_ascii_lines() {
    let lines = vec!["é".to_string(), String::new()];
    assert_eq!(file_text(&lines), "é\n\n");
}
