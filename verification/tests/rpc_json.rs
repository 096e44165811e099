use hermes_tui::rpc_json::{extract_string_field, json_escape_exec, string_value_exec};

fn escaped(s: &str) -> String {
    let chars: Vec<char> = s.chars().collect();
    json_escape_exec(&chars).into_iter().collect()
}

#[test]
fn escaped_string_field_reads_back() {
    for s in ["plain", "quote \" and backslash \\", "lines\nand\r\ttabs", "", "ünïcödé ✓"] {
        let json = format!("{{\"k\": \"{}\", \"n\": 1}}", escaped(s));
        assert_eq!(extract_string_field(&json, "k").as_deref(), Some(s));
        let val: Vec<char> = format!("\"{}\"}}", escaped(s)).chars().collect();
        let got: Option<String> = string_value_exec(&val).map(|v| v.into_iter().collect());
        assert_eq!(got.as_deref(), Some(s));
    }
}

#[test]
fn unicode_escapes_read_as_a_question_mark_over_three_characters() {
    let json = format!("{{\"k\": \"{}\"}}", escaped("a\u{1}b"));
    assert_eq!(extract_string_field(&json, "k").as_deref(), Some("a?1b"));
}
