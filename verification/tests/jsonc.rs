use oxarch::jsonc::clean_jsonc;

fn parse(raw: &str) -> Result<serde_json::Value, serde_json::Error> {
    serde_json::from_slice(&clean_jsonc(raw.as_bytes()))
}

#[test]
fn preserves_jsonc_string_contents() {
    let raw = r#"{"url":"https://example.com", "alias":"@/*", "text":",}",}"#;
    let json: serde_json::Value = parse(raw).unwrap();
    assert_eq!(json["url"], "https://example.com");
    assert_eq!(json["alias"], "@/*");
    assert_eq!(json["text"], ",}");
}

#[test]
fn strips_jsonc() {
    let raw = "{ // x\n \"compilerOptions\": {\"paths\": {},}, /* y */ }";
    assert!(parse(raw).is_ok());
}

#[test]
fn cleaning_keeps_length_and_only_blanks() {
    let raw = "{ /* note */ \"a\": [1, 2,], // end\n \"b\": \"// not a comment\" }";
    let clean = clean_jsonc(raw.as_bytes());
    assert_eq!(clean.len(), raw.len());
    for (before, after) in raw.bytes().zip(clean.iter()) {
        assert!(*after == before || *after == b' ');
    }
    let json = parse(raw).unwrap();
    assert_eq!(json["b"], "// not a comment");
    assert_eq!(json["a"][1], 2);
}

#[test]
fn exact_blanking_of_comments_and_commas() {
    let raw = "[1,/*x*/]";
    assert_eq!(clean_jsonc(raw.as_bytes()), b"[1      ]".to_vec());
    let raw = "{\"a\":1}//c";
    assert_eq!(clean_jsonc(raw.as_bytes()), b"{\"a\":1}   ".to_vec());
}

#[test]
fn unterminated_block_comment_blanks_to_the_end() {
    let raw = "{\"a\":1} /* open";
    assert_eq!(clean_jsonc(raw.as_bytes()), b"{\"a\":1}        ".to_vec());
}

#[test]
fn escaped_quotes_stay_inside_strings() {
    let raw = r#"{"q":"a\",}//"}"#;
    let json = parse(raw).unwrap();
    assert_eq!(json["q"], "a\",}//");
}
