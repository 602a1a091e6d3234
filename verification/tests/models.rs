use markov_chains_bot::models::{
    download_name, filename_from_disposition, loaded_model_or_default, message_lines,
    model_base_name, model_id, model_path, DEFAULT_MODEL_ID, MODEL_DIR,
};

fn reference_filename(header_str: &str) -> Option<String> {
    header_str.split(';').find_map(|part| {
        if part.trim().starts_with("filename=") {
            part.trim().strip_prefix("filename=").map(|s| s.trim_matches('"').to_string())
        } else {
            None
        }
    })
}

#[test]
fn filename_parsing_matches_reference() {
    for h in [
        "attachment; filename=\"messages.txt\"",
        "attachment;filename=plain.txt",
        "inline",
        "",
        "attachment; filename=",
        "attachment; filename=\"\"\"\"",
        "  filename=\"a;b\"; filename=second",
        "attachment; name=x; filename=\"  spaced .txt\"  ",
        "attachment; FILENAME=upper.txt",
        "filename=\u{3000}wide\u{3000}",
    ] {
        assert_eq!(filename_from_disposition(h), reference_filename(h), "header {:?}", h);
    }
}

#[test]
fn download_name_falls_back() {
    assert_eq!(
        download_name(Some("attachment; filename=\"m.txt\"".to_string()), "2024-01-01-00-00-00".to_string()),
        "m.txt"
    );
    assert_eq!(download_name(Some("inline".to_string()), "fallback".to_string()), "fallback");
    assert_eq!(download_name(None, "fallback".to_string()), "fallback");
}

#[test]
fn base_name_cuts_at_first_dot() {
    assert_eq!(model_base_name(None, "chat.export.txt".to_string()), "chat");
    assert_eq!(model_base_name(Some("mine.model".to_string()), "chat.txt".to_string()), "mine");
    assert_eq!(model_base_name(Some(".hidden".to_string()), "x".to_string()), "");
    assert_eq!(model_base_name(None, "nodot".to_string()), "nodot");
}

#[test]
fn model_id_is_the_seeded_hash_of_the_name() {
    assert_eq!(model_id("kleden4", 1_700_000_000), xxh3::hash64_with_seed(b"kleden4", 1_700_000_000));
    assert_eq!(model_id("x", -1), xxh3::hash64_with_seed(b"x", u64::MAX));
    assert_ne!(model_id("a", 1), model_id("b", 1));
}

#[test]
fn model_paths_and_defaults() {
    assert_eq!(model_path("123"), format!("{}/{}", MODEL_DIR, "123"));
    assert_eq!(model_path("123"), "models/123");
    assert_eq!(loaded_model_or_default(Some("9".to_string())), "9");
    assert_eq!(loaded_model_or_default(None), DEFAULT_MODEL_ID);
}

#[test]
fn message_lines_split_at_line_feeds() {
    assert_eq!(
        message_lines(b"one\ntwo\n\nthree".to_vec()).unwrap(),
        vec!["one", "two", "", "three"]
    );
    assert_eq!(message_lines(b"".to_vec()).unwrap(), vec![""]);
    assert_eq!(message_lines("é\r\n".as_bytes().to_vec()).unwrap(), vec!["é\r", ""]);
    assert!(message_lines(vec![0xff, 0xfe]).is_err());
}
