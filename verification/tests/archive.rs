use cairn::archive::{
    blob_of, content_hash, hash6, internal_filename, orphan_since, pack_bytes, pack_text,
    source_id, text_of, unpack_bytes, unpack_text, unpack_text_or_empty, utc_day, NINETY_DAYS,
};
use cairn::config::{
    embedding_model, extracted_message, question_endpoint, route_extraction, WorkspaceConfig,
};
use cairn::double::Double;
use cairn::ids::fresh_ids;
use cairn::text::{
    byte_len, contains, find, is_letter_or_digit, join, lower, prefix_bytes, print_decimal,
    replace, starts_with, text_lt, trim, trim_end_of,
};

#[test]
fn sources_are_named_by_their_checksum() {
    assert_eq!(
        source_id(b"abc"),
        "ba7816bf8f01cfea414140de5dae2223b00361a396177a9cb410ff61f20015ad"
    );
    assert_eq!(hash6(&source_id(b"abc")), "ba7816");
    assert_eq!(
        internal_filename("2024-05-01", "ba7816"),
        "conversations-2024-05-01-ba7816.json"
    );
    assert_ne!(source_id(b"abc"), source_id(b"abd"));
}

#[test]
fn contents_are_told_apart_by_name_and_stamp() {
    assert_eq!(content_hash("a", "bc"), source_id(b"abc"));
    assert_ne!(content_hash("c", "1"), content_hash("c", "2"));
}

#[test]
fn days_and_months_are_those_of_utc() {
    assert_eq!(utc_day(1_714_521_600).as_deref(), Some("2024-05-01"));
    assert_eq!(utc_day(0).as_deref(), Some("1970-01-01"));
    assert!(utc_day(i64::MAX).is_none());
    assert_eq!(NINETY_DAYS, 90 * 24 * 3600);
    assert_eq!(orphan_since(1_714_521_600), "Feb 2024");
    assert_eq!(orphan_since(i64::MIN), "");
}

#[test]
fn packed_texts_come_back() {
    let text = "h\u{e9}llo ".repeat(50);
    let blob = pack_text(&text);
    assert!(blob.len() < text.len());
    assert_eq!(unpack_text(&blob), Some(text.clone()));
    assert_eq!(unpack_text_or_empty(&blob), text);
    let blob = pack_bytes(&[1, 2, 255]).unwrap();
    assert_eq!(unpack_bytes(&blob), vec![1, 2, 255]);
    assert_eq!(unpack_text(&blob), None);
    assert_eq!(unpack_text_or_empty(&blob), "");
    assert_eq!(unpack_bytes(b"not packed"), Vec::<u8>::new());
    assert_eq!(unpack_text(b"not packed"), None);
    assert_eq!(blob_of(None), Vec::<u8>::new());
    assert_eq!(blob_of(Some(vec![7])), vec![7]);
    assert_eq!(text_of(Some(vec![104, 105])), Some("hi".to_string()));
    assert_eq!(text_of(Some(vec![255])), None);
    assert_eq!(text_of(None), None);
}

#[test]
fn fresh_names_have_the_form_of_uuids() {
    let ids = fresh_ids(3);
    assert_eq!(ids.len(), 3);
    for id in &ids {
        let c: Vec<char> = id.chars().collect();
        assert_eq!(c.len(), 36);
        for (i, x) in c.iter().enumerate() {
            if [8, 13, 18, 23].contains(&i) {
                assert_eq!(*x, '-');
            } else {
                assert!(matches!(*x, '0'..='9' | 'a'..='f'));
            }
        }
        assert_eq!(c[14], '4');
        assert!(matches!(c[19], '8' | '9' | 'a' | 'b'));
    }
    assert_ne!(ids[0], ids[1]);
}

#[test]
fn texts_are_handled_by_characters() {
    assert_eq!(trim(" \u{3000}a b\n"), "a b");
    assert_eq!(trim_end_of("a///", '/'), "a");
    assert_eq!(find("xaab", "ab"), Some(2));
    assert_eq!(find("x", "y"), None);
    assert!(contains("abc", "bc"));
    assert!(starts_with("abc", "ab"));
    assert_eq!(replace("aaa", "aa", "b"), "ba");
    assert_eq!(join(&vec!["a".to_string(), "b".to_string()], ", "), "a, b");
    assert_eq!(print_decimal(u64::MAX), "18446744073709551615");
    assert_eq!(print_decimal(0), "0");
    assert!(text_lt("a", "b") && text_lt("a", "aa") && !text_lt("b", "a"));
    assert_eq!(byte_len("\u{e9}a"), 3);
    assert_eq!(prefix_bytes("\u{e9}a", 2), "\u{e9}");
    assert_eq!(prefix_bytes("a\u{e9}", 2), "a");
    assert_eq!(prefix_bytes("\u{1f600}", 3), "");
    assert_eq!(prefix_bytes("ab", 5), "ab");
}

#[test]
fn doubles_compare_as_numbers_do() {
    let d = |x: f64| Double { bits: x.to_bits() };
    assert!(d(-1.0).lt(d(0.0)));
    assert!(!d(-0.0).lt(d(0.0)));
    assert!(d(0.0).ge(d(-0.0)));
    assert!(!d(f64::NAN).lt(d(0.0)));
    assert!(!d(f64::NAN).ge(d(0.0)));
    assert!(d(-0.0).precedes(d(0.0)));
    assert!(d(-2.0).precedes(d(-1.0)));
    assert!(d(f64::MAX).finite());
    assert!(!d(f64::INFINITY).finite());
}

#[test]
fn a_new_workspace_has_its_settings() {
    let c = WorkspaceConfig::default();
    assert_eq!(c.endpoints.default.base_url, "http://localhost:11434/v1");
    assert_eq!(c.endpoints.default.label, "Local Ollama");
    assert_eq!(c.endpoints.default.provider, "local");
    assert_eq!(c.endpoints.cloud.base_url, "https://generativelanguage.googleapis.com/v1beta/openai");
    assert_eq!(c.endpoints.cloud.label, "Google Gemini");
    assert_eq!(c.endpoints.cloud.provider, "gemini");
    assert_eq!(c.jobs.extraction.model, "qwen2.5:7b");
    assert_eq!(c.jobs.embedding.model, "nomic-embed-text");
    assert_eq!(c.jobs.triage_preview.model, "qwen2.5:3b");
    assert_eq!(c.jobs.evaluation.endpoint, "default");
    assert_eq!(c.jobs.chat.backup_endpoint, "");
    assert_eq!(c.ui.split_ratio.bits, 0.6f64.to_bits());
    assert_eq!(c.ui.graph_node_cap, 25);
    assert_eq!(c.ui.focus_stack_size, 4);
    assert_eq!(embedding_model(&c), "nomic-embed-text");
    let mut c = c;
    c.jobs.embedding.model = "other".to_string();
    assert_eq!(embedding_model(&c), "other");
    c.jobs.embedding.model = " ".to_string();
    assert_eq!(embedding_model(&c), "nomic-embed-text");
}

#[test]
fn extraction_is_routed_or_refused() {
    let s = |x: &str| Some(x.to_string());
    let r = route_extraction("m", s("e"), None, s("u")).unwrap();
    assert_eq!((r.embed_model.as_str(), r.embed_base_url.as_str(), r.triage.as_str()), ("e", "u", "m"));
    assert_eq!(route_extraction("m", s("e"), s("t"), s("u")).unwrap().triage, "t");
    assert_eq!(route_extraction("m", s("e"), s("  "), s("u")).unwrap().triage, "m");
    assert_eq!(
        route_extraction(" ", s("e"), None, s("u")).unwrap_err(),
        "No extraction model selected. Configure it in Settings \u{2192} LLM Routing."
    );
    assert_eq!(
        route_extraction("m", s(" "), None, s("u")).unwrap_err(),
        "No embedding model selected. Configure it in Settings \u{2192} LLM Routing (Embedding)."
    );
    assert_eq!(
        route_extraction("m", s("e"), None, None).unwrap_err(),
        "No embedding endpoint configured. Configure Local LLM in Settings."
    );
    assert_eq!(extracted_message("c1"), "Extracted conversation c1");
    assert_eq!(question_endpoint(None), "http://localhost:11434/v1");
    assert_eq!(question_endpoint(s("u")), "u");
}

#[test]
fn letters_are_told_and_lowered() {
    assert!(is_letter_or_digit('a') && is_letter_or_digit('Z') && is_letter_or_digit('7'));
    assert!(is_letter_or_digit('\u{e9}') && !is_letter_or_digit('-') && !is_letter_or_digit(' '));
    assert_eq!(lower("AbC-1"), "abc-1");
    assert_eq!(lower("\u{c9}"), "\u{e9}");
}
