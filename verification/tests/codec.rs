use template_store::codec::{
    decode_sections, decode_tags, decode_template, encode_sections, encode_tags, encode_template,
};
use template_store::{StoreError, Template, TemplateRow, TemplateSection};

fn section(title: &str, content: &str) -> TemplateSection {
    TemplateSection { title: title.to_string(), content: content.to_string() }
}

fn sample_template() -> Template {
    Template {
        id: "t-1".to_string(),
        title: "Chest \"CT\"".to_string(),
        sections: vec![section("Findings", "line 1\nline 2\t\\end"), section("", "\u{1}\u{1f}é漢")],
        disease: "cardiology".to_string(),
        template_type: "report".to_string(),
        tags: vec!["common".to_string(), "a,b".to_string(), "".to_string()],
        created_at: 1_700_000_000_000,
        updated_at: 1_700_000_000_500,
        is_favorite: true,
    }
}

#[test]
fn tags_text_is_a_compact_array() {
    let tags = vec!["common".to_string(), "a\"b".to_string()];
    assert_eq!(encode_tags(&tags), "[\"common\",\"a\\\"b\"]");
    assert_eq!(decode_tags("[\"common\",\"a\\\"b\"]").unwrap(), tags);
}

#[test]
fn sections_text_is_a_compact_array_of_objects() {
    let sections = vec![section("T", "line\n2")];
    let text = encode_sections(&sections);
    assert_eq!(text, "[{\"title\":\"T\",\"content\":\"line\\n2\"}]");
    assert_eq!(decode_sections(&text).unwrap(), sections);
}

#[test]
fn empty_lists_are_a_pair_of_brackets() {
    assert_eq!(encode_tags(&Vec::new()), "[]");
    assert_eq!(encode_sections(&Vec::new()), "[]");
    assert_eq!(decode_tags("[]").unwrap(), Vec::<String>::new());
    assert_eq!(decode_sections("[]").unwrap(), Vec::<TemplateSection>::new());
}

#[test]
fn every_escape_is_written_in_its_one_form() {
    let tags = vec!["\"\\\u{8}\u{c}\n\r\t\u{0}\u{1b}\u{1f} \u{7f}/é".to_string()];
    assert_eq!(
        encode_tags(&tags),
        "[\"\\\"\\\\\\b\\f\\n\\r\\t\\u0000\\u001b\\u001f \u{7f}/é\"]"
    );
}

#[test]
fn several_sections_are_separated_by_commas() {
    let sections = vec![section("a", "1"), section("b", "2"), section("c", "3")];
    assert_eq!(
        encode_sections(&sections),
        "[{\"title\":\"a\",\"content\":\"1\"},{\"title\":\"b\",\"content\":\"2\"},{\"title\":\"c\",\"content\":\"3\"}]"
    );
}

#[test]
fn tags_round_trip() {
    let cases: Vec<Vec<String>> = vec![
        vec![],
        vec!["".to_string()],
        vec!["x".to_string()],
        vec!["[".to_string(), "]".to_string(), ",".to_string(), "\"".to_string()],
        vec!["\\u0041".to_string(), "\\".to_string(), "\u{0}".to_string()],
        vec!["日本語".to_string(), "😀".to_string(), "a\u{10}b".to_string()],
    ];
    for tags in cases {
        let text = encode_tags(&tags);
        assert_eq!(decode_tags(&text).unwrap(), tags);
    }
}

#[test]
fn sections_round_trip() {
    let cases: Vec<Vec<TemplateSection>> = vec![
        vec![],
        vec![section("", "")],
        vec![section("only", "one")],
        vec![section("{\"title\":\"x\"}", "},{"), section("\"", "\\\"")],
        vec![section("a\nb", "c\td"), section("\u{1}", "\u{1f}"), section("é", "漢字")],
    ];
    for sections in cases {
        let text = encode_sections(&sections);
        assert_eq!(decode_sections(&text).unwrap(), sections);
    }
}

#[test]
fn template_round_trip() {
    let template = sample_template();
    let row = encode_template(&template);
    assert_eq!(row.id, "t-1");
    assert_eq!(row.title, "Chest \"CT\"");
    assert_eq!(row.disease, "cardiology");
    assert_eq!(row.template_type, "report");
    assert_eq!(row.created_at, 1_700_000_000_000);
    assert_eq!(row.updated_at, 1_700_000_000_500);
    assert!(row.is_favorite);
    assert_eq!(row.tags, "[\"common\",\"a,b\",\"\"]");
    assert_eq!(
        row.sections,
        "[{\"title\":\"Findings\",\"content\":\"line 1\\nline 2\\t\\\\end\"},{\"title\":\"\",\"content\":\"\\u0001\\u001fé漢\"}]"
    );
    assert_eq!(decode_template(&row).unwrap(), template);
}

#[test]
fn template_round_trip_with_empty_lists() {
    let mut template = sample_template();
    template.sections = Vec::new();
    template.tags = Vec::new();
    let row = encode_template(&template);
    assert_eq!(row.sections, "[]");
    assert_eq!(row.tags, "[]");
    assert_eq!(decode_template(&row).unwrap(), template);
}

#[test]
fn reading_tags_rejects_what_is_not_the_stored_text() {
    let bad = [
        "",
        "[",
        "]",
        "[]x",
        " []",
        "[] ",
        "[ ]",
        "[\"a\"",
        "[\"a\",]",
        "[\"a\" ,\"b\"]",
        "[\"a\", \"b\"]",
        "[,\"a\"]",
        "[\"a\"]]",
        "[a]",
        "[1]",
        "[null]",
        "[\"a\\/b\"]",
        "[\"\\u0041\"]",
        "[\"\\u000A\"]",
        "[\"\\u000a\"]",
        "[\"\\u0020\"]",
        "[\"\\x\"]",
        "[\"a\nb\"]",
        "[\"unterminated]",
        "[\"\\\"]",
        "{\"a\":1}",
    ];
    for text in bad {
        assert_eq!(decode_tags(text), Err(StoreError::DecodeFailure), "{:?}", text);
    }
}

#[test]
fn reading_sections_rejects_what_is_not_the_stored_text() {
    let bad = [
        "",
        "[",
        "[{}]",
        "[{\"title\":\"a\"}]",
        "[{\"content\":\"b\",\"title\":\"a\"}]",
        "[{\"title\":\"a\",\"content\":\"b\"},]",
        "[{\"title\":\"a\", \"content\":\"b\"}]",
        "[{\"title\":\"a\",\"content\":\"b\",\"more\":\"c\"}]",
        "[{\"title\":\"a\",\"content\":1}]",
        "[{\"title\":\"a\",\"content\":\"b\"}",
        "[{\"title\":\"a\",\"content\":\"b\"}]x",
        "[[\"a\",\"b\"]]",
        "[\"a\"]",
        "not json",
    ];
    for text in bad {
        assert_eq!(decode_sections(text), Err(StoreError::DecodeFailure), "{:?}", text);
    }
}

#[test]
fn a_row_with_a_malformed_field_does_not_decode() {
    let good = encode_template(&sample_template());
    let bad_sections = TemplateRow { sections: "oops".to_string(), ..good.clone() };
    let bad_tags = TemplateRow { tags: "[\"a\"".to_string(), ..good.clone() };
    assert_eq!(decode_template(&bad_sections), Err(StoreError::DecodeFailure));
    assert_eq!(decode_template(&bad_tags), Err(StoreError::DecodeFailure));
    assert!(decode_template(&good).is_ok());
}

#[test]
fn tags_text_is_what_serde_json_writes() {
    let cases: Vec<Vec<String>> = vec![
        vec![],
        vec!["common".to_string(), "emergency".to_string()],
        vec!["\"\\\u{8}\u{c}\n\r\t".to_string()],
        vec!["\u{0}\u{1}\u{7}\u{b}\u{e}\u{1f}\u{7f}".to_string()],
        vec!["常用".to_string(), "😀".to_string(), "/".to_string(), "".to_string()],
    ];
    for tags in cases {
        let ours = encode_tags(&tags);
        assert_eq!(ours, serde_json::to_string(&tags).unwrap());
        let back: Vec<String> = serde_json::from_str(&ours).unwrap();
        assert_eq!(back, tags);
        assert_eq!(decode_tags(&serde_json::to_string(&tags).unwrap()).unwrap(), tags);
    }
}

#[test]
fn sections_text_is_json_with_the_two_members() {
    let sections = vec![section("Findings", "a \"b\"\n\u{2}"), section("", "é")];
    let text = encode_sections(&sections);
    let value: serde_json::Value = serde_json::from_str(&text).unwrap();
    let mut items = Vec::new();
    for s in &sections {
        let mut object = serde_json::Map::new();
        object.insert("title".to_string(), serde_json::Value::String(s.title.clone()));
        object.insert("content".to_string(), serde_json::Value::String(s.content.clone()));
        items.push(serde_json::Value::Object(object));
    }
    assert_eq!(value, serde_json::Value::Array(items));
    // The members stand in the order title, content, each written as serde_json writes a string.
    let mut expected = String::from("[");
    for (i, s) in sections.iter().enumerate() {
        if i > 0 {
            expected.push(',');
        }
        expected.push_str("{\"title\":");
        expected.push_str(&serde_json::to_string(&s.title).unwrap());
        expected.push_str(",\"content\":");
        expected.push_str(&serde_json::to_string(&s.content).unwrap());
        expected.push('}');
    }
    expected.push(']');
    assert_eq!(text, expected);
}
