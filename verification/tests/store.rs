use template_store::codec::encode_template;
use template_store::{DatabaseManager, StoreError, Tag, Template, TemplateRow, TemplateSection};

fn template(id: &str, title: &str, disease: &str, kind: &str, updated_at: i64) -> Template {
    Template {
        id: id.to_string(),
        title: title.to_string(),
        sections: vec![TemplateSection {
            title: "Findings".to_string(),
            content: format!("body of {}", id),
        }],
        disease: disease.to_string(),
        template_type: kind.to_string(),
        tags: vec!["common".to_string()],
        created_at: 1_000,
        updated_at,
        is_favorite: false,
    }
}

fn tag(id: &str, name: &str, color: &str) -> Tag {
    Tag { id: id.to_string(), name: name.to_string(), color: color.to_string() }
}

fn ids(list: &[Template]) -> Vec<String> {
    list.iter().map(|t| t.id.clone()).collect()
}

#[test]
fn a_new_catalog_is_empty() {
    let db = DatabaseManager::new();
    assert_eq!(db.get_all_templates().unwrap(), Vec::<Template>::new());
    assert_eq!(db.get_all_tags().unwrap(), Vec::<Tag>::new());
    assert_eq!(db.get_all_diseases().unwrap(), Vec::<(String, i32)>::new());
    assert_eq!(db.get_all_template_types().unwrap(), Vec::<(String, i32)>::new());
    assert_eq!(db.get_template_by_id("x").unwrap(), None);
    assert_eq!(db.search_templates("").unwrap(), Vec::<Template>::new());
}

#[test]
fn upsert_twice_is_upsert_once() {
    let t = template("a", "Alpha", "cardiology", "report", 10);
    let mut once = DatabaseManager::new();
    once.upsert_template(&template("b", "Beta", "neurology", "note", 5)).unwrap();
    once.upsert_template(&t).unwrap();
    let mut twice = DatabaseManager::new();
    twice.upsert_template(&template("b", "Beta", "neurology", "note", 5)).unwrap();
    twice.upsert_template(&t).unwrap();
    twice.upsert_template(&t).unwrap();
    assert_eq!(once.get_all_templates().unwrap(), twice.get_all_templates().unwrap());
    assert_eq!(once.template_row("a"), twice.template_row("a"));
    assert_eq!(twice.get_all_templates().unwrap().len(), 2);
}

#[test]
fn upsert_stores_the_time_stamps_of_the_caller() {
    let mut db = DatabaseManager::new();
    let mut t = template("a", "Alpha", "d", "k", 77);
    t.created_at = -5;
    db.upsert_template(&t).unwrap();
    let got = db.get_template_by_id("a").unwrap().unwrap();
    assert_eq!(got.created_at, -5);
    assert_eq!(got.updated_at, 77);
    assert_eq!(got, t);
}

#[test]
fn a_second_upsert_with_the_same_id_replaces_the_first() {
    let mut db = DatabaseManager::new();
    let t1 = template("same", "First", "cardiology", "report", 10);
    let mut t2 = template("same", "Second", "neurology", "note", 20);
    t2.is_favorite = true;
    t2.sections = Vec::new();
    db.upsert_template(&template("other", "Other", "x", "y", 15)).unwrap();
    db.upsert_template(&t1).unwrap();
    db.upsert_template(&t2).unwrap();
    assert_eq!(db.get_template_by_id("same").unwrap(), Some(t2.clone()));
    let all = db.get_all_templates().unwrap();
    assert_eq!(all.iter().filter(|t| t.id == "same").count(), 1);
    assert_eq!(all.len(), 2);
    assert_eq!(all[0], t2);
}

#[test]
fn lookup_of_a_missing_id_is_no_error() {
    let mut db = DatabaseManager::new();
    db.upsert_template(&template("a", "Alpha", "d", "k", 1)).unwrap();
    assert_eq!(db.get_template_by_id("A").unwrap(), None);
    assert_eq!(db.get_template_by_id("").unwrap(), None);
    assert_eq!(db.template_row("missing"), None);
}

#[test]
fn batch_upsert_applies_every_element_in_order() {
    let mut db = DatabaseManager::new();
    db.upsert_template(&template("a", "Old", "d", "k", 1)).unwrap();
    let batch = vec![
        template("b", "Beta", "d", "k", 2),
        template("a", "New", "d", "k", 3),
        template("b", "Beta again", "d", "k", 4),
    ];
    db.batch_upsert_templates(&batch).unwrap();
    let all = db.get_all_templates().unwrap();
    assert_eq!(ids(&all), vec!["b", "a"]);
    assert_eq!(all[0].title, "Beta again");
    assert_eq!(all[1].title, "New");
    db.batch_upsert_templates(&Vec::new()).unwrap();
    assert_eq!(db.get_all_templates().unwrap(), all);
}

#[test]
fn templates_are_listed_most_recent_first() {
    let mut db = DatabaseManager::new();
    db.upsert_template(&template("old", "o", "d", "k", 100)).unwrap();
    db.upsert_template(&template("new", "n", "d", "k", 300)).unwrap();
    db.upsert_template(&template("mid", "m", "d", "k", 200)).unwrap();
    db.upsert_template(&template("neg", "m", "d", "k", -1)).unwrap();
    assert_eq!(ids(&db.get_all_templates().unwrap()), vec!["new", "mid", "old", "neg"]);
}

#[test]
fn templates_updated_at_the_same_time_keep_storage_order() {
    let mut db = DatabaseManager::new();
    db.upsert_template(&template("x", "x", "d", "k", 5)).unwrap();
    db.upsert_template(&template("y", "y", "d", "k", 5)).unwrap();
    db.upsert_template(&template("z", "z", "d", "k", 9)).unwrap();
    db.upsert_template(&template("w", "w", "d", "k", 5)).unwrap();
    assert_eq!(ids(&db.get_all_templates().unwrap()), vec!["z", "x", "y", "w"]);
}

#[test]
fn delete_removes_exactly_one_record() {
    let mut db = DatabaseManager::new();
    db.upsert_template(&template("a", "Alpha", "d", "k", 1)).unwrap();
    db.upsert_template(&template("b", "Beta", "d", "k", 2)).unwrap();
    db.upsert_template(&template("c", "Gamma", "d", "k", 3)).unwrap();
    db.delete_template("b").unwrap();
    assert_eq!(ids(&db.get_all_templates().unwrap()), vec!["c", "a"]);
    assert_eq!(db.get_template_by_id("b").unwrap(), None);
    assert_eq!(db.get_template_by_id("a").unwrap().unwrap().title, "Alpha");
}

#[test]
fn delete_of_a_missing_id_succeeds_and_changes_nothing() {
    let mut db = DatabaseManager::new();
    assert_eq!(db.delete_template("nothing"), Ok(()));
    db.upsert_template(&template("a", "Alpha", "d", "k", 1)).unwrap();
    let before = db.get_all_templates().unwrap();
    assert_eq!(db.delete_template("nothing"), Ok(()));
    assert_eq!(db.get_all_templates().unwrap(), before);
    db.delete_template("a").unwrap();
    assert_eq!(db.delete_template("a"), Ok(()));
    assert_eq!(db.get_all_templates().unwrap(), Vec::<Template>::new());
}

#[test]
fn toggle_inverts_the_flag_and_stamps_the_time() {
    let mut db = DatabaseManager::new();
    db.upsert_template(&template("a", "Alpha", "d", "k", 10)).unwrap();
    db.upsert_template(&template("b", "Beta", "d", "k", 20)).unwrap();
    db.toggle_template_favorite_at("a", 50).unwrap();
    let a = db.get_template_by_id("a").unwrap().unwrap();
    assert!(a.is_favorite);
    assert_eq!(a.updated_at, 50);
    assert_eq!(a.created_at, 1_000);
    assert_eq!(a.title, "Alpha");
    let b = db.get_template_by_id("b").unwrap().unwrap();
    assert!(!b.is_favorite);
    assert_eq!(b.updated_at, 20);
    assert_eq!(ids(&db.get_all_templates().unwrap()), vec!["a", "b"]);
}

#[test]
fn two_toggles_restore_the_flag() {
    let mut db = DatabaseManager::new();
    db.upsert_template(&template("a", "Alpha", "d", "k", 10)).unwrap();
    db.toggle_template_favorite_at("a", 11).unwrap();
    db.toggle_template_favorite_at("a", 12).unwrap();
    let a = db.get_template_by_id("a").unwrap().unwrap();
    assert!(!a.is_favorite);
    assert_eq!(a.updated_at, 12);
}

#[test]
fn toggle_of_a_missing_id_succeeds_and_changes_nothing() {
    let mut db = DatabaseManager::new();
    db.upsert_template(&template("a", "Alpha", "d", "k", 10)).unwrap();
    let before = db.get_all_templates().unwrap();
    assert_eq!(db.toggle_template_favorite_at("zzz", 99), Ok(()));
    assert_eq!(db.toggle_template_favorite("zzz"), Ok(()));
    assert_eq!(db.get_all_templates().unwrap(), before);
}

#[test]
fn toggle_with_the_clock_moves_the_update_time_on() {
    let mut db = DatabaseManager::new();
    db.upsert_template(&template("a", "Alpha", "d", "k", 10)).unwrap();
    db.toggle_template_favorite("a").unwrap();
    let first = db.get_template_by_id("a").unwrap().unwrap();
    assert!(first.is_favorite);
    assert!(first.updated_at > 1_600_000_000_000);
    db.toggle_template_favorite("a").unwrap();
    let second = db.get_template_by_id("a").unwrap().unwrap();
    assert!(!second.is_favorite);
    assert!(second.updated_at >= first.updated_at);
}

#[test]
fn search_finds_titles_that_hold_the_keyword() {
    let mut db = DatabaseManager::new();
    db.upsert_template(&template("a", "Chest CT report", "d", "k", 1)).unwrap();
    db.upsert_template(&template("b", "Head MRI", "d", "k", 2)).unwrap();
    db.upsert_template(&template("c", "CT of the abdomen", "d", "k", 3)).unwrap();
    assert_eq!(ids(&db.search_templates("CT").unwrap()), vec!["c", "a"]);
    assert_eq!(ids(&db.search_templates("Head MRI").unwrap()), vec!["b"]);
    assert_eq!(ids(&db.search_templates("ct").unwrap()), Vec::<String>::new());
    assert_eq!(ids(&db.search_templates("").unwrap()), vec!["c", "b", "a"]);
}

#[test]
fn search_looks_at_the_stored_text_of_the_sections() {
    let mut db = DatabaseManager::new();
    let mut a = template("a", "Alpha", "d", "k", 1);
    a.sections = vec![TemplateSection { title: "Plan".to_string(), content: "say \"ah\"".to_string() }];
    let mut b = template("b", "Beta", "d", "k", 2);
    b.sections = Vec::new();
    db.upsert_template(&a).unwrap();
    db.upsert_template(&b).unwrap();
    // The member names are part of the stored text.
    assert_eq!(ids(&db.search_templates("content").unwrap()), vec!["a"]);
    assert_eq!(ids(&db.search_templates("Plan").unwrap()), vec!["a"]);
    // The quotes are stored escaped.
    assert_eq!(ids(&db.search_templates("say \\\"ah").unwrap()), vec!["a"]);
    assert_eq!(ids(&db.search_templates("say \"ah").unwrap()), Vec::<String>::new());
    assert_eq!(ids(&db.search_templates("[]").unwrap()), vec!["b"]);
    // Tags and labels are not searched.
    assert_eq!(ids(&db.search_templates("common").unwrap()), Vec::<String>::new());
}

#[test]
fn search_treats_percent_and_underscore_as_wildcards() {
    let mut db = DatabaseManager::new();
    let mut a = template("a", "100% sure", "d", "k", 1);
    a.sections = Vec::new();
    let mut b = template("b", "snake_case", "d", "k", 2);
    b.sections = Vec::new();
    let mut c = template("c", "plain", "d", "k", 3);
    c.sections = Vec::new();
    db.upsert_template(&a).unwrap();
    db.upsert_template(&b).unwrap();
    db.upsert_template(&c).unwrap();
    assert_eq!(ids(&db.search_templates("%").unwrap()), vec!["c", "b", "a"]);
    assert_eq!(ids(&db.search_templates("0% s").unwrap()), vec!["a"]);
    assert_eq!(ids(&db.search_templates("e_c").unwrap()), vec!["b"]);
    assert_eq!(ids(&db.search_templates("p_a").unwrap()), vec!["c"]);
    assert_eq!(ids(&db.search_templates("s%e").unwrap()), vec!["b", "a"]);
    assert_eq!(ids(&db.search_templates("______").unwrap()), vec!["b", "a"]);
}

#[test]
fn diseases_are_counted_and_listed_in_order() {
    let mut db = DatabaseManager::new();
    db.upsert_template(&template("1", "a", "cardiology", "report", 1)).unwrap();
    db.upsert_template(&template("2", "b", "cardiology", "note", 2)).unwrap();
    db.upsert_template(&template("3", "c", "neurology", "report", 3)).unwrap();
    assert_eq!(
        db.get_all_diseases().unwrap(),
        vec![("cardiology".to_string(), 2), ("neurology".to_string(), 1)]
    );
}

#[test]
fn template_types_are_counted_and_listed_in_order() {
    let mut db = DatabaseManager::new();
    db.upsert_template(&template("1", "a", "x", "report", 1)).unwrap();
    db.upsert_template(&template("2", "b", "x", "note", 2)).unwrap();
    db.upsert_template(&template("3", "c", "x", "report", 3)).unwrap();
    db.upsert_template(&template("4", "d", "x", "Report", 4)).unwrap();
    db.upsert_template(&template("5", "e", "x", "", 5)).unwrap();
    assert_eq!(
        db.get_all_template_types().unwrap(),
        vec![
            ("".to_string(), 1),
            ("Report".to_string(), 1),
            ("note".to_string(), 1),
            ("report".to_string(), 2)
        ]
    );
}

#[test]
fn counts_follow_replacement_and_removal() {
    let mut db = DatabaseManager::new();
    db.upsert_template(&template("1", "a", "b", "k", 1)).unwrap();
    db.upsert_template(&template("2", "b", "a", "k", 2)).unwrap();
    db.upsert_template(&template("1", "a", "a", "k", 3)).unwrap();
    assert_eq!(db.get_all_diseases().unwrap(), vec![("a".to_string(), 2)]);
    db.delete_template("2").unwrap();
    assert_eq!(db.get_all_diseases().unwrap(), vec![("a".to_string(), 1)]);
}

#[test]
fn labels_are_ordered_by_code_point() {
    let mut db = DatabaseManager::new();
    for (i, label) in ["b", "ab", "a", "B", "é", "z", "aa", "漢"].iter().enumerate() {
        db.upsert_template(&template(&i.to_string(), "t", label, "k", 1)).unwrap();
    }
    let labels: Vec<String> = db.get_all_diseases().unwrap().into_iter().map(|e| e.0).collect();
    assert_eq!(labels, vec!["B", "a", "aa", "ab", "b", "z", "é", "漢"]);
}

#[test]
fn clear_removes_every_template_and_no_tag() {
    let mut db = DatabaseManager::new();
    db.upsert_template(&template("a", "Alpha", "d", "k", 1)).unwrap();
    db.upsert_template(&template("b", "Beta", "d", "k", 2)).unwrap();
    db.upsert_tag(&tag("t", "Tag", "#fff")).unwrap();
    db.clear_all_templates().unwrap();
    assert_eq!(db.get_all_templates().unwrap(), Vec::<Template>::new());
    assert_eq!(db.get_all_tags().unwrap().len(), 1);
    db.upsert_template(&template("a", "Alpha", "d", "k", 1)).unwrap();
    assert_eq!(db.get_all_templates().unwrap().len(), 1);
}

#[test]
fn tags_are_listed_by_name() {
    let mut db = DatabaseManager::new();
    db.upsert_tag(&tag("1", "surgery", "#ff9800")).unwrap();
    db.upsert_tag(&tag("2", "common", "#4caf50")).unwrap();
    db.upsert_tag(&tag("3", "emergency", "#e53935")).unwrap();
    db.upsert_tag(&tag("4", "common", "#000000")).unwrap();
    let names: Vec<(String, String)> =
        db.get_all_tags().unwrap().into_iter().map(|t| (t.name, t.id)).collect();
    assert_eq!(
        names,
        vec![
            ("common".to_string(), "2".to_string()),
            ("common".to_string(), "4".to_string()),
            ("emergency".to_string(), "3".to_string()),
            ("surgery".to_string(), "1".to_string())
        ]
    );
}

#[test]
fn a_second_tag_with_the_same_id_replaces_the_first() {
    let mut db = DatabaseManager::new();
    db.upsert_tag(&tag("t", "old", "#111")).unwrap();
    db.upsert_tag(&tag("u", "other", "#222")).unwrap();
    db.upsert_tag(&tag("t", "new", "not a color")).unwrap();
    assert_eq!(
        db.get_all_tags().unwrap(),
        vec![tag("t", "new", "not a color"), tag("u", "other", "#222")]
    );
}

#[test]
fn reset_removes_every_tag_and_the_table_stays_usable() {
    let mut db = DatabaseManager::new();
    db.upsert_template(&template("a", "Alpha", "d", "k", 1)).unwrap();
    db.upsert_tag(&tag("common", "常用", "#4caf50")).unwrap();
    db.upsert_tag(&tag("emergency", "急诊", "#e53935")).unwrap();
    db.upsert_tag(&tag("surgery", "手术", "#ff9800")).unwrap();
    db.upsert_tag(&tag("pediatric", "儿科", "#9c27b0")).unwrap();
    assert_eq!(db.get_all_tags().unwrap().len(), 4);
    assert_eq!(db.reset_tags(), Ok(()));
    assert_eq!(db.get_all_tags().unwrap(), Vec::<Tag>::new());
    assert_eq!(db.upsert_tag(&tag("common", "常用", "#4caf50")), Ok(()));
    assert_eq!(db.get_all_tags().unwrap(), vec![tag("common", "常用", "#4caf50")]);
    // Templates keep their references to tags that are gone.
    assert_eq!(db.get_template_by_id("a").unwrap().unwrap().tags, vec!["common".to_string()]);
}

#[test]
fn a_malformed_row_fails_the_reads_that_reach_it() {
    let mut db = DatabaseManager::new();
    db.upsert_template(&template("good", "Good one", "d", "k", 1)).unwrap();
    let mut row: TemplateRow = encode_template(&template("bad", "Bad one", "d", "k", 2));
    row.sections = "[{\"title\":".to_string();
    db.upsert_row(row.clone());
    assert_eq!(db.template_row("bad"), Some(row));
    assert_eq!(db.get_template_by_id("bad"), Err(StoreError::DecodeFailure));
    assert_eq!(db.get_all_templates(), Err(StoreError::DecodeFailure));
    assert_eq!(db.search_templates("Bad"), Err(StoreError::DecodeFailure));
    // Reads that do not reach the row succeed.
    assert_eq!(db.get_template_by_id("good").unwrap().unwrap().title, "Good one");
    assert_eq!(ids(&db.search_templates("Good").unwrap()), vec!["good"]);
    assert_eq!(db.get_all_diseases().unwrap(), vec![("d".to_string(), 2)]);
    db.delete_template("bad").unwrap();
    assert_eq!(ids(&db.get_all_templates().unwrap()), vec!["good"]);
}
