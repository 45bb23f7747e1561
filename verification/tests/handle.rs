use template_store::error::{acknowledge, report, report_opening, success_message, Operation};
use template_store::{DatabaseManager, StoreError, StoreHandle, Tag, Template};

fn template(id: &str, updated_at: i64) -> Template {
    Template {
        id: id.to_string(),
        title: format!("title {}", id),
        sections: Vec::new(),
        disease: "d".to_string(),
        template_type: "k".to_string(),
        tags: Vec::new(),
        created_at: 0,
        updated_at,
        is_favorite: false,
    }
}

fn tag(id: &str) -> Tag {
    Tag { id: id.to_string(), name: id.to_string(), color: "#000".to_string() }
}

#[test]
fn every_operation_on_a_fresh_handle_fails_with_not_initialized() {
    let mut handle = StoreHandle::new();
    assert!(!handle.ready());
    assert_eq!(handle.get_all_templates(), Err(StoreError::NotInitialized));
    assert_eq!(handle.get_template_by_id("a"), Err(StoreError::NotInitialized));
    assert_eq!(handle.search_templates("a"), Err(StoreError::NotInitialized));
    assert_eq!(handle.get_all_diseases(), Err(StoreError::NotInitialized));
    assert_eq!(handle.get_all_template_types(), Err(StoreError::NotInitialized));
    assert_eq!(handle.get_all_tags(), Err(StoreError::NotInitialized));
    assert_eq!(handle.save_template(&template("a", 1)), Err(StoreError::NotInitialized));
    assert_eq!(handle.import_templates(&vec![template("a", 1)]), Err(StoreError::NotInitialized));
    assert_eq!(handle.delete_template("a"), Err(StoreError::NotInitialized));
    assert_eq!(handle.toggle_template_favorite("a"), Err(StoreError::NotInitialized));
    assert_eq!(handle.toggle_template_favorite_at("a", 5), Err(StoreError::NotInitialized));
    assert_eq!(handle.clear_templates(), Err(StoreError::NotInitialized));
    assert_eq!(handle.save_tag(&tag("t")), Err(StoreError::NotInitialized));
    assert_eq!(handle.reset_tags(), Err(StoreError::NotInitialized));
    assert!(!handle.ready());
}

#[test]
fn initializing_makes_the_handle_ready() {
    let mut handle = StoreHandle::new();
    assert_eq!(handle.init_database(Ok(DatabaseManager::new())), Ok(()));
    assert!(handle.ready());
    assert_eq!(handle.get_all_templates(), Ok(Vec::new()));
    assert_eq!(handle.save_template(&template("a", 1)), Ok(()));
    assert_eq!(handle.get_template_by_id("a").unwrap(), Some(template("a", 1)));
}

#[test]
fn initializing_a_ready_handle_changes_nothing() {
    let mut handle = StoreHandle::new();
    handle.init_database(Ok(DatabaseManager::new())).unwrap();
    handle.save_template(&template("a", 1)).unwrap();
    assert_eq!(handle.init_database(Ok(DatabaseManager::new())), Ok(()));
    assert_eq!(handle.get_all_templates().unwrap(), vec![template("a", 1)]);
    let failure = StoreError::StorageEngine("disk full".to_string());
    assert_eq!(handle.init_database(Err(failure)), Ok(()));
    assert!(handle.ready());
    assert_eq!(handle.get_all_templates().unwrap(), vec![template("a", 1)]);
}

#[test]
fn a_failed_opening_leaves_the_handle_uninitialized() {
    let mut handle = StoreHandle::new();
    let failure = StoreError::StorageEngine("cannot open file".to_string());
    assert_eq!(handle.init_database(Err(failure.clone())), Err(failure));
    assert!(!handle.ready());
    assert_eq!(handle.get_all_tags(), Err(StoreError::NotInitialized));
    assert_eq!(handle.init_database(Ok(DatabaseManager::new())), Ok(()));
    assert!(handle.ready());
}

#[test]
fn a_handle_takes_over_the_rows_of_the_opened_catalog() {
    let mut db = DatabaseManager::new();
    db.upsert_template(&template("a", 1)).unwrap();
    db.upsert_tag(&tag("t")).unwrap();
    let mut handle = StoreHandle::new();
    handle.init_database(Ok(db)).unwrap();
    assert_eq!(handle.get_all_templates().unwrap(), vec![template("a", 1)]);
    assert_eq!(handle.get_all_tags().unwrap(), vec![tag("t")]);
}

#[test]
fn a_ready_handle_passes_every_operation_on() {
    let mut handle = StoreHandle::new();
    handle.init_database(Ok(DatabaseManager::new())).unwrap();
    handle.import_templates(&vec![template("a", 1), template("b", 2)]).unwrap();
    handle.save_template(&template("c", 3)).unwrap();
    handle.toggle_template_favorite_at("a", 9).unwrap();
    let all = handle.get_all_templates().unwrap();
    let order: Vec<&str> = all.iter().map(|t| t.id.as_str()).collect();
    assert_eq!(order, vec!["a", "c", "b"]);
    assert!(all[0].is_favorite);
    handle.toggle_template_favorite("b").unwrap();
    assert!(handle.get_template_by_id("b").unwrap().unwrap().is_favorite);
    handle.delete_template("c").unwrap();
    assert_eq!(handle.search_templates("title").unwrap().len(), 2);
    assert_eq!(handle.get_all_diseases().unwrap(), vec![("d".to_string(), 2)]);
    assert_eq!(handle.get_all_template_types().unwrap(), vec![("k".to_string(), 2)]);
    handle.save_tag(&tag("z")).unwrap();
    handle.save_tag(&tag("y")).unwrap();
    assert_eq!(handle.get_all_tags().unwrap(), vec![tag("y"), tag("z")]);
    handle.reset_tags().unwrap();
    assert_eq!(handle.get_all_tags().unwrap(), Vec::<Tag>::new());
    handle.clear_templates().unwrap();
    assert_eq!(handle.get_all_templates().unwrap(), Vec::<Template>::new());
}

#[test]
fn failures_read_as_one_line_at_the_boundary() {
    assert_eq!(StoreError::NotInitialized.message(), "Database not initialized");
    assert_eq!(
        StoreError::LockFailure("poisoned lock".to_string()).message(),
        "Failed to lock database: poisoned lock"
    );
    assert_eq!(
        StoreError::EncodeFailure("key must be a string".to_string()).message(),
        "Database error: key must be a string"
    );
    assert_eq!(StoreError::DecodeFailure.message(), "Database error: a stored field is not valid");
    assert_eq!(
        StoreError::StorageEngine("constraint violated".to_string()).message(),
        "Database error: constraint violated"
    );
    assert_eq!(
        StoreError::StorageEngine("no such file".to_string()).open_failure_message(),
        "Failed to initialize database: no such file"
    );
    assert_eq!(StoreError::StorageEngine("x".to_string()).detail(), "x");
}

#[test]
fn successes_read_as_one_line_at_the_boundary() {
    assert_eq!(success_message(Operation::SaveTemplate), "Template saved successfully");
    assert_eq!(success_message(Operation::ImportTemplates), "Templates saved successfully");
    assert_eq!(success_message(Operation::DeleteTemplate), "Template deleted successfully");
    assert_eq!(
        success_message(Operation::ToggleFavorite),
        "Template favorite status toggled successfully"
    );
    assert_eq!(success_message(Operation::SaveTag), "Tag saved successfully");
    assert_eq!(success_message(Operation::ResetTags), "Tags reset successfully");
    assert_eq!(success_message(Operation::ClearTemplates), "Templates cleared successfully");
}

#[test]
fn answers_at_the_boundary_carry_data_or_one_line() {
    let mut handle = StoreHandle::new();
    assert_eq!(
        acknowledge(handle.save_template(&template("a", 1)), Operation::SaveTemplate),
        Err("Database not initialized".to_string())
    );
    assert_eq!(report(handle.get_all_templates()), Err("Database not initialized".to_string()));
    assert_eq!(report_opening(handle.init_database(Ok(DatabaseManager::new()))), Ok(()));
    assert_eq!(
        acknowledge(handle.save_template(&template("a", 1)), Operation::SaveTemplate),
        Ok("Template saved successfully".to_string())
    );
    assert_eq!(report(handle.get_all_templates()), Ok(vec![template("a", 1)]));
    assert_eq!(
        report_opening(Err(StoreError::StorageEngine("locked".to_string()))),
        Err("Failed to initialize database: locked".to_string())
    );
    assert_eq!(
        report::<i32>(Err(StoreError::DecodeFailure)),
        Err("Database error: a stored field is not valid".to_string())
    );
}
