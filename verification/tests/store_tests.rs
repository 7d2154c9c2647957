use thunderbot::{assemble_rules, collect_responses, drop_empty, Rule, RuleStore, SavedResponse,
    SavedRule, StoreError};

fn strings(items: &[&str]) -> Vec<String> {
    items.iter().map(|s| s.to_string()).collect()
}

#[test]
fn upsert_then_get_returns_exactly_the_saved_responses() {
    let mut store = RuleStore::new();
    let rule = store
        .upsert("kpop time".to_string(), strings(&["a", "b"]), true)
        .expect("fresh rule");
    let fetched = store.get(rule.id).expect("the rule exists");
    assert_eq!(fetched.trigger, "kpop time");
    let mut sorted = fetched.responses.clone();
    sorted.sort();
    assert_eq!(sorted, strings(&["a", "b"]));
}

#[test]
fn upsert_same_trigger_appends_instead_of_duplicating() {
    let mut store = RuleStore::new();
    let first = store
        .save_rule("kpop time".to_string(), strings(&["a"]))
        .expect("fresh rule");
    let second = store
        .save_rule("kpop time".to_string(), strings(&["b"]))
        .expect("appended");
    assert_eq!(first.id, second.id);
    assert_eq!(store.list().len(), 1);
    assert_eq!(second.responses, strings(&["a", "b"]));
}

#[test]
fn delete_twice_never_errors() {
    let mut store = RuleStore::new();
    let rule = store
        .save_rule("kpop time".to_string(), strings(&["a"]))
        .expect("fresh rule");
    assert_eq!(store.delete(rule.id, true), Ok(()));
    assert_eq!(store.delete(rule.id, true), Ok(()));
    assert_eq!(store.list().len(), 0);
}

#[test]
fn sequential_appends_lose_no_update() {
    let mut store = RuleStore::new();
    store
        .save_rule("kpop time".to_string(), strings(&["seed"]))
        .expect("fresh rule");
    let n = 20;
    for k in 0..n {
        store
            .save_rule_single_response("kpop time".to_string(), format!("response-{}", k))
            .expect("appended");
    }
    let rules = store.list();
    assert_eq!(rules.len(), 1);
    assert_eq!(rules[0].responses.len(), 1 + n);
    for k in 0..n {
        assert!(rules[0].responses.contains(&format!("response-{}", k)));
    }
}

#[test]
fn persistence_failure_leaves_the_store_unchanged() {
    let mut store = RuleStore::new();
    let kept = store
        .upsert("kpop time".to_string(), strings(&["a"]), true)
        .expect("fresh rule");
    let refused = store.upsert("kpop tijd".to_string(), strings(&["b"]), false);
    assert!(matches!(refused, Err(StoreError::Persistence)));
    let rules = store.list();
    assert_eq!(rules.len(), 1);
    assert_eq!(rules[0].trigger, "kpop time");
    let fetched = store.get(kept.id).expect("still there");
    assert_eq!(fetched.responses, strings(&["a"]));
    assert_eq!(store.delete(kept.id, false), Err(StoreError::Persistence));
    assert_eq!(store.list().len(), 1);
}

#[test]
fn empty_trigger_is_rejected() {
    let mut store = RuleStore::new();
    assert!(matches!(
        store.save_rule(String::new(), strings(&["a"])),
        Err(StoreError::Validation)
    ));
    assert!(matches!(
        store.upsert(String::new(), strings(&["a"]), true),
        Err(StoreError::Validation)
    ));
    assert_eq!(store.list().len(), 0);
}

#[test]
fn empty_response_list_is_rejected() {
    let mut store = RuleStore::new();
    assert!(matches!(
        store.save_rule("kpop time".to_string(), Vec::new()),
        Err(StoreError::Validation)
    ));
    assert!(matches!(
        store.save_rule_single_response(String::new(), "a".to_string()),
        Err(StoreError::Validation)
    ));
}

#[test]
fn get_unknown_id_is_not_found() {
    let mut store = RuleStore::new();
    store
        .save_rule("kpop time".to_string(), strings(&["a"]))
        .expect("fresh rule");
    assert!(matches!(store.get(424242), Err(StoreError::NotFound)));
}

#[test]
fn plan_upsert_previews_the_committed_rule() {
    let mut store = RuleStore::new();
    store
        .save_rule("kpop time".to_string(), strings(&["a"]))
        .expect("fresh rule");
    let responses = strings(&["b"]);
    let planned = store
        .plan_upsert("kpop time", &responses)
        .expect("valid input");
    let committed = store
        .upsert("kpop time".to_string(), responses, true)
        .expect("accepted");
    assert_eq!(planned.id, committed.id);
    assert_eq!(planned.responses, committed.responses);
    assert!(matches!(
        store.plan_upsert("", &strings(&["x"])),
        Err(StoreError::Validation)
    ));
}

#[test]
fn from_saved_restores_the_rule_set() {
    let saved = vec![
        Rule {
            id: 4,
            trigger: "kpop time".to_string(),
            responses: strings(&["a", "b"]),
            updated_by: "admin".to_string(),
            updated_at: 77,
        },
        Rule {
            id: 9,
            trigger: "hat a week huh".to_string(),
            responses: strings(&["https://whataweek.eu"]),
            updated_by: String::new(),
            updated_at: 0,
        },
    ];
    let mut store = RuleStore::from_saved(saved);
    let fetched = store.get(9).expect("restored");
    assert_eq!(fetched.responses, strings(&["https://whataweek.eu"]));
    let fresh = store
        .save_rule("new trigger".to_string(), strings(&["x"]))
        .expect("fresh rule");
    assert!(fresh.id > 9, "fresh ids stay above the restored ones");
}

#[test]
fn collect_responses_keeps_only_matching_rows_in_order() {
    let rows = vec![
        SavedResponse { rule_id: 1, response: "a".to_string() },
        SavedResponse { rule_id: 2, response: "x".to_string() },
        SavedResponse { rule_id: 1, response: "b".to_string() },
    ];
    assert_eq!(collect_responses(&rows, 1), strings(&["a", "b"]));
    assert_eq!(collect_responses(&rows, 3), Vec::<String>::new());
}

#[test]
fn assemble_rules_regroups_rows_by_rule_id() {
    let rule_rows = vec![
        SavedRule {
            id: 1,
            trigger: "kpop time".to_string(),
            updated_by: "admin".to_string(),
            updated_at: 5,
        },
        SavedRule {
            id: 2,
            trigger: "hat a week huh".to_string(),
            updated_by: String::new(),
            updated_at: 0,
        },
    ];
    let response_rows = vec![
        SavedResponse { rule_id: 2, response: "https://whataweek.eu".to_string() },
        SavedResponse { rule_id: 1, response: "a".to_string() },
        SavedResponse { rule_id: 1, response: "b".to_string() },
    ];
    let rules = assemble_rules(&rule_rows, &response_rows);
    assert_eq!(rules.len(), 2);
    assert_eq!(rules[0].trigger, "kpop time");
    assert_eq!(rules[0].responses, strings(&["a", "b"]));
    assert_eq!(rules[0].updated_by, "admin");
    assert_eq!(rules[1].responses, strings(&["https://whataweek.eu"]));
}

#[test]
fn drop_empty_removes_blank_form_inputs() {
    let items = strings(&["", "first", "", "second", ""]);
    assert_eq!(drop_empty(&items), strings(&["first", "second"]));
    assert_eq!(drop_empty(&Vec::new()), Vec::<String>::new());
}
