use thunderbot::{match_message, respond, RuleStore};

fn store_with(rules: &[(&str, &[&str])]) -> RuleStore {
    let mut store = RuleStore::new();
    for (trigger, responses) in rules {
        let responses: Vec<String> = responses.iter().map(|r| r.to_string()).collect();
        store
            .save_rule(trigger.to_string(), responses)
            .expect("valid rule");
    }
    store
}

#[test]
fn match_message_works() {
    let patterns = &["kpop time", "kpop tijd"];
    assert!(match_message("Is it kpop time yet", patterns));
    assert!(match_message("Is het al kpop tijd?", patterns));
    assert!(!match_message("It's Britney time", patterns));
}

#[test]
fn match_message_with_no_patterns_matches_nothing() {
    let patterns: &[&str] = &[];
    assert!(!match_message("anything at all", patterns));
}

#[test]
fn empty_pattern_is_contained_in_any_message() {
    assert!(match_message("anything at all", &[""]));
    assert!(match_message("", &[""]));
    assert!(!match_message("", &["kpop time"]));
}

#[test]
fn respond_picks_from_the_matching_rule_only() {
    let store = store_with(&[
        ("kpop time", &["a", "b", "c"]),
        ("other", &["x"]),
    ]);
    for _ in 0..50 {
        let reply = respond(&store, "is it kpop time yet").expect("rule fires");
        assert!(reply == "a" || reply == "b" || reply == "c");
    }
}

#[test]
fn respond_returns_nothing_when_no_trigger_occurs() {
    let store = store_with(&[("kpop time", &["a"]), ("kpop tijd", &["b"])]);
    assert_eq!(respond(&store, "It's Britney time"), None);
}

#[test]
fn respond_matches_exact_substring_case_sensitively() {
    let store = store_with(&[("kpop time", &["hit"])]);
    assert_eq!(respond(&store, "KPOP TIME"), None);
    assert_eq!(respond(&store, "xxkpop timexx"), Some("hit".to_string()));
}

#[test]
fn respond_handles_non_ascii_triggers() {
    let flip = "(\u{256F}\u{00B0}\u{25A1}\u{00B0})\u{256F}\u{FE35} \u{253B}\u{2501}\u{253B}";
    let calm = "\u{252C}\u{2500}\u{252C}\u{30CE}(\u{00BA}_\u{00BA}\u{30CE})";
    let store = store_with(&[(flip, &[calm])]);
    let message = format!("so then he went {} over it", flip);
    assert_eq!(respond(&store, &message), Some(calm.to_string()));
}

#[test]
fn respond_on_empty_store_is_silent() {
    let store = RuleStore::new();
    assert_eq!(respond(&store, "is it kpop time yet"), None);
}
