use thunderbot::{authorize, check_access, plan_message, reverse_messages, AccessDecision,
    ChatLine, RuleStore, TokenStore, TOKEN_TTL_SECS};

#[test]
fn issued_token_is_valid_until_the_window_closes() {
    let mut tokens = TokenStore::new();
    let issued_at = 1_000;
    let tok = tokens.generate_token(42, issued_at);
    assert_eq!(tok.len(), 36);
    assert!(tokens.validate_token(&tok, issued_at));
    assert!(tokens.validate_token(&tok, issued_at + TOKEN_TTL_SECS - 1));
    assert!(!tokens.validate_token(&tok, issued_at + TOKEN_TTL_SECS));
    assert!(!tokens.validate_token(&tok, issued_at + TOKEN_TTL_SECS + 1));
}

#[test]
fn unknown_and_expired_tokens_fail_identically() {
    let mut tokens = TokenStore::new();
    let issued_at = 1_000;
    let expired = tokens.generate_token(42, issued_at);
    let now = issued_at + TOKEN_TTL_SECS;
    let on_expired = tokens.validate_token(&expired, now);
    let on_unknown = tokens.validate_token("never-issued-token", now);
    assert_eq!(on_expired, on_unknown);
    assert!(!on_expired);
}

#[test]
fn tokens_bind_their_own_principals() {
    let mut tokens = TokenStore::new();
    let tok_a = tokens.generate_token(7, 100);
    let tok_b = tokens.generate_token(8, 120);
    assert_ne!(tok_a, tok_b);
    assert_eq!(tokens.lookup_valid(&tok_a, 130), Some(7));
    assert_eq!(tokens.lookup_valid(&tok_b, 130), Some(8));
    assert_eq!(tokens.token_count(), 2);
}

#[test]
fn authorize_returns_the_principal_or_an_undifferentiated_error() {
    let mut tokens = TokenStore::new();
    let tok = tokens.generate_token(42, 500);
    assert_eq!(authorize(&tokens, &tok, 600), Ok(42));
    let refused_unknown = authorize(&tokens, "nope", 600);
    let refused_expired = authorize(&tokens, &tok, 500 + TOKEN_TTL_SECS);
    assert!(refused_unknown.is_err());
    assert_eq!(refused_unknown, refused_expired);
}

#[test]
fn check_access_tells_missing_from_invalid_from_granted() {
    let mut tokens = TokenStore::new();
    let tok = tokens.generate_token(42, 500);
    assert_eq!(
        check_access(&tokens, None, 600),
        AccessDecision::MissingCredential
    );
    assert_eq!(
        check_access(&tokens, Some("nope"), 600),
        AccessDecision::Denied
    );
    assert_eq!(
        check_access(&tokens, Some(&tok), 600),
        AccessDecision::Granted(42)
    );
}

#[test]
fn edit_command_mints_a_linked_token() {
    let rules = RuleStore::new();
    let mut tokens = TokenStore::new();
    let plan = plan_message(&rules, &mut tokens, "!edit please", 42, 1_000);
    let link = plan.edit_link.expect("edit command owes a link");
    let prefix = "http://localhost:3000/?token=";
    assert!(link.starts_with(prefix));
    let tok = &link[prefix.len()..];
    assert_eq!(tok.len(), 36);
    assert!(tokens.validate_token(tok, 1_000));
    assert_eq!(tokens.lookup_valid(tok, 1_000), Some(42));
    assert!(!plan.wants_summary);
    assert_eq!(plan.reply, None);
}

#[test]
fn ordinary_messages_mint_nothing_and_may_reply() {
    let mut rules = RuleStore::new();
    rules
        .save_rule("kpop time".to_string(), vec!["a".to_string()])
        .expect("valid rule");
    let mut tokens = TokenStore::new();
    let plan = plan_message(&rules, &mut tokens, "is it kpop time yet", 42, 1_000);
    assert!(plan.edit_link.is_none());
    assert_eq!(tokens.token_count(), 0);
    assert_eq!(plan.reply, Some("a".to_string()));
    let plan = plan_message(
        &rules,
        &mut tokens,
        "bot, what are they talking about?",
        42,
        1_000,
    );
    assert!(plan.wants_summary);
}

#[test]
fn transcript_runs_oldest_first_one_line_per_message() {
    let history = vec![
        ChatLine { author: "carol".to_string(), content: "third".to_string() },
        ChatLine { author: "bob".to_string(), content: "second".to_string() },
        ChatLine { author: "alice".to_string(), content: "first".to_string() },
    ];
    assert_eq!(
        reverse_messages(&history),
        "alice: first\nbob: second\ncarol: third\n"
    );
    assert_eq!(reverse_messages(&Vec::new()), "");
}
