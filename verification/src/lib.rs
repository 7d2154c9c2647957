//! Core of a chat auto-responder: a rule store mapping textual triggers to
//! candidate responses, a matcher that answers inbound messages by substring
//! containment, and an ephemeral token store that gates administrative edits
//! of the rule set.

mod chat;
mod db;
mod gate;
mod matcher;
mod rules;
mod text;
mod tokens;

pub use chat::{plan_message, reverse_messages, ChatLine, MessagePlan};
pub use db::{assemble_rules, collect_responses, SavedResponse, SavedRule};
pub use gate::{authorize, check_access, AccessDecision, AuthorizationError};
pub use matcher::{match_message, respond};
pub use tokens::{TokenStore, TOKEN_TTL_SECS};
pub use rules::{drop_empty, Rule, RuleStore, StoreError};
pub use text::is_substr;
