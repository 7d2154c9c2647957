//! The ephemeral token store: an owned, in-memory mapping from an opaque
//! token value to the principal it was issued for and the time it was minted.
//!
//! A token is valid exactly while fewer than `TOKEN_TTL_SECS` seconds have
//! elapsed since issuance; validity is recomputed on every check, so no
//! sweeper is needed. Checks do not reveal whether a refused token was
//! unknown or merely expired. The clock is injected as a seconds count, so
//! validity depends only on the values handed in.

use vstd::prelude::*;

verus! {

/// Seconds a token stays valid after issuance.
pub const TOKEN_TTL_SECS: u64 = 900;

/// Mathematical content of one issued token.
#[verifier::ext_equal]
pub ghost struct TokenModel {
    pub value: Seq<char>,
    pub principal: u64,
    pub issued_at: u64,
}

/// One issued token: its opaque value, the chat identity it was issued for,
/// and the time it was minted, in seconds.
struct TokenEntry {
    value: String,
    principal: u64,
    issued_at: u64,
}

impl View for TokenEntry {
    type V = TokenModel;

    closed spec fn view(&self) -> TokenModel {
        TokenModel { value: self.value@, principal: self.principal, issued_at: self.issued_at }
    }
}

/// Relies on `uuid::Uuid::new_v4` and its `Display` form: a fresh random
/// version-4 identifier, rendered as the 36-character hyphenated text form.
/// The value is random, so nothing relates it to earlier calls.
#[verifier::external_body]
fn fresh_token_value() -> (r: String)
    ensures
        r@.len() == 36,
{
    uuid::Uuid::new_v4().to_string()
}

/// No two entries carry the same token value.
pub open spec fn values_unique(s: Seq<TokenModel>) -> bool {
    forall|i: int, j: int|
        0 <= i < j < s.len() ==> (#[trigger] s[i]).value != (#[trigger] s[j]).value
}

/// Some entry carries token value `v`.
pub open spec fn has_token(s: Seq<TokenModel>, v: Seq<char>) -> bool {
    exists|i: int| 0 <= i < s.len() && (#[trigger] s[i]).value == v
}

/// The entry carrying token value `v`, if any; well defined on stores whose
/// token values are unique.
pub open spec fn lookup(s: Seq<TokenModel>, v: Seq<char>) -> Option<TokenModel> {
    if has_token(s, v) {
        Some(s[choose|i: int| 0 <= i < s.len() && (#[trigger] s[i]).value == v])
    } else {
        None
    }
}

/// The token `v` exists and, at time `now`, fewer than `TOKEN_TTL_SECS`
/// seconds have elapsed since it was issued.
pub open spec fn token_valid(s: Seq<TokenModel>, v: Seq<char>, now: u64) -> bool {
    match lookup(s, v) {
        Some(tm) => tm.issued_at <= now < tm.issued_at + TOKEN_TTL_SECS,
        None => false,
    }
}

/// With unique values, `lookup` finds exactly the entry at `k`.
pub proof fn lemma_lookup_at(s: Seq<TokenModel>, k: int)
    requires
        values_unique(s),
        0 <= k < s.len(),
    ensures
        lookup(s, s[k].value) == Some(s[k]),
{
    assert(has_token(s, s[k].value));
    let i = choose|i: int| 0 <= i < s.len() && (#[trigger] s[i]).value == s[k].value;
    if i != k {
        assert(s[i].value != s[k].value || s[k].value != s[i].value);
    }
}

/// A value no entry carries looks up to nothing.
pub proof fn lemma_lookup_absent(s: Seq<TokenModel>, v: Seq<char>)
    requires
        forall|i: int| 0 <= i < s.len() ==> (#[trigger] s[i]).value != v,
    ensures
        lookup(s, v) == Option::<TokenModel>::None,
{
}

/// Replacing the entry at `k` by one carrying the same value leaves every
/// other lookup unchanged.
proof fn lemma_lookup_update_other(s: Seq<TokenModel>, k: int, tm: TokenModel, v: Seq<char>)
    requires
        values_unique(s),
        0 <= k < s.len(),
        s[k].value == tm.value,
        v != tm.value,
    ensures
        lookup(s.update(k, tm), v) == lookup(s, v),
{
    let s2 = s.update(k, tm);
    if has_token(s, v) {
        let i1 = choose|i: int| 0 <= i < s.len() && (#[trigger] s[i]).value == v;
        assert(i1 != k);
        assert(s2[i1].value == v);
        assert(has_token(s2, v));
        let i2 = choose|i: int| 0 <= i < s2.len() && (#[trigger] s2[i]).value == v;
        assert(i2 != k);
        assert(s[i2].value == v);
        if i1 != i2 {
            assert(s[i1].value != s[i2].value || s[i2].value != s[i1].value);
        }
        assert(lookup(s2, v) == Some(s2[i2]));
        assert(s2[i2] == s[i1]);
    } else {
        assert forall|i: int| 0 <= i < s2.len() implies (#[trigger] s2[i]).value != v by {
            if i != k {
                assert(s[i].value != v);
            }
        }
        assert(!has_token(s2, v));
    }
}

/// Adding an entry with a new value leaves every other lookup unchanged.
proof fn lemma_lookup_push_other(s: Seq<TokenModel>, tm: TokenModel, v: Seq<char>)
    requires
        values_unique(s),
        v != tm.value,
    ensures
        lookup(s.push(tm), v) == lookup(s, v),
{
    let s2 = s.push(tm);
    if has_token(s, v) {
        let i1 = choose|i: int| 0 <= i < s.len() && (#[trigger] s[i]).value == v;
        assert(s2[i1].value == v);
        assert(has_token(s2, v));
        let i2 = choose|i: int| 0 <= i < s2.len() && (#[trigger] s2[i]).value == v;
        assert(i2 != s.len());
        assert(s[i2].value == v);
        if i1 != i2 {
            assert(s[i1].value != s[i2].value || s[i2].value != s[i1].value);
        }
        assert(lookup(s2, v) == Some(s2[i2]));
        assert(s2[i2] == s[i1]);
    } else {
        assert forall|i: int| 0 <= i < s2.len() implies (#[trigger] s2[i]).value != v by {
            if i != s.len() {
                assert(s[i].value != v);
            }
        }
        assert(!has_token(s2, v));
    }
}

/// The authoritative in-memory token table.
pub struct TokenStore {
    entries: Vec<TokenEntry>,
}

impl View for TokenStore {
    type V = Seq<TokenModel>;

    closed spec fn view(&self) -> Seq<TokenModel> {
        Seq::new(self.entries@.len(), |i: int| self.entries@[i]@)
    }
}

impl TokenStore {
    /// Store invariant: token values are unique, so each value binds one
    /// principal immutably.
    pub open spec fn wf(&self) -> bool {
        values_unique(self@)
    }

    /// An empty store.
    pub fn new() -> (s: TokenStore)
        ensures
            s@ == Seq::<TokenModel>::empty(),
            s.wf(),
    {
        let s = TokenStore { entries: Vec::new() };
        assert(s@ =~= Seq::<TokenModel>::empty());
        s
    }

    /// Mint a fresh opaque token for `user_id` at time `now` and remember it.
    /// Every other token keeps its binding.
    #[verifier::loop_isolation(false)]
    pub fn generate_token(&mut self, user_id: u64, now: u64) -> (tok: String)
        requires
            old(self).wf(),
        ensures
            final(self).wf(),
            tok@.len() == 36,
            lookup(final(self)@, tok@) == Some(
                TokenModel { value: tok@, principal: user_id, issued_at: now },
            ),
            forall|v: Seq<char>|
                v != tok@ ==> #[trigger] lookup(final(self)@, v) == lookup(old(self)@, v),
    {
        let tok = fresh_token_value();
        let entry = TokenEntry { value: tok.clone(), principal: user_id, issued_at: now };
        let ghost tm = entry@;
        let n = self.entries.len();
        let mut i: usize = 0;
        while i < n
            invariant
                self@ == old(self)@,
                n == self.entries@.len(),
                i <= n,
                forall|j: int| 0 <= j < i ==> (#[trigger] self@[j]).value != tok@,
            decreases n - i,
        {
            if crate::text::str_eq_str(self.entries[i].value.as_str(), tok.as_str()) {
                let ghost pre = self@;
                proof {
                    assert(pre[i as int].value == tok@);
                }
                let _old_entry = self.entries.remove(i);
                self.entries.insert(i, entry);
                assert(self@ =~= pre.update(i as int, tm));
                proof {
                    lemma_lookup_at(self@, i as int);
                    assert forall|v: Seq<char>| v != tok@ implies #[trigger] lookup(self@, v)
                        == lookup(pre, v) by {
                        lemma_lookup_update_other(pre, i as int, tm, v);
                    }
                }
                return tok;
            }
            i += 1;
        }
        let ghost pre = self@;
        self.entries.push(entry);
        assert(self@ =~= pre.push(tm));
        proof {
            assert forall|x: int, y: int| 0 <= x < y < self@.len() implies (#[trigger] self@[x]).value
                != (#[trigger] self@[y]).value by {
                if y == pre.len() as int {
                    assert(pre[x].value != tok@);
                }
            }
            lemma_lookup_at(self@, pre.len() as int);
            assert forall|v: Seq<char>| v != tok@ implies #[trigger] lookup(self@, v) == lookup(
                pre,
                v,
            ) by {
                lemma_lookup_push_other(pre, tm, v);
            }
        }
        tok
    }

    /// Whether `token` names a known, still-fresh credential at time `now`.
    /// An unknown value and an expired one are both plainly `false`.
    #[verifier::loop_isolation(false)]
    pub fn validate_token(&self, token: &str, now: u64) -> (r: bool)
        requires
            self.wf(),
        ensures
            r == token_valid(self@, token@, now),
    {
        let n = self.entries.len();
        let mut i: usize = 0;
        while i < n
            invariant
                n == self.entries@.len(),
                i <= n,
                forall|j: int| 0 <= j < i ==> (#[trigger] self@[j]).value != token@,
            decreases n - i,
        {
            if crate::text::str_eq_str(self.entries[i].value.as_str(), token) {
                proof {
                    assert(self@[i as int].value == token@);
                    lemma_lookup_at(self@, i as int);
                }
                let issued = self.entries[i].issued_at;
                return now >= issued && now - issued < TOKEN_TTL_SECS;
            }
            i += 1;
        }
        proof {
            lemma_lookup_absent(self@, token@);
        }
        false
    }

    /// The principal a known, still-fresh `token` was issued for, or nothing;
    /// unknown and expired tokens are indistinguishable here too.
    #[verifier::loop_isolation(false)]
    pub fn lookup_valid(&self, token: &str, now: u64) -> (r: Option<u64>)
        requires
            self.wf(),
        ensures
            r is Some <==> token_valid(self@, token@, now),
            r matches Some(p) ==> lookup(self@, token@) matches Some(tm) && p == tm.principal,
    {
        let n = self.entries.len();
        let mut i: usize = 0;
        while i < n
            invariant
                n == self.entries@.len(),
                i <= n,
                forall|j: int| 0 <= j < i ==> (#[trigger] self@[j]).value != token@,
            decreases n - i,
        {
            if crate::text::str_eq_str(self.entries[i].value.as_str(), token) {
                proof {
                    assert(self@[i as int].value == token@);
                    lemma_lookup_at(self@, i as int);
                }
                let issued = self.entries[i].issued_at;
                if now >= issued && now - issued < TOKEN_TTL_SECS {
                    return Some(self.entries[i].principal);
                } else {
                    return None;
                }
            }
            i += 1;
        }
        proof {
            lemma_lookup_absent(self@, token@);
        }
        None
    }

    /// How many tokens the store remembers.
    pub fn token_count(&self) -> (n: usize)
        ensures
            n == self@.len(),
    {
        self.entries.len()
    }
}

/// Law: a token is valid from the instant it was issued up to, but not
/// including, the end of the validity window, and invalid from the boundary
/// on: still valid one second before the boundary, no longer valid at it.
pub proof fn lemma_validity_window(s: Seq<TokenModel>, v: Seq<char>, tm: TokenModel)
    requires
        lookup(s, v) == Some(tm),
        tm.issued_at + TOKEN_TTL_SECS <= u64::MAX,
    ensures
        token_valid(s, v, tm.issued_at),
        token_valid(s, v, (tm.issued_at + TOKEN_TTL_SECS - 1) as u64),
        !token_valid(s, v, (tm.issued_at + TOKEN_TTL_SECS) as u64),
{
}

/// Law: a check of a never-issued token and a check of an expired one return
/// the very same `false`; the result does not reveal which case held.
pub proof fn lemma_no_leakage(
    s: Seq<TokenModel>,
    unknown: Seq<char>,
    expired: Seq<char>,
    tm: TokenModel,
    now: u64,
)
    requires
        lookup(s, unknown) == Option::<TokenModel>::None,
        lookup(s, expired) == Some(tm),
        tm.issued_at + TOKEN_TTL_SECS <= now,
    ensures
        !token_valid(s, unknown, now),
        !token_valid(s, expired, now),
        token_valid(s, unknown, now) == token_valid(s, expired, now),
{
}

} // verus!
