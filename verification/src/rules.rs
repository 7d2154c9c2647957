//! The rule store: an owned, in-memory mapping from textual triggers to
//! non-empty response lists.
//!
//! A rule associates one trigger phrase with the ordered list of candidate
//! responses the matcher may pick from. Saving a rule whose trigger already
//! exists appends the new responses to the first rule carrying that trigger;
//! saving an unknown trigger creates a fresh rule under a fresh id. Mutating
//! operations that take a `persisted` flag implement write-ahead semantics:
//! the in-memory state changes only after the durable mirror has accepted the
//! new state, so a persistence failure leaves the store untouched.

use vstd::prelude::*;

verus! {

/// Mathematical content of one rule.
#[verifier::ext_equal]
pub ghost struct RuleModel {
    pub id: int,
    pub trigger: Seq<char>,
    pub responses: Seq<Seq<char>>,
    pub updated_by: Seq<char>,
    pub updated_at: int,
}

/// A trigger-to-responses association.
#[derive(Debug)]
pub struct Rule {
    pub id: i64,
    pub trigger: String,
    pub responses: Vec<String>,
    pub updated_by: String,
    pub updated_at: i64,
}

impl View for Rule {
    type V = RuleModel;

    open spec fn view(&self) -> RuleModel {
        RuleModel {
            id: self.id as int,
            trigger: self.trigger@,
            responses: self.responses.deep_view(),
            updated_by: self.updated_by@,
            updated_at: self.updated_at as int,
        }
    }
}

impl Clone for Rule {
    fn clone(&self) -> (r: Rule)
        ensures
            r@ == self@,
    {
        let r = Rule {
            id: self.id,
            trigger: self.trigger.clone(),
            responses: clone_strings(&self.responses),
            updated_by: self.updated_by.clone(),
            updated_at: self.updated_at,
        };
        assert(r@.responses =~= self@.responses);
        r
    }
}

/// Element-wise copy of a list of strings.
fn clone_strings(v: &Vec<String>) -> (r: Vec<String>)
    ensures
        r@ == v@,
{
    let mut r: Vec<String> = Vec::new();
    let mut i: usize = 0;
    while i < v.len()
        invariant
            i <= v@.len(),
            r@ == v@.subrange(0, i as int),
        decreases v@.len() - i,
    {
        r.push(v[i].clone());
        assert(r@ =~= v@.subrange(0, i + 1));
        i += 1;
    }
    assert(r@ =~= v@);
    r
}

/// Why a rule-store operation was refused.
#[derive(Clone, Copy, Debug, PartialEq, Eq, Structural)]
pub enum StoreError {
    /// The trigger or the response list was empty.
    Validation,
    /// No rule carries the requested id.
    NotFound,
    /// The durable mirror refused the new state; memory was left unchanged.
    Persistence,
}

/// A rule is retained only with a non-empty trigger and at least one response.
pub open spec fn rule_model_wf(r: RuleModel) -> bool {
    r.trigger.len() > 0 && r.responses.len() > 0
}

pub open spec fn rules_wf(s: Seq<RuleModel>) -> bool {
    forall|i: int| 0 <= i < s.len() ==> rule_model_wf(#[trigger] s[i])
}

pub open spec fn ids_unique(s: Seq<RuleModel>) -> bool {
    forall|i: int, j: int|
        0 <= i < j < s.len() ==> (#[trigger] s[i]).id != (#[trigger] s[j]).id
}

/// Some rule in `s` carries trigger `t`.
pub open spec fn has_trigger(s: Seq<RuleModel>, t: Seq<char>) -> bool {
    exists|i: int| 0 <= i < s.len() && (#[trigger] s[i]).trigger == t
}

/// Some rule in `s` carries id `id`.
pub open spec fn has_id(s: Seq<RuleModel>, id: int) -> bool {
    exists|i: int| 0 <= i < s.len() && (#[trigger] s[i]).id == id
}

/// The rule that a freshly created trigger gets.
pub open spec fn new_rule_model(id: int, t: Seq<char>, rs: Seq<Seq<char>>) -> RuleModel {
    RuleModel { id: id, trigger: t, responses: rs, updated_by: Seq::empty(), updated_at: 0 }
}

/// `r` with `rs` appended to its responses.
pub open spec fn appended(r: RuleModel, rs: Seq<Seq<char>>) -> RuleModel {
    RuleModel {
        id: r.id,
        trigger: r.trigger,
        responses: r.responses + rs,
        updated_by: r.updated_by,
        updated_at: r.updated_at,
    }
}

/// Effect of saving the incoming rule `inc` on the rule list `s`: the first
/// rule carrying `inc.trigger` has `inc.responses` appended, and if no rule
/// carries it, `inc` itself is added at the end.
pub open spec fn upsert_model(s: Seq<RuleModel>, inc: RuleModel) -> Seq<RuleModel>
    decreases s.len(),
{
    if s.len() == 0 {
        seq![inc]
    } else if s[0].trigger == inc.trigger {
        seq![appended(s[0], inc.responses)] + s.subrange(1, s.len() as int)
    } else {
        seq![s[0]] + upsert_model(s.subrange(1, s.len() as int), inc)
    }
}

/// The rule state that saving `inc` leaves behind for `inc.trigger`.
pub open spec fn upsert_result(s: Seq<RuleModel>, inc: RuleModel) -> RuleModel
    decreases s.len(),
{
    if s.len() == 0 {
        inc
    } else if s[0].trigger == inc.trigger {
        appended(s[0], inc.responses)
    } else {
        upsert_result(s.subrange(1, s.len() as int), inc)
    }
}

/// Effect of deleting `id`: every rule carrying it (at most one in a
/// well-formed store) is dropped, and an absent id removes nothing.
pub open spec fn delete_model(s: Seq<RuleModel>, id: int) -> Seq<RuleModel>
    decreases s.len(),
{
    if s.len() == 0 {
        Seq::empty()
    } else {
        let rest = delete_model(s.drop_last(), id);
        if s.last().id == id {
            rest
        } else {
            rest.push(s.last())
        }
    }
}

/// Saving a rule whose trigger is carried first by `s[k]` rewrites exactly
/// that rule, appending the incoming responses.
pub proof fn lemma_upsert_found(s: Seq<RuleModel>, inc: RuleModel, k: int)
    requires
        0 <= k < s.len(),
        s[k].trigger == inc.trigger,
        forall|j: int| 0 <= j < k ==> (#[trigger] s[j]).trigger != inc.trigger,
    ensures
        upsert_model(s, inc) == s.update(k, appended(s[k], inc.responses)),
        upsert_result(s, inc) == appended(s[k], inc.responses),
    decreases k,
{
    if k == 0 {
        assert(upsert_model(s, inc) =~= s.update(0, appended(s[0], inc.responses)));
    } else {
        let rest = s.subrange(1, s.len() as int);
        lemma_upsert_found(rest, inc, k - 1);
        assert(rest[k - 1] == s[k]);
        assert(seq![s[0]] + rest.update(k - 1, appended(s[k], inc.responses)) =~= s.update(
            k,
            appended(s[k], inc.responses),
        ));
    }
}

/// Saving a rule whose trigger no rule carries adds it at the end.
pub proof fn lemma_upsert_absent(s: Seq<RuleModel>, inc: RuleModel)
    requires
        forall|j: int| 0 <= j < s.len() ==> (#[trigger] s[j]).trigger != inc.trigger,
    ensures
        upsert_model(s, inc) == s.push(inc),
        upsert_result(s, inc) == inc,
    decreases s.len(),
{
    if s.len() == 0 {
        assert(upsert_model(s, inc) =~= s.push(inc));
    } else {
        let rest = s.subrange(1, s.len() as int);
        lemma_upsert_absent(rest, inc);
        assert(seq![s[0]] + rest.push(inc) =~= s.push(inc));
    }
}

/// The authoritative in-memory rule table, owned by the process and handed
/// by reference to whichever component needs it.
pub struct RuleStore {
    rules: Vec<Rule>,
    next_id: i64,
}

impl View for RuleStore {
    type V = Seq<RuleModel>;

    closed spec fn view(&self) -> Seq<RuleModel> {
        Seq::new(self.rules@.len(), |i: int| self.rules@[i]@)
    }
}

impl RuleStore {
    /// The id the next freshly created rule will get.
    pub closed spec fn next_id_spec(&self) -> int {
        self.next_id as int
    }

    /// Store invariant: every retained rule is well formed, ids are unique,
    /// and every id lies below the next fresh one.
    pub open spec fn wf(&self) -> bool {
        &&& rules_wf(self@)
        &&& ids_unique(self@)
        &&& 1 <= self.next_id_spec()
        &&& forall|i: int|
            0 <= i < self@.len() ==> 1 <= (#[trigger] self@[i]).id < self.next_id_spec()
    }

    /// An empty store.
    pub fn new() -> (s: RuleStore)
        ensures
            s@ == Seq::<RuleModel>::empty(),
            s.wf(),
            s.next_id_spec() == 1,
    {
        let s = RuleStore { rules: Vec::new(), next_id: 1 };
        assert(s@ =~= Seq::<RuleModel>::empty());
        s
    }

    /// Append `responses` to the first rule carrying `trigger`, or create a
    /// fresh rule; the store must already be known to accept the input.
    #[verifier::loop_isolation(false)]
    fn commit(&mut self, trigger: String, responses: Vec<String>) -> (r: Rule)
        requires
            old(self).wf(),
            trigger@.len() > 0,
            responses@.len() > 0,
            old(self).next_id_spec() < i64::MAX,
        ensures
            final(self).wf(),
            final(self)@ == upsert_model(
                old(self)@,
                new_rule_model(old(self).next_id_spec(), trigger@, responses.deep_view()),
            ),
            r@ == upsert_result(
                old(self)@,
                new_rule_model(old(self).next_id_spec(), trigger@, responses.deep_view()),
            ),
            has_trigger(old(self)@, trigger@) ==> final(self).next_id_spec() == old(self).next_id_spec(),
            !has_trigger(old(self)@, trigger@) ==> final(self).next_id_spec() == old(self).next_id_spec() + 1,
    {
        let ghost inc = new_rule_model(self.next_id as int, trigger@, responses.deep_view());
        let n = self.rules.len();
        let mut i: usize = 0;
        while i < n
            invariant
                self@ == old(self)@,
                self.next_id == old(self).next_id,
                n == self.rules@.len(),
                i <= n,
                forall|j: int| 0 <= j < i ==> (#[trigger] self@[j]).trigger != trigger@,
            decreases n - i,
        {
            if crate::text::str_eq_str(self.rules[i].trigger.as_str(), trigger.as_str()) {
                let ghost pre = self@;
                proof {
                    lemma_upsert_found(pre, inc, i as int);
                }
                let ghost found_model = pre[i as int];
                let found = self.rules.remove(i);
                let Rule { id, trigger: kept_trigger, responses: mut kept, updated_by, updated_at }
                    = found;
                let mut j: usize = 0;
                let ghost kept0 = kept@;
                while j < responses.len()
                    invariant
                        j <= responses@.len(),
                        kept@ == kept0 + responses@.subrange(0, j as int),
                    decreases responses@.len() - j,
                {
                    kept.push(responses[j].clone());
                    assert(kept@ =~= kept0 + responses@.subrange(0, j + 1));
                    j += 1;
                }
                assert(kept@ =~= kept0 + responses@);
                let merged = Rule {
                    id,
                    trigger: kept_trigger,
                    responses: kept,
                    updated_by,
                    updated_at,
                };
                assert(merged@ =~= appended(found_model, inc.responses)) by {
                    assert(kept@ == kept0 + responses@);
                    assert(merged@.responses.len() == (found_model.responses
                        + inc.responses).len());
                    assert forall|x: int|
                        0 <= x < kept@.len() implies merged@.responses[x] == (
                    found_model.responses + inc.responses)[x] by {
                        if x < kept0.len() {
                            assert(kept@[x] == kept0[x]);
                        } else {
                            assert(kept@[x] == responses@[x - kept0.len()]);
                        }
                    }
                    assert(merged@.responses =~= found_model.responses + inc.responses);
                }
                let out = merged.clone();
                self.rules.insert(i, merged);
                assert(self@ =~= pre.update(i as int, merged@));
                return out;
            }
            proof {
                assert(self@[i as int].trigger != trigger@);
            }
            i += 1;
        }
        proof {
            lemma_upsert_absent(self@, inc);
        }
        let ghost pre = self@;
        let fresh = Rule {
            id: self.next_id,
            trigger,
            responses,
            updated_by: String::new(),
            updated_at: 0,
        };
        assert(fresh@ =~= inc);
        let out = fresh.clone();
        self.rules.push(fresh);
        self.next_id = self.next_id + 1;
        assert(self@ =~= pre.push(inc));
        out
    }

    /// Append `responses` to the rule carrying `pattern`, creating the rule
    /// if the pattern is unknown. Refused only for an empty pattern or an
    /// empty response list.
    pub fn save_rule(&mut self, pattern: String, responses: Vec<String>) -> (r: Result<
        Rule,
        StoreError,
    >)
        requires
            old(self).wf(),
            old(self).next_id_spec() < i64::MAX,
        ensures
            final(self).wf(),
            r is Err <==> (pattern@.len() == 0 || responses@.len() == 0),
            r is Err ==> r == Result::<Rule, StoreError>::Err(StoreError::Validation) && final(self)@ == old(self)@ && final(self).next_id_spec() == old(self).next_id_spec(),
            r matches Ok(rule) ==> {
                let inc = new_rule_model(
                    old(self).next_id_spec(),
                    pattern@,
                    responses.deep_view(),
                );
                &&& final(self)@ == upsert_model(old(self)@, inc)
                &&& rule@ == upsert_result(old(self)@, inc)
                &&& (has_trigger(old(self)@, pattern@) ==> final(self).next_id_spec() == old(self).next_id_spec())
                &&& (!has_trigger(old(self)@, pattern@) ==> final(self).next_id_spec() == old(self).next_id_spec() + 1)
            },
    {
        if pattern.as_str().is_empty() || responses.len() == 0 {
            return Err(StoreError::Validation);
        }
        Ok(self.commit(pattern, responses))
    }

    /// Append a single response to the rule carrying `pattern`.
    pub fn save_rule_single_response(&mut self, pattern: String, response: String) -> (r: Result<
        Rule,
        StoreError,
    >)
        requires
            old(self).wf(),
            old(self).next_id_spec() < i64::MAX,
        ensures
            final(self).wf(),
            r is Err <==> pattern@.len() == 0,
            r is Err ==> r == Result::<Rule, StoreError>::Err(StoreError::Validation) && final(self)@ == old(self)@,
            r matches Ok(rule) ==> {
                let inc = new_rule_model(
                    old(self).next_id_spec(),
                    pattern@,
                    seq![response@],
                );
                &&& final(self)@ == upsert_model(old(self)@, inc)
                &&& rule@ == upsert_result(old(self)@, inc)
            },
    {
        let single = vec![response];
        assert(single.deep_view() =~= seq![single@[0]@]);
        self.save_rule(pattern, single)
    }

    /// Whether the id space is exhausted, so no further rule can be created.
    pub fn at_capacity(&self) -> (r: bool)
        ensures
            r == (self.next_id_spec() == i64::MAX as int),
    {
        self.next_id == i64::MAX
    }

    /// How many rules the store holds.
    pub fn rule_count(&self) -> (n: usize)
        ensures
            n == self@.len(),
    {
        self.rules.len()
    }

    /// The rule at position `i`, for read-only traversal.
    pub fn rule_at(&self, i: usize) -> (r: &Rule)
        requires
            i < self@.len(),
        ensures
            r@ == self@[i as int],
    {
        &self.rules[i]
    }

    /// The rule state that saving `trigger` with `responses` would leave
    /// behind, so the durable mirror can be written ahead of the commit.
    #[verifier::loop_isolation(false)]
    pub fn plan_upsert(&self, trigger: &str, responses: &Vec<String>) -> (r: Result<
        Rule,
        StoreError,
    >)
        requires
            self.wf(),
            self.next_id_spec() < i64::MAX,
        ensures
            r is Err <==> (trigger@.len() == 0 || responses@.len() == 0),
            r is Err ==> r == Result::<Rule, StoreError>::Err(StoreError::Validation),
            r matches Ok(rule) ==> rule@ == upsert_result(
                self@,
                new_rule_model(self.next_id_spec(), trigger@, responses.deep_view()),
            ),
    {
        if trigger.is_empty() || responses.len() == 0 {
            return Err(StoreError::Validation);
        }
        let ghost inc = new_rule_model(self.next_id as int, trigger@, responses.deep_view());
        let n = self.rules.len();
        let mut i: usize = 0;
        while i < n
            invariant
                n == self.rules@.len(),
                i <= n,
                forall|j: int| 0 <= j < i ==> (#[trigger] self@[j]).trigger != trigger@,
            decreases n - i,
        {
            if crate::text::str_eq_str(self.rules[i].trigger.as_str(), trigger) {
                proof {
                    lemma_upsert_found(self@, inc, i as int);
                }
                let found = &self.rules[i];
                let mut extended = clone_strings(&found.responses);
                let ghost base = extended@;
                let mut j: usize = 0;
                while j < responses.len()
                    invariant
                        j <= responses@.len(),
                        extended@ == base + responses@.subrange(0, j as int),
                    decreases responses@.len() - j,
                {
                    extended.push(responses[j].clone());
                    assert(extended@ =~= base + responses@.subrange(0, j + 1));
                    j += 1;
                }
                assert(extended@ =~= base + responses@);
                let planned = Rule {
                    id: found.id,
                    trigger: found.trigger.clone(),
                    responses: extended,
                    updated_by: found.updated_by.clone(),
                    updated_at: found.updated_at,
                };
                assert(planned@ =~= appended(self@[i as int], inc.responses)) by {
                    assert forall|x: int|
                        0 <= x < planned@.responses.len() implies planned@.responses[x] == (
                    self@[i as int].responses + inc.responses)[x] by {
                        if x < base.len() {
                            assert(extended@[x] == base[x]);
                        } else {
                            assert(extended@[x] == responses@[x - base.len()]);
                        }
                    }
                    assert(planned@.responses =~= self@[i as int].responses + inc.responses);
                }
                return Ok(planned);
            }
            proof {
                assert(self@[i as int].trigger != trigger@);
            }
            i += 1;
        }
        proof {
            lemma_upsert_absent(self@, inc);
        }
        let planned = Rule {
            id: self.next_id,
            trigger: String::from_str(trigger),
            responses: clone_strings(responses),
            updated_by: String::new(),
            updated_at: 0,
        };
        assert(planned@ =~= inc);
        Ok(planned)
    }

    /// Save `responses` under `trigger`. `persisted` reports whether the
    /// durable mirror already accepted the planned state: written ahead of
    /// this call, so on a persistence failure memory stays exactly as it was.
    pub fn upsert(&mut self, trigger: String, responses: Vec<String>, persisted: bool) -> (r:
        Result<Rule, StoreError>)
        requires
            old(self).wf(),
            old(self).next_id_spec() < i64::MAX,
        ensures
            final(self).wf(),
            r is Ok <==> (trigger@.len() > 0 && responses@.len() > 0 && persisted),
            (trigger@.len() == 0 || responses@.len() == 0) ==> r == Result::<
                Rule,
                StoreError,
            >::Err(StoreError::Validation),
            (trigger@.len() > 0 && responses@.len() > 0 && !persisted) ==> r == Result::<
                Rule,
                StoreError,
            >::Err(StoreError::Persistence),
            r is Err ==> final(self)@ == old(self)@ && final(self).next_id_spec() == old(self).next_id_spec(),
            r matches Ok(rule) ==> {
                let inc = new_rule_model(
                    old(self).next_id_spec(),
                    trigger@,
                    responses.deep_view(),
                );
                &&& final(self)@ == upsert_model(old(self)@, inc)
                &&& rule@ == upsert_result(old(self)@, inc)
                &&& (has_trigger(old(self)@, trigger@) ==> final(self).next_id_spec() == old(self).next_id_spec())
                &&& (!has_trigger(old(self)@, trigger@) ==> final(self).next_id_spec() == old(self).next_id_spec() + 1)
            },
    {
        if trigger.as_str().is_empty() || responses.len() == 0 {
            return Err(StoreError::Validation);
        }
        if !persisted {
            return Err(StoreError::Persistence);
        }
        Ok(self.commit(trigger, responses))
    }

    /// The rule carrying `id`, or `NotFound`.
    #[verifier::loop_isolation(false)]
    pub fn get(&self, id: i64) -> (r: Result<Rule, StoreError>)
        requires
            self.wf(),
        ensures
            r is Ok <==> has_id(self@, id as int),
            r matches Ok(rule) ==> rule@.id == id as int && forall|i: int|
                0 <= i < self@.len() && (#[trigger] self@[i]).id == id as int ==> self@[i]
                    == rule@,
            r matches Err(e) ==> e == StoreError::NotFound,
    {
        let n = self.rules.len();
        let mut i: usize = 0;
        while i < n
            invariant
                n == self.rules@.len(),
                i <= n,
                forall|j: int| 0 <= j < i ==> (#[trigger] self@[j]).id != id as int,
            decreases n - i,
        {
            if self.rules[i].id == id {
                let out = self.rules[i].clone();
                proof {
                    assert(self@[i as int].id == id as int);
                    assert forall|x: int|
                        0 <= x < self@.len() && (#[trigger] self@[x]).id == id as int
                        implies self@[x] == out@ by {
                        if x < i as int {
                            assert(self@[x].id != self@[i as int].id);
                        } else if x > i as int {
                            assert(self@[i as int].id != self@[x].id);
                        }
                    }
                }
                return Ok(out);
            }
            i += 1;
        }
        Err(StoreError::NotFound)
    }

    /// A snapshot of every rule; callers must not rely on the order.
    #[verifier::loop_isolation(false)]
    pub fn list(&self) -> (r: Vec<Rule>)
        ensures
            r@.len() == self@.len(),
            forall|i: int| 0 <= i < self@.len() ==> (#[trigger] r@[i])@ == self@[i],
    {
        let n = self.rules.len();
        let mut r: Vec<Rule> = Vec::new();
        let mut i: usize = 0;
        while i < n
            invariant
                n == self.rules@.len(),
                i <= n,
                r@.len() == i,
                forall|j: int| 0 <= j < i ==> (#[trigger] r@[j])@ == self@[j],
            decreases n - i,
        {
            r.push(self.rules[i].clone());
            i += 1;
        }
        r
    }

    /// Remove the rule carrying `id`; removing an unknown id is not an
    /// error. `persisted` reports whether the durable mirror already accepted
    /// the removal; on a persistence failure memory stays exactly as it was.
    #[verifier::loop_isolation(false)]
    pub fn delete(&mut self, id: i64, persisted: bool) -> (r: Result<(), StoreError>)
        requires
            old(self).wf(),
        ensures
            final(self).wf(),
            final(self).next_id_spec() == old(self).next_id_spec(),
            r is Ok <==> persisted,
            !persisted ==> r == Result::<(), StoreError>::Err(StoreError::Persistence) && final(self)@ == old(self)@,
            persisted ==> final(self)@ == delete_model(old(self)@, id as int),
    {
        if !persisted {
            return Err(StoreError::Persistence);
        }
        let n = self.rules.len();
        let mut i: usize = 0;
        while i < n
            invariant
                self@ == old(self)@,
                self.next_id == old(self).next_id,
                n == self.rules@.len(),
                i <= n,
                forall|j: int| 0 <= j < i ==> (#[trigger] self@[j]).id != id as int,
            decreases n - i,
        {
            if self.rules[i].id == id {
                let ghost pre = self@;
                proof {
                    lemma_delete_found(pre, id as int, i as int);
                }
                let _removed = self.rules.remove(i);
                assert(self@ =~= pre.remove(i as int));
                return Ok(());
            }
            i += 1;
        }
        proof {
            lemma_delete_absent(self@, id as int);
        }
        Ok(())
    }

    /// Rebuild the store from the rules the durable mirror returned.
    #[verifier::loop_isolation(false)]
    pub fn from_saved(saved: Vec<Rule>) -> (s: RuleStore)
        requires
            rules_wf(models_of(saved@)),
            ids_unique(models_of(saved@)),
            forall|i: int|
                0 <= i < saved@.len() ==> 1 <= (#[trigger] saved@[i]).id < i64::MAX,
        ensures
            s.wf(),
            s@ == models_of(saved@),
    {
        let mut next_id: i64 = 1;
        let n = saved.len();
        let mut i: usize = 0;
        while i < n
            invariant
                n == saved@.len(),
                i <= n,
                1 <= next_id <= i64::MAX,
                forall|j: int| 0 <= j < i ==> (#[trigger] saved@[j]).id < next_id,
            decreases n - i,
        {
            if saved[i].id >= next_id {
                next_id = saved[i].id + 1;
            }
            i += 1;
        }
        let s = RuleStore { rules: saved, next_id };
        assert(s@ =~= models_of(s.rules@));
        s
    }
}

/// The models of a list of rules, in order.
pub open spec fn models_of(v: Seq<Rule>) -> Seq<RuleModel> {
    Seq::new(v.len(), |i: int| v[i]@)
}

/// Deleting an id that no rule carries removes nothing.
pub proof fn lemma_delete_absent(s: Seq<RuleModel>, id: int)
    requires
        forall|i: int| 0 <= i < s.len() ==> (#[trigger] s[i]).id != id,
    ensures
        delete_model(s, id) == s,
    decreases s.len(),
{
    if s.len() > 0 {
        lemma_delete_absent(s.drop_last(), id);
        assert(s.drop_last().push(s.last()) =~= s);
    }
}

/// With unique ids, deleting the id carried by `s[k]` removes exactly `s[k]`.
pub proof fn lemma_delete_found(s: Seq<RuleModel>, id: int, k: int)
    requires
        ids_unique(s),
        0 <= k < s.len(),
        s[k].id == id,
    ensures
        delete_model(s, id) == s.remove(k),
    decreases s.len(),
{
    if k == s.len() - 1 {
        lemma_delete_absent(s.drop_last(), id);
        assert(s.drop_last() =~= s.remove(k));
    } else {
        lemma_delete_found(s.drop_last(), id, k);
        assert(delete_model(s, id) == s.drop_last().remove(k).push(s.last()));
        assert(s.drop_last().remove(k).push(s.last()) =~= s.remove(k));
    }
}

/// No rule of the deletion result carries the deleted id.
pub proof fn lemma_delete_clears_id(s: Seq<RuleModel>, id: int)
    ensures
        forall|i: int|
            0 <= i < delete_model(s, id).len() ==> (#[trigger] delete_model(s, id)[i]).id != id,
    decreases s.len(),
{
    if s.len() > 0 {
        lemma_delete_clears_id(s.drop_last(), id);
        let rest = delete_model(s.drop_last(), id);
        assert forall|i: int|
            0 <= i < delete_model(s, id).len() implies (#[trigger] delete_model(s, id)[i]).id
            != id by {
            if s.last().id == id {
                assert(delete_model(s, id) == rest);
            } else {
                assert(delete_model(s, id) == rest.push(s.last()));
                if i < rest.len() {
                    assert(delete_model(s, id)[i] == rest[i]);
                }
            }
        }
    }
}

/// Law: removing a rule twice is the same as removing it once, so a second
/// `delete` of the same id succeeds and changes nothing.
pub proof fn lemma_delete_idempotent(s: Seq<RuleModel>, id: int)
    ensures
        delete_model(delete_model(s, id), id) == delete_model(s, id),
{
    lemma_delete_clears_id(s, id);
    lemma_delete_absent(delete_model(s, id), id);
}

/// Law: saving a previously unknown trigger adds exactly one fresh rule, and
/// the rule fetched under the fresh id holds exactly the saved responses.
pub proof fn lemma_upsert_then_get(s: Seq<RuleModel>, t: Seq<char>, rs: Seq<Seq<char>>, id: int)
    requires
        !has_trigger(s, t),
        !has_id(s, id),
    ensures
        upsert_model(s, new_rule_model(id, t, rs)) == s.push(new_rule_model(id, t, rs)),
        has_id(upsert_model(s, new_rule_model(id, t, rs)), id),
        forall|i: int|
            0 <= i < s.push(new_rule_model(id, t, rs)).len() && (#[trigger] s.push(
                new_rule_model(id, t, rs),
            )[i]).id == id ==> s.push(new_rule_model(id, t, rs))[i].responses.to_multiset()
                == rs.to_multiset(),
{
    let inc = new_rule_model(id, t, rs);
    lemma_upsert_absent(s, inc);
    let s2 = s.push(inc);
    assert(s2[s.len() as int].id == id);
    assert forall|i: int|
        0 <= i < s2.len() && (#[trigger] s2[i]).id == id implies s2[i].responses.to_multiset()
        == rs.to_multiset() by {
        if i < s.len() {
            assert(s[i].id != id);
        }
    }
}

/// How many rules carry trigger `t`.
pub open spec fn count_with_trigger(s: Seq<RuleModel>, t: Seq<char>) -> nat
    decreases s.len(),
{
    if s.len() == 0 {
        0
    } else {
        count_with_trigger(s.drop_last(), t) + if s.last().trigger == t {
            1nat
        } else {
            0nat
        }
    }
}

/// A trigger that no rule carries is counted zero times.
pub proof fn lemma_count_zero(s: Seq<RuleModel>, t: Seq<char>)
    requires
        forall|i: int| 0 <= i < s.len() ==> (#[trigger] s[i]).trigger != t,
    ensures
        count_with_trigger(s, t) == 0,
    decreases s.len(),
{
    if s.len() > 0 {
        lemma_count_zero(s.drop_last(), t);
    }
}

/// Law: saving the same fresh trigger twice yields one rule carrying both
/// response lists in order, not two rules.
pub proof fn lemma_upsert_appends_no_duplicate(
    s: Seq<RuleModel>,
    t: Seq<char>,
    ra: Seq<Seq<char>>,
    rb: Seq<Seq<char>>,
    id1: int,
    id2: int,
)
    requires
        !has_trigger(s, t),
    ensures
        upsert_model(upsert_model(s, new_rule_model(id1, t, ra)), new_rule_model(id2, t, rb))
            == s.push(new_rule_model(id1, t, ra + rb)),
        count_with_trigger(
            upsert_model(upsert_model(s, new_rule_model(id1, t, ra)), new_rule_model(id2, t, rb)),
            t,
        ) == 1,
{
    let inc1 = new_rule_model(id1, t, ra);
    let inc2 = new_rule_model(id2, t, rb);
    lemma_upsert_absent(s, inc1);
    let s1 = s.push(inc1);
    lemma_upsert_found(s1, inc2, s.len() as int);
    let merged = new_rule_model(id1, t, ra + rb);
    assert(appended(inc1, rb) =~= merged);
    let s2 = s1.update(s.len() as int, merged);
    assert(s2 =~= s.push(merged));
    lemma_count_zero(s, t);
    assert(s.push(merged).drop_last() =~= s);
    assert(count_with_trigger(s.push(merged), t) == 1);
}

/// Saving one response under trigger `t`, repeatedly, once per element of
/// `xs`, in order.
pub open spec fn append_chain(
    s: Seq<RuleModel>,
    t: Seq<char>,
    xs: Seq<Seq<char>>,
    id: int,
) -> Seq<RuleModel>
    decreases xs.len(),
{
    if xs.len() == 0 {
        s
    } else {
        append_chain(
            upsert_model(s, new_rule_model(id, t, seq![xs[0]])),
            t,
            xs.subrange(1, xs.len() as int),
            id,
        )
    }
}

/// Law: any number of single-response saves of an existing trigger land, one
/// after the other, on the same rule; every appended response is retained and
/// none is lost.
pub proof fn lemma_no_lost_updates(
    s: Seq<RuleModel>,
    t: Seq<char>,
    xs: Seq<Seq<char>>,
    id: int,
    k: int,
)
    requires
        0 <= k < s.len(),
        s[k].trigger == t,
        forall|j: int| 0 <= j < k ==> (#[trigger] s[j]).trigger != t,
    ensures
        append_chain(s, t, xs, id) == s.update(k, appended(s[k], xs)),
        append_chain(s, t, xs, id)[k].responses.len() == s[k].responses.len() + xs.len(),
    decreases xs.len(),
{
    if xs.len() == 0 {
        assert(appended(s[k], xs) =~= s[k]);
        assert(s.update(k, s[k]) =~= s);
    } else {
        let inc = new_rule_model(id, t, seq![xs[0]]);
        lemma_upsert_found(s, inc, k);
        let s1 = s.update(k, appended(s[k], seq![xs[0]]));
        lemma_no_lost_updates(s1, t, xs.subrange(1, xs.len() as int), id, k);
        assert(appended(s1[k], xs.subrange(1, xs.len() as int)) =~= appended(s[k], xs)) by {
            assert(seq![xs[0]] + xs.subrange(1, xs.len() as int) =~= xs);
            assert((s[k].responses + seq![xs[0]]) + xs.subrange(1, xs.len() as int)
                =~= s[k].responses + xs);
        }
        assert(s1.update(k, appended(s[k], xs)) =~= s.update(k, appended(s[k], xs)));
    }
}

/// The non-empty entries of a submitted list, in order.
pub open spec fn nonempty_only(s: Seq<String>) -> Seq<String>
    decreases s.len(),
{
    if s.len() == 0 {
        Seq::empty()
    } else {
        let rest = nonempty_only(s.drop_last());
        if s.last()@.len() != 0 {
            rest.push(s.last())
        } else {
            rest
        }
    }
}

/// Drop the blank entries of a submitted list of form inputs, keeping the
/// rest in order, before a rule is saved from them.
#[verifier::loop_isolation(false)]
pub fn drop_empty(items: &Vec<String>) -> (out: Vec<String>)
    ensures
        out@ == nonempty_only(items@),
{
    let mut out: Vec<String> = Vec::new();
    let n = items.len();
    let mut i: usize = 0;
    assert(items@.subrange(0, 0) =~= Seq::<String>::empty());
    while i < n
        invariant
            i <= n,
            out@ == nonempty_only(items@.subrange(0, i as int)),
        decreases n - i,
    {
        let ghost pre = out@;
        if !items[i].as_str().is_empty() {
            out.push(items[i].clone());
            assert(out@ =~= pre.push(items@[i as int]));
        }
        proof {
            let taken = items@.subrange(0, i + 1);
            assert(taken.drop_last() =~= items@.subrange(0, i as int));
            assert(taken.last() == items@[i as int]);
            assert(out@ =~= nonempty_only(taken));
        }
        i += 1;
    }
    assert(items@.subrange(0, n as int) =~= items@);
    out
}

} // verus!
