//! Row assembly for the durable mirror: the relational layer hands back flat
//! rows — one per rule and one per response — and these functions regroup
//! them into `Rule` values. The queries themselves stay with the caller; only
//! the regrouping is done here, and it is exact: each rule receives precisely
//! the response rows carrying its id, in row order.

use vstd::prelude::*;

use crate::rules::{Rule, RuleModel};

verus! {

/// One row of the rule table.
pub struct SavedRule {
    pub id: i64,
    pub trigger: String,
    pub updated_by: String,
    pub updated_at: i64,
}

/// One row of the response table, keyed by the owning rule.
pub struct SavedResponse {
    pub rule_id: i64,
    pub response: String,
}

/// The responses among `rows` that belong to rule `id`, in row order.
pub open spec fn responses_for(rows: Seq<SavedResponse>, id: int) -> Seq<Seq<char>>
    decreases rows.len(),
{
    if rows.len() == 0 {
        Seq::empty()
    } else {
        let rest = responses_for(rows.drop_last(), id);
        if rows.last().rule_id == id {
            rest.push(rows.last().response@)
        } else {
            rest
        }
    }
}

/// The rule that `row` describes once its response rows are regrouped.
pub open spec fn assembled_model(row: SavedRule, rows: Seq<SavedResponse>) -> RuleModel {
    RuleModel {
        id: row.id as int,
        trigger: row.trigger@,
        responses: responses_for(rows, row.id as int),
        updated_by: row.updated_by@,
        updated_at: row.updated_at as int,
    }
}

/// Gather the responses belonging to rule `id`, in row order.
#[verifier::loop_isolation(false)]
pub fn collect_responses(rows: &Vec<SavedResponse>, id: i64) -> (out: Vec<String>)
    ensures
        out.deep_view() == responses_for(rows@, id as int),
{
    let mut out: Vec<String> = Vec::new();
    let n = rows.len();
    let mut i: usize = 0;
    assert(rows@.subrange(0, 0) =~= Seq::<SavedResponse>::empty());
    while i < n
        invariant
            i <= n,
            out.deep_view() == responses_for(rows@.subrange(0, i as int), id as int),
        decreases n - i,
    {
        let ghost pre = out.deep_view();
        if rows[i].rule_id == id {
            out.push(rows[i].response.clone());
            assert(out.deep_view() =~= pre.push(rows@[i as int].response@));
        }
        proof {
            let taken = rows@.subrange(0, i + 1);
            assert(taken.drop_last() =~= rows@.subrange(0, i as int));
            assert(taken.last() == rows@[i as int]);
            assert(out.deep_view() =~= responses_for(taken, id as int));
        }
        i += 1;
    }
    assert(rows@.subrange(0, n as int) =~= rows@);
    out
}

/// Regroup flat rule and response rows into rules: the output follows the
/// rule rows in order, and each rule carries exactly the response rows that
/// name its id.
#[verifier::loop_isolation(false)]
pub fn assemble_rules(rule_rows: &Vec<SavedRule>, response_rows: &Vec<SavedResponse>) -> (out: Vec<
    Rule,
>)
    ensures
        out@.len() == rule_rows@.len(),
        forall|i: int|
            0 <= i < out@.len() ==> (#[trigger] out@[i])@ == assembled_model(
                rule_rows@[i],
                response_rows@,
            ),
{
    let mut out: Vec<Rule> = Vec::new();
    let n = rule_rows.len();
    let mut i: usize = 0;
    while i < n
        invariant
            i <= n,
            out@.len() == i,
            forall|j: int|
                0 <= j < i ==> (#[trigger] out@[j])@ == assembled_model(
                    rule_rows@[j],
                    response_rows@,
                ),
        decreases n - i,
    {
        let row = &rule_rows[i];
        let responses = collect_responses(response_rows, row.id);
        let assembled = Rule {
            id: row.id,
            trigger: row.trigger.clone(),
            responses,
            updated_by: row.updated_by.clone(),
            updated_at: row.updated_at,
        };
        assert(assembled@ =~= assembled_model(rule_rows@[i as int], response_rows@));
        out.push(assembled);
        i += 1;
    }
    out
}

} // verus!
