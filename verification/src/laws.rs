//! The general properties of the roster, stated over the mathematical
//! model: what any run of `Add` operations makes `List` and `All` report,
//! that listing changes nothing, and that only `Exit` terminates.

use vstd::prelude::*;
use vstd::relations::sorted_by;
use crate::order::{lex_leq, lemma_lex_total_ordering};
use crate::parser::CommandModel;
use crate::roster::{RosterModel, ReportModel, add_person, lookup, report_for, all_reports,
    step_state, step_reports, step_exit, wf_roster, lemma_lookup_exists, lemma_lookup_add_same,
    lemma_lookup_add_other, lemma_add_person_wf};

verus! {

/// One `Add` operation: the name added and the department it goes to.
pub type AddOp = (Seq<char>, Seq<char>);

/// The roster reached from the empty roster by a run of `Add` operations,
/// applied in order.
pub open spec fn roster_after(ops: Seq<AddOp>) -> RosterModel
    decreases ops.len(),
{
    if ops.len() == 0 {
        Seq::empty()
    } else {
        add_person(roster_after(ops.drop_last()), ops.last().1, ops.last().0)
    }
}

/// The names the operations add to department `d`, in order, with
/// duplicates kept.
pub open spec fn names_added(ops: Seq<AddOp>, d: Seq<char>) -> Seq<Seq<char>>
    decreases ops.len(),
{
    if ops.len() == 0 {
        Seq::empty()
    } else if ops.last().1 == d {
        names_added(ops.drop_last(), d).push(ops.last().0)
    } else {
        names_added(ops.drop_last(), d)
    }
}

/// After any run of `Add` operations, a department stores exactly the
/// names added to it, in the order they were added; a department nothing
/// was added to is absent.
pub proof fn lemma_roster_after_lookup(ops: Seq<AddOp>, d: Seq<char>)
    ensures
        names_added(ops, d).len() == 0 ==> lookup(roster_after(ops), d) is None,
        names_added(ops, d).len() > 0
            ==> lookup(roster_after(ops), d) == Some(names_added(ops, d)),
    decreases ops.len(),
{
    if ops.len() > 0 {
        lemma_roster_after_lookup(ops.drop_last(), d);
        let r = roster_after(ops.drop_last());
        let op = ops.last();
        if op.1 == d {
            lemma_lookup_add_same(r, d, op.0);
            if names_added(ops.drop_last(), d).len() == 0 {
                assert(names_added(ops, d) =~= seq![op.0]);
            }
        } else {
            lemma_lookup_add_other(r, op.1, op.0, d);
        }
    }
}

/// A run of operations adds a name to `d` exactly when one of them names
/// `d` as its department.
pub proof fn lemma_names_added_nonempty(ops: Seq<AddOp>, d: Seq<char>)
    ensures
        names_added(ops, d).len() > 0
            <==> exists|i: int| 0 <= i < ops.len() && #[trigger] ops[i].1 == d,
    decreases ops.len(),
{
    if ops.len() > 0 {
        lemma_names_added_nonempty(ops.drop_last(), d);
        if names_added(ops, d).len() > 0 {
            if ops.last().1 == d {
                assert(ops[ops.len() - 1].1 == d);
            } else {
                let i = choose|i: int|
                    0 <= i < ops.drop_last().len() && #[trigger] ops.drop_last()[i].1 == d;
                assert(ops[i] == ops.drop_last()[i]);
            }
        }
        if exists|i: int| 0 <= i < ops.len() && #[trigger] ops[i].1 == d {
            let i = choose|i: int| 0 <= i < ops.len() && #[trigger] ops[i].1 == d;
            if i < ops.len() - 1 {
                assert(ops.drop_last()[i] == ops[i]);
            }
        }
    }
}

/// `List` after any run of `Add` operations reports exactly the names
/// added to the department, as a lexicographically sorted sequence with
/// multiplicities kept; a department nothing was added to is reported
/// empty.
pub proof fn lemma_list_after_adds(ops: Seq<AddOp>, d: Seq<char>)
    ensures
        names_added(ops, d).len() == 0
            ==> report_for(roster_after(ops), d)
                == (ReportModel::EmptyDepartment { department: d }),
        names_added(ops, d).len() > 0
            ==> report_for(roster_after(ops), d) == (ReportModel::People {
                department: d,
                members: names_added(ops, d).sort_by(lex_leq()),
            }),
        sorted_by(names_added(ops, d).sort_by(lex_leq()), lex_leq()),
        names_added(ops, d).sort_by(lex_leq()).to_multiset() == names_added(ops, d).to_multiset(),
{
    lemma_roster_after_lookup(ops, d);
    lemma_lex_total_ordering();
    names_added(ops, d).lemma_sort_by_ensures(lex_leq());
}

/// A department that no `Add` operation ever named is reported empty and
/// the report never fails.
pub proof fn lemma_list_untouched(ops: Seq<AddOp>, d: Seq<char>)
    requires
        forall|i: int| 0 <= i < ops.len() ==> ops[i].1 != d,
    ensures
        report_for(roster_after(ops), d) == (ReportModel::EmptyDepartment { department: d }),
{
    lemma_names_added_nonempty(ops, d);
    lemma_list_after_adds(ops, d);
}

/// `All` on the empty roster gives exactly the no-departments notice;
/// after at least one `Add` the roster is non-empty and `All` reports one
/// department per roster entry, in roster order, each through the same
/// per-department report `List` uses.
pub proof fn lemma_all_after_adds(ops: Seq<AddOp>)
    ensures
        ops.len() == 0 ==> all_reports(roster_after(ops)) == seq![ReportModel::NoDepartments],
        ops.len() > 0 ==> roster_after(ops).len() > 0,
        ops.len() > 0 ==> all_reports(roster_after(ops)) == Seq::new(
            roster_after(ops).len(),
            |i: int| report_for(roster_after(ops), roster_after(ops)[i].0),
        ),
{
}

/// A run of `Add` operations always leaves a well-formed roster: each
/// department occupies exactly one entry — so `All` reports each touched
/// department exactly once — and every entry has at least one member.
pub proof fn lemma_roster_after_wf(ops: Seq<AddOp>)
    ensures
        wf_roster(roster_after(ops)),
    decreases ops.len(),
{
    if ops.len() > 0 {
        lemma_roster_after_wf(ops.drop_last());
        lemma_add_person_wf(roster_after(ops.drop_last()), ops.last().1, ops.last().0);
    }
}

/// `All` covers exactly the departments that were touched: a roster entry
/// for `d` exists after a run of `Add` operations precisely when some
/// operation named `d` as its department.
pub proof fn lemma_all_covers(ops: Seq<AddOp>, d: Seq<char>)
    ensures
        (exists|i: int| 0 <= i < ops.len() && #[trigger] ops[i].1 == d)
            <==> exists|k: int|
                0 <= k < roster_after(ops).len() && #[trigger] roster_after(ops)[k].0 == d,
{
    lemma_names_added_nonempty(ops, d);
    lemma_roster_after_lookup(ops, d);
    lemma_lookup_exists(roster_after(ops), d);
}

/// Listing changes nothing: two consecutive `List` commands with no
/// intervening `Add` are answered from the same state and produce
/// identical reports.
pub proof fn lemma_list_idempotent(r: RosterModel, d: Seq<char>)
    ensures
        step_state(r, (CommandModel::List { department: d })) == r,
        step_reports(
            step_state(r, (CommandModel::List { department: d })),
            (CommandModel::List { department: d }),
        ) == step_reports(r, (CommandModel::List { department: d })),
{
}

/// `Exit` signals termination from every roster state, leaves the state
/// unchanged, and is the only command that signals termination.
pub proof fn lemma_exit_terminates(r: RosterModel, c: CommandModel)
    ensures
        step_exit(CommandModel::Exit),
        step_state(r, CommandModel::Exit) == r,
        step_reports(r, CommandModel::Exit) == seq![ReportModel::Exiting],
        step_exit(c) <==> c matches CommandModel::Exit,
{
}

} // verus!
