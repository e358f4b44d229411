//! The roster: a mapping from department names to the people added to them,
//! in insertion order, together with command execution. `List` and `All`
//! answer with freshly sorted copies of the stored member sequences; the
//! stored sequences themselves are never reordered.

use vstd::prelude::*;
use crate::order::{lex_leq, sort_strings, str_eq};
use crate::parser::{Command, CommandModel};

verus! {

/// The mathematical form of the roster: one entry per department, in the
/// order the departments were first added to, each with its member names in
/// insertion order.
pub type RosterModel = Seq<(Seq<char>, Seq<Seq<char>>)>;

/// A single line of console-style output, as structured data.
#[derive(Debug, PartialEq, Eq)]
pub enum Report {
    /// The members of a known department, sorted lexicographically.
    People { department: String, members: Vec<String> },
    /// The department has nobody in it (it was never added to).
    EmptyDepartment { department: String },
    /// The roster has no departments at all.
    NoDepartments,
    /// The roster was told to exit.
    Exiting,
}

/// The mathematical form of a report.
pub enum ReportModel {
    People { department: Seq<char>, members: Seq<Seq<char>> },
    EmptyDepartment { department: Seq<char> },
    NoDepartments,
    Exiting,
}

impl View for Report {
    type V = ReportModel;

    open spec fn view(&self) -> ReportModel {
        match self {
            Report::People { department, members } => ReportModel::People {
                department: department@,
                members: members.deep_view(),
            },
            Report::EmptyDepartment { department } => ReportModel::EmptyDepartment {
                department: department@,
            },
            Report::NoDepartments => ReportModel::NoDepartments,
            Report::Exiting => ReportModel::Exiting,
        }
    }
}

impl DeepView for Report {
    type V = ReportModel;

    open spec fn deep_view(&self) -> ReportModel {
        self.view()
    }
}

/// Well-formedness of a roster model: department names are distinct, and a
/// department is only ever present with at least one member.
pub open spec fn wf_roster(r: RosterModel) -> bool {
    &&& forall|i: int, j: int| 0 <= i < j < r.len() ==> r[i].0 != r[j].0
    &&& forall|i: int| 0 <= i < r.len() ==> r[i].1.len() > 0
}

/// The member sequence stored for department `d`, if `d` is present.
pub open spec fn lookup(r: RosterModel, d: Seq<char>) -> Option<Seq<Seq<char>>>
    decreases r.len(),
{
    if r.len() == 0 {
        None
    } else if r[0].0 == d {
        Some(r[0].1)
    } else {
        lookup(r.drop_first(), d)
    }
}

/// The roster after `n` is added to department `d`: the name is appended to
/// the department's members, and the department is created with `n` as its
/// first member if it was absent.
pub open spec fn add_person(r: RosterModel, d: Seq<char>, n: Seq<char>) -> RosterModel
    decreases r.len(),
{
    if r.len() == 0 {
        seq![(d, seq![n])]
    } else if r[0].0 == d {
        seq![(r[0].0, r[0].1.push(n))] + r.drop_first()
    } else {
        seq![r[0]] + add_person(r.drop_first(), d, n)
    }
}

/// The report a `List` command produces for department `d`: its members in
/// sorted order if it is present, and the empty-department notice if not.
pub open spec fn report_for(r: RosterModel, d: Seq<char>) -> ReportModel {
    match lookup(r, d) {
        Some(members) => ReportModel::People {
            department: d,
            members: members.sort_by(lex_leq()),
        },
        None => ReportModel::EmptyDepartment { department: d },
    }
}

/// The reports an `All` command produces: the no-departments notice on an
/// empty roster, and otherwise one `List`-style report per department, in
/// the roster's own entry order.
pub open spec fn all_reports(r: RosterModel) -> Seq<ReportModel> {
    if r.len() == 0 {
        seq![ReportModel::NoDepartments]
    } else {
        Seq::new(r.len(), |i: int| report_for(r, r[i].0))
    }
}

/// The roster state after one command: only `Add` changes the roster.
pub open spec fn step_state(r: RosterModel, c: CommandModel) -> RosterModel {
    match c {
        CommandModel::Add { name, department } => add_person(r, department, name),
        _ => r,
    }
}

/// The reports one command produces against roster state `r`.
pub open spec fn step_reports(r: RosterModel, c: CommandModel) -> Seq<ReportModel> {
    match c {
        CommandModel::Add { .. } => Seq::empty(),
        CommandModel::List { department } => seq![report_for(r, department)],
        CommandModel::All => all_reports(r),
        CommandModel::Exit => seq![ReportModel::Exiting],
    }
}

/// Whether a command tells the processing loop to stop: only `Exit` does,
/// whatever the roster state.
pub open spec fn step_exit(c: CommandModel) -> bool {
    c matches CommandModel::Exit
}

/// If `k` is the first entry whose department is `d`, lookup finds it.
pub proof fn lemma_lookup_found(r: RosterModel, d: Seq<char>, k: int)
    requires
        0 <= k < r.len(),
        r[k].0 == d,
        forall|j: int| 0 <= j < k ==> r[j].0 != d,
    ensures
        lookup(r, d) == Some(r[k].1),
    decreases k,
{
    if k > 0 {
        assert(r.drop_first()[k - 1] == r[k]);
        assert forall|j: int| 0 <= j < k - 1 implies r.drop_first()[j].0 != d by {
            assert(r.drop_first()[j] == r[j + 1]);
        }
        lemma_lookup_found(r.drop_first(), d, k - 1);
    }
}

/// If no entry's department is `d`, lookup fails.
pub proof fn lemma_lookup_absent(r: RosterModel, d: Seq<char>)
    requires
        forall|j: int| 0 <= j < r.len() ==> r[j].0 != d,
    ensures
        lookup(r, d) is None,
    decreases r.len(),
{
    if r.len() > 0 {
        assert forall|j: int| 0 <= j < r.drop_first().len() implies r.drop_first()[j].0 != d by {
            assert(r.drop_first()[j] == r[j + 1]);
        }
        lemma_lookup_absent(r.drop_first(), d);
    }
}

/// A department is present exactly when some entry carries its name.
pub proof fn lemma_lookup_exists(r: RosterModel, d: Seq<char>)
    ensures
        (lookup(r, d) is Some) <==> exists|k: int| 0 <= k < r.len() && r[k].0 == d,
    decreases r.len(),
{
    if r.len() > 0 && r[0].0 != d {
        lemma_lookup_exists(r.drop_first(), d);
        if lookup(r, d) is Some {
            let k = choose|k: int| 0 <= k < r.drop_first().len() && r.drop_first()[k].0 == d;
            assert(r[k + 1] == r.drop_first()[k]);
        }
        if exists|k: int| 0 <= k < r.len() && r[k].0 == d {
            let k = choose|k: int| 0 <= k < r.len() && r[k].0 == d;
            assert(r.drop_first()[k - 1] == r[k]);
        }
    }
}

/// When `k` is the first entry for `d`, adding to `d` appends to that
/// entry's members and changes nothing else.
pub proof fn lemma_add_person_found(r: RosterModel, d: Seq<char>, n: Seq<char>, k: int)
    requires
        0 <= k < r.len(),
        r[k].0 == d,
        forall|j: int| 0 <= j < k ==> r[j].0 != d,
    ensures
        add_person(r, d, n) == r.update(k, (r[k].0, r[k].1.push(n))),
    decreases k,
{
    if k == 0 {
        assert(add_person(r, d, n) =~= r.update(0, (r[0].0, r[0].1.push(n))));
    } else {
        assert(r.drop_first()[k - 1] == r[k]);
        assert forall|j: int| 0 <= j < k - 1 implies r.drop_first()[j].0 != d by {
            assert(r.drop_first()[j] == r[j + 1]);
        }
        lemma_add_person_found(r.drop_first(), d, n, k - 1);
        assert(add_person(r, d, n)
            =~= r.update(k, (r[k].0, r[k].1.push(n)))) by {
            assert(add_person(r, d, n)
                == seq![r[0]] + r.drop_first().update(k - 1, (r[k].0, r[k].1.push(n))));
            assert forall|j: int| 0 <= j < r.len()
                implies (seq![r[0]] + r.drop_first().update(k - 1, (r[k].0, r[k].1.push(n))))[j]
                    == r.update(k, (r[k].0, r[k].1.push(n)))[j] by {
                if j > 0 {
                    if j == k {
                        assert(r.drop_first().update(k - 1, (r[k].0, r[k].1.push(n)))[j - 1]
                            == (r[k].0, r[k].1.push(n)));
                    } else {
                        assert(r.drop_first().update(k - 1, (r[k].0, r[k].1.push(n)))[j - 1]
                            == r.drop_first()[j - 1]);
                        assert(r.drop_first()[j - 1] == r[j]);
                    }
                }
            }
        }
    }
}

/// When no entry is for `d`, adding to `d` appends a fresh entry.
pub proof fn lemma_add_person_absent(r: RosterModel, d: Seq<char>, n: Seq<char>)
    requires
        forall|j: int| 0 <= j < r.len() ==> r[j].0 != d,
    ensures
        add_person(r, d, n) == r.push((d, seq![n])),
    decreases r.len(),
{
    if r.len() == 0 {
        assert(add_person(r, d, n) =~= r.push((d, seq![n])));
    } else {
        assert forall|j: int| 0 <= j < r.drop_first().len() implies r.drop_first()[j].0 != d by {
            assert(r.drop_first()[j] == r[j + 1]);
        }
        lemma_add_person_absent(r.drop_first(), d, n);
        assert(add_person(r, d, n) =~= r.push((d, seq![n]))) by {
            assert(add_person(r, d, n) == seq![r[0]] + r.drop_first().push((d, seq![n])));
            assert forall|j: int| 0 <= j < r.len() + 1
                implies (seq![r[0]] + r.drop_first().push((d, seq![n])))[j]
                    == r.push((d, seq![n]))[j] by {
                if 0 < j < r.len() {
                    assert(r.drop_first().push((d, seq![n]))[j - 1] == r.drop_first()[j - 1]);
                    assert(r.drop_first()[j - 1] == r[j]);
                }
            }
        }
    }
}

/// Adding a name to `d` appends it to `d`'s stored members, and a fresh
/// department starts with exactly that name.
pub proof fn lemma_lookup_add_same(r: RosterModel, d: Seq<char>, n: Seq<char>)
    ensures
        lookup(r, d) is None ==> lookup(add_person(r, d, n), d) == Some(seq![n]),
        lookup(r, d) is Some
            ==> lookup(add_person(r, d, n), d) == Some(lookup(r, d).unwrap().push(n)),
    decreases r.len(),
{
    if r.len() == 0 {
        assert(add_person(r, d, n)[0] == (d, seq![n]));
    } else if r[0].0 == d {
        assert(add_person(r, d, n)[0] == (r[0].0, r[0].1.push(n)));
    } else {
        lemma_lookup_add_same(r.drop_first(), d, n);
        assert(add_person(r, d, n)[0] == r[0]);
        assert(add_person(r, d, n).drop_first() =~= add_person(r.drop_first(), d, n));
    }
}

/// Adding a name to one department leaves every other department's stored
/// members unchanged.
pub proof fn lemma_lookup_add_other(r: RosterModel, d: Seq<char>, n: Seq<char>, d2: Seq<char>)
    requires
        d2 != d,
    ensures
        lookup(add_person(r, d, n), d2) == lookup(r, d2),
    decreases r.len(),
{
    let a = add_person(r, d, n);
    if r.len() == 0 {
        assert(a[0] == (d, seq![n]));
        assert(a.drop_first() =~= Seq::<(Seq<char>, Seq<Seq<char>>)>::empty());
        assert(lookup(a.drop_first(), d2) is None);
        assert(lookup(a, d2) is None);
        assert(lookup(r, d2) is None);
    } else if r[0].0 == d {
        assert(a[0] == (r[0].0, r[0].1.push(n)));
        assert(a.drop_first() =~= r.drop_first());
        assert(lookup(a, d2) == lookup(a.drop_first(), d2));
        assert(lookup(r, d2) == lookup(r.drop_first(), d2));
    } else {
        lemma_lookup_add_other(r.drop_first(), d, n, d2);
        assert(a[0] == r[0]);
        assert(a.drop_first() =~= add_person(r.drop_first(), d, n));
        if r[0].0 == d2 {
            assert(lookup(a, d2) == Some(r[0].1));
            assert(lookup(r, d2) == Some(r[0].1));
        } else {
            assert(lookup(a, d2) == lookup(a.drop_first(), d2));
            assert(lookup(r, d2) == lookup(r.drop_first(), d2));
        }
    }
}

/// Every department name in the roster after an add was either added just
/// now or was already there.
pub proof fn lemma_add_person_keys(r: RosterModel, d: Seq<char>, n: Seq<char>)
    ensures
        forall|j: int| 0 <= j < add_person(r, d, n).len()
            ==> #[trigger] add_person(r, d, n)[j].0 == d
                || exists|i: int| 0 <= i < r.len() && add_person(r, d, n)[j].0 == r[i].0,
    decreases r.len(),
{
    let a = add_person(r, d, n);
    if r.len() == 0 {
        assert(a[0].0 == d);
    } else if r[0].0 == d {
        assert forall|j: int| 0 <= j < a.len()
            implies #[trigger] a[j].0 == d
                || exists|i: int| 0 <= i < r.len() && a[j].0 == r[i].0 by {
            if j == 0 {
                assert(a[0].0 == r[0].0);
            } else {
                assert(a[j] == r.drop_first()[j - 1]);
                assert(a[j].0 == r[j].0);
            }
        }
    } else {
        lemma_add_person_keys(r.drop_first(), d, n);
        let rest = add_person(r.drop_first(), d, n);
        assert forall|j: int| 0 <= j < a.len()
            implies #[trigger] a[j].0 == d
                || exists|i: int| 0 <= i < r.len() && a[j].0 == r[i].0 by {
            if j == 0 {
                assert(a[0].0 == r[0].0);
            } else {
                assert(a[j] == rest[j - 1]);
                if rest[j - 1].0 != d {
                    let i = choose|i: int|
                        0 <= i < r.drop_first().len() && rest[j - 1].0 == r.drop_first()[i].0;
                    assert(r.drop_first()[i] == r[i + 1]);
                    assert(a[j].0 == r[i + 1].0);
                }
            }
        }
    }
}

/// Adding a person keeps the roster well-formed: department names stay
/// distinct, and every department keeps at least one member.
pub proof fn lemma_add_person_wf(r: RosterModel, d: Seq<char>, n: Seq<char>)
    requires
        wf_roster(r),
    ensures
        wf_roster(add_person(r, d, n)),
    decreases r.len(),
{
    let a = add_person(r, d, n);
    if r.len() == 0 {
        assert(a =~= seq![(d, seq![n])]);
        assert(a[0].1.len() == 1);
    } else if r[0].0 == d {
        assert forall|i: int, j: int| 0 <= i < j < a.len() implies a[i].0 != a[j].0 by {
            if i == 0 {
                assert(a[0].0 == r[0].0);
                assert(a[j] == r.drop_first()[j - 1]);
                assert(a[j].0 == r[j].0);
            } else {
                assert(a[i].0 == r[i].0);
                assert(a[j].0 == r[j].0);
            }
        }
        assert forall|i: int| 0 <= i < a.len() implies a[i].1.len() > 0 by {
            if i == 0 {
                assert(a[0].1 == r[0].1.push(n));
            } else {
                assert(a[i] == r[i]);
            }
        }
    } else {
        assert forall|i: int, j: int| 0 <= i < j < r.drop_first().len()
            implies r.drop_first()[i].0 != r.drop_first()[j].0 by {
            assert(r.drop_first()[i] == r[i + 1]);
            assert(r.drop_first()[j] == r[j + 1]);
        }
        assert forall|i: int| 0 <= i < r.drop_first().len()
            implies r.drop_first()[i].1.len() > 0 by {
            assert(r.drop_first()[i] == r[i + 1]);
        }
        lemma_add_person_wf(r.drop_first(), d, n);
        lemma_add_person_keys(r.drop_first(), d, n);
        let rest = add_person(r.drop_first(), d, n);
        assert forall|i: int, j: int| 0 <= i < j < a.len() implies a[i].0 != a[j].0 by {
            if i == 0 {
                assert(a[0].0 == r[0].0);
                assert(a[j] == rest[j - 1]);
                if rest[j - 1].0 == d {
                    assert(a[j].0 != r[0].0);
                } else {
                    let w = choose|w: int|
                        0 <= w < r.drop_first().len() && rest[j - 1].0 == r.drop_first()[w].0;
                    assert(r.drop_first()[w] == r[w + 1]);
                    assert(a[j].0 == r[w + 1].0);
                    assert(r[0].0 != r[w + 1].0);
                }
            } else {
                assert(a[i] == rest[i - 1]);
                assert(a[j] == rest[j - 1]);
            }
        }
        assert forall|i: int| 0 <= i < a.len() implies a[i].1.len() > 0 by {
            if i == 0 {
                assert(a[0] == r[0]);
            } else {
                assert(a[i] == rest[i - 1]);
            }
        }
    }
}

/// The roster. It owns all department and member names; departments are
/// created implicitly by the first `Add` naming them.
#[derive(Debug)]
pub struct Departments {
    departments: Vec<(String, Vec<String>)>,
}

impl View for Departments {
    type V = RosterModel;

    closed spec fn view(&self) -> RosterModel {
        self.departments.deep_view()
    }
}

/// Finds the entry for department `d`, if one exists.
fn find_dept(deps: &Vec<(String, Vec<String>)>, d: &str) -> (r: Option<usize>)
    ensures
        match r {
            Some(k) => k < deps.deep_view().len() && deps.deep_view()[k as int].0 == d@
                && forall|j: int| 0 <= j < k ==> deps.deep_view()[j].0 != d@,
            None => forall|j: int| 0 <= j < deps.deep_view().len()
                ==> deps.deep_view()[j].0 != d@,
        },
{
    let mut k: usize = 0;
    while k < deps.len()
        invariant
            k <= deps.len(),
            forall|j: int| 0 <= j < k ==> deps.deep_view()[j].0 != d@,
        decreases deps.len() - k,
    {
        if str_eq(deps[k].0.as_str(), d) {
            return Some(k);
        }
        k = k + 1;
    }
    None
}

impl Departments {
    #[verifier::type_invariant]
    spec fn wf(&self) -> bool {
        wf_roster(self@)
    }

    /// Creates an empty roster.
    pub fn new() -> (r: Departments)
        ensures
            r@ == Seq::<(Seq<char>, Seq<Seq<char>>)>::empty(),
    {
        let r = Departments { departments: Vec::new() };
        proof {
            assert(r@ =~= Seq::<(Seq<char>, Seq<Seq<char>>)>::empty());
        }
        r
    }

    /// Appends `name` to `department`'s members, creating the department if
    /// it was absent. Always succeeds; duplicates are kept.
    pub fn add_to_department(&mut self, department: String, name: String)
        ensures
            final(self)@ == add_person(old(self)@, department@, name@),
    {
        proof {
            use_type_invariant(&*self);
        }
        let ghost r0 = self@;
        let mut deps: Vec<(String, Vec<String>)> = Vec::new();
        std::mem::swap(&mut deps, &mut self.departments);
        proof {
            assert(self@ =~= Seq::<(Seq<char>, Seq<Seq<char>>)>::empty());
        }
        match find_dept(&deps, department.as_str()) {
            Some(k) => {
                let ghost pre_v = deps@;
                let mut pair = deps.remove(k);
                let ghost members0 = pair.1@;
                pair.1.push(name);
                deps.insert(k, pair);
                proof {
                    let entry = (r0[k as int].0, r0[k as int].1.push(name@));
                    pre_v.remove_ensures(k as int);
                    pre_v.remove(k as int).insert_ensures(k as int, pair);
                    assert(deps@ == pre_v.remove(k as int).insert(k as int, pair));
                    assert(pair.1@ == members0.push(name));
                    assert(pair.1.deep_view() =~= r0[k as int].1.push(name@)) by {
                        assert forall|j: int| 0 <= j < pair.1@.len()
                            implies pair.1.deep_view()[j] == r0[k as int].1.push(name@)[j] by {
                            assert(pair.1@[j] == members0.push(name)[j]);
                            if j < members0.len() {
                                assert(members0[j] == pre_v[k as int].1@[j]);
                            }
                        }
                    }
                    assert(deps.deep_view() =~= r0.update(k as int, entry)) by {
                        assert forall|j: int| 0 <= j < deps.deep_view().len()
                            implies deps.deep_view()[j] == r0.update(k as int, entry)[j] by {
                            if j < k {
                                assert(deps@[j] == pre_v[j]);
                            } else if j == k {
                                assert(deps@[j] == pair);
                            } else {
                                assert(deps@[j] == pre_v[j]);
                            }
                        }
                    }
                    lemma_add_person_found(r0, department@, name@, k as int);
                    assert(wf_roster(deps.deep_view())) by {
                        let cur = r0.update(k as int, entry);
                        assert forall|i: int, j: int| 0 <= i < j < cur.len()
                            implies cur[i].0 != cur[j].0 by {
                            assert(cur[i].0 == r0[i].0);
                            assert(cur[j].0 == r0[j].0);
                        }
                        assert forall|i: int| 0 <= i < cur.len() implies cur[i].1.len() > 0 by {
                            if i != k {
                                assert(cur[i] == r0[i]);
                            }
                        }
                    }
                }
                self.departments = deps;
            }
            None => {
                let ghost pre_v = deps@;
                let mut members: Vec<String> = Vec::new();
                members.push(name);
                deps.push((department, members));
                proof {
                    assert(deps.deep_view() =~= r0.push((department@, seq![name@]))) by {
                        assert forall|j: int| 0 <= j < deps.deep_view().len()
                            implies deps.deep_view()[j] == r0.push((department@, seq![name@]))[j] by {
                            if j < pre_v.len() {
                                assert(deps@[j] == pre_v[j]);
                            } else {
                                assert(deps@[j].1@.len() == 1);
                                assert(deps@[j].1.deep_view() =~= seq![name@]);
                            }
                        }
                    }
                    lemma_add_person_absent(r0, department@, name@);
                    assert(wf_roster(deps.deep_view())) by {
                        let cur = r0.push((department@, seq![name@]));
                        assert forall|i: int, j: int| 0 <= i < j < cur.len()
                            implies cur[i].0 != cur[j].0 by {
                            assert(cur[i] == r0[i]);
                            if j < r0.len() {
                                assert(cur[j] == r0[j]);
                            }
                        }
                        assert forall|i: int| 0 <= i < cur.len() implies cur[i].1.len() > 0 by {
                            if i < r0.len() {
                                assert(cur[i] == r0[i]);
                            }
                        }
                    }
                }
                self.departments = deps;
            }
        }
    }

    /// Builds the `List` report for `department`: a sorted copy of its
    /// members if it is present, the empty-department notice if not. The
    /// stored roster is read, never changed.
    pub fn department_report(&self, department: &str) -> (rep: Report)
        ensures
            rep@ == report_for(self@, department@),
    {
        match find_dept(&self.departments, department) {
            Some(k) => {
                let members = sort_strings(&self.departments[k].1);
                proof {
                    lemma_lookup_found(self@, department@, k as int);
                    assert(self.departments[k as int].1.deep_view() == self@[k as int].1);
                }
                Report::People { department: department.to_owned(), members }
            }
            None => {
                proof {
                    lemma_lookup_absent(self@, department@);
                }
                Report::EmptyDepartment { department: department.to_owned() }
            }
        }
    }

    /// Executes one command. The returned reports are the command's output,
    /// in order; the returned flag tells the processing loop to stop, and
    /// only `Exit` sets it.
    pub fn process(&mut self, cmd: Command) -> (r: (Vec<Report>, bool))
        ensures
            final(self)@ == step_state(old(self)@, cmd@),
            r.0.deep_view() == step_reports(old(self)@, cmd@),
            r.1 == step_exit(cmd@),
    {
        match cmd {
            Command::Add { name, department } => {
                self.add_to_department(department, name);
                let out: Vec<Report> = Vec::new();
                proof {
                    assert(out.deep_view() =~= Seq::<ReportModel>::empty());
                }
                (out, false)
            }
            Command::List { department } => {
                let rep = self.department_report(department.as_str());
                let mut out: Vec<Report> = Vec::new();
                out.push(rep);
                proof {
                    assert(out.deep_view() =~= seq![report_for(old(self)@, department@)]);
                }
                (out, false)
            }
            Command::All => {
                let mut out: Vec<Report> = Vec::new();
                if self.departments.len() == 0 {
                    out.push(Report::NoDepartments);
                    proof {
                        assert(out.deep_view() =~= seq![ReportModel::NoDepartments]);
                    }
                    (out, false)
                } else {
                    let n = self.departments.len();
                    let mut i: usize = 0;
                    while i < n
                        invariant
                            i <= n,
                            self@ == old(self)@,
                            n == self.departments@.len(),
                            out.deep_view().len() == i,
                            forall|j: int| 0 <= j < i
                                ==> out.deep_view()[j] == report_for(self@, self@[j].0),
                        decreases n - i,
                    {
                        let ghost pre = out.deep_view();
                        let rep = self.department_report(self.departments[i].0.as_str());
                        out.push(rep);
                        proof {
                            assert(self.departments[i as int].0@ == self@[i as int].0);
                            assert forall|j: int| 0 <= j < out.deep_view().len()
                                implies out.deep_view()[j] == pre.push(rep@)[j] by {
                            }
                        }
                        i = i + 1;
                    }
                    proof {
                        assert(out.deep_view() =~= all_reports(self@));
                    }
                    (out, false)
                }
            }
            Command::Exit => {
                let mut out: Vec<Report> = Vec::new();
                out.push(Report::Exiting);
                proof {
                    assert(out.deep_view() =~= seq![ReportModel::Exiting]);
                }
                (out, true)
            }
        }
    }
}

} // verus!
