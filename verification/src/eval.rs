//! The evaluator: what a query means, and the planner that builds the plan
//! that answers it.
//!
//! What a query yields is defined here as a function of the database and
//! the cache, `query_spec`, by cases on the relation that the query names:
//! what is kept of it in the cache, the rows of a table, or the tuples of a
//! view, which are defined rule by rule and, for rules that refer to their
//! own view, pass by pass until nothing new comes.

use crate::ast::{duplicate_terms, AtomicTerm, AtomicTermSpec, Term, TermSpec};
use crate::cache::ViewCache;
use crate::error::{Error, ErrorSpec};
use crate::fixpoint::{
    atoms_of, body_frames, drain, fixpoint, lemma_absorb, lemma_atoms_of, lemma_fits,
    lemma_fixpoint, lemma_longest, lemma_pass_prefix, lemma_rows_within_finite, lemma_rule_within,
    longest, pass_upto, rows_among, rows_within, rule_rows, rules_rows, safe_rule, settled,
    spread, stage, term_frames, terms_variables, RuleInput, TermInput,
};
use crate::frame::{pattern_variables, stands_at, FrameSpec, Pattern};
use crate::plan::{
    chain_items, chain_names, chain_remaining, joins, match_all, projections, FramePlan, TuplePlan,
};
use crate::storage::{AstView, Relation, StorageEngine, ViewRule, ViewRuleSpec};
use crate::text::{clone_texts, clone_tuples, holds_text, rows_of, with_text, Row, Text, Tuple};
use vstd::prelude::*;

pub use crate::update::{add_rule_to_view, assert_clause, initialize_view_cache, simple_assert};

verus! {

//
// Taking terms apart.
//

/// The message that tells of something out of place.
pub open spec fn complaint(what: &str, text: Text) -> ErrorSpec {
    ErrorSpec::MalformedLine(what@ + text)
}

/// The error for a variable where an atom has to stand.
pub open spec fn unexpected_variable(v: Text) -> ErrorSpec {
    complaint("unexpected variable: ", v)
}

/// The error for an atom where a variable has to stand.
pub open spec fn unexpected_atom(a: Text) -> ErrorSpec {
    complaint("unexpected atom: ", a)
}

/// Builds the error that `complaint` describes.
fn complain(what: &str, text: &String) -> (e: Error)
    ensures
        e@ == complaint(what, text@),
{
    Error::MalformedLine(String::from_str(what).concat(text.as_str()))
}

pub open spec fn to_atom_spec(t: AtomicTermSpec) -> Result<Text, ErrorSpec> {
    match t {
        AtomicTermSpec::Atom(a) => Ok(a),
        AtomicTermSpec::Variable(v) => Err(unexpected_variable(v)),
    }
}

pub open spec fn to_variable_spec(t: AtomicTermSpec) -> Result<Text, ErrorSpec> {
    match t {
        AtomicTermSpec::Atom(a) => Err(unexpected_atom(a)),
        AtomicTermSpec::Variable(v) => Ok(v),
    }
}

/// Attempt to convert an AtomicTerm to an atom.
pub fn to_atom(t: AtomicTerm) -> (r: Result<String, Error>)
    ensures
        match r {
            Ok(a) => to_atom_spec(t@) == Ok::<Text, ErrorSpec>(a@),
            Err(e) => to_atom_spec(t@) == Err::<Text, ErrorSpec>(e@),
        },
{
    match t {
        AtomicTerm::Atom(a) => Ok(a),
        AtomicTerm::Variable(v) => Err(complain("unexpected variable: ", &v)),
    }
}

/// Attempt to convert an AtomicTerm to a variable.
pub fn to_variable(t: AtomicTerm) -> (r: Result<String, Error>)
    ensures
        match r {
            Ok(v) => to_variable_spec(t@) == Ok::<Text, ErrorSpec>(v@),
            Err(e) => to_variable_spec(t@) == Err::<Text, ErrorSpec>(e@),
        },
{
    match t {
        AtomicTerm::Atom(a) => Err(complain("unexpected atom: ", &a)),
        AtomicTerm::Variable(v) => Ok(v),
    }
}

/// The texts of a list of terms.
pub open spec fn texts(ts: Seq<AtomicTermSpec>) -> Seq<Text> {
    Seq::new(ts.len(), |i: int| ts[i].text())
}

/// The first place in the list where a term of the given kind stands (a
/// variable if `variable` is set, an atom if not), if there is one.
pub open spec fn first_of_kind(ts: Seq<AtomicTermSpec>, variable: bool) -> Option<int> {
    if exists|i: int| 0 <= i < ts.len() && ts[i].is_variable() == variable {
        Some(
            choose|i: int|
                0 <= i < ts.len() && ts[i].is_variable() == variable && forall|j: int|
                    0 <= j < i ==> ts[j].is_variable() != variable,
        )
    } else {
        None
    }
}

/// The place is the first of its kind, where nothing of the kind stands
/// before it.
pub proof fn lemma_first_of_kind(ts: Seq<AtomicTermSpec>, variable: bool, i: int)
    requires
        0 <= i < ts.len(),
        ts[i].is_variable() == variable,
        forall|j: int| 0 <= j < i ==> ts[j].is_variable() != variable,
    ensures
        first_of_kind(ts, variable) == Some(i),
{
    let k = choose|k: int|
        0 <= k < ts.len() && ts[k].is_variable() == variable && forall|j: int|
            0 <= j < k ==> ts[j].is_variable() != variable;
    if k < i {
    } else if k > i {
    }
}

/// The atoms of a list of terms, or the error for the first variable in it.
pub open spec fn to_atoms_spec(ts: Seq<AtomicTermSpec>) -> Result<Seq<Text>, ErrorSpec> {
    match first_of_kind(ts, true) {
        Some(i) => Err(unexpected_variable(ts[i].text())),
        None => Ok(texts(ts)),
    }
}

/// The variables of a list of terms, or the error for the first atom in it.
pub open spec fn to_variables_spec(ts: Seq<AtomicTermSpec>) -> Result<Seq<Text>, ErrorSpec> {
    match first_of_kind(ts, false) {
        Some(i) => Err(unexpected_atom(ts[i].text())),
        None => Ok(texts(ts)),
    }
}

/// Convert a vector of AtomicTerms to atoms, failing if any are variables.
pub fn to_atoms(v: Vec<AtomicTerm>) -> (r: Result<Vec<String>, Error>)
    ensures
        match r {
            Ok(atoms) => to_atoms_spec(v.deep_view())
                == Ok::<Seq<Text>, ErrorSpec>(atoms.deep_view()),
            Err(e) => to_atoms_spec(v.deep_view()) == Err::<Seq<Text>, ErrorSpec>(e@),
        },
{
    let ghost ts = v.deep_view();
    let mut result: Vec<String> = Vec::new();
    let mut i: usize = 0;
    while i < v.len()
        invariant
            i <= v.len(),
            ts == v.deep_view(),
            result.len() == i,
            forall|j: int| 0 <= j < i ==> !(#[trigger] ts[j]).is_variable(),
            forall|j: int| 0 <= j < i ==> result[j]@ == ts[j].text(),
        decreases v.len() - i,
    {
        assert(ts[i as int] == v[i as int]@);
        match &v[i] {
            AtomicTerm::Atom(a) => {
                result.push(a.clone());
            },
            AtomicTerm::Variable(name) => {
                proof {
                    lemma_first_of_kind(ts, true, i as int);
                }
                return Err(complain("unexpected variable: ", name));
            },
        }
        i += 1;
    }
    assert(result.deep_view() =~= texts(ts));
    Ok(result)
}

/// Convert a vector of AtomicTerms to variables, failing if any are atoms.
pub fn to_variables(v: Vec<AtomicTerm>) -> (r: Result<Vec<String>, Error>)
    ensures
        match r {
            Ok(names) => to_variables_spec(v.deep_view()) == Ok::<Seq<Text>, ErrorSpec>(
                names.deep_view(),
            ),
            Err(e) => to_variables_spec(v.deep_view()) == Err::<Seq<Text>, ErrorSpec>(e@),
        },
{
    let ghost ts = v.deep_view();
    let mut result: Vec<String> = Vec::new();
    let mut i: usize = 0;
    while i < v.len()
        invariant
            i <= v.len(),
            ts == v.deep_view(),
            result.len() == i,
            forall|j: int| 0 <= j < i ==> (#[trigger] ts[j]).is_variable(),
            forall|j: int| 0 <= j < i ==> result[j]@ == ts[j].text(),
        decreases v.len() - i,
    {
        assert(ts[i as int] == v[i as int]@);
        match &v[i] {
            AtomicTerm::Variable(name) => {
                result.push(name.clone());
            },
            AtomicTerm::Atom(a) => {
                proof {
                    lemma_first_of_kind(ts, false, i as int);
                }
                return Err(complain("unexpected atom: ", a));
            },
        }
        i += 1;
    }
    assert(result.deep_view() =~= texts(ts));
    Ok(result)
}

/// The relation that a term names and the term's parameters. A variable
/// alone names no relation.
pub open spec fn deconstruct_spec(t: TermSpec) -> Result<(Text, Seq<AtomicTermSpec>), ErrorSpec> {
    match t {
        TermSpec::Atomic(a) => match to_atom_spec(a) {
            Ok(name) => Ok((name, Seq::empty())),
            Err(e) => Err(e),
        },
        TermSpec::Compound(c) => Ok((c.relation, c.params)),
    }
}

/// Deconstruct a term into a head and its parameters.
pub fn deconstruct_term(t: Term) -> (r: Result<(String, Vec<AtomicTerm>), Error>)
    ensures
        match r {
            Ok((name, params)) => deconstruct_spec(t@)
                == Ok::<(Text, Seq<AtomicTermSpec>), ErrorSpec>(
                (name@, params.deep_view()),
            ),
            Err(e) => deconstruct_spec(t@) == Err::<(Text, Seq<AtomicTermSpec>), ErrorSpec>(e@),
        },
{
    match t {
        Term::Atomic(a) => match to_atom(a) {
            Ok(name) => {
                let params: Vec<AtomicTerm> = Vec::new();
                assert(params.deep_view() =~= Seq::<AtomicTermSpec>::empty());
                Ok((name, params))
            },
            Err(e) => Err(e),
        },
        Term::Compound(cterm) => Ok((cterm.relation, cterm.params)),
    }
}

/// Whether the term settles if a rule body is recursive: it names the
/// view, or it names nothing and so cannot be planned.
pub open spec fn settles(name: Text, t: TermSpec) -> bool {
    deconstruct_spec(t) is Err || deconstruct_spec(t)->Ok_0.0 == name
}

/// Whether a rule of the named view refers to the view itself. The terms
/// are read in order, and a variable that stands alone before any mention
/// of the view is an error.
pub open spec fn is_recursive_spec(name: Text, body: Seq<TermSpec>) -> Result<bool, ErrorSpec> {
    if exists|i: int| 0 <= i < body.len() && settles(name, body[i]) {
        let first = choose|i: int|
            0 <= i < body.len() && settles(name, body[i]) && forall|j: int|
                0 <= j < i ==> !settles(name, body[j]);
        match deconstruct_spec(body[first]) {
            Ok(_) => Ok(true),
            Err(e) => Err(e),
        }
    } else {
        Ok(false)
    }
}

pub fn is_recursive(name: &String, rule: &Vec<Term>) -> (r: Result<bool, Error>)
    ensures
        match r {
            Ok(b) => is_recursive_spec(name@, rule.deep_view()) == Ok::<bool, ErrorSpec>(b),
            Err(e) => is_recursive_spec(name@, rule.deep_view()) == Err::<bool, ErrorSpec>(e@),
        },
{
    let ghost body = rule.deep_view();
    let mut i: usize = 0;
    while i < rule.len()
        invariant
            i <= rule.len(),
            body == rule.deep_view(),
            forall|j: int| 0 <= j < i ==> !settles(name@, #[trigger] body[j]),
        decreases rule.len() - i,
    {
        assert(body[i as int] == rule[i as int]@);
        let settled = match deconstruct_term(rule[i].duplicate()) {
            Ok((relation_name, _)) => if relation_name == *name {
                Some(Ok(true))
            } else {
                None
            },
            Err(e) => Some(Err(e)),
        };
        match settled {
            Some(r) => {
                proof {
                    let k = choose|k: int|
                        0 <= k < body.len() && settles(name@, body[k]) && forall|j: int|
                            0 <= j < k ==> !settles(name@, body[j]);
                    assert(settles(name@, body[i as int]));
                    if k < i {
                    } else if k > i {
                    }
                }
                return r;
            },
            None => {},
        }
        i += 1;
    }
    Ok(false)
}

//
// What a query yields.
//

/// The error for a query of a relation that the database does not have.
pub open spec fn unknown_relation(name: Text) -> ErrorSpec {
    ErrorSpec::MalformedLine("No relation \""@ + name + "\" found."@)
}

/// The error for a view that is read while it is being planned, through
/// another view: only a rule that names its own view can be recursive.
pub open spec fn mutual_recursion() -> ErrorSpec {
    ErrorSpec::MalformedLine("mutual recursion unsupported"@)
}

/// The error for a rule without a body.
pub open spec fn empty_body() -> ErrorSpec {
    ErrorSpec::MalformedLine("empty rule body"@)
}

/// The error for a rule with a variable in its head that its body binds
/// nowhere.
pub open spec fn unbound_variable(v: Text) -> ErrorSpec {
    complaint("head variable missing from the body: ", v)
}

/// The variables that the terms of a body bind, from the term at `from` on.
pub open spec fn body_variables(body: Seq<TermSpec>, from: int) -> Set<Text>
    decreases body.len() - from,
{
    if from < 0 || from >= body.len() {
        Set::empty()
    } else if from == body.len() - 1 {
        pattern_variables(body[from].params())
    } else {
        pattern_variables(body[from].params()).union(body_variables(body, from + 1))
    }
}

/// The first place of a formal that is none of the given variables.
pub open spec fn unbound_formal(formals: Seq<Text>, variables: Set<Text>) -> Option<int> {
    if exists|i: int| 0 <= i < formals.len() && !variables.contains(formals[i]) {
        Some(
            choose|i: int|
                0 <= i < formals.len() && !variables.contains(formals[i]) && forall|j: int|
                    0 <= j < i ==> variables.contains(formals[j]),
        )
    } else {
        None
    }
}

/// How many views can still be entered below the ones that are being planned.
pub open spec fn depth_left(db: StorageEngine, stack: Seq<Text>) -> nat {
    if stack.len() < db.names().len() {
        (db.names().len() - stack.len()) as nat
    } else {
        0
    }
}

/// The rules among the first `i` that refer to their own view, in order.
pub open spec fn recursive_upto(name: Text, rules: Seq<ViewRuleSpec>, i: int) -> Seq<ViewRuleSpec>
    decreases i,
{
    if i <= 0 {
        Seq::empty()
    } else if is_recursive_spec(name, rules[i - 1].body) == Ok::<bool, ErrorSpec>(true) {
        recursive_upto(name, rules, i - 1).push(rules[i - 1])
    } else {
        recursive_upto(name, rules, i - 1)
    }
}

/// The frames that a query yields, from first to last, or the error with
/// which planning it fails. `stack` names the views that are being planned
/// around the query, outermost first.
pub open spec fn query_spec(db: StorageEngine, cache: ViewCache, term: TermSpec, stack: Seq<Text>) -> Result<
    Seq<FrameSpec>,
    ErrorSpec,
> {
    match deconstruct_spec(term) {
        Err(e) => Err(e),
        Ok((name, params)) => match scan_spec(db, cache, name, stack) {
            Err(e) => Err(e),
            Ok(rows) => Ok(match_all(params, rows)),
        },
    }
}

/// The tuples of the named relation: what the cache keeps of it, if it
/// keeps anything; else the rows of the table or the tuples of the view.
#[verifier::opaque]
pub open spec fn scan_spec(db: StorageEngine, cache: ViewCache, name: Text, stack: Seq<Text>) -> Result<
    Seq<Row>,
    ErrorSpec,
>
    decreases depth_left(db, stack), 1int, 0int,
{
    match cache.contents(name) {
        Some(rows) => Ok(rows),
        None => match db.lookup(name) {
            None => Err(unknown_relation(name)),
            Some(Relation::Extension(t)) => Ok(t.rows()),
            Some(Relation::Intension(v)) => view_spec(db, cache, name, v@, stack),
        },
    }
}

/// The tuples of a view: those of its rules that do not refer to the view,
/// rule after rule; and where some rule does refer to the view, the fixed
/// point that these tuples and the recursive rules lead to. A view that is
/// reached again while it is being planned cannot be planned.
#[verifier::opaque]
pub open spec fn view_spec(
    db: StorageEngine,
    cache: ViewCache,
    name: Text,
    rules: Seq<ViewRuleSpec>,
    stack: Seq<Text>,
) -> Result<Seq<Row>, ErrorSpec>
    decreases depth_left(db, stack), 0int, 0int,
{
    if stack.contains(name) || stack.len() >= db.names().len() {
        Err(mutual_recursion())
    } else {
        match base_inputs_spec(db, cache, name, rules, 0, stack.push(name)) {
            Err(e) => Err(e),
            Ok(base) => {
                let base_rows = rules_rows(base, base.len() as int, Seq::empty());
                let recursive = recursive_upto(name, rules, rules.len() as int);
                if recursive.len() == 0 {
                    Ok(base_rows)
                } else {
                    match inputs_spec(db, cache, name, recursive, 0, stack.push(name)) {
                        Err(e) => Err(e),
                        Ok(inputs) => Ok(fixpoint(inputs, base_rows)),
                    }
                }
            },
        }
    }
}

/// What the planner finds for the rules from `i` on that do not refer to
/// their view, or the first error on the way. Whether a rule refers to
/// its view is settled for every rule, in order.
#[verifier::opaque]
pub open spec fn base_inputs_spec(
    db: StorageEngine,
    cache: ViewCache,
    name: Text,
    rules: Seq<ViewRuleSpec>,
    i: int,
    stack: Seq<Text>,
) -> Result<Seq<RuleInput>, ErrorSpec>
    decreases depth_left(db, stack), 5int, rules.len() - i,
{
    if i < 0 || i >= rules.len() {
        Ok(Seq::empty())
    } else {
        match is_recursive_spec(name, rules[i].body) {
            Err(e) => Err(e),
            Ok(true) => base_inputs_spec(db, cache, name, rules, i + 1, stack),
            Ok(false) => match rule_input_spec(db, cache, name, rules[i], stack) {
                Err(e) => Err(e),
                Ok(input) => match base_inputs_spec(db, cache, name, rules, i + 1, stack) {
                    Err(e) => Err(e),
                    Ok(rest) => Ok(seq![input] + rest),
                },
            },
        }
    }
}

/// What the planner finds for the rules from `k` on, or the first error on
/// the way.
#[verifier::opaque]
pub open spec fn inputs_spec(
    db: StorageEngine,
    cache: ViewCache,
    name: Text,
    rules: Seq<ViewRuleSpec>,
    k: int,
    stack: Seq<Text>,
) -> Result<Seq<RuleInput>, ErrorSpec>
    decreases depth_left(db, stack), 5int, rules.len() - k,
{
    if k < 0 || k >= rules.len() {
        Ok(Seq::empty())
    } else {
        match rule_input_spec(db, cache, name, rules[k], stack) {
            Err(e) => Err(e),
            Ok(input) => match inputs_spec(db, cache, name, rules, k + 1, stack) {
                Err(e) => Err(e),
                Ok(rest) => Ok(seq![input] + rest),
            },
        }
    }
}

/// What the planner finds for one rule: the terms of its body, and that
/// the body binds every variable of the head.
#[verifier::opaque]
pub open spec fn rule_input_spec(
    db: StorageEngine,
    cache: ViewCache,
    name: Text,
    rule: ViewRuleSpec,
    stack: Seq<Text>,
) -> Result<RuleInput, ErrorSpec>
    decreases depth_left(db, stack), 4int, 0int,
{
    match body_inputs_spec(db, cache, name, rule.body, 0, stack) {
        Err(e) => Err(e),
        Ok(terms) => match unbound_formal(rule.formals, body_variables(rule.body, 0)) {
            Some(i) => Err(unbound_variable(rule.formals[i])),
            None => Ok(RuleInput { formals: rule.formals, terms }),
        },
    }
}

/// What the planner finds for the terms of a body from `j` on: for a term
/// that names the rule's own view its parameters alone, for any other term
/// the tuples of the relation that it names as well.
#[verifier::opaque]
pub open spec fn body_inputs_spec(
    db: StorageEngine,
    cache: ViewCache,
    name: Text,
    body: Seq<TermSpec>,
    j: int,
    stack: Seq<Text>,
) -> Result<Seq<TermInput>, ErrorSpec>
    decreases depth_left(db, stack), 3int, body.len() - j,
{
    if body.len() == 0 {
        Err(empty_body())
    } else if j < 0 || j >= body.len() {
        Ok(Seq::empty())
    } else {
        let first = match deconstruct_spec(body[j]) {
            Err(e) => Err(e),
            Ok((relation, params)) => if relation == name {
                Ok(TermInput { params, rows: None })
            } else {
                match scan_spec(db, cache, relation, stack) {
                    Err(e) => Err(e),
                    Ok(rows) => Ok(TermInput { params, rows: Some(rows) }),
                }
            },
        };
        match first {
            Err(e) => Err(e),
            Ok(term) => match body_inputs_spec(db, cache, name, body, j + 1, stack) {
                Err(e) => Err(e),
                Ok(rest) => Ok(seq![term] + rest),
            },
        }
    }
}

/// What `scan_spec` says, spelled out.
pub proof fn lemma_scan_spec(db: StorageEngine, cache: ViewCache, name: Text, stack: Seq<Text>)
    ensures
        scan_spec(db, cache, name, stack) == match cache.contents(name) {
            Some(rows) => Ok(rows),
            None => match db.lookup(name) {
                None => Err(unknown_relation(name)),
                Some(Relation::Extension(t)) => Ok(t.rows()),
                Some(Relation::Intension(v)) => view_spec(db, cache, name, v@, stack),
            },
        },
{
    reveal(scan_spec);
    reveal(view_spec);
}

/// What `view_spec` says, spelled out.
pub proof fn lemma_view_spec(
    db: StorageEngine,
    cache: ViewCache,
    name: Text,
    rules: Seq<ViewRuleSpec>,
    stack: Seq<Text>,
)
    ensures
        view_spec(db, cache, name, rules, stack) == if stack.contains(name) || stack.len()
            >= db.names().len() {
            Err(mutual_recursion())
        } else {
            match base_inputs_spec(db, cache, name, rules, 0, stack.push(name)) {
                Err(e) => Err(e),
                Ok(base) => {
                    let base_rows = rules_rows(base, base.len() as int, Seq::empty());
                    let recursive = recursive_upto(name, rules, rules.len() as int);
                    if recursive.len() == 0 {
                        Ok(base_rows)
                    } else {
                        match inputs_spec(db, cache, name, recursive, 0, stack.push(name)) {
                            Err(e) => Err(e),
                            Ok(inputs) => Ok(fixpoint(inputs, base_rows)),
                        }
                    }
                },
            }
        },
{
    reveal(view_spec);
    reveal(base_inputs_spec);
    reveal(inputs_spec);
}

/// What `base_inputs_spec` says of the rule at `i`, spelled out.
pub proof fn lemma_base_inputs_spec(
    db: StorageEngine,
    cache: ViewCache,
    name: Text,
    rules: Seq<ViewRuleSpec>,
    i: int,
    stack: Seq<Text>,
)
    requires
        0 <= i < rules.len(),
    ensures
        base_inputs_spec(db, cache, name, rules, i, stack) == match is_recursive_spec(
            name,
            rules[i].body,
        ) {
            Err(e) => Err(e),
            Ok(true) => base_inputs_spec(db, cache, name, rules, i + 1, stack),
            Ok(false) => match rule_input_spec(db, cache, name, rules[i], stack) {
                Err(e) => Err(e),
                Ok(input) => match base_inputs_spec(db, cache, name, rules, i + 1, stack) {
                    Err(e) => Err(e),
                    Ok(rest) => Ok(seq![input] + rest),
                },
            },
        },
        base_inputs_spec(db, cache, name, rules, rules.len() as int, stack) == Ok::<
            Seq<RuleInput>,
            ErrorSpec,
        >(Seq::empty()),
{
    reveal(base_inputs_spec);
    reveal(rule_input_spec);
}

/// What `rule_input_spec` says, spelled out.
pub proof fn lemma_rule_input_spec(
    db: StorageEngine,
    cache: ViewCache,
    name: Text,
    rule: ViewRuleSpec,
    stack: Seq<Text>,
)
    ensures
        rule_input_spec(db, cache, name, rule, stack) == match body_inputs_spec(
            db,
            cache,
            name,
            rule.body,
            0,
            stack,
        ) {
            Err(e) => Err(e),
            Ok(terms) => match unbound_formal(rule.formals, body_variables(rule.body, 0)) {
                Some(i) => Err(unbound_variable(rule.formals[i])),
                None => Ok(RuleInput { formals: rule.formals, terms }),
            },
        },
{
    reveal(rule_input_spec);
    reveal(body_inputs_spec);
}

/// What the planner finds for one term of a body.
pub open spec fn term_input_spec(
    db: StorageEngine,
    cache: ViewCache,
    name: Text,
    term: TermSpec,
    stack: Seq<Text>,
) -> Result<TermInput, ErrorSpec> {
    match deconstruct_spec(term) {
        Err(e) => Err(e),
        Ok((relation, params)) => if relation == name {
            Ok(TermInput { params, rows: None })
        } else {
            match scan_spec(db, cache, relation, stack) {
                Err(e) => Err(e),
                Ok(rows) => Ok(TermInput { params, rows: Some(rows) }),
            }
        },
    }
}

/// What `body_inputs_spec` says of the term at `j`, spelled out.
pub proof fn lemma_body_inputs_spec(
    db: StorageEngine,
    cache: ViewCache,
    name: Text,
    body: Seq<TermSpec>,
    j: int,
    stack: Seq<Text>,
)
    requires
        0 <= j < body.len(),
    ensures
        body_inputs_spec(db, cache, name, body, j, stack) == match term_input_spec(
            db,
            cache,
            name,
            body[j],
            stack,
        ) {
            Err(e) => Err(e),
            Ok(term) => match body_inputs_spec(db, cache, name, body, j + 1, stack) {
                Err(e) => Err(e),
                Ok(rest) => Ok(seq![term] + rest),
            },
        },
        body_inputs_spec(db, cache, name, body, body.len() as int, stack) == Ok::<
            Seq<TermInput>,
            ErrorSpec,
        >(Seq::empty()),
{
    reveal(body_inputs_spec);
    reveal(scan_spec);
}

/// A rule without a body cannot be planned.
pub proof fn lemma_empty_body(
    db: StorageEngine,
    cache: ViewCache,
    name: Text,
    body: Seq<TermSpec>,
    j: int,
    stack: Seq<Text>,
)
    requires
        body.len() == 0,
    ensures
        body_inputs_spec(db, cache, name, body, j, stack) == Err::<Seq<TermInput>, ErrorSpec>(
            empty_body(),
        ),
{
    reveal(body_inputs_spec);
}

/// The tuples that the planner's findings for a rule stand for, over a
/// working set.
pub open spec fn rows_of_rule(input: Result<RuleInput, ErrorSpec>, working: Seq<Row>) -> Result<
    Seq<Row>,
    ErrorSpec,
> {
    match input {
        Ok(rule) => Ok(rule_rows(rule, working)),
        Err(e) => Err(e),
    }
}

/// What the planner found for a body of terms: as many inputs as there are
/// terms from `j` on, which bind the variables of these terms.
pub proof fn lemma_body_inputs(
    db: StorageEngine,
    cache: ViewCache,
    name: Text,
    body: Seq<TermSpec>,
    j: int,
    stack: Seq<Text>,
)
    requires
        0 <= j < body.len(),
        body_inputs_spec(db, cache, name, body, j, stack) is Ok,
    ensures
        body_inputs_spec(db, cache, name, body, j, stack)->Ok_0.len() == body.len() - j,
        terms_variables(body_inputs_spec(db, cache, name, body, j, stack)->Ok_0) == body_variables(
            body,
            j,
        ),
    decreases body.len() - j,
{
    reveal(body_inputs_spec);
    let terms = body_inputs_spec(db, cache, name, body, j, stack)->Ok_0;
    let rest = body_inputs_spec(db, cache, name, body, j + 1, stack)->Ok_0;
    assert(deconstruct_spec(body[j]) is Ok);
    assert(terms[0].params == body[j].params());
    assert(terms.drop_first() =~= rest);
    if j < body.len() - 1 {
        lemma_body_inputs(db, cache, name, body, j + 1, stack);
    } else {
        assert(rest =~= Seq::<TermInput>::empty());
    }
}

//
// Query planning.
//

/// A tuple plan that was just made stands at its start, and holds no
/// caching wrapper for a view that is being planned around it.
pub open spec fn fresh_tuples(plan: TuplePlan<'_>, stack: Seq<Text>) -> bool {
    &&& plan.wf()
    &&& plan.remaining() == plan.items()
    &&& forall|n: Text| stack.contains(n) ==> !plan.cached_names().contains(n)
}

/// A frame plan that was just made stands at its start, and holds no
/// caching wrapper for a view that is being planned around it.
pub open spec fn fresh_frames(plan: FramePlan<'_>, stack: Seq<Text>) -> bool {
    &&& plan.wf()
    &&& plan.remaining() == plan.items()
    &&& forall|n: Text| stack.contains(n) ==> !plan.cached_names().contains(n)
}

/// The planner made a plan that yields the expected tuples, or failed with
/// the expected error.
pub open spec fn plans_tuples(
    r: Result<TuplePlan<'_>, Error>,
    expected: Result<Seq<Row>, ErrorSpec>,
    stack: Seq<Text>,
) -> bool {
    match r {
        Ok(plan) => expected == Ok::<Seq<Row>, ErrorSpec>(plan.items())
            && fresh_tuples(plan, stack),
        Err(e) => expected == Err::<Seq<Row>, ErrorSpec>(e@),
    }
}

/// The planner made a plan that yields the expected frames, or failed with
/// the expected error.
pub open spec fn plans_frames(
    r: Result<FramePlan<'_>, Error>,
    expected: Result<Seq<FrameSpec>, ErrorSpec>,
    stack: Seq<Text>,
) -> bool {
    match r {
        Ok(plan) => expected == Ok::<Seq<FrameSpec>, ErrorSpec>(plan.items()) && fresh_frames(
            plan,
            stack,
        ),
        Err(e) => expected == Err::<Seq<FrameSpec>, ErrorSpec>(e@),
    }
}

/// What a chain with one more part at its end yields and holds.
pub proof fn lemma_chain_push(parts: Seq<TuplePlan<'_>>, part: TuplePlan<'_>, from: int)
    requires
        0 <= from <= parts.len(),
    ensures
        chain_items(parts.push(part), from) == chain_items(parts, from) + part.items(),
        chain_remaining(parts.push(part), from) == chain_remaining(parts, from) + part.remaining(),
        chain_names(parts.push(part), from) == chain_names(parts, from).union(part.cached_names()),
    decreases parts.len() - from,
{
    let longer = parts.push(part);
    if from < parts.len() {
        lemma_chain_push(parts, part, from + 1);
        assert(longer[from] == parts[from]);
        assert(chain_items(longer, from) =~= chain_items(parts, from) + part.items());
        assert(chain_remaining(longer, from) =~= chain_remaining(parts, from) + part.remaining());
        assert(chain_names(longer, from) =~= chain_names(parts, from).union(part.cached_names()));
    } else {
        assert(longer[from] == part);
        assert(chain_items(longer, from + 1) =~= Seq::<Row>::empty());
        assert(chain_remaining(longer, from + 1) =~= Seq::<Row>::empty());
        assert(chain_names(longer, from + 1) =~= Set::<Text>::empty());
        assert(chain_names(parts, from) =~= Set::<Text>::empty());
        assert(chain_items(longer, from) =~= chain_items(parts, from) + part.items());
        assert(chain_remaining(longer, from) =~= chain_remaining(parts, from) + part.remaining());
        assert(chain_names(longer, from) =~= chain_names(parts, from).union(part.cached_names()));
    }
}

/// A variable is bound by the terms of a body from `from` on exactly if it
/// stands among the parameters of one of them.
pub proof fn lemma_body_variables(body: Seq<TermSpec>, from: int, v: Text)
    requires
        0 <= from,
    ensures
        body_variables(body, from).contains(v) <==> exists|j: int, i: int|
            from <= j < body.len() && stands_at(body[j].params(), v, i),
    decreases body.len() - from,
{
    if from >= body.len() {
    } else if from == body.len() - 1 {
        if body_variables(body, from).contains(v) {
            let i = choose|i: int| stands_at(body[from].params(), v, i);
            assert(from <= from < body.len() && stands_at(body[from].params(), v, i));
        }
    } else {
        lemma_body_variables(body, from + 1, v);
        if body_variables(body, from).contains(v) {
            if pattern_variables(body[from].params()).contains(v) {
                let i = choose|i: int| stands_at(body[from].params(), v, i);
                assert(from <= from < body.len() && stands_at(body[from].params(), v, i));
            } else {
                let (j, i) = choose|j: int, i: int|
                    from + 1 <= j < body.len() && stands_at(body[j].params(), v, i);
                assert(from <= j < body.len() && stands_at(body[j].params(), v, i));
            }
        }
        if exists|j: int, i: int| from <= j < body.len() && stands_at(body[j].params(), v, i) {
            let (j, i) = choose|j: int, i: int|
                from <= j < body.len() && stands_at(body[j].params(), v, i);
            if j > from {
                assert(from + 1 <= j < body.len() && stands_at(body[j].params(), v, i));
            }
        }
    }
}

/// Whether some term of the body binds the variable.
fn binds(body: &Vec<Term>, variable: &String) -> (r: bool)
    ensures
        r == body_variables(body.deep_view(), 0).contains(variable@),
{
    let ghost terms = body.deep_view();
    proof {
        lemma_body_variables(terms, 0, variable@);
    }
    let mut j: usize = 0;
    while j < body.len()
        invariant
            j <= body.len(),
            terms == body.deep_view(),
            forall|k: int, i: int| 0 <= k < j ==> !stands_at(terms[k].params(), variable@, i),
        decreases body.len() - j,
    {
        assert(terms[j as int] == body[j as int]@);
        match &body[j] {
            Term::Atomic(_) => {},
            Term::Compound(c) => {
                let ghost params = c.params.deep_view();
                let mut i: usize = 0;
                while i < c.params.len()
                    invariant
                        i <= c.params.len(),
                        j < body.len(),
                        terms == body.deep_view(),
                        params == c.params.deep_view(),
                        params == terms[j as int].params(),
                        forall|k: int| 0 <= k < i ==> !stands_at(params, variable@, k),
                    decreases c.params.len() - i,
                {
                    assert(params[i as int] == c.params[i as int]@);
                    match &c.params[i] {
                        AtomicTerm::Variable(v) => {
                            if *v == *variable {
                                proof {
                                    lemma_body_variables(terms, 0, variable@);
                                    assert(stands_at(terms[j as int].params(), variable@, i as int));
                                }
                                return true;
                            }
                        },
                        AtomicTerm::Atom(_) => {},
                    }
                    i += 1;
                }
            },
        }
        j += 1;
    }
    proof {
        lemma_body_variables(terms, 0, variable@);
    }
    false
}

/// Checks that the body binds every variable of the head.
pub fn check_head(formals: &Vec<String>, body: &Vec<Term>) -> (r: Result<(), Error>)
    ensures
        match r {
            Ok(_) => unbound_formal(formals.deep_view(), body_variables(body.deep_view(), 0)).is_none(),
            Err(e) => {
                let at = unbound_formal(formals.deep_view(), body_variables(body.deep_view(), 0));
                at is Some && e@ == unbound_variable(formals.deep_view()[at->Some_0])
            },
        },
{
    let ghost names = formals.deep_view();
    let ghost variables = body_variables(body.deep_view(), 0);
    let mut i: usize = 0;
    while i < formals.len()
        invariant
            i <= formals.len(),
            names == formals.deep_view(),
            variables == body_variables(body.deep_view(), 0),
            forall|k: int| 0 <= k < i ==> variables.contains(names[k]),
        decreases formals.len() - i,
    {
        assert(names[i as int] == formals[i as int]@);
        if !binds(body, &formals[i]) {
            proof {
                let k = choose|k: int|
                    0 <= k < names.len() && !variables.contains(names[k]) && forall|j: int|
                        0 <= j < k ==> variables.contains(names[j]);
                if k < i {
                } else if k > i {
                }
            }
            return Err(complain("head variable missing from the body: ", &formals[i]));
        }
        i += 1;
    }
    Ok(())
}

/// The atoms that a term of a recursive rule can bring into the view: those
/// of the tuples of the relation it names, unless that is the view itself.
pub open spec fn term_domain(
    db: StorageEngine,
    cache: ViewCache,
    name: Text,
    term: TermSpec,
    stack: Seq<Text>,
) -> Set<Text> {
    match deconstruct_spec(term) {
        Ok((relation, _)) => if relation == name {
            Set::empty()
        } else {
            match scan_spec(db, cache, relation, stack) {
                Ok(rows) => atoms_of(rows),
                Err(_) => Set::empty(),
            }
        },
        Err(_) => Set::empty(),
    }
}

/// The atoms that the terms of a body from `j` on can bring into the view.
pub open spec fn body_domain(
    db: StorageEngine,
    cache: ViewCache,
    name: Text,
    body: Seq<TermSpec>,
    j: int,
    stack: Seq<Text>,
) -> Set<Text>
    decreases body.len() - j,
{
    if j < 0 || j >= body.len() {
        Set::empty()
    } else {
        term_domain(db, cache, name, body[j], stack).union(
            body_domain(db, cache, name, body, j + 1, stack),
        )
    }
}

/// The atoms that the rules from `i` on can bring into the view.
pub open spec fn rules_domain(
    db: StorageEngine,
    cache: ViewCache,
    name: Text,
    rules: Seq<ViewRuleSpec>,
    i: int,
    stack: Seq<Text>,
) -> Set<Text>
    decreases rules.len() - i,
{
    if i < 0 || i >= rules.len() {
        Set::empty()
    } else {
        body_domain(db, cache, name, rules[i].body, 0, stack).union(
            rules_domain(db, cache, name, rules, i + 1, stack),
        )
    }
}

/// The greatest number of columns in the head of a rule from `i` on.
pub open spec fn widest(rules: Seq<ViewRuleSpec>, i: int) -> nat
    decreases rules.len() - i,
{
    if i < 0 || i >= rules.len() {
        0
    } else if rules[i].formals.len() > widest(rules, i + 1) {
        rules[i].formals.len()
    } else {
        widest(rules, i + 1)
    }
}

pub proof fn lemma_body_domain_finite(
    db: StorageEngine,
    cache: ViewCache,
    name: Text,
    body: Seq<TermSpec>,
    j: int,
    stack: Seq<Text>,
)
    ensures
        body_domain(db, cache, name, body, j, stack).finite(),
    decreases body.len() - j,
{
    if 0 <= j < body.len() {
        lemma_body_domain_finite(db, cache, name, body, j + 1, stack);
        let first = term_domain(db, cache, name, body[j], stack);
        assert(first.finite()) by {
            match deconstruct_spec(body[j]) {
                Ok((relation, _)) => {
                    match scan_spec(db, cache, relation, stack) {
                        Ok(rows) => {
                            vstd::seq_lib::seq_to_set_is_finite(spread(rows));
                        },
                        Err(_) => {},
                    }
                },
                Err(_) => {},
            }
        }
        vstd::set_lib::lemma_set_union_finite_iff(
            first,
            body_domain(db, cache, name, body, j + 1, stack),
        );
    }
}

/// The atoms that the rules can bring in are finitely many; those of each
/// rule are among them, and no head is wider than the widest.
pub proof fn lemma_rules_domain(
    db: StorageEngine,
    cache: ViewCache,
    name: Text,
    rules: Seq<ViewRuleSpec>,
    from: int,
    i: int,
    stack: Seq<Text>,
)
    requires
        0 <= from <= i < rules.len(),
    ensures
        rules_domain(db, cache, name, rules, from, stack).finite(),
        body_domain(db, cache, name, rules[i].body, 0, stack).subset_of(
            rules_domain(db, cache, name, rules, from, stack),
        ),
        rules[i].formals.len() <= widest(rules, from),
    decreases rules.len() - from,
{
    lemma_rules_domain_finite(db, cache, name, rules, from, stack);
    if from < i {
        lemma_rules_domain(db, cache, name, rules, from + 1, i, stack);
    }
}

pub proof fn lemma_rules_domain_finite(
    db: StorageEngine,
    cache: ViewCache,
    name: Text,
    rules: Seq<ViewRuleSpec>,
    from: int,
    stack: Seq<Text>,
)
    ensures
        rules_domain(db, cache, name, rules, from, stack).finite(),
    decreases rules.len() - from,
{
    if 0 <= from < rules.len() {
        lemma_rules_domain_finite(db, cache, name, rules, from + 1, stack);
        lemma_body_domain_finite(db, cache, name, rules[from].body, 0, stack);
        vstd::set_lib::lemma_set_union_finite_iff(
            body_domain(db, cache, name, rules[from].body, 0, stack),
            rules_domain(db, cache, name, rules, from + 1, stack),
        );
    }
}

/// The tuples that the planner found for the terms of a body are made of
/// the atoms that the body can bring into the view.
pub proof fn lemma_inputs_within(
    db: StorageEngine,
    cache: ViewCache,
    name: Text,
    body: Seq<TermSpec>,
    j: int,
    stack: Seq<Text>,
    domain: Set<Text>,
)
    requires
        0 <= j < body.len(),
        body_inputs_spec(db, cache, name, body, j, stack) is Ok,
        body_domain(db, cache, name, body, j, stack).subset_of(domain),
    ensures
        forall|k: int|
            0 <= k < body_inputs_spec(db, cache, name, body, j, stack)->Ok_0.len() && (
            #[trigger] body_inputs_spec(db, cache, name, body, j, stack)->Ok_0[k]).rows is Some
                ==> rows_among(
                body_inputs_spec(db, cache, name, body, j, stack)->Ok_0[k].rows->Some_0,
                domain,
            ),
    decreases body.len() - j,
{
    reveal(body_inputs_spec);
    reveal(scan_spec);
    let terms = body_inputs_spec(db, cache, name, body, j, stack)->Ok_0;
    let rest = body_inputs_spec(db, cache, name, body, j + 1, stack)->Ok_0;
    assert(deconstruct_spec(body[j]) is Ok);
    if j < body.len() - 1 {
        lemma_inputs_within(db, cache, name, body, j + 1, stack, domain);
    } else {
        assert(rest =~= Seq::<TermInput>::empty());
    }
    assert forall|k: int| 0 <= k < terms.len() && (#[trigger] terms[k]).rows is Some
        implies rows_among(
        terms[k].rows->Some_0,
        domain,
    ) by {
        if k == 0 {
            let rows = terms[0].rows->Some_0;
            let relation = deconstruct_spec(body[j])->Ok_0.0;
            assert(scan_spec(db, cache, relation, stack) == Ok::<Seq<Row>, ErrorSpec>(rows));
            assert(term_domain(db, cache, name, body[j], stack) == atoms_of(rows));
            assert forall|a: int, b: int|
                0 <= a < rows.len() && 0 <= b < rows[a].len() implies domain.contains(
                #[trigger] rows[a][b],
            ) by {
                lemma_atoms_of(rows, a, b);
            }
        } else {
            assert(terms[k] == rest[k - 1]);
        }
    }
}

/// What the planner found for a rule: the rule's head, a body of at least
/// one term whose tuples are made of the atoms that the body can bring in,
/// and variables for every column of the head.
pub proof fn lemma_rule_input(
    db: StorageEngine,
    cache: ViewCache,
    name: Text,
    rule: ViewRuleSpec,
    stack: Seq<Text>,
    domain: Set<Text>,
)
    requires
        rule_input_spec(db, cache, name, rule, stack) is Ok,
        body_domain(db, cache, name, rule.body, 0, stack).subset_of(domain),
    ensures
        ({
            let input = rule_input_spec(db, cache, name, rule, stack)->Ok_0;
            &&& input.formals == rule.formals
            &&& input.terms.len() > 0
            &&& forall|j: int|
                0 <= j < input.terms.len() && (#[trigger] input.terms[j]).rows is Some
                    ==> rows_among(
                    input.terms[j].rows->Some_0,
                    domain,
                )
            &&& forall|k: int|
                0 <= k < input.formals.len() ==> terms_variables(input.terms).contains(
                    #[trigger] input.formals[k],
                )
        }),
{
    reveal(rule_input_spec);
    reveal(body_inputs_spec);
    assert(rule.body.len() > 0);
    lemma_body_inputs(db, cache, name, rule.body, 0, stack);
    lemma_inputs_within(db, cache, name, rule.body, 0, stack, domain);
    let variables = body_variables(rule.body, 0);
    assert forall|k: int| 0 <= k < rule.formals.len() implies variables.contains(
        #[trigger] rule.formals[k],
    ) by {
        if !variables.contains(rule.formals[k]) {
            assert(unbound_formal(rule.formals, variables) is Some);
        }
    }
}

/// The findings for all rules, where each rule has its own.
pub proof fn lemma_all_inputs(
    db: StorageEngine,
    cache: ViewCache,
    name: Text,
    rules: Seq<ViewRuleSpec>,
    k: int,
    stack: Seq<Text>,
    inputs: Seq<RuleInput>,
)
    requires
        0 <= k <= rules.len(),
        inputs.len() == rules.len(),
        forall|j: int|
            0 <= j < rules.len() ==> rule_input_spec(db, cache, name, #[trigger] rules[j], stack)
                == Ok::<RuleInput, ErrorSpec>(inputs[j]),
    ensures
        inputs_spec(db, cache, name, rules, k, stack) == Ok::<Seq<RuleInput>, ErrorSpec>(
            inputs.skip(k),
        ),
    decreases rules.len() - k,
{
    reveal(inputs_spec);
    reveal(rule_input_spec);
    if k < rules.len() {
        lemma_all_inputs(db, cache, name, rules, k + 1, stack, inputs);
        assert(rule_input_spec(db, cache, name, rules[k], stack) == Ok::<RuleInput, ErrorSpec>(
            inputs[k],
        ));
        assert(seq![inputs[k]] + inputs.skip(k + 1) =~= inputs.skip(k));
    } else {
        assert(inputs.skip(k) =~= Seq::<RuleInput>::empty());
    }
}

/// What the planner finds for rules is safe to evaluate: each body has a
/// term and binds every variable of its head.
pub proof fn lemma_inputs_are_safe(
    db: StorageEngine,
    cache: ViewCache,
    name: Text,
    rules: Seq<ViewRuleSpec>,
    k: int,
    stack: Seq<Text>,
)
    requires
        0 <= k <= rules.len(),
        inputs_spec(db, cache, name, rules, k, stack) is Ok,
    ensures
        inputs_spec(db, cache, name, rules, k, stack)->Ok_0.len() == rules.len() - k,
        forall|j: int|
            0 <= j < rules.len() - k ==> safe_rule(
                #[trigger] inputs_spec(db, cache, name, rules, k, stack)->Ok_0[j],
            ),
    decreases rules.len() - k,
{
    reveal(inputs_spec);
    reveal(rule_input_spec);
    let inputs = inputs_spec(db, cache, name, rules, k, stack)->Ok_0;
    if k < rules.len() {
        let first = rule_input_spec(db, cache, name, rules[k], stack);
        let rest = inputs_spec(db, cache, name, rules, k + 1, stack)->Ok_0;
        assert(first is Ok);
        lemma_inputs_are_safe(db, cache, name, rules, k + 1, stack);
        lemma_rule_input(
            db,
            cache,
            name,
            rules[k],
            stack,
            body_domain(db, cache, name, rules[k].body, 0, stack),
        );
        assert(inputs =~= seq![first->Ok_0] + rest);
        assert forall|j: int| 0 <= j < rules.len() - k implies safe_rule(#[trigger] inputs[j]) by {
            if j > 0 {
                assert(inputs[j] == rest[j - 1]);
            }
        }
    }
}

/// The first rule for which planning fails decides how planning the rules
/// fails.
pub proof fn lemma_first_failure(
    db: StorageEngine,
    cache: ViewCache,
    name: Text,
    rules: Seq<ViewRuleSpec>,
    from: int,
    k: int,
    stack: Seq<Text>,
)
    requires
        0 <= from <= k < rules.len(),
        forall|j: int|
            from <= j < k ==> rule_input_spec(db, cache, name, #[trigger] rules[j], stack) is Ok,
        rule_input_spec(db, cache, name, rules[k], stack) is Err,
    ensures
        inputs_spec(db, cache, name, rules, from, stack) == Err::<Seq<RuleInput>, ErrorSpec>(
            rule_input_spec(db, cache, name, rules[k], stack)->Err_0,
        ),
    decreases k - from,
{
    reveal(inputs_spec);
    reveal(rule_input_spec);
    if from < k {
        lemma_first_failure(db, cache, name, rules, from + 1, k, stack);
        assert(rule_input_spec(db, cache, name, rules[from], stack) is Ok);
    }
}

/// Plans the terms of a rule body from `j` on as a right-leaning chain of
/// joins. A term that names the rule's own view is matched against the
/// working set.
fn plan_body<'a>(
    engine: &'a StorageEngine,
    cache: &ViewCache,
    name: &String,
    body: &Vec<Term>,
    j: usize,
    working: &Vec<Tuple>,
    stack: &Vec<String>,
) -> (r: Result<FramePlan<'a>, Error>)
    requires
        engine.wf(),
        cache.wf(),
        j < body.len() || body.len() == 0,
    ensures
        match body_inputs_spec(*engine, *cache, name@, body.deep_view(), j as int, stack.deep_view()) {
            Ok(terms) => r is Ok && r->Ok_0.items() == body_frames(terms, rows_of(working@))
                && fresh_frames(r->Ok_0, stack.deep_view()) && r->Ok_0.variables()
                == body_variables(body.deep_view(), j as int),
            Err(e) => r is Err && r->Err_0@ == e,
        },
    decreases depth_left(*engine, stack.deep_view()), 3int, body.len() - j,
{
    let ghost terms = body.deep_view();
    if body.len() == 0 {
        proof {
            lemma_empty_body(*engine, *cache, name@, terms, j as int, stack.deep_view());
        }
        return Err(Error::MalformedLine(String::from_str("empty rule body")));
    }
    proof {
        lemma_body_inputs_spec(*engine, *cache, name@, terms, j as int, stack.deep_view());
    }
    assert(terms[j as int] == body[j as int]@);
    let ghost found = term_input_spec(*engine, *cache, name@, terms[j as int], stack.deep_view());
    let own = match deconstruct_term(body[j].duplicate()) {
        Ok((relation_name, params)) => if relation_name == *name {
            Some(params)
        } else {
            None
        },
        Err(_) => None,
    };
    let first = match own {
        Some(params) => {
            let tuples = clone_tuples(working);
            let ghost rows = rows_of(tuples@);
            assert(rows.skip(0) =~= rows);
            assert(params.deep_view() == terms[j as int].params());
            let pattern = Pattern::new(params);
            let child = TuplePlan::SetNode { tuples, index: 0 };
            assert(child.wf());
            assert(child.items() == rows);
            assert(child.remaining() == rows);
            assert(child.cached_names() == Set::<Text>::empty());
            let plan = FramePlan::PatternMatch { pattern, child: Box::new(child) };
            assert(plan.wf());
            assert(plan.items() == term_frames(found->Ok_0, rows_of(working@)));
            assert(plan.remaining() == plan.items());
            assert(plan.cached_names() == Set::<Text>::empty());
            plan
        },
        None => match query_at(engine, cache, body[j].duplicate(), stack) {
            Ok(plan) => plan,
            Err(e) => {
                return Err(e);
            },
        },
    };
    assert(first.items() == term_frames(found->Ok_0, rows_of(working@)));
    assert(first.variables() == pattern_variables(terms[j as int].params()));
    let ghost rest_spec = body_inputs_spec(
        *engine,
        *cache,
        name@,
        terms,
        j + 1,
        stack.deep_view(),
    );
    if j == body.len() - 1 {
        proof {
            assert(seq![found->Ok_0] + Seq::<TermInput>::empty() =~= seq![found->Ok_0]);
        }
        Ok(first)
    } else {
        match plan_body(engine, cache, name, body, j + 1, working, stack) {
            Ok(rest) => {
                let ghost left = first;
                let ghost right = rest;
                let plan = FramePlan::Join {
                    left: Box::new(first),
                    right: Box::new(rest),
                    current_left: None,
                };
                proof {
                    let whole = seq![found->Ok_0] + rest_spec->Ok_0;
                    lemma_body_inputs(*engine, *cache, name@, terms, j + 1, stack.deep_view());
                    assert(whole.drop_first() =~= rest_spec->Ok_0);
                    assert(whole.len() > 1);
                    assert(whole[0] == found->Ok_0);
                    assert(plan.items() == joins(left.items(), right.items()));
                    assert(plan.remaining() =~= Seq::<FrameSpec>::empty() + joins(
                        left.remaining(),
                        right.items(),
                    ));
                    assert(plan.remaining() =~= plan.items());
                    assert(plan.cached_names() == left.cached_names().union(right.cached_names()));
                    assert(plan.variables() == left.variables().union(right.variables()));
                }
                Ok(plan)
            },
            Err(e) => Err(e),
        }
    }
}

/// Plans one rule of a view: the join of its body's terms, read in the
/// columns of its head.
fn plan_rule<'a>(
    engine: &'a StorageEngine,
    cache: &ViewCache,
    name: &String,
    rule: &ViewRule,
    working: &Vec<Tuple>,
    stack: &Vec<String>,
) -> (r: Result<TuplePlan<'a>, Error>)
    requires
        engine.wf(),
        cache.wf(),
    ensures
        plans_tuples(
            r,
            rows_of_rule(
                rule_input_spec(*engine, *cache, name@, rule@, stack.deep_view()),
                rows_of(working@),
            ),
            stack.deep_view(),
        ),
    decreases depth_left(*engine, stack.deep_view()), 4int, 0int,
{
    proof {
        lemma_rule_input_spec(*engine, *cache, name@, rule@, stack.deep_view());
    }
    match plan_body(engine, cache, name, &rule.body, 0, working, stack) {
        Err(e) => Err(e),
        Ok(join) => match check_head(&rule.formals, &rule.body) {
            Err(e) => Err(e),
            Ok(_) => {
                let column_names = clone_texts(&rule.formals);
                proof {
                    let formals = rule.formals.deep_view();
                    let variables = body_variables(rule.body.deep_view(), 0);
                    assert forall|i: int| 0 <= i < formals.len() implies variables.contains(
                        #[trigger] formals[i],
                    ) by {
                        if !variables.contains(formals[i]) {
                            assert(unbound_formal(formals, variables) is Some);
                        }
                    }
                }
                let ghost frames = join.items();
                let plan = TuplePlan::IntensionalScan { column_names, scan: Box::new(join) };
                assert(plan.items() == projections(rule.formals.deep_view(), frames));
                assert(plan.remaining() == projections(rule.formals.deep_view(), frames));
                Ok(plan)
            },
        },
    }
}

/// A copy of a rule.
fn duplicate_rule(rule: &ViewRule) -> (r: ViewRule)
    ensures
        r@ == rule@,
{
    ViewRule { formals: clone_texts(&rule.formals), body: duplicate_terms(&rule.body) }
}

/// The given inputs, followed by those of `rest` if there are any.
pub open spec fn prepend(inputs: Seq<RuleInput>, rest: Result<Seq<RuleInput>, ErrorSpec>) -> Result<
    Seq<RuleInput>,
    ErrorSpec,
> {
    match rest {
        Ok(more) => Ok(inputs + more),
        Err(e) => Err(e),
    }
}

/// Plans the rules of a view that do not refer to the view, and sets the
/// rules that do aside.
fn plan_base<'a>(
    engine: &'a StorageEngine,
    cache: &ViewCache,
    name: &String,
    rules: &Vec<ViewRule>,
    stack: &Vec<String>,
) -> (r: Result<(Vec<TuplePlan<'a>>, Vec<ViewRule>), Error>)
    requires
        engine.wf(),
        cache.wf(),
    ensures
        match base_inputs_spec(*engine, *cache, name@, rules.deep_view(), 0, stack.deep_view()) {
            Ok(base) => r is Ok && chain_items(r->Ok_0.0@, 0) == rules_rows(
                base,
                base.len() as int,
                Seq::empty(),
            ) && r->Ok_0.1.deep_view() == recursive_upto(
                name@,
                rules.deep_view(),
                rules.len() as int,
            ) && (forall|i: int| 0 <= i < r->Ok_0.0.len() ==> (#[trigger] r->Ok_0.0[i]).wf())
                && chain_remaining(r->Ok_0.0@, 0) == chain_items(r->Ok_0.0@, 0) && (forall|n: Text|
                stack.deep_view().contains(n) ==> !chain_names(r->Ok_0.0@, 0).contains(n)),
            Err(e) => r is Err && r->Err_0@ == e,
        },
    decreases depth_left(*engine, stack.deep_view()), 5int, rules.len() + 1,
{
    let ghost specs = rules.deep_view();
    let ghost whole = base_inputs_spec(*engine, *cache, name@, specs, 0, stack.deep_view());
    let ghost mut found: Seq<RuleInput> = Seq::empty();
    let mut parts: Vec<TuplePlan<'a>> = Vec::new();
    let mut recursive: Vec<ViewRule> = Vec::new();
    let empty: Vec<Tuple> = Vec::new();
    let mut i: usize = 0;
    proof {
        assert(rows_of(empty@) =~= Seq::<Row>::empty());
        assert(recursive.deep_view() =~= Seq::<ViewRuleSpec>::empty());
        match whole {
            Ok(more) => {
                assert(found + more =~= more);
            },
            Err(_) => {},
        }
    }
    while i < rules.len()
        invariant
            i <= rules.len(),
            engine.wf(),
            cache.wf(),
            specs == rules.deep_view(),
            rows_of(empty@) == Seq::<Row>::empty(),
            whole == base_inputs_spec(*engine, *cache, name@, specs, 0, stack.deep_view()),
            whole == prepend(
                found,
                base_inputs_spec(*engine, *cache, name@, specs, i as int, stack.deep_view()),
            ),
            chain_items(parts@, 0) == rules_rows(found, found.len() as int, Seq::empty()),
            recursive.deep_view() == recursive_upto(name@, specs, i as int),
            forall|k: int| 0 <= k < parts.len() ==> (#[trigger] parts[k]).wf(),
            chain_remaining(parts@, 0) == chain_items(parts@, 0),
            forall|n: Text| stack.deep_view().contains(n) ==> !chain_names(parts@, 0).contains(n),
        decreases rules.len() - i,
    {
        assert(specs[i as int] == rules[i as int]@);
        let ghost rest = base_inputs_spec(*engine, *cache, name@, specs, i + 1, stack.deep_view());
        proof {
            lemma_base_inputs_spec(*engine, *cache, name@, specs, i as int, stack.deep_view());
        }
        match is_recursive(name, &rules[i].body) {
            Err(e) => {
                return Err(e);
            },
            Ok(true) => {
                let ghost before = recursive.deep_view();
                recursive.push(duplicate_rule(&rules[i]));
                assert(recursive.deep_view() =~= before.push(specs[i as int]));
            },
            Ok(false) => {
                match plan_rule(engine, cache, name, &rules[i], &empty, stack) {
                    Err(e) => {
                        return Err(e);
                    },
                    Ok(plan) => {
                        proof {
                            let input = rule_input_spec(
                                *engine,
                                *cache,
                                name@,
                                specs[i as int],
                                stack.deep_view(),
                            )->Ok_0;
                            let longer = found.push(input);
                            lemma_chain_push(parts@, plan, 0);
                            lemma_pass_prefix(longer, found, found.len() as int, Seq::empty());
                            match rest {
                                Ok(more) => {
                                    assert(longer + more =~= found + (seq![input] + more));
                                },
                                Err(_) => {},
                            }
                            found = longer;
                        }
                        parts.push(plan);
                    },
                }
            },
        }
        i += 1;
    }
    proof {
        if rules.len() > 0 {
            lemma_base_inputs_spec(*engine, *cache, name@, specs, 0, stack.deep_view());
        } else {
            assert(base_inputs_spec(*engine, *cache, name@, specs, 0, stack.deep_view()) == Ok::<
                Seq<RuleInput>,
                ErrorSpec,
            >(Seq::empty())) by {
                reveal(base_inputs_spec);
            }
        }
        assert(found + Seq::<RuleInput>::empty() =~= found);
    }
    Ok((parts, recursive))
}

/// Materializes the fixed point of a recursive view: takes in the tuples of
/// the rules that do not refer to the view, then evaluates the recursive
/// rules over what was taken in, pass after pass, until a pass adds
/// nothing. The passes end because the tuples that can come are made of
/// the atoms that were there at the start, and so are finitely many.
///
/// The plans that are run here copy what they pass into a cache of their
/// own, which is dropped at the end: planning leaves the view cache as it
/// is.
fn bottom_up<'a>(
    engine: &'a StorageEngine,
    cache: &ViewCache,
    name: &String,
    base: Vec<TuplePlan<'a>>,
    rules: &Vec<ViewRule>,
    stack: &Vec<String>,
) -> (r: Result<TuplePlan<'a>, Error>)
    requires
        engine.wf(),
        cache.wf(),
        forall|i: int| 0 <= i < base.len() ==> (#[trigger] base[i]).wf(),
        chain_remaining(base@, 0) == chain_items(base@, 0),
    ensures
        match inputs_spec(*engine, *cache, name@, rules.deep_view(), 0, stack.deep_view()) {
            Ok(inputs) => r is Ok && r->Ok_0.items() == fixpoint(inputs, chain_items(base@, 0))
                && fresh_tuples(r->Ok_0, stack.deep_view()) && r->Ok_0.cached_names() == Set::<
                Text,
            >::empty() && r->Ok_0.fed_rows() == Set::<(Text, Row)>::empty(),
            Err(e) => r is Err && r->Err_0@ == e,
        },
    decreases depth_left(*engine, stack.deep_view()), 9int, 0int,
{
    let ghost specs = rules.deep_view();
    let ghost base_rows = chain_items(base@, 0);
    let ghost stack_spec = stack.deep_view();
    let mut scratch = ViewCache::new();
    let mut all: Vec<Tuple> = Vec::new();
    let mut chain = TuplePlan::Chain { parts: base, current: 0 };
    drain(&mut chain, &mut scratch, &mut all);
    let ghost first = rows_of(all@);
    let ghost domain = atoms_of(first).union(
        rules_domain(*engine, *cache, name@, specs, 0, stack_spec),
    );
    let ghost bound = longest(first) + widest(specs, 0);
    let ghost universe = rows_within(domain, bound);
    let ghost mut n: nat = 0;
    let ghost mut seen: Seq<RuleInput> = Seq::empty();
    proof {
        assert(rows_of(Seq::<Tuple>::empty()) =~= Seq::<Row>::empty());
        lemma_absorb(Seq::<Row>::empty(), base_rows);
        lemma_rules_domain_finite(*engine, *cache, name@, specs, 0, stack_spec);
        vstd::seq_lib::seq_to_set_is_finite(spread(first));
        vstd::set_lib::lemma_set_union_finite_iff(
            atoms_of(first),
            rules_domain(*engine, *cache, name@, specs, 0, stack_spec),
        );
        lemma_rows_within_finite(domain, bound);
        assert forall|i: int| 0 <= i < first.len()
            implies universe.contains(#[trigger] first[i]) by {
            lemma_longest(first, i);
            assert forall|k: int| 0 <= k < first[i].len() implies domain.contains(
                #[trigger] first[i][k],
            ) by {
                lemma_atoms_of(first, i, k);
            }
        }
    }
    loop
        invariant
            engine.wf(),
            cache.wf(),
            scratch.wf(),
            specs == rules.deep_view(),
            stack_spec == stack.deep_view(),
            base_rows == chain_items(base@, 0),
            domain == atoms_of(first).union(
                rules_domain(*engine, *cache, name@, specs, 0, stack_spec),
            ),
            bound == longest(first) + widest(specs, 0),
            universe == rows_within(domain, bound),
            universe.finite(),
            rows_of(all@).no_duplicates(),
            forall|i: int| 0 <= i < all.len() ==> universe.contains(#[trigger] rows_of(all@)[i]),
            seen.len() <= specs.len(),
            n == 0 ==> seen.len() == 0,
            n > 0 ==> seen.len() == specs.len(),
            forall|j: int|
                0 <= j < seen.len() ==> rule_input_spec(
                    *engine,
                    *cache,
                    name@,
                    #[trigger] specs[j],
                    stack_spec,
                ) == Ok::<RuleInput, ErrorSpec>(seen[j]),
            rows_of(all@) == stage(seen, base_rows, n),
        decreases universe.len() - all.len(),
    {
        let before = all.len();
        let ghost start = rows_of(all@);
        let ghost known = seen;
        proof {
            lemma_fits(start, universe);
            assert(start.take(before as int) =~= start);
        }
        let mut k: usize = 0;
        while k < rules.len()
            invariant
                k <= rules.len(),
                engine.wf(),
                cache.wf(),
                scratch.wf(),
                specs == rules.deep_view(),
                stack_spec == stack.deep_view(),
                domain == atoms_of(first).union(
                    rules_domain(*engine, *cache, name@, specs, 0, stack_spec),
                ),
                bound == longest(first) + widest(specs, 0),
                universe == rows_within(domain, bound),
                rows_of(all@).no_duplicates(),
                forall|i: int| 0 <= i < all.len()
                    ==> universe.contains(#[trigger] rows_of(all@)[i]),
                all.len() >= before,
                rows_of(all@).take(before as int) == start,
                n == 0 ==> seen.len() == k,
                n > 0 ==> seen.len() == specs.len(),
                seen.len() <= specs.len(),
                forall|j: int|
                    0 <= j < seen.len() ==> rule_input_spec(
                        *engine,
                        *cache,
                        name@,
                        #[trigger] specs[j],
                        stack_spec,
                    ) == Ok::<RuleInput, ErrorSpec>(seen[j]),
                rows_of(all@) == pass_upto(seen, k as int, start),
                start == stage(seen, base_rows, n),
            decreases rules.len() - k,
        {
            assert(specs[k as int] == rules[k as int]@);
            let ghost working = rows_of(all@);
            let ghost found = rule_input_spec(*engine, *cache, name@, specs[k as int], stack_spec);
            match plan_rule(engine, cache, name, &rules[k], &all, stack) {
                Err(e) => {
                    proof {
                        assert(found is Err);
                        if n > 0 {
                            assert(rule_input_spec(*engine, *cache, name@, specs[k as int], stack_spec)
                                == Ok::<RuleInput, ErrorSpec>(seen[k as int]));
                        }
                        lemma_first_failure(*engine, *cache, name@, specs, 0, k as int, stack_spec);
                    }
                    return Err(e);
                },
                Ok(plan) => {
                    let mut plan = plan;
                    let ghost input = found->Ok_0;
                    let ghost rows = plan.items();
                    proof {
                        if n == 0 {
                            let longer = seen.push(input);
                            lemma_pass_prefix(longer, seen, k as int, start);
                            seen = longer;
                        }
                        assert(seen[k as int] == input);
                        assert(rows_among(working, domain)) by {
                            assert forall|a: int, b: int|
                                0 <= a < working.len() && 0 <= b
                                    < working[a].len() implies domain.contains(
                                #[trigger] working[a][b],
                            ) by {
                                assert(universe.contains(working[a]));
                            }
                        }
                        lemma_rules_domain(*engine, *cache, name@, specs, 0, k as int, stack_spec);
                        lemma_rule_input(
                            *engine,
                            *cache,
                            name@,
                            specs[k as int],
                            stack_spec,
                            domain,
                        );
                        lemma_rule_within(input, working, domain);
                        lemma_absorb(working, rows);
                    }
                    drain(&mut plan, &mut scratch, &mut all);
                    proof {
                        let grown = rows_of(all@);
                        assert(grown.take(before as int) =~= start) by {
                            assert(grown.take(working.len() as int) == working);
                            assert forall|i: int| 0 <= i < before implies grown[i] == start[i] by {
                                assert(grown.take(working.len() as int)[i] == working[i]);
                                assert(working.take(before as int)[i] == working[i]);
                            }
                        }
                        assert forall|i: int| 0 <= i < grown.len() implies universe.contains(
                            #[trigger] grown[i],
                        ) by {
                            assert(grown.contains(grown[i]));
                            if working.contains(grown[i]) {
                                let at = working.index_of(grown[i]);
                                assert(universe.contains(working[at]));
                            } else {
                                let at = rows.index_of(grown[i]);
                                assert(rows[at].len() == specs[k as int].formals.len());
                            }
                        }
                    }
                },
            }
            k += 1;
        }
        proof {
            lemma_all_inputs(*engine, *cache, name@, specs, 0, stack_spec, seen);
            assert(seen.skip(0) =~= seen);
            if n == 0 {
                assert(stage(seen, base_rows, 0) == stage(known, base_rows, 0));
            }
            assert(rows_of(all@) == stage(seen, base_rows, n + 1));
        }
        if all.len() == before {
            proof {
                assert(rows_of(all@) =~= start);
                lemma_fixpoint(seen, base_rows, n);
                assert(rows_of(all@).skip(0) =~= rows_of(all@));
            }
            return Ok(TuplePlan::BottomUp { all_tuples: all, index: 0 });
        }
        proof {
            n = n + 1;
            lemma_fits(rows_of(all@), universe);
        }
    }
}

/// Plans the scan of a view: the chain of its rules' plans, or the fixed
/// point where a rule is recursive, below a wrapper that copies what
/// passes into the cache.
fn plan_view<'a>(
    name: &String,
    engine: &'a StorageEngine,
    cache: &ViewCache,
    view: &AstView,
    stack: &Vec<String>,
) -> (r: Result<TuplePlan<'a>, Error>)
    requires
        engine.wf(),
        cache.wf(),
    ensures
        plans_tuples(
            r,
            view_spec(*engine, *cache, name@, view@, stack.deep_view()),
            stack.deep_view(),
        ),
        r is Ok ==> forall|row: Row| #[trigger]
            r->Ok_0.fed_rows().contains((name@, row)) ==> r->Ok_0.items().contains(row),
        r is Ok ==> r->Ok_0.label() == Some(name@),
    decreases depth_left(*engine, stack.deep_view()), 0int, 0int,
{
    proof {
        lemma_view_spec(*engine, *cache, name@, view@, stack.deep_view());
    }
    if holds_text(stack, name) || stack.len() >= engine.count() {
        return Err(Error::MalformedLine(String::from_str("mutual recursion unsupported")));
    }
    let inner = with_text(stack, name);
    proof {
        assert(inner.deep_view().len() == stack.deep_view().len() + 1);
        assert(inner.deep_view()[stack.deep_view().len() as int] == name@);
        assert(inner.deep_view().contains(name@));
        assert forall|n: Text| stack.deep_view().contains(n)
            implies inner.deep_view().contains(n) by {
            let k = stack.deep_view().index_of(n);
            assert(inner.deep_view()[k] == n);
        }
    }
    match plan_base(engine, cache, name, view.rules(), &inner) {
        Err(e) => Err(e),
        Ok((parts, recursive)) => {
            let child = if recursive.len() > 0 {
                match bottom_up(engine, cache, name, parts, &recursive, &inner) {
                    Ok(plan) => plan,
                    Err(e) => {
                        return Err(e);
                    },
                }
            } else {
                let ghost listed = parts@;
                let chain = TuplePlan::Chain { parts, current: 0 };
                assert(chain.wf());
                assert(chain.items() == chain_items(listed, 0));
                assert(chain.remaining() == chain_remaining(listed, 0));
                assert(chain.cached_names() == chain_names(listed, 0));
                chain
            };
            assert(fresh_tuples(child, inner.deep_view()));
            proof {
                crate::plan::lemma_fed_names(child);
            }
            let ghost inside = child;
            let plan = TuplePlan::CachingWrapper { name: name.clone(), child: Box::new(child) };
            proof {
                assert(plan.wf());
                assert(plan.items() == inside.items());
                assert(plan.remaining() == inside.remaining());
                assert(plan.cached_names() == inside.cached_names().insert(name@));
                assert(plan.fed_rows() == inside.fed_rows().union(
                    crate::plan::under(name@, inside.items()),
                ).union(crate::plan::under(name@, inside.remaining())));
                assert forall|row: Row| #[trigger] plan.fed_rows().contains((name@, row))
                    implies plan.items().contains(
                    row,
                ) by {
                    assert(!inside.cached_names().contains(name@));
                    assert(!inside.fed_rows().contains((name@, row)));
                }
            }
            Ok(plan)
        },
    }
}

/// Plans the scan of the named relation: what the cache keeps of it, if
/// it keeps anything; else the rows of the table or the plan of the view.
fn plan_scan<'a>(
    engine: &'a StorageEngine,
    cache: &ViewCache,
    head: &String,
    stack: &Vec<String>,
) -> (r: Result<TuplePlan<'a>, Error>)
    requires
        engine.wf(),
        cache.wf(),
    ensures
        plans_tuples(r, scan_spec(*engine, *cache, head@, stack.deep_view()), stack.deep_view()),
        r is Ok ==> forall|row: Row| #[trigger]
            r->Ok_0.fed_rows().contains((head@, row)) ==> r->Ok_0.items().contains(row),
        r is Ok && cache.contents(head@) is None && engine.lookup(head@) is Some && engine.lookup(
            head@,
        )->Some_0 is Intension ==> r->Ok_0.label() == Some(head@),
    decreases depth_left(*engine, stack.deep_view()), 1int, 0int,
{
    proof {
        lemma_scan_spec(*engine, *cache, head@, stack.deep_view());
    }
    match cache.read_cache(head.as_str()) {
        Some(cached) => {
            assert(rows_of(cached@).skip(0) =~= rows_of(cached@));
            let plan = TuplePlan::VecPlan { contents: cached, index: 0 };
            assert(plan.cached_names() == Set::<Text>::empty());
            assert(plan.fed_rows() == Set::<(Text, Row)>::empty());
            Ok(plan)
        },
        None => match engine.get_relation(head.as_str()) {
            None => Err(
                Error::MalformedLine(
                    String::from_str("No relation \"").concat(head.as_str()).concat("\" found."),
                ),
            ),
            Some(Relation::Extension(table)) => {
                let plan = TuplePlan::ExtensionalScan { scan: table.scan() };
                assert(plan.cached_names() == Set::<Text>::empty());
                assert(plan.fed_rows() == Set::<(Text, Row)>::empty());
                Ok(plan)
            },
            Some(Relation::Intension(view)) => plan_view(head, engine, cache, view, stack),
        },
    }
}

/// What planning a query comes to: a plan for what the query yields, or
/// the error with which the query cannot be planned. The plan stands at
/// its start and is a pattern match over the tuples of the relation that the
/// query names; it binds the variables of the query; and where it reads a
/// view afresh, the tuples of the view are all that it copies into the cache
/// under the view's name.
pub open spec fn planned(
    r: Result<FramePlan<'_>, Error>,
    db: StorageEngine,
    cache: ViewCache,
    term: TermSpec,
    stack: Seq<Text>,
) -> bool {
    &&& plans_frames(r, query_spec(db, cache, term, stack), stack)
    &&& r is Ok ==> ({
        let plan = r->Ok_0;
        let name = term.relation()->Some_0;
        let rows = scan_spec(db, cache, name, stack)->Ok_0;
        &&& plan.variables() == pattern_variables(term.params())
        &&& plan.tuples() == rows
        &&& plan.tuples_left() == rows
        &&& forall|row: Row| #[trigger] plan.fed_rows().contains((name, row)) ==> rows.contains(row)
        &&& cache.contents(name) is None && db.lookup(name) is Some
            && db.lookup(name)->Some_0 is Intension
            ==> plan.label() == Some(name)
    })
}

/// Plans a query that stands inside the views named by `stack`.
fn query_at<'a>(
    engine: &'a StorageEngine,
    cache: &ViewCache,
    query: Term,
    stack: &Vec<String>,
) -> (r: Result<FramePlan<'a>, Error>)
    requires
        engine.wf(),
        cache.wf(),
    ensures
        planned(r, *engine, *cache, query@, stack.deep_view()),
    decreases depth_left(*engine, stack.deep_view()), 2int, 0int,
{
    let ghost term = query@;
    match deconstruct_term(query) {
        Err(e) => Err(e),
        Ok((head, rest)) => {
            assert(term.relation() == Some(head@));
            assert(rest.deep_view() == term.params());
            match plan_scan(engine, cache, &head, stack) {
                Err(e) => Err(e),
                Ok(scan) => {
                    let ghost below = scan;
                    let plan = FramePlan::PatternMatch {
                        pattern: Pattern::new(rest),
                        child: Box::new(scan),
                    };
                    proof {
                        assert(plan.wf());
                        assert(plan.items() == match_all(term.params(), below.items()));
                        assert(plan.remaining() == match_all(term.params(), below.remaining()));
                        assert(plan.cached_names() == below.cached_names());
                        assert(plan.fed_rows() == below.fed_rows());
                        assert(plan.label() == below.label());
                        assert(plan.tuples() == below.items());
                        assert(plan.tuples_left() == below.remaining());
                        assert(plan.variables() == pattern_variables(term.params()));
                    }
                    Ok(plan)
                },
            }
        },
    }
}

/// Given a query, returns the plan that yields all assignments of the
/// query's variables over the database that satisfy the query. Planning
/// reads the cache and leaves it as it is.
pub fn query<'a>(engine: &'a StorageEngine, cache: &ViewCache, term: Term) -> (r: Result<
    FramePlan<'a>,
    Error,
>)
    requires
        engine.wf(),
        cache.wf(),
    ensures
        planned(r, *engine, *cache, term@, Seq::empty()),
{
    let stack: Vec<String> = Vec::new();
    assert(stack.deep_view() =~= Seq::<Text>::empty());
    query_at(engine, cache, term, &stack)
}

} // verus!
