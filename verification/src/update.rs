//! Changing the database: asserting facts and rules, and telling the view
//! cache which relation reads from which.

use crate::ast::{Rule, RuleSpec, Term, TermSpec};
use crate::cache::{reaches, ViewCache};
use crate::error::{Error, ErrorSpec};
use crate::eval::{
    body_variables, check_head, deconstruct_spec, deconstruct_term, to_atoms, to_atoms_spec,
    to_variables, to_variables_spec, unbound_formal, unbound_variable,
};
use crate::storage::{AstView, Relation, StorageEngine, Table, ViewRuleSpec};
use crate::text::{Row, Text};
use vstd::prelude::*;

verus! {

/// The relation and the tuple that a fact stands for. A fact holds no
/// variable.
pub open spec fn fact_spec(fact: TermSpec) -> Result<(Text, Row), ErrorSpec> {
    match deconstruct_spec(fact) {
        Err(e) => Err(e),
        Ok((name, params)) => match to_atoms_spec(params) {
            Err(e) => Err(e),
            Ok(atoms) => Ok((name, atoms)),
        },
    }
}

/// What asserting a fact returns: an error for a fact that is none, for a
/// relation that is a view, and for a table of another arity.
pub open spec fn simple_assert_spec(db: StorageEngine, fact: TermSpec) -> Result<(), ErrorSpec> {
    match fact_spec(fact) {
        Err(e) => Err(e),
        Ok((name, atoms)) => match db.lookup(name) {
            Some(Relation::Intension(_)) => Err(ErrorSpec::NotExtensional(name)),
            Some(Relation::Extension(t)) => if t.width() == atoms.len() {
                Ok(())
            } else {
                Err(ErrorSpec::ArityMismatch { expected: t.width() as usize, got: atoms.len() as usize })
            },
            None => Ok(()),
        },
    }
}

/// The cache after what it keeps of `name` and of the relations that
/// depend on `name` was thrown out.
pub open spec fn invalidated(before: ViewCache, after: ViewCache, name: Text) -> bool {
    &&& after.wf()
    &&& after.dependencies() == before.dependencies()
    &&& forall|n: Text| reaches(before.dependencies(), name, n) ==> after.contents(n).is_none()
    &&& forall|n: Text|
        !reaches(before.dependencies(), name, n) ==> after.contents(n) == before.contents(n)
}

/// What asserting a fact does. A term that is no fact changes nothing.
/// For a fact, no other relation changes, and the fact's relation counts
/// as changed. Where the assertion fails, the relation and the cache stay
/// as they were; where it succeeds, the relation is a table that ends with
/// the fact's atoms, and the cache keeps nothing of the relation nor of its
/// dependents.
pub open spec fn fact_asserted(
    db: StorageEngine,
    cache: ViewCache,
    fact: TermSpec,
    r: Result<(), Error>,
    db_after: StorageEngine,
    cache_after: ViewCache,
) -> bool {
    &&& db_after.wf()
    &&& cache_after.wf()
    &&& db_after.directory() == db.directory()
    &&& match r {
        Ok(_) => simple_assert_spec(db, fact) is Ok,
        Err(e) => simple_assert_spec(db, fact) == Err::<(), ErrorSpec>(e@),
    }
    &&& fact_spec(fact) is Err ==> db_after == db && cache_after == cache
    &&& fact_spec(fact) is Ok ==> ({
        let (name, atoms) = fact_spec(fact)->Ok_0;
        &&& forall|n: Text| n != name ==> db_after.lookup(n) == db.lookup(n)
        &&& db_after.is_dirty(name)
        &&& forall|n: Text| n != name ==> db_after.is_dirty(n) == db.is_dirty(n)
        &&& r is Err ==> db_after.lookup(name) == db.lookup(name) && cache_after == cache
        &&& r is Ok ==> invalidated(cache, cache_after, name)
        &&& r is Ok ==> db_after.lookup(name) is Some && db_after.lookup(name)->Some_0 is Extension
            && db_after.lookup(name)->Some_0->Extension_0.width() == atoms.len() && db_after.lookup(
            name,
        )->Some_0->Extension_0.flat() == (match db.lookup(name) {
            Some(Relation::Extension(t)) => t.flat(),
            _ => Seq::empty(),
        }) + atoms
    })
}

/// Adds a simple fact (one with no variables) to the database. The fact's
/// relation is made if the database has none of that name. What the cache
/// keeps of the relation and of its dependents is thrown out.
pub fn simple_assert(engine: &mut StorageEngine, cache: &mut ViewCache, fact: Term) -> (r: Result<
    (),
    Error,
>)
    requires
        old(engine).wf(),
        old(cache).wf(),
    ensures
        fact_asserted(*old(engine), *old(cache), fact@, r, *final(engine), *final(cache)),
{
    let ghost before = *engine;
    let (head, rest) = match deconstruct_term(fact) {
        Ok(parts) => parts,
        Err(e) => {
            return Err(e);
        },
    };
    let tuple = match to_atoms(rest) {
        Ok(tuple) => tuple,
        Err(e) => {
            return Err(e);
        },
    };
    let ghost atoms = tuple.deep_view();
    let arity = tuple.len();
    let relation = Relation::Extension(Table::new(arity));
    let ghost fresh = relation;
    let target = engine.get_or_create_relation(head.clone(), relation);
    let ghost found = *target;
    let result = match target {
        Relation::Extension(t) => t.assert_tuple(tuple),
        Relation::Intension(_) => Err(Error::NotExtensional(head.clone())),
    };
    proof {
        if before.contains(head@) {
            let i = before.names().index_of(head@);
            before.lemma_replaced(engine, head@, engine.contents()[i]);
        } else {
            let last = before.names().len() as int;
            before.lemma_created(engine, head@, engine.contents()[last]);
            assert(Seq::<Text>::empty() + atoms =~= atoms);
        }
    }
    match result {
        Ok(_) => {
            cache.invalidate(head.as_str());
            Ok(())
        },
        Err(e) => Err(e),
    }
}


/// The dependencies that the first `upto` terms of a rule body declare for
/// the rule's view: one on each relation that a compound term names.
pub open spec fn body_dependencies(body: Seq<TermSpec>, name: Text, upto: int) -> Seq<(Text, Text)>
    decreases upto,
{
    if upto <= 0 {
        Seq::empty()
    } else {
        match body[upto - 1] {
            TermSpec::Compound(c) => body_dependencies(body, name, upto - 1).push((c.relation, name)),
            TermSpec::Atomic(_) => body_dependencies(body, name, upto - 1),
        }
    }
}

/// The dependencies that the first `upto` rules of a view declare.
pub open spec fn view_dependencies(rules: Seq<ViewRuleSpec>, name: Text, upto: int) -> Seq<(Text, Text)>
    decreases upto,
{
    if upto <= 0 {
        Seq::empty()
    } else {
        view_dependencies(rules, name, upto - 1) + body_dependencies(
            rules[upto - 1].body,
            name,
            rules[upto - 1].body.len() as int,
        )
    }
}

/// The dependencies that the views among the first `upto` relations of the
/// database declare.
pub open spec fn catalog_dependencies(db: StorageEngine, upto: int) -> Seq<(Text, Text)>
    decreases upto,
{
    if upto <= 0 {
        Seq::empty()
    } else {
        catalog_dependencies(db, upto - 1) + (match db.lookup(db.names()[upto - 1]) {
            Some(Relation::Intension(v)) => view_dependencies(
                v@,
                db.names()[upto - 1],
                v@.len() as int,
            ),
            _ => Seq::empty(),
        })
    }
}

/// Declares, for each compound term of a rule body, that the rule's view
/// reads from the relation that the term names.
pub fn declare_dependencies(cache: &mut ViewCache, body: &Vec<Term>, name: &str)
    ensures
        final(cache).dependencies() == old(cache).dependencies() + body_dependencies(
            body.deep_view(),
            name@,
            body.len() as int,
        ),
        final(cache).cached() == old(cache).cached(),
        final(cache).kept() == old(cache).kept(),
{
    let ghost terms = body.deep_view();
    let ghost before = cache.dependencies();
    let mut i: usize = 0;
    assert(before + Seq::<(Text, Text)>::empty() =~= before);
    while i < body.len()
        invariant
            i <= body.len(),
            terms == body.deep_view(),
            before == old(cache).dependencies(),
            cache.dependencies() == before + body_dependencies(terms, name@, i as int),
            cache.cached() == old(cache).cached(),
            cache.kept() == old(cache).kept(),
        decreases body.len() - i,
    {
        assert(terms[i as int] == body[i as int]@);
        let ghost so_far = body_dependencies(terms, name@, i as int);
        match &body[i] {
            Term::Compound(cterm) => {
                cache.add_dependency(cterm.relation.clone(), name.to_owned());
                assert((before + so_far).push((cterm.relation@, name@)) =~= before + so_far.push(
                    (cterm.relation@, name@),
                ));
            },
            Term::Atomic(_) => {},
        }
        i += 1;
    }
}

/// The view and the variables of its head that a rule's head stands for.
/// Every parameter of the head is a variable, and the body binds each.
pub open spec fn head_spec(rule: RuleSpec) -> Result<(Text, Seq<Text>), ErrorSpec> {
    match deconstruct_spec(rule.head) {
        Err(e) => Err(e),
        Ok((name, definition)) => match to_variables_spec(definition) {
            Err(e) => Err(e),
            Ok(formals) => match unbound_formal(formals, body_variables(rule.body, 0)) {
                Some(i) => Err(unbound_variable(formals[i])),
                None => Ok((name, formals)),
            },
        },
    }
}

/// What adding a rule returns: an error for a head that is none, for a
/// relation that is a table, and for a view of another arity.
pub open spec fn add_rule_spec(db: StorageEngine, rule: RuleSpec) -> Result<(), ErrorSpec> {
    match head_spec(rule) {
        Err(e) => Err(e),
        Ok((name, formals)) => match db.lookup(name) {
            Some(Relation::Extension(_)) => Err(ErrorSpec::NotIntensional(name)),
            Some(Relation::Intension(v)) => if v@.len() > 0
                && v@[0].formals.len() != formals.len() {
                Err(
                    ErrorSpec::ArityMismatch {
                        expected: v@[0].formals.len() as usize,
                        got: formals.len() as usize,
                    },
                )
            } else {
                Ok(())
            },
            None => Ok(()),
        },
    }
}

/// What adding a rule does. A rule whose head is none changes nothing.
/// Else no other relation changes, the rule's view counts as changed, the
/// cache keeps nothing of the view nor of its dependents, and the view is
/// declared to read from the relations that the compound terms of the body
/// name. Where adding the rule fails, the relation stays as it was; where
/// it succeeds, the relation is a view that ends with the rule.
pub open spec fn rule_added(
    db: StorageEngine,
    cache: ViewCache,
    rule: RuleSpec,
    r: Result<(), Error>,
    db_after: StorageEngine,
    cache_after: ViewCache,
) -> bool {
    &&& db_after.wf()
    &&& cache_after.wf()
    &&& db_after.directory() == db.directory()
    &&& match r {
        Ok(_) => add_rule_spec(db, rule) is Ok,
        Err(e) => add_rule_spec(db, rule) == Err::<(), ErrorSpec>(e@),
    }
    &&& head_spec(rule) is Err ==> db_after == db && cache_after == cache
    &&& head_spec(rule) is Ok ==> ({
        let (name, formals) = head_spec(rule)->Ok_0;
        &&& forall|n: Text| n != name ==> db_after.lookup(n) == db.lookup(n)
        &&& db_after.is_dirty(name)
        &&& forall|n: Text| n != name ==> db_after.is_dirty(n) == db.is_dirty(n)
        &&& cache_after.dependencies() == cache.dependencies() + body_dependencies(
            rule.body,
            name,
            rule.body.len() as int,
        )
        &&& forall|n: Text| reaches(cache.dependencies(), name, n)
            ==> cache_after.contents(n).is_none()
        &&& forall|n: Text|
            !reaches(cache.dependencies(), name, n) ==> cache_after.contents(n) == cache.contents(n)
        &&& r is Err ==> db_after.lookup(name) == db.lookup(name)
        &&& r is Ok ==> db_after.lookup(name) is Some && db_after.lookup(name)->Some_0 is Intension
            && db_after.lookup(name)->Some_0->Intension_0@ == (match db.lookup(name) {
            Some(Relation::Intension(v)) => v@,
            _ => Seq::empty(),
        }).push(ViewRuleSpec { formals, body: rule.body })
    })
}

/// Adds a rule to the view that its head names. The view is made if the
/// database has no relation of that name. What the cache keeps of the view
/// and of its dependents is thrown out, and the view is declared to read
/// from the relations that the compound terms of the rule's body name;
/// both also where the relation turns out to be a table, or the view to
/// have another arity.
pub fn add_rule_to_view(engine: &mut StorageEngine, cache: &mut ViewCache, rule: Rule) -> (r: Result<
    (),
    Error,
>)
    requires
        old(engine).wf(),
        old(cache).wf(),
    ensures
        rule_added(*old(engine), *old(cache), rule@, r, *final(engine), *final(cache)),
{
    let ghost before = *engine;
    let ghost spec = rule@;
    let Rule { head, body } = rule;
    let (name, definition) = match deconstruct_term(head) {
        Ok(parts) => parts,
        Err(e) => {
            return Err(e);
        },
    };
    let params = match to_variables(definition) {
        Ok(params) => params,
        Err(e) => {
            return Err(e);
        },
    };
    match check_head(&params, &body) {
        Ok(_) => {},
        Err(e) => {
            return Err(e);
        },
    }
    cache.invalidate(name.as_str());
    declare_dependencies(cache, &body, name.as_str());
    let relation = Relation::Intension(AstView::new());
    let target = engine.get_or_create_relation(name.clone(), relation);
    let ghost found = *target;
    let result = match target {
        Relation::Extension(_) => Err(Error::NotIntensional(name.clone())),
        Relation::Intension(view) => {
            let fits = match view.arity() {
                Some(expected) => if expected == params.len() {
                    Ok(())
                } else {
                    Err(Error::ArityMismatch { expected, got: params.len() })
                },
                None => Ok(()),
            };
            match fits {
                Ok(_) => {
                    view.add_rule(params, body);
                    Ok(())
                },
                Err(e) => Err(e),
            }
        },
    };
    proof {
        if before.contains(name@) {
            let i = before.names().index_of(name@);
            before.lemma_replaced(engine, name@, engine.contents()[i]);
        } else {
            let last = before.names().len() as int;
            before.lemma_created(engine, name@, engine.contents()[last]);
        }
    }
    result
}

/// Adds a fact or rule to the database: a rule without a body is a fact.
pub fn assert_clause(engine: &mut StorageEngine, cache: &mut ViewCache, fact: Rule) -> (r: Result<
    (),
    Error,
>)
    requires
        old(engine).wf(),
        old(cache).wf(),
    ensures
        fact@.body.len() == 0 ==> fact_asserted(
            *old(engine),
            *old(cache),
            fact@.head,
            r,
            *final(engine),
            *final(cache),
        ),
        fact@.body.len() > 0 ==> rule_added(
            *old(engine),
            *old(cache),
            fact@,
            r,
            *final(engine),
            *final(cache),
        ),
{
    if fact.body.len() == 0 {
        simple_assert(engine, cache, fact.head)
    } else {
        add_rule_to_view(engine, cache, fact)
    }
}

/// Declares the dependencies of every view of the database: each view
/// reads from the relations that the compound terms of its rules name.
pub fn initialize_view_cache(storage: &StorageEngine, cache: &mut ViewCache)
    requires
        storage.wf(),
    ensures
        final(cache).dependencies() == old(cache).dependencies() + catalog_dependencies(
            *storage,
            storage.names().len() as int,
        ),
        final(cache).cached() == old(cache).cached(),
        final(cache).kept() == old(cache).kept(),
{
    let ghost before = cache.dependencies();
    let names = storage.get_relations();
    let mut i: usize = 0;
    assert(before + Seq::<(Text, Text)>::empty() =~= before);
    while i < names.len()
        invariant
            i <= names.len(),
            storage.wf(),
            names.len() == storage.names().len(),
            forall|k: int| 0 <= k < names.len() ==> names[k]@ == storage.names()[k],
            before == old(cache).dependencies(),
            cache.dependencies() == before + catalog_dependencies(*storage, i as int),
            cache.cached() == old(cache).cached(),
            cache.kept() == old(cache).kept(),
        decreases names.len() - i,
    {
        let relation = names[i];
        let ghost so_far = catalog_dependencies(*storage, i as int);
        match storage.get_relation(relation) {
            Some(Relation::Intension(view)) => {
                let rules = view.rules();
                let ghost specs = view@;
                let mut k: usize = 0;
                assert(so_far + Seq::<(Text, Text)>::empty() =~= so_far);
                while k < rules.len()
                    invariant
                        k <= rules.len(),
                        specs == rules.deep_view(),
                        cache.dependencies() == before + (so_far + view_dependencies(
                            specs,
                            relation@,
                            k as int,
                        )),
                        cache.cached() == old(cache).cached(),
                        cache.kept() == old(cache).kept(),
                    decreases rules.len() - k,
                {
                    assert(specs[k as int] == rules[k as int]@);
                    let ghost done = view_dependencies(specs, relation@, k as int);
                    let ghost more = body_dependencies(
                        specs[k as int].body,
                        relation@,
                        specs[k as int].body.len() as int,
                    );
                    declare_dependencies(cache, &rules[k].body, relation);
                    assert((before + (so_far + done)) + more =~= before + (so_far + (done + more)));
                    k += 1;
                }
            },
            _ => {
                assert(so_far + Seq::<(Text, Text)>::empty() =~= so_far);
            },
        }
        i += 1;
    }
}

} // verus!
