//! What the computation of a fixed point rests on: how a working set takes
//! in rows, where the atoms of joined frames come from, and why the tuples
//! over a finite set of atoms are finitely many.

use crate::ast::AtomicTermSpec;
use crate::cache::ViewCache;
use crate::frame::{match_spec, merge_spec, pattern_variables, stands_at, FrameSpec};
use crate::plan::{extended, joins, lemma_extended_chain, match_all, merges, projections, TuplePlan};
use crate::text::{holds_tuple, rows_of, Row, Text, Tuple};
use vstd::prelude::*;

verus! {

/// The working set after the given rows were added to it in order, each
/// unless the set held it already.
pub open spec fn absorb(working: Seq<Row>, rows: Seq<Row>) -> Seq<Row>
    decreases rows.len(),
{
    if rows.len() == 0 {
        working
    } else if working.contains(rows[0]) {
        absorb(working, rows.drop_first())
    } else {
        absorb(working.push(rows[0]), rows.drop_first())
    }
}

/// A working set that takes in rows keeps what it held, in place, holds
/// each of the rows afterwards and nothing else, and holds nothing twice
/// if it held nothing twice before.
pub proof fn lemma_absorb(working: Seq<Row>, rows: Seq<Row>)
    ensures
        absorb(working, rows).len() >= working.len(),
        absorb(working, rows).take(working.len() as int) == working,
        forall|x: Row| #[trigger]
            absorb(working, rows).contains(x) <==> working.contains(x) || rows.contains(x),
        working.no_duplicates() ==> absorb(working, rows).no_duplicates(),
    decreases rows.len(),
{
    let result = absorb(working, rows);
    if rows.len() == 0 {
        assert(working.take(working.len() as int) =~= working);
    } else {
        let rest = rows.drop_first();
        let next = if working.contains(rows[0]) {
            working
        } else {
            working.push(rows[0])
        };
        lemma_absorb(next, rest);
        assert(result.take(working.len() as int) =~= working) by {
            assert(result.take(next.len() as int) == next);
            assert forall|i: int| 0 <= i < working.len() implies result[i] == working[i] by {
                assert(result.take(next.len() as int)[i] == next[i]);
            }
        }
        assert forall|x: Row| #[trigger] result.contains(x) <==> working.contains(x)
            || rows.contains(
            x,
        ) by {
            if result.contains(x) {
                if next.contains(x) {
                    if !working.contains(x) {
                        let k = next.index_of(x);
                        if k < working.len() {
                            assert(working[k] == x);
                        }
                        assert(rows[0] == x);
                    }
                } else {
                    let k = rest.index_of(x);
                    assert(rows[k + 1] == x);
                }
            }
            if working.contains(x) {
                let k = working.index_of(x);
                assert(next[k] == x);
                assert(next.contains(x));
            }
            if rows.contains(x) {
                let k = rows.index_of(x);
                if k == 0 {
                    if !working.contains(x) {
                        assert(next[working.len() as int] == x);
                    }
                    assert(next.contains(x));
                } else {
                    assert(rest[k - 1] == x);
                    assert(rest.contains(x));
                }
            }
        }
    }
}

/// Runs a plan to its end and adds what it yields to a working set, each
/// tuple unless the set holds it already.
pub fn drain(plan: &mut TuplePlan<'_>, cache: &mut ViewCache, into: &mut Vec<Tuple>)
    requires
        old(plan).wf(),
        old(cache).wf(),
    ensures
        final(plan).wf(),
        final(plan).follows(*old(plan)),
        final(plan).remaining().len() == 0,
        rows_of(final(into)@) == absorb(rows_of(old(into)@), old(plan).remaining()),
        extended(*old(cache), *final(cache), old(plan).cached_names(), old(plan).fed_rows()),
        old(plan).covered(*old(cache)) ==> final(plan).covered(*final(cache)),
{
    let ghost start = *plan;
    let ghost old_cache = *cache;
    proof {
        lemma_extended_chain(
            old_cache,
            old_cache,
            old_cache,
            Set::empty(),
            Set::empty(),
            Set::empty(),
            Set::empty(),
            start.cached_names(),
            start.fed_rows(),
        );
    }
    loop
        invariant
            plan.wf(),
            plan.follows(start),
            start == *old(plan),
            old_cache == *old(cache),
            extended(old_cache, *cache, start.cached_names(), start.fed_rows()),
            start.covered(old_cache) ==> plan.covered(*cache),
            cache.wf(),
            absorb(rows_of(into@), plan.remaining()) == absorb(
                rows_of(old(into)@),
                old(plan).remaining(),
            ),
        decreases plan.remaining().len(),
    {
        let ghost rows = rows_of(into@);
        let ghost before = *plan;
        let ghost mid_cache = *cache;
        let next = plan.next(cache);
        proof {
            lemma_extended_chain(
                old_cache,
                mid_cache,
                *cache,
                start.cached_names(),
                start.fed_rows(),
                before.cached_names(),
                before.fed_rows(),
                start.cached_names(),
                start.fed_rows(),
            );
        }
        match next {
            None => {
                return ;
            },
            Some(t) => {
                if !holds_tuple(into, &t) {
                    into.push(t);
                    assert(rows_of(into@) =~= rows.push(t.deep_view()));
                }
            },
        }
    }
}

/// The atoms of a list of rows, one row after the other.
pub open spec fn spread(rows: Seq<Row>) -> Seq<Text>
    decreases rows.len(),
{
    if rows.len() == 0 {
        Seq::empty()
    } else {
        spread(rows.drop_last()) + rows.last()
    }
}

/// The atoms that stand in some row of the list.
pub open spec fn atoms_of(rows: Seq<Row>) -> Set<Text> {
    spread(rows).to_set()
}

pub proof fn lemma_atoms_of(rows: Seq<Row>, i: int, k: int)
    requires
        0 <= i < rows.len(),
        0 <= k < rows[i].len(),
    ensures
        atoms_of(rows).contains(rows[i][k]),
        atoms_of(rows).finite(),
    decreases rows.len(),
{
    vstd::seq_lib::seq_to_set_is_finite(spread(rows));
    let before = spread(rows.drop_last());
    if i == rows.len() - 1 {
        assert(spread(rows)[before.len() + k] == rows[i][k]);
    } else {
        lemma_atoms_of(rows.drop_last(), i, k);
        let at = before.index_of(rows[i][k]);
        assert(spread(rows)[at] == rows[i][k]);
    }
}

/// The length of the longest row.
pub open spec fn longest(rows: Seq<Row>) -> nat
    decreases rows.len(),
{
    if rows.len() == 0 {
        0
    } else if rows.last().len() > longest(rows.drop_last()) {
        rows.last().len()
    } else {
        longest(rows.drop_last())
    }
}

pub proof fn lemma_longest(rows: Seq<Row>, i: int)
    requires
        0 <= i < rows.len(),
    ensures
        rows[i].len() <= longest(rows),
    decreases rows.len(),
{
    if i < rows.len() - 1 {
        lemma_longest(rows.drop_last(), i);
    }
}

/// The rows of exactly `n` atoms of the given set.
pub open spec fn tuples_over(domain: Set<Text>, n: nat) -> Set<Row> {
    Set::new(
        |row: Row|
            row.len() == n && forall|k: int| 0 <= k < row.len()
                ==> domain.contains(#[trigger] row[k]),
    )
}

/// The rows of at most `bound` atoms of the given set.
pub open spec fn rows_within(domain: Set<Text>, bound: nat) -> Set<Row> {
    Set::new(
        |row: Row|
            row.len() <= bound && forall|k: int|
                0 <= k < row.len() ==> domain.contains(#[trigger] row[k]),
    )
}

/// Puts the atom at the end of a row.
pub open spec fn one_longer(d: Text) -> spec_fn(Row) -> Row {
    |row: Row| row.push(d)
}

/// Puts the atom at the end of each of the rows.
pub open spec fn all_one_longer(shorter: Set<Row>) -> spec_fn(Text) -> Set<Row> {
    |d: Text| shorter.map(one_longer(d))
}

/// There are finitely many rows of a given length over finitely many atoms.
pub proof fn lemma_tuples_over_finite(domain: Set<Text>, n: nat)
    requires
        domain.finite(),
    ensures
        tuples_over(domain, n).finite(),
    decreases n,
{
    if n == 0 {
        assert(tuples_over(domain, 0) =~= set![Seq::<Text>::empty()]) by {
            assert forall|row: Row| tuples_over(domain, 0).contains(row) implies row
                == Seq::<Text>::empty() by {
                assert(row =~= Seq::<Text>::empty());
            }
        }
    } else {
        lemma_tuples_over_finite(domain, (n - 1) as nat);
        let shorter = tuples_over(domain, (n - 1) as nat);
        let grown = domain.map(all_one_longer(shorter));
        domain.lemma_map_finite(all_one_longer(shorter));
        assert forall|s: Set<Row>| grown.contains(s) implies #[trigger] s.finite() by {
            let d = choose|d: Text| domain.contains(d) && s == all_one_longer(shorter)(d);
            shorter.lemma_map_finite(one_longer(d));
        }
        grown.lemma_flatten_finite();
        assert forall|row: Row| tuples_over(domain, n).contains(row)
            implies grown.flatten().contains(
            row,
        ) by {
            let d = row.last();
            let r = row.drop_last();
            assert(row =~= r.push(d));
            assert(domain.contains(row[n - 1]));
            assert forall|k: int| 0 <= k < r.len() implies domain.contains(#[trigger] r[k]) by {
                assert(r[k] == row[k]);
            }
            assert(shorter.contains(r));
            assert(row == one_longer(d)(r));
            assert(shorter.map(one_longer(d)).contains(row));
            assert(grown.contains(all_one_longer(shorter)(d)));
        }
        vstd::set_lib::lemma_set_subset_finite(grown.flatten(), tuples_over(domain, n));
    }
}

/// There are finitely many rows of a bounded length over finitely many atoms.
pub proof fn lemma_rows_within_finite(domain: Set<Text>, bound: nat)
    requires
        domain.finite(),
    ensures
        rows_within(domain, bound).finite(),
    decreases bound,
{
    lemma_tuples_over_finite(domain, bound);
    if bound == 0 {
        assert(rows_within(domain, 0) =~= tuples_over(domain, 0));
    } else {
        lemma_rows_within_finite(domain, (bound - 1) as nat);
        assert(rows_within(domain, bound) =~= rows_within(domain, (bound - 1) as nat).union(
            tuples_over(domain, bound),
        ));
        vstd::set_lib::lemma_set_union_finite_iff(
            rows_within(domain, (bound - 1) as nat),
            tuples_over(domain, bound),
        );
    }
}

/// A list of rows without repetition is no longer than a finite set that
/// holds them all has elements.
pub proof fn lemma_fits(rows: Seq<Row>, universe: Set<Row>)
    requires
        rows.no_duplicates(),
        universe.finite(),
        forall|i: int| 0 <= i < rows.len() ==> universe.contains(#[trigger] rows[i]),
    ensures
        rows.len() <= universe.len(),
{
    rows.unique_seq_to_set();
    assert(rows.to_set().subset_of(universe));
    vstd::set_lib::lemma_len_subset(rows.to_set(), universe);
}

/// The frame binds exactly the given variables, each to an atom of the
/// given set.
pub open spec fn frame_within(f: FrameSpec, variables: Set<Text>, domain: Set<Text>) -> bool {
    &&& f.dom() == variables
    &&& forall|v: Text| f.contains_key(v) ==> domain.contains(#[trigger] f[v])
}

pub open spec fn frames_within(frames: Seq<FrameSpec>, variables: Set<Text>, domain: Set<Text>) -> bool {
    forall|i: int| 0 <= i < frames.len() ==> frame_within(#[trigger] frames[i], variables, domain)
}

/// Every atom of every row is of the given set.
pub open spec fn rows_among(rows: Seq<Row>, domain: Set<Text>) -> bool {
    forall|i: int, k: int|
        0 <= i < rows.len() && 0 <= k < rows[i].len() ==> domain.contains(#[trigger] rows[i][k])
}

/// The frames of the tuples that match a pattern bind the pattern's
/// variables to atoms of the tuples.
pub proof fn lemma_match_all_within(pattern: Seq<AtomicTermSpec>, rows: Seq<Row>, domain: Set<Text>)
    requires
        rows_among(rows, domain),
    ensures
        frames_within(match_all(pattern, rows), pattern_variables(pattern), domain),
    decreases rows.len(),
{
    if rows.len() > 0 {
        let rest = rows.drop_first();
        assert(rows_among(rest, domain)) by {
            assert forall|i: int, k: int|
                0 <= i < rest.len() && 0 <= k < rest[i].len() implies domain.contains(
                #[trigger] rest[i][k],
            ) by {
                assert(rest[i] == rows[i + 1]);
            }
        }
        lemma_match_all_within(pattern, rest, domain);
        match match_spec(pattern, rows[0]) {
            Some(f) => {
                assert(f.dom() =~= pattern_variables(pattern));
                assert forall|v: Text| f.contains_key(v)
                    implies domain.contains(#[trigger] f[v]) by {
                    let i = choose|i: int| stands_at(pattern, v, i);
                    assert(f[v] == rows[0][i]);
                }
                let all = match_all(pattern, rows);
                assert forall|i: int| 0 <= i < all.len() implies frame_within(
                    #[trigger] all[i],
                    pattern_variables(pattern),
                    domain,
                ) by {
                    if i > 0 {
                        assert(all[i] == match_all(pattern, rest)[i - 1]);
                    }
                }
            },
            None => {},
        }
    }
}

/// The merges of a frame with a list of frames bind the variables of both
/// sides to atoms of both sides.
pub proof fn lemma_merges_within(
    left: FrameSpec,
    rights: Seq<FrameSpec>,
    left_variables: Set<Text>,
    right_variables: Set<Text>,
    domain: Set<Text>,
)
    requires
        frame_within(left, left_variables, domain),
        frames_within(rights, right_variables, domain),
    ensures
        frames_within(merges(left, rights), left_variables.union(right_variables), domain),
    decreases rights.len(),
{
    if rights.len() > 0 {
        let rest = rights.drop_first();
        assert(frames_within(rest, right_variables, domain)) by {
            assert forall|i: int| 0 <= i < rest.len() implies frame_within(
                #[trigger] rest[i],
                right_variables,
                domain,
            ) by {
                assert(rest[i] == rights[i + 1]);
            }
        }
        lemma_merges_within(left, rest, left_variables, right_variables, domain);
        assert(frame_within(rights[0], right_variables, domain));
        match merge_spec(left, rights[0]) {
            Some(f) => {
                assert(f.dom() =~= left_variables.union(right_variables));
                let all = merges(left, rights);
                assert forall|i: int| 0 <= i < all.len() implies frame_within(
                    #[trigger] all[i],
                    left_variables.union(right_variables),
                    domain,
                ) by {
                    if i > 0 {
                        assert(all[i] == merges(left, rest)[i - 1]);
                    }
                }
            },
            None => {},
        }
    }
}

/// The joins of two lists of frames bind the variables of both sides to
/// atoms of both sides.
pub proof fn lemma_joins_within(
    lefts: Seq<FrameSpec>,
    rights: Seq<FrameSpec>,
    left_variables: Set<Text>,
    right_variables: Set<Text>,
    domain: Set<Text>,
)
    requires
        frames_within(lefts, left_variables, domain),
        frames_within(rights, right_variables, domain),
    ensures
        frames_within(joins(lefts, rights), left_variables.union(right_variables), domain),
    decreases lefts.len(),
{
    if lefts.len() > 0 {
        let rest = lefts.drop_first();
        assert(frames_within(rest, left_variables, domain)) by {
            assert forall|i: int| 0 <= i < rest.len() implies frame_within(
                #[trigger] rest[i],
                left_variables,
                domain,
            ) by {
                assert(rest[i] == lefts[i + 1]);
            }
        }
        lemma_joins_within(rest, rights, left_variables, right_variables, domain);
        assert(frame_within(lefts[0], left_variables, domain));
        lemma_merges_within(lefts[0], rights, left_variables, right_variables, domain);
        let first = merges(lefts[0], rights);
        let all = joins(lefts, rights);
        assert forall|i: int| 0 <= i < all.len() implies frame_within(
            #[trigger] all[i],
            left_variables.union(right_variables),
            domain,
        ) by {
            if i < first.len() {
                assert(all[i] == first[i]);
            } else {
                assert(all[i] == joins(rest, rights)[i - first.len()]);
            }
        }
    }
}

/// The tuples read out of frames in columns that the frames bind are as
/// long as there are columns, and made of atoms of the frames.
pub proof fn lemma_projections_within(
    columns: Seq<Text>,
    frames: Seq<FrameSpec>,
    variables: Set<Text>,
    domain: Set<Text>,
)
    requires
        frames_within(frames, variables, domain),
        forall|k: int| 0 <= k < columns.len() ==> variables.contains(#[trigger] columns[k]),
    ensures
        rows_among(projections(columns, frames), domain),
        forall|i: int|
            0 <= i < frames.len() ==> (#[trigger] projections(columns, frames)[i]).len()
                == columns.len(),
{
    let rows = projections(columns, frames);
    assert forall|i: int, k: int|
        0 <= i < rows.len() && 0 <= k < rows[i].len() implies domain.contains(
        #[trigger] rows[i][k],
    ) by {
        assert(frame_within(frames[i], variables, domain));
        assert(variables.contains(columns[k]));
        assert(frames[i].contains_key(columns[k]));
    }
}

/// What the planner finds for one term of a rule body: the term's
/// parameters, and the tuples of the relation that the term names. A term
/// that names the rule's own view has no tuples of its own: it is matched
/// against the working set of the view.
pub struct TermInput {
    pub params: Seq<AtomicTermSpec>,
    pub rows: Option<Seq<Row>>,
}

/// What the planner finds for one rule: the variables of its head and the
/// terms of its body.
pub struct RuleInput {
    pub formals: Seq<Text>,
    pub terms: Seq<TermInput>,
}

/// The frames of one term over a working set.
pub open spec fn term_frames(term: TermInput, working: Seq<Row>) -> Seq<FrameSpec> {
    match_all(
        term.params,
        match term.rows {
            Some(rows) => rows,
            None => working,
        },
    )
}

/// The frames of a body over a working set: the join of the first term's
/// frames with the frames of the rest of the body.
pub open spec fn body_frames(terms: Seq<TermInput>, working: Seq<Row>) -> Seq<FrameSpec>
    decreases terms.len(),
{
    if terms.len() == 0 {
        Seq::empty()
    } else if terms.len() == 1 {
        term_frames(terms[0], working)
    } else {
        joins(term_frames(terms[0], working), body_frames(terms.drop_first(), working))
    }
}

/// The variables that the terms of a body bind.
pub open spec fn terms_variables(terms: Seq<TermInput>) -> Set<Text>
    decreases terms.len(),
{
    if terms.len() == 0 {
        Set::empty()
    } else if terms.len() == 1 {
        pattern_variables(terms[0].params)
    } else {
        pattern_variables(terms[0].params).union(terms_variables(terms.drop_first()))
    }
}

/// The tuples of a rule over a working set: the frames of its body, read in
/// the columns of its head.
pub open spec fn rule_rows(rule: RuleInput, working: Seq<Row>) -> Seq<Row> {
    projections(rule.formals, body_frames(rule.terms, working))
}

/// The tuples of the first `k` rules over a working set, rule after rule.
pub open spec fn rules_rows(rules: Seq<RuleInput>, k: int, working: Seq<Row>) -> Seq<Row>
    decreases k,
{
    if k <= 0 {
        Seq::empty()
    } else {
        rules_rows(rules, k - 1, working) + rule_rows(rules[k - 1], working)
    }
}

/// The working set after the first `k` rules of a pass: each rule is
/// evaluated over the working set as it is then, and what the rule yields
/// is taken in before the next rule.
pub open spec fn pass_upto(rules: Seq<RuleInput>, k: int, working: Seq<Row>) -> Seq<Row>
    decreases k,
{
    if k <= 0 {
        working
    } else {
        let before = pass_upto(rules, k - 1, working);
        absorb(before, rule_rows(rules[k - 1], before))
    }
}

/// The working set after one pass over all the rules.
pub open spec fn pass(rules: Seq<RuleInput>, working: Seq<Row>) -> Seq<Row> {
    pass_upto(rules, rules.len() as int, working)
}

/// The working set after `n` passes. It starts as the base tuples, each once.
pub open spec fn stage(rules: Seq<RuleInput>, base: Seq<Row>, n: nat) -> Seq<Row>
    decreases n,
{
    if n == 0 {
        absorb(Seq::empty(), base)
    } else {
        pass(rules, stage(rules, base, (n - 1) as nat))
    }
}

/// Whether the pass after the `n`-th adds nothing.
pub open spec fn settled(rules: Seq<RuleInput>, base: Seq<Row>, n: nat) -> bool {
    stage(rules, base, n + 1) == stage(rules, base, n)
}

/// The fixed point of the rules over the base tuples: the working set
/// after the first pass that adds nothing to it.
pub open spec fn fixpoint(rules: Seq<RuleInput>, base: Seq<Row>) -> Seq<Row> {
    stage(rules, base, choose|n: nat| settled(rules, base, n))
}

/// Once a pass adds nothing, no later pass adds anything.
pub proof fn lemma_stays_settled(rules: Seq<RuleInput>, base: Seq<Row>, n: nat, m: nat)
    requires
        settled(rules, base, n),
        m >= n,
    ensures
        stage(rules, base, m) == stage(rules, base, n),
    decreases m,
{
    if m > n {
        lemma_stays_settled(rules, base, n, (m - 1) as nat);
    }
}

/// The fixed point is the working set after any pass that adds nothing.
pub proof fn lemma_fixpoint(rules: Seq<RuleInput>, base: Seq<Row>, n: nat)
    requires
        settled(rules, base, n),
    ensures
        fixpoint(rules, base) == stage(rules, base, n),
{
    let m = choose|m: nat| settled(rules, base, m);
    if n <= m {
        lemma_stays_settled(rules, base, n, m);
    } else {
        lemma_stays_settled(rules, base, m, n);
    }
}

/// A pass only adds to a working set: what the set held stays in place.
pub proof fn lemma_pass_extends(rules: Seq<RuleInput>, k: int, working: Seq<Row>)
    requires
        0 <= k,
    ensures
        pass_upto(rules, k, working).len() >= working.len(),
        pass_upto(rules, k, working).take(working.len() as int) == working,
    decreases k,
{
    if k > 0 {
        let before = pass_upto(rules, k - 1, working);
        let after = pass_upto(rules, k, working);
        lemma_pass_extends(rules, k - 1, working);
        lemma_absorb(before, rule_rows(rules[k - 1], before));
        assert(after.take(working.len() as int) =~= working) by {
            assert forall|i: int| 0 <= i < working.len() implies after[i] == working[i] by {
                assert(after.take(before.len() as int)[i] == before[i]);
                assert(before.take(working.len() as int)[i] == working[i]);
            }
        }
    } else {
        assert(working.take(working.len() as int) =~= working);
    }
}

/// A pass that adds nothing comes from rules that add nothing: the working
/// set holds all that each rule yields over it.
pub proof fn lemma_settled_pass(rules: Seq<RuleInput>, k: int, j: int, working: Seq<Row>)
    requires
        0 <= j < k,
        pass_upto(rules, k, working) == working,
    ensures
        forall|row: Row| #[trigger]
            rule_rows(rules[j], working).contains(row) ==> working.contains(row),
    decreases k,
{
    let before = pass_upto(rules, k - 1, working);
    lemma_pass_extends(rules, k - 1, working);
    lemma_absorb(before, rule_rows(rules[k - 1], before));
    assert(before =~= working) by {
        assert(working.take(before.len() as int) == before);
        assert(before.take(working.len() as int) == working);
    }
    if j < k - 1 {
        lemma_settled_pass(rules, k - 1, j, working);
    }
}

/// Every stage holds the base tuples.
pub proof fn lemma_stage_holds_base(rules: Seq<RuleInput>, base: Seq<Row>, n: nat)
    ensures
        forall|row: Row| base.contains(row) ==> #[trigger] stage(rules, base, n).contains(row),
    decreases n,
{
    if n == 0 {
        lemma_absorb(Seq::empty(), base);
    } else {
        let before = stage(rules, base, (n - 1) as nat);
        let after = stage(rules, base, n);
        lemma_stage_holds_base(rules, base, (n - 1) as nat);
        lemma_pass_extends(rules, rules.len() as int, before);
        assert forall|row: Row| base.contains(row) implies #[trigger] after.contains(row) by {
            assert(before.contains(row));
            let i = before.index_of(row);
            assert(after.take(before.len() as int)[i] == before[i]);
        }
    }
}

/// Where the passes come to an end, the fixed point holds every base
/// tuple, holds no tuple twice, and holds whatever a rule yields over it.
pub proof fn lemma_fixpoint_settled(rules: Seq<RuleInput>, base: Seq<Row>, n: nat)
    requires
        settled(rules, base, n),
    ensures
        fixpoint(rules, base).no_duplicates(),
        forall|row: Row| base.contains(row) ==> #[trigger] fixpoint(rules, base).contains(row),
        forall|j: int, row: Row|
            0 <= j < rules.len()
                && #[trigger] rule_rows(rules[j], fixpoint(rules, base)).contains(row)
                ==> fixpoint(rules, base).contains(row),
{
    let fixed = stage(rules, base, n);
    lemma_fixpoint(rules, base, n);
    lemma_stage_holds_base(rules, base, n);
    lemma_stage_distinct(rules, base, n);
    assert forall|j: int, row: Row|
        0 <= j < rules.len() && #[trigger] rule_rows(rules[j], fixed).contains(row)
            implies fixed.contains(
        row,
    ) by {
        lemma_settled_pass(rules, rules.len() as int, j, fixed);
    }
}

/// No pass makes a working set hold a tuple twice.
pub proof fn lemma_pass_distinct(rules: Seq<RuleInput>, k: int, working: Seq<Row>)
    requires
        working.no_duplicates(),
    ensures
        pass_upto(rules, k, working).no_duplicates(),
    decreases k,
{
    if k > 0 {
        let before = pass_upto(rules, k - 1, working);
        lemma_pass_distinct(rules, k - 1, working);
        lemma_absorb(before, rule_rows(rules[k - 1], before));
    }
}

/// No stage holds a tuple twice.
pub proof fn lemma_stage_distinct(rules: Seq<RuleInput>, base: Seq<Row>, n: nat)
    ensures
        stage(rules, base, n).no_duplicates(),
    decreases n,
{
    if n == 0 {
        lemma_absorb(Seq::empty(), base);
    } else {
        lemma_stage_distinct(rules, base, (n - 1) as nat);
        lemma_pass_distinct(rules, rules.len() as int, stage(rules, base, (n - 1) as nat));
    }
}

/// The first rules of a pass do the same to a working set whatever rules
/// come after them.
pub proof fn lemma_pass_prefix(rules: Seq<RuleInput>, others: Seq<RuleInput>, k: int, working: Seq<Row>)
    requires
        0 <= k <= rules.len(),
        k <= others.len(),
        forall|j: int| 0 <= j < k ==> rules[j] == others[j],
    ensures
        pass_upto(rules, k, working) == pass_upto(others, k, working),
        rules_rows(rules, k, working) == rules_rows(others, k, working),
    decreases k,
{
    if k > 0 {
        lemma_pass_prefix(rules, others, k - 1, working);
    }
}

/// The frames of a body bind the body's variables to atoms of the working
/// set or of the tuples that the body's terms bring.
pub proof fn lemma_body_within(terms: Seq<TermInput>, working: Seq<Row>, domain: Set<Text>)
    requires
        terms.len() > 0,
        rows_among(working, domain),
        forall|j: int|
            0 <= j < terms.len() && (#[trigger] terms[j]).rows is Some ==> rows_among(
                terms[j].rows->Some_0,
                domain,
            ),
    ensures
        frames_within(body_frames(terms, working), terms_variables(terms), domain),
    decreases terms.len(),
{
    let rows = match terms[0].rows {
        Some(rows) => rows,
        None => working,
    };
    lemma_match_all_within(terms[0].params, rows, domain);
    if terms.len() > 1 {
        let rest = terms.drop_first();
        assert forall|j: int| 0 <= j < rest.len() && (#[trigger] rest[j]).rows is Some
            implies rows_among(
            rest[j].rows->Some_0,
            domain,
        ) by {
            assert(rest[j] == terms[j + 1]);
        }
        lemma_body_within(rest, working, domain);
        lemma_joins_within(
            term_frames(terms[0], working),
            body_frames(rest, working),
            pattern_variables(terms[0].params),
            terms_variables(rest),
            domain,
        );
    }
}

/// The tuples of a rule whose head is bound by its body are as long as the
/// head is wide, and made of atoms of the working set or of the tuples
/// that the body's terms bring.
pub proof fn lemma_rule_within(rule: RuleInput, working: Seq<Row>, domain: Set<Text>)
    requires
        rule.terms.len() > 0,
        rows_among(working, domain),
        forall|j: int|
            0 <= j < rule.terms.len() && (#[trigger] rule.terms[j]).rows is Some ==> rows_among(
                rule.terms[j].rows->Some_0,
                domain,
            ),
        forall|k: int|
            0 <= k < rule.formals.len() ==> terms_variables(rule.terms).contains(
                #[trigger] rule.formals[k],
            ),
    ensures
        rows_among(rule_rows(rule, working), domain),
        forall|i: int|
            0 <= i < rule_rows(rule, working).len()
                ==> (#[trigger] rule_rows(rule, working)[i]).len()
                == rule.formals.len(),
{
    lemma_body_within(rule.terms, working, domain);
    lemma_projections_within(
        rule.formals,
        body_frames(rule.terms, working),
        terms_variables(rule.terms),
        domain,
    );
}


/// Every stage lies within a set that holds the base tuples and whatever
/// a rule yields over tuples of the set.
pub proof fn lemma_stage_within(rules: Seq<RuleInput>, base: Seq<Row>, n: nat, closed: Set<Row>)
    requires
        forall|row: Row| base.contains(row) ==> closed.contains(row),
        forall|j: int, working: Seq<Row>, row: Row|
            0 <= j < rules.len() && (forall|x: Row| working.contains(x) ==> closed.contains(x))
                && #[trigger] rule_rows(rules[j], working).contains(row) ==> closed.contains(row),
    ensures
        forall|row: Row| #[trigger] stage(rules, base, n).contains(row) ==> closed.contains(row),
    decreases n,
{
    if n == 0 {
        lemma_absorb(Seq::empty(), base);
    } else {
        lemma_stage_within(rules, base, (n - 1) as nat, closed);
        lemma_pass_within(rules, rules.len() as int, stage(rules, base, (n - 1) as nat), closed);
    }
}

/// A pass over tuples of a set that holds whatever a rule yields over its
/// tuples stays within the set.
pub proof fn lemma_pass_within(rules: Seq<RuleInput>, k: int, working: Seq<Row>, closed: Set<Row>)
    requires
        0 <= k <= rules.len(),
        forall|row: Row| working.contains(row) ==> closed.contains(row),
        forall|j: int, working: Seq<Row>, row: Row|
            0 <= j < rules.len() && (forall|x: Row| working.contains(x) ==> closed.contains(x))
                && #[trigger] rule_rows(rules[j], working).contains(row) ==> closed.contains(row),
    ensures
        forall|row: Row| #[trigger] pass_upto(rules, k, working).contains(row)
            ==> closed.contains(row),
    decreases k,
{
    if k > 0 {
        let before = pass_upto(rules, k - 1, working);
        lemma_pass_within(rules, k - 1, working, closed);
        lemma_absorb(before, rule_rows(rules[k - 1], before));
        assert forall|row: Row| #[trigger] pass_upto(rules, k, working).contains(row)
            implies closed.contains(
            row,
        ) by {
            if !before.contains(row) {
                assert(rule_rows(rules[k - 1], before).contains(row));
            }
        }
    }
}


/// The body of the rule has a term, and binds every variable of the head.
pub open spec fn safe_rule(rule: RuleInput) -> bool {
    &&& rule.terms.len() > 0
    &&& forall|k: int|
        0 <= k < rule.formals.len()
            ==> terms_variables(rule.terms).contains(#[trigger] rule.formals[k])
}

/// The atoms of the tuples that the first `k` terms bring.
pub open spec fn terms_atoms(terms: Seq<TermInput>, k: int) -> Set<Text>
    decreases k,
{
    if k <= 0 {
        Set::empty()
    } else {
        terms_atoms(terms, k - 1).union(
            match terms[k - 1].rows {
                Some(rows) => atoms_of(rows),
                None => Set::empty(),
            },
        )
    }
}

/// The atoms of the tuples that the terms of the first `k` rules bring.
pub open spec fn rules_atoms(rules: Seq<RuleInput>, k: int) -> Set<Text>
    decreases k,
{
    if k <= 0 {
        Set::empty()
    } else {
        rules_atoms(rules, k - 1).union(terms_atoms(rules[k - 1].terms, rules[k - 1].terms.len() as int))
    }
}

/// The greatest number of columns in the head of one of the first `k` rules.
pub open spec fn widest_head(rules: Seq<RuleInput>, k: int) -> nat
    decreases k,
{
    if k <= 0 {
        0
    } else if rules[k - 1].formals.len() > widest_head(rules, k - 1) {
        rules[k - 1].formals.len()
    } else {
        widest_head(rules, k - 1)
    }
}

/// The atoms that the terms bring are finitely many, and hold the atoms of
/// each term's tuples.
pub proof fn lemma_terms_atoms(terms: Seq<TermInput>, k: int, j: int)
    requires
        0 <= j < k <= terms.len(),
    ensures
        terms_atoms(terms, k).finite(),
        terms[j].rows is Some ==> atoms_of(terms[j].rows->Some_0).subset_of(terms_atoms(terms, k)),
    decreases k,
{
    lemma_terms_atoms_finite(terms, k);
    if j < k - 1 {
        lemma_terms_atoms(terms, k - 1, j);
    }
}

pub proof fn lemma_terms_atoms_finite(terms: Seq<TermInput>, k: int)
    ensures
        terms_atoms(terms, k).finite(),
    decreases k,
{
    if k > 0 {
        lemma_terms_atoms_finite(terms, k - 1);
        let last = match terms[k - 1].rows {
            Some(rows) => atoms_of(rows),
            None => Set::empty(),
        };
        match terms[k - 1].rows {
            Some(rows) => {
                vstd::seq_lib::seq_to_set_is_finite(spread(rows));
            },
            None => {},
        }
        vstd::set_lib::lemma_set_union_finite_iff(terms_atoms(terms, k - 1), last);
    }
}

/// The atoms that the rules bring are finitely many, and hold those of each
/// rule; and no head is wider than the widest.
pub proof fn lemma_rules_atoms(rules: Seq<RuleInput>, k: int, j: int)
    requires
        0 <= j < k <= rules.len(),
    ensures
        rules_atoms(rules, k).finite(),
        terms_atoms(rules[j].terms, rules[j].terms.len() as int).subset_of(rules_atoms(rules, k)),
        rules[j].formals.len() <= widest_head(rules, k),
    decreases k,
{
    lemma_rules_atoms_finite(rules, k);
    if j < k - 1 {
        lemma_rules_atoms(rules, k - 1, j);
    }
}

pub proof fn lemma_rules_atoms_finite(rules: Seq<RuleInput>, k: int)
    ensures
        rules_atoms(rules, k).finite(),
    decreases k,
{
    if k > 0 {
        lemma_rules_atoms_finite(rules, k - 1);
        lemma_terms_atoms_finite(rules[k - 1].terms, rules[k - 1].terms.len() as int);
        vstd::set_lib::lemma_set_union_finite_iff(
            rules_atoms(rules, k - 1),
            terms_atoms(rules[k - 1].terms, rules[k - 1].terms.len() as int),
        );
    }
}

/// All that the passes can ever hold: the tuples, no longer than the
/// longest base tuple and the widest head together, of atoms of the base
/// tuples and of the tuples that the rules' terms bring.
pub open spec fn reachable(rules: Seq<RuleInput>, base: Seq<Row>) -> Set<Row> {
    rows_within(
        atoms_of(absorb(Seq::empty(), base)).union(rules_atoms(rules, rules.len() as int)),
        longest(absorb(Seq::empty(), base)) + widest_head(rules, rules.len() as int),
    )
}

/// A pass over tuples that can be reached yields tuples that can be reached.
pub proof fn lemma_pass_reachable(rules: Seq<RuleInput>, base: Seq<Row>, k: int, working: Seq<Row>)
    requires
        0 <= k <= rules.len(),
        forall|j: int| 0 <= j < rules.len() ==> safe_rule(#[trigger] rules[j]),
        forall|i: int| 0 <= i < working.len()
            ==> reachable(rules, base).contains(#[trigger] working[i]),
    ensures
        forall|i: int|
            0 <= i < pass_upto(rules, k, working).len() ==> reachable(rules, base).contains(
                #[trigger] pass_upto(rules, k, working)[i],
            ),
    decreases k,
{
    if k > 0 {
        let before = pass_upto(rules, k - 1, working);
        let after = pass_upto(rules, k, working);
        let rule = rules[k - 1];
        let first = absorb(Seq::empty(), base);
        let domain = atoms_of(first).union(rules_atoms(rules, rules.len() as int));
        lemma_pass_reachable(rules, base, k - 1, working);
        assert(safe_rule(rule));
        assert(rows_among(before, domain)) by {
            assert forall|a: int, b: int|
                0 <= a < before.len() && 0 <= b < before[a].len() implies domain.contains(
                #[trigger] before[a][b],
            ) by {
                assert(reachable(rules, base).contains(before[a]));
            }
        }
        lemma_rules_atoms(rules, rules.len() as int, k - 1);
        assert forall|j: int|
            0 <= j < rule.terms.len() && (#[trigger] rule.terms[j]).rows is Some implies rows_among(
            rule.terms[j].rows->Some_0,
            domain,
        ) by {
            let rows = rule.terms[j].rows->Some_0;
            lemma_terms_atoms(rule.terms, rule.terms.len() as int, j);
            assert forall|a: int, b: int|
                0 <= a < rows.len() && 0 <= b < rows[a].len() implies domain.contains(
                #[trigger] rows[a][b],
            ) by {
                lemma_atoms_of(rows, a, b);
            }
        }
        lemma_rule_within(rule, before, domain);
        let yielded = rule_rows(rule, before);
        lemma_absorb(before, yielded);
        assert forall|i: int| 0 <= i < after.len() implies reachable(rules, base).contains(
            #[trigger] after[i],
        ) by {
            assert(after.contains(after[i]));
            if before.contains(after[i]) {
                let at = before.index_of(after[i]);
                assert(reachable(rules, base).contains(before[at]));
            } else {
                let at = yielded.index_of(after[i]);
                assert(yielded[at].len() == rule.formals.len());
            }
        }
    }
}

/// Every stage holds only tuples that can be reached.
pub proof fn lemma_stage_reachable(rules: Seq<RuleInput>, base: Seq<Row>, n: nat)
    requires
        forall|j: int| 0 <= j < rules.len() ==> safe_rule(#[trigger] rules[j]),
    ensures
        forall|i: int|
            0 <= i < stage(rules, base, n).len() ==> reachable(rules, base).contains(
                #[trigger] stage(rules, base, n)[i],
            ),
    decreases n,
{
    if n == 0 {
        let first = absorb(Seq::empty(), base);
        assert forall|i: int| 0 <= i < first.len() implies reachable(rules, base).contains(
            #[trigger] first[i],
        ) by {
            lemma_longest(first, i);
            assert forall|k: int| 0 <= k < first[i].len() implies atoms_of(first).contains(
                #[trigger] first[i][k],
            ) by {
                lemma_atoms_of(first, i, k);
            }
        }
    } else {
        lemma_stage_reachable(rules, base, (n - 1) as nat);
        lemma_pass_reachable(rules, base, rules.len() as int, stage(rules, base, (n - 1) as nat));
    }
}

/// While no pass has added nothing, each pass has added a tuple.
pub proof fn lemma_stages_grow(rules: Seq<RuleInput>, base: Seq<Row>, n: nat)
    ensures
        (exists|m: nat| m < n && settled(rules, base, m)) || stage(rules, base, n).len() >= n,
    decreases n,
{
    if n > 0 {
        let earlier = (n - 1) as nat;
        lemma_stages_grow(rules, base, earlier);
        if exists|m: nat| m < earlier && settled(rules, base, m) {
            let m = choose|m: nat| m < earlier && settled(rules, base, m);
            assert(m < n && settled(rules, base, m));
        } else if settled(rules, base, earlier) {
            assert(earlier < n && settled(rules, base, earlier));
        } else {
            let before = stage(rules, base, earlier);
            let after = stage(rules, base, n);
            lemma_pass_extends(rules, rules.len() as int, before);
            if after.len() == before.len() {
                assert(after.take(before.len() as int) =~= after);
                assert(after == before);
            }
        }
    }
}

/// The passes over rules whose bodies bind their heads come to an end.
pub proof fn lemma_passes_end(rules: Seq<RuleInput>, base: Seq<Row>)
    requires
        forall|j: int| 0 <= j < rules.len() ==> safe_rule(#[trigger] rules[j]),
    ensures
        exists|n: nat| settled(rules, base, n),
{
    let first = absorb(Seq::empty(), base);
    let domain = atoms_of(first).union(rules_atoms(rules, rules.len() as int));
    let bound = longest(first) + widest_head(rules, rules.len() as int);
    let universe = reachable(rules, base);
    vstd::seq_lib::seq_to_set_is_finite(spread(first));
    lemma_rules_atoms_finite(rules, rules.len() as int);
    vstd::set_lib::lemma_set_union_finite_iff(atoms_of(first), rules_atoms(rules, rules.len() as int));
    lemma_rows_within_finite(domain, bound);
    let n = universe.len() + 1;
    lemma_stages_grow(rules, base, n);
    if !(exists|m: nat| m < n && settled(rules, base, m)) {
        lemma_stage_reachable(rules, base, n);
        lemma_stage_distinct(rules, base, n);
        lemma_fits(stage(rules, base, n), universe);
    } else {
        let m = choose|m: nat| m < n && settled(rules, base, m);
        assert(settled(rules, base, m));
    }
}

} // verus!
