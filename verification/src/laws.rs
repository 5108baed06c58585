//! What holds of the evaluator as a whole, proved from the contracts and
//! definitions of its parts.

use crate::ast::{AtomicTermSpec, CompoundTermSpec, TermSpec};
use crate::cache::ViewCache;

use crate::cache::reaches;
use crate::eval::{
    inputs_spec, lemma_inputs_are_safe, lemma_scan_spec, planned, query_spec, scan_spec, view_spec,
};
use crate::storage::ViewRuleSpec;
use crate::plan::{extended, FramePlan};
use crate::update::invalidated;
use crate::frame::{
    agree, match_spec, merge_spec, pattern_binding, pattern_matches, pattern_variables, stands_at,
    FrameSpec,
};
use crate::fixpoint::{
    body_frames, fixpoint, lemma_fixpoint, lemma_fixpoint_settled, lemma_passes_end,
    lemma_stage_within, rule_rows, safe_rule, settled, term_frames, RuleInput, TermInput,
};
use crate::plan::{joins, match_all, merges, project, projections};
use crate::storage::{aligned, chunks, lemma_chunks_append, Relation, StorageEngine, Table};
use crate::text::{Row, Text};
use vstd::prelude::*;

verus! {

/// The pattern that is made of the given variables, in their order.
pub open spec fn variables_pattern(variables: Seq<Text>) -> Seq<AtomicTermSpec> {
    Seq::new(variables.len(), |i: int| AtomicTermSpec::Variable(variables[i]))
}

/// Every row that a flat list holds has as many atoms as the table has
/// columns.
pub proof fn lemma_chunks_width(flat: Seq<Text>, arity: nat, i: int)
    requires
        0 <= i < chunks(flat, arity).len(),
    ensures
        chunks(flat, arity)[i].len() == arity,
    decreases flat.len(),
{
    if i > 0 {
        lemma_chunks_width(flat.skip(arity as int), arity, i - 1);
    }
}

/// A tuple of as many columns as a pattern of distinct variables has
/// matches the pattern, and the frame that the match gives holds the
/// tuple's atoms under the variables, column by column.
pub proof fn lemma_variables_match(variables: Seq<Text>, row: Row)
    requires
        variables.no_duplicates(),
        variables.len() == row.len(),
    ensures
        match_spec(variables_pattern(variables), row) is Some,
        project(variables, match_spec(variables_pattern(variables), row)->Some_0) == row,
{
    let pattern = variables_pattern(variables);
    assert(pattern_matches(pattern, row)) by {
        assert forall|i: int, j: int|
            0 <= i < pattern.len() && 0 <= j < pattern.len() && pattern[i].is_variable()
                && pattern[i]
                == pattern[j] implies row[i] == row[j] by {
            assert(variables[i] == variables[j]);
        }
    }
    let frame = pattern_binding(pattern, row);
    assert forall|i: int| 0 <= i < variables.len() implies frame[variables[i]] == row[i] by {
        assert(stands_at(pattern, variables[i], i));
        let k = choose|k: int| stands_at(pattern, variables[i], k);
        assert(variables[k] == variables[i]);
    }
    assert(project(variables, frame) =~= row);
}

/// The frames of a list of tuples that all match are as many as the tuples,
/// and the frame of each tuple stands at the tuple's place.
pub proof fn lemma_all_match(pattern: Seq<AtomicTermSpec>, rows: Seq<Row>)
    requires
        forall|i: int| 0 <= i < rows.len() ==> match_spec(pattern, #[trigger] rows[i]) is Some,
    ensures
        match_all(pattern, rows).len() == rows.len(),
        forall|i: int|
            0 <= i < rows.len() ==> Some(#[trigger] match_all(pattern, rows)[i]) == match_spec(
                pattern,
                rows[i],
            ),
    decreases rows.len(),
{
    if rows.len() > 0 {
        let rest = rows.drop_first();
        assert forall|i: int| 0 <= i < rest.len()
            implies match_spec(pattern, #[trigger] rest[i]) is Some by {
            assert(rest[i] == rows[i + 1]);
        }
        lemma_all_match(pattern, rest);
        assert(match_spec(pattern, rows[0]) is Some);
        assert forall|i: int| 0 <= i < rows.len() implies Some(
            #[trigger] match_all(pattern, rows)[i],
        ) == match_spec(pattern, rows[i]) by {
            if i > 0 {
                assert(match_all(pattern, rows)[i] == match_all(pattern, rest)[i - 1]);
                assert(rest[i - 1] == rows[i]);
            }
        }
    }
}

/// A query of a table with one distinct variable for each column, while the
/// cache keeps nothing of the table, yields one frame for each row, in the
/// order of the rows, and each frame holds its row's atoms under the
/// variables, column by column.
pub proof fn law_table_query_yields_rows(
    db: StorageEngine,
    cache: ViewCache,
    name: Text,
    table: Table,
    variables: Seq<Text>,
)
    requires
        db.lookup(name) == Some(Relation::Extension(table)),
        cache.contents(name) is None,
        variables.no_duplicates(),
        variables.len() == table.width(),
    ensures
        ({
            let term = TermSpec::Compound(
                CompoundTermSpec { relation: name, params: variables_pattern(variables) },
            );
            let answer = query_spec(db, cache, term, Seq::empty());
            &&& answer is Ok
            &&& answer->Ok_0.len() == table.rows().len()
            &&& forall|i: int|
                0 <= i < table.rows().len() ==> project(variables, #[trigger] answer->Ok_0[i])
                    == table.rows()[i]
        }),
{
    let pattern = variables_pattern(variables);
    let rows = table.rows();
    lemma_scan_spec(db, cache, name, Seq::empty());
    assert forall|i: int| 0 <= i < rows.len()
        implies match_spec(pattern, #[trigger] rows[i]) is Some by {
        lemma_chunks_width(table.flat(), table.width(), i);
        lemma_variables_match(variables, rows[i]);
    }
    lemma_all_match(pattern, rows);
    assert forall|i: int| 0 <= i < rows.len() implies project(
        variables,
        #[trigger] match_all(pattern, rows)[i],
    ) == rows[i] by {
        lemma_chunks_width(table.flat(), table.width(), i);
        lemma_variables_match(variables, rows[i]);
    }
}

/// A frame that matching gives never contradicts the pattern: it binds
/// every variable of the pattern to the tuple's atom at each of the
/// variable's positions, the tuple holds each atom of the pattern at the
/// atom's position, and the frame binds nothing else.
pub proof fn law_match_agrees_with_pattern(pattern: Seq<AtomicTermSpec>, row: Row, frame: FrameSpec)
    requires
        match_spec(pattern, row) == Some(frame),
    ensures
        pattern.len() == row.len(),
        forall|v: Text, i: int|
            stands_at(pattern, v, i) ==> frame.contains_key(v) && frame[v] == row[i],
        forall|i: int|
            0 <= i < pattern.len() && !(#[trigger] pattern[i]).is_variable() ==> pattern[i].text()
                == row[i],
        frame.dom() == pattern_variables(pattern),
{
    assert forall|v: Text, i: int| stands_at(pattern, v, i) implies frame.contains_key(v)
        && frame[v]
        == row[i] by {
        let k = choose|k: int| stands_at(pattern, v, k);
        assert(pattern[k] == pattern[i]);
        assert(pattern[k].is_variable());
    }
    assert(frame.dom() =~= pattern_variables(pattern));
}

/// Every frame that a pattern match yields is the match of one of the
/// tuples that it was given.
pub proof fn law_matches_come_from_tuples(pattern: Seq<AtomicTermSpec>, rows: Seq<Row>, k: int)
    requires
        0 <= k < match_all(pattern, rows).len(),
    ensures
        exists|i: int|
            0 <= i < rows.len() && match_spec(pattern, #[trigger] rows[i]) == Some(
                match_all(pattern, rows)[k],
            ),
    decreases rows.len(),
{
    let rest = rows.drop_first();
    match match_spec(pattern, rows[0]) {
        Some(f) => {
            if k == 0 {
                assert(match_spec(pattern, rows[0]) == Some(match_all(pattern, rows)[k]));
            } else {
                law_matches_come_from_tuples(pattern, rest, k - 1);
                let i = choose|i: int|
                    0 <= i < rest.len() && match_spec(pattern, #[trigger] rest[i]) == Some(
                        match_all(pattern, rest)[k - 1],
                    );
                assert(rest[i] == rows[i + 1]);
                assert(match_spec(pattern, rows[i + 1]) == Some(match_all(pattern, rows)[k]));
            }
        },
        None => {
            law_matches_come_from_tuples(pattern, rest, k);
            let i = choose|i: int|
                0 <= i < rest.len() && match_spec(pattern, #[trigger] rest[i]) == Some(
                    match_all(pattern, rest)[k],
                );
            assert(rest[i] == rows[i + 1]);
            assert(match_spec(pattern, rows[i + 1]) == Some(match_all(pattern, rows)[k]));
        },
    }
}

/// A merge extends both of the frames that it was made of, and binds
/// nothing that neither binds. Two frames that bind a variable differently
/// have no merge.
pub proof fn law_merge_extends_both(f1: FrameSpec, f2: FrameSpec)
    ensures
        match merge_spec(f1, f2) {
            Some(m) => f1.submap_of(m) && f2.submap_of(m) && m.dom() == f1.dom().union(f2.dom()),
            None => exists|v: Text| f1.contains_key(v) && f2.contains_key(v) && f1[v] != f2[v],
        },
{
    match merge_spec(f1, f2) {
        Some(m) => {
            assert(agree(f1, f2));
            assert(m.dom() =~= f1.dom().union(f2.dom()));
            assert forall|v: Text| f1.contains_key(v) implies #[trigger] m.contains_key(v) && m[v]
                == f1[v] by {
                if f2.contains_key(v) {
                    assert(f1[v] == f2[v]);
                }
            }
        },
        None => {},
    }
}

/// Every frame that the merges of one frame with a list yield is the merge
/// of that frame with a frame of the list.
pub proof fn law_merges_come_from_frames(left: FrameSpec, rights: Seq<FrameSpec>, k: int)
    requires
        0 <= k < merges(left, rights).len(),
    ensures
        exists|j: int|
            0 <= j < rights.len() && merge_spec(left, #[trigger] rights[j]) == Some(
                merges(left, rights)[k],
            ),
    decreases rights.len(),
{
    let rest = rights.drop_first();
    match merge_spec(left, rights[0]) {
        Some(f) => {
            if k == 0 {
                assert(merge_spec(left, rights[0]) == Some(merges(left, rights)[k]));
            } else {
                law_merges_come_from_frames(left, rest, k - 1);
                let j = choose|j: int|
                    0 <= j < rest.len() && merge_spec(left, #[trigger] rest[j]) == Some(
                        merges(left, rest)[k - 1],
                    );
                assert(rest[j] == rights[j + 1]);
                assert(merge_spec(left, rights[j + 1]) == Some(merges(left, rights)[k]));
            }
        },
        None => {
            law_merges_come_from_frames(left, rest, k);
            let j = choose|j: int|
                0 <= j < rest.len() && merge_spec(left, #[trigger] rest[j]) == Some(
                    merges(left, rest)[k],
                );
            assert(rest[j] == rights[j + 1]);
            assert(merge_spec(left, rights[j + 1]) == Some(merges(left, rights)[k]));
        },
    }
}

/// Every frame that a join yields is the merge of a frame of its left side
/// with a frame of its right side, and so extends both.
pub proof fn law_join_extends_inputs(lefts: Seq<FrameSpec>, rights: Seq<FrameSpec>, k: int)
    requires
        0 <= k < joins(lefts, rights).len(),
    ensures
        exists|i: int, j: int|
            0 <= i < lefts.len() && 0 <= j < rights.len() && merge_spec(
                #[trigger] lefts[i],
                #[trigger] rights[j],
            ) == Some(joins(lefts, rights)[k]) && lefts[i].submap_of(joins(lefts, rights)[k])
                && rights[j].submap_of(joins(lefts, rights)[k]),
    decreases lefts.len(),
{
    let first = merges(lefts[0], rights);
    let rest = lefts.drop_first();
    let target = joins(lefts, rights)[k];
    if k < first.len() {
        assert(target == first[k]);
        law_merges_come_from_frames(lefts[0], rights, k);
        let j = choose|j: int|
            0 <= j < rights.len() && merge_spec(lefts[0], #[trigger] rights[j]) == Some(first[k]);
        law_merge_extends_both(lefts[0], rights[j]);
        assert(0 <= 0 < lefts.len() && 0 <= j < rights.len() && merge_spec(lefts[0], rights[j])
            == Some(target) && lefts[0].submap_of(target) && rights[j].submap_of(target));
    } else {
        assert(target == joins(rest, rights)[k - first.len()]);
        law_join_extends_inputs(rest, rights, k - first.len());
        let (i, j) = choose|i: int, j: int|
            0 <= i < rest.len() && 0 <= j < rights.len() && merge_spec(
                #[trigger] rest[i],
                #[trigger] rights[j],
            ) == Some(target) && rest[i].submap_of(target) && rights[j].submap_of(target);
        assert(rest[i] == lefts[i + 1]);
        assert(0 <= i + 1 < lefts.len() && 0 <= j < rights.len() && merge_spec(
            lefts[i + 1],
            rights[j],
        ) == Some(target) && lefts[i + 1].submap_of(target) && rights[j].submap_of(target));
    }
}

/// A fact that was asserted into a table of at least one column is the
/// table's last row afterwards, behind the rows that were there.
pub proof fn law_asserted_fact_is_last_row(before: Seq<Text>, fact: Row)
    requires
        aligned(before, fact.len()),
        fact.len() > 0,
    ensures
        chunks(before + fact, fact.len()) == chunks(before, fact.len()).push(fact),
{
    lemma_chunks_append(before, fact, fact.len());
}

/// After an assertion touched a relation, the cache keeps nothing of the
/// relation nor of any relation that depends on it, directly or through
/// others; so a query of such a relation is answered from the database:
/// from the rows of the table or the rules of the view.
pub proof fn law_invalidated_relations_are_recomputed(
    db: StorageEngine,
    before: ViewCache,
    after: ViewCache,
    touched: Text,
    name: Text,
    stack: Seq<Text>,
)
    requires
        invalidated(before, after, touched),
        reaches(before.dependencies(), touched, name),
    ensures
        after.contents(name) is None,
        scan_spec(db, after, name, stack) == match db.lookup(name) {
            None => Err(crate::eval::unknown_relation(name)),
            Some(Relation::Extension(t)) => Ok(t.rows()),
            Some(Relation::Intension(v)) => view_spec(db, after, name, v@, stack),
        },
{
    lemma_scan_spec(db, after, name, stack);
}

/// A plan that was set back to its start yields what a plan yields that
/// was just made for the same query: whatever stood in between, what is
/// to come is what the plan yields from its start.
pub proof fn law_reset_replays(made: FramePlan<'_>, moved: FramePlan<'_>)
    requires
        made.remaining() == made.items(),
        moved.follows(made),
        moved.remaining() == moved.items(),
    ensures
        moved.remaining() == made.remaining(),
{
}

/// The frames of a list of tuples, followed by those of another, are the
/// frames of the two lists together.
pub proof fn lemma_match_all_concat(pattern: Seq<AtomicTermSpec>, a: Seq<Row>, b: Seq<Row>)
    ensures
        match_all(pattern, a + b) == match_all(pattern, a) + match_all(pattern, b),
    decreases a.len(),
{
    if a.len() == 0 {
        assert(a + b =~= b);
        assert(match_all(pattern, a) + match_all(pattern, b) =~= match_all(pattern, b));
    } else {
        lemma_match_all_concat(pattern, a.drop_first(), b);
        assert((a + b).drop_first() =~= a.drop_first() + b);
        assert((a + b)[0] == a[0]);
        let rest = match_all(pattern, a.drop_first());
        match match_spec(pattern, a[0]) {
            Some(f) => {
                assert((seq![f] + rest) + match_all(pattern, b) =~= seq![f] + (rest + match_all(
                    pattern,
                    b,
                )));
            },
            None => {},
        }
    }
}

/// Two lists that hold the same tuples equally often give the same frames
/// equally often.
pub proof fn lemma_match_all_multiset(pattern: Seq<AtomicTermSpec>, a: Seq<Row>, b: Seq<Row>)
    requires
        a.to_multiset() == b.to_multiset(),
    ensures
        match_all(pattern, a).to_multiset() == match_all(pattern, b).to_multiset(),
    decreases a.len(),
{
    vstd::seq_lib::to_multiset_len(a);
    vstd::seq_lib::to_multiset_len(b);
    if a.len() == 0 {
        assert(b.len() == 0);
        assert(a =~= b);
    } else {
        let x = a[0];
        assert(a.contains(x));
        vstd::seq_lib::to_multiset_contains(a, x);
        vstd::seq_lib::to_multiset_contains(b, x);
        let k = b.index_of(x);
        let a_rest = a.remove(0);
        let b_rest = b.remove(k);
        vstd::seq_lib::to_multiset_remove(a, 0);
        vstd::seq_lib::to_multiset_remove(b, k);
        lemma_match_all_multiset(pattern, a_rest, b_rest);
        let front = b.take(k);
        let back = b.skip(k + 1);
        let one = seq![x];
        assert(a =~= one + a_rest);
        assert(b =~= (front + one) + back);
        assert(b_rest =~= front + back);
        lemma_match_all_concat(pattern, one, a_rest);
        lemma_match_all_concat(pattern, front + one, back);
        lemma_match_all_concat(pattern, front, one);
        lemma_match_all_concat(pattern, front, back);
        let mf = match_all(pattern, front);
        let mo = match_all(pattern, one);
        let mb = match_all(pattern, back);
        let mr = match_all(pattern, a_rest);
        vstd::seq_lib::lemma_multiset_commutative(mo, mr);
        vstd::seq_lib::lemma_multiset_commutative(mf + mo, mb);
        vstd::seq_lib::lemma_multiset_commutative(mf, mo);
        vstd::seq_lib::lemma_multiset_commutative(mf, mb);
        assert(mf.to_multiset().add(mo.to_multiset()).add(mb.to_multiset()) =~= mo.to_multiset().add(
            mf.to_multiset().add(mb.to_multiset()),
        ));
    }
}

/// Two lists without repetition that hold the same tuples hold them
/// equally often.
pub proof fn lemma_same_rows(a: Seq<Row>, b: Seq<Row>)
    requires
        a.no_duplicates(),
        b.no_duplicates(),
        forall|x: Row| a.contains(x) <==> b.contains(x),
    ensures
        a.to_multiset() == b.to_multiset(),
{
    a.lemma_multiset_has_no_duplicates();
    b.lemma_multiset_has_no_duplicates();
    assert forall|x: Row| a.to_multiset().count(x) == b.to_multiset().count(x) by {
        vstd::seq_lib::to_multiset_contains(a, x);
        vstd::seq_lib::to_multiset_contains(b, x);
    }
    assert(a.to_multiset() =~= b.to_multiset());
}

/// A query of a view that was planned afresh and whose plan was run to its
/// end is answered from the cache when it is asked again, with the same
/// frames equally often: provided that the view has at least one tuple and
/// yields none twice.
///
/// `made` is the plan as `query` returned it over `cache_before`; `spent`
/// and `cache_after` are the plan and the cache after `next` returned
/// `None`, as `run` leaves them.
pub proof fn law_exhausted_view_is_answered_alike(
    db: StorageEngine,
    cache_before: ViewCache,
    cache_after: ViewCache,
    term: TermSpec,
    made: FramePlan<'_>,
    spent: FramePlan<'_>,
)
    requires
        planned(Ok(made), db, cache_before, term, Seq::empty()),
        cache_before.contents(term.relation()->Some_0) is None,
        db.lookup(term.relation()->Some_0) is Some,
        db.lookup(term.relation()->Some_0)->Some_0 is Intension,
        spent.follows(made),
        spent.tuples_left().len() == 0,
        spent.covered(cache_after),
        extended(cache_before, cache_after, made.cached_names(), made.fed_rows()),
        scan_spec(db, cache_before, term.relation()->Some_0, Seq::empty())->Ok_0.len() > 0,
        scan_spec(db, cache_before, term.relation()->Some_0, Seq::empty())->Ok_0.no_duplicates(),
    ensures
        query_spec(db, cache_after, term, Seq::empty()) is Ok,
        query_spec(db, cache_after, term, Seq::empty())->Ok_0.to_multiset() == query_spec(
            db,
            cache_before,
            term,
            Seq::empty(),
        )->Ok_0.to_multiset(),
{
    let name = term.relation()->Some_0;
    let rows = scan_spec(db, cache_before, name, Seq::empty())->Ok_0;
    assert(spent.label() == Some(name));
    assert(spent.tuples() == rows);
    assert forall|row: Row| rows.contains(row) implies cache_after.holds(name, row) by {
        assert(spent.tuples().contains(row));
        assert(!spent.tuples_left().contains(row));
    }
    assert(rows.contains(rows[0]));
    assert(cache_after.holds(name, rows[0]));
    let kept = cache_after.contents(name)->Some_0;
    assert forall|row: Row| kept.contains(row) implies rows.contains(row) by {
        assert(cache_after.holds(name, row));
        assert(!cache_before.holds(name, row));
        assert(made.fed_rows().contains((name, row)));
    }
    assert(kept.no_duplicates()) by {
        let i = cache_after.cached().index_of(name);
        assert(cache_after.kept()[i].no_duplicates());
    }
    lemma_same_rows(kept, rows);
    lemma_scan_spec(db, cache_after, name, Seq::empty());
    lemma_match_all_multiset(term.params(), kept, rows);
}


/// The match of each tuple of a list is among the frames of the list.
pub proof fn lemma_match_is_yielded(pattern: Seq<AtomicTermSpec>, rows: Seq<Row>, i: int)
    requires
        0 <= i < rows.len(),
        match_spec(pattern, rows[i]) is Some,
    ensures
        match_all(pattern, rows).contains(match_spec(pattern, rows[i])->Some_0),
    decreases rows.len(),
{
    let rest = rows.drop_first();
    let all = match_all(pattern, rows);
    let f = match_spec(pattern, rows[i])->Some_0;
    if i == 0 {
        assert(all[0] == f);
    } else {
        lemma_match_is_yielded(pattern, rest, i - 1);
        assert(rest[i - 1] == rows[i]);
        let k = match_all(pattern, rest).index_of(f);
        match match_spec(pattern, rows[0]) {
            Some(_) => {
                assert(all[k + 1] == f);
            },
            None => {
                assert(all[k] == f);
            },
        }
    }
}

/// The merge of a frame with each frame of a list is among the merges.
pub proof fn lemma_merge_is_yielded(left: FrameSpec, rights: Seq<FrameSpec>, j: int)
    requires
        0 <= j < rights.len(),
        merge_spec(left, rights[j]) is Some,
    ensures
        merges(left, rights).contains(merge_spec(left, rights[j])->Some_0),
    decreases rights.len(),
{
    let rest = rights.drop_first();
    let all = merges(left, rights);
    let f = merge_spec(left, rights[j])->Some_0;
    if j == 0 {
        assert(all[0] == f);
    } else {
        lemma_merge_is_yielded(left, rest, j - 1);
        assert(rest[j - 1] == rights[j]);
        let k = merges(left, rest).index_of(f);
        match merge_spec(left, rights[0]) {
            Some(_) => {
                assert(all[k + 1] == f);
            },
            None => {
                assert(all[k] == f);
            },
        }
    }
}

/// The merge of each frame of the left side with each frame of the right
/// side is among the frames of the join.
pub proof fn lemma_join_is_yielded(lefts: Seq<FrameSpec>, rights: Seq<FrameSpec>, i: int, j: int)
    requires
        0 <= i < lefts.len(),
        0 <= j < rights.len(),
        merge_spec(lefts[i], rights[j]) is Some,
    ensures
        joins(lefts, rights).contains(merge_spec(lefts[i], rights[j])->Some_0),
    decreases lefts.len(),
{
    let first = merges(lefts[0], rights);
    let rest = lefts.drop_first();
    let all = joins(lefts, rights);
    let f = merge_spec(lefts[i], rights[j])->Some_0;
    if i == 0 {
        lemma_merge_is_yielded(lefts[0], rights, j);
        let k = first.index_of(f);
        assert(all[k] == f);
    } else {
        lemma_join_is_yielded(rest, rights, i - 1, j);
        assert(rest[i - 1] == lefts[i]);
        let k = joins(rest, rights).index_of(f);
        assert(all[first.len() + k] == f);
    }
}

/// Every frame of one list is a frame of the other.
pub open spec fn frames_held(a: Seq<FrameSpec>, b: Seq<FrameSpec>) -> bool {
    forall|f: FrameSpec| a.contains(f) ==> b.contains(f)
}

/// Every tuple of one list is a tuple of the other.
pub open spec fn rows_held(a: Seq<Row>, b: Seq<Row>) -> bool {
    forall|row: Row| a.contains(row) ==> b.contains(row)
}

/// More tuples match no less.
pub proof fn lemma_match_all_grows(pattern: Seq<AtomicTermSpec>, a: Seq<Row>, b: Seq<Row>)
    requires
        rows_held(a, b),
    ensures
        frames_held(match_all(pattern, a), match_all(pattern, b)),
{
    assert forall|f: FrameSpec| match_all(pattern, a).contains(f)
        implies match_all(pattern, b).contains(
        f,
    ) by {
        let k = match_all(pattern, a).index_of(f);
        law_matches_come_from_tuples(pattern, a, k);
        let i = choose|i: int|
            0 <= i < a.len() && match_spec(pattern, #[trigger] a[i]) == Some(
                match_all(pattern, a)[k],
            );
        assert(a.contains(a[i]));
        let at = b.index_of(a[i]);
        lemma_match_is_yielded(pattern, b, at);
    }
}

/// More frames on either side join to no less.
pub proof fn lemma_joins_grow(
    lefts: Seq<FrameSpec>,
    rights: Seq<FrameSpec>,
    more_lefts: Seq<FrameSpec>,
    more_rights: Seq<FrameSpec>,
)
    requires
        frames_held(lefts, more_lefts),
        frames_held(rights, more_rights),
    ensures
        frames_held(joins(lefts, rights), joins(more_lefts, more_rights)),
{
    assert forall|f: FrameSpec| joins(lefts, rights).contains(f) implies joins(
        more_lefts,
        more_rights,
    ).contains(f) by {
        let k = joins(lefts, rights).index_of(f);
        law_join_extends_inputs(lefts, rights, k);
        let (i, j) = choose|i: int, j: int|
            0 <= i < lefts.len() && 0 <= j < rights.len() && merge_spec(
                #[trigger] lefts[i],
                #[trigger] rights[j],
            ) == Some(joins(lefts, rights)[k]) && lefts[i].submap_of(joins(lefts, rights)[k])
                && rights[j].submap_of(joins(lefts, rights)[k]);
        assert(lefts.contains(lefts[i]));
        assert(rights.contains(rights[j]));
        let at_left = more_lefts.index_of(lefts[i]);
        let at_right = more_rights.index_of(rights[j]);
        lemma_join_is_yielded(more_lefts, more_rights, at_left, at_right);
    }
}

/// A body yields no less over more tuples.
pub proof fn lemma_body_grows(terms: Seq<TermInput>, working: Seq<Row>, more: Seq<Row>)
    requires
        rows_held(working, more),
    ensures
        frames_held(body_frames(terms, working), body_frames(terms, more)),
    decreases terms.len(),
{
    if terms.len() > 0 {
        match terms[0].rows {
            Some(rows) => {},
            None => {
                lemma_match_all_grows(terms[0].params, working, more);
            },
        }
        if terms.len() > 1 {
            lemma_body_grows(terms.drop_first(), working, more);
            lemma_joins_grow(
                term_frames(terms[0], working),
                body_frames(terms.drop_first(), working),
                term_frames(terms[0], more),
                body_frames(terms.drop_first(), more),
            );
        }
    }
}

/// A rule yields no less over more tuples: evaluation is monotone in the
/// working set.
pub proof fn law_rules_are_monotone(rule: RuleInput, working: Seq<Row>, more: Seq<Row>)
    requires
        rows_held(working, more),
    ensures
        rows_held(rule_rows(rule, working), rule_rows(rule, more)),
{
    lemma_body_grows(rule.terms, working, more);
    let frames = body_frames(rule.terms, working);
    let more_frames = body_frames(rule.terms, more);
    assert forall|row: Row| rule_rows(rule, working).contains(row) implies rule_rows(
        rule,
        more,
    ).contains(row) by {
        let k = rule_rows(rule, working).index_of(row);
        assert(frames.contains(frames[k]));
        let at = more_frames.index_of(frames[k]);
        assert(projections(rule.formals, more_frames)[at] == row);
    }
}

/// Where the passes come to an end, the fixed point is closed: it holds
/// the base tuples, each once, and whatever a rule yields over tuples of
/// the fixed point.
pub proof fn law_fixpoint_is_closed(rules: Seq<RuleInput>, base: Seq<Row>, n: nat)
    requires
        settled(rules, base, n),
    ensures
        fixpoint(rules, base).no_duplicates(),
        rows_held(base, fixpoint(rules, base)),
        forall|j: int, working: Seq<Row>, row: Row|
            0 <= j < rules.len() && rows_held(working, fixpoint(rules, base))
                && #[trigger] rule_rows(
                rules[j],
                working,
            ).contains(row) ==> fixpoint(rules, base).contains(row),
{
    let fixed = fixpoint(rules, base);
    lemma_fixpoint_settled(rules, base, n);
    assert forall|j: int, working: Seq<Row>, row: Row|
        0 <= j < rules.len() && rows_held(working, fixed) && #[trigger] rule_rows(
            rules[j],
            working,
        ).contains(row) implies fixed.contains(row) by {
        law_rules_are_monotone(rules[j], working, fixed);
        assert(rule_rows(rules[j], fixed).contains(row));
    }
}

/// Where the passes come to an end, the fixed point is the least closed
/// set: every set that holds the base tuples and whatever a rule yields
/// over tuples of the set holds the fixed point.
pub proof fn law_fixpoint_is_least(rules: Seq<RuleInput>, base: Seq<Row>, n: nat, closed: Set<Row>)
    requires
        settled(rules, base, n),
        forall|row: Row| base.contains(row) ==> closed.contains(row),
        forall|j: int, working: Seq<Row>, row: Row|
            0 <= j < rules.len() && (forall|x: Row| working.contains(x) ==> closed.contains(x))
                && #[trigger] rule_rows(rules[j], working).contains(row) ==> closed.contains(row),
    ensures
        forall|row: Row| fixpoint(rules, base).contains(row) ==> closed.contains(row),
{
    lemma_fixpoint(rules, base, n);
    lemma_stage_within(rules, base, n, closed);
}


/// The passes over rules whose bodies bind their heads come to an end:
/// after some pass, no pass adds anything. What the rules can yield is
/// made of the atoms of the base tuples and of the tuples that the rules'
/// terms bring, and of such tuples there are finitely many.
pub proof fn law_passes_end(rules: Seq<RuleInput>, base: Seq<Row>)
    requires
        forall|j: int| 0 <= j < rules.len() ==> safe_rule(#[trigger] rules[j]),
    ensures
        exists|n: nat| settled(rules, base, n),
{
    lemma_passes_end(rules, base);
}


/// The fixed point of a view that can be planned exists: the passes over
/// its recursive rules come to an end, whatever the base tuples are.
pub proof fn law_view_passes_end(
    db: StorageEngine,
    cache: ViewCache,
    name: Text,
    recursive: Seq<ViewRuleSpec>,
    stack: Seq<Text>,
    base: Seq<Row>,
)
    requires
        inputs_spec(db, cache, name, recursive, 0, stack) is Ok,
    ensures
        exists|n: nat| settled(inputs_spec(db, cache, name, recursive, 0, stack)->Ok_0, base, n),
{
    lemma_inputs_are_safe(db, cache, name, recursive, 0, stack);
    lemma_passes_end(inputs_spec(db, cache, name, recursive, 0, stack)->Ok_0, base);
}

} // verus!
