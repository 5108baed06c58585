//! Plan operators: resettable lazy iterators that yield tuples or frames.
//!
//! A plan is a tree. Its leaves walk a table or a list of tuples; the nodes
//! above match tuples against a pattern, join frames, read columns out of
//! frames, chain tuple sources, and copy what passes into the view cache.
//! What a plan yields from its start is `items`; what it has yet to yield
//! is `remaining`.

use crate::ast::AtomicTermSpec;
use crate::cache::ViewCache;
use crate::frame::{
    match_spec, merge_frames, merge_spec, pattern_variables, Frame, FrameSpec, Pattern,
};
use crate::storage::TableScan;
use crate::text::{clone_tuple, rows_of, Row, Text, Tuple};
use vstd::prelude::*;

verus! {

/// The frames of the tuples that match the pattern, in the tuples' order.
pub open spec fn match_all(pattern: Seq<AtomicTermSpec>, rows: Seq<Row>) -> Seq<FrameSpec>
    decreases rows.len(),
{
    if rows.len() == 0 {
        Seq::empty()
    } else {
        match match_spec(pattern, rows[0]) {
            Some(f) => seq![f] + match_all(pattern, rows.drop_first()),
            None => match_all(pattern, rows.drop_first()),
        }
    }
}

/// The merges of one frame with each of a list of frames that agrees with it.
pub open spec fn merges(left: FrameSpec, rights: Seq<FrameSpec>) -> Seq<FrameSpec>
    decreases rights.len(),
{
    if rights.len() == 0 {
        Seq::empty()
    } else {
        match merge_spec(left, rights[0]) {
            Some(f) => seq![f] + merges(left, rights.drop_first()),
            None => merges(left, rights.drop_first()),
        }
    }
}

/// The cross join of two lists of frames: for each frame of the first list in
/// turn, its merges with the frames of the second.
pub open spec fn joins(lefts: Seq<FrameSpec>, rights: Seq<FrameSpec>) -> Seq<FrameSpec>
    decreases lefts.len(),
{
    if lefts.len() == 0 {
        Seq::empty()
    } else {
        merges(lefts[0], rights) + joins(lefts.drop_first(), rights)
    }
}

/// The tuple that a frame holds in the named columns.
pub open spec fn project(columns: Seq<Text>, frame: FrameSpec) -> Row {
    Seq::new(columns.len(), |i: int| frame[columns[i]])
}

/// The tuples that a list of frames holds in the named columns.
pub open spec fn projections(columns: Seq<Text>, frames: Seq<FrameSpec>) -> Seq<Row> {
    Seq::new(frames.len(), |i: int| project(columns, frames[i]))
}

/// How one step of a plan may change the cache: what was held is still
/// held, what is new was fed by one of the plan's caching wrappers, and
/// relations without such a wrapper are kept as they were.
pub open spec fn extended(
    before: ViewCache,
    after: ViewCache,
    names: Set<Text>,
    rows: Set<(Text, Row)>,
) -> bool {
    &&& after.wf()
    &&& after.dependencies() == before.dependencies()
    &&& forall|n: Text| !names.contains(n) ==> #[trigger] after.contents(n) == before.contents(n)
    &&& forall|n: Text, r: Row| #[trigger]
        after.holds(n, r) ==> before.holds(n, r) || rows.contains((n, r))
    &&& forall|n: Text, r: Row| #[trigger] before.holds(n, r) ==> after.holds(n, r)
}

pub proof fn lemma_extended_chain(
    a: ViewCache,
    b: ViewCache,
    c: ViewCache,
    names1: Set<Text>,
    rows1: Set<(Text, Row)>,
    names2: Set<Text>,
    rows2: Set<(Text, Row)>,
    names: Set<Text>,
    rows: Set<(Text, Row)>,
)
    requires
        extended(a, b, names1, rows1),
        extended(b, c, names2, rows2),
        names1.subset_of(names),
        names2.subset_of(names),
        rows1.subset_of(rows),
        rows2.subset_of(rows),
    ensures
        extended(a, c, names, rows),
{
    assert forall|n: Text| !names.contains(n) implies #[trigger] c.contents(n) == a.contents(n) by {
        assert(b.contents(n) == a.contents(n));
    }
    assert forall|n: Text, r: Row| #[trigger] c.holds(n, r) implies a.holds(n, r) || rows.contains(
        (n, r),
    ) by {
        if !rows2.contains((n, r)) {
            assert(b.holds(n, r));
        }
    }
    assert forall|n: Text, r: Row| #[trigger] a.holds(n, r) implies c.holds(n, r) by {
        assert(b.holds(n, r));
    }
}

/// A plan that yields tuples.
#[derive(Debug)]
#[allow(inconsistent_fields)]
pub enum TuplePlan<'a> {
    /// Every tuple of a table, in the order of insertion.
    ExtensionalScan { scan: TableScan<'a> },
    /// For each frame of `scan`, the tuple of its values in the named columns.
    IntensionalScan { column_names: Vec<String>, scan: Box<FramePlan<'a>> },
    /// The materialized fixed point of a recursive view.
    BottomUp { all_tuples: Vec<Tuple>, index: usize },
    /// The working set of a fixed point that is still being computed.
    SetNode { tuples: Vec<Tuple>, index: usize },
    /// All tuples of the first part, then of the second, and so on.
    Chain { parts: Vec<TuplePlan<'a>>, current: usize },
    /// The tuples of `child`, each copied into the view cache under `name`
    /// as it passes.
    CachingWrapper { name: String, child: Box<TuplePlan<'a>> },
    /// The rows of a list that the plan owns.
    VecPlan { contents: Vec<Vec<String>>, index: usize },
}

/// A plan that yields frames.
#[derive(Debug)]
pub enum FramePlan<'a> {
    /// The frames of the tuples of `child` that match the pattern.
    PatternMatch { pattern: Pattern, child: Box<TuplePlan<'a>> },
    /// The merges of each frame of `left` with each frame of `right` that
    /// agrees with it.
    Join { left: Box<FramePlan<'a>>, right: Box<FramePlan<'a>>, current_left: Option<Frame> },
}

/// What the parts from `from` on yield from their start, one part after the
/// other.
pub open spec fn chain_items(parts: Seq<TuplePlan<'_>>, from: int) -> Seq<Row>
    decreases parts, 0int, parts.len() - from,
{
    if 0 <= from < parts.len() {
        parts[from].items() + chain_items(parts, from + 1)
    } else {
        Seq::empty()
    }
}

/// What the parts from `from` on have yet to yield.
pub open spec fn chain_remaining(parts: Seq<TuplePlan<'_>>, from: int) -> Seq<Row>
    decreases parts, 0int, parts.len() - from,
{
    if 0 <= from < parts.len() {
        parts[from].remaining() + chain_remaining(parts, from + 1)
    } else {
        Seq::empty()
    }
}

/// The height of the tallest part from `from` on.
pub open spec fn chain_depth(parts: Seq<TuplePlan<'_>>, from: int) -> nat
    decreases parts, 0int, parts.len() - from,
{
    if 0 <= from < parts.len() {
        let rest = chain_depth(parts, from + 1);
        if parts[from].depth() > rest {
            parts[from].depth()
        } else {
            rest
        }
    } else {
        0
    }
}

/// The relations for which a part from `from` on holds a caching wrapper.
pub open spec fn chain_names(parts: Seq<TuplePlan<'_>>, from: int) -> Set<Text>
    decreases parts, 0int, parts.len() - from,
{
    if 0 <= from < parts.len() {
        parts[from].cached_names().union(chain_names(parts, from + 1))
    } else {
        Set::empty()
    }
}

/// The tuples that the caching wrappers of the parts from `from` on may copy.
pub open spec fn chain_fed(parts: Seq<TuplePlan<'_>>, from: int) -> Set<(Text, Row)>
    decreases parts, 0int, parts.len() - from,
{
    if 0 <= from < parts.len() {
        parts[from].fed_rows().union(chain_fed(parts, from + 1))
    } else {
        Set::empty()
    }
}

/// The given rows, each with the given name.
pub open spec fn under(name: Text, rows: Seq<Row>) -> Set<(Text, Row)> {
    Set::new(|p: (Text, Row)| p.0 == name && rows.contains(p.1))
}

impl<'a> TuplePlan<'a> {
    /// The height of the tree.
    pub open spec fn depth(&self) -> nat
        decreases self, 1int, 0int,
    {
        match self {
            TuplePlan::IntensionalScan { column_names, scan } => 1 + scan.depth(),
            TuplePlan::Chain { parts, current } => 1 + chain_depth(parts@, 0),
            TuplePlan::CachingWrapper { name, child } => 1 + child.depth(),
            _ => 0,
        }
    }

    /// No cursor has run past its end, and every column that is read out of
    /// a frame is a variable of the plan that yields the frame.
    pub open spec fn wf(&self) -> bool
        decreases self,
    {
        match self {
            TuplePlan::ExtensionalScan { scan } => scan.wf(),
            TuplePlan::IntensionalScan { column_names, scan } => scan.wf() && forall|i: int|
                0 <= i < column_names.len() ==> scan.variables().contains(
                    #[trigger] column_names.deep_view()[i],
                ),
            TuplePlan::BottomUp { all_tuples, index } => *index <= all_tuples.len(),
            TuplePlan::SetNode { tuples, index } => *index <= tuples.len(),
            TuplePlan::Chain { parts, current } => *current <= parts.len() && forall|i: int|
                0 <= i < parts.len() ==> (#[trigger] parts[i]).wf(),
            TuplePlan::CachingWrapper { name, child } => child.wf(),
            TuplePlan::VecPlan { contents, index } => *index <= contents.len(),
        }
    }

    /// The tuples that the plan yields from its start to its end.
    pub open spec fn items(&self) -> Seq<Row>
        decreases self, 1int, 0int,
    {
        match self {
            TuplePlan::ExtensionalScan { scan } => scan.table().rows(),
            TuplePlan::IntensionalScan { column_names, scan } => projections(
                column_names.deep_view(),
                scan.items(),
            ),
            TuplePlan::BottomUp { all_tuples, index } => rows_of(all_tuples@),
            TuplePlan::SetNode { tuples, index } => rows_of(tuples@),
            TuplePlan::Chain { parts, current } => chain_items(parts@, 0),
            TuplePlan::CachingWrapper { name, child } => child.items(),
            TuplePlan::VecPlan { contents, index } => rows_of(contents@),
        }
    }

    /// The tuples that the plan has yet to yield.
    pub open spec fn remaining(&self) -> Seq<Row>
        decreases self, 1int, 0int,
    {
        match self {
            TuplePlan::ExtensionalScan { scan } => scan.remaining(),
            TuplePlan::IntensionalScan { column_names, scan } => projections(
                column_names.deep_view(),
                scan.remaining(),
            ),
            TuplePlan::BottomUp { all_tuples, index } => rows_of(all_tuples@).skip(*index as int),
            TuplePlan::SetNode { tuples, index } => rows_of(tuples@).skip(*index as int),
            TuplePlan::Chain { parts, current } => chain_remaining(parts@, *current as int),
            TuplePlan::CachingWrapper { name, child } => child.remaining(),
            TuplePlan::VecPlan { contents, index } => rows_of(contents@).skip(*index as int),
        }
    }

    /// The relations for which the plan holds a caching wrapper.
    pub open spec fn cached_names(&self) -> Set<Text>
        decreases self, 1int, 0int,
    {
        match self {
            TuplePlan::IntensionalScan { column_names, scan } => scan.cached_names(),
            TuplePlan::Chain { parts, current } => chain_names(parts@, 0),
            TuplePlan::CachingWrapper { name, child } => child.cached_names().insert(name@),
            _ => Set::empty(),
        }
    }

    /// The tuples that the plan's caching wrappers may copy into the cache,
    /// each with the name under which it is kept: what the child of a
    /// wrapper yields, under the wrapper's name.
    pub open spec fn fed_rows(&self) -> Set<(Text, Row)>
        decreases self, 1int, 0int,
    {
        match self {
            TuplePlan::IntensionalScan { column_names, scan } => scan.fed_rows(),
            TuplePlan::Chain { parts, current } => chain_fed(parts@, 0),
            TuplePlan::CachingWrapper { name, child } => child.fed_rows().union(
                under(name@, child.items()),
            ).union(under(name@, child.remaining())),
            _ => Set::empty(),
        }
    }

    /// The plan `self` is `other` with its cursors moved: it yields the same
    /// from its start, is as tall, and has the same caching wrappers, which
    /// have no more to copy than those of `other`.
    pub open spec fn follows(&self, other: TuplePlan<'_>) -> bool {
        &&& self.items() == other.items()
        &&& self.depth() == other.depth()
        &&& self.label() == other.label()
        &&& self.cached_names() == other.cached_names()
        &&& self.fed_rows().subset_of(other.fed_rows())
    }

    /// The name under which the plan copies what it yields into the cache,
    /// if the plan is a caching wrapper.
    pub open spec fn label(&self) -> Option<Text> {
        match self {
            TuplePlan::CachingWrapper { name, child } => Some(name@),
            _ => None,
        }
    }

    /// Of what a caching wrapper yields from its start, the cache holds
    /// under the wrapper's name whatever the wrapper has not yet to yield.
    pub open spec fn covered(&self, cache: ViewCache) -> bool {
        match self.label() {
            Some(n) => forall|row: Row| #[trigger]
                self.items().contains(row) ==> cache.holds(n, row)
                    || self.remaining().contains(row),
            None => true,
        }
    }
}

impl<'a> FramePlan<'a> {
    /// The height of the tree.
    pub open spec fn depth(&self) -> nat
        decreases self, 1int, 0int,
    {
        match self {
            FramePlan::PatternMatch { pattern, child } => 1 + child.depth(),
            FramePlan::Join { left, right, current_left } => 1 + if left.depth() > right.depth() {
                left.depth()
            } else {
                right.depth()
            },
        }
    }

    /// The variables that every frame of the plan binds.
    pub open spec fn variables(&self) -> Set<Text>
        decreases self,
    {
        match self {
            FramePlan::PatternMatch { pattern, child } => pattern_variables(pattern@),
            FramePlan::Join { left, right, current_left } => left.variables().union(
                right.variables(),
            ),
        }
    }

    /// Both sides of a join are well formed; the frame of the left side that
    /// is being joined binds the left side's variables; and while there is
    /// no such frame, the right side stands at its start.
    pub open spec fn wf(&self) -> bool
        decreases self,
    {
        match self {
            FramePlan::PatternMatch { pattern, child } => child.wf(),
            FramePlan::Join { left, right, current_left } => left.wf() && right.wf()
                && match current_left {
                Some(l) => l.wf() && l@.dom() == left.variables(),
                None => right.remaining() == right.items(),
            },
        }
    }

    /// The frames that the plan yields from its start to its end.
    pub open spec fn items(&self) -> Seq<FrameSpec>
        decreases self, 1int, 0int,
    {
        match self {
            FramePlan::PatternMatch { pattern, child } => match_all(pattern@, child.items()),
            FramePlan::Join { left, right, current_left } => joins(left.items(), right.items()),
        }
    }

    /// The frames that the plan has yet to yield.
    pub open spec fn remaining(&self) -> Seq<FrameSpec>
        decreases self, 1int, 0int,
    {
        match self {
            FramePlan::PatternMatch { pattern, child } => match_all(pattern@, child.remaining()),
            FramePlan::Join { left, right, current_left } => (match current_left {
                Some(l) => merges(l@, right.remaining()),
                None => Seq::empty(),
            }) + joins(left.remaining(), right.items()),
        }
    }

    /// The relations for which the plan holds a caching wrapper.
    pub open spec fn cached_names(&self) -> Set<Text>
        decreases self,
    {
        match self {
            FramePlan::PatternMatch { pattern, child } => child.cached_names(),
            FramePlan::Join { left, right, current_left } => left.cached_names().union(
                right.cached_names(),
            ),
        }
    }

    /// The tuples that the plan's caching wrappers may copy into the cache,
    /// each with the name under which it is kept.
    pub open spec fn fed_rows(&self) -> Set<(Text, Row)>
        decreases self,
    {
        match self {
            FramePlan::PatternMatch { pattern, child } => child.fed_rows(),
            FramePlan::Join { left, right, current_left } => left.fed_rows().union(right.fed_rows()),
        }
    }

    /// The plan `self` is `other` with its cursors moved.
    pub open spec fn follows(&self, other: FramePlan<'_>) -> bool {
        &&& self.items() == other.items()
        &&& self.depth() == other.depth()
        &&& self.variables() == other.variables()
        &&& self.label() == other.label()
        &&& self.tuples() == other.tuples()
        &&& self.cached_names() == other.cached_names()
        &&& self.fed_rows().subset_of(other.fed_rows())
    }

    /// The name under which the tuples that a pattern match is given are
    /// copied into the cache, if a caching wrapper yields them.
    pub open spec fn label(&self) -> Option<Text> {
        match self {
            FramePlan::PatternMatch { pattern, child } => child.label(),
            FramePlan::Join { left, right, current_left } => None,
        }
    }

    /// The tuples that a pattern match is given, from first to last.
    pub open spec fn tuples(&self) -> Seq<Row> {
        match self {
            FramePlan::PatternMatch { pattern, child } => child.items(),
            FramePlan::Join { left, right, current_left } => Seq::empty(),
        }
    }

    /// The tuples that a pattern match has yet to be given.
    pub open spec fn tuples_left(&self) -> Seq<Row> {
        match self {
            FramePlan::PatternMatch { pattern, child } => child.remaining(),
            FramePlan::Join { left, right, current_left } => Seq::empty(),
        }
    }

    /// Of the tuples that a pattern match is given by a caching wrapper, the
    /// cache holds under the wrapper's name whatever is not yet to come.
    pub open spec fn covered(&self, cache: ViewCache) -> bool {
        match self.label() {
            Some(n) => forall|row: Row| #[trigger]
                self.tuples().contains(row) ==> cache.holds(n, row) || self.tuples_left().contains(
                    row,
                ),
            None => true,
        }
    }
}

/// Moving the cursors of one part of a chain leaves what the chain yields
/// from its start, its height and its caching wrappers, and what the parts
/// behind that part have yet to yield.
pub proof fn lemma_chain_update(
    parts: Seq<TuplePlan<'_>>,
    moved: Seq<TuplePlan<'_>>,
    i: int,
    from: int,
)
    requires
        0 <= i < parts.len(),
        moved.len() == parts.len(),
        forall|k: int| 0 <= k < parts.len() && k != i ==> moved[k] == parts[k],
        moved[i].follows(parts[i]),
        0 <= from,
    ensures
        chain_items(moved, from) == chain_items(parts, from),
        chain_depth(moved, from) == chain_depth(parts, from),
        chain_names(moved, from) == chain_names(parts, from),
        chain_fed(moved, from).subset_of(chain_fed(parts, from)),
        from > i ==> chain_remaining(moved, from) == chain_remaining(parts, from),
    decreases parts.len() - from,
{
    if from < parts.len() {
        lemma_chain_update(parts, moved, i, from + 1);
    }
}

/// A chain whose parts all stand at their start stands at its start.
pub proof fn lemma_chain_at_start(parts: Seq<TuplePlan<'_>>, from: int)
    requires
        0 <= from,
        forall|k: int| from <= k < parts.len() ==> (#[trigger] parts[k]).remaining()
            == parts[k].items(),
    ensures
        chain_remaining(parts, from) == chain_items(parts, from),
    decreases parts.len() - from,
{
    if from < parts.len() {
        lemma_chain_at_start(parts, from + 1);
    }
}

/// A part of a chain is no taller than the chain's tallest part, and its
/// caching wrappers are among the chain's.
pub proof fn lemma_chain_part(parts: Seq<TuplePlan<'_>>, from: int, i: int)
    requires
        0 <= from <= i < parts.len(),
    ensures
        parts[i].depth() <= chain_depth(parts, from),
        parts[i].cached_names().subset_of(chain_names(parts, from)),
        parts[i].fed_rows().subset_of(chain_fed(parts, from)),
    decreases parts.len() - from,
{
    if from < i {
        lemma_chain_part(parts, from + 1, i);
    }
}

/// A plan feeds the cache only under the names of its caching wrappers.
pub proof fn lemma_fed_names(plan: TuplePlan<'_>)
    ensures
        forall|n: Text, row: Row| #[trigger]
            plan.fed_rows().contains((n, row)) ==> plan.cached_names().contains(n),
    decreases plan, 1int, 0int,
{
    assert forall|n: Text, row: Row| #[trigger] plan.fed_rows().contains((n, row))
        implies plan.cached_names().contains(
        n,
    ) by {
        match plan {
            TuplePlan::IntensionalScan { column_names, scan } => {
                lemma_fed_names_frames(*scan);
                assert(scan.fed_rows().contains((n, row)));
            },
            TuplePlan::Chain { parts, current } => {
                lemma_fed_names_chain(parts@, 0);
                assert(chain_fed(parts@, 0).contains((n, row)));
            },
            TuplePlan::CachingWrapper { name, child } => {
                lemma_fed_names(*child);
                if child.fed_rows().contains((n, row)) {
                    assert(child.cached_names().contains(n));
                }
            },
            _ => {},
        }
    }
}

/// A plan feeds the cache only under the names of its caching wrappers.
pub proof fn lemma_fed_names_frames(plan: FramePlan<'_>)
    ensures
        forall|n: Text, row: Row| #[trigger]
            plan.fed_rows().contains((n, row)) ==> plan.cached_names().contains(n),
    decreases plan, 1int, 0int,
{
    assert forall|n: Text, row: Row| #[trigger] plan.fed_rows().contains((n, row))
        implies plan.cached_names().contains(
        n,
    ) by {
        match plan {
            FramePlan::PatternMatch { pattern, child } => {
                lemma_fed_names(*child);
                assert(child.fed_rows().contains((n, row)));
            },
            FramePlan::Join { left, right, current_left } => {
                lemma_fed_names_frames(*left);
                lemma_fed_names_frames(*right);
                if left.fed_rows().contains((n, row)) {
                    assert(left.cached_names().contains(n));
                } else {
                    assert(right.fed_rows().contains((n, row)));
                    assert(right.cached_names().contains(n));
                }
            },
        }
    }
}

/// The parts of a chain feed the cache only under the names of their
/// caching wrappers.
pub proof fn lemma_fed_names_chain(parts: Seq<TuplePlan<'_>>, from: int)
    requires
        0 <= from,
    ensures
        forall|n: Text, row: Row| #[trigger]
            chain_fed(parts, from).contains((n, row)) ==> chain_names(parts, from).contains(n),
    decreases parts, 0int, parts.len() - from,
{
    if from < parts.len() {
        lemma_fed_names(parts[from]);
        lemma_fed_names_chain(parts, from + 1);
        assert forall|n: Text, row: Row| #[trigger] chain_fed(parts, from).contains((n, row))
            implies chain_names(
            parts,
            from,
        ).contains(n) by {
            if parts[from].fed_rows().contains((n, row)) {
                assert(parts[from].cached_names().contains(n));
            } else {
                assert(chain_fed(parts, from + 1).contains((n, row)));
                assert(chain_names(parts, from + 1).contains(n));
            }
        }
    }
}

/// The next tuple of a list that is walked with a cursor.
fn next_listed(list: &Vec<Tuple>, index: &mut usize) -> (r: Option<Tuple>)
    requires
        *old(index) <= list.len(),
    ensures
        *final(index) <= list.len(),
        match r {
            Some(t) => rows_of(list@).skip(*old(index) as int).len() > 0 && t.deep_view()
                == rows_of(
                list@,
            ).skip(*old(index) as int)[0] && rows_of(list@).skip(*final(index) as int) == rows_of(
                list@,
            ).skip(*old(index) as int).drop_first(),
            None => rows_of(list@).skip(*old(index) as int).len() == 0 && *final(index)
                == *old(index),
        },
{
    if *index < list.len() {
        let t = clone_tuple(&list[*index]);
        proof {
            assert(rows_of(list@).skip(*index as int).drop_first() =~= rows_of(list@).skip(
                *index + 1,
            ));
        }
        *index = *index + 1;
        Some(t)
    } else {
        None
    }
}

/// The tuple that a frame holds in the named columns.
fn read_columns(column_names: &Vec<String>, frame: &Frame) -> (r: Tuple)
    requires
        frame.wf(),
        forall|k: int|
            0 <= k < column_names.len()
                ==> frame@.contains_key(#[trigger] column_names.deep_view()[k]),
    ensures
        r.deep_view() == project(column_names.deep_view(), frame@),
{
    let ghost columns = column_names.deep_view();
    let mut tuple: Tuple = Vec::new();
    let mut i: usize = 0;
    while i < column_names.len()
        invariant
            i <= column_names.len(),
            columns == column_names.deep_view(),
            frame.wf(),
            forall|k: int| 0 <= k < column_names.len()
                ==> frame@.contains_key(#[trigger] columns[k]),
            tuple.len() == i,
            forall|k: int| 0 <= k < i ==> tuple[k]@ == frame@[columns[k]],
        decreases column_names.len() - i,
    {
        assert(frame@.contains_key(columns[i as int]));
        assert(columns[i as int] == column_names[i as int]@);
        let atom = frame.get(&column_names[i]).unwrap();
        tuple.push(atom.clone());
        i += 1;
    }
    assert(tuple.deep_view() =~= project(columns, frame@));
    tuple
}

/// What copying one tuple into the cache does to it, seen as a step of a
/// plan that may feed that tuple under that name.
proof fn lemma_added(before: ViewCache, after: ViewCache, name: Text, row: Row)
    requires
        before.wf(),
        after.wf(),
        after.dependencies() == before.dependencies(),
        after.contents(name) == Some(
            match before.contents(name) {
                Some(rows) => if rows.contains(row) {
                    rows
                } else {
                    rows.push(row)
                },
                None => seq![row],
            },
        ),
        forall|n: Text| n != name ==> after.contents(n) == before.contents(n),
    ensures
        extended(before, after, set![name], set![(name, row)]),
{
    assert forall|n: Text, r: Row| #[trigger] after.holds(n, r) implies before.holds(n, r) || set![(
        name,
        row,
    )].contains((n, r)) by {
        if n == name {
            match before.contents(name) {
                Some(rows) => {
                    if !rows.contains(row) {
                        let k = rows.push(row).index_of(r);
                        if k < rows.len() {
                            assert(rows[k] == r);
                        }
                    }
                },
                None => {},
            }
        }
    }
    assert forall|n: Text, r: Row| #[trigger] before.holds(n, r) implies after.holds(n, r) by {
        if n == name {
            let rows = before.contents(n)->Some_0;
            if !rows.contains(row) {
                let k = rows.index_of(r);
                assert(rows.push(row)[k] == r);
            }
        }
    }
}

/// The next tuple of a chain: the next tuple of the first part, from
/// `current` on, that has one left.
fn next_chained<'a>(parts: &mut Vec<TuplePlan<'a>>, current: &mut usize, cache: &mut ViewCache) -> (r:
    Option<Tuple>)
    requires
        *old(current) <= old(parts).len(),
        forall|i: int| 0 <= i < old(parts).len() ==> (#[trigger] old(parts)[i]).wf(),
        old(cache).wf(),
    ensures
        *final(current) <= final(parts).len(),
        final(parts).len() == old(parts).len(),
        forall|i: int| 0 <= i < final(parts).len() ==> (#[trigger] final(parts)[i]).wf(),
        chain_items(final(parts)@, 0) == chain_items(old(parts)@, 0),
        chain_depth(final(parts)@, 0) == chain_depth(old(parts)@, 0),
        chain_names(final(parts)@, 0) == chain_names(old(parts)@, 0),
        chain_fed(final(parts)@, 0).subset_of(chain_fed(old(parts)@, 0)),
        match r {
            Some(t) => chain_remaining(old(parts)@, *old(current) as int).len() > 0 && t.deep_view()
                == chain_remaining(old(parts)@, *old(current) as int)[0] && chain_remaining(
                final(parts)@,
                *final(current) as int,
            ) == chain_remaining(old(parts)@, *old(current) as int).drop_first(),
            None => chain_remaining(old(parts)@, *old(current) as int).len() == 0
                && chain_remaining(
                final(parts)@,
                *final(current) as int,
            ).len() == 0,
        },
        extended(
            *old(cache),
            *final(cache),
            chain_names(old(parts)@, 0),
            chain_fed(old(parts)@, 0),
        ),
    decreases 1 + chain_depth(old(parts)@, 0), 0int,
{
    let ghost start = parts@;
    let ghost start_current = *current as int;
    let ghost old_cache = *cache;
    let ghost names = chain_names(start, 0);
    let ghost rows = chain_fed(start, 0);
    loop
        invariant
            *current <= parts.len(),
            parts.len() == start.len(),
            forall|i: int| 0 <= i < parts.len() ==> (#[trigger] parts[i]).wf(),
            cache.wf(),
            chain_remaining(parts@, *current as int) == chain_remaining(start, start_current),
            chain_items(parts@, 0) == chain_items(start, 0),
            chain_depth(parts@, 0) == chain_depth(start, 0),
            chain_names(parts@, 0) == names,
            chain_fed(parts@, 0).subset_of(rows),
            start == old(parts)@,
            start_current == *old(current) as int,
            old_cache == *old(cache),
            names == chain_names(start, 0),
            rows == chain_fed(start, 0),
            extended(old_cache, *cache, names, rows),
        decreases parts.len() - *current,
    {
        if *current == parts.len() {
            return None;
        }
        let ghost before = parts@;
        let ghost mid_cache = *cache;
        let ghost i = *current as int;
        proof {
            lemma_chain_part(before, 0, i);
        }
        let r = parts[*current].next(cache);
        proof {
            lemma_chain_update(before, parts@, i, 0);
            lemma_chain_update(before, parts@, i, i + 1);
            lemma_extended_chain(
                old_cache,
                mid_cache,
                *cache,
                names,
                rows,
                before[i].cached_names(),
                before[i].fed_rows(),
                names,
                rows,
            );
        }
        match r {
            None => {
                proof {
                    assert(before[i].remaining() =~= Seq::<Row>::empty());
                    assert(parts[i].remaining() =~= Seq::<Row>::empty());
                    assert(chain_remaining(parts@, i) =~= chain_remaining(parts@, i + 1));
                    assert(chain_remaining(before, i) =~= chain_remaining(before, i + 1));
                }
                *current = *current + 1;
            },
            Some(t) => {
                proof {
                    assert((before[i].remaining() + chain_remaining(before, i + 1)).drop_first()
                        =~= before[i].remaining().drop_first() + chain_remaining(before, i + 1));
                }
                return Some(t);
            },
        }
    }
}

/// Sets every part of a chain back to its start.
fn reset_chained<'a>(parts: &mut Vec<TuplePlan<'a>>)
    requires
        forall|i: int| 0 <= i < old(parts).len() ==> (#[trigger] old(parts)[i]).wf(),
    ensures
        final(parts).len() == old(parts).len(),
        forall|i: int| 0 <= i < final(parts).len() ==> (#[trigger] final(parts)[i]).wf(),
        chain_items(final(parts)@, 0) == chain_items(old(parts)@, 0),
        chain_depth(final(parts)@, 0) == chain_depth(old(parts)@, 0),
        chain_names(final(parts)@, 0) == chain_names(old(parts)@, 0),
        chain_fed(final(parts)@, 0).subset_of(chain_fed(old(parts)@, 0)),
        chain_remaining(final(parts)@, 0) == chain_items(final(parts)@, 0),
    decreases 1 + chain_depth(old(parts)@, 0), 0int,
{
    let ghost start = parts@;
    let mut i: usize = 0;
    while i < parts.len()
        invariant
            i <= parts.len(),
            parts.len() == start.len(),
            start == old(parts)@,
            forall|k: int| 0 <= k < parts.len() ==> (#[trigger] parts[k]).wf(),
            forall|k: int| 0 <= k < i ==> (#[trigger] parts[k]).remaining() == parts[k].items(),
            chain_items(parts@, 0) == chain_items(start, 0),
            chain_depth(parts@, 0) == chain_depth(start, 0),
            chain_names(parts@, 0) == chain_names(start, 0),
            chain_fed(parts@, 0).subset_of(chain_fed(start, 0)),
        decreases parts.len() - i,
    {
        let ghost before = parts@;
        proof {
            lemma_chain_part(before, 0, i as int);
        }
        parts[i].reset();
        proof {
            lemma_chain_update(before, parts@, i as int, 0);
        }
        i += 1;
    }
    proof {
        lemma_chain_at_start(parts@, 0);
    }
}

/// The frame of the next tuple of `child` that matches the pattern.
fn next_matched<'a>(pattern: &Pattern, child: &mut Box<TuplePlan<'a>>, cache: &mut ViewCache) -> (r:
    Option<Frame>)
    requires
        old(child).wf(),
        old(cache).wf(),
    ensures
        final(child).wf(),
        final(child).follows(**old(child)),
        match r {
            Some(f) => f.wf() && f@.dom() == pattern_variables(pattern@) && match_all(
                pattern@,
                old(child).remaining(),
            ).len() > 0 && f@ == match_all(pattern@, old(child).remaining())[0] && match_all(
                pattern@,
                final(child).remaining(),
            ) == match_all(pattern@, old(child).remaining()).drop_first(),
            None => match_all(pattern@, old(child).remaining()).len() == 0 && match_all(
                pattern@,
                final(child).remaining(),
            ).len() == 0 && final(child).remaining().len() == 0,
        },
        extended(*old(cache), *final(cache), old(child).cached_names(), old(child).fed_rows()),
        old(child).covered(*old(cache)) ==> final(child).covered(*final(cache)),
    decreases 1 + old(child).depth(), 0int,
{
    let ghost start = **child;
    let ghost old_cache = *cache;
    loop
        invariant
            child.wf(),
            cache.wf(),
            child.follows(start),
            start == **old(child),
            old_cache == *old(cache),
            start.covered(old_cache) ==> child.covered(*cache),
            match_all(pattern@, child.remaining()) == match_all(pattern@, start.remaining()),
            extended(old_cache, *cache, start.cached_names(), start.fed_rows()),
        decreases child.remaining().len(),
    {
        let ghost before = **child;
        let ghost mid_cache = *cache;
        let t = child.next(cache);
        proof {
            lemma_extended_chain(
                old_cache,
                mid_cache,
                *cache,
                start.cached_names(),
                start.fed_rows(),
                before.cached_names(),
                before.fed_rows(),
                start.cached_names(),
                start.fed_rows(),
            );
        }
        match t {
            None => {
                return None;
            },
            Some(t) => {
                match pattern.match_tuple(&t) {
                    Some(f) => {
                        proof {
                            let rest = match_all(pattern@, before.remaining().drop_first());
                            assert((seq![f@] + rest).drop_first() =~= rest);
                            assert(f@.dom() =~= pattern_variables(pattern@));
                        }
                        return Some(f);
                    },
                    None => {},
                }
            },
        }
    }
}

/// What a join has yet to yield: the merges of the frame of the left side
/// that is being joined with what the right side has yet to yield, then the
/// joins of what the left side has yet to yield with all of the right side.
pub open spec fn join_remaining(
    left: FramePlan<'_>,
    right: FramePlan<'_>,
    current_left: Option<Frame>,
) -> Seq<FrameSpec> {
    (match current_left {
        Some(l) => merges(l@, right.remaining()),
        None => Seq::empty(),
    }) + joins(left.remaining(), right.items())
}

/// Whether the frame that a join holds fits its two sides.
pub open spec fn join_wf(left: FramePlan<'_>, right: FramePlan<'_>, current_left: Option<Frame>) -> bool {
    match current_left {
        Some(l) => l.wf() && l@.dom() == left.variables(),
        None => right.remaining() == right.items(),
    }
}

/// The next merge of a frame of `left` with a frame of `right`: the right
/// side is walked once for each frame of the left side.
fn next_joined<'a>(
    left: &mut Box<FramePlan<'a>>,
    right: &mut Box<FramePlan<'a>>,
    current_left: &mut Option<Frame>,
    cache: &mut ViewCache,
) -> (r: Option<Frame>)
    requires
        old(left).wf(),
        old(right).wf(),
        join_wf(**old(left), **old(right), *old(current_left)),
        old(cache).wf(),
    ensures
        final(left).wf(),
        final(right).wf(),
        join_wf(**final(left), **final(right), *final(current_left)),
        final(left).follows(**old(left)),
        final(right).follows(**old(right)),
        match r {
            Some(f) => f.wf() && f@.dom() == old(left).variables().union(old(right).variables())
                && join_remaining(**old(left), **old(right), *old(current_left)).len() > 0 && f@
                == join_remaining(**old(left), **old(right), *old(current_left))[0]
                    && join_remaining(
                **final(left),
                **final(right),
                *final(current_left),
            ) == join_remaining(**old(left), **old(right), *old(current_left)).drop_first(),
            None => join_remaining(**old(left), **old(right), *old(current_left)).len() == 0
                && join_remaining(**final(left), **final(right), *final(current_left)).len() == 0,
        },
        extended(
            *old(cache),
            *final(cache),
            old(left).cached_names().union(old(right).cached_names()),
            old(left).fed_rows().union(old(right).fed_rows()),
        ),
    decreases 1 + (if old(left).depth() > old(right).depth() {
            old(left).depth()
        } else {
            old(right).depth()
        }),
        0int,
{
    let ghost start_left = **left;
    let ghost start_right = **right;
    let ghost start_remaining = join_remaining(**left, **right, *current_left);
    let ghost old_cache = *cache;
    let ghost names = start_left.cached_names().union(start_right.cached_names());
    let ghost rows = start_left.fed_rows().union(start_right.fed_rows());
    loop
        invariant
            left.wf(),
            right.wf(),
            cache.wf(),
            left.follows(start_left),
            right.follows(start_right),
            start_left == **old(left),
            start_right == **old(right),
            old_cache == *old(cache),
            names == start_left.cached_names().union(start_right.cached_names()),
            rows == start_left.fed_rows().union(start_right.fed_rows()),
            join_wf(**left, **right, *current_left),
            join_remaining(**left, **right, *current_left) == start_remaining,
            start_remaining == join_remaining(**old(left), **old(right), *old(current_left)),
            extended(old_cache, *cache, names, rows),
        decreases
                left.remaining().len(),
                (if current_left.is_some() {
                    1int
                } else {
                    0int
                }),
                right.remaining().len(),
    {
        if current_left.is_none() {
            let ghost before = **left;
            let ghost mid_cache = *cache;
            let l = left.next(cache);
            proof {
                lemma_extended_chain(
                    old_cache,
                    mid_cache,
                    *cache,
                    names,
                    rows,
                    before.cached_names(),
                    before.fed_rows(),
                    names,
                    rows,
                );
            }
            match l {
                None => {
                    proof {
                        assert(before.remaining() =~= Seq::<FrameSpec>::empty());
                    }
                    return None;
                },
                Some(l) => {
                    proof {
                        assert(Seq::<FrameSpec>::empty() + joins(before.remaining(), right.items())
                            =~= merges(l@, right.remaining()) + joins(
                            left.remaining(),
                            right.items(),
                        ));
                    }
                    *current_left = Some(l);
                },
            }
        }
        let ghost before = **right;
        let ghost mid_cache = *cache;
        let ghost held = current_left->Some_0;
        let r = right.next(cache);
        proof {
            lemma_extended_chain(
                old_cache,
                mid_cache,
                *cache,
                names,
                rows,
                before.cached_names(),
                before.fed_rows(),
                names,
                rows,
            );
        }
        match r {
            Some(r) => {
                let merged = match current_left {
                    Some(l) => merge_frames(l, &r),
                    None => None,
                };
                match merged {
                    Some(m) => {
                        proof {
                            let tail = merges(held@, before.remaining().drop_first());
                            let rest = joins(left.remaining(), right.items());
                            assert(((seq![m@] + tail) + rest).drop_first() =~= tail + rest);
                            assert(((seq![m@] + tail) + rest)[0] == m@);
                            assert(m@.dom() =~= start_left.variables().union(start_right.variables()));
                        }
                        return Some(m);
                    },
                    None => {},
                }
            },
            None => {
                right.reset();
                proof {
                    assert(before.remaining() =~= Seq::<FrameSpec>::empty());
                    assert(merges(held@, before.remaining()) + joins(left.remaining(), right.items())
                        =~= Seq::<FrameSpec>::empty() + joins(left.remaining(), right.items()));
                }
                *current_left = None;
            },
        }
    }
}

impl<'a> TuplePlan<'a> {
    /// What one call of `next` does to a plan: it yields the first of the
    /// tuples that were still to come, or nothing if none was.
    pub open spec fn steps(before: TuplePlan<'_>, r: Option<Tuple>, after: TuplePlan<'_>) -> bool {
        &&& after.wf()
        &&& after.follows(before)
        &&& match r {
            Some(t) => before.remaining().len() > 0 && t.deep_view() == before.remaining()[0]
                && after.remaining() == before.remaining().drop_first(),
            None => before.remaining().len() == 0 && after.remaining().len() == 0,
        }
    }

    /// The next tuple, if one is left. A tuple that passes a caching wrapper
    /// is copied into the cache.
    pub fn next(&mut self, cache: &mut ViewCache) -> (r: Option<Tuple>)
        requires
            old(self).wf(),
            old(cache).wf(),
        ensures
            Self::steps(*old(self), r, *final(self)),
            extended(*old(cache), *final(cache), old(self).cached_names(), old(self).fed_rows()),
            old(self).covered(*old(cache)) ==> final(self).covered(*final(cache)),
        decreases old(self).depth(), 1int,
    {
        match self {
            TuplePlan::ExtensionalScan { scan } => scan.next(),
            TuplePlan::IntensionalScan { column_names, scan } => {
                let ghost columns = column_names.deep_view();
                let ghost frames = scan.remaining();
                match scan.next(cache) {
                    None => None,
                    Some(frame) => {
                        let tuple = read_columns(column_names, &frame);
                        proof {
                            assert(projections(columns, frames).drop_first() =~= projections(
                                columns,
                                frames.drop_first(),
                            ));
                        }
                        Some(tuple)
                    },
                }
            },
            TuplePlan::BottomUp { all_tuples, index } => next_listed(all_tuples, index),
            TuplePlan::SetNode { tuples, index } => next_listed(tuples, index),
            TuplePlan::Chain { parts, current } => next_chained(parts, current, cache),
            TuplePlan::CachingWrapper { name, child } => {
                let ghost old_cache = *cache;
                let ghost before = **child;
                let result = child.next(cache);
                let ghost mid_cache = *cache;
                match &result {
                    Some(t) => {
                        cache.add_tuple(name.clone(), clone_tuple(t));
                        proof {
                            let row = t.deep_view();
                            assert(before.remaining()[0] == row);
                            assert(before.remaining().contains(row));
                            lemma_added(mid_cache, *cache, name@, row);
                            assert(under(name@, before.remaining()).contains((name@, row)));
                            assert(set![name@].subset_of(old(self).cached_names()));
                            assert(set![(name@, row)].subset_of(old(self).fed_rows()));
                            lemma_extended_chain(
                                old_cache,
                                mid_cache,
                                *cache,
                                before.cached_names(),
                                before.fed_rows(),
                                set![name@],
                                set![(name@, row)],
                                old(self).cached_names(),
                                old(self).fed_rows(),
                            );
                        }
                    },
                    None => {
                        proof {
                            lemma_extended_chain(
                                old_cache,
                                old_cache,
                                *cache,
                                Set::empty(),
                                Set::empty(),
                                before.cached_names(),
                                before.fed_rows(),
                                old(self).cached_names(),
                                old(self).fed_rows(),
                            );
                        }
                    },
                }
                proof {
                    assert forall|p: (Text, Row)| #[trigger]
                        under(name@, child.remaining()).contains(p) implies under(
                        name@,
                        before.remaining(),
                    ).contains(p) by {
                        if before.remaining().len() > 0 {
                            let k = before.remaining().drop_first().index_of(p.1);
                            assert(before.remaining()[k + 1] == p.1);
                        }
                    }
                    if old(self).covered(old_cache) {
                        assert(old(self).label() == Some(name@));
                        assert(old(self).items() == before.items());
                        assert(old(self).remaining() == before.remaining());
                        match &result {
                            Some(t) => {
                                let first = t.deep_view();
                                match mid_cache.contents(name@) {
                                    Some(rows) => {
                                        if !rows.contains(first) {
                                            assert(rows.push(first)[rows.len() as int] == first);
                                        }
                                    },
                                    None => {
                                        assert(seq![first][0] == first);
                                    },
                                }
                                assert(cache.holds(name@, first));
                            },
                            None => {},
                        }
                        assert forall|row: Row| #[trigger] child.items().contains(row)
                            implies cache.holds(
                            name@,
                            row,
                        ) || child.remaining().contains(row) by {
                            assert(old(self).items().contains(row));
                            if old_cache.holds(name@, row) {
                            } else {
                                assert(before.remaining().contains(row));
                                let k = before.remaining().index_of(row);
                                if k > 0 {
                                    assert(child.remaining()[k - 1] == row);
                                }
                            }
                        }
                    }
                }
                result
            },
            TuplePlan::VecPlan { contents, index } => next_listed(contents, index),
        }
    }

    /// Sets the plan back to its start: from now on it yields what it
    /// yielded when it was made.
    pub fn reset(&mut self)
        requires
            old(self).wf(),
        ensures
            final(self).wf(),
            final(self).follows(*old(self)),
            final(self).remaining() == final(self).items(),
        decreases old(self).depth(), 1int,
    {
        match self {
            TuplePlan::ExtensionalScan { scan } => {
                scan.rewind();
            },
            TuplePlan::IntensionalScan { column_names, scan } => {
                scan.reset();
            },
            TuplePlan::BottomUp { all_tuples, index } => {
                *index = 0;
                assert(rows_of(all_tuples@).skip(0) =~= rows_of(all_tuples@));
            },
            TuplePlan::SetNode { tuples, index } => {
                *index = 0;
                assert(rows_of(tuples@).skip(0) =~= rows_of(tuples@));
            },
            TuplePlan::Chain { parts, current } => {
                reset_chained(parts);
                *current = 0;
            },
            TuplePlan::CachingWrapper { name, child } => {
                child.reset();
            },
            TuplePlan::VecPlan { contents, index } => {
                *index = 0;
                assert(rows_of(contents@).skip(0) =~= rows_of(contents@));
            },
        }
    }
}

impl<'a> FramePlan<'a> {
    /// What one call of `next` does to a plan: it yields the first of the
    /// frames that were still to come, or nothing if none was. Every frame
    /// binds the plan's variables.
    pub open spec fn steps(before: FramePlan<'_>, r: Option<Frame>, after: FramePlan<'_>) -> bool {
        &&& after.wf()
        &&& after.follows(before)
        &&& match r {
            Some(f) => f.wf() && f@.dom() == before.variables() && before.remaining().len() > 0
                && f@
                == before.remaining()[0] && after.remaining() == before.remaining().drop_first(),
            None => before.remaining().len() == 0 && after.remaining().len() == 0
                && after.tuples_left().len() == 0,
        }
    }

    /// The next frame, if one is left.
    pub fn next(&mut self, cache: &mut ViewCache) -> (r: Option<Frame>)
        requires
            old(self).wf(),
            old(cache).wf(),
        ensures
            Self::steps(*old(self), r, *final(self)),
            extended(*old(cache), *final(cache), old(self).cached_names(), old(self).fed_rows()),
            old(self).covered(*old(cache)) ==> final(self).covered(*final(cache)),
        decreases old(self).depth(), 1int,
    {
        match self {
            FramePlan::PatternMatch { pattern, child } => {
                let ghost before = **child;
                let ghost old_cache = *cache;
                let r = next_matched(pattern, child, cache);
                proof {
                    assert(old(self).label() == before.label());
                    assert(old(self).tuples() == before.items());
                    assert(old(self).tuples_left() == before.remaining());
                    if old(self).covered(old_cache) {
                        assert(before.covered(old_cache));
                        assert(child.covered(*cache));
                    }
                }
                r
            },
            FramePlan::Join { left, right, current_left } => next_joined(
                left,
                right,
                current_left,
                cache,
            ),
        }
    }

    /// Sets the plan back to its start: from now on it yields what it
    /// yielded when it was made.
    pub fn reset(&mut self)
        requires
            old(self).wf(),
        ensures
            final(self).wf(),
            final(self).follows(*old(self)),
            final(self).remaining() == final(self).items(),
            final(self).tuples_left() == final(self).tuples(),
        decreases old(self).depth(), 1int,
    {
        match self {
            FramePlan::PatternMatch { pattern, child } => {
                child.reset();
            },
            FramePlan::Join { left, right, current_left } => {
                left.reset();
                right.reset();
                *current_left = None;
                assert(Seq::<FrameSpec>::empty() + joins(left.items(), right.items()) =~= joins(
                    left.items(),
                    right.items(),
                ));
            },
        }
    }

    /// The frames of a list of frames, as contracts see them.
    pub open spec fn views(frames: Seq<Frame>) -> Seq<FrameSpec> {
        Seq::new(frames.len(), |i: int| frames[i]@)
    }

    /// Runs the plan to its end and returns the frames that it yields on
    /// the way, in order.
    pub fn run(&mut self, cache: &mut ViewCache) -> (r: Vec<Frame>)
        requires
            old(self).wf(),
            old(cache).wf(),
        ensures
            final(self).wf(),
            final(self).follows(*old(self)),
            final(self).remaining().len() == 0,
            final(self).tuples_left().len() == 0,
            Self::views(r@) == old(self).remaining(),
            forall|i: int| 0 <= i < r.len() ==> (#[trigger] r[i]).wf(),
            extended(*old(cache), *final(cache), old(self).cached_names(), old(self).fed_rows()),
            old(self).covered(*old(cache)) ==> final(self).covered(*final(cache)),
    {
        let ghost start = *self;
        let ghost old_cache = *cache;
        let mut result: Vec<Frame> = Vec::new();
        proof {
            assert(Self::views(result@) + self.remaining() =~= self.remaining());
            lemma_extended_chain(
                old_cache,
                old_cache,
                old_cache,
                Set::empty(),
                Set::empty(),
                Set::empty(),
                Set::empty(),
                start.cached_names(),
                start.fed_rows(),
            );
        }
        loop
            invariant
                self.wf(),
                cache.wf(),
                self.follows(start),
                start == *old(self),
                old_cache == *old(cache),
                Self::views(result@) + self.remaining() == start.remaining(),
                forall|i: int| 0 <= i < result.len() ==> (#[trigger] result[i]).wf(),
                extended(old_cache, *cache, start.cached_names(), start.fed_rows()),
                start.covered(old_cache) ==> self.covered(*cache),
            decreases self.remaining().len(),
        {
            let ghost before = *self;
            let ghost mid_cache = *cache;
            let ghost found = Self::views(result@);
            match self.next(cache) {
                None => {
                    proof {
                        assert(found + before.remaining() =~= found);
                    }
                    return result;
                },
                Some(frame) => {
                    proof {
                        lemma_extended_chain(
                            old_cache,
                            mid_cache,
                            *cache,
                            start.cached_names(),
                            start.fed_rows(),
                            before.cached_names(),
                            before.fed_rows(),
                            start.cached_names(),
                            start.fed_rows(),
                        );
                    }
                    result.push(frame);
                    proof {
                        assert(Self::views(result@) =~= found.push(frame@));
                        assert(found.push(frame@) + before.remaining().drop_first() =~= found
                            + before.remaining());
                    }
                },
            }
        }
    }
}


/// Plans are iterators that can be set back to the beginning: after
/// `reset`, a plan yields what it yielded when it was made.
pub trait Plan {
    /// Whether the plan is well formed.
    spec fn ready(&self) -> bool;

    /// Whether the plan stands at its start: all that it yields is yet to
    /// come.
    spec fn at_start(&self) -> bool;

    /// Whether the plan is `other` with its cursors moved.
    spec fn moved_from(&self, other: &Self) -> bool;

    /// Sets the plan back to the beginning.
    fn reset(&mut self)
        requires
            old(self).ready(),
        ensures
            final(self).ready(),
            final(self).at_start(),
            final(self).moved_from(old(self)),
    ;
}

impl<'a> Plan for TuplePlan<'a> {
    open spec fn ready(&self) -> bool {
        self.wf()
    }

    open spec fn at_start(&self) -> bool {
        self.remaining() == self.items()
    }

    open spec fn moved_from(&self, other: &Self) -> bool {
        self.follows(*other)
    }

    fn reset(&mut self) {
        TuplePlan::reset(self)
    }
}

impl<'a> Plan for FramePlan<'a> {
    open spec fn ready(&self) -> bool {
        self.wf()
    }

    open spec fn at_start(&self) -> bool {
        self.remaining() == self.items()
    }

    open spec fn moved_from(&self, other: &Self) -> bool {
        self.follows(*other)
    }

    fn reset(&mut self) {
        FramePlan::reset(self)
    }
}

} // verus!
