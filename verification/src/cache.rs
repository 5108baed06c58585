//! The view cache: for each relation the tuples that were seen of it, and
//! the graph of which relation reads from which, along which a change to
//! one relation throws out what was kept of the others.

use crate::text::{clone_tuples, holds_text, holds_tuple, rows_of, Row, Text, Tuple};
use vstd::prelude::*;

verus! {

/// One edge of the graph: `dependent` reads from `relation`.
#[derive(Debug)]
struct Dependency {
    relation: String,
    dependent: String,
}

/// Maps relations to the relations that depend on them.
#[derive(Debug)]
struct DependencyGraph {
    dependents: Vec<Dependency>,
}

/// Each step of the path leads from a relation to one of its dependents.
pub open spec fn is_path(edges: Seq<(Text, Text)>, path: Seq<Text>) -> bool {
    &&& path.len() >= 1
    &&& forall|i: int| 0 <= i < path.len() - 1 ==> #[trigger] edges.contains((path[i], path[i + 1]))
}

/// `to` is `from` itself or depends on it, directly or through others.
pub open spec fn reaches(edges: Seq<(Text, Text)>, from: Text, to: Text) -> bool {
    exists|path: Seq<Text>| is_path(edges, path) && path[0] == from && path.last() == to
}

pub proof fn lemma_reaches_itself(edges: Seq<(Text, Text)>, a: Text)
    ensures
        reaches(edges, a, a),
{
    let path = seq![a];
    assert(is_path(edges, path) && path[0] == a && path.last() == a);
}

pub proof fn lemma_reaches_step(edges: Seq<(Text, Text)>, a: Text, b: Text, c: Text)
    requires
        reaches(edges, a, b),
        edges.contains((b, c)),
    ensures
        reaches(edges, a, c),
{
    let path = choose|path: Seq<Text>| is_path(edges, path) && path[0] == a && path.last() == b;
    let longer = path.push(c);
    assert forall|i: int| 0 <= i < longer.len() - 1 implies #[trigger] edges.contains(
        (longer[i], longer[i + 1]),
    ) by {
        if i < path.len() - 1 {
            assert(edges.contains((path[i], path[i + 1])));
        }
    }
    assert(is_path(edges, longer) && longer[0] == a && longer.last() == c);
}

/// Every relation on a path that starts inside a set closed under the edges
/// lies in that set.
pub proof fn lemma_path_stays(edges: Seq<(Text, Text)>, inside: Set<Text>, path: Seq<Text>, i: int)
    requires
        is_path(edges, path),
        inside.contains(path[0]),
        forall|a: Text, b: Text| inside.contains(a) && #[trigger] edges.contains((a, b))
            ==> inside.contains(b),
        0 <= i < path.len(),
    ensures
        inside.contains(path[i]),
    decreases i,
{
    if i > 0 {
        lemma_path_stays(edges, inside, path, i - 1);
        assert(edges.contains((path[i - 1], path[i - 1 + 1])));
    }
}

impl DependencyGraph {
    spec fn edges(&self) -> Seq<(Text, Text)> {
        Seq::new(
            self.dependents@.len(),
            |i: int| (self.dependents@[i].relation@, self.dependents@[i].dependent@),
        )
    }

    fn new() -> (g: DependencyGraph)
        ensures
            g.edges() == Seq::<(Text, Text)>::empty(),
    {
        let g = DependencyGraph { dependents: Vec::new() };
        assert(g.edges() =~= Seq::<(Text, Text)>::empty());
        g
    }

    fn add_dependency(&mut self, relation: String, dependent: String)
        ensures
            final(self).edges() == old(self).edges().push((relation@, dependent@)),
    {
        self.dependents.push(Dependency { relation, dependent });
        assert(self.edges() =~= old(self).edges().push((relation@, dependent@)));
    }

    /// The relations that depend on `relation` directly, once for each time
    /// the dependency was declared.
    fn get_dependents(&self, relation: &String) -> (r: Vec<String>)
        ensures
            forall|d: Text| r.deep_view().contains(d) <==> self.edges().contains((relation@, d)),
    {
        let mut result: Vec<String> = Vec::new();
        let mut i: usize = 0;
        while i < self.dependents.len()
            invariant
                i <= self.dependents.len(),
                forall|d: Text| #[trigger]
                    result.deep_view().contains(d) ==> self.edges().contains((relation@, d)),
                forall|k: int|
                    0 <= k < i && (#[trigger] self.edges()[k]).0 == relation@
                        ==> result.deep_view().contains(self.edges()[k].1),
            decreases self.dependents.len() - i,
        {
            let ghost before = result.deep_view();
            if self.dependents[i].relation == *relation {
                result.push(self.dependents[i].dependent.clone());
                proof {
                    let d = self.dependents[i as int].dependent@;
                    assert(result.deep_view() =~= before.push(d));
                    assert(self.edges()[i as int] == (relation@, d));
                    assert(result.deep_view()[before.len() as int] == d);
                    assert forall|x: Text| #[trigger] result.deep_view().contains(x)
                        implies self.edges().contains(
                        (relation@, x),
                    ) by {
                        if x != d {
                            assert(before.contains(x));
                        }
                    }
                    assert forall|k: int|
                        0 <= k < i + 1 && (#[trigger] self.edges()[k]).0
                            == relation@ implies result.deep_view().contains(self.edges()[k].1) by {
                        if k < i {
                            let x = self.edges()[k].1;
                            assert(before.contains(x));
                            let j = before.index_of(x);
                            assert(result.deep_view()[j] == x);
                        }
                    }
                }
            }
            i += 1;
        }
        proof {
            assert forall|d: Text| self.edges().contains((relation@, d))
                implies result.deep_view().contains(
                d,
            ) by {
                let k = self.edges().index_of((relation@, d));
                assert(self.edges()[k] == (relation@, d));
            }
        }
        result
    }
}

/// What was seen of one relation.
#[derive(Debug)]
struct CacheEntry {
    name: String,
    tuples: Vec<Tuple>,
}

/// For each relation the set of tuples that were seen of it since it was
/// last invalidated, and the dependencies between the relations.
#[derive(Debug)]
pub struct ViewCache {
    dependencies: DependencyGraph,
    contents: Vec<CacheEntry>,
}

impl ViewCache {
    /// The relations of which something is kept.
    pub closed spec fn cached(&self) -> Seq<Text> {
        Seq::new(self.contents@.len(), |i: int| self.contents@[i].name@)
    }

    /// What is kept of each relation, in the order of `cached`.
    pub closed spec fn kept(&self) -> Seq<Seq<Row>> {
        Seq::new(self.contents@.len(), |i: int| rows_of(self.contents@[i].tuples@))
    }

    /// The declared dependencies: in each pair the second reads from the first.
    pub closed spec fn dependencies(&self) -> Seq<(Text, Text)> {
        self.dependencies.edges()
    }

    /// Each relation is kept once, and of each relation each tuple once.
    pub open spec fn wf(&self) -> bool {
        &&& self.cached().len() == self.kept().len()
        &&& self.cached().no_duplicates()
        &&& forall|i: int| 0 <= i < self.kept().len()
            ==> (#[trigger] self.kept()[i]).no_duplicates()
    }

    /// The tuples kept of the named relation, in the order in which they
    /// were first seen, or `None` where nothing is kept of it.
    pub open spec fn contents(&self, name: Text) -> Option<Seq<Row>> {
        if self.cached().contains(name) {
            Some(self.kept()[self.cached().index_of(name)])
        } else {
            None
        }
    }

    /// Whether the tuple is kept of the named relation.
    pub open spec fn holds(&self, name: Text, row: Row) -> bool {
        self.contents(name) is Some && self.contents(name)->Some_0.contains(row)
    }

    /// A cache that keeps nothing and knows of no dependency.
    pub fn new() -> (c: ViewCache)
        ensures
            c.wf(),
            c.dependencies() == Seq::<(Text, Text)>::empty(),
            forall|n: Text| c.contents(n).is_none(),
    {
        let c = ViewCache { dependencies: DependencyGraph::new(), contents: Vec::new() };
        assert(c.cached() =~= Seq::<Text>::empty());
        c
    }

    /// Records that `dependent` reads from `relation`.
    pub fn add_dependency(&mut self, relation: String, dependent: String)
        ensures
            final(self).dependencies() == old(self).dependencies().push((relation@, dependent@)),
            final(self).cached() == old(self).cached(),
            final(self).kept() == old(self).kept(),
    {
        self.dependencies.add_dependency(relation, dependent);
    }

    /// The place of the named relation among those kept.
    fn find(&self, name: &String) -> (r: Option<usize>)
        requires
            self.wf(),
        ensures
            match r {
                Some(i) => i < self.cached().len() && self.cached()[i as int] == name@ && i
                    == self.cached().index_of(name@),
                None => !self.cached().contains(name@),
            },
    {
        let mut i: usize = 0;
        while i < self.contents.len()
            invariant
                self.wf(),
                i <= self.contents.len(),
                forall|k: int| 0 <= k < i ==> self.cached()[k] != name@,
            decreases self.contents.len() - i,
        {
            if self.contents[i].name == *name {
                assert(self.cached()[i as int] == name@);
                assert(self.cached().contains(name@));
                return Some(i);
            }
            i += 1;
        }
        None
    }

    /// Throws out what is kept of the named relation.
    fn forget(&mut self, name: &String)
        requires
            old(self).wf(),
        ensures
            final(self).wf(),
            final(self).dependencies() == old(self).dependencies(),
            final(self).contents(name@).is_none(),
            forall|n: Text| n != name@ ==> final(self).contents(n) == old(self).contents(n),
    {
        let ghost before = *self;
        match self.find(name) {
            Some(i) => {
                self.contents.remove(i);
                proof {
                    assert(self.cached() =~= before.cached().remove(i as int));
                    assert(self.kept() =~= before.kept().remove(i as int));
                    assert forall|n: Text| n != name@ implies self.contents(n)
                        == before.contents(n) by {
                        if before.cached().contains(n) {
                            let j = before.cached().index_of(n);
                            if j < i {
                                assert(self.cached()[j] == n);
                                assert(self.cached().index_of(n) == j);
                            } else {
                                assert(self.cached()[j - 1] == n);
                                assert(self.cached().index_of(n) == j - 1);
                            }
                        }
                        if self.cached().contains(n) {
                            let j = self.cached().index_of(n);
                            if j < i {
                                assert(before.cached()[j] == n);
                            } else {
                                assert(before.cached()[j + 1] == n);
                            }
                        }
                    }
                    if self.cached().contains(name@) {
                        let j = self.cached().index_of(name@);
                        if j < i {
                            assert(before.cached()[j] == name@);
                        } else {
                            assert(before.cached()[j + 1] == name@);
                        }
                    }
                }
            },
            None => {},
        }
    }

    /// Throws out what is kept of `relation` and of every relation that
    /// depends on it, directly or through others. Walks the dependencies
    /// depth first and visits no relation twice, so it ends on a cycle too.
    pub fn invalidate(&mut self, relation: &str)
        requires
            old(self).wf(),
        ensures
            final(self).wf(),
            final(self).dependencies() == old(self).dependencies(),
            forall|n: Text|
                reaches(old(self).dependencies(), relation@, n)
                    ==> final(self).contents(n).is_none(),
            forall|n: Text|
                !reaches(old(self).dependencies(), relation@, n) ==> final(self).contents(n)
                    == old(self).contents(n),
    {
        let ghost before = *self;
        let ghost edges = self.dependencies();
        let ghost start = relation@;
        let ghost universe = seq![start] + Seq::new(edges.len(), |i: int| edges[i].1);
        let mut visited: Vec<String> = Vec::new();
        let mut stack: Vec<String> = Vec::new();
        visited.push(relation.to_owned());
        stack.push(relation.to_owned());
        proof {
            lemma_reaches_itself(edges, start);
            assert(visited.deep_view() =~= seq![start]);
            assert(stack.deep_view() =~= seq![start]);
            assert(universe[0] == start);
        }
        while stack.len() > 0
            invariant
                self.wf(),
                self.dependencies() == edges,
                edges == before.dependencies(),
                universe == seq![start] + Seq::new(edges.len(), |i: int| edges[i].1),
                visited.deep_view().no_duplicates(),
                visited.deep_view().contains(start),
                forall|v: Text| #[trigger] visited.deep_view().contains(v)
                    ==> reaches(edges, start, v),
                forall|v: Text| #[trigger] visited.deep_view().contains(v) ==> universe.contains(v),
                forall|v: Text| #[trigger] stack.deep_view().contains(v)
                    ==> visited.deep_view().contains(v),
                forall|v: Text, w: Text|
                    visited.deep_view().contains(v) && !stack.deep_view().contains(v)
                        && #[trigger] edges.contains((v, w)) ==> visited.deep_view().contains(w),
                forall|v: Text|
                    visited.deep_view().contains(v) && !stack.deep_view().contains(v)
                        ==> (#[trigger] self.contents(v)).is_none(),
                forall|n: Text|
                    !visited.deep_view().contains(n) ==> #[trigger] self.contents(n)
                        == before.contents(n),
            decreases universe.len() - visited.len(), stack.len(),
        {
            let ghost stack_before = stack.deep_view();
            let ghost visited_before = visited.deep_view();
            let current = stack.pop().unwrap();
            proof {
                assert(stack.deep_view() =~= stack_before.drop_last());
                assert(stack_before.last() == current@);
                assert(stack_before.contains(current@));
                assert forall|v: Text| v != current@ && stack_before.contains(v)
                    implies stack.deep_view().contains(
                    v,
                ) by {
                    let k = stack_before.index_of(v);
                    assert(stack.deep_view()[k] == v);
                }
                assert forall|v: Text| #[trigger]
                    stack.deep_view().contains(v) implies visited.deep_view().contains(v) by {
                    let k = stack.deep_view().index_of(v);
                    assert(stack_before[k] == v);
                    assert(stack_before.contains(v));
                }
            }
            self.forget(&current);
            let dependents = self.dependencies.get_dependents(&current);
            let mut j: usize = 0;
            while j < dependents.len()
                invariant
                    j <= dependents.len(),
                    self.wf(),
                    self.dependencies() == edges,
                    universe == seq![start] + Seq::new(edges.len(), |i: int| edges[i].1),
                    forall|d: Text| dependents.deep_view().contains(d) <==> edges.contains((current@, d)),
                    visited.deep_view().no_duplicates(),
                    visited.deep_view().contains(start),
                    visited.deep_view().contains(current@),
                    visited.len() - visited_before.len() == stack.len() - (stack_before.len() - 1),
                    visited.len() >= visited_before.len(),
                    forall|v: Text| #[trigger] visited.deep_view().contains(v)
                        ==> reaches(edges, start, v),
                    forall|v: Text| #[trigger] visited.deep_view().contains(v)
                        ==> universe.contains(v),
                    forall|v: Text| #[trigger]
                        stack.deep_view().contains(v) ==> visited.deep_view().contains(v),
                    forall|v: Text, w: Text|
                        visited.deep_view().contains(v) && !stack.deep_view().contains(v)
                            && v != current@
                            && #[trigger] edges.contains((v, w))
                                ==> visited.deep_view().contains(w),
                    forall|k: int|
                        0 <= k < j
                            ==> visited.deep_view().contains(#[trigger] dependents.deep_view()[k]),
                    forall|v: Text|
                        visited.deep_view().contains(v) && !stack.deep_view().contains(v)
                            ==> (#[trigger] self.contents(v)).is_none(),
                    forall|n: Text|
                        !visited.deep_view().contains(n) ==> #[trigger] self.contents(n)
                            == before.contents(n),
                decreases dependents.len() - j,
            {
                let ghost d = dependents.deep_view()[j as int];
                let ghost visited_now = visited.deep_view();
                let ghost stack_now = stack.deep_view();
                assert(dependents.deep_view().contains(d));
                assert(edges.contains((current@, d)));
                if !holds_text(&visited, &dependents[j]) {
                    visited.push(dependents[j].clone());
                    stack.push(dependents[j].clone());
                    proof {
                        assert(visited.deep_view() =~= visited_now.push(d));
                        assert(stack.deep_view() =~= stack_now.push(d));
                        lemma_reaches_step(edges, start, current@, d);
                        let k = edges.index_of((current@, d));
                        assert(universe[k + 1] == d);
                        assert(visited.deep_view()[visited_now.len() as int] == d);
                        assert(stack.deep_view()[stack_now.len() as int] == d);
                        assert forall|v: Text| visited_now.contains(v)
                            implies visited.deep_view().contains(
                            v,
                        ) by {
                            let i = visited_now.index_of(v);
                            assert(visited.deep_view()[i] == v);
                        }
                        assert forall|v: Text| stack_now.contains(v)
                            implies stack.deep_view().contains(
                            v,
                        ) by {
                            let i = stack_now.index_of(v);
                            assert(stack.deep_view()[i] == v);
                        }
                        assert forall|v: Text| #[trigger] visited.deep_view().contains(v) implies v
                            == d
                            || visited_now.contains(v) by {
                            let i = visited.deep_view().index_of(v);
                            if i < visited_now.len() {
                                assert(visited_now[i] == v);
                            }
                        }
                        assert forall|v: Text| #[trigger] stack.deep_view().contains(v) implies v
                            == d
                            || stack_now.contains(v) by {
                            let i = stack.deep_view().index_of(v);
                            if i < stack_now.len() {
                                assert(stack_now[i] == v);
                            }
                        }
                        assert forall|k: int| 0 <= k < j + 1 implies visited.deep_view().contains(
                            #[trigger] dependents.deep_view()[k],
                        ) by {
                            if k < j {
                                assert(visited_now.contains(dependents.deep_view()[k]));
                            }
                        }
                    }
                }
                j += 1;
            }
            proof {
                assert forall|v: Text, w: Text|
                    visited.deep_view().contains(v) && !stack.deep_view().contains(v)
                        && #[trigger] edges.contains((v, w))
                            implies visited.deep_view().contains(w) by {
                    if v == current@ {
                        assert(dependents.deep_view().contains(w));
                        let k = dependents.deep_view().index_of(w);
                        assert(dependents.deep_view()[k] == w);
                    }
                }
                vstd::seq_lib::seq_to_set_is_finite(universe);
                vstd::seq_lib::seq_to_set_is_finite(visited.deep_view());
                visited.deep_view().unique_seq_to_set();
                universe.lemma_cardinality_of_set();
                assert(visited.deep_view().to_set().subset_of(universe.to_set()));
                vstd::set_lib::lemma_len_subset(visited.deep_view().to_set(), universe.to_set());
            }
        }
        proof {
            let inside = visited.deep_view().to_set();
            assert(stack.deep_view() =~= Seq::<Text>::empty());
            assert forall|n: Text| reaches(edges, start, n)
                implies visited.deep_view().contains(n) by {
                let path = choose|path: Seq<Text>|
                    is_path(edges, path) && path[0] == start && path.last() == n;
                assert forall|a: Text, b: Text| inside.contains(a) && #[trigger] edges.contains(
                    (a, b),
                ) implies inside.contains(b) by {
                    assert(visited.deep_view().contains(a));
                }
                lemma_path_stays(edges, inside, path, path.len() - 1);
            }
        }
    }

    /// Adds a tuple to what is kept of the named relation, unless it is
    /// kept already.
    pub fn add_tuple(&mut self, relation: String, tuple: Vec<String>)
        requires
            old(self).wf(),
        ensures
            final(self).wf(),
            final(self).dependencies() == old(self).dependencies(),
            final(self).contents(relation@) == Some(
                match old(self).contents(relation@) {
                    Some(rows) => if rows.contains(tuple.deep_view()) {
                        rows
                    } else {
                        rows.push(tuple.deep_view())
                    },
                    None => seq![tuple.deep_view()],
                },
            ),
            forall|n: Text| n != relation@ ==> final(self).contents(n) == old(self).contents(n),
    {
        let ghost before = *self;
        let ghost row = tuple.deep_view();
        match self.find(&relation) {
            Some(i) => {
                if !holds_tuple(&self.contents[i].tuples, &tuple) {
                    let ghost rows = rows_of(self.contents[i as int].tuples@);
                    self.contents[i].tuples.push(tuple);
                    proof {
                        assert(rows_of(self.contents[i as int].tuples@) =~= rows.push(row));
                        assert(self.cached() =~= before.cached());
                        assert(self.kept() =~= before.kept().update(i as int, rows.push(row)));
                        assert(rows.push(row).no_duplicates());
                        assert forall|n: Text| n != relation@ implies self.contents(n)
                            == before.contents(
                            n,
                        ) by {
                            if before.cached().contains(n) {
                                assert(before.cached().index_of(n) != i);
                            }
                        }
                    }
                }
            },
            None => {
                let mut tuples: Vec<Tuple> = Vec::new();
                tuples.push(tuple);
                self.contents.push(CacheEntry { name: relation, tuples });
                proof {
                    let last = before.contents@.len() as int;
                    assert(rows_of(self.contents[last].tuples@) =~= seq![row]);
                    assert(self.cached() =~= before.cached().push(relation@));
                    assert(self.kept() =~= before.kept().push(seq![row]));
                    assert(self.cached()[last] == relation@);
                    assert(self.cached().no_duplicates());
                    assert(self.cached().index_of(relation@) == last);
                    assert forall|n: Text| n != relation@ implies self.contents(n)
                        == before.contents(
                        n,
                    ) by {
                        if before.cached().contains(n) {
                            let j = before.cached().index_of(n);
                            assert(self.cached()[j] == n);
                            assert(self.cached().index_of(n) == j);
                        }
                        if self.cached().contains(n) {
                            let j = self.cached().index_of(n);
                            assert(j != last);
                            assert(before.cached()[j] == n);
                        }
                    }
                }
            },
        }
    }

    /// A copy of the tuples kept of the named relation, in the order in
    /// which they were first seen.
    pub fn read_cache(&self, relation: &str) -> (r: Option<Vec<Vec<String>>>)
        requires
            self.wf(),
        ensures
            match r {
                Some(tuples) => self.contents(relation@) == Some(rows_of(tuples@)),
                None => self.contents(relation@).is_none(),
            },
    {
        let wanted = relation.to_owned();
        match self.find(&wanted) {
            Some(i) => {
                let tuples = clone_tuples(&self.contents[i].tuples);
                Some(tuples)
            },
            None => None,
        }
    }
}

} // verus!
