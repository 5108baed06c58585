//! The relations of a database and the catalog that owns them.
//!
//! A table keeps its rows in one flat list of atoms. The engine maps each
//! relation's name to the relation and remembers which relations changed
//! since they were last written out.

use crate::ast::{Term, TermSpec};
use crate::error::{Error, ErrorSpec};
use crate::text::{Row, Text, Tuple};
use vstd::prelude::*;

verus! {

/// The rows that a flat list of atoms holds: one row for each full run of
/// `arity` atoms. A list of rows of no columns holds no row.
pub open spec fn chunks(flat: Seq<Text>, arity: nat) -> Seq<Row>
    decreases flat.len(),
{
    if arity == 0 || flat.len() < arity {
        Seq::empty()
    } else {
        seq![flat.take(arity as int)] + chunks(flat.skip(arity as int), arity)
    }
}

/// The flat list is made of full rows and nothing else.
pub open spec fn aligned(flat: Seq<Text>, arity: nat) -> bool
    decreases flat.len(),
{
    if flat.len() == 0 {
        true
    } else if arity == 0 || flat.len() < arity {
        false
    } else {
        aligned(flat.skip(arity as int), arity)
    }
}

/// A row appended to a list of full rows is the last row of the new list.
pub proof fn lemma_chunks_append(flat: Seq<Text>, row: Row, arity: nat)
    requires
        aligned(flat, arity),
        row.len() == arity,
        arity > 0,
    ensures
        aligned(flat + row, arity),
        chunks(flat + row, arity) == chunks(flat, arity).push(row),
    decreases flat.len(),
{
    let whole = flat + row;
    if flat.len() == 0 {
        assert(whole =~= row);
        assert(row.take(arity as int) =~= row);
        assert(row.skip(arity as int) =~= Seq::<Text>::empty());
        assert(chunks(row.skip(arity as int), arity) =~= Seq::<Row>::empty());
        assert(chunks(whole, arity) =~= chunks(flat, arity).push(row));
        assert(aligned(row.skip(arity as int), arity));
    } else {
        lemma_chunks_append(flat.skip(arity as int), row, arity);
        assert(whole.skip(arity as int) =~= flat.skip(arity as int) + row);
        assert(whole.take(arity as int) =~= flat.take(arity as int));
        assert(chunks(whole, arity) =~= chunks(flat, arity).push(row));
    }
}

/// An extensional relation: ground tuples of one arity, in the order in
/// which they were asserted. The same tuple may be held more than once.
#[derive(Debug)]
pub struct Table {
    contents: Vec<String>,
    arity: usize,
}

impl Table {
    /// The atoms of all rows, one row after the other.
    pub closed spec fn flat(&self) -> Seq<Text> {
        self.contents.deep_view()
    }

    /// The number of columns.
    pub closed spec fn width(&self) -> nat {
        self.arity as nat
    }

    /// The flat list holds full rows only.
    pub open spec fn wf(&self) -> bool {
        aligned(self.flat(), self.width())
    }

    /// The rows in the order of their assertion.
    pub open spec fn rows(&self) -> Seq<Row> {
        chunks(self.flat(), self.width())
    }

    /// An empty table of the given arity.
    pub fn new(arity: usize) -> (t: Table)
        ensures
            t.wf(),
            t.width() == arity,
            t.flat() == Seq::<Text>::empty(),
            t.rows() == Seq::<Row>::empty(),
    {
        let t = Table { contents: Vec::new(), arity };
        assert(t.contents.deep_view() =~= Seq::<Text>::empty());
        t
    }

    /// A table of the given arity over a flat list of atoms, if the list is
    /// made of full rows.
    pub fn from_parts(contents: Vec<String>, arity: usize) -> (r: Option<Table>)
        ensures
            match r {
                Some(t) => t.wf() && t.width() == arity && t.flat() == contents.deep_view(),
                None => !aligned(contents.deep_view(), arity as nat),
            },
    {
        let ghost flat = contents.deep_view();
        let mut i: usize = 0;
        assert(flat.skip(0) =~= flat);
        while arity > 0 && contents.len() - i >= arity
            invariant
                i <= contents.len(),
                flat == contents.deep_view(),
                aligned(flat, arity as nat) == aligned(flat.skip(i as int), arity as nat),
            decreases contents.len() - i,
        {
            assert(flat.skip(i as int).skip(arity as int) =~= flat.skip(i + arity));
            i += arity;
        }
        if i == contents.len() {
            assert(flat.skip(i as int) =~= Seq::<Text>::empty());
            Some(Table { contents, arity })
        } else {
            None
        }
    }

    /// The number of columns.
    pub fn arity(&self) -> (n: usize)
        ensures
            n == self.width(),
    {
        self.arity
    }

    /// The atoms of all rows, one row after the other.
    pub fn contents(&self) -> (r: &Vec<String>)
        ensures
            r.deep_view() == self.flat(),
    {
        &self.contents
    }

    /// Adds a fact to this relation. A fact of another arity is refused and
    /// leaves the table as it was. A table of no columns keeps no row.
    pub fn assert_tuple(&mut self, fact: Vec<String>) -> (r: Result<(), Error>)
        requires
            old(self).wf(),
        ensures
            final(self).wf(),
            final(self).width() == old(self).width(),
            fact.len() != old(self).width() ==> r is Err && r->Err_0@ == (ErrorSpec::ArityMismatch {
                expected: old(self).width() as usize,
                got: fact.len(),
            }) && *final(self) == *old(self),
            fact.len() == old(self).width() ==> r is Ok && final(self).flat() == old(self).flat()
                + fact.deep_view(),
            fact.len() == old(self).width() && fact.len() > 0 ==> final(self).rows()
                == old(self).rows().push(fact.deep_view()),
    {
        let mut fact = fact;
        if fact.len() != self.arity {
            Err(Error::ArityMismatch { expected: self.arity, got: fact.len() })
        } else {
            let ghost row = fact.deep_view();
            let ghost before = self.contents.deep_view();
            self.contents.append(&mut fact);
            proof {
                assert(self.contents.deep_view() =~= before + row);
                if row.len() > 0 {
                    lemma_chunks_append(before, row, self.arity as nat);
                } else {
                    assert(before + row =~= before);
                }
            }
            Ok(())
        }
    }

    /// A scan of the table from its first row.
    pub fn scan(&self) -> (s: TableScan<'_>)
        ensures
            s.wf(),
            s.table() == self,
            s.remaining() == self.rows(),
    {
        let s = TableScan { table: self, index: 0 };
        assert(self.flat().skip(0) =~= self.flat());
        s
    }
}

/// Walks the rows of a table in the order of their assertion.
#[derive(Debug)]
pub struct TableScan<'a> {
    table: &'a Table,
    index: usize,
}

impl<'a> TableScan<'a> {
    /// The table that is scanned.
    pub closed spec fn table(&self) -> &Table {
        self.table
    }

    /// The scan has not run past the end of its table.
    pub closed spec fn wf(&self) -> bool {
        self.index <= self.table.contents.len()
    }

    /// The rows that are still to come.
    pub closed spec fn remaining(&self) -> Seq<Row> {
        chunks(self.table.flat().skip(self.index as int), self.table.width())
    }

    /// The next row, if one is left.
    pub fn next(&mut self) -> (r: Option<Tuple>)
        requires
            old(self).wf(),
        ensures
            final(self).wf(),
            final(self).table() == old(self).table(),
            match r {
                Some(t) => old(self).remaining().len() > 0 && t.deep_view()
                    == old(self).remaining()[0] && final(self).remaining()
                    == old(self).remaining().drop_first(),
                None => old(self).remaining().len() == 0 && final(self).remaining()
                    == old(self).remaining(),
            },
    {
        let arity = self.table.arity;
        if arity == 0 || self.table.contents.len() - self.index < arity {
            return None;
        }
        let ghost rest = self.table.flat().skip(self.index as int);
        let mut result: Tuple = Vec::new();
        let mut k: usize = 0;
        while k < arity
            invariant
                k <= arity,
                arity == self.table.arity,
                self.index + arity <= self.table.contents.len(),
                result.len() == k,
                forall|j: int| 0 <= j < k ==> result[j]@ == self.table.contents[self.index + j]@,
            decreases arity - k,
        {
            result.push(self.table.contents[self.index + k].clone());
            k += 1;
        }
        proof {
            assert(result.deep_view() =~= rest.take(arity as int));
            assert(rest.skip(arity as int) =~= self.table.flat().skip(self.index + arity));
            assert(old(self).remaining().drop_first() =~= chunks(rest.skip(arity as int), arity as nat));
        }
        self.index += arity;
        Some(result)
    }

    /// Starts over from the first row.
    pub fn rewind(&mut self)
        ensures
            final(self).wf(),
            final(self).table() == old(self).table(),
            final(self).remaining() == old(self).table().rows(),
    {
        self.index = 0;
        assert(self.table.flat().skip(0) =~= self.table.flat());
    }
}

/// One rule of a view: the variables of its head and the terms of its body.
#[derive(Debug)]
pub struct ViewRule {
    pub formals: Vec<String>,
    pub body: Vec<Term>,
}

pub struct ViewRuleSpec {
    pub formals: Seq<Text>,
    pub body: Seq<TermSpec>,
}

impl View for ViewRule {
    type V = ViewRuleSpec;

    open spec fn view(&self) -> ViewRuleSpec {
        ViewRuleSpec { formals: self.formals.deep_view(), body: self.body.deep_view() }
    }
}

impl DeepView for ViewRule {
    type V = ViewRuleSpec;

    open spec fn deep_view(&self) -> ViewRuleSpec {
        self@
    }
}

/// An intensional relation, kept as the terms of each of its rules, in the
/// order in which the rules were asserted.
#[derive(Debug)]
pub struct AstView {
    rules: Vec<ViewRule>,
}

impl View for AstView {
    type V = Seq<ViewRuleSpec>;

    closed spec fn view(&self) -> Seq<ViewRuleSpec> {
        self.rules.deep_view()
    }
}

impl AstView {
    /// A view without rules.
    pub fn new() -> (v: AstView)
        ensures
            v@ == Seq::<ViewRuleSpec>::empty(),
    {
        let v = AstView { rules: Vec::new() };
        assert(v@ =~= Seq::<ViewRuleSpec>::empty());
        v
    }

    /// Appends a rule.
    pub fn add_rule(&mut self, formals: Vec<String>, body: Vec<Term>)
        ensures
            final(self)@ == old(self)@.push(
                ViewRuleSpec { formals: formals.deep_view(), body: body.deep_view() },
            ),
    {
        self.rules.push(ViewRule { formals, body });
        assert(self@ =~= old(self)@.push(
            ViewRuleSpec { formals: formals.deep_view(), body: body.deep_view() },
        ));
    }

    /// The number of columns: that of the first rule's head, if there is a
    /// rule.
    pub fn arity(&self) -> (r: Option<usize>)
        ensures
            match r {
                Some(n) => self@.len() > 0 && n == self@[0].formals.len(),
                None => self@.len() == 0,
            },
    {
        if self.rules.len() > 0 {
            assert(self@[0] == self.rules[0]@);
            Some(self.rules[0].formals.len())
        } else {
            None
        }
    }

    /// The rules in the order of their assertion.
    pub fn rules(&self) -> (r: &Vec<ViewRule>)
        ensures
            r.deep_view() == self@,
    {
        &self.rules
    }
}

/// A relation is either extensional or intensional, and stays what it is.
#[derive(Debug)]
pub enum Relation {
    Extension(Table),
    Intension(AstView),
}

impl Relation {
    /// A table in it is made of full rows.
    pub open spec fn wf(&self) -> bool {
        match self {
            Relation::Extension(t) => t.wf(),
            Relation::Intension(_) => true,
        }
    }
}

/// A relation of the catalog, with its name and whether it changed since it
/// was last written out.
#[derive(Debug)]
struct TaggedRelation {
    name: String,
    contents: Relation,
    dirty: bool,
}

/// The names that are marked among the first `n`.
pub open spec fn marked(names: Seq<Text>, flags: Seq<bool>, n: int) -> Seq<Text>
    decreases n,
{
    if n <= 0 {
        Seq::empty()
    } else if flags[n - 1] {
        marked(names, flags, n - 1).push(names[n - 1])
    } else {
        marked(names, flags, n - 1)
    }
}

/// A `StorageEngine` manages all of the relations in a database: it creates
/// relations, hands them out by name, and knows which of them have to be
/// written out.
#[derive(Debug)]
pub struct StorageEngine {
    data_dir: String,
    relations: Vec<TaggedRelation>,
}

impl StorageEngine {
    /// The names of the relations, in the order in which they came.
    pub closed spec fn names(&self) -> Seq<Text> {
        Seq::new(self.relations@.len(), |i: int| self.relations@[i].name@)
    }

    /// The relations, in the order of their names.
    pub closed spec fn contents(&self) -> Seq<Relation> {
        Seq::new(self.relations@.len(), |i: int| self.relations@[i].contents)
    }

    /// For each relation, whether it changed since it was last written out.
    pub closed spec fn flags(&self) -> Seq<bool> {
        Seq::new(self.relations@.len(), |i: int| self.relations@[i].dirty)
    }

    /// Where the relations are kept.
    pub closed spec fn directory(&self) -> Text {
        self.data_dir@
    }

    /// No name stands for two relations, and every table is made of full rows.
    pub open spec fn wf(&self) -> bool {
        &&& self.names().len() == self.contents().len()
        &&& self.names().len() == self.flags().len()
        &&& self.names().no_duplicates()
        &&& forall|i: int| 0 <= i < self.contents().len() ==> (#[trigger] self.contents()[i]).wf()
    }

    pub open spec fn contains(&self, name: Text) -> bool {
        self.names().contains(name)
    }

    /// The relation of the given name.
    pub open spec fn lookup(&self, name: Text) -> Option<Relation> {
        if self.contains(name) {
            Some(self.contents()[self.names().index_of(name)])
        } else {
            None
        }
    }

    /// Whether the named relation changed since it was last written out.
    pub open spec fn is_dirty(&self, name: Text) -> bool {
        self.contains(name) && self.flags()[self.names().index_of(name)]
    }

    /// The names of the relations that have to be written out.
    pub open spec fn pending(&self) -> Seq<Text> {
        marked(self.names(), self.flags(), self.names().len() as int)
    }

    /// An engine without relations, for the given data directory.
    pub fn new(data_dir: String) -> (e: StorageEngine)
        ensures
            e.wf(),
            e.directory() == data_dir@,
            e.names() == Seq::<Text>::empty(),
    {
        let e = StorageEngine { data_dir, relations: Vec::new() };
        assert(e.names() =~= Seq::<Text>::empty());
        e
    }

    /// How many relations the database has.
    pub fn count(&self) -> (n: usize)
        ensures
            n == self.names().len(),
    {
        self.relations.len()
    }

    /// Where the relations are kept.
    pub fn data_dir(&self) -> (r: &String)
        ensures
            r@ == self.directory(),
    {
        &self.data_dir
    }

    /// The place of the named relation in the catalog.
    fn find(&self, name: &String) -> (r: Option<usize>)
        requires
            self.wf(),
        ensures
            match r {
                Some(i) => i < self.names().len() && self.names()[i as int] == name@ && i
                    == self.names().index_of(name@),
                None => !self.contains(name@),
            },
    {
        let mut i: usize = 0;
        while i < self.relations.len()
            invariant
                self.wf(),
                i <= self.relations.len(),
                forall|k: int| 0 <= k < i ==> self.names()[k] != name@,
            decreases self.relations.len() - i,
        {
            if self.relations[i].name == *name {
                assert(self.names()[i as int] == name@);
                assert(self.names().contains(name@));
                return Some(i);
            }
            i += 1;
        }
        None
    }

    /// Takes in a relation as it was read from the data directory: it
    /// stands for its name from now on, and counts as written out.
    pub fn restore(&mut self, name: String, relation: Relation)
        requires
            old(self).wf(),
            relation.wf(),
        ensures
            final(self).wf(),
            final(self).directory() == old(self).directory(),
            final(self).lookup(name@) == Some(relation),
            !final(self).is_dirty(name@),
            forall|n: Text|
                n != name@ ==> final(self).lookup(n) == old(self).lookup(n)
                    && final(self).is_dirty(n)
                    == old(self).is_dirty(n),
            old(self).contains(name@) ==> final(self).names() == old(self).names(),
            !old(self).contains(name@) ==> final(self).names() == old(self).names().push(name@),
    {
        let ghost before = *self;
        match self.find(&name) {
            Some(i) => {
                self.relations[i] = TaggedRelation { name, contents: relation, dirty: false };
                proof {
                    assert(self.names() =~= before.names());
                    assert(self.contents() =~= before.contents().update(i as int, relation));
                    assert(self.flags() =~= before.flags().update(i as int, false));
                    assert forall|n: Text| n != name@ implies self.lookup(n) == before.lookup(n)
                        && self.is_dirty(n) == before.is_dirty(n) by {
                        if before.contains(n) {
                            assert(before.names().index_of(n) != i);
                        }
                    }
                }
            },
            None => {
                self.relations.push(TaggedRelation { name, contents: relation, dirty: false });
                proof {
                    before.lemma_pushed(self, name@, relation, false);
                }
            },
        }
    }

    /// What the catalog is after a relation of a new name was added at its end.
    proof fn lemma_pushed(&self, after: &StorageEngine, name: Text, relation: Relation, dirty: bool)
        requires
            self.wf(),
            !self.contains(name),
            relation.wf(),
            after.relations@.len() == self.relations@.len() + 1,
            forall|i: int| 0 <= i < self.relations@.len() ==> after.relations@[i]
                == self.relations@[i],
            after.relations@[self.relations@.len() as int].name@ == name,
            after.relations@[self.relations@.len() as int].contents == relation,
            after.relations@[self.relations@.len() as int].dirty == dirty,
        ensures
            after.wf(),
            after.names() == self.names().push(name),
            after.contents() == self.contents().push(relation),
            after.flags() == self.flags().push(dirty),
            after.lookup(name) == Some(relation),
            after.is_dirty(name) == dirty,
            forall|n: Text|
                n != name ==> after.lookup(n) == self.lookup(n) && after.is_dirty(n)
                    == self.is_dirty(
                    n,
                ),
    {
        let last = self.relations@.len() as int;
        assert(after.names() =~= self.names().push(name));
        assert(after.contents() =~= self.contents().push(relation));
        assert(after.flags() =~= self.flags().push(dirty));
        assert(after.names()[last] == name);
        assert(after.names().no_duplicates());
        assert(after.names().index_of(name) == last);
        assert forall|n: Text| n != name implies after.lookup(n) == self.lookup(n)
            && after.is_dirty(n) == self.is_dirty(n) by {
            if self.contains(n) {
                let j = self.names().index_of(n);
                assert(after.names()[j] == n);
                assert(after.names().index_of(n) == j);
            }
            if after.contains(n) {
                let j = after.names().index_of(n);
                assert(j != last);
                assert(self.names()[j] == n);
            }
        }
    }

    /// The named relation, if the database has it.
    pub fn get_relation(&self, name: &str) -> (r: Option<&Relation>)
        requires
            self.wf(),
        ensures
            match r {
                Some(rel) => self.lookup(name@) == Some(*rel),
                None => self.lookup(name@).is_none(),
            },
    {
        let wanted = name.to_owned();
        match self.find(&wanted) {
            Some(i) => {
                assert(self.contents()[i as int] == self.relations@[i as int].contents);
                Some(&self.relations[i].contents)
            },
            None => None,
        }
    }

    /// The named relation, to be changed in place, if the database has it.
    /// The relation counts as changed from now on.
    pub fn get_relation_mut(&mut self, name: &str) -> (r: Option<&mut Relation>)
        requires
            old(self).wf(),
        ensures
            final(self).directory() == old(self).directory(),
            final(self).names() == old(self).names(),
            match r {
                Some(rel) => old(self).lookup(name@) == Some(*rel) && final(self).contents()
                    == old(self).contents().update(old(self).names().index_of(name@), *final(rel))
                    && final(self).flags()
                    == old(self).flags().update(old(self).names().index_of(name@), true),
                None => !old(self).contains(name@) && final(self).contents() == old(self).contents()
                    && final(self).flags() == old(self).flags(),
            },
    {
        let wanted = name.to_owned();
        match self.find(&wanted) {
            Some(i) => {
                self.relations[i].dirty = true;
                Some(&mut self.relations[i].contents)
            },
            None => None,
        }
    }

    /// The names of the relations, in the order in which they came.
    pub fn get_relations(&self) -> (r: Vec<&str>)
        ensures
            r.len() == self.names().len(),
            forall|i: int| 0 <= i < r.len() ==> r[i]@ == self.names()[i],
    {
        let mut result: Vec<&str> = Vec::new();
        let mut i: usize = 0;
        while i < self.relations.len()
            invariant
                i <= self.relations.len(),
                result.len() == i,
                forall|k: int| 0 <= k < i ==> result[k]@ == self.names()[k],
            decreases self.relations.len() - i,
        {
            result.push(self.relations[i].name.as_str());
            i += 1;
        }
        result
    }

    /// The names of the relations that changed since they were last written
    /// out, in the order of the catalog. They count as written out from now
    /// on: the caller writes them.
    pub fn write_back(&mut self) -> (r: Vec<String>)
        requires
            old(self).wf(),
        ensures
            final(self).wf(),
            r.deep_view() == old(self).pending(),
            final(self).directory() == old(self).directory(),
            final(self).names() == old(self).names(),
            final(self).contents() == old(self).contents(),
            forall|i: int| 0 <= i < final(self).flags().len() ==> !final(self).flags()[i],
            final(self).pending() == Seq::<Text>::empty(),
    {
        let ghost before = *self;
        let mut result: Vec<String> = Vec::new();
        let mut i: usize = 0;
        while i < self.relations.len()
            invariant
                i <= self.relations.len(),
                self.relations.len() == before.relations.len(),
                self.data_dir == before.data_dir,
                self.names() == before.names(),
                self.contents() == before.contents(),
                forall|k: int| 0 <= k < i ==> !self.flags()[k],
                forall|k: int| i <= k < self.relations.len() ==> self.flags()[k]
                    == before.flags()[k],
                result.deep_view() == marked(before.names(), before.flags(), i as int),
            decreases self.relations.len() - i,
        {
            let ghost names = self.names();
            let ghost contents = self.contents();
            let ghost found = result.deep_view();
            let ghost flags = self.flags();
            if self.relations[i].dirty {
                result.push(self.relations[i].name.clone());
                self.relations[i].dirty = false;
                assert(result.deep_view() =~= found.push(before.names()[i as int]));
            }
            assert(self.names() =~= names);
            assert(self.contents() =~= contents);
            assert(self.flags() =~= flags.update(i as int, false));
            i += 1;
        }
        proof {
            self.lemma_nothing_marked(self.names().len() as int);
        }
        result
    }

    /// Where no relation is marked, none is pending.
    proof fn lemma_nothing_marked(&self, n: int)
        requires
            n <= self.flags().len(),
            forall|k: int| 0 <= k < self.flags().len() ==> !self.flags()[k],
        ensures
            marked(self.names(), self.flags(), n) == Seq::<Text>::empty(),
        decreases n,
    {
        if n > 0 {
            self.lemma_nothing_marked(n - 1);
        }
    }

    /// What the catalog is after the relation of a name that it has was
    /// replaced and marked as changed.
    pub proof fn lemma_replaced(&self, after: &StorageEngine, name: Text, relation: Relation)
        requires
            self.wf(),
            self.contains(name),
            after.names() == self.names(),
            after.contents() == self.contents().update(self.names().index_of(name), relation),
            after.flags() == self.flags().update(self.names().index_of(name), true),
        ensures
            after.lookup(name) == Some(relation),
            after.is_dirty(name),
            forall|n: Text|
                n != name ==> after.lookup(n) == self.lookup(n) && after.is_dirty(n)
                    == self.is_dirty(
                    n,
                ),
            relation.wf() ==> after.wf(),
    {
        let i = self.names().index_of(name);
        assert forall|n: Text| n != name implies after.lookup(n) == self.lookup(n)
            && after.is_dirty(
            n,
        ) == self.is_dirty(n) by {
            if self.contains(n) {
                assert(self.names().index_of(n) != i);
            }
        }
        if relation.wf() {
            assert forall|k: int| 0 <= k < after.contents().len() implies (
            #[trigger] after.contents()[k]).wf() by {
                if k != i {
                    assert(self.contents()[k].wf());
                }
            }
        }
    }

    /// What the catalog is after a relation of a new name was added to it
    /// and marked as changed.
    pub proof fn lemma_created(&self, after: &StorageEngine, name: Text, relation: Relation)
        requires
            self.wf(),
            !self.contains(name),
            after.names() == self.names().push(name),
            after.contents() == self.contents().push(relation),
            after.flags() == self.flags().push(true),
        ensures
            after.lookup(name) == Some(relation),
            after.is_dirty(name),
            forall|n: Text|
                n != name ==> after.lookup(n) == self.lookup(n) && after.is_dirty(n)
                    == self.is_dirty(
                    n,
                ),
            relation.wf() ==> after.wf(),
    {
        let last = self.names().len() as int;
        assert(after.names()[last] == name);
        assert(after.names().no_duplicates());
        assert(after.names().index_of(name) == last);
        assert forall|n: Text| n != name implies after.lookup(n) == self.lookup(n)
            && after.is_dirty(
            n,
        ) == self.is_dirty(n) by {
            if self.contains(n) {
                let j = self.names().index_of(n);
                assert(after.names()[j] == n);
                assert(after.names().index_of(n) == j);
            }
            if after.contains(n) {
                let j = after.names().index_of(n);
                assert(j != last);
                assert(self.names()[j] == n);
            }
        }
        if relation.wf() {
            assert forall|k: int| 0 <= k < after.contents().len() implies (
            #[trigger] after.contents()[k]).wf() by {
                if k < last {
                    assert(self.contents()[k].wf());
                }
            }
        }
    }

    /// The relation of the given name, to be changed in place. Where the
    /// database has none of that name, `rel` becomes that relation first.
    /// Either way the relation counts as changed from now on.
    pub fn get_or_create_relation(&mut self, name: String, rel: Relation) -> (r: &mut Relation)
        requires
            old(self).wf(),
            rel.wf(),
        ensures
            final(self).directory() == old(self).directory(),
            old(self).contains(name@) ==> Some(*r) == old(self).lookup(name@) && final(self).names()
                == old(self).names() && final(self).contents() == old(self).contents().update(
                old(self).names().index_of(name@),
                *final(r),
            ) && final(self).flags() == old(self).flags().update(
                old(self).names().index_of(name@),
                true,
            ),
            !old(self).contains(name@) ==> *r == rel && final(self).names()
                == old(self).names().push(
                name@,
            ) && final(self).contents() == old(self).contents().push(*final(r))
                && final(self).flags() == old(self).flags().push(true),
    {
        match self.find(&name) {
            Some(i) => {
                self.relations[i].dirty = true;
                &mut self.relations[i].contents
            },
            None => {
                self.relations.push(TaggedRelation { name, contents: rel, dirty: true });
                let last = self.relations.len() - 1;
                &mut self.relations[last].contents
            },
        }
    }
}

} // verus!
