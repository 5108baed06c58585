//! Frames and pattern matching. A frame binds variables to atoms; matching a
//! tuple against a pattern makes one, and a join merges two that agree.

use crate::ast::{AtomicTerm, AtomicTermSpec};
use crate::text::{
    lemma_text_lt_irreflexive, lemma_text_lt_total, lemma_text_lt_transitive, text_less, text_lt,
    Row, Text, Tuple,
};
use vstd::prelude::*;

verus! {

/// A frame, as contracts see it: a map from variable names to atoms.
pub type FrameSpec = Map<Text, Text>;

/// One variable and the atom it stands for.
#[derive(Debug)]
pub struct Binding {
    pub variable: String,
    pub atom: String,
}

/// Bindings of variables to atoms, kept in the order of the variables' names.
#[derive(Debug)]
pub struct Frame {
    entries: Vec<Binding>,
}

/// The names bound by a list of bindings, in the list's order.
pub open spec fn names_of(entries: Seq<Binding>) -> Seq<Text> {
    Seq::new(entries.len(), |i: int| entries[i].variable@)
}

/// Each name comes before every later one.
pub open spec fn ascending(names: Seq<Text>) -> bool {
    forall|i: int, j: int| 0 <= i < j < names.len() ==> text_lt(names[i], names[j])
}

pub proof fn lemma_ascending_distinct(names: Seq<Text>)
    requires
        ascending(names),
    ensures
        names.no_duplicates(),
{
    assert forall|i: int, j: int| 0 <= i < names.len() && 0 <= j < names.len() && i != j
        implies names[i]
        != names[j] by {
        lemma_text_lt_irreflexive(names[i]);
        if i < j {
            assert(text_lt(names[i], names[j]));
        } else {
            assert(text_lt(names[j], names[i]));
        }
    }
}

impl View for Frame {
    type V = FrameSpec;

    closed spec fn view(&self) -> FrameSpec {
        Map::new(
            |k: Text| names_of(self.entries@).contains(k),
            |k: Text| self.entries@[names_of(self.entries@).index_of(k)].atom@,
        )
    }
}

impl Frame {
    /// The bindings are in the strict order of their variables' names, so no
    /// variable is bound twice.
    pub closed spec fn wf(&self) -> bool {
        ascending(names_of(self.entries@))
    }

    /// The variables in the order in which the frame lists them.
    pub closed spec fn names(&self) -> Seq<Text> {
        names_of(self.entries@)
    }

    /// The atoms in the order of their variables.
    pub closed spec fn atoms(&self) -> Seq<Text> {
        Seq::new(self.entries@.len(), |i: int| self.entries@[i].atom@)
    }

    /// What the list of bindings says of the map: the map's keys are the
    /// names listed, in ascending order, and each is bound to the atom
    /// listed with it.
    pub proof fn lemma_listing(&self)
        requires
            self.wf(),
        ensures
            self.names().len() == self.atoms().len(),
            ascending(self.names()),
            self.names().no_duplicates(),
            forall|i: int|
                0 <= i < self.names().len() ==> self@.contains_key(#[trigger] self.names()[i])
                    && self@[self.names()[i]] == self.atoms()[i],
            forall|k: Text| self@.contains_key(k) <==> self.names().contains(k),
            self@.dom().finite(),
    {
        let names = names_of(self.entries@);
        lemma_ascending_distinct(names);
        assert forall|i: int| 0 <= i < names.len() implies self@.contains_key(#[trigger] names[i])
            && self@[names[i]] == self.atoms()[i] by {
            assert(names.contains(names[i]));
            let j = names.index_of(names[i]);
            assert(j == i);
        }
        assert(self@.dom() =~= names.to_set());
        vstd::seq_lib::seq_to_set_is_finite(names);
    }

    /// The frame that binds nothing.
    pub fn new() -> (r: Frame)
        ensures
            r.wf(),
            r@ == Map::<Text, Text>::empty(),
    {
        let r = Frame { entries: Vec::new() };
        assert(r@ =~= Map::<Text, Text>::empty());
        r
    }

    /// How many variables are bound.
    pub fn len(&self) -> (n: usize)
        ensures
            n == self.names().len(),
    {
        self.entries.len()
    }

    /// The `i`-th variable in the order of names.
    pub fn variable(&self, i: usize) -> (r: &String)
        requires
            i < self.names().len(),
        ensures
            r@ == self.names()[i as int],
    {
        &self.entries[i].variable
    }

    /// The atom of the `i`-th variable in the order of names.
    pub fn atom(&self, i: usize) -> (r: &String)
        requires
            i < self.names().len(),
        ensures
            r@ == self.atoms()[i as int],
    {
        &self.entries[i].atom
    }

    /// The atom that `variable` is bound to, if it is bound.
    pub fn get(&self, variable: &String) -> (r: Option<&String>)
        requires
            self.wf(),
        ensures
            match r {
                Some(a) => self@.contains_key(variable@) && a@ == self@[variable@],
                None => !self@.contains_key(variable@),
            },
    {
        proof {
            self.lemma_listing();
        }
        let mut i: usize = 0;
        while i < self.entries.len()
            invariant
                self.wf(),
                i <= self.entries.len(),
                forall|k: int| 0 <= k < i ==> names_of(self.entries@)[k] != variable@,
            decreases self.entries.len() - i,
        {
            if self.entries[i].variable == *variable {
                proof {
                    self.lemma_listing();
                }
                assert(self.names()[i as int] == variable@);
                assert(self.atoms()[i as int] == self.entries@[i as int].atom@);
                return Some(&self.entries[i].atom);
            }
            i += 1;
        }
        None
    }

    /// Binds `variable` to `atom`, in place of what it was bound to before.
    pub fn insert(&mut self, variable: String, atom: String)
        requires
            old(self).wf(),
        ensures
            final(self).wf(),
            final(self)@ == old(self)@.insert(variable@, atom@),
    {
        let ghost before = *self;
        let ghost old_names = before.names();
        proof {
            before.lemma_listing();
        }
        let mut i: usize = 0;
        while i < self.entries.len()
            && text_less(self.entries[i].variable.as_str(), variable.as_str())
            invariant
                i <= self.entries.len(),
                *self == before,
                old_names == names_of(self.entries@),
                forall|k: int| 0 <= k < i ==> text_lt(old_names[k], variable@),
            decreases self.entries.len() - i,
        {
            i += 1;
        }
        if i < self.entries.len() && self.entries[i].variable == variable {
            self.entries[i] = Binding { variable, atom };
            proof {
                let new_names = self.names();
                assert(new_names =~= old_names);
                self.lemma_listing();
                assert(old_names[i as int] == variable@);
                assert(before@.contains_key(before.names()[i as int]));
                assert forall|k: Text| #[trigger] self@.contains_key(k) implies self@[k]
                    == before@.insert(variable@, atom@)[k] by {
                    let j = new_names.index_of(k);
                    assert(self.names()[j] == k);
                    assert(self@[self.names()[j]] == self.atoms()[j]);
                    assert(before@[before.names()[j]] == before.atoms()[j]);
                }
                assert(self@ =~= before@.insert(variable@, atom@));
            }
        } else {
            proof {
                if i < self.entries.len() {
                    lemma_text_lt_total(old_names[i as int], variable@);
                    assert forall|k: int| i <= k < old_names.len() implies text_lt(
                        variable@,
                        old_names[k],
                    ) by {
                        if k > i {
                            assert(text_lt(old_names[i as int], old_names[k]));
                            lemma_text_lt_transitive(variable@, old_names[i as int], old_names[k]);
                        }
                    }
                }
            }
            self.entries.insert(i, Binding { variable, atom });
            proof {
                let new_names = self.names();
                assert(new_names =~= old_names.insert(i as int, variable@));
                assert forall|a: int, b: int| 0 <= a < b < new_names.len() implies text_lt(
                    new_names[a],
                    new_names[b],
                ) by {
                    if a < i && b < i {
                        assert(text_lt(old_names[a], old_names[b]));
                    } else if a < i && b == i {
                    } else if a < i && b > i {
                        assert(text_lt(old_names[a], old_names[b - 1]));
                    } else if a == i {
                        assert(text_lt(variable@, old_names[b - 1]));
                    } else {
                        assert(text_lt(old_names[a - 1], old_names[b - 1]));
                    }
                }
                self.lemma_listing();
                assert forall|k: Text| #[trigger]
                    self@.contains_key(k) == before@.insert(variable@, atom@).contains_key(k) by {
                    if new_names.contains(k) {
                        let j = new_names.index_of(k);
                        if j < i {
                            assert(old_names[j] == k);
                        } else if j > i {
                            assert(old_names[j - 1] == k);
                        }
                    }
                    if old_names.contains(k) {
                        let j = old_names.index_of(k);
                        if j < i {
                            assert(new_names[j] == k);
                        } else {
                            assert(new_names[j + 1] == k);
                        }
                    }
                    if k == variable@ {
                        assert(new_names[i as int] == k);
                    }
                }
                assert forall|k: Text| #[trigger] self@.contains_key(k) implies self@[k]
                    == before@.insert(variable@, atom@)[k] by {
                    let j = new_names.index_of(k);
                    assert(self.names()[j] == k);
                    assert(self@[self.names()[j]] == self.atoms()[j]);
                    lemma_text_lt_irreflexive(variable@);
                    if j < i {
                        assert(before.names()[j] == k);
                        assert(before@[before.names()[j]] == before.atoms()[j]);
                    } else if j > i {
                        assert(before.names()[j - 1] == k);
                        assert(before@[before.names()[j - 1]] == before.atoms()[j - 1]);
                    }
                }
                assert(self@ =~= before@.insert(variable@, atom@));
            }
        }
    }
}

/// Two frames agree when no variable is bound to one atom in the first and
/// to another in the second.
pub open spec fn agree(f1: FrameSpec, f2: FrameSpec) -> bool {
    forall|v: Text| f1.contains_key(v) && f2.contains_key(v) ==> f1[v] == f2[v]
}

/// The merge of two frames: the bindings of both where they agree, nothing
/// where they do not.
pub open spec fn merge_spec(f1: FrameSpec, f2: FrameSpec) -> Option<FrameSpec> {
    if agree(f1, f2) {
        Some(f1.union_prefer_right(f2))
    } else {
        None
    }
}

/// A tuple matches a pattern of its own arity when it holds each atom of the
/// pattern at the atom's position, and one and the same atom at all the
/// positions of each variable.
pub open spec fn pattern_matches(pattern: Seq<AtomicTermSpec>, t: Row) -> bool {
    &&& pattern.len() == t.len()
    &&& forall|i: int|
        0 <= i < pattern.len() && !(#[trigger] pattern[i]).is_variable() ==> pattern[i].text()
            == t[i]
    &&& forall|i: int, j: int|
        0 <= i < pattern.len() && 0 <= j < pattern.len() && pattern[i].is_variable()
            && pattern[i] == pattern[j] ==> t[i] == t[j]
}

/// Whether the variable `v` stands at position `i` of the pattern.
pub open spec fn stands_at(pattern: Seq<AtomicTermSpec>, v: Text, i: int) -> bool {
    0 <= i < pattern.len() && pattern[i] == AtomicTermSpec::Variable(v)
}

/// The variables of a pattern.
pub open spec fn pattern_variables(pattern: Seq<AtomicTermSpec>) -> Set<Text> {
    Set::new(|v: Text| exists|i: int| stands_at(pattern, v, i))
}

/// The frame that a matching tuple gives: each variable of the pattern,
/// bound to the atom at one of its positions.
pub open spec fn pattern_binding(pattern: Seq<AtomicTermSpec>, t: Row) -> FrameSpec {
    Map::new(
        |v: Text| pattern_variables(pattern).contains(v),
        |v: Text| t[choose|i: int| stands_at(pattern, v, i)],
    )
}

/// The result of matching a tuple against a pattern.
pub open spec fn match_spec(pattern: Seq<AtomicTermSpec>, t: Row) -> Option<FrameSpec> {
    if pattern_matches(pattern, t) {
        Some(pattern_binding(pattern, t))
    } else {
        None
    }
}

/// An ordered list of atoms and variables that tuples are held against.
#[derive(Debug)]
pub struct Pattern {
    params: Vec<AtomicTerm>,
}

impl View for Pattern {
    type V = Seq<AtomicTermSpec>;

    closed spec fn view(&self) -> Seq<AtomicTermSpec> {
        self.params.deep_view()
    }
}

impl Pattern {
    pub fn new(params: Vec<AtomicTerm>) -> (r: Pattern)
        ensures
            r@ == params.deep_view(),
    {
        Pattern { params }
    }

    /// Matches the tuple against this pattern, and returns the bindings of
    /// the pattern's variables that make the match, or `None` if the tuple
    /// does not match.
    pub fn match_tuple(&self, t: &Tuple) -> (r: Option<Frame>)
        ensures
            match r {
                Some(f) => f.wf() && Some(f@) == match_spec(self@, t.deep_view()),
                None => match_spec(self@, t.deep_view()).is_none(),
            },
    {
        let ghost pattern = self@;
        let ghost row = t.deep_view();
        if self.params.len() != t.len() {
            return None;
        }
        let mut frame = Frame::new();
        let mut i: usize = 0;
        while i < self.params.len()
            invariant
                i <= self.params.len(),
                self.params.len() == t.len(),
                pattern == self.params.deep_view(),
                row == t.deep_view(),
                frame.wf(),
                forall|k: int|
                    0 <= k < i && !(#[trigger] pattern[k]).is_variable() ==> pattern[k].text()
                        == row[k],
                forall|k: int|
                    0 <= k < i && (#[trigger] pattern[k]).is_variable() ==> frame@.contains_key(
                        pattern[k].text(),
                    ) && frame@[pattern[k].text()] == row[k],
                forall|v: Text| #[trigger]
                    frame@.contains_key(v) ==> exists|k: int| 0 <= k < i
                        && stands_at(pattern, v, k),
            decreases self.params.len() - i,
        {
            assert(pattern[i as int] == self.params[i as int]@);
            assert(row[i as int] == t[i as int]@);
            match &self.params[i] {
                AtomicTerm::Atom(s) => {
                    if *s != t[i] {
                        return None;
                    }
                },
                AtomicTerm::Variable(s) => {
                    let ghost before = frame@;
                    match frame.get(s) {
                        Some(b) => {
                            if *b != t[i] {
                                proof {
                                    let k = choose|k: int| 0 <= k < i && stands_at(pattern, s@, k);
                                    assert(pattern[k].is_variable());
                                    assert(row[k] != row[i as int]);
                                }
                                return None;
                            }
                        },
                        None => {
                            frame.insert(s.clone(), t[i].clone());
                            assert forall|v: Text| #[trigger] frame@.contains_key(v) implies exists|
                                k: int,
                            |
                                0 <= k < i + 1 && stands_at(pattern, v, k) by {
                                if v == s@ {
                                    assert(stands_at(pattern, v, i as int));
                                } else {
                                    assert(before.contains_key(v));
                                    let k = choose|k: int| 0 <= k < i && stands_at(pattern, v, k);
                                    assert(stands_at(pattern, v, k));
                                }
                            }
                        },
                    }
                },
            }
            i += 1;
        }
        proof {
            assert(pattern_matches(pattern, row)) by {
                assert forall|a: int, b: int|
                    0 <= a < pattern.len() && 0 <= b < pattern.len() && pattern[a].is_variable()
                        && pattern[a] == pattern[b] implies row[a] == row[b] by {
                    assert(frame@[pattern[a].text()] == row[a]);
                    assert(frame@[pattern[b].text()] == row[b]);
                }
            }
            let binding = pattern_binding(pattern, row);
            assert forall|v: Text| #[trigger] frame@.contains_key(v) == binding.contains_key(v) by {
                if binding.contains_key(v) {
                    let k = choose|k: int| stands_at(pattern, v, k);
                    assert(pattern[k].is_variable());
                }
            }
            assert forall|v: Text| #[trigger] frame@.contains_key(v) implies frame@[v]
                == binding[v] by {
                let k = choose|k: int| stands_at(pattern, v, k);
                assert(pattern[k].is_variable());
                assert(pattern[k].text() == v);
            }
            assert(frame@ =~= binding);
        }
        Some(frame)
    }
}

/// Merges two frames: the bindings of both, if no variable is bound
/// differently in the two, and `None` otherwise.
pub fn merge_frames(f1: &Frame, f2: &Frame) -> (r: Option<Frame>)
    requires
        f1.wf(),
        f2.wf(),
    ensures
        match r {
            Some(f) => f.wf() && Some(f@) == merge_spec(f1@, f2@),
            None => merge_spec(f1@, f2@).is_none(),
        },
{
    proof {
        f1.lemma_listing();
        f2.lemma_listing();
    }
    let mut result = Frame::new();
    let mut i: usize = 0;
    while i < f1.len()
        invariant
            i <= f1.names().len(),
            f1.wf(),
            f2.wf(),
            result.wf(),
            forall|k: int|
                0 <= k < i ==> result@.contains_key(#[trigger] f1.names()[k])
                    && result@[f1.names()[k]]
                    == f1@[f1.names()[k]],
            forall|k: int|
                0 <= k < i && f2@.contains_key(#[trigger] f1.names()[k]) ==> f2@[f1.names()[k]]
                    == f1@[f1.names()[k]],
            forall|v: Text| #[trigger] result@.contains_key(v) ==> f1@.contains_key(v),
        decreases f1.names().len() - i,
    {
        let var = f1.variable(i);
        let binding1 = f1.atom(i);
        proof {
            f1.lemma_listing();
        }
        match f2.get(var) {
            Some(binding2) => {
                if *binding1 != *binding2 {
                    return None;
                }
            },
            None => {},
        }
        result.insert(var.clone(), binding1.clone());
        i += 1;
    }
    assert(result@ =~= f1@) by {
        f1.lemma_listing();
        assert forall|v: Text| f1@.contains_key(v) implies #[trigger] result@.contains_key(v)
            && result@[v] == f1@[v] by {
            let k = f1.names().index_of(v);
            assert(f1.names()[k] == v);
        }
    }
    assert(agree(f1@, f2@)) by {
        f1.lemma_listing();
        assert forall|v: Text| f1@.contains_key(v) && f2@.contains_key(v) implies f1@[v]
            == f2@[v] by {
            let k = f1.names().index_of(v);
            assert(f1.names()[k] == v);
        }
    }
    let mut j: usize = 0;
    while j < f2.len()
        invariant
            j <= f2.names().len(),
            f1.wf(),
            f2.wf(),
            result.wf(),
            agree(f1@, f2@),
            forall|v: Text| #[trigger] f1@.contains_key(v) ==> result@.contains_key(v) && result@[v]
                == f1@[v],
            forall|k: int|
                0 <= k < j ==> result@.contains_key(#[trigger] f2.names()[k])
                    && result@[f2.names()[k]]
                    == f2@[f2.names()[k]],
            forall|v: Text| #[trigger]
                result@.contains_key(v) ==> f1@.contains_key(v) || f2@.contains_key(v),
        decreases f2.names().len() - j,
    {
        let var = f2.variable(j);
        let binding2 = f2.atom(j);
        proof {
            f2.lemma_listing();
        }
        match f1.get(var) {
            Some(binding1) => {
                if *binding1 != *binding2 {
                    return None;
                }
            },
            None => {},
        }
        result.insert(var.clone(), binding2.clone());
        j += 1;
    }
    proof {
        f2.lemma_listing();
        let merged = f1@.union_prefer_right(f2@);
        assert forall|v: Text| #[trigger] result@.contains_key(v) == merged.contains_key(v) by {
            if f2@.contains_key(v) {
                let k = f2.names().index_of(v);
                assert(f2.names()[k] == v);
            }
        }
        assert forall|v: Text| #[trigger] result@.contains_key(v) implies result@[v]
            == merged[v] by {
            if f2@.contains_key(v) {
                let k = f2.names().index_of(v);
                assert(f2.names()[k] == v);
            }
        }
        assert(result@ =~= merged);
    }
    Some(result)
}

} // verus!
