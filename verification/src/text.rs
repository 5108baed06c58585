//! Atoms and variable names are strings; contracts speak of them as sequences
//! of characters. This module holds the order on names that frames are kept
//! in, and the helpers that copy and compare tuples of atoms.

use vstd::prelude::*;

verus! {

/// The text of an atom or of a name.
pub type Text = Seq<char>;

/// A row of a relation: one atom per column.
pub type Tuple = Vec<String>;

/// A row, as contracts see it.
pub type Row = Seq<Text>;

/// `a` comes before `b` when the two are compared character by character from
/// position `i` on: the first position where they differ decides, and a text
/// that ends first comes first.
pub open spec fn lt_from(a: Text, b: Text, i: int) -> bool
    decreases b.len() - i,
{
    if i < 0 || i >= b.len() {
        false
    } else if i >= a.len() {
        true
    } else if a[i] != b[i] {
        (a[i] as u32) < (b[i] as u32)
    } else {
        lt_from(a, b, i + 1)
    }
}

/// The lexicographic order on texts, by code point.
pub open spec fn text_lt(a: Text, b: Text) -> bool {
    lt_from(a, b, 0)
}

pub proof fn lemma_lt_from_irreflexive(a: Text, i: int)
    requires
        0 <= i,
    ensures
        !lt_from(a, a, i),
    decreases a.len() - i,
{
    if i < a.len() {
        lemma_lt_from_irreflexive(a, i + 1);
    }
}

pub proof fn lemma_lt_from_transitive(a: Text, b: Text, c: Text, i: int)
    requires
        0 <= i,
        lt_from(a, b, i),
        lt_from(b, c, i),
    ensures
        lt_from(a, c, i),
    decreases c.len() - i,
{
    if i < a.len() && i < b.len() && i < c.len() && a[i] == b[i] && b[i] == c[i] {
        lemma_lt_from_transitive(a, b, c, i + 1);
    }
}

/// Two texts that agree before `i` are equal, or one comes before the other.
pub proof fn lemma_lt_from_total(a: Text, b: Text, i: int)
    requires
        0 <= i <= a.len(),
        i <= b.len(),
        forall|k: int| 0 <= k < i ==> a[k] == b[k],
    ensures
        a == b || lt_from(a, b, i) || lt_from(b, a, i),
    decreases a.len() - i,
{
    if i < a.len() && i < b.len() {
        if a[i] == b[i] {
            lemma_lt_from_total(a, b, i + 1);
        } else {
            vstd::utf8::char_u32_cast(a[i], a[i] as u32);
            vstd::utf8::char_u32_cast(b[i], b[i] as u32);
        }
    } else if i == a.len() && i == b.len() {
        assert(a =~= b);
    }
}

/// No text comes before itself.
pub proof fn lemma_text_lt_irreflexive(a: Text)
    ensures
        !text_lt(a, a),
{
    lemma_lt_from_irreflexive(a, 0);
}

/// The order on texts is transitive.
pub proof fn lemma_text_lt_transitive(a: Text, b: Text, c: Text)
    requires
        text_lt(a, b),
        text_lt(b, c),
    ensures
        text_lt(a, c),
{
    lemma_lt_from_transitive(a, b, c, 0);
}

/// Of two different texts one comes before the other.
pub proof fn lemma_text_lt_total(a: Text, b: Text)
    ensures
        a == b || text_lt(a, b) || text_lt(b, a),
{
    lemma_lt_from_total(a, b, 0);
}

/// Whether `a` comes before `b`. Reads both texts character by character, and
/// looks each character up from the start of its text.
pub fn text_less(a: &str, b: &str) -> (r: bool)
    ensures
        r == text_lt(a@, b@),
{
    let n = a.unicode_len();
    let m = b.unicode_len();
    let mut i: usize = 0;
    while i < n && i < m
        invariant
            i <= n,
            i <= m,
            n == a@.len(),
            m == b@.len(),
            text_lt(a@, b@) == lt_from(a@, b@, i as int),
        decreases n - i,
    {
        let x = a.get_char(i);
        let y = b.get_char(i);
        if x != y {
            return x < y;
        }
        i += 1;
    }
    i < m
}

/// The rows of a list of tuples.
pub open spec fn rows_of(tuples: Seq<Tuple>) -> Seq<Row> {
    Seq::new(tuples.len(), |i: int| tuples[i].deep_view())
}

/// A copy of a tuple.
pub fn clone_tuple(t: &Tuple) -> (r: Tuple)
    ensures
        r.deep_view() == t.deep_view(),
{
    let mut r: Tuple = Vec::new();
    let mut i: usize = 0;
    while i < t.len()
        invariant
            i <= t.len(),
            r.len() == i,
            forall|k: int| 0 <= k < i ==> r[k]@ == t[k]@,
        decreases t.len() - i,
    {
        r.push(t[i].clone());
        i += 1;
    }
    assert(r.deep_view() =~= t.deep_view());
    r
}

/// Whether two tuples hold the same atoms in the same columns.
pub fn same_tuple(a: &Tuple, b: &Tuple) -> (r: bool)
    ensures
        r == (a.deep_view() == b.deep_view()),
{
    if a.len() != b.len() {
        assert(a.deep_view().len() != b.deep_view().len());
        return false;
    }
    let mut i: usize = 0;
    while i < a.len()
        invariant
            i <= a.len(),
            a.len() == b.len(),
            forall|k: int| 0 <= k < i ==> a[k]@ == b[k]@,
        decreases a.len() - i,
    {
        if a[i] != b[i] {
            assert(a.deep_view()[i as int] != b.deep_view()[i as int]);
            return false;
        }
        i += 1;
    }
    assert(a.deep_view() =~= b.deep_view());
    true
}

/// A copy of a list of tuples.
pub fn clone_tuples(ts: &Vec<Tuple>) -> (r: Vec<Tuple>)
    ensures
        rows_of(r@) == rows_of(ts@),
{
    let mut r: Vec<Tuple> = Vec::new();
    let mut i: usize = 0;
    while i < ts.len()
        invariant
            i <= ts.len(),
            r.len() == i,
            forall|k: int| 0 <= k < i ==> r[k].deep_view() == ts[k].deep_view(),
        decreases ts.len() - i,
    {
        r.push(clone_tuple(&ts[i]));
        i += 1;
    }
    assert(rows_of(r@) =~= rows_of(ts@));
    r
}

/// Whether a list of tuples holds the given one.
pub fn holds_tuple(ts: &Vec<Tuple>, t: &Tuple) -> (r: bool)
    ensures
        r == rows_of(ts@).contains(t.deep_view()),
{
    let mut i: usize = 0;
    while i < ts.len()
        invariant
            i <= ts.len(),
            forall|k: int| 0 <= k < i ==> rows_of(ts@)[k] != t.deep_view(),
        decreases ts.len() - i,
    {
        if same_tuple(&ts[i], t) {
            assert(rows_of(ts@)[i as int] == t.deep_view());
            return true;
        }
        i += 1;
    }
    false
}

/// Whether a list of texts holds the given one.
pub fn holds_text(list: &Vec<String>, text: &String) -> (r: bool)
    ensures
        r == list.deep_view().contains(text@),
{
    let mut i: usize = 0;
    while i < list.len()
        invariant
            i <= list.len(),
            forall|k: int| 0 <= k < i ==> list.deep_view()[k] != text@,
        decreases list.len() - i,
    {
        if list[i] == *text {
            assert(list.deep_view()[i as int] == text@);
            return true;
        }
        i += 1;
    }
    false
}

/// A copy of a list of texts with one more text at its end.
pub fn with_text(list: &Vec<String>, text: &String) -> (r: Vec<String>)
    ensures
        r.deep_view() == list.deep_view().push(text@),
{
    let mut r: Vec<String> = Vec::new();
    let mut i: usize = 0;
    while i < list.len()
        invariant
            i <= list.len(),
            r.len() == i,
            forall|k: int| 0 <= k < i ==> r[k]@ == list[k]@,
        decreases list.len() - i,
    {
        r.push(list[i].clone());
        i += 1;
    }
    r.push(text.clone());
    assert(r.deep_view() =~= list.deep_view().push(text@));
    r
}

/// A copy of a list of texts.
pub fn clone_texts(list: &Vec<String>) -> (r: Vec<String>)
    ensures
        r.deep_view() == list.deep_view(),
{
    let mut r: Vec<String> = Vec::new();
    let mut i: usize = 0;
    while i < list.len()
        invariant
            i <= list.len(),
            r.len() == i,
            forall|k: int| 0 <= k < i ==> r[k]@ == list[k]@,
        decreases list.len() - i,
    {
        r.push(list[i].clone());
        i += 1;
    }
    assert(r.deep_view() =~= list.deep_view());
    r
}

/// Calls `String::push`, which appends the character to the end of the
/// string.
#[verifier::external_body]
pub(crate) fn push_char(s: &mut String, c: char)
    ensures
        final(s)@ == old(s)@.push(c),
{
    s.push(c)
}

/// What formatting a text with `{:?}` gives.
pub uninterp spec fn text_debug(s: Seq<char>) -> Seq<char>;

/// Formats a text with `{:?}`, which for a string is its `Debug`
/// implementation: the text between double quotes, with the characters
/// escaped that Rust's string literals escape. The contract names what it
/// returns and says no more of it.
#[verifier::external_body]
pub(crate) fn debug_text(s: &String) -> (r: String)
    ensures
        r@ == text_debug(s@),
{
    format!("{:?}", s)
}

/// The character of a digit.
pub open spec fn digit_spec(d: nat) -> char {
    if d == 0 {
        '0'
    } else if d == 1 {
        '1'
    } else if d == 2 {
        '2'
    } else if d == 3 {
        '3'
    } else if d == 4 {
        '4'
    } else if d == 5 {
        '5'
    } else if d == 6 {
        '6'
    } else if d == 7 {
        '7'
    } else if d == 8 {
        '8'
    } else {
        '9'
    }
}

/// A number in decimal digits, without leading zeros.
pub open spec fn decimal_spec(n: nat) -> Text
    decreases n,
{
    if n < 10 {
        seq![digit_spec(n)]
    } else {
        decimal_spec(n / 10).push(digit_spec(n % 10))
    }
}

/// The character of a digit.
fn digit(d: usize) -> (c: char)
    requires
        d < 10,
    ensures
        c == digit_spec(d as nat),
{
    if d == 0 {
        '0'
    } else if d == 1 {
        '1'
    } else if d == 2 {
        '2'
    } else if d == 3 {
        '3'
    } else if d == 4 {
        '4'
    } else if d == 5 {
        '5'
    } else if d == 6 {
        '6'
    } else if d == 7 {
        '7'
    } else if d == 8 {
        '8'
    } else {
        '9'
    }
}

/// A number in decimal digits.
pub fn decimal(n: usize) -> (r: String)
    ensures
        r@ == decimal_spec(n as nat),
    decreases n,
{
    if n < 10 {
        let mut s = String::new();
        push_char(&mut s, digit(n));
        assert(s@ =~= seq![digit_spec(n as nat)]);
        s
    } else {
        let mut s = decimal(n / 10);
        push_char(&mut s, digit(n % 10));
        s
    }
}

} // verus!
