//! Keys and their order.
//!
//! A [`Key`] has a mathematical value, its view, and a strict total order on
//! those values. Queue and message identifiers are byte strings in
//! dictionary order; a line is found by its file and its number.

use vstd::prelude::*;
use vstd::slice::slice_to_vec;

verus! {

/// How one key stands to another.
#[derive(Clone, Copy, PartialEq, Eq, Debug)]
pub enum Order {
    Less,
    Equal,
    Greater,
}

/// A type whose values are kept in ascending order.
pub trait Key: View + Sized {
    /// The strict order: `a` comes before `b`.
    spec fn before(a: Self::V, b: Self::V) -> bool;

    proof fn lemma_irreflexive(a: Self::V)
        ensures
            !Self::before(a, a),
    ;

    proof fn lemma_transitive(a: Self::V, b: Self::V, c: Self::V)
        requires
            Self::before(a, b),
            Self::before(b, c),
        ensures
            Self::before(a, c),
    ;

    proof fn lemma_total(a: Self::V, b: Self::V)
        ensures
            a == b || Self::before(a, b) || Self::before(b, a),
    ;

    fn compare(&self, other: &Self) -> (r: Order)
        ensures
            match r {
                Order::Less => Self::before(self@, other@),
                Order::Equal => self@ == other@,
                Order::Greater => Self::before(other@, self@),
            },
    ;

    fn duplicate(&self) -> (r: Self)
        ensures
            r@ == self@,
    ;
}

/// Dictionary order of two byte strings, decided from position `i` on.
pub open spec fn less_from(a: Seq<u8>, b: Seq<u8>, i: int) -> bool
    decreases a.len() - i,
{
    if i < 0 || i >= b.len() {
        false
    } else if i >= a.len() {
        true
    } else if a[i] != b[i] {
        a[i] < b[i]
    } else {
        less_from(a, b, i + 1)
    }
}

/// Dictionary order: `a` comes before `b` where it is a proper prefix of `b`
/// or holds the smaller byte at the first position where the two differ.
pub open spec fn lex_less(a: Seq<u8>, b: Seq<u8>) -> bool {
    less_from(a, b, 0)
}

/// No byte string comes before itself.
pub proof fn lemma_less_from_irreflexive(a: Seq<u8>, i: int)
    ensures
        !less_from(a, a, i),
    decreases a.len() - i,
{
    if 0 <= i < a.len() {
        lemma_less_from_irreflexive(a, i + 1);
    }
}

/// What comes before a byte string comes before all that it comes before.
pub proof fn lemma_less_from_transitive(a: Seq<u8>, b: Seq<u8>, c: Seq<u8>, i: int)
    requires
        less_from(a, b, i),
        less_from(b, c, i),
    ensures
        less_from(a, c, i),
    decreases a.len() - i,
{
    if i < a.len() && a[i] == b[i] && b[i] == c[i] {
        lemma_less_from_transitive(a, b, c, i + 1);
    }
}

/// Of two different byte strings that agree before `i`, one comes before
/// the other.
pub proof fn lemma_less_from_total(a: Seq<u8>, b: Seq<u8>, i: int)
    requires
        0 <= i <= a.len(),
        i <= b.len(),
        a != b,
        forall|j: int| 0 <= j < i ==> a[j] == b[j],
    ensures
        less_from(a, b, i) || less_from(b, a, i),
    decreases a.len() - i,
{
    if i < a.len() && i < b.len() {
        if a[i] == b[i] {
            lemma_less_from_total(a, b, i + 1);
        }
    } else if i >= a.len() && i >= b.len() {
        assert(a =~= b);
    }
}

impl Key for Vec<u8> {
    open spec fn before(a: Seq<u8>, b: Seq<u8>) -> bool {
        lex_less(a, b)
    }

    proof fn lemma_irreflexive(a: Seq<u8>) {
        lemma_less_from_irreflexive(a, 0);
    }

    proof fn lemma_transitive(a: Seq<u8>, b: Seq<u8>, c: Seq<u8>) {
        lemma_less_from_transitive(a, b, c, 0);
    }

    proof fn lemma_total(a: Seq<u8>, b: Seq<u8>) {
        if a != b {
            lemma_less_from_total(a, b, 0);
        }
    }

    fn compare(&self, other: &Self) -> (r: Order) {
        let mut i: usize = 0;
        while i < self.len() && i < other.len()
            invariant
                i <= self@.len(),
                i <= other@.len(),
                forall|j: int| 0 <= j < i ==> self@[j] == other@[j],
                less_from(self@, other@, i as int) == less_from(self@, other@, 0),
                less_from(other@, self@, i as int) == less_from(other@, self@, 0),
            decreases self@.len() - i,
        {
            if self[i] < other[i] {
                return Order::Less;
            }
            if self[i] > other[i] {
                return Order::Greater;
            }
            i += 1;
        }
        if i < other.len() {
            Order::Less
        } else if i < self.len() {
            Order::Greater
        } else {
            assert(self@ =~= other@);
            Order::Equal
        }
    }

    fn duplicate(&self) -> (r: Self) {
        slice_to_vec(self.as_slice())
    }
}

/// The place of a line: the handle of its file and its number in that file.
#[derive(Clone, Copy, PartialEq, Eq, Debug)]
pub struct LineRef {
    pub file: u64,
    pub number: u64,
}

impl View for LineRef {
    type V = LineRef;

    open spec fn view(&self) -> LineRef {
        *self
    }
}

impl Key for LineRef {
    open spec fn before(a: LineRef, b: LineRef) -> bool {
        a.file < b.file || (a.file == b.file && a.number < b.number)
    }

    proof fn lemma_irreflexive(a: LineRef) {
    }

    proof fn lemma_transitive(a: LineRef, b: LineRef, c: LineRef) {
    }

    proof fn lemma_total(a: LineRef, b: LineRef) {
    }

    fn compare(&self, other: &Self) -> (r: Order) {
        if self.file < other.file {
            Order::Less
        } else if self.file > other.file {
            Order::Greater
        } else if self.number < other.number {
            Order::Less
        } else if self.number > other.number {
            Order::Greater
        } else {
            Order::Equal
        }
    }

    fn duplicate(&self) -> (r: Self) {
        *self
    }
}

} // verus!
