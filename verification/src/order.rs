//! Total orders that contracts can speak of, and least elements of sets.

use vstd::prelude::*;

verus! {

/// How one value stands to another in a total order.
#[derive(Clone, Copy, Debug, PartialEq, Eq, Structural)]
pub enum Order {
    Less,
    Equal,
    Greater,
}

/// A type whose views are totally ordered by `precedes`, with an executable
/// three-way comparison that decides that order.
pub trait TotalOrder: View {
    /// The strict order: `a` comes before `b`.
    spec fn precedes(a: Self::V, b: Self::V) -> bool;

    proof fn lemma_irreflexive(a: Self::V)
        ensures
            !Self::precedes(a, a),
    ;

    proof fn lemma_transitive(a: Self::V, b: Self::V, c: Self::V)
        requires
            Self::precedes(a, b),
            Self::precedes(b, c),
        ensures
            Self::precedes(a, c),
    ;

    proof fn lemma_connected(a: Self::V, b: Self::V)
        ensures
            a == b || Self::precedes(a, b) || Self::precedes(b, a),
    ;

    fn compare(&self, other: &Self) -> (order: Order)
        ensures
            order == (if Self::precedes(self@, other@) {
                Order::Less
            } else if Self::precedes(other@, self@) {
                Order::Greater
            } else {
                Order::Equal
            }),
    ;
}

/// The place of `a` relative to `b`.
pub open spec fn relate<O: TotalOrder + ?Sized>(a: O::V, b: O::V) -> Order {
    if O::precedes(a, b) {
        Order::Less
    } else if O::precedes(b, a) {
        Order::Greater
    } else {
        Order::Equal
    }
}

/// `a` equals `b` or comes before it.
pub open spec fn at_most<O: TotalOrder + ?Sized>(a: O::V, b: O::V) -> bool {
    !O::precedes(b, a)
}

pub proof fn lemma_asymmetric<O: TotalOrder + ?Sized>(a: O::V, b: O::V)
    requires
        O::precedes(a, b),
    ensures
        !O::precedes(b, a),
        a != b,
{
    if O::precedes(b, a) {
        O::lemma_transitive(a, b, a);
    }
    O::lemma_irreflexive(a);
}

/// `relate` tells the three cases of a total order apart.
pub proof fn lemma_relate<O: TotalOrder + ?Sized>(a: O::V, b: O::V)
    ensures
        relate::<O>(a, b) is Less <==> O::precedes(a, b),
        relate::<O>(a, b) is Equal <==> a == b,
        relate::<O>(a, b) is Greater <==> O::precedes(b, a),
{
    O::lemma_connected(a, b);
    O::lemma_irreflexive(a);
    if O::precedes(a, b) {
        lemma_asymmetric::<O>(a, b);
    }
}

pub proof fn lemma_precedes_then_at_most<O: TotalOrder + ?Sized>(a: O::V, b: O::V, c: O::V)
    requires
        O::precedes(a, b),
        at_most::<O>(b, c),
    ensures
        O::precedes(a, c),
{
    O::lemma_connected(b, c);
    if b != c {
        O::lemma_transitive(a, b, c);
    }
}

pub proof fn lemma_at_most_transitive<O: TotalOrder + ?Sized>(a: O::V, b: O::V, c: O::V)
    requires
        at_most::<O>(a, b),
        at_most::<O>(b, c),
    ensures
        at_most::<O>(a, c),
{
    if O::precedes(c, a) {
        lemma_precedes_then_at_most::<O>(c, a, b);
    }
}

/// `m` is the least element of `s`, or `None` where `s` is empty.
pub open spec fn is_min<O: TotalOrder + ?Sized>(s: Set<O::V>, m: Option<O::V>) -> bool {
    match m {
        Some(x) => s.contains(x) && forall|y: O::V| s.contains(y) ==> at_most::<O>(x, y),
        None => forall|y: O::V| !s.contains(y),
    }
}

/// The elements of `s` that come after `t`.
pub open spec fn above<O: TotalOrder + ?Sized>(s: Set<O::V>, t: O::V) -> Set<O::V> {
    Set::new(|x: O::V| s.contains(x) && O::precedes(t, x))
}

/// The elements of `s` that do not come before `t`.
pub open spec fn from<O: TotalOrder + ?Sized>(s: Set<O::V>, t: O::V) -> Set<O::V> {
    Set::new(|x: O::V| s.contains(x) && at_most::<O>(t, x))
}

/// A set has at most one least element.
pub proof fn lemma_min_unique<O: TotalOrder + ?Sized>(
    s: Set<O::V>,
    a: Option<O::V>,
    b: Option<O::V>,
)
    requires
        is_min::<O>(s, a),
        is_min::<O>(s, b),
    ensures
        a == b,
{
    if let Some(x) = a {
        if let Some(y) = b {
            O::lemma_connected(x, y);
        }
    }
}

/// Each element of `xs` comes before the next.
pub open spec fn strictly_ascending<O: TotalOrder + ?Sized>(xs: Seq<O::V>) -> bool {
    forall|i: int, j: int| 0 <= i < j < xs.len() ==> O::precedes(#[trigger] xs[i], #[trigger] xs[j])
}

/// The element of `xs` at `i`, or `None` past its end.
pub open spec fn element_at<A>(xs: Seq<A>, i: int) -> Option<A> {
    if 0 <= i < xs.len() {
        Some(xs[i])
    } else {
        None
    }
}

/// An ascending sequence holds each element at one index only.
pub proof fn lemma_ascending_index<O: TotalOrder + ?Sized>(xs: Seq<O::V>, i: int)
    requires
        strictly_ascending::<O>(xs),
        0 <= i < xs.len(),
    ensures
        xs.contains(xs[i]),
        xs.index_of(xs[i]) == i,
{
    let j = xs.index_of(xs[i]);
    assert(xs.contains(xs[i]));
    O::lemma_irreflexive(xs[i]);
    if j < i {
        assert(O::precedes(xs[j], xs[i]));
    } else if i < j {
        assert(O::precedes(xs[i], xs[j]));
    }
}

/// In an ascending sequence, the order of two elements is that of their
/// indices.
pub proof fn lemma_ascending_order<O: TotalOrder + ?Sized>(xs: Seq<O::V>, i: int, j: int)
    requires
        strictly_ascending::<O>(xs),
        0 <= i < xs.len(),
        0 <= j < xs.len(),
    ensures
        O::precedes(xs[i], xs[j]) <==> i < j,
        xs[i] == xs[j] <==> i == j,
{
    O::lemma_irreflexive(xs[i]);
    if i < j {
        assert(O::precedes(xs[i], xs[j]));
        lemma_asymmetric::<O>(xs[i], xs[j]);
    } else if j < i {
        assert(O::precedes(xs[j], xs[i]));
        lemma_asymmetric::<O>(xs[j], xs[i]);
    }
}

/// Where `s` holds the elements of an ascending sequence from index `j`
/// on, and no others, its least element is the one at `j`.
pub proof fn lemma_min_of_suffix<O: TotalOrder + ?Sized>(xs: Seq<O::V>, j: int, s: Set<O::V>)
    requires
        strictly_ascending::<O>(xs),
        0 <= j <= xs.len(),
        forall|i: int| j <= i < xs.len() ==> s.contains(#[trigger] xs[i]),
        forall|y: O::V| s.contains(y) ==> exists|i: int| j <= i < xs.len() && xs[i] == y,
    ensures
        is_min::<O>(s, element_at(xs, j)),
{
    if j < xs.len() {
        assert forall|y: O::V| s.contains(y) implies at_most::<O>(xs[j], y) by {
            let i = choose|i: int| j <= i < xs.len() && xs[i] == y;
            lemma_ascending_order::<O>(xs, i, j);
        }
    }
}

/// The least element of an ascending sequence is its first.
pub proof fn lemma_min_is_first<O: TotalOrder + ?Sized>(xs: Seq<O::V>)
    requires
        strictly_ascending::<O>(xs),
    ensures
        is_min::<O>(xs.to_set(), element_at(xs, 0)),
{
    lemma_min_of_suffix::<O>(xs, 0, xs.to_set());
}

/// The least element after the one at `i` is the one at `i + 1`.
pub proof fn lemma_min_above_is_next<O: TotalOrder + ?Sized>(xs: Seq<O::V>, i: int)
    requires
        strictly_ascending::<O>(xs),
        0 <= i < xs.len(),
    ensures
        is_min::<O>(above::<O>(xs.to_set(), xs[i]), element_at(xs, i + 1)),
{
    let s = above::<O>(xs.to_set(), xs[i]);
    assert forall|n: int| i + 1 <= n < xs.len() implies s.contains(#[trigger] xs[n]) by {
        lemma_ascending_order::<O>(xs, i, n);
    }
    assert forall|y: O::V| s.contains(y) implies exists|n: int|
        i + 1 <= n < xs.len() && xs[n] == y by {
        let n = choose|n: int| 0 <= n < xs.len() && xs[n] == y;
        lemma_ascending_order::<O>(xs, i, n);
    }
    lemma_min_of_suffix::<O>(xs, i + 1, s);
}

/// Where the elements before index `j` come before `t` and the others do
/// not, the least element not before `t` is the one at `j`.
pub proof fn lemma_min_from_is_bound<O: TotalOrder + ?Sized>(xs: Seq<O::V>, j: int, t: O::V)
    requires
        strictly_ascending::<O>(xs),
        0 <= j <= xs.len(),
        forall|i: int| 0 <= i < j ==> O::precedes(#[trigger] xs[i], t),
        forall|i: int| j <= i < xs.len() ==> !O::precedes(#[trigger] xs[i], t),
    ensures
        is_min::<O>(from::<O>(xs.to_set(), t), element_at(xs, j)),
{
    let s = from::<O>(xs.to_set(), t);
    assert forall|y: O::V| s.contains(y) implies exists|n: int|
        j <= n < xs.len() && xs[n] == y by {
        let n = choose|n: int| 0 <= n < xs.len() && xs[n] == y;
        assert(xs[n] == y);
    }
    lemma_min_of_suffix::<O>(xs, j, s);
}

} // verus!
