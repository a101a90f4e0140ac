//! Byte strings: their lexicographic order and a prefix test.

use crate::order::{Order, TotalOrder};
use vstd::prelude::*;

verus! {

/// `a` and `b` agree on their first `i` bytes, and there `a` ends or holds
/// the smaller byte.
pub open spec fn parts_at(a: Seq<u8>, b: Seq<u8>, i: int) -> bool {
    &&& 0 <= i <= a.len()
    &&& i < b.len()
    &&& forall|j: int| 0 <= j < i ==> a[j] == b[j]
    &&& (i == a.len() || a[i] < b[i])
}

/// The lexicographic order of byte strings: `a` is a proper prefix of `b`,
/// or holds the smaller byte where the two first differ.
pub open spec fn bytes_precede(a: Seq<u8>, b: Seq<u8>) -> bool {
    exists|i: int| parts_at(a, b, i)
}

pub proof fn lemma_bytes_transitive(a: Seq<u8>, b: Seq<u8>, c: Seq<u8>)
    requires
        bytes_precede(a, b),
        bytes_precede(b, c),
    ensures
        bytes_precede(a, c),
{
    let i = choose|i: int| parts_at(a, b, i);
    let j = choose|j: int| parts_at(b, c, j);
    if i <= j {
        assert(parts_at(a, c, i));
    } else {
        assert(parts_at(a, c, j));
    }
}

pub proof fn lemma_bytes_asymmetric(a: Seq<u8>, b: Seq<u8>)
    requires
        bytes_precede(a, b),
    ensures
        !bytes_precede(b, a),
{
    if bytes_precede(b, a) {
        lemma_bytes_transitive(a, b, a);
    }
}

/// Two byte strings that agree on their first `i` bytes are equal or ordered.
pub proof fn lemma_bytes_connected(a: Seq<u8>, b: Seq<u8>, i: int)
    requires
        0 <= i <= a.len(),
        i <= b.len(),
        forall|j: int| 0 <= j < i ==> a[j] == b[j],
    ensures
        a == b || bytes_precede(a, b) || bytes_precede(b, a),
    decreases a.len() - i,
{
    if i == a.len() {
        if i == b.len() {
            assert(a =~= b);
        } else {
            assert(parts_at(a, b, i));
        }
    } else if i == b.len() {
        assert(parts_at(b, a, i));
    } else if a[i] < b[i] {
        assert(parts_at(a, b, i));
    } else if b[i] < a[i] {
        assert(parts_at(b, a, i));
    } else {
        lemma_bytes_connected(a, b, i + 1);
    }
}

impl TotalOrder for [u8] {
    open spec fn precedes(a: Seq<u8>, b: Seq<u8>) -> bool {
        bytes_precede(a, b)
    }

    proof fn lemma_irreflexive(a: Seq<u8>) {
    }

    proof fn lemma_transitive(a: Seq<u8>, b: Seq<u8>, c: Seq<u8>) {
        lemma_bytes_transitive(a, b, c);
    }

    proof fn lemma_connected(a: Seq<u8>, b: Seq<u8>) {
        lemma_bytes_connected(a, b, 0);
    }

    fn compare(&self, other: &Self) -> (order: Order) {
        let shorter = if self.len() < other.len() {
            self.len()
        } else {
            other.len()
        };
        let mut i: usize = 0;
        while i < shorter
            invariant
                i <= shorter,
                shorter <= self@.len(),
                shorter <= other@.len(),
                forall|j: int| 0 <= j < i ==> self@[j] == other@[j],
            decreases shorter - i,
        {
            if self[i] < other[i] {
                proof {
                    assert(parts_at(self@, other@, i as int));
                    lemma_bytes_asymmetric(self@, other@);
                }
                return Order::Less;
            }
            if other[i] < self[i] {
                proof {
                    assert(parts_at(other@, self@, i as int));
                    lemma_bytes_asymmetric(other@, self@);
                }
                return Order::Greater;
            }
            i += 1;
        }
        if self.len() < other.len() {
            proof {
                assert(parts_at(self@, other@, i as int));
                lemma_bytes_asymmetric(self@, other@);
            }
            Order::Less
        } else if other.len() < self.len() {
            proof {
                assert(parts_at(other@, self@, i as int));
                lemma_bytes_asymmetric(other@, self@);
            }
            Order::Greater
        } else {
            proof {
                assert(self@ =~= other@);
            }
            Order::Equal
        }
    }
}

impl TotalOrder for Vec<u8> {
    open spec fn precedes(a: Seq<u8>, b: Seq<u8>) -> bool {
        bytes_precede(a, b)
    }

    proof fn lemma_irreflexive(a: Seq<u8>) {
    }

    proof fn lemma_transitive(a: Seq<u8>, b: Seq<u8>, c: Seq<u8>) {
        lemma_bytes_transitive(a, b, c);
    }

    proof fn lemma_connected(a: Seq<u8>, b: Seq<u8>) {
        lemma_bytes_connected(a, b, 0);
    }

    fn compare(&self, other: &Self) -> (order: Order) {
        self.as_slice().compare(other.as_slice())
    }
}

/// Whether `query` is a prefix of `source`.
pub fn starts_with(source: &[u8], query: &[u8]) -> (found: bool)
    ensures
        found == (source@.len() >= query@.len() && source@.subrange(0, query@.len() as int)
            == query@),
{
    if source.len() < query.len() {
        return false;
    }
    let mut i: usize = 0;
    while i < query.len()
        invariant
            i <= query@.len() <= source@.len(),
            forall|j: int| 0 <= j < i ==> source@[j] == query@[j],
        decreases query@.len() - i,
    {
        if source[i] != query[i] {
            proof {
                assert(source@.subrange(0, query@.len() as int)[i as int] != query@[i as int]);
            }
            return false;
        }
        i += 1;
    }
    proof {
        assert(source@.subrange(0, query@.len() as int) =~= query@);
    }
    true
}

} // verus!
