//! The strict total order on keys that the ordered containers rely on.
//!
//! Keys are compared with the standard `Ord` operators.  The predicates here
//! name the assumption that those operators form a strict total order which
//! agrees with equality, and expose the order's laws in a form that proofs
//! about sorted sequences can use directly.

use std::cmp::Ordering;
use vstd::laws_cmp::obeys_cmp;
use vstd::laws_eq::obeys_concrete_eq;
use vstd::prelude::*;
use vstd::std_specs::cmp::{OrdSpec, PartialOrdSpec};

verus! {

/// `a` is strictly below `b` in the order that `<` computes.
pub open spec fn key_lt<K: Ord>(a: K, b: K) -> bool {
    a.partial_cmp_spec(&b) == Some(Ordering::Less)
}

/// The comparison operators of `K` obey the laws of a total order, and
/// comparing equal means being the same value.
pub open spec fn total_order<K: Ord>() -> bool {
    &&& obeys_cmp::<K>()
    &&& obeys_concrete_eq::<K>()
}

/// A sequence is strictly ascending.
pub open spec fn sorted<K: Ord>(s: Seq<K>) -> bool {
    forall|i: int, j: int| 0 <= i < j < s.len() ==> key_lt(#[trigger] s[i], #[trigger] s[j])
}

/// Under `total_order`, `key_lt` is irreflexive, asymmetric, transitive and
/// total.
pub proof fn lemma_total_order<K: Ord>()
    requires
        total_order::<K>(),
    ensures
        forall|a: K| !#[trigger] key_lt(a, a),
        forall|a: K, b: K| #[trigger] key_lt(a, b) ==> !key_lt(b, a),
        forall|a: K, b: K, c: K| #[trigger] key_lt(a, b) && #[trigger] key_lt(b, c) ==> key_lt(a, c),
        forall|a: K, b: K| #[trigger] key_lt(a, b) || a == b || key_lt(b, a),
{
    reveal(vstd::laws_cmp::obeys_partial_cmp_spec_properties);
    reveal(vstd::laws_cmp::obeys_cmp_partial_ord);
    reveal(vstd::laws_cmp::obeys_cmp_ord);
    reveal(vstd::laws_eq::obeys_concrete_eq);
    assert forall|a: K, b: K| #[trigger] key_lt(a, b) || a == b || key_lt(b, a) by {
        let o = a.cmp_spec(&b);
        assert(a.partial_cmp_spec(&b) == Some(o));
        if o == Ordering::Greater {
            assert(b.partial_cmp_spec(&a) == Some(Ordering::Less));
        }
    }
}

/// A strictly ascending sequence holds no key twice.
pub proof fn lemma_sorted_distinct<K: Ord>(s: Seq<K>, i: int, j: int)
    requires
        total_order::<K>(),
        sorted(s),
        0 <= i < s.len(),
        0 <= j < s.len(),
        s[i] == s[j],
    ensures
        i == j,
{
    lemma_total_order::<K>();
    if i < j {
        assert(key_lt(s[i], s[j]));
    } else if j < i {
        assert(key_lt(s[j], s[i]));
    }
}

/// Executable `<` with its meaning in the order.
pub fn less<K: Ord>(a: &K, b: &K) -> (r: bool)
    requires
        total_order::<K>(),
    ensures
        r == key_lt(*a, *b),
{
    proof {
        reveal(vstd::laws_cmp::obeys_cmp_partial_ord);
    }
    *a < *b
}

/// Binary search in a strictly ascending vector.
///
/// `Ok(i)` is the position of `key`; `Err(i)` is the number of keys below
/// `key`, which is where `key` would have to be inserted.
pub fn binary_search<K: Ord>(keys: &Vec<K>, key: &K) -> (r: Result<usize, usize>)
    requires
        total_order::<K>(),
        sorted(keys@),
    ensures
        match r {
            Ok(i) => i < keys@.len() && keys@[i as int] == *key,
            Err(i) => {
                &&& i <= keys@.len()
                &&& !keys@.contains(*key)
                &&& forall|j: int| 0 <= j < i ==> key_lt(#[trigger] keys@[j], *key)
                &&& forall|j: int| i <= j < keys@.len() ==> key_lt(*key, #[trigger] keys@[j])
            },
        },
{
    proof {
        lemma_total_order::<K>();
    }
    let mut lo: usize = 0;
    let mut hi: usize = keys.len();
    while lo < hi
        invariant
            total_order::<K>(),
            sorted(keys@),
            lo <= hi <= keys@.len(),
            forall|j: int| 0 <= j < lo ==> key_lt(#[trigger] keys@[j], *key),
            forall|j: int| hi <= j < keys@.len() ==> key_lt(*key, #[trigger] keys@[j]),
        decreases hi - lo,
    {
        let mid: usize = lo + (hi - lo) / 2;
        if less(&keys[mid], key) {
            proof {
                lemma_total_order::<K>();
                assert forall|j: int| 0 <= j < mid + 1 implies key_lt(#[trigger] keys@[j], *key) by {
                    if j < mid {
                        assert(key_lt(keys@[j], keys@[mid as int]));
                    }
                }
            }
            lo = mid + 1;
        } else if less(key, &keys[mid]) {
            proof {
                lemma_total_order::<K>();
                assert forall|j: int| mid <= j < keys@.len() implies key_lt(*key, #[trigger] keys@[j]) by {
                    if mid < j {
                        assert(key_lt(keys@[mid as int], keys@[j]));
                    }
                }
            }
            hi = mid;
        } else {
            proof {
                lemma_total_order::<K>();
            }
            return Ok(mid);
        }
    }
    proof {
        lemma_total_order::<K>();
        assert forall|j: int| 0 <= j < keys@.len() implies keys@[j] != *key by {
            if j < lo {
                assert(key_lt(keys@[j], *key));
            } else {
                assert(key_lt(*key, keys@[j]));
            }
        }
    }
    Err(lo)
}


/// Inserting a key between its two neighbours keeps a sequence ascending,
/// and adds exactly that key to what the sequence contains.
pub proof fn lemma_sorted_insert<K: Ord>(s: Seq<K>, i: int, a: K)
    requires
        total_order::<K>(),
        sorted(s),
        0 <= i <= s.len(),
        i > 0 ==> key_lt(s[i - 1], a),
        i < s.len() ==> key_lt(a, s[i]),
    ensures
        sorted(s.insert(i, a)),
        s.insert(i, a).len() == s.len() + 1,
        forall|x: K| #[trigger] s.insert(i, a).contains(x) <==> (s.contains(x) || x == a),
{
    lemma_total_order::<K>();
    let r = s.insert(i, a);
    s.insert_ensures(i, a);
    assert forall|x: int, y: int| 0 <= x < y < r.len() implies key_lt(
        #[trigger] r[x],
        #[trigger] r[y],
    ) by {
        if y < i {
        } else if y == i {
            assert(r[x] == s[x]);
            if x < i - 1 {
                assert(key_lt(s[x], s[i - 1]));
            }
        } else {
            assert(r[y] == s[y - 1]);
            if x < i {
                assert(r[x] == s[x]);
            } else if x == i {
                if i < y - 1 {
                    assert(key_lt(s[i], s[y - 1]));
                }
            } else {
                assert(r[x] == s[x - 1]);
            }
        }
    }
    assert forall|x: K| #[trigger] r.contains(x) <==> (s.contains(x) || x == a) by {
        if r.contains(x) {
            let p = choose|p: int| 0 <= p < r.len() && r[p] == x;
            if p < i {
                assert(s[p] == x);
            } else if p > i {
                assert(s[p - 1] == x);
            }
        }
        if s.contains(x) {
            let p = choose|p: int| 0 <= p < s.len() && s[p] == x;
            if p < i {
                assert(r[p] == x);
            } else {
                assert(r[p + 1] == x);
            }
        }
        if x == a {
            assert(r[i] == x);
        }
    }
}

/// Removing a key keeps a sequence ascending, and takes exactly that key
/// out of what the sequence contains.
pub proof fn lemma_sorted_remove<K: Ord>(s: Seq<K>, i: int)
    requires
        total_order::<K>(),
        sorted(s),
        0 <= i < s.len(),
    ensures
        sorted(s.remove(i)),
        s.remove(i).len() == s.len() - 1,
        forall|x: K| #[trigger] s.remove(i).contains(x) <==> (s.contains(x) && x != s[i]),
{
    lemma_total_order::<K>();
    let r = s.remove(i);
    s.remove_ensures(i);
    assert forall|x: int, y: int| 0 <= x < y < r.len() implies key_lt(
        #[trigger] r[x],
        #[trigger] r[y],
    ) by {
        let sx = if x < i { x } else { x + 1 };
        let sy = if y < i { y } else { y + 1 };
        assert(r[x] == s[sx]);
        assert(r[y] == s[sy]);
    }
    assert forall|x: K| #[trigger] r.contains(x) <==> (s.contains(x) && x != s[i]) by {
        if r.contains(x) {
            let p = choose|p: int| 0 <= p < r.len() && r[p] == x;
            let sp = if p < i { p } else { p + 1 };
            assert(s[sp] == x);
            if x == s[i] {
                lemma_sorted_distinct(s, sp, i);
            }
        }
        if s.contains(x) && x != s[i] {
            let p = choose|p: int| 0 <= p < s.len() && s[p] == x;
            if p < i {
                assert(r[p] == x);
            } else {
                assert(r[p - 1] == x);
            }
        }
    }
}

/// Replacing a key by one that fits between the same neighbours keeps a
/// sequence ascending.
pub proof fn lemma_sorted_update<K: Ord>(s: Seq<K>, i: int, a: K)
    requires
        total_order::<K>(),
        sorted(s),
        0 <= i < s.len(),
        i > 0 ==> key_lt(s[i - 1], a),
        i + 1 < s.len() ==> key_lt(a, s[i + 1]),
    ensures
        sorted(s.update(i, a)),
        forall|x: K| #[trigger]
            s.update(i, a).contains(x) <==> ((s.contains(x) && x != s[i]) || x == a),
{
    lemma_total_order::<K>();
    let r = s.update(i, a);
    assert forall|x: int, y: int| 0 <= x < y < r.len() implies key_lt(
        #[trigger] r[x],
        #[trigger] r[y],
    ) by {
        if y == i {
            if x < i - 1 {
                assert(key_lt(s[x], s[i - 1]));
            }
        } else if x == i {
            if i + 1 < y {
                assert(key_lt(s[i + 1], s[y]));
            }
        }
    }
    assert forall|x: K| #[trigger] r.contains(x) <==> ((s.contains(x) && x != s[i]) || x == a) by {
        if r.contains(x) {
            let p = choose|p: int| 0 <= p < r.len() && r[p] == x;
            if p != i {
                assert(s[p] == x);
                if x == s[i] {
                    lemma_sorted_distinct(s, p, i);
                }
            }
        }
        if s.contains(x) && x != s[i] {
            let p = choose|p: int| 0 <= p < s.len() && s[p] == x;
            assert(r[p] == x);
        }
        if x == a {
            assert(r[i] == x);
        }
    }
}


/// Two ascending sequences, the first wholly below the second, make an
/// ascending sequence when joined.
pub proof fn lemma_sorted_concat<K: Ord>(a: Seq<K>, b: Seq<K>)
    requires
        sorted(a),
        sorted(b),
        forall|i: int, j: int|
            0 <= i < a.len() && 0 <= j < b.len() ==> key_lt(#[trigger] a[i], #[trigger] b[j]),
    ensures
        sorted(a + b),
{
    let r = a + b;
    assert forall|x: int, y: int| 0 <= x < y < r.len() implies key_lt(
        #[trigger] r[x],
        #[trigger] r[y],
    ) by {
        if y < a.len() {
            assert(r[x] == a[x] && r[y] == a[y]);
        } else if x < a.len() {
            assert(r[x] == a[x] && r[y] == b[y - a.len()]);
        } else {
            assert(r[x] == b[x - a.len()] && r[y] == b[y - a.len()]);
        }
    }
}


/// A sequence never descends: no element is above a later one.
pub open spec fn ascending<K: Ord>(s: Seq<K>) -> bool {
    forall|i: int, j: int| 0 <= i < j < s.len() ==> !key_lt(#[trigger] s[j], #[trigger] s[i])
}

} // verus!
