//! Orders: byte strings and paths compared part by part, and sorting by a total order.

use vstd::multiset::*;
use vstd::prelude::*;
use vstd::seq_lib::*;

use crate::model;
use crate::text::same_bytes;

verus! {

/// A type whose values stand in a total order, up to values that are level with each other.
pub trait Ordered: Sized {
    /// Whether `self` may stand before `other`.
    spec fn up_to(&self, other: &Self) -> bool;

    /// Of any two values one may stand before the other.
    proof fn up_to_total(a: &Self, b: &Self)
        ensures
            a.up_to(b) || b.up_to(a),
    ;

    /// What may stand before a value may stand before everything behind it.
    proof fn up_to_transitive(a: &Self, b: &Self, c: &Self)
        requires
            a.up_to(b),
            b.up_to(c),
        ensures
            a.up_to(c),
    ;

    /// Decides `up_to`.
    fn is_up_to(&self, other: &Self) -> (r: bool)
        ensures
            r == self.up_to(other),
    ;
}

/// Whether a sequence is in order.
pub open spec fn in_order<T: Ordered>(s: Seq<T>) -> bool {
    forall|i: int, j: int| #![trigger s[i], s[j]] 0 <= i < j < s.len() ==> s[i].up_to(&s[j])
}

/// The place in the ordered `v` behind everything that may stand before `x`.
fn place_of<T: Ordered>(v: &Vec<T>, x: &T) -> (at: usize)
    requires
        in_order(v@),
    ensures
        at <= v@.len(),
        forall|i: int| #![trigger v@[i]] 0 <= i < at ==> v@[i].up_to(x),
        forall|i: int| #![trigger v@[i]] at <= i < v@.len() ==> x.up_to(&v@[i]),
{
    let mut lo: usize = 0;
    let mut hi: usize = v.len();
    while lo < hi
        invariant
            in_order(v@),
            lo <= hi <= v@.len(),
            forall|i: int| #![trigger v@[i]] 0 <= i < lo ==> v@[i].up_to(x),
            forall|i: int| #![trigger v@[i]] hi <= i < v@.len() ==> x.up_to(&v@[i]),
        decreases hi - lo,
    {
        let mid: usize = lo + (hi - lo) / 2;
        if v[mid].is_up_to(x) {
            assert forall|i: int| #![trigger v@[i]] 0 <= i < mid + 1 implies v@[i].up_to(x) by {
                if i < mid {
                    assert(v@[i].up_to(&v@[mid as int]));
                    T::up_to_transitive(&v@[i], &v@[mid as int], x);
                }
            }
            lo = mid + 1;
        } else {
            proof {
                T::up_to_total(&v@[mid as int], x);
            }
            assert forall|i: int| #![trigger v@[i]] mid <= i < v@.len() implies x.up_to(&v@[i]) by {
                if i > mid {
                    assert(v@[mid as int].up_to(&v@[i]));
                    T::up_to_transitive(x, &v@[mid as int], &v@[i]);
                }
            }
            hi = mid;
        }
    }
    lo
}

/// Puts the items of `v` in order.
pub fn sort<T: Ordered>(v: Vec<T>) -> (r: Vec<T>)
    ensures
        in_order(r@),
        r@.to_multiset() == v@.to_multiset(),
{
    let mut rest = v;
    let mut out: Vec<T> = Vec::new();
    proof {
        assert(out@.to_multiset() =~= Multiset::empty()) by {
            out@.to_multiset_ensures();
        }
        assert(rest@.to_multiset().add(out@.to_multiset()) =~= v@.to_multiset());
    }
    while rest.len() > 0
        invariant
            in_order(out@),
            rest@.to_multiset().add(out@.to_multiset()) == v@.to_multiset(),
        decreases rest@.len(),
    {
        let ghost rest0 = rest@;
        let ghost out0 = out@;
        match rest.pop() {
            Some(x) => {
                let at = place_of(&out, &x);
                out.insert(at, x);
                proof {
                    assert(rest0 =~= rest@.push(x));
                    rest@.to_multiset_ensures();
                    assert(rest0.to_multiset() =~= rest@.to_multiset().insert(x));
                    assert(out@ =~= out0.insert(at as int, x));
                    out0.to_multiset_ensures();
                    to_multiset_insert(out0, at as int, x);
                    assert(out@.to_multiset() =~= out0.to_multiset().insert(x));
                    assert(rest@.to_multiset().add(out@.to_multiset()) =~= rest0.to_multiset().add(out0.to_multiset()));
                    assert forall|i: int, j: int| #![trigger out@[i], out@[j]] 0 <= i < j < out@.len() implies out@[i].up_to(&out@[j]) by {
                        let oi = if i < at { i } else { i - 1 };
                        let oj = if j < at { j } else { j - 1 };
                        if i != at {
                            assert(out@[i] == out0[oi]);
                        }
                        if j != at {
                            assert(out@[j] == out0[oj]);
                        }
                    }
                }
            },
            None => {},
        }
    }
    proof {
        assert(rest@ =~= Seq::<T>::empty());
        rest@.to_multiset_ensures();
        assert(rest@.to_multiset() =~= Multiset::empty());
        assert(rest@.to_multiset().add(out@.to_multiset()) =~= out@.to_multiset());
    }
    out
}

/// Whether a byte string stands before another one or is the same: byte by byte, and a prefix first.
pub open spec fn bytes_up_to(a: Seq<u8>, b: Seq<u8>) -> bool
    decreases a.len(),
{
    if a.len() == 0 {
        true
    } else if b.len() == 0 {
        false
    } else if a[0] == b[0] {
        bytes_up_to(a.drop_first(), b.drop_first())
    } else {
        a[0] < b[0]
    }
}

/// Whether a list of byte strings stands before another one or is the same: part by part, and a
/// prefix first.
pub open spec fn parts_up_to(a: Seq<Seq<u8>>, b: Seq<Seq<u8>>) -> bool
    decreases a.len(),
{
    if a.len() == 0 {
        true
    } else if b.len() == 0 {
        false
    } else if a[0] == b[0] {
        parts_up_to(a.drop_first(), b.drop_first())
    } else {
        bytes_up_to(a[0], b[0])
    }
}

/// Of two byte strings one stands first, and only one of them where they differ.
pub proof fn lemma_bytes_total(a: Seq<u8>, b: Seq<u8>)
    ensures
        bytes_up_to(a, b) || bytes_up_to(b, a),
        bytes_up_to(a, b) && bytes_up_to(b, a) ==> a == b,
    decreases a.len(),
{
    if a.len() == 0 {
        if b.len() == 0 {
            assert(a =~= b);
        }
    } else if b.len() > 0 {
        lemma_bytes_total(a.drop_first(), b.drop_first());
        if a[0] == b[0] && a.drop_first() == b.drop_first() {
            assert(a =~= seq![a[0]] + a.drop_first());
            assert(b =~= seq![b[0]] + b.drop_first());
        }
    }
}

pub proof fn lemma_bytes_transitive(a: Seq<u8>, b: Seq<u8>, c: Seq<u8>)
    requires
        bytes_up_to(a, b),
        bytes_up_to(b, c),
    ensures
        bytes_up_to(a, c),
    decreases a.len(),
{
    if a.len() > 0 && b.len() > 0 && c.len() > 0 && a[0] == b[0] && b[0] == c[0] {
        lemma_bytes_transitive(a.drop_first(), b.drop_first(), c.drop_first());
    }
}

/// Of two lists of byte strings one stands first, and only one of them where they differ.
pub proof fn lemma_parts_total(a: Seq<Seq<u8>>, b: Seq<Seq<u8>>)
    ensures
        parts_up_to(a, b) || parts_up_to(b, a),
        parts_up_to(a, b) && parts_up_to(b, a) ==> a == b,
    decreases a.len(),
{
    if a.len() == 0 {
        if b.len() == 0 {
            assert(a =~= b);
        }
    } else if b.len() > 0 {
        lemma_bytes_total(a[0], b[0]);
        lemma_parts_total(a.drop_first(), b.drop_first());
        if a[0] == b[0] && a.drop_first() == b.drop_first() {
            assert(a =~= seq![a[0]] + a.drop_first());
            assert(b =~= seq![b[0]] + b.drop_first());
        }
    }
}

pub proof fn lemma_parts_transitive(a: Seq<Seq<u8>>, b: Seq<Seq<u8>>, c: Seq<Seq<u8>>)
    requires
        parts_up_to(a, b),
        parts_up_to(b, c),
    ensures
        parts_up_to(a, c),
    decreases a.len(),
{
    if a.len() > 0 && b.len() > 0 && c.len() > 0 {
        if a[0] == b[0] && b[0] == c[0] {
            lemma_parts_transitive(a.drop_first(), b.drop_first(), c.drop_first());
        } else if a[0] != b[0] && b[0] != c[0] {
            lemma_bytes_transitive(a[0], b[0], c[0]);
            if a[0] == c[0] {
                lemma_bytes_total(a[0], b[0]);
            }
        }
    }
}

/// Whether a byte string stands before another one or is the same.
pub fn is_bytes_up_to(a: &[u8], b: &[u8]) -> (r: bool)
    ensures
        r == bytes_up_to(a@, b@),
{
    let mut i: usize = 0;
    assert(a@.skip(0) =~= a@);
    assert(b@.skip(0) =~= b@);
    while i < a.len() && i < b.len() && a[i] == b[i]
        invariant
            i <= a@.len(),
            i <= b@.len(),
            bytes_up_to(a@.skip(i as int), b@.skip(i as int)) == bytes_up_to(a@, b@),
        decreases a@.len() - i,
    {
        assert(a@.skip(i as int).drop_first() =~= a@.skip(i + 1));
        assert(b@.skip(i as int).drop_first() =~= b@.skip(i + 1));
        i = i + 1;
    }
    if i == a.len() {
        true
    } else if i == b.len() {
        false
    } else {
        a[i] < b[i]
    }
}

/// Whether a list of byte strings stands before another one or is the same.
pub fn is_parts_up_to(a: &Vec<Vec<u8>>, b: &Vec<Vec<u8>>) -> (r: bool)
    ensures
        r == parts_up_to(model::views(a@), model::views(b@)),
{
    let ghost x = model::views(a@);
    let ghost y = model::views(b@);
    let mut i: usize = 0;
    assert(x.skip(0) =~= x);
    assert(y.skip(0) =~= y);
    while i < a.len() && i < b.len() && same_bytes(a[i].as_slice(), b[i].as_slice())
        invariant
            i <= a@.len(),
            i <= b@.len(),
            x == model::views(a@),
            y == model::views(b@),
            parts_up_to(x.skip(i as int), y.skip(i as int)) == parts_up_to(x, y),
        decreases a@.len() - i,
    {
        assert(x.skip(i as int).drop_first() =~= x.skip(i + 1));
        assert(y.skip(i as int).drop_first() =~= y.skip(i + 1));
        i = i + 1;
    }
    if i == a.len() {
        true
    } else if i == b.len() {
        false
    } else {
        is_bytes_up_to(a[i].as_slice(), b[i].as_slice())
    }
}

/// A byte string stands before another one, or is the same, exactly when it is a prefix of it or has the
/// lower byte at the first place where they differ.
pub proof fn bytes_go_by_the_first_difference(a: Seq<u8>, b: Seq<u8>)
    ensures
        bytes_up_to(a, b) <==> exists|k: int|
            {
                &&& 0 <= k <= a.len() && k <= b.len()
                &&& #[trigger] a.take(k) == b.take(k)
                &&& k == a.len() || (k < b.len() && a[k] < b[k])
            },
    decreases a.len(),
{
    if a.len() == 0 {
        assert(a.take(0) =~= b.take(0));
    } else if b.len() == 0 {
        assert forall|k: int| 0 <= k <= a.len() && k <= b.len() && #[trigger] a.take(k) == b.take(k) implies !(k == a.len()
            || (k < b.len() && a[k] < b[k])) by {}
    } else {
        let x = a.drop_first();
        let y = b.drop_first();
        bytes_go_by_the_first_difference(x, y);
        if a[0] == b[0] {
            if bytes_up_to(a, b) {
                let k = choose|k: int|
                    {
                        &&& 0 <= k <= x.len() && k <= y.len()
                        &&& #[trigger] x.take(k) == y.take(k)
                        &&& k == x.len() || (k < y.len() && x[k] < y[k])
                    };
                assert(a.take(k + 1) =~= seq![a[0]] + x.take(k));
                assert(b.take(k + 1) =~= seq![b[0]] + y.take(k));
                assert(a.take(k + 1) == b.take(k + 1));
            }
            if exists|k: int|
                {
                    &&& 0 <= k <= a.len() && k <= b.len()
                    &&& #[trigger] a.take(k) == b.take(k)
                    &&& k == a.len() || (k < b.len() && a[k] < b[k])
                } {
                let k = choose|k: int|
                    {
                        &&& 0 <= k <= a.len() && k <= b.len()
                        &&& #[trigger] a.take(k) == b.take(k)
                        &&& k == a.len() || (k < b.len() && a[k] < b[k])
                    };
                assert(k > 0);
                assert(x.take(k - 1) =~= a.take(k).drop_first());
                assert(y.take(k - 1) =~= b.take(k).drop_first());
                assert(x.take(k - 1) == y.take(k - 1));
            }
        } else {
            if a[0] < b[0] {
                assert(a.take(0) =~= b.take(0));
            }
            assert forall|k: int| 0 <= k <= a.len() && k <= b.len() && #[trigger] a.take(k) == b.take(k) implies k == 0 by {
                if k > 0 {
                    assert(a.take(k)[0] == b.take(k)[0]);
                }
            }
        }
    }
}

/// A path stands before another one, or is the same, exactly when it is a prefix of it or has the lower
/// part at the first place where they differ.
pub proof fn paths_go_by_the_first_difference(a: Seq<Seq<u8>>, b: Seq<Seq<u8>>)
    ensures
        parts_up_to(a, b) <==> exists|k: int|
            {
                &&& 0 <= k <= a.len() && k <= b.len()
                &&& #[trigger] a.take(k) == b.take(k)
                &&& k == a.len() || (k < b.len() && a[k] != b[k] && bytes_up_to(a[k], b[k]))
            },
    decreases a.len(),
{
    if a.len() == 0 {
        assert(a.take(0) =~= b.take(0));
    } else if b.len() == 0 {
        assert forall|k: int| 0 <= k <= a.len() && k <= b.len() && #[trigger] a.take(k) == b.take(k) implies !(k == a.len()
            || (k < b.len() && a[k] != b[k] && bytes_up_to(a[k], b[k]))) by {}
    } else {
        let x = a.drop_first();
        let y = b.drop_first();
        paths_go_by_the_first_difference(x, y);
        if a[0] == b[0] {
            if parts_up_to(a, b) {
                let k = choose|k: int|
                    {
                        &&& 0 <= k <= x.len() && k <= y.len()
                        &&& #[trigger] x.take(k) == y.take(k)
                        &&& k == x.len() || (k < y.len() && x[k] != y[k] && bytes_up_to(x[k], y[k]))
                    };
                assert(a.take(k + 1) =~= seq![a[0]] + x.take(k));
                assert(b.take(k + 1) =~= seq![b[0]] + y.take(k));
                assert(a.take(k + 1) == b.take(k + 1));
            }
            if exists|k: int|
                {
                    &&& 0 <= k <= a.len() && k <= b.len()
                    &&& #[trigger] a.take(k) == b.take(k)
                    &&& k == a.len() || (k < b.len() && a[k] != b[k] && bytes_up_to(a[k], b[k]))
                } {
                let k = choose|k: int|
                    {
                        &&& 0 <= k <= a.len() && k <= b.len()
                        &&& #[trigger] a.take(k) == b.take(k)
                        &&& k == a.len() || (k < b.len() && a[k] != b[k] && bytes_up_to(a[k], b[k]))
                    };
                assert(k > 0);
                assert(x.take(k - 1) =~= a.take(k).drop_first());
                assert(y.take(k - 1) =~= b.take(k).drop_first());
                assert(x.take(k - 1) == y.take(k - 1));
            }
        } else {
            if bytes_up_to(a[0], b[0]) {
                assert(a.take(0) =~= b.take(0));
            }
            assert forall|k: int| 0 <= k <= a.len() && k <= b.len() && #[trigger] a.take(k) == b.take(k) implies k == 0 by {
                if k > 0 {
                    assert(a.take(k)[0] == b.take(k)[0]);
                }
            }
        }
    }
}

/// In an ordered sequence every item may stand before every item behind it.
pub proof fn ordered_items_stand_before_those_behind<T: Ordered>(s: Seq<T>)
    ensures
        in_order(s) <==> forall|i: int, j: int|
            #![trigger s[i], s[j]]
            0 <= i && i < j && j < s.len() ==> s[i].up_to(&s[j]),
{
}

} // verus!
