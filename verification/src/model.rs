//! How executable collections are read in contracts: item by item, each item by its view.

use vstd::prelude::*;

verus! {

/// The views of the items of a sequence.
pub open spec fn views<T: View>(s: Seq<T>) -> Seq<T::V> {
    s.map_values(|x: T| x@)
}

/// The view of an optional value.
pub open spec fn option_view<T: View>(o: Option<T>) -> Option<T::V> {
    match o {
        Some(x) => Some(x@),
        None => None,
    }
}

/// The views of both sides of a result.
pub open spec fn result_view<T: View, E: View>(r: Result<T, E>) -> Result<T::V, E::V> {
    match r {
        Ok(x) => Ok(x@),
        Err(e) => Err(e@),
    }
}

/// A copy of a list of strings.
pub fn copy_names(names: &Vec<String>) -> (r: Vec<String>)
    ensures
        views(r@) == views(names@),
{
    let mut out: Vec<String> = Vec::new();
    let mut i: usize = 0;
    while i < names.len()
        invariant
            i <= names@.len(),
            out@.len() == i,
            forall|j: int| 0 <= j < i ==> (#[trigger] out@[j])@ == names@[j]@,
        decreases names@.len() - i,
    {
        out.push(names[i].clone());
        i = i + 1;
    }
    assert(views(out@) =~= views(names@));
    out
}

/// A condition that fails on the first `n` items and holds of all others picks out the others.
pub proof fn lemma_filter_suffix<A>(s: Seq<A>, p: spec_fn(A) -> bool, n: int)
    requires
        0 <= n <= s.len(),
        forall|i: int| 0 <= i < n ==> !p(#[trigger] s[i]),
        forall|i: int| n <= i < s.len() ==> p(#[trigger] s[i]),
    ensures
        s.filter(p) == s.skip(n),
    decreases s.len(),
{
    reveal(Seq::filter);
    if s.len() > 0 {
        let init = s.drop_last();
        if n == s.len() {
            assert(!p(s[s.len() - 1]));
            lemma_filter_suffix(init, p, n - 1);
            assert(init.skip(n - 1) =~= s.skip(n));
        } else {
            assert(p(s[s.len() - 1]));
            lemma_filter_suffix(init, p, n);
            assert(init.skip(n).push(s.last()) =~= s.skip(n));
        }
    } else {
        assert(s.skip(n) =~= s);
    }
}

/// How many items stand before the first one at which `stop` holds, or all of them.
pub open spec fn count_before<A>(s: Seq<A>, stop: spec_fn(A) -> bool) -> nat
    decreases s.len(),
{
    if s.len() == 0 || stop(s[0]) {
        0
    } else {
        1 + count_before(s.drop_first(), stop)
    }
}

/// The items before the first one at which `stop` holds are counted.
pub proof fn lemma_count_before<A>(s: Seq<A>, stop: spec_fn(A) -> bool, n: int)
    requires
        0 <= n <= s.len(),
        forall|i: int| 0 <= i < n ==> !stop(#[trigger] s[i]),
        n == s.len() || stop(s[n]),
    ensures
        count_before(s, stop) == n,
    decreases n,
{
    if n > 0 {
        assert(!stop(s[0]));
        assert forall|i: int| 0 <= i < n - 1 implies !stop(#[trigger] s.drop_first()[i]) by {
            assert(s.drop_first()[i] == s[i + 1]);
        }
        lemma_count_before(s.drop_first(), stop, n - 1);
    }
}

} // verus!
