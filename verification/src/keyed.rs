//! A table of rows found by their keys, no two rows with the same key.

use vstd::prelude::*;

verus! {

/// A key: something that can be told from another one by its view.
pub trait Key: View {
    /// Whether two keys are the same.
    fn same(&self, other: &Self) -> (r: bool)
        ensures
            r == (self@ == other@),
    ;
}

/// A table of rows found by their keys.
pub struct Keyed<K, V> {
    rows: Vec<(K, V)>,
}

/// Whether no two of the rows have the same key.
pub open spec fn distinct<K, V>(rows: Seq<(K, V)>) -> bool {
    forall|i: int, j: int| #![trigger rows[i], rows[j]] 0 <= i < j < rows.len() ==> rows[i].0 != rows[j].0
}

/// Whether a row with this key stands at this place.
pub open spec fn stands_at<K, V>(rows: Seq<(K, V)>, k: K, i: int) -> bool {
    0 <= i < rows.len() && rows[i].0 == k
}

/// The rows by their keys.
pub open spec fn by_key<K, V>(rows: Seq<(K, V)>) -> Map<K, V> {
    Map::new(|k: K| exists|i: int| stands_at(rows, k, i), |k: K| rows[choose|i: int| stands_at(rows, k, i)].1)
}

proof fn lemma_by_key<K, V>(rows: Seq<(K, V)>, i: int)
    requires
        distinct(rows),
        0 <= i < rows.len(),
    ensures
        by_key(rows).contains_key(rows[i].0),
        by_key(rows)[rows[i].0] == rows[i].1,
{
    let k = rows[i].0;
    assert(stands_at(rows, k, i));
    let j = choose|j: int| stands_at(rows, k, j);
    assert(stands_at(rows, k, j));
    if i < j {
        assert(rows[i].0 != rows[j].0);
    } else if j < i {
        assert(rows[j].0 != rows[i].0);
    }
}

proof fn lemma_push<K, V>(rows: Seq<(K, V)>, k: K, v: V)
    requires
        distinct(rows),
        !by_key(rows).contains_key(k),
    ensures
        distinct(rows.push((k, v))),
        by_key(rows.push((k, v))) == by_key(rows).insert(k, v),
{
    let grown = rows.push((k, v));
    assert forall|i: int| 0 <= i < rows.len() implies (#[trigger] rows[i]).0 != k by {
        lemma_by_key(rows, i);
    }
    assert(distinct(grown));
    lemma_by_key(grown, rows.len() as int);
    assert forall|x: K| by_key(grown).contains_key(x) <==> by_key(rows).insert(k, v).contains_key(x) by {
        if by_key(grown).contains_key(x) {
            let i = choose|i: int| stands_at(grown, x, i);
            if i < rows.len() {
                assert(stands_at(rows, x, i));
            }
        }
        if by_key(rows).contains_key(x) {
            let i = choose|i: int| stands_at(rows, x, i);
            assert(stands_at(grown, x, i));
        }
    }
    assert forall|x: K| by_key(rows).contains_key(x) implies by_key(grown)[x] == by_key(rows)[x] by {
        let i = choose|i: int| stands_at(rows, x, i);
        lemma_by_key(rows, i);
        assert(grown[i] == rows[i]);
        lemma_by_key(grown, i);
    }
    assert(by_key(grown) =~= by_key(rows).insert(k, v));
}

proof fn lemma_update<K, V>(rows: Seq<(K, V)>, at: int, v: V)
    requires
        distinct(rows),
        0 <= at < rows.len(),
    ensures
        distinct(rows.update(at, (rows[at].0, v))),
        by_key(rows.update(at, (rows[at].0, v))) == by_key(rows).insert(rows[at].0, v),
{
    let k = rows[at].0;
    let changed = rows.update(at, (k, v));
    assert forall|i: int, j: int| #![trigger changed[i], changed[j]] 0 <= i < j < changed.len() implies changed[i].0
        != changed[j].0 by {
        assert(rows[i].0 != rows[j].0);
    }
    lemma_by_key(changed, at);
    assert forall|x: K| by_key(changed).contains_key(x) <==> by_key(rows).insert(k, v).contains_key(x) by {
        if by_key(changed).contains_key(x) {
            let i = choose|i: int| stands_at(changed, x, i);
            assert(stands_at(rows, x, i));
        }
        if by_key(rows).contains_key(x) {
            let i = choose|i: int| stands_at(rows, x, i);
            assert(stands_at(changed, x, i));
        }
    }
    assert forall|x: K| x != k && by_key(rows).contains_key(x) implies by_key(changed)[x] == by_key(rows)[x] by {
        let i = choose|i: int| stands_at(rows, x, i);
        lemma_by_key(rows, i);
        assert(changed[i] == rows[i]);
        lemma_by_key(changed, i);
    }
    assert(by_key(changed) =~= by_key(rows).insert(k, v));
}

proof fn lemma_remove<K, V>(rows: Seq<(K, V)>, at: int)
    requires
        distinct(rows),
        0 <= at < rows.len(),
    ensures
        distinct(rows.remove(at)),
        by_key(rows.remove(at)) == by_key(rows).remove(rows[at].0),
{
    let k = rows[at].0;
    let left = rows.remove(at);
    assert forall|i: int, j: int| #![trigger left[i], left[j]] 0 <= i < j < left.len() implies left[i].0 != left[j].0 by {
        let a = if i < at { i } else { i + 1 };
        let b = if j < at { j } else { j + 1 };
        assert(rows[a].0 != rows[b].0);
    }
    assert forall|x: K| by_key(left).contains_key(x) <==> by_key(rows).remove(k).contains_key(x) by {
        if by_key(left).contains_key(x) {
            let i = choose|i: int| stands_at(left, x, i);
            let a = if i < at { i } else { i + 1 };
            assert(stands_at(rows, x, a));
            if a < at {
                assert(rows[a].0 != rows[at].0);
            } else {
                assert(rows[at].0 != rows[a].0);
            }
        }
        if by_key(rows).remove(k).contains_key(x) {
            let a = choose|a: int| stands_at(rows, x, a);
            let i = if a < at { a } else { a - 1 };
            assert(left[i] == rows[a]);
            assert(stands_at(left, x, i));
        }
    }
    assert forall|x: K| by_key(left).contains_key(x) implies by_key(left)[x] == by_key(rows)[x] by {
        let i = choose|i: int| stands_at(left, x, i);
        let a = if i < at { i } else { i + 1 };
        assert(left[i] == rows[a]);
        lemma_by_key(left, i);
        lemma_by_key(rows, a);
    }
    assert(by_key(left) =~= by_key(rows).remove(k));
}

impl<K: View, V: View> Keyed<K, V> {
    /// The rows in the order in which they are kept.
    pub closed spec fn rows(&self) -> Seq<(K::V, V::V)> {
        self.rows@.map_values(|row: (K, V)| (row.0@, row.1@))
    }

    /// Whether no two rows have the same key.
    pub open spec fn well_formed(&self) -> bool {
        distinct(self.rows())
    }

    /// A key that has a row has it at some place.
    pub proof fn lemma_has_row(&self, k: K::V)
        requires
            self.well_formed(),
            self@.contains_key(k),
        ensures
            exists|i: int| 0 <= i < self.rows().len() && #[trigger] self.rows()[i] == (k, self@[k]),
    {
        let i = choose|i: int| stands_at(self.rows(), k, i);
        lemma_by_key(self.rows(), i);
        assert(self.rows()[i] == (k, self@[k]));
    }
}

impl<K: View, V: View> View for Keyed<K, V> {
    type V = Map<K::V, V::V>;

    open spec fn view(&self) -> Map<K::V, V::V> {
        by_key(self.rows())
    }
}

impl<K: Key, V: View> Keyed<K, V> {
    /// A table without rows.
    pub fn new() -> (r: Keyed<K, V>)
        ensures
            r.well_formed(),
            r@ == Map::<K::V, V::V>::empty(),
    {
        let r = Keyed { rows: Vec::new() };
        assert(r.rows() =~= seq![]);
        assert forall|k: K::V| !r@.contains_key(k) by {
            assert forall|i: int| !stands_at(r.rows(), k, i) by {}
        }
        assert(r@ =~= Map::<K::V, V::V>::empty());
        r
    }

    /// How many rows there are.
    pub fn len(&self) -> (r: usize)
        ensures
            r == self.rows().len(),
    {
        self.rows.len()
    }

    /// The row at a place.
    pub fn row(&self, at: usize) -> (r: (&K, &V))
        requires
            self.well_formed(),
            at < self.rows().len(),
        ensures
            (r.0@, r.1@) == self.rows()[at as int],
            self@.contains_key(r.0@),
            self@[r.0@] == r.1@,
    {
        proof {
            lemma_by_key(self.rows(), at as int);
        }
        (&self.rows[at].0, &self.rows[at].1)
    }

    /// The place of the row with a key.
    fn place(&self, k: &K) -> (r: Option<usize>)
        requires
            self.well_formed(),
        ensures
            match r {
                Some(i) => i < self.rows().len() && self.rows()[i as int].0 == k@,
                None => !self@.contains_key(k@),
            },
    {
        let mut i: usize = 0;
        while i < self.rows.len()
            invariant
                i <= self.rows@.len(),
                forall|j: int| 0 <= j < i ==> !stands_at(self.rows(), k@, j),
            decreases self.rows@.len() - i,
        {
            if self.rows[i].0.same(k) {
                return Some(i);
            }
            i = i + 1;
        }
        None
    }

    /// The row with a key, if there is one.
    pub fn get(&self, k: &K) -> (r: Option<&V>)
        requires
            self.well_formed(),
        ensures
            match r {
                Some(v) => self@.contains_key(k@) && v@ == self@[k@],
                None => !self@.contains_key(k@),
            },
    {
        match self.place(k) {
            Some(i) => {
                proof {
                    lemma_by_key(self.rows(), i as int);
                }
                Some(&self.rows[i].1)
            },
            None => None,
        }
    }

    /// Gives a key a row, in place of the one that it had.
    pub fn set(&mut self, k: K, v: V)
        requires
            old(self).well_formed(),
        ensures
            final(self).well_formed(),
            final(self)@ == old(self)@.insert(k@, v@),
    {
        let ghost before = self.rows();
        match self.place(&k) {
            Some(i) => {
                proof {
                    lemma_update(before, i as int, v@);
                }
                self.rows.set(i, (k, v));
                assert(self.rows() =~= before.update(i as int, (k@, v@)));
            },
            None => {
                proof {
                    lemma_push(before, k@, v@);
                }
                self.rows.push((k, v));
                assert(self.rows() =~= before.push((k@, v@)));
            },
        }
    }

    /// Takes away the row at a place.
    pub fn remove_at(&mut self, at: usize)
        requires
            old(self).well_formed(),
            at < old(self).rows().len(),
        ensures
            final(self).well_formed(),
            final(self).rows() == old(self).rows().remove(at as int),
            final(self)@ == old(self)@.remove(old(self).rows()[at as int].0),
    {
        let ghost before = self.rows();
        proof {
            lemma_remove(before, at as int);
        }
        let _ = self.rows.remove(at);
        assert(self.rows() =~= before.remove(at as int));
    }

    /// Takes away the row with a key, if there is one.
    pub fn remove(&mut self, k: &K)
        requires
            old(self).well_formed(),
        ensures
            final(self).well_formed(),
            final(self)@ == old(self)@.remove(k@),
    {
        match self.place(k) {
            Some(i) => self.remove_at(i),
            None => {
                assert(self@ =~= self@.remove(k@));
            },
        }
    }
}

} // verus!
