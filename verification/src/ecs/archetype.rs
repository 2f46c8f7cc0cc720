//! Archetypes: the rows of all entities sharing one component set, stored as
//! one column per component key.

use vstd::prelude::*;

use super::entity::Entity;

verus! {

/// Identifies an archetype in the `Archetypes` registry.
pub type ArchetypeId = u32;

/// Archetype of freshly spawned entities.
pub const EMPTY_ARCHETYPE: ArchetypeId = 0u32;

/// Keys in strictly increasing order (hence without duplicates).
pub open spec fn strictly_sorted(s: Seq<u64>) -> bool {
    forall|i: int, j: int| 0 <= i < j < s.len() ==> s[i] < s[j]
}

/// What `Vec::swap_remove(i)` leaves behind.
pub open spec fn swap_removed<T>(s: Seq<T>, i: int) -> Seq<T> {
    s.update(i, s.last()).drop_last()
}

/// In a strictly sorted sequence each key sits at exactly one index.
pub proof fn lemma_sorted_index_of(s: Seq<u64>, j: int)
    requires
        strictly_sorted(s),
        0 <= j < s.len(),
    ensures
        s.contains(s[j]),
        s.index_of(s[j]) == j,
{
    assert(s.contains(s[j]));
    let i = s.index_of(s[j]);
    if i < j {
        assert(s[i] < s[j]);
    } else if i > j {
        assert(s[j] < s[i]);
    }
}

/// The sorted key list with `key` added: pushed, then sorted.
pub fn keys_with(types: &Vec<u64>, key: u64) -> (r: Vec<u64>)
    requires
        strictly_sorted(types@),
        !types@.contains(key),
    ensures
        strictly_sorted(r@),
        r@.to_set() == types@.to_set().insert(key),
        r@.len() == types@.len() + 1,
{
    let n = types.len();
    let mut p: usize = 0;
    while p < n && types[p] < key
        invariant
            p <= n,
            n == types@.len(),
            forall|k: int| 0 <= k < p ==> types@[k] < key,
        decreases n - p,
    {
        p += 1;
    }
    let mut r: Vec<u64> = Vec::new();
    let mut i: usize = 0;
    while i < p
        invariant
            i <= p <= n,
            n == types@.len(),
            r@ == types@.take(i as int),
        decreases p - i,
    {
        r.push(types[i]);
        i += 1;
        assert(r@ =~= types@.take(i as int));
    }
    r.push(key);
    while i < n
        invariant
            p <= i <= n,
            n == types@.len(),
            r@ == types@.take(p as int) + seq![key] + types@.subrange(p as int, i as int),
        decreases n - i,
    {
        r.push(types[i]);
        i += 1;
        assert(r@ =~= types@.take(p as int) + seq![key] + types@.subrange(p as int, i as int));
    }
    proof {
        assert(p < n ==> key < types@[p as int]) by {
            if p < n {
                assert(types@[p as int] != key) by { assert(types@.contains(types@[p as int])); }
            }
        }
        assert forall|x: int, y: int| 0 <= x < y < r@.len() implies r@[x] < r@[y] by {
            if y < p {
            } else if y == p {
            } else if x < p {
                assert(r@[y] == types@[y - 1]);
                if x < p {
                    assert(types@[x] < types@[y - 1]) by {
                        if x < y - 1 {} else {}
                    }
                }
            } else if x == p {
                assert(r@[y] == types@[y - 1]);
                assert(types@[p as int] <= types@[y - 1]) by { if p < y - 1 {} }
            } else {
                assert(r@[x] == types@[x - 1]);
                assert(r@[y] == types@[y - 1]);
            }
        }
        assert forall|x: u64| r@.to_set().contains(x) == types@.to_set().insert(key).contains(x) by {
            if types@.contains(x) {
                let k = choose|k: int| 0 <= k < types@.len() && types@[k] == x;
                if k < p {
                    assert(r@[k] == x);
                } else {
                    assert(r@[k + 1] == x);
                }
            }
            if r@.contains(x) {
                let k = choose|k: int| 0 <= k < r@.len() && r@[k] == x;
                if k < p {
                    assert(types@[k] == x);
                } else if k > p {
                    assert(types@[k - 1] == x);
                }
            }
            if x == key {
                assert(r@[p as int] == key);
            }
        }
        assert(r@.to_set() =~= types@.to_set().insert(key));
    }
    r
}

/// The sorted key list without `key`, keeping the order of the others.
pub fn keys_without(types: &Vec<u64>, key: u64) -> (r: Vec<u64>)
    requires
        strictly_sorted(types@),
    ensures
        strictly_sorted(r@),
        r@.to_set() == types@.to_set().remove(key),
{
    let n = types.len();
    let mut r: Vec<u64> = Vec::new();
    let mut i: usize = 0;
    let ghost mut skipped: int = n as int;
    while i < n
        invariant
            i <= n,
            n == types@.len(),
            strictly_sorted(types@),
            skipped == n || (0 <= skipped < i && types@[skipped] == key),
            skipped == n ==> forall|k: int| 0 <= k < i ==> types@[k] != key,
            skipped == n ==> r@ == types@.take(i as int),
            skipped < n ==> r@ == types@.take(skipped) + types@.subrange(skipped + 1, i as int),
        decreases n - i,
    {
        if types[i] != key {
            r.push(types[i]);
            proof {
                if skipped == n {
                    assert(r@ =~= types@.take(i as int + 1));
                } else {
                    assert(r@ =~= types@.take(skipped) + types@.subrange(skipped + 1, i as int + 1));
                }
            }
        } else {
            proof {
                if skipped < n {
                    assert(types@[skipped] < types@[i as int]);
                }
                skipped = i as int;
                assert(r@ =~= types@.take(skipped) + types@.subrange(skipped + 1, i as int + 1));
            }
        }
        i += 1;
    }
    proof {
        if skipped == n {
            assert(r@ =~= types@);
            assert forall|x: u64| r@.to_set().contains(x) == types@.to_set().remove(key).contains(x) by {
                if r@.contains(x) {
                    let k = choose|k: int| 0 <= k < r@.len() && r@[k] == x;
                    assert(types@[k] != key);
                }
            }
        } else {
            let q = skipped;
            assert forall|x: int, y: int| 0 <= x < y < r@.len() implies r@[x] < r@[y] by {
                let xi = if x < q { x } else { x + 1 };
                let yi = if y < q { y } else { y + 1 };
                assert(r@[x] == types@[xi]);
                assert(r@[y] == types@[yi]);
            }
            assert forall|x: u64| r@.to_set().contains(x) == types@.to_set().remove(key).contains(x) by {
                if types@.contains(x) && x != key {
                    let k = choose|k: int| 0 <= k < types@.len() && types@[k] == x;
                    assert(k != q);
                    if k < q {
                        assert(r@[k] == x);
                    } else {
                        assert(r@[k - 1] == x);
                    }
                }
                if r@.contains(x) {
                    let k = choose|k: int| 0 <= k < r@.len() && r@[k] == x;
                    let ki = if k < q { k } else { k + 1 };
                    assert(types@[ki] == x);
                    assert(ki != q);
                    if ki < q { assert(types@[ki] < types@[q]); } else { assert(types@[q] < types@[ki]); }
                }
            }
        }
        assert(r@.to_set() =~= types@.to_set().remove(key));
    }
    r
}

/// Swap-remove `row` from column `j`, returning the removed value.
fn column_swap_remove<C>(columns: &mut Vec<Vec<C>>, j: usize, row: usize) -> (v: C)
    requires
        j < old(columns)@.len(),
        row < old(columns)@[j as int]@.len(),
    ensures
        v == old(columns)@[j as int]@[row as int],
        final(columns)@.len() == old(columns)@.len(),
        forall|i: int| 0 <= i < old(columns)@.len() && i != j ==> #[trigger] final(columns)@[i] == old(columns)@[i],
        final(columns)@[j as int]@ == swap_removed(old(columns)@[j as int]@, row as int),
{
    let mut col: Vec<C> = Vec::new();
    columns.set_and_swap(j, &mut col);
    let v = col.swap_remove(row);
    columns.set_and_swap(j, &mut col);
    v
}

/// Push `v` at the end of column `j`.
fn column_push<C>(columns: &mut Vec<Vec<C>>, j: usize, v: C)
    requires
        j < old(columns)@.len(),
    ensures
        final(columns)@.len() == old(columns)@.len(),
        forall|i: int| 0 <= i < old(columns)@.len() && i != j ==> #[trigger] final(columns)@[i] == old(columns)@[i],
        final(columns)@[j as int]@ == old(columns)@[j as int]@.push(v),
{
    let mut col: Vec<C> = Vec::new();
    columns.set_and_swap(j, &mut col);
    col.push(v);
    columns.set_and_swap(j, &mut col);
}

/// Entities sharing one component set.
///
/// Invariant: the component keys are strictly sorted, there is one column per
/// key, and every column has one value per entity row; rows stay compact via
/// swap-remove.
pub struct Archetype<C> {
    pub id: ArchetypeId,
    /// Sorted component keys.
    pub component_types: Vec<u64>,
    /// One column per key, in key order.
    pub columns: Vec<Vec<C>>,
    /// Entity per row.
    pub entities: Vec<Entity>,
    /// Lazily cached transitions: adding key `k` leads to archetype `id`.
    pub add_edges: Vec<(u64, ArchetypeId)>,
    /// Lazily cached transitions: removing key `k` leads to archetype `id`.
    pub remove_edges: Vec<(u64, ArchetypeId)>,
}

impl<C> Archetype<C> {
    /// Component keys.
    pub open spec fn types(&self) -> Seq<u64> {
        self.component_types@
    }

    /// Number of rows.
    pub open spec fn rows(&self) -> nat {
        self.entities@.len()
    }

    /// Column `j` as a sequence.
    pub open spec fn col(&self, j: int) -> Seq<C> {
        self.columns@[j]@
    }

    /// Columns line up with the keys.
    pub open spec fn shaped(&self) -> bool {
        &&& strictly_sorted(self.types())
        &&& self.columns@.len() == self.types().len()
    }

    /// Structural invariant.
    pub open spec fn wf(&self) -> bool {
        &&& self.shaped()
        &&& forall|j: int| 0 <= j < self.types().len() ==> (#[trigger] self.col(j)).len() == self.rows()
    }

    /// Components stored in `row`, keyed by component key.
    pub open spec fn row_components(&self, row: int) -> Map<u64, C> {
        Map::new(
            |k: u64| self.types().contains(k),
            |k: u64| self.col(self.types().index_of(k))[row],
        )
    }

    /// Empty archetype for sorted `component_types`.
    pub fn new(id: ArchetypeId, component_types: Vec<u64>) -> (r: Self)
        requires
            strictly_sorted(component_types@),
        ensures
            r.wf(),
            r.id == id,
            r.types() == component_types@,
            r.rows() == 0,
            r.add_edges@.len() == 0,
            r.remove_edges@.len() == 0,
    {
        let n = component_types.len();
        let mut columns: Vec<Vec<C>> = Vec::new();
        let mut j: usize = 0;
        while j < n
            invariant
                j <= n,
                n == component_types@.len(),
                columns@.len() == j,
                forall|i: int| 0 <= i < j ==> (#[trigger] columns@[i])@.len() == 0,
            decreases n - j,
        {
            columns.push(Vec::new());
            j += 1;
        }
        Archetype {
            id,
            component_types,
            columns,
            entities: Vec::new(),
            add_edges: Vec::new(),
            remove_edges: Vec::new(),
        }
    }

    /// Position of `key` among the component keys.
    pub fn column_index(&self, key: u64) -> (r: Option<usize>)
        requires
            strictly_sorted(self.types()),
        ensures
            r is Some <==> self.types().contains(key),
            r matches Some(j) ==> j < self.types().len() && self.types()[j as int] == key
                && self.types().index_of(key) == j,
    {
        let n = self.component_types.len();
        let mut j: usize = 0;
        while j < n
            invariant
                j <= n,
                n == self.types().len(),
                strictly_sorted(self.types()),
                forall|i: int| 0 <= i < j ==> self.types()[i] != key,
            decreases n - j,
        {
            if self.component_types[j] == key {
                proof {
                    lemma_sorted_index_of(self.types(), j as int);
                }
                return Some(j);
            }
            j += 1;
        }
        None
    }

    /// The archetype's component set contains `key`.
    pub fn has(&self, key: u64) -> (r: bool)
        requires
            strictly_sorted(self.types()),
        ensures
            r == self.types().contains(key),
    {
        match self.column_index(key) {
            Some(_) => true,
            None => false,
        }
    }

    /// Number of rows.
    pub fn row_count(&self) -> (r: usize)
        ensures
            r == self.rows(),
    {
        self.entities.len()
    }

    /// Swap-remove `row` from every column and from the entity list; returns
    /// the entity that moved into `row`, if one did (the caller updates its
    /// location).
    pub fn swap_remove_row(&mut self, row: usize) -> (displaced: Option<Entity>)
        requires
            old(self).wf(),
            row < old(self).rows(),
        ensures
            final(self).wf(),
            final(self).id == old(self).id,
            final(self).types() == old(self).types(),
            final(self).add_edges == old(self).add_edges,
            final(self).remove_edges == old(self).remove_edges,
            final(self).entities@ == swap_removed(old(self).entities@, row as int),
            forall|j: int|
                0 <= j < old(self).types().len() ==> #[trigger] final(self).col(j) == swap_removed(
                    old(self).col(j),
                    row as int,
                ),
            displaced == (if row + 1 < old(self).rows() {
                Some(old(self).entities@.last())
            } else {
                None::<Entity>
            }),
    {
        let last = self.entities.len() - 1;
        let n = self.columns.len();
        let mut j: usize = 0;
        while j < n
            invariant
                j <= n,
                n == self.columns@.len(),
                n == old(self).columns@.len(),
                self.id == old(self).id,
                self.component_types == old(self).component_types,
                self.entities == old(self).entities,
                self.add_edges == old(self).add_edges,
                self.remove_edges == old(self).remove_edges,
                old(self).wf(),
                row < old(self).rows(),
                forall|i: int| 0 <= i < j ==> #[trigger] self.col(i) == swap_removed(old(self).col(i), row as int),
                forall|i: int| j <= i < n ==> #[trigger] self.col(i) == old(self).col(i),
            decreases n - j,
        {
            assert(self.col(j as int) == old(self).col(j as int));
            assert(old(self).col(j as int).len() == old(self).rows());
            let ghost prev = self.columns@;
            assert forall|i: int| 0 <= i < n implies (#[trigger] prev[i])@ == if i < j {
                swap_removed(old(self).col(i), row as int)
            } else {
                old(self).col(i)
            } by {
                assert(self.col(i) == prev[i]@);
            }
            let _ = column_swap_remove(&mut self.columns, j, row);
            assert forall|i: int| 0 <= i < j + 1 implies #[trigger] self.col(i) == swap_removed(old(self).col(i), row as int) by {
                if i < j {
                    assert(self.columns@[i] == prev[i]);
                }
            }
            assert forall|i: int| j + 1 <= i < n implies #[trigger] self.col(i) == old(self).col(i) by {
                assert(self.columns@[i] == prev[i]);
            }
            j += 1;
        }
        let ghost cols = self.columns@;
        assert forall|i: int| 0 <= i < n implies (#[trigger] cols[i])@ == swap_removed(old(self).col(i), row as int) by {
            assert(self.col(i) == cols[i]@);
        }
        let _ = self.entities.swap_remove(row);
        assert(self.columns@ == cols);
        assert forall|i: int| 0 <= i < n implies #[trigger] self.col(i) == swap_removed(old(self).col(i), row as int) by {
            assert(cols[i] == self.columns@[i]);
        }
        if row < last {
            Some(self.entities[row])
        } else {
            None
        }
    }

    /// Move the values of `row` for every key that `dest` also has into the end
    /// of `dest`'s columns (swap-removing them here); the caller handles entity
    /// rows, locations and the remaining columns.
    pub fn move_components_to(&mut self, row: usize, dest: &mut Archetype<C>)
        requires
            old(self).shaped(),
            forall|j: int| 0 <= j < old(self).types().len() ==> row < (#[trigger] old(self).col(j)).len(),
            old(dest).shaped(),
        ensures
            final(self).id == old(self).id,
            final(self).component_types == old(self).component_types,
            final(self).entities == old(self).entities,
            final(self).add_edges == old(self).add_edges,
            final(self).remove_edges == old(self).remove_edges,
            final(self).columns@.len() == old(self).columns@.len(),
            forall|j: int|
                0 <= j < old(self).types().len() ==> #[trigger] final(self).col(j) == if old(
                    dest,
                ).types().contains(old(self).types()[j]) {
                    swap_removed(old(self).col(j), row as int)
                } else {
                    old(self).col(j)
                },
            final(dest).id == old(dest).id,
            final(dest).component_types == old(dest).component_types,
            final(dest).entities == old(dest).entities,
            final(dest).add_edges == old(dest).add_edges,
            final(dest).remove_edges == old(dest).remove_edges,
            final(dest).columns@.len() == old(dest).columns@.len(),
            forall|d: int|
                0 <= d < old(dest).types().len() ==> #[trigger] final(dest).col(d) == if old(
                    self,
                ).types().contains(old(dest).types()[d]) {
                    old(dest).col(d).push(
                        old(self).col(old(self).types().index_of(old(dest).types()[d]))[row as int],
                    )
                } else {
                    old(dest).col(d)
                },
    {
        let n = self.component_types.len();
        let mut j: usize = 0;
        while j < n
            invariant
                j <= n,
                n == old(self).types().len(),
                self.id == old(self).id,
                self.component_types == old(self).component_types,
                self.entities == old(self).entities,
                self.add_edges == old(self).add_edges,
                self.remove_edges == old(self).remove_edges,
                self.columns@.len() == old(self).columns@.len(),
                dest.id == old(dest).id,
                dest.component_types == old(dest).component_types,
                dest.entities == old(dest).entities,
                dest.add_edges == old(dest).add_edges,
                dest.remove_edges == old(dest).remove_edges,
                dest.columns@.len() == old(dest).columns@.len(),
                old(self).shaped(),
                old(dest).shaped(),
                forall|i: int| 0 <= i < n ==> row < (#[trigger] old(self).col(i)).len(),
                forall|i: int|
                    0 <= i < j ==> #[trigger] self.col(i) == if old(dest).types().contains(
                        old(self).types()[i],
                    ) {
                        swap_removed(old(self).col(i), row as int)
                    } else {
                        old(self).col(i)
                    },
                forall|i: int| j <= i < n ==> #[trigger] self.col(i) == old(self).col(i),
                forall|d: int|
                    0 <= d < old(dest).types().len() ==> #[trigger] dest.col(d) == if {
                        &&& old(self).types().contains(old(dest).types()[d])
                        &&& old(self).types().index_of(old(dest).types()[d]) < j
                    } {
                        old(dest).col(d).push(
                            old(self).col(old(self).types().index_of(old(dest).types()[d]))[row as int],
                        )
                    } else {
                        old(dest).col(d)
                    },
            decreases n - j,
        {
            let key = self.component_types[j];
            match dest.column_index(key) {
                Some(d) => {
                    proof {
                        lemma_sorted_index_of(old(self).types(), j as int);
                    }
                    assert(self.col(j as int) == old(self).col(j as int));
                    assert(row < old(self).col(j as int).len());
                    let ghost prev = self.columns@;
                    let ghost prevd = dest.columns@;
                    assert forall|i: int| 0 <= i < n implies (#[trigger] prev[i])@ == self.col(i) by {}
                    assert forall|e: int| 0 <= e < old(dest).types().len() implies (#[trigger] prevd[e])@ == dest.col(e) by {}
                    let val = column_swap_remove(&mut self.columns, j, row);
                    column_push(&mut dest.columns, d, val);
                    proof {
                        assert forall|i: int| 0 <= i < n && i != j implies #[trigger] self.col(i) == prev[i]@ by {
                            assert(self.columns@[i] == prev[i]);
                        }
                        assert forall|e: int| 0 <= e < old(dest).types().len() && e != d implies #[trigger] dest.col(e) == prevd[e]@ by {
                            assert(dest.columns@[e] == prevd[e]);
                        }
                        assert forall|e: int| 0 <= e < old(dest).types().len() implies #[trigger] dest.col(e)
                            == if {
                            &&& old(self).types().contains(old(dest).types()[e])
                            &&& old(self).types().index_of(old(dest).types()[e]) < j + 1
                        } {
                            old(dest).col(e).push(
                                old(self).col(old(self).types().index_of(old(dest).types()[e]))[row as int],
                            )
                        } else {
                            old(dest).col(e)
                        } by {
                            if e == d {
                            } else {
                                lemma_sorted_index_of(old(dest).types(), e);
                                lemma_sorted_index_of(old(dest).types(), d as int);
                            }
                        }
                    }
                },
                None => {
                    proof {
                        lemma_sorted_index_of(old(self).types(), j as int);
                        assert forall|e: int| 0 <= e < old(dest).types().len() implies #[trigger] dest.col(e)
                            == if {
                            &&& old(self).types().contains(old(dest).types()[e])
                            &&& old(self).types().index_of(old(dest).types()[e]) < j + 1
                        } {
                            old(dest).col(e).push(
                                old(self).col(old(self).types().index_of(old(dest).types()[e]))[row as int],
                            )
                        } else {
                            old(dest).col(e)
                        } by {
                            if old(self).types().contains(old(dest).types()[e]) && old(self).types().index_of(old(dest).types()[e]) == j {
                                assert(old(dest).types().contains(key));
                            }
                        }
                    }
                },
            }
            j += 1;
        }
        proof {
            assert forall|d: int| 0 <= d < old(dest).types().len() && old(self).types().contains(old(dest).types()[d]) implies
                old(self).types().index_of(old(dest).types()[d]) < n by {
                let k = old(dest).types()[d];
                let i = choose|i: int| 0 <= i < old(self).types().len() && old(self).types()[i] == k;
                lemma_sorted_index_of(old(self).types(), i);
            }
        }
    }

    /// Overwrite the value of column `j` at `row`.
    pub fn set_value(&mut self, j: usize, row: usize, v: C)
        requires
            j < old(self).columns@.len(),
            row < old(self).col(j as int).len(),
        ensures
            final(self).id == old(self).id,
            final(self).component_types == old(self).component_types,
            final(self).entities == old(self).entities,
            final(self).add_edges == old(self).add_edges,
            final(self).remove_edges == old(self).remove_edges,
            final(self).columns@.len() == old(self).columns@.len(),
            forall|i: int| 0 <= i < old(self).columns@.len() && i != j ==> #[trigger] final(self).col(i) == old(self).col(i),
            final(self).col(j as int) == old(self).col(j as int).update(row as int, v),
    {
        let mut col: Vec<C> = Vec::new();
        self.columns.set_and_swap(j, &mut col);
        col.set(row, v);
        self.columns.set_and_swap(j, &mut col);
        proof {
            assert forall|i: int| 0 <= i < old(self).columns@.len() && i != j implies #[trigger] self.col(i) == old(self).col(i) by {
                assert(self.columns@[i] == old(self).columns@[i]);
            }
        }
    }

    /// Push `v` at the end of column `j`.
    pub fn push_value(&mut self, j: usize, v: C)
        requires
            j < old(self).columns@.len(),
        ensures
            final(self).id == old(self).id,
            final(self).component_types == old(self).component_types,
            final(self).entities == old(self).entities,
            final(self).add_edges == old(self).add_edges,
            final(self).remove_edges == old(self).remove_edges,
            final(self).columns@.len() == old(self).columns@.len(),
            forall|i: int| 0 <= i < old(self).columns@.len() && i != j ==> #[trigger] final(self).col(i) == old(self).col(i),
            final(self).col(j as int) == old(self).col(j as int).push(v),
    {
        column_push(&mut self.columns, j, v);
        proof {
            assert forall|i: int| 0 <= i < old(self).columns@.len() && i != j implies #[trigger] self.col(i) == old(self).col(i) by {
                assert(self.columns@[i] == old(self).columns@[i]);
            }
        }
    }

    /// Swap-remove `row` from column `j` alone, returning the value.
    pub fn take_value(&mut self, j: usize, row: usize) -> (v: C)
        requires
            j < old(self).columns@.len(),
            row < old(self).col(j as int).len(),
        ensures
            v == old(self).col(j as int)[row as int],
            final(self).id == old(self).id,
            final(self).component_types == old(self).component_types,
            final(self).entities == old(self).entities,
            final(self).add_edges == old(self).add_edges,
            final(self).remove_edges == old(self).remove_edges,
            final(self).columns@.len() == old(self).columns@.len(),
            forall|i: int| 0 <= i < old(self).columns@.len() && i != j ==> #[trigger] final(self).col(i) == old(self).col(i),
            final(self).col(j as int) == swap_removed(old(self).col(j as int), row as int),
    {
        let v = column_swap_remove(&mut self.columns, j, row);
        proof {
            assert forall|i: int| 0 <= i < old(self).columns@.len() && i != j implies #[trigger] self.col(i) == old(self).col(i) by {
                assert(self.columns@[i] == old(self).columns@[i]);
            }
        }
        v
    }

    /// Mutable access to the value of column `j` at `row`.
    pub fn value_mut(&mut self, j: usize, row: usize) -> (v: &mut C)
        requires
            j < old(self).columns@.len(),
            row < old(self).col(j as int).len(),
        ensures
            *v == old(self).col(j as int)[row as int],
            final(self).id == old(self).id,
            final(self).component_types == old(self).component_types,
            final(self).entities == old(self).entities,
            final(self).add_edges == old(self).add_edges,
            final(self).remove_edges == old(self).remove_edges,
            final(self).columns@.len() == old(self).columns@.len(),
            forall|i: int| 0 <= i < old(self).columns@.len() && i != j ==> #[trigger] final(self).col(i) == old(self).col(i),
            final(self).col(j as int) == old(self).col(j as int).update(row as int, *final(v)),
    {
        let col = &mut self.columns[j];
        &mut col[row]
    }

    /// After swap-removing `row` from every column, each remaining row holds
    /// what it held before, except that `row` now holds the old last row.
    pub proof fn lemma_swap_removed_components(pre: Self, post: Self, row: int, r: int)
        requires
            pre.wf(),
            0 <= row < pre.rows(),
            post.types() == pre.types(),
            forall|j: int| 0 <= j < pre.types().len() ==> #[trigger] post.col(j) == swap_removed(pre.col(j), row),
            0 <= r < pre.rows() - 1,
        ensures
            post.row_components(r) == pre.row_components(
                if r == row { pre.rows() - 1 } else { r },
            ),
    {
        let src = if r == row { pre.rows() - 1 } else { r };
        assert forall|k: u64| #[trigger] post.row_components(r).contains_key(k) implies post.row_components(r)[k]
            == pre.row_components(src)[k] by {
            let j = post.types().index_of(k);
            assert(pre.col(j).len() == pre.rows());
            assert(post.col(j) == swap_removed(pre.col(j), row));
        }
        assert(post.row_components(r) =~= pre.row_components(src));
    }

    /// Rows whose values are untouched keep their components.
    pub proof fn lemma_same_row_components(pre: Self, post: Self, r: int, s: int)
        requires
            post.types() == pre.types(),
            forall|j: int| 0 <= j < pre.types().len() ==> (#[trigger] post.col(j))[r] == pre.col(j)[s],
        ensures
            post.row_components(r) == pre.row_components(s),
    {
        assert forall|k: u64| #[trigger] post.row_components(r).contains_key(k) implies post.row_components(r)[k]
            == pre.row_components(s)[k] by {
            let j = post.types().index_of(k);
            assert(0 <= j < pre.types().len());
        }
        assert(post.row_components(r) =~= pre.row_components(s));
    }
}

} // verus!
