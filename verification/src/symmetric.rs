//! Editable symmetric Hessian. Off-diagonal coefficients are stored once;
//! sorted adjacency lists hold compact references to the shared coefficients.

use crate::linked::{self, Entries, NONE};
use crate::number::Real;
use vstd::prelude::*;

verus! {

/// A neighbour in the sparsity pattern, with the slot of the shared coefficient.
#[derive(Clone, Copy, Debug)]
struct Link {
    column: u32,
    coefficient: u32,
}

/// A symmetric matrix, viewed as a map from each nonzero position, on both
/// sides of the diagonal, to its coefficient.
pub struct SymmetricMatrix {
    values: Vec<Real>,
    /// Released value slots store the next free slot in their raw bits.
    free: u32,
    free_count: usize,
    adjacency: Vec<Vec<Link>>,
    /// Allocated only when the matrix first acquires a nonzero diagonal.
    diagonal: Vec<Real>,
    nnz: usize,
    /// Counts edits.
    revision: usize,
    /// The slot of each off-diagonal position.
    ids: Ghost<Map<(int, int), int>>,
    /// Released slots, the next one to reuse last.
    spare: Ghost<Seq<int>>,
}

spec fn swap(p: (int, int)) -> (int, int) {
    (p.1, p.0)
}

/// Positions above the diagonal.
spec fn upper(ids: Map<(int, int), int>) -> Set<(int, int)> {
    ids.dom().filter(|p: (int, int)| p.0 < p.1)
}

/// Mirrored positions share one slot, and no other positions share one.
spec fn shared(ids: Map<(int, int), int>, values: Seq<Real>, n: nat) -> bool {
    &&& forall|p: (int, int)| #[trigger]
        ids.contains_key(p) ==> {
            &&& 0 <= p.0 < n
            &&& 0 <= p.1 < n
            &&& p.0 != p.1
            &&& ids.contains_key(swap(p))
            &&& ids[swap(p)] == ids[p]
            &&& 0 <= ids[p] < values.len()
            &&& !values[ids[p]].zero()
        }
    &&& forall|p: (int, int), q: (int, int)|
        ids.contains_key(p) && ids.contains_key(q) && #[trigger] ids[p] == #[trigger] ids[q] ==> p
            == q || p == swap(q)
}

/// Row `i` lists exactly its neighbours, in increasing order.
spec fn lists(row: Seq<Link>, ids: Map<(int, int), int>, i: int) -> bool {
    &&& forall|a: int, b: int|
        0 <= a < b < row.len() ==> (#[trigger] row[a]).column < (#[trigger] row[b]).column
    &&& forall|a: int|
        0 <= a < row.len() ==> {
            &&& ids.contains_key((i, (#[trigger] row[a]).column as int))
            &&& ids[(i, row[a].column as int)] == row[a].coefficient
        }
    &&& forall|j: int| #[trigger]
        ids.contains_key((i, j)) ==> exists|a: int|
            0 <= a < row.len() && (#[trigger] row[a]).column == j
}

spec fn stacked(
    values: Seq<Real>,
    ids: Map<(int, int), int>,
    free: u32,
    spare: Seq<int>,
) -> bool {
    &&& free == (if spare.len() == 0 {
        NONE as int
    } else {
        spare.last()
    })
    &&& forall|a: int|
        0 <= a < spare.len() ==> {
            &&& 0 <= (#[trigger] spare[a]) < values.len()
            &&& values[spare[a]].bits == (if a == 0 {
                NONE as int
            } else {
                spare[a - 1]
            })
        }
    &&& forall|a: int, b: int|
        0 <= a < spare.len() && 0 <= b < spare.len() && a != b ==> #[trigger] spare[a]
            != #[trigger] spare[b]
    &&& forall|p: (int, int), a: int|
        ids.contains_key(p) && 0 <= a < spare.len() ==> #[trigger] ids[p] != #[trigger] spare[a]
}

spec fn diagonal_at(diagonal: Seq<Real>, i: int) -> Real {
    if 0 <= i < diagonal.len() {
        diagonal[i]
    } else {
        crate::number::zero()
    }
}

spec fn contents(
    ids: Map<(int, int), int>,
    values: Seq<Real>,
    diagonal: Seq<Real>,
) -> Map<(int, int), Real> {
    Map::new(
        |p: (int, int)|
            if p.0 == p.1 {
                !diagonal_at(diagonal, p.0).zero()
            } else {
                ids.contains_key(p)
            },
        |p: (int, int)|
            if p.0 == p.1 {
                diagonal_at(diagonal, p.0)
            } else {
                values[ids[p]]
            },
    )
}

impl View for SymmetricMatrix {
    type V = Map<(int, int), Real>;

    closed spec fn view(&self) -> Map<(int, int), Real> {
        contents(self.ids@, self.values@, self.diagonal@)
    }
}

/// The value a map gives a position, zero where it has none.
pub open spec fn value_at(matrix: Map<(int, int), Real>, row: int, column: int) -> Real {
    if matrix.contains_key((row, column)) {
        matrix[(row, column)]
    } else {
        crate::number::zero()
    }
}

/// `new` is `old` with the mirrored positions of one coefficient set to `value`.
pub open spec fn coefficient_set(
    old: Map<(int, int), Real>,
    row: int,
    column: int,
    value: Real,
) -> Map<(int, int), Real> {
    if value.zero() {
        old.remove((row, column)).remove((column, row))
    } else {
        old.insert((row, column), value).insert((column, row), value)
    }
}

/// The matrix without one row and column.
pub open spec fn variable_removed(old: Map<(int, int), Real>, column: int) -> Map<
    (int, int),
    Real,
> {
    old.remove_keys(old.dom().filter(|p: (int, int)| p.0 == column || p.1 == column))
}

impl SymmetricMatrix {
    /// The adjacency lists, the shared coefficients and the released slots agree.
    pub closed spec fn wf(&self) -> bool {
        &&& self.adjacency@.len() < NONE
        &&& self.values@.len() <= NONE
        &&& self.diagonal@.len() == 0 || self.diagonal@.len() == self.adjacency@.len()
        &&& shared(self.ids@, self.values@, self.adjacency@.len())
        &&& forall|i: int|
            0 <= i < self.adjacency@.len() ==> lists((#[trigger] self.adjacency@[i])@, self.ids@, i)
        &&& stacked(self.values@, self.ids@, self.free, self.spare@)
        &&& self.free_count == self.spare@.len()
        &&& upper(self.ids@).finite()
        &&& self.values@.len() == self.spare@.len() + upper(self.ids@).len()
        &&& self@.dom().finite()
        &&& self.nnz == self@.dom().len()
    }

    /// Number of variables.
    pub closed spec fn size(&self) -> nat {
        self.adjacency@.len()
    }

    /// How many edits the matrix has seen.
    pub closed spec fn edits(&self) -> nat {
        self.revision as nat
    }

    pub fn revision(&self) -> (edits: usize)
        ensures
            edits == self.edits(),
    {
        self.revision
    }

    /// Stored positions are inside the matrix, mirrored, finite in number and nonzero.
    pub proof fn stored_positions(&self)
        requires
            self.wf(),
        ensures
            self@.dom().finite(),
            self.size() < NONE,
            forall|i: int, j: int| #[trigger]
                self@.contains_key((i, j)) ==> {
                    &&& 0 <= i < self.size()
                    &&& 0 <= j < self.size()
                    &&& !self@[(i, j)].zero()
                    &&& self@.contains_key((j, i))
                    &&& self@[(j, i)] == self@[(i, j)]
                },
    {
        assert forall|i: int, j: int| #[trigger] self@.contains_key((i, j)) implies {
            &&& 0 <= i < self.size()
            &&& 0 <= j < self.size()
            &&& !self@[(i, j)].zero()
            &&& self@.contains_key((j, i))
            &&& self@[(j, i)] == self@[(i, j)]
        } by {
            if i != j {
                assert(self.ids@.contains_key((i, j)));
                assert(swap((i, j)) == (j, i));
            }
        }
    }

    pub fn zeros(n: usize) -> (matrix: Self)
        requires
            n < NONE,
        ensures
            matrix.wf(),
            matrix.size() == n,
            matrix@ == Map::<(int, int), Real>::empty(),
            matrix.edits() == 0,
    {
        let mut adjacency: Vec<Vec<Link>> = Vec::new();
        let mut at: usize = 0;
        while at < n
            invariant
                at <= n,
                adjacency@.len() == at,
                forall|i: int| 0 <= i < at ==> (#[trigger] adjacency@[i])@.len() == 0,
            decreases n - at,
        {
            adjacency.push(Vec::new());
            at = at + 1;
        }
        let ghost none = Map::<(int, int), int>::empty();
        let matrix = SymmetricMatrix {
            values: Vec::new(),
            free: NONE,
            free_count: 0,
            adjacency,
            diagonal: Vec::new(),
            nnz: 0,
            revision: 0,
            ids: Ghost(none),
            spare: Ghost(Seq::empty()),
        };
        proof {
            assert(upper(none) =~= Set::<(int, int)>::empty());
            assert(matrix@ =~= Map::<(int, int), Real>::empty());
        }
        matrix
    }

    fn diagonal(&self, row: usize) -> (value: Real)
        ensures
            value == diagonal_at(self.diagonal@, row as int),
    {
        if row < self.diagonal.len() {
            self.diagonal[row]
        } else {
            crate::number::zero()
        }
    }

    /// Append a variable without coefficients and return its index.
    pub fn add_variable(&mut self) -> (variable: usize)
        requires
            old(self).wf(),
            old(self).size() + 1 < NONE,
            old(self).edits() < usize::MAX,
        ensures
            final(self).wf(),
            variable == old(self).size(),
            final(self).size() == old(self).size() + 1,
            final(self)@ == old(self)@,
            final(self).edits() == old(self).edits() + 1,
    {
        self.revision = self.revision + 1;
        let variable: usize = self.adjacency.len();
        self.adjacency.push(Vec::new());
        if self.diagonal.len() > 0 {
            self.diagonal.push(crate::number::zero());
        }
        proof {
            assert forall|i: int| diagonal_at(self.diagonal@, i) == #[trigger] diagonal_at(
                old(self).diagonal@,
                i,
            ) by {}
            assert(self@ =~= old(self)@);
            assert forall|i: int| 0 <= i < self.adjacency@.len() implies lists(
                (#[trigger] self.adjacency@[i])@,
                self.ids@,
                i,
            ) by {
                if i < variable {
                    assert(self.adjacency@[i] == old(self).adjacency@[i]);
                } else {
                    assert forall|j: int| !#[trigger] self.ids@.contains_key((i, j)) by {}
                }
            }
        }
        variable
    }

    /// Number of stored positions, both sides of the diagonal counted.
    pub fn nnz(&self) -> (count: usize)
        requires
            self.wf(),
        ensures
            count == self@.dom().len(),
            self@.dom().finite(),
    {
        self.nnz
    }

    /// Number of coefficient slots in use or waiting to be reused.
    pub fn coefficient_slots(&self) -> (count: usize)
        requires
            self.wf(),
        ensures
            2 * count >= self@.dom().len() - self.size(),
    {
        proof {
            lemma_size_bound(*self);
        }
        self.values.len()
    }

    /// Where a neighbour stands in a row's list, or where it would be inserted.
    fn search(&self, row: usize, column: usize) -> (at: Result<usize, usize>)
        requires
            self.wf(),
            row < self.adjacency@.len(),
            column < self.adjacency@.len(),
        ensures
            match at {
                Ok(at) => {
                    &&& at < self.adjacency@[row as int]@.len()
                    &&& self.adjacency@[row as int]@[at as int].column == column
                    &&& self.ids@.contains_key((row as int, column as int))
                },
                Err(at) => {
                    let list = self.adjacency@[row as int]@;
                    &&& at <= list.len()
                    &&& forall|a: int| 0 <= a < at ==> (#[trigger] list[a]).column < column
                    &&& forall|a: int| at <= a < list.len() ==> (#[trigger] list[a]).column > column
                    &&& !self.ids@.contains_key((row as int, column as int))
                },
            },
    {
        let list = &self.adjacency[row];
        assert(lists(list@, self.ids@, row as int));
        let mut low: usize = 0;
        let mut high: usize = list.len();
        while low < high
            invariant
                low <= high <= list@.len(),
                list@ == self.adjacency@[row as int]@,
                lists(list@, self.ids@, row as int),
                forall|a: int| 0 <= a < low ==> (#[trigger] list@[a]).column < column,
                forall|a: int| high <= a < list@.len() ==> (#[trigger] list@[a]).column > column,
            decreases high - low,
        {
            let middle: usize = low + (high - low) / 2;
            let found: usize = list[middle].column as usize;
            if found == column {
                return Ok(middle);
            } else if found < column {
                low = middle + 1;
            } else {
                high = middle;
            }
        }
        Err(low)
    }

    /// The coefficient at a position, zero where none is stored.
    /// Number of variables.
    pub fn variables(&self) -> (n: usize)
        requires
            self.wf(),
        ensures
            n == self.size(),
    {
        self.adjacency.len()
    }

    pub fn get(&self, row: usize, column: usize) -> (value: Real)
        requires
            self.wf(),
            row < self.size(),
            column < self.size(),
        ensures
            self@.contains_key((row as int, column as int)) ==> value == self@[(
                row as int,
                column as int,
            )],
            !self@.contains_key((row as int, column as int)) ==> value.zero(),
            row != column ==> value == value_at(self@, row as int, column as int),
    {
        if row == column {
            return self.diagonal(row);
        }
        match self.search(row, column) {
            Ok(at) => {
                let link = self.adjacency[row][at];
                assert(lists(self.adjacency@[row as int]@, self.ids@, row as int));
                assert(self.ids@.contains_key((row as int, link.column as int)));
                self.values[link.coefficient as usize]
            },
            Err(_) => crate::number::zero(),
        }
    }
}

/// Every pair above the diagonal takes two of the stored positions.
proof fn lemma_size_bound(m: SymmetricMatrix)
    requires
        m.wf(),
    ensures
        2 * upper(m.ids@).len() <= m@.dom().len(),
        m@.dom().len() <= 2 * upper(m.ids@).len() + m.size(),
{
    let up = upper(m.ids@);
    let low = m.ids@.dom().filter(|p: (int, int)| p.0 > p.1);
    let flip = |p: (int, int)| swap(p);
    assert(up.map(flip) =~= low) by {
        assert forall|p: (int, int)| low.contains(p) implies up.map(flip).contains(p) by {
            assert(m.ids@.contains_key(p));
            assert(up.contains(swap(p)));
            assert(flip(swap(p)) == p);
        }
        assert forall|p: (int, int)| up.map(flip).contains(p) implies low.contains(p) by {
            let q = choose|q: (int, int)| up.contains(q) && flip(q) == p;
            assert(m.ids@.contains_key(q));
        }
    }
    vstd::set_lib::lemma_map_size(up, low, flip);
    let both = up.union(low);
    vstd::set_lib::lemma_set_disjoint_lens(up, low);
    assert(both.subset_of(m@.dom()));
    vstd::set_lib::lemma_len_subset(both, m@.dom());
    let diag = m@.dom().difference(both);
    let range = vstd::set_lib::set_int_range(0, m.size() as int);
    vstd::set_lib::lemma_int_range(0, m.size() as int);
    let place = |i: int| (i, i);
    let all = range.map(place);
    assert(diag.subset_of(all)) by {
        assert forall|p: (int, int)| diag.contains(p) implies all.contains(p) by {
            assert(p.0 == p.1);
            assert(range.contains(p.0));
            assert(place(p.0) == p);
        }
    }
    vstd::set_lib::lemma_map_size(range, all, place);
    vstd::set_lib::lemma_len_subset(diag, all);
    vstd::set_lib::lemma_set_disjoint_lens(diag, both);
    assert(diag.union(both) =~= m@.dom());
}

// ---- edits of the pattern, over the ghost index alone ----

proof fn insert_pair(
    ids: Map<(int, int), int>,
    values: Seq<Real>,
    after: Seq<Real>,
    n: nat,
    i: int,
    j: int,
    id: int,
)
    requires
        shared(ids, values, n),
        0 <= i < n,
        0 <= j < n,
        i != j,
        !ids.contains_key((i, j)),
        values.len() <= after.len(),
        0 <= id < after.len(),
        !after[id].zero(),
        forall|p: (int, int)| #[trigger] ids.contains_key(p) ==> ids[p] != id && after[ids[p]]
            == values[ids[p]],
    ensures
        shared(ids.insert((i, j), id).insert((j, i), id), after, n),
        upper(ids).finite() ==> upper(ids.insert((i, j), id).insert((j, i), id)).finite() && upper(
            ids.insert((i, j), id).insert((j, i), id),
        ).len() == upper(ids).len() + 1,
{
    let grown = ids.insert((i, j), id).insert((j, i), id);
    if ids.contains_key((j, i)) {
        assert(ids.contains_key(swap((j, i))));
    }
    assert forall|p: (int, int)| #[trigger] grown.contains_key(p) implies {
        &&& 0 <= p.0 < n
        &&& 0 <= p.1 < n
        &&& p.0 != p.1
        &&& grown.contains_key(swap(p))
        &&& grown[swap(p)] == grown[p]
        &&& 0 <= grown[p] < after.len()
        &&& !after[grown[p]].zero()
    } by {
        if p != (i, j) && p != (j, i) {
            assert(ids.contains_key(p));
            assert(ids.contains_key(swap(p)));
        }
    }
    assert forall|p: (int, int), q: (int, int)|
        grown.contains_key(p) && grown.contains_key(q) && #[trigger] grown[p]
            == #[trigger] grown[q] implies p == q || p == swap(q) by {
        if p != (i, j) && p != (j, i) {
            assert(ids.contains_key(p));
        }
        if q != (i, j) && q != (j, i) {
            assert(ids.contains_key(q));
        }
    }
    let top = if i < j {
        (i, j)
    } else {
        (j, i)
    };
    assert(upper(grown) =~= upper(ids).insert(top));
}

proof fn remove_pair(ids: Map<(int, int), int>, values: Seq<Real>, n: nat, i: int, j: int)
    requires
        shared(ids, values, n),
        ids.contains_key((i, j)),
    ensures
        shared(ids.remove((i, j)).remove((j, i)), values, n),
        upper(ids).finite() ==> upper(ids.remove((i, j)).remove((j, i))).finite() && upper(
            ids.remove((i, j)).remove((j, i)),
        ).len() == upper(ids).len() - 1,
        forall|p: (int, int)| #[trigger]
            ids.remove((i, j)).remove((j, i)).contains_key(p) ==> ids[p] != ids[(i, j)],
        i != j,
        ids.contains_key((j, i)),
        ids[(j, i)] == ids[(i, j)],
        0 <= ids[(i, j)] < values.len(),
{
    let less = ids.remove((i, j)).remove((j, i));
    assert(swap((i, j)) == (j, i));
    assert(ids.contains_key(swap((i, j))));
    assert forall|p: (int, int)| #[trigger] less.contains_key(p) implies ids.contains_key(p)
        && less[p] == ids[p] && less.contains_key(swap(p)) && ids[p] != ids[(i, j)] by {
        assert(ids.contains_key(p));
        assert(ids.contains_key(swap(p)));
    }
    let top = if i < j {
        (i, j)
    } else {
        (j, i)
    };
    assert(upper(ids).contains(top));
    assert(upper(less) =~= upper(ids).remove(top));
}

/// A row list after one neighbour is inserted at its place.
proof fn list_inserted(
    row: Seq<Link>,
    ids: Map<(int, int), int>,
    grown: Map<(int, int), int>,
    i: int,
    at: int,
    link: Link,
)
    requires
        lists(row, ids, i),
        0 <= at <= row.len(),
        forall|a: int| 0 <= a < at ==> (#[trigger] row[a]).column < link.column,
        forall|a: int| at <= a < row.len() ==> (#[trigger] row[a]).column > link.column,
        forall|j: int| #[trigger]
            grown.contains_key((i, j)) <==> ids.contains_key((i, j)) || j == link.column,
        forall|j: int| #[trigger]
            grown.contains_key((i, j)) ==> grown[(i, j)] == (if j == link.column {
                link.coefficient as int
            } else {
                ids[(i, j)]
            }),
    ensures
        lists(row.insert(at, link), grown, i),
{
    let more = row.insert(at, link);
    assert forall|a: int| 0 <= a < more.len() implies #[trigger] more[a] == (if a < at {
        row[a]
    } else if a == at {
        link
    } else {
        row[a - 1]
    }) by {}
    assert forall|a: int| 0 <= a < more.len() implies {
        &&& grown.contains_key((i, (#[trigger] more[a]).column as int))
        &&& grown[(i, more[a].column as int)] == more[a].coefficient
    } by {
        if a != at {
            let b = if a < at {
                a
            } else {
                a - 1
            };
            assert(ids.contains_key((i, row[b].column as int)));
        }
        assert(grown.contains_key((i, more[a].column as int)));
    }
    assert forall|j: int| #[trigger] grown.contains_key((i, j)) implies exists|a: int|
        0 <= a < more.len() && (#[trigger] more[a]).column == j by {
        if j == link.column {
            assert(more[at].column == j);
        } else {
            let b = choose|b: int| 0 <= b < row.len() && (#[trigger] row[b]).column == j;
            if b < at {
                assert(more[b].column == j);
            } else {
                assert(more[b + 1].column == j);
            }
        }
    }
}

/// A row list after one neighbour is removed.
proof fn list_removed(
    row: Seq<Link>,
    ids: Map<(int, int), int>,
    less: Map<(int, int), int>,
    i: int,
    at: int,
)
    requires
        lists(row, ids, i),
        0 <= at < row.len(),
        forall|j: int| #[trigger]
            less.contains_key((i, j)) <==> ids.contains_key((i, j)) && j != row[at].column,
        forall|j: int| #[trigger] less.contains_key((i, j)) ==> less[(i, j)] == ids[(i, j)],
    ensures
        lists(row.remove(at), less, i),
{
    let rest = row.remove(at);
    assert forall|a: int| 0 <= a < rest.len() implies #[trigger] rest[a] == (if a < at {
        row[a]
    } else {
        row[a + 1]
    }) by {}
    assert forall|a: int| 0 <= a < rest.len() implies {
        &&& less.contains_key((i, (#[trigger] rest[a]).column as int))
        &&& less[(i, rest[a].column as int)] == rest[a].coefficient
    } by {
        let b = if a < at {
            a
        } else {
            a + 1
        };
        assert(ids.contains_key((i, row[b].column as int)));
        assert(row[b].column != row[at].column);
        assert(less.contains_key((i, row[b].column as int)));
    }
    assert forall|j: int| #[trigger] less.contains_key((i, j)) implies exists|a: int|
        0 <= a < rest.len() && (#[trigger] rest[a]).column == j by {
        assert(ids.contains_key((i, j)));
        let b = choose|b: int| 0 <= b < row.len() && (#[trigger] row[b]).column == j;
        if b < at {
            assert(rest[b].column == j);
        } else {
            assert(rest[b - 1].column == j);
        }
    }
}

/// A row list is unaffected by changes elsewhere.
proof fn list_kept(row: Seq<Link>, ids: Map<(int, int), int>, new: Map<(int, int), int>, i: int)
    requires
        lists(row, ids, i),
        forall|j: int| #[trigger] new.contains_key((i, j)) <==> ids.contains_key((i, j)),
        forall|j: int| #[trigger] new.contains_key((i, j)) ==> new[(i, j)] == ids[(i, j)],
    ensures
        lists(row, new, i),
{
    assert forall|a: int| 0 <= a < row.len() implies {
        &&& new.contains_key((i, (#[trigger] row[a]).column as int))
        &&& new[(i, row[a].column as int)] == row[a].coefficient
    } by {
        assert(ids.contains_key((i, row[a].column as int)));
        assert(new.contains_key((i, row[a].column as int)));
    }
}

impl SymmetricMatrix {
    /// Store a coefficient in a fresh or reused slot. The pair is not yet listed.
    fn allocate(
        values: &mut Vec<Real>,
        free: &mut u32,
        free_count: &mut usize,
        spare: &mut Ghost<Seq<int>>,
        value: Real,
        ids: Ghost<Map<(int, int), int>>,
        n: Ghost<nat>,
    ) -> (id: u32)
        requires
            old(values)@.len() <= NONE,
            old(values)@.len() == NONE ==> *old(free) != NONE,
            stacked(old(values)@, ids@, *old(free), old(spare)@),
            *old(free_count) == old(spare)@.len(),
            shared(ids@, old(values)@, n@),
            !value.zero(),
        ensures
            id < final(values)@.len() <= NONE,
            final(values)@[id as int] == value,
            old(values)@.len() <= final(values)@.len(),
            stacked(final(values)@, ids@, *final(free), final(spare)@),
            *final(free_count) == final(spare)@.len(),
            final(values)@.len() - final(spare)@.len() == old(values)@.len() - old(spare)@.len() + 1,
            forall|p: (int, int)| #[trigger]
                ids@.contains_key(p) ==> ids@[p] != id && final(values)@[ids@[p]] == old(
                    values,
                )@[ids@[p]],
            forall|a: int| 0 <= a < final(spare)@.len() ==> #[trigger] final(spare)@[a] != id,
    {
        if *free != NONE {
            let id: u32 = *free;
            proof {
                assert(spare@.last() == spare@[spare@.len() - 1]);
                if spare@.len() > 1 {
                    assert(spare@.drop_last().last() == spare@[spare@.len() - 2]);
                }
                assert forall|a: int| 0 <= a < spare@.len() - 1 implies #[trigger]
                spare@.drop_last()[a] == spare@[a] by {}
            }
            let next: u64 = values[id as usize].to_bits();
            *free = next as u32;
            *free_count = *free_count - 1;
            values.set(id as usize, value);
            *spare = Ghost(spare@.drop_last());
            id
        } else {
            let id: u32 = values.len() as u32;
            values.push(value);
            id
        }
    }

    /// Put a slot on the stack of released slots. No pair uses it any more.
    fn release(
        values: &mut Vec<Real>,
        free: &mut u32,
        free_count: &mut usize,
        spare: &mut Ghost<Seq<int>>,
        id: u32,
        ids: Ghost<Map<(int, int), int>>,
        n: Ghost<nat>,
    )
        requires
            id < old(values)@.len() <= NONE,
            stacked(old(values)@, ids@, *old(free), old(spare)@),
            *old(free_count) == old(spare)@.len(),
            old(spare)@.len() < old(values)@.len(),
            shared(ids@, old(values)@, n@),
            forall|p: (int, int)| #[trigger] ids@.contains_key(p) ==> ids@[p] != id,
            forall|a: int| 0 <= a < old(spare)@.len() ==> #[trigger] old(spare)@[a] != id,
        ensures
            final(values)@.len() == old(values)@.len(),
            final(spare)@.len() == old(spare)@.len() + 1,
            stacked(final(values)@, ids@, *final(free), final(spare)@),
            *final(free_count) == final(spare)@.len(),
            shared(ids@, final(values)@, n@),
            forall|p: (int, int)| #[trigger]
                ids@.contains_key(p) ==> final(values)@[ids@[p]] == old(values)@[ids@[p]],
            final(spare)@ == old(spare)@.push(id as int),
    {
        values.set(id as usize, Real::from_bits(*free as u64));
        *free = id;
        *free_count = *free_count + 1;
        *spare = Ghost(spare@.push(id as int));
        proof {
            let s0 = old(spare)@;
            if s0.len() > 0 {
                assert(s0.last() == s0[s0.len() - 1]);
            }
            assert(spare@.last() == id);
        }
    }
}

impl SymmetricMatrix {
    /// Add an off-diagonal pair that is not stored yet.
    fn join(&mut self, row: usize, column: usize, at: usize, value: Real)
        requires
            old(self).wf(),
            row < old(self).size(),
            column < old(self).size(),
            row != column,
            !value.zero(),
            !old(self).ids@.contains_key((row as int, column as int)),
            ({
                let list = old(self).adjacency@[row as int]@;
                &&& at <= list.len()
                &&& forall|a: int| 0 <= a < at ==> (#[trigger] list[a]).column < column
                &&& forall|a: int| at <= a < list.len() ==> (#[trigger] list[a]).column > column
            }),
            old(self)@.dom().len() < 2 * NONE,
            old(self)@.dom().len() + 2 <= usize::MAX,
        ensures
            final(self).wf(),
            final(self).size() == old(self).size(),
            final(self).edits() == old(self).edits(),
            final(self)@ == old(self)@.insert((row as int, column as int), value).insert(
                (column as int, row as int),
                value,
            ),
    {
        let ghost ids = self.ids@;
        let ghost n = self.adjacency@.len();
        let ghost values = self.values@;
        let ghost i = row as int;
        let ghost j = column as int;
        proof {
            lemma_size_bound(*self);
            if ids.contains_key((j, i)) {
                assert(ids.contains_key(swap((j, i))));
            }
        }
        let other: usize = match self.search(column, row) {
            Ok(other) => other,
            Err(other) => other,
        };
        let id: u32 = Self::allocate(
            &mut self.values,
            &mut self.free,
            &mut self.free_count,
            &mut self.spare,
            value,
            Ghost(ids),
            Ghost(n),
        );
        let mut first: Vec<Link> = Vec::new();
        std::mem::swap(&mut first, &mut self.adjacency[row]);
        let link = Link { column: column as u32, coefficient: id };
        first.insert(at, link);
        self.adjacency.set(row, first);
        let mut second: Vec<Link> = Vec::new();
        std::mem::swap(&mut second, &mut self.adjacency[column]);
        let mirror = Link { column: row as u32, coefficient: id };
        second.insert(other, mirror);
        self.adjacency.set(column, second);
        self.nnz = self.nnz + 2;
        self.ids = Ghost(ids.insert((i, j), id as int).insert((j, i), id as int));
        proof {
            let grown = self.ids@;
            insert_pair(ids, values, self.values@, n, i, j, id as int);
            list_inserted(
                old(self).adjacency@[i]@,
                ids,
                grown,
                i,
                at as int,
                link,
            );
            list_inserted(
                old(self).adjacency@[j]@,
                ids,
                grown,
                j,
                other as int,
                mirror,
            );
            assert forall|r: int| 0 <= r < self.adjacency@.len() implies lists(
                (#[trigger] self.adjacency@[r])@,
                grown,
                r,
            ) by {
                if r != i && r != j {
                    assert(self.adjacency@[r] == old(self).adjacency@[r]);
                    list_kept(self.adjacency@[r]@, ids, grown, r);
                }
            }
            assert(stacked(self.values@, grown, self.free, self.spare@));
            assert(self@ =~= old(self)@.insert((i, j), value).insert((j, i), value));
            assert(self@.dom() =~= old(self)@.dom().insert((i, j)).insert((j, i)));
        }
    }

    /// Remove a stored off-diagonal pair and release its slot.
    fn erase(&mut self, row: usize, column: usize)
        requires
            old(self).wf(),
            row < old(self).size(),
            column < old(self).size(),
            old(self).ids@.contains_key((row as int, column as int)),
        ensures
            final(self).wf(),
            final(self).size() == old(self).size(),
            final(self).edits() == old(self).edits(),
            final(self)@ == old(self)@.remove((row as int, column as int)).remove(
                (column as int, row as int),
            ),
            final(self).ids@ == old(self).ids@.remove((row as int, column as int)).remove(
                (column as int, row as int),
            ),
            final(self).diagonal@ == old(self).diagonal@,
            forall|a: int|
                0 <= a < final(self).adjacency@.len() && a != row && a != column
                    ==> #[trigger] final(self).adjacency@[a] == old(self).adjacency@[a],
    {
        let ghost ids = self.ids@;
        let ghost n = self.adjacency@.len();
        let ghost values = self.values@;
        let ghost i = row as int;
        let ghost j = column as int;
        let ghost less = ids.remove((i, j)).remove((j, i));
        proof {
            remove_pair(ids, values, n, i, j);
        }
        let at: usize = match self.search(row, column) {
            Ok(at) => at,
            Err(at) => at,
        };
        let other: usize = match self.search(column, row) {
            Ok(other) => other,
            Err(other) => other,
        };
        let mut first: Vec<Link> = Vec::new();
        std::mem::swap(&mut first, &mut self.adjacency[row]);
        assert(lists(first@, ids, i));
        let link = first.remove(at);
        self.adjacency.set(row, first);
        let mut second: Vec<Link> = Vec::new();
        std::mem::swap(&mut second, &mut self.adjacency[column]);
        assert(lists(second@, ids, j));
        second.remove(other);
        self.adjacency.set(column, second);
        let ghost id = ids[(i, j)];
        proof {
            assert(link.coefficient == id);
            assert(stacked(values, less, self.free, self.spare@));
            assert forall|p: (int, int)| #[trigger] less.contains_key(p) implies less[p] != id by {
                assert(ids.contains_key(p));
            }
            assert forall|a: int| 0 <= a < self.spare@.len() implies #[trigger] self.spare@[a]
                != id by {
                assert(ids[(i, j)] != self.spare@[a]);
            }
            assert(upper(ids).contains(
                if i < j {
                    (i, j)
                } else {
                    (j, i)
                },
            ));
            assert(upper(ids).len() > 0);
        }
        Self::release(
            &mut self.values,
            &mut self.free,
            &mut self.free_count,
            &mut self.spare,
            link.coefficient,
            Ghost(less),
            Ghost(n),
        );
        proof {
            assert(self@.dom() =~= old(self)@.dom());
            assert(old(self)@.dom().contains((i, j)) && old(self)@.dom().contains((j, i)));
            assert(old(self)@.dom().remove((i, j)).contains((j, i)));
        }
        self.nnz = self.nnz - 2;
        self.ids = Ghost(less);
        proof {
            list_removed(old(self).adjacency@[i]@, ids, less, i, at as int);
            list_removed(old(self).adjacency@[j]@, ids, less, j, other as int);
            assert forall|r: int| 0 <= r < self.adjacency@.len() implies lists(
                (#[trigger] self.adjacency@[r])@,
                less,
                r,
            ) by {
                if r != i && r != j {
                    assert(self.adjacency@[r] == old(self).adjacency@[r]);
                    list_kept(self.adjacency@[r]@, ids, less, r);
                }
            }
            assert(self@ =~= old(self)@.remove((i, j)).remove((j, i)));
            assert(self@.dom() =~= old(self)@.dom().remove((i, j)).remove((j, i)));
        }
    }

    /// Set a diagonal coefficient.
    fn set_diagonal(&mut self, row: usize, value: Real)
        requires
            old(self).wf(),
            row < old(self).size(),
            old(self)@.dom().len() + 2 <= usize::MAX,
        ensures
            final(self).wf(),
            final(self).size() == old(self).size(),
            final(self).edits() == old(self).edits(),
            final(self).ids@ == old(self).ids@,
            final(self).adjacency@ == old(self).adjacency@,
            final(self)@ == (if value.zero() {
                old(self)@.remove((row as int, row as int))
            } else {
                old(self)@.insert((row as int, row as int), value)
            }),
    {
        let was = self.diagonal(row);
        let ghost i = row as int;
        let ghost n = self.adjacency@.len();
        if self.diagonal.len() == 0 {
            let size: usize = self.adjacency.len();
            self.diagonal = zero_vector(size);
        }
        proof {
            assert forall|k: int| diagonal_at(self.diagonal@, k) == #[trigger] diagonal_at(
                old(self).diagonal@,
                k,
            ) by {}
            assert(old(self)@.contains_key((i, i)) <==> !was.zero());
            assert(old(self)@.dom().contains((i, i)) <==> !was.zero());
        }
        self.diagonal.set(row, value);
        if was.is_zero() {
            if !value.is_zero() {
                self.nnz = self.nnz + 1;
            }
        } else if value.is_zero() {
            self.nnz = self.nnz - 1;
        }
        proof {
            if value.zero() {
                assert(self@ =~= old(self)@.remove((i, i)));
                assert(self@.dom() =~= old(self)@.dom().remove((i, i)));
            } else {
                assert(self@ =~= old(self)@.insert((i, i), value));
                assert(self@.dom() =~= old(self)@.dom().insert((i, i)));
            }
        }
    }

    /// Set an off-diagonal pair. Returns whether that changed anything.
    fn set_pair(&mut self, row: usize, column: usize, value: Real) -> (changed: bool)
        requires
            old(self).wf(),
            row < old(self).size(),
            column < old(self).size(),
            row != column,
            value.finite(),
            old(self)@.dom().len() < 2 * NONE,
            old(self)@.dom().len() + 2 <= usize::MAX,
        ensures
            final(self).wf(),
            final(self).size() == old(self).size(),
            final(self).edits() == old(self).edits(),
            final(self)@ == coefficient_set(old(self)@, row as int, column as int, value),
            changed == (final(self)@ != old(self)@),
    {
        let ghost i = row as int;
        let ghost j = column as int;
        match self.search(row, column) {
            Ok(at) => {
                let link = self.adjacency[row][at];
                proof {
                    assert(lists(self.adjacency@[i]@, self.ids@, i));
                    remove_pair(self.ids@, self.values@, self.adjacency@.len(), i, j);
                    assert(self@.contains_key((i, j)) && self@.contains_key((j, i)));
                }
                let was = self.values[link.coefficient as usize];
                proof {
                    assert(self@[(i, j)] == was && self@[(j, i)] == was);
                }
                if was.equals(value) {
                    proof {
                        assert(self@ =~= coefficient_set(self@, i, j, value));
                    }
                    return false;
                }
                if value.is_zero() {
                    self.erase(row, column);
                    proof {
                        assert(!self@.contains_key((i, j)));
                    }
                } else {
                    self.overwrite(row, column, link.coefficient, value);
                    proof {
                        assert(self@[(i, j)] == value);
                    }
                }
                true
            },
            Err(at) => {
                proof {
                    if self.ids@.contains_key((j, i)) {
                        assert(self.ids@.contains_key(swap((j, i))));
                    }
                    assert(!self@.contains_key((i, j)) && !self@.contains_key((j, i)));
                }
                if value.is_zero() {
                    proof {
                        assert(self@ =~= coefficient_set(self@, i, j, value));
                    }
                    return false;
                }
                self.join(row, column, at, value);
                proof {
                    assert(self@.contains_key((i, j)));
                }
                true
            },
        }
    }

    /// Set a coefficient and its mirror image; zero removes them. Setting what
    /// is stored already is no edit.
    pub fn set(&mut self, row: usize, column: usize, value: Real)
        requires
            old(self).wf(),
            row < old(self).size(),
            column < old(self).size(),
            value.finite(),
            old(self)@.dom().len() < 2 * NONE,
            old(self)@.dom().len() + 2 <= usize::MAX,
            old(self).edits() < usize::MAX,
        ensures
            final(self).wf(),
            final(self).size() == old(self).size(),
            final(self)@ == coefficient_set(old(self)@, row as int, column as int, value),
            final(self).edits() == old(self).edits() + (if final(self)@ == old(self)@ {
                0int
            } else {
                1int
            }),
    {
        let changed = if row == column {
            self.change_diagonal(row, value)
        } else {
            self.set_pair(row, column, value)
        };
        if changed {
            self.revision = self.revision + 1;
            assert(self@ == coefficient_set(old(self)@, row as int, column as int, value));
            self.compact_values_if_fragmented();
        }
    }

    /// Set a diagonal coefficient. Returns whether that changed anything.
    #[verifier::spinoff_prover]
    #[verifier::rlimit(60)]
    fn change_diagonal(&mut self, row: usize, value: Real) -> (changed: bool)
        requires
            old(self).wf(),
            row < old(self).size(),
            value.finite(),
            old(self)@.dom().len() + 2 <= usize::MAX,
        ensures
            final(self).wf(),
            final(self).size() == old(self).size(),
            final(self).edits() == old(self).edits(),
            final(self)@ == coefficient_set(old(self)@, row as int, row as int, value),
            changed == (final(self)@ != old(self)@),
    {
        let ghost i = row as int;
        let was = self.diagonal(row);
        assert(self@.contains_key((i, i)) <==> !was.zero());
        assert(self@.contains_key((i, i)) ==> self@[(i, i)] == was);
        if was.equals(value) {
            assert(self@ =~= coefficient_set(self@, i, i, value));
            return false;
        }
        self.set_diagonal(row, value);
        proof {
            let (before, after) = (old(self)@, self@);
            assert(after =~= coefficient_set(before, i, i, value));
            assert(after.contains_key((i, i)) <==> !value.zero());
            if after == before && !value.zero() {
                assert(after[(i, i)] == value);
                assert(before[(i, i)] == was);
            }
        }
        true
    }

    /// Replace the shared coefficient of a stored pair.
    fn overwrite(&mut self, row: usize, column: usize, id: u32, value: Real)
        requires
            old(self).wf(),
            row != column,
            old(self).ids@.contains_key((row as int, column as int)),
            old(self).ids@[(row as int, column as int)] == id,
            !value.zero(),
        ensures
            final(self).wf(),
            final(self).size() == old(self).size(),
            final(self).edits() == old(self).edits(),
            final(self)@ == old(self)@.insert((row as int, column as int), value).insert(
                (column as int, row as int),
                value,
            ),
    {
        let ghost i = row as int;
        let ghost j = column as int;
        let ghost ids = self.ids@;
        proof {
            remove_pair(ids, self.values@, self.adjacency@.len(), i, j);
        }
        self.values.set(id as usize, value);
        proof {
            assert forall|a: int| 0 <= a < self.spare@.len() implies #[trigger] self.spare@[a]
                != id by {
                assert(ids[(i, j)] != self.spare@[a]);
            }
            assert forall|p: (int, int)| #[trigger] ids.contains_key(p) && p != (i, j) && p != (
                j,
                i,
            ) implies ids[p] != id by {
                if ids[p] == ids[(i, j)] {
                    assert(p == (i, j) || p == swap((i, j)));
                }
            }
            assert(self@ =~= old(self)@.insert((i, j), value).insert((j, i), value));
            assert(self@.dom() =~= old(self)@.dom());
        }
    }

    /// Drop released slots once they make up half of a large arena.
    fn compact_values_if_fragmented(&mut self)
        requires
            old(self).wf(),
        ensures
            final(self).wf(),
            final(self).size() == old(self).size(),
            final(self).edits() == old(self).edits(),
            final(self)@ == old(self)@,
    {
        if self.values.len() < 1024 || self.free_count < self.values.len() - self.free_count {
            return ;
        }
        self.compact_values();
    }

    /// Remove a variable's row and column. The variable itself stays.
    pub fn remove_variable(&mut self, column: usize)
        requires
            old(self).wf(),
            column < old(self).size(),
            old(self)@.dom().len() + 2 <= usize::MAX,
            old(self).edits() < usize::MAX,
        ensures
            final(self).wf(),
            final(self).size() == old(self).size(),
            final(self).edits() == old(self).edits() + 1,
            final(self)@ == variable_removed(old(self)@, column as int),
    {
        let ghost c = column as int;
        let ghost start = self@;
        self.revision = self.revision + 1;
        assert(self@ == start);
        if !self.diagonal(column).is_zero() {
            self.set_diagonal(column, crate::number::zero());
        }
        let ghost middle = self@;
        proof {
            assert(middle =~= start.remove((c, c)));
        }
        while self.adjacency[column].len() > 0
            invariant
                self.wf(),
                column == c,
                0 <= c < self.adjacency@.len(),
                self.size() == old(self).size(),
                self.edits() == old(self).edits() + 1,
                !self@.contains_key((c, c)),
                forall|p: (int, int)|
                    p.0 != c && p.1 != c ==> (#[trigger] self@.contains_key(p)
                        <==> start.contains_key(p)),
                forall|p: (int, int)| #[trigger]
                    self@.contains_key(p) ==> start.contains_key(p) && self@[p] == start[p],
            decreases self.adjacency@[c]@.len(),
        {
            let last: usize = self.adjacency[column].len() - 1;
            let row: usize = self.adjacency[column][last].column as usize;
            let ghost before = *self;
            proof {
                assert(lists(self.adjacency@[c]@, self.ids@, c));
                assert(self.ids@.contains_key((c, row as int)));
            }
            self.erase(column, row);
            proof {
                shrinks(before, *self, c, row as int);
            }
        }
        proof {
            assert forall|p: (int, int)| #[trigger] self@.contains_key(p) implies p.0 != c && p.1
                != c by {
                if p.0 == c || p.1 == c {
                    if p.0 != p.1 {
                        let q = if p.0 == c {
                            p
                        } else {
                            swap(p)
                        };
                        assert(self.ids@.contains_key(p));
                        assert(self.ids@.contains_key(swap(p)));
                        assert(self.ids@.contains_key((c, q.1)));
                        assert(lists(self.adjacency@[c]@, self.ids@, c));
                    }
                }
            }
            assert(self@ =~= variable_removed(start, c));
        }
        self.compact_values_if_fragmented();
    }
}

/// Erasing a pair shortens the lists of both its variables.
proof fn shrinks(before: SymmetricMatrix, after: SymmetricMatrix, i: int, j: int)
    requires
        before.wf(),
        after.wf(),
        after.size() == before.size(),
        before.ids@.contains_key((i, j)),
        after.ids@ == before.ids@.remove((i, j)).remove((j, i)),
    ensures
        after.adjacency@[i]@.len() < before.adjacency@[i]@.len(),
{
    let b = before.adjacency@[i]@;
    let a = after.adjacency@[i]@;
    assert(lists(b, before.ids@, i));
    assert(lists(a, after.ids@, i));
    assert(swap((i, j)) == (j, i));
    let before_set = neighbours(before.ids@, i);
    let after_set = neighbours(after.ids@, i);
    list_length(b, before.ids@, i);
    list_length(a, after.ids@, i);
    assert(i != j);
    assert(after_set =~= before_set.remove(j));
    assert(before_set.contains(j));
}

spec fn neighbours(ids: Map<(int, int), int>, i: int) -> Set<int> {
    Set::new(|j: int| ids.contains_key((i, j)))
}

proof fn list_length(row: Seq<Link>, ids: Map<(int, int), int>, i: int)
    requires
        lists(row, ids, i),
    ensures
        neighbours(ids, i).finite(),
        row.len() == neighbours(ids, i).len(),
{
    let keys = Seq::new(row.len(), |a: int| row[a].column as int);
    assert(keys.no_duplicates()) by {
        assert forall|a: int, b: int|
            0 <= a < keys.len() && 0 <= b < keys.len() && a != b implies keys[a] != keys[b] by {
            if a < b {
                assert(row[a].column < row[b].column);
            } else {
                assert(row[b].column < row[a].column);
            }
        }
    }
    keys.unique_seq_to_set();
    assert(keys.to_set() =~= neighbours(ids, i)) by {
        assert forall|k: int| neighbours(ids, i).contains(k) implies keys.to_set().contains(k) by {
            assert(ids.contains_key((i, k)));
            let a = choose|a: int| 0 <= a < row.len() && (#[trigger] row[a]).column == k;
            assert(keys[a] == k);
        }
        assert forall|k: int| keys.to_set().contains(k) implies neighbours(ids, i).contains(k) by {
            let a = choose|a: int| 0 <= a < keys.len() && keys[a] == k;
            assert(row[a].column == k);
        }
    }
}

fn zero_vector(size: usize) -> (v: Vec<Real>)
    ensures
        v@.len() == size,
        forall|i: int| 0 <= i < size ==> #[trigger] v@[i] == crate::number::zero(),
{
    let mut v: Vec<Real> = Vec::new();
    let mut at: usize = 0;
    while at < size
        invariant
            at <= size,
            v@.len() == at,
            forall|i: int| 0 <= i < at ==> #[trigger] v@[i] == crate::number::zero(),
        decreases size - at,
    {
        v.push(crate::number::zero());
        at = at + 1;
    }
    v
}

// ---- compaction of the shared coefficients ----

/// Slot `v` holds the coefficient of a stored pair.
spec fn live(ids: Map<(int, int), int>, v: int) -> bool {
    exists|p: (int, int)| #[trigger] upper(ids).contains(p) && ids[p] == v
}

/// `inverse` lists the slots met so far; `renamed` gives each its new slot.
spec fn renaming(
    renamed: Seq<u32>,
    inverse: Seq<int>,
    values: Seq<Real>,
    packed: Seq<Real>,
    ids: Map<(int, int), int>,
) -> bool {
    &&& renamed.len() == values.len()
    &&& inverse.len() == packed.len()
    &&& forall|k: int|
        0 <= k < inverse.len() ==> {
            &&& 0 <= (#[trigger] inverse[k]) < values.len()
            &&& renamed[inverse[k]] == k
            &&& packed[k] == values[inverse[k]]
            &&& live(ids, inverse[k])
        }
    &&& forall|v: int|
        0 <= v < renamed.len() && #[trigger] renamed[v] != NONE ==> renamed[v] < inverse.len()
            && inverse[renamed[v] as int] == v
}

/// `row` is `old` with every coefficient slot renamed.
spec fn renames(row: Seq<Link>, old: Seq<Link>, n: int, renamed: Seq<u32>) -> bool {
    &&& row.len() == n
    &&& n <= old.len()
    &&& forall|a: int|
        0 <= a < n ==> {
            &&& (#[trigger] row[a]).column == old[a].column
            &&& row[a].coefficient == renamed[old[a].coefficient as int]
            &&& row[a].coefficient != NONE
        }
}

proof fn renames_kept(
    row: Seq<Link>,
    old: Seq<Link>,
    n: int,
    before: Seq<u32>,
    after: Seq<u32>,
)
    requires
        renames(row, old, n, before),
        before.len() == after.len(),
        forall|a: int| 0 <= a < n ==> (#[trigger] old[a]).coefficient < before.len(),
        forall|v: int| 0 <= v < before.len() && #[trigger] before[v] != NONE ==> after[v] == before[v],
    ensures
        renames(row, old, n, after),
{
    assert forall|a: int| 0 <= a < n implies {
        &&& (#[trigger] row[a]).column == old[a].column
        &&& row[a].coefficient == after[old[a].coefficient as int]
        &&& row[a].coefficient != NONE
    } by {
        assert(row[a].coefficient == before[old[a].coefficient as int]);
        assert(old[a].coefficient < before.len());
    }
}

/// The slots named in a row belong to stored pairs.
proof fn live_slots(
    row: Seq<Link>,
    ids: Map<(int, int), int>,
    values: Seq<Real>,
    n: nat,
    i: int,
)
    requires
        lists(row, ids, i),
        shared(ids, values, n),
    ensures
        forall|a: int|
            0 <= a < row.len() ==> {
                &&& (#[trigger] row[a]).coefficient < values.len()
                &&& live(ids, row[a].coefficient as int)
            },
{
    assert forall|a: int| 0 <= a < row.len() implies {
        &&& (#[trigger] row[a]).coefficient < values.len()
        &&& live(ids, row[a].coefficient as int)
    } by {
        let p = (i, row[a].column as int);
        assert(ids.contains_key(p));
        let q = swap(p);
        assert(ids.contains_key(q));
        if p.0 < p.1 {
            assert(upper(ids).contains(p));
        } else {
            assert(upper(ids).contains(q));
        }
    }
}

/// Copy a row list, giving each slot it meets a place in the packed arena.
fn rename_row(
    list: &Vec<Link>,
    values: &Vec<Real>,
    renamed: &mut Vec<u32>,
    packed: &mut Vec<Real>,
    Ghost(inverse): Ghost<Seq<int>>,
    Ghost(ids): Ghost<Map<(int, int), int>>,
) -> (r: (Vec<Link>, Ghost<Seq<int>>))
    requires
        values@.len() <= NONE,
        old(packed)@.len() <= NONE,
        renaming(old(renamed)@, inverse, values@, old(packed)@, ids),
        forall|a: int|
            0 <= a < list@.len() ==> {
                &&& (#[trigger] list@[a]).coefficient < values@.len()
                &&& live(ids, list@[a].coefficient as int)
            },
    ensures
        final(packed)@.len() <= NONE,
        renaming(final(renamed)@, r.1@, values@, final(packed)@, ids),
        renames(r.0@, list@, list@.len() as int, final(renamed)@),
        final(renamed)@.len() == old(renamed)@.len(),
        forall|v: int|
            0 <= v < old(renamed)@.len() && #[trigger] old(renamed)@[v] != NONE ==> final(renamed)@[v] == old(renamed)@[v],
{
    let ghost mut longer = inverse;
    let mut row: Vec<Link> = Vec::new();
    let mut a: usize = 0;
    while a < list.len()
        invariant
            a <= list@.len(),
            values@.len() <= NONE,
            packed@.len() <= NONE,
            renaming(renamed@, longer, values@, packed@, ids),
            renames(row@, list@, a as int, renamed@),
            renamed@.len() == old(renamed)@.len(),
            forall|v: int|
                0 <= v < old(renamed)@.len() && #[trigger] old(renamed)@[v] != NONE ==> renamed@[v]
                    == old(renamed)@[v],
            forall|a: int|
                0 <= a < list@.len() ==> {
                    &&& (#[trigger] list@[a]).coefficient < values@.len()
                    &&& live(ids, list@[a].coefficient as int)
                },
        decreases list@.len() - a,
    {
        let link = list[a];
        let slot: usize = link.coefficient as usize;
        let ghost renamed0 = renamed@;
        if renamed[slot] == NONE {
            proof {
                renaming_fits(renamed@, longer, values@, packed@, ids, slot as int);
                assert forall|k: int| 0 <= k < longer.len() implies #[trigger] longer[k] != slot by {
                    assert(renamed@[longer[k]] == k);
                }
            }
            renamed.set(slot, packed.len() as u32);
            packed.push(values[slot]);
            proof {
                let shorter = longer;
                longer = longer.push(slot as int);
                assert forall|k: int| 0 <= k < shorter.len() implies longer[k] == #[trigger] shorter[k] by {}
                assert(live(ids, list@[a as int].coefficient as int));
            }
        }
        proof {
            renames_kept(row@, list@, a as int, renamed0, renamed@);
        }
        row.push(Link { column: link.column, coefficient: renamed[slot] });
        a = a + 1;
    }
    (row, Ghost(longer))
}

impl SymmetricMatrix {
    /// Rebuild the arena of shared coefficients without the released slots.
    #[verifier::spinoff_prover]
    fn compact_values(&mut self)
        requires
            old(self).wf(),
        ensures
            final(self).wf(),
            final(self).size() == old(self).size(),
            final(self).edits() == old(self).edits(),
            final(self)@ == old(self)@,
    {
        let ghost ids = self.ids@;
        let ghost start = *self;
        let mut renamed: Vec<u32> = vec![NONE; self.values.len()];
        let mut packed: Vec<Real> = Vec::new();
        let ghost mut inverse: Seq<int> = Seq::empty();
        let mut lists_new: Vec<Vec<Link>> = Vec::new();
        let mut i: usize = 0;
        while i < self.adjacency.len()
            invariant
                *self == start,
                start.wf(),
                ids == start.ids@,
                i <= self.adjacency@.len(),
                lists_new@.len() == i,
                packed@.len() <= NONE,
                renaming(renamed@, inverse, self.values@, packed@, ids),
                forall|r: int|
                    0 <= r < i ==> renames(
                        (#[trigger] lists_new@[r])@,
                        self.adjacency@[r]@,
                        self.adjacency@[r]@.len() as int,
                        renamed@,
                    ),
            decreases self.adjacency@.len() - i,
        {
            let list = &self.adjacency[i];
            let ghost renamed0 = renamed@;
            proof {
                assert(lists(list@, ids, i as int));
                live_slots(list@, ids, self.values@, self.adjacency@.len(), i as int);
            }
            let (row, Ghost(longer)) = rename_row(
                list,
                &self.values,
                &mut renamed,
                &mut packed,
                Ghost(inverse),
                Ghost(ids),
            );
            proof {
                inverse = longer;
                assert forall|r: int| 0 <= r < i implies renames(
                    (#[trigger] lists_new@[r])@,
                    self.adjacency@[r]@,
                    self.adjacency@[r]@.len() as int,
                    renamed@,
                ) by {
                    assert(lists(self.adjacency@[r]@, ids, r));
                    live_slots(self.adjacency@[r]@, ids, self.values@, self.adjacency@.len(), r);
                    renames_kept(
                        lists_new@[r]@,
                        self.adjacency@[r]@,
                        self.adjacency@[r]@.len() as int,
                        renamed0,
                        renamed@,
                    );
                }
            }
            lists_new.push(row);
            i = i + 1;
        }
        let ghost new_ids = Map::new(
            |p: (int, int)| ids.contains_key(p),
            |p: (int, int)| renamed@[ids[p]] as int,
        );
        proof {
            all_renamed(start, renamed@, lists_new@);
            renamed_is_sound(start, renamed@, inverse, packed@, lists_new@, new_ids);
        }
        self.values = packed;
        self.adjacency = lists_new;
        self.free = NONE;
        self.free_count = 0;
        self.ids = Ghost(new_ids);
        self.spare = Ghost(Seq::empty());
        proof {
            assert(self@ =~= start@);
        }
    }
}

proof fn renaming_fits(
    renamed: Seq<u32>,
    inverse: Seq<int>,
    values: Seq<Real>,
    packed: Seq<Real>,
    ids: Map<(int, int), int>,
    slot: int,
)
    requires
        renaming(renamed, inverse, values, packed, ids),
        0 <= slot < renamed.len(),
        renamed[slot] == NONE,
        values.len() <= NONE,
        packed.len() <= NONE,
    ensures
        packed.len() < NONE,
{
    let all = vstd::set_lib::set_int_range(0, values.len() as int);
    vstd::set_lib::lemma_int_range(0, values.len() as int);
    assert(inverse.no_duplicates());
    inverse.unique_seq_to_set();
    assert forall|v: int| inverse.to_set().contains(v) implies v != slot by {
        let k = choose|k: int| 0 <= k < inverse.len() && inverse[k] == v;
        assert(renamed[inverse[k]] == k);
    }
    assert(inverse.to_set().subset_of(all.remove(slot)));
    vstd::set_lib::lemma_len_subset(inverse.to_set(), all.remove(slot));
}

proof fn all_renamed(start: SymmetricMatrix, renamed: Seq<u32>, lists_new: Seq<Vec<Link>>)
    requires
        start.wf(),
        lists_new.len() == start.adjacency@.len(),
        forall|r: int|
            0 <= r < lists_new.len() ==> renames(
                (#[trigger] lists_new[r])@,
                start.adjacency@[r]@,
                start.adjacency@[r]@.len() as int,
                renamed,
            ),
    ensures
        forall|p: (int, int)| #[trigger]
            start.ids@.contains_key(p) ==> renamed[start.ids@[p]] != NONE,
{
    assert forall|p: (int, int)| #[trigger] start.ids@.contains_key(p) implies renamed[start.ids@[p]]
        != NONE by {
        let old_row = start.adjacency@[p.0]@;
        assert(lists(old_row, start.ids@, p.0));
        assert(start.ids@.contains_key((p.0, p.1)));
        let a = choose|a: int| 0 <= a < old_row.len() && (#[trigger] old_row[a]).column == p.1;
        assert(renames(lists_new[p.0]@, old_row, old_row.len() as int, renamed));
        assert(lists_new[p.0]@[a].coefficient != NONE);
        assert(start.ids@[(p.0, old_row[a].column as int)] == old_row[a].coefficient);
    }
}

proof fn renamed_is_sound(
    start: SymmetricMatrix,
    renamed: Seq<u32>,
    inverse: Seq<int>,
    packed: Seq<Real>,
    lists_new: Seq<Vec<Link>>,
    new_ids: Map<(int, int), int>,
)
    requires
        start.wf(),
        renaming(renamed, inverse, start.values@, packed, start.ids@),
        lists_new.len() == start.adjacency@.len(),
        forall|r: int|
            0 <= r < lists_new.len() ==> renames(
                (#[trigger] lists_new[r])@,
                start.adjacency@[r]@,
                start.adjacency@[r]@.len() as int,
                renamed,
            ),
        forall|p: (int, int)| #[trigger]
            start.ids@.contains_key(p) ==> renamed[start.ids@[p]] != NONE,
        new_ids == Map::new(
            |p: (int, int)| start.ids@.contains_key(p),
            |p: (int, int)| renamed[start.ids@[p]] as int,
        ),
    ensures
        shared(new_ids, packed, start.size()),
        forall|r: int| 0 <= r < lists_new.len() ==> lists((#[trigger] lists_new[r])@, new_ids, r),
        upper(new_ids).finite(),
        packed.len() == upper(new_ids).len(),
        forall|p: (int, int)| #[trigger]
            start.ids@.contains_key(p) ==> packed[new_ids[p]] == start.values@[start.ids@[p]],
{
    let ids = start.ids@;
    assert forall|p: (int, int)| #[trigger] new_ids.contains_key(p) implies {
        &&& 0 <= p.0 < start.size()
        &&& 0 <= p.1 < start.size()
        &&& p.0 != p.1
        &&& new_ids.contains_key(swap(p))
        &&& new_ids[swap(p)] == new_ids[p]
        &&& 0 <= new_ids[p] < packed.len()
        &&& !packed[new_ids[p]].zero()
    } by {
        assert(ids.contains_key(p));
        assert(ids.contains_key(swap(p)));
        assert(inverse[renamed[ids[p]] as int] == ids[p]);
    }
    assert forall|p: (int, int), q: (int, int)|
        new_ids.contains_key(p) && new_ids.contains_key(q) && #[trigger] new_ids[p]
            == #[trigger] new_ids[q] implies p == q || p == swap(q) by {
        assert(ids.contains_key(p) && ids.contains_key(q));
        assert(inverse[renamed[ids[p]] as int] == ids[p]);
        assert(inverse[renamed[ids[q]] as int] == ids[q]);
        assert(ids[p] == ids[q]);
    }
    assert forall|r: int| 0 <= r < lists_new.len() implies lists(
        (#[trigger] lists_new[r])@,
        new_ids,
        r,
    ) by {
        let old_row = start.adjacency@[r]@;
        let new_row = lists_new[r]@;
        assert(lists(old_row, ids, r));
        assert(renames(new_row, old_row, old_row.len() as int, renamed));
        assert forall|a: int| 0 <= a < new_row.len() implies {
            &&& new_ids.contains_key((r, (#[trigger] new_row[a]).column as int))
            &&& new_ids[(r, new_row[a].column as int)] == new_row[a].coefficient
        } by {
            assert(ids.contains_key((r, old_row[a].column as int)));
        }
        assert forall|j: int| #[trigger] new_ids.contains_key((r, j)) implies exists|a: int|
            0 <= a < new_row.len() && (#[trigger] new_row[a]).column == j by {
            assert(ids.contains_key((r, j)));
            let a = choose|a: int| 0 <= a < old_row.len() && (#[trigger] old_row[a]).column == j;
            assert(new_row[a].column == j);
        }
    }
    assert(upper(new_ids) =~= upper(ids));
    let name = |p: (int, int)| ids[p];
    let used = upper(ids).map(name);
    assert(vstd::relations::injective_on(name, upper(ids))) by {
        assert forall|p: (int, int), q: (int, int)|
            upper(ids).contains(p) && upper(ids).contains(q) && #[trigger] name(p)
                == #[trigger] name(q) implies p == q by {
            assert(ids.contains_key(p) && ids.contains_key(q));
            assert(ids[p] == ids[q]);
        }
    }
    vstd::set_lib::lemma_map_size(upper(ids), used, name);
    assert(inverse.no_duplicates());
    inverse.unique_seq_to_set();
    assert(inverse.to_set() =~= used) by {
        assert forall|v: int| used.contains(v) implies inverse.to_set().contains(v) by {
            let p = choose|p: (int, int)| upper(ids).contains(p) && name(p) == v;
            assert(ids.contains_key(p));
            assert(inverse[renamed[ids[p]] as int] == v);
        }
        assert forall|v: int| inverse.to_set().contains(v) implies used.contains(v) by {
            let k = choose|k: int| 0 <= k < inverse.len() && inverse[k] == v;
            assert(live(ids, inverse[k]));
            let p = choose|p: (int, int)| #[trigger] upper(ids).contains(p) && ids[p] == v;
            assert(name(p) == v);
        }
    }
}

impl SymmetricMatrix {
    /// The off-diagonal entries of a row, in increasing column order.
    pub(crate) fn links(&self, row: usize) -> (entries: Entries)
        requires
            self.wf(),
            row < self.size(),
        ensures
            linked::lists_line(
                entries@,
                self@.remove((row as int, row as int)),
                false,
                row as int,
            ),
    {
        let ghost i = row as int;
        let list = &self.adjacency[row];
        let mut entries: Entries = Vec::with_capacity(list.len());
        let mut a: usize = 0;
        proof {
            assert(lists(list@, self.ids@, i));
        }
        while a < list.len()
            invariant
                a <= list@.len(),
                lists(list@, self.ids@, i),
                shared(self.ids@, self.values@, self.adjacency@.len()),
                entries@.len() == a,
                forall|b: int|
                    0 <= b < a ==> #[trigger] entries@[b] == (
                        list@[b].column as usize,
                        self.values@[list@[b].coefficient as int],
                    ),
            decreases list@.len() - a,
        {
            let link = list[a];
            assert(self.ids@.contains_key((i, link.column as int)));
            entries.push((link.column as usize, self.values[link.coefficient as usize]));
            a = a + 1;
        }
        proof {
            let rest = self@.remove((i, i));
            assert forall|b: int| 0 <= b < entries@.len() implies {
                &&& rest.contains_key(linked::place(false, i, (#[trigger] entries@[b]).0 as int))
                &&& rest[linked::place(false, i, entries@[b].0 as int)] == entries@[b].1
            } by {
                assert(self.ids@.contains_key((i, list@[b].column as int)));
                assert(linked::place(false, i, entries@[b].0 as int) == (i, entries@[b].0 as int));
            }
            assert forall|k: int| #[trigger]
                rest.contains_key(linked::place(false, i, k)) implies exists|b: int|
                0 <= b < entries@.len() && (#[trigger] entries@[b]).0 == k by {
                assert(linked::place(false, i, k) == (i, k));
                assert(self.ids@.contains_key((i, k)));
                let b = choose|b: int| 0 <= b < list@.len() && (#[trigger] list@[b]).column == k;
                assert(entries@[b].0 == k);
            }
            assert forall|b: int, c: int| 0 <= b < c < entries@.len() implies (
            #[trigger] entries@[b]).0 < (#[trigger] entries@[c]).0 by {
                assert(list@[b].column < list@[c].column);
            }
        }
        entries
    }

    /// Number of off-diagonal entries of a row.
    pub(crate) fn degree(&self, row: usize) -> (count: usize)
        requires
            self.wf(),
            row < self.size(),
        ensures
            linked::line_items(
                self@.remove((row as int, row as int)),
                false,
                row as int,
            ).finite(),
            count == linked::line_items(
                self@.remove((row as int, row as int)),
                false,
                row as int,
            ).len(),
    {
        proof {
            let i = row as int;
            assert(lists(self.adjacency@[i]@, self.ids@, i));
            list_length(self.adjacency@[i]@, self.ids@, i);
            assert(linked::line_items(self@.remove((i, i)), false, i) =~= neighbours(self.ids@, i))
                by {
                assert forall|k: int| linked::line_items(
                    self@.remove((i, i)),
                    false,
                    i,
                ).contains(k) <==> neighbours(self.ids@, i).contains(k) by {
                    assert(linked::place(false, i, k) == (i, k));
                    if self.ids@.contains_key((i, i)) {
                        assert(false);
                    }
                }
            }
        }
        self.adjacency[row].len()
    }

    /// Set a coefficient and its mirror image without counting an edit.
    pub(crate) fn place(&mut self, row: usize, column: usize, value: Real)
        requires
            old(self).wf(),
            row < old(self).size(),
            column < old(self).size(),
            value.finite(),
            old(self)@.dom().len() < 2 * NONE,
            old(self)@.dom().len() + 2 <= usize::MAX,
        ensures
            final(self).wf(),
            final(self).size() == old(self).size(),
            final(self).edits() == old(self).edits(),
            final(self)@ == coefficient_set(old(self)@, row as int, column as int, value),
    {
        if row == column {
            self.change_diagonal(row, value);
        } else {
            self.set_pair(row, column, value);
        }
    }
}

} // verus!
