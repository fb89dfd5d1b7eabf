//! Arena-backed orthogonal lists for the constraint matrix.
//!
//! Every stored coefficient is one node of an arena, threaded on two doubly
//! linked lists: its row, sorted by column, and its column, sorted by row.
//! Removed nodes form a stack that later insertions reuse.

use crate::number::Real;
use vstd::prelude::*;

verus! {

/// The link that leads nowhere.
pub const NONE: u32 = 0xffff_ffff;

/// A sparse row or column: indices with their coefficients.
pub type Entries = Vec<(usize, Real)>;

#[derive(Clone, Copy, Debug)]
struct Node {
    value: Real,
    row: u32,
    col: u32,
    row_prev: u32,
    row_next: u32,
    col_prev: u32,
    col_next: u32,
}

#[derive(Clone, Copy, Debug)]
struct List {
    head: u32,
    tail: u32,
    len: usize,
}

/// A sparse matrix whose rows and columns can both be walked in order and
/// edited in place. Its view maps each stored position to its coefficient.
pub struct LinkedMatrix {
    nodes: Vec<Node>,
    rows: Vec<List>,
    columns: Vec<List>,
    free: u32,
    nnz: usize,
    column_cursors: Vec<u32>,
    /// The node of each stored position.
    index: Ghost<Map<(int, int), int>>,
    /// Recycled nodes, the next one to reuse last.
    spare: Ghost<Seq<int>>,
}

// ---- positions, rows (`axis == false`) and columns (`axis == true`) alike ----

/// The position of item `k` of line `i`: row and column swap with the axis.
pub open spec fn place(axis: bool, i: int, k: int) -> (int, int) {
    if axis {
        (k, i)
    } else {
        (i, k)
    }
}

/// `entries` is line `i` of the matrix: its stored items in increasing order.
pub open spec fn lists_line(
    entries: Seq<(usize, Real)>,
    matrix: Map<(int, int), Real>,
    axis: bool,
    i: int,
) -> bool {
    &&& forall|a: int, b: int|
        0 <= a < b < entries.len() ==> (#[trigger] entries[a]).0 < (#[trigger] entries[b]).0
    &&& forall|a: int|
        0 <= a < entries.len() ==> {
            &&& matrix.contains_key(place(axis, i, (#[trigger] entries[a]).0 as int))
            &&& matrix[place(axis, i, entries[a].0 as int)] == entries[a].1
        }
    &&& forall|k: int| #[trigger]
        matrix.contains_key(place(axis, i, k)) ==> exists|a: int|
            0 <= a < entries.len() && (#[trigger] entries[a]).0 == k
}

/// The value at a position, zero where none is stored.
pub open spec fn value_at(matrix: Map<(int, int), Real>, row: int, col: int) -> Real {
    if matrix.contains_key((row, col)) {
        matrix[(row, col)]
    } else {
        crate::number::zero()
    }
}

/// The items stored in one line.
pub open spec fn line_items(matrix: Map<(int, int), Real>, axis: bool, i: int) -> Set<int> {
    Set::new(|k: int| matrix.contains_key(place(axis, i, k)))
}

/// Entries that can form a line with `limit` items: increasing, in range and nonzero.
pub open spec fn sorted_entries(entries: Seq<(usize, Real)>, limit: nat) -> bool {
    &&& forall|a: int, b: int|
        0 <= a < b < entries.len() ==> (#[trigger] entries[a]).0 < (#[trigger] entries[b]).0
    &&& forall|a: int|
        0 <= a < entries.len() ==> (#[trigger] entries[a]).0 < limit && !entries[a].1.zero()
}

spec fn stored(index: Map<(int, int), int>, axis: bool, i: int, k: int) -> bool {
    index.contains_key(place(axis, i, k))
}

spec fn node_at(index: Map<(int, int), int>, axis: bool, i: int, k: int) -> int {
    index[place(axis, i, k)]
}

impl Node {
    spec fn key(self, axis: bool) -> int {
        if axis {
            self.row as int
        } else {
            self.col as int
        }
    }

    spec fn line(self, axis: bool) -> int {
        if axis {
            self.col as int
        } else {
            self.row as int
        }
    }

    spec fn next(self, axis: bool) -> u32 {
        if axis {
            self.col_next
        } else {
            self.row_next
        }
    }

    spec fn prev(self, axis: bool) -> u32 {
        if axis {
            self.col_prev
        } else {
            self.row_prev
        }
    }
}

/// Every indexed position lies in the arena, and its node knows its position.
spec fn placed(nodes: Seq<Node>, index: Map<(int, int), int>) -> bool {
    forall|p: (int, int)| #[trigger]
        index.contains_key(p) ==> {
            &&& 0 <= index[p] < nodes.len()
            &&& nodes[index[p]].row == p.0
            &&& nodes[index[p]].col == p.1
        }
}

/// `at` is the node of item `k` of line `i`.
spec fn is_node(
    nodes: Seq<Node>,
    index: Map<(int, int), int>,
    axis: bool,
    i: int,
    at: u32,
) -> bool {
    &&& at < nodes.len()
    &&& stored(index, axis, i, nodes[at as int].key(axis))
    &&& node_at(index, axis, i, nodes[at as int].key(axis)) == at
}

/// `at` is the first node of line `i` whose item is at least `key`.
spec fn first_from(
    nodes: Seq<Node>,
    index: Map<(int, int), int>,
    axis: bool,
    i: int,
    key: int,
    at: u32,
) -> bool {
    if at == NONE {
        forall|k: int| #[trigger] stored(index, axis, i, k) ==> k < key
    } else {
        &&& is_node(nodes, index, axis, i, at)
        &&& nodes[at as int].key(axis) >= key
        &&& forall|k: int| #[trigger]
            stored(index, axis, i, k) ==> k < key || k >= nodes[at as int].key(axis)
    }
}

/// `at` is the last node of line `i` whose item is below `key`.
spec fn last_below(
    nodes: Seq<Node>,
    index: Map<(int, int), int>,
    axis: bool,
    i: int,
    key: int,
    at: u32,
) -> bool {
    if at == NONE {
        forall|k: int| #[trigger] stored(index, axis, i, k) ==> k >= key
    } else {
        &&& is_node(nodes, index, axis, i, at)
        &&& nodes[at as int].key(axis) < key
        &&& forall|k: int| #[trigger]
            stored(index, axis, i, k) ==> k >= key || k <= nodes[at as int].key(axis)
    }
}

/// The links of item `k` of line `i`, if stored, lead to its neighbours.
spec fn joined(
    nodes: Seq<Node>,
    index: Map<(int, int), int>,
    axis: bool,
    i: int,
    k: int,
) -> bool {
    stored(index, axis, i, k) ==> {
        let node = nodes[node_at(index, axis, i, k)];
        &&& first_from(nodes, index, axis, i, k + 1, node.next(axis))
        &&& last_below(nodes, index, axis, i, k, node.prev(axis))
    }
}

/// Links lead from each node to its neighbours in the line.
spec fn linked(nodes: Seq<Node>, index: Map<(int, int), int>, axis: bool) -> bool {
    forall|i: int, k: int| #[trigger] joined(nodes, index, axis, i, k)
}

spec fn items(index: Map<(int, int), int>, axis: bool, i: int) -> Set<int> {
    Set::new(|k: int| stored(index, axis, i, k))
}

/// Every line starts at its least item, ends at its greatest, and counts its items.
spec fn anchored(
    nodes: Seq<Node>,
    index: Map<(int, int), int>,
    lists: Seq<List>,
    limit: nat,
    axis: bool,
) -> bool {
    &&& forall|i: int|
        0 <= i < lists.len() ==> {
            &&& first_from(nodes, index, axis, i, 0, (#[trigger] lists[i]).head)
            &&& last_below(nodes, index, axis, i, limit as int, lists[i].tail)
            &&& items(index, axis, i).finite()
            &&& items(index, axis, i).len() == lists[i].len
        }
    &&& forall|i: int, k: int| #[trigger]
        stored(index, axis, i, k) ==> 0 <= i < lists.len() && 0 <= k < limit
}

/// The recycled nodes form a stack linked through their row links.
spec fn stacked(
    nodes: Seq<Node>,
    index: Map<(int, int), int>,
    free: u32,
    spare: Seq<int>,
) -> bool {
    &&& free == (if spare.len() == 0 {
        NONE as int
    } else {
        spare.last()
    })
    &&& forall|a: int|
        0 <= a < spare.len() ==> {
            &&& 0 <= (#[trigger] spare[a]) < nodes.len()
            &&& nodes[spare[a]].row_next == (if a == 0 {
                NONE as int
            } else {
                spare[a - 1]
            })
        }
    &&& forall|a: int, b: int|
        0 <= a < spare.len() && 0 <= b < spare.len() && a != b ==> #[trigger] spare[a]
            != #[trigger] spare[b]
    &&& forall|p: (int, int), a: int|
        index.contains_key(p) && 0 <= a < spare.len() ==> #[trigger] index[p] != #[trigger] spare[a]
}

proof fn one_node_per_position(nodes: Seq<Node>, index: Map<(int, int), int>)
    requires
        placed(nodes, index),
    ensures
        forall|p: (int, int), q: (int, int)|
            index.contains_key(p) && index.contains_key(q) && #[trigger] index[p]
                == #[trigger] index[q] ==> p == q,
{
}

// ---- insertion and removal of one node, along one axis ----

/// `after` differs from `before` by a new node `id`, at item `key` of line
/// `line`, between `prev` and `next`.
spec fn inserts(
    before: Seq<Node>,
    after: Seq<Node>,
    index: Map<(int, int), int>,
    axis: bool,
    line: int,
    key: int,
    id: int,
    prev: u32,
    next: u32,
) -> bool {
    &&& before.len() <= after.len()
    &&& 0 <= id < after.len()
    &&& id < NONE
    &&& after[id].key(axis) == key
    &&& after[id].line(axis) == line
    &&& after[id].prev(axis) == prev
    &&& after[id].next(axis) == next
    &&& forall|i: int, k: int| #[trigger]
        stored(index, axis, i, k) ==> {
            let n = node_at(index, axis, i, k);
            &&& n != id
            &&& after[n].key(axis) == before[n].key(axis)
            &&& after[n].line(axis) == before[n].line(axis)
            &&& after[n].next(axis) == (if n == prev {
                id as u32
            } else {
                before[n].next(axis)
            })
            &&& after[n].prev(axis) == (if n == next {
                id as u32
            } else {
                before[n].prev(axis)
            })
        }
}

proof fn insertion_keeps_lines(
    before: Seq<Node>,
    after: Seq<Node>,
    index: Map<(int, int), int>,
    lists: Seq<List>,
    list: List,
    limit: nat,
    axis: bool,
    line: int,
    key: int,
    id: int,
    prev: u32,
    next: u32,
)
    requires
        before.len() <= NONE,
        placed(before, index),
        linked(before, index, axis),
        anchored(before, index, lists, limit, axis),
        0 <= line < lists.len(),
        0 <= key < limit,
        !stored(index, axis, line, key),
        inserts(before, after, index, axis, line, key, id, prev, next),
        first_from(before, index, axis, line, key, next),
        last_below(before, index, axis, line, key, prev),
        list.len == lists[line].len + 1,
        list.head == (if prev == NONE {
            id as u32
        } else {
            lists[line].head
        }),
        list.tail == (if next == NONE {
            id as u32
        } else {
            lists[line].tail
        }),
    ensures
        linked(after, index.insert(place(axis, line, key), id), axis),
        anchored(
            after,
            index.insert(place(axis, line, key), id),
            lists.update(line, list),
            limit,
            axis,
        ),
{
    let grown = index.insert(place(axis, line, key), id);
    let lists2 = lists.update(line, list);
    one_node_per_position(before, index);
    assert forall|i: int, k: int| #[trigger] stored(grown, axis, i, k) implies stored(index, axis, i, k)
        || (i == line && k == key) by {}
    assert forall|i: int, k: int| #[trigger] stored(index, axis, i, k) implies stored(grown, axis, i, k)
        && node_at(grown, axis, i, k) == node_at(index, axis, i, k) by {}
    assert(stored(grown, axis, line, key) && node_at(grown, axis, line, key) == id);
    assert forall|i: int, k: int| #[trigger] joined(after, grown, axis, i, k) by {
        assert(joined(before, index, axis, i, k));
    }
    assert forall|i: int| 0 <= i < lists2.len() implies {
        &&& first_from(after, grown, axis, i, 0, (#[trigger] lists2[i]).head)
        &&& last_below(after, grown, axis, i, limit as int, lists2[i].tail)
        &&& items(grown, axis, i).finite()
        &&& items(grown, axis, i).len() == lists2[i].len
    } by {
        assert(lists[i] == lists[i]);
        if i == line {
            assert(items(grown, axis, i) =~= items(index, axis, i).insert(key));
        } else {
            assert(items(grown, axis, i) =~= items(index, axis, i));
        }
    }
}

/// `after` differs from `before` by the links around node `id`, which is
/// item `key` of line `line`.
spec fn unlinks(
    before: Seq<Node>,
    after: Seq<Node>,
    index: Map<(int, int), int>,
    axis: bool,
    id: int,
) -> bool {
    &&& before.len() == after.len()
    &&& forall|i: int, k: int| #[trigger]
        stored(index, axis, i, k) && node_at(index, axis, i, k) != id ==> {
            let n = node_at(index, axis, i, k);
            &&& after[n].key(axis) == before[n].key(axis)
            &&& after[n].line(axis) == before[n].line(axis)
            &&& after[n].next(axis) == (if n == before[id].prev(axis) {
                before[id].next(axis)
            } else {
                before[n].next(axis)
            })
            &&& after[n].prev(axis) == (if n == before[id].next(axis) {
                before[id].prev(axis)
            } else {
                before[n].prev(axis)
            })
        }
}

proof fn removal_keeps_lines(
    before: Seq<Node>,
    after: Seq<Node>,
    index: Map<(int, int), int>,
    lists: Seq<List>,
    list: List,
    limit: nat,
    axis: bool,
    line: int,
    key: int,
    id: int,
)
    requires
        before.len() <= NONE,
        placed(before, index),
        linked(before, index, axis),
        anchored(before, index, lists, limit, axis),
        stored(index, axis, line, key),
        node_at(index, axis, line, key) == id,
        unlinks(before, after, index, axis, id),
        list.len == lists[line].len - 1,
        list.head == (if before[id].prev(axis) == NONE {
            before[id].next(axis)
        } else {
            lists[line].head
        }),
        list.tail == (if before[id].next(axis) == NONE {
            before[id].prev(axis)
        } else {
            lists[line].tail
        }),
    ensures
        linked(after, index.remove(place(axis, line, key)), axis),
        anchored(
            after,
            index.remove(place(axis, line, key)),
            lists.update(line, list),
            limit,
            axis,
        ),
{
    let less = index.remove(place(axis, line, key));
    let lists2 = lists.update(line, list);
    one_node_per_position(before, index);
    assert forall|i: int, k: int| #[trigger] stored(less, axis, i, k) implies stored(index, axis, i, k)
        && !(i == line && k == key) && node_at(less, axis, i, k) == node_at(index, axis, i, k) by {}
    assert forall|i: int, k: int| #[trigger] stored(index, axis, i, k) && !(i == line && k
        == key) implies stored(less, axis, i, k) && node_at(index, axis, i, k) != id by {}
    assert(joined(before, index, axis, line, key));
    assert(last_below(before, index, axis, line, key, before[id].prev(axis)));
    assert(first_from(before, index, axis, line, key + 1, before[id].next(axis)));
    assert forall|i: int, k: int| #[trigger] joined(after, less, axis, i, k) by {
        assert(joined(before, index, axis, i, k));
    }
    assert forall|i: int| 0 <= i < lists2.len() implies {
        &&& first_from(after, less, axis, i, 0, (#[trigger] lists2[i]).head)
        &&& last_below(after, less, axis, i, limit as int, lists2[i].tail)
        &&& items(less, axis, i).finite()
        &&& items(less, axis, i).len() == lists2[i].len
    } by {
        assert(lists[i] == lists[i]);
        if i == line {
            assert(items(less, axis, i) =~= items(index, axis, i).remove(key));
            assert(items(index, axis, i).contains(key));
        } else {
            assert(items(less, axis, i) =~= items(index, axis, i));
        }
    }
}

proof fn items_fit(
    nodes: Seq<Node>,
    index: Map<(int, int), int>,
    lists: Seq<List>,
    limit: nat,
    axis: bool,
    i: int,
)
    requires
        anchored(nodes, index, lists, limit, axis),
        0 <= i < lists.len(),
    ensures
        lists[i].len <= limit,
{
    let all = vstd::set_lib::set_int_range(0, limit as int);
    vstd::set_lib::lemma_int_range(0, limit as int);
    assert(lists[i] == lists[i]);
    assert(items(index, axis, i).subset_of(all));
    vstd::set_lib::lemma_len_subset(items(index, axis, i), all);
}

/// Node `n` after the links around one edited node were redirected: the
/// successors of `row_prev` and `col_prev` and the predecessors of `row_next`
/// and `col_next` are replaced.
spec fn redirected(
    node: Node,
    n: int,
    row_prev: u32,
    row_to: u32,
    row_next: u32,
    row_back: u32,
    col_prev: u32,
    col_to: u32,
    col_next: u32,
    col_back: u32,
) -> Node {
    Node {
        row_next: if n == row_prev {
            row_to
        } else {
            node.row_next
        },
        row_prev: if n == row_next {
            row_back
        } else {
            node.row_prev
        },
        col_next: if n == col_prev {
            col_to
        } else {
            node.col_next
        },
        col_prev: if n == col_next {
            col_back
        } else {
            node.col_prev
        },
        ..node
    }
}

fn redirect(
    nodes: &mut Vec<Node>,
    row_prev: u32,
    row_to: u32,
    row_next: u32,
    row_back: u32,
    col_prev: u32,
    col_to: u32,
    col_next: u32,
    col_back: u32,
)
    requires
        old(nodes)@.len() <= NONE,
        row_prev == NONE || row_prev < old(nodes)@.len(),
        row_next == NONE || row_next < old(nodes)@.len(),
        col_prev == NONE || col_prev < old(nodes)@.len(),
        col_next == NONE || col_next < old(nodes)@.len(),
    ensures
        final(nodes)@.len() == old(nodes)@.len(),
        forall|n: int|
            0 <= n < final(nodes)@.len() ==> #[trigger] final(nodes)@[n] == redirected(
                old(nodes)@[n],
                n,
                row_prev,
                row_to,
                row_next,
                row_back,
                col_prev,
                col_to,
                col_next,
                col_back,
            ),
{
    if row_prev != NONE {
        let mut n = nodes[row_prev as usize];
        n.row_next = row_to;
        nodes.set(row_prev as usize, n);
    }
    if row_next != NONE {
        let mut n = nodes[row_next as usize];
        n.row_prev = row_back;
        nodes.set(row_next as usize, n);
    }
    if col_prev != NONE {
        let mut n = nodes[col_prev as usize];
        n.col_next = col_to;
        nodes.set(col_prev as usize, n);
    }
    if col_next != NONE {
        let mut n = nodes[col_next as usize];
        n.col_prev = col_back;
        nodes.set(col_next as usize, n);
    }
}

// ---- the matrix ----

/// The absolute difference of two indices.
fn distance(a: usize, b: usize) -> (d: usize)
    ensures
        d == if a < b {
            b - a
        } else {
            a - b
        },
{
    if a < b {
        b - a
    } else {
        a - b
    }
}

impl View for LinkedMatrix {
    type V = Map<(int, int), Real>;

    closed spec fn view(&self) -> Map<(int, int), Real> {
        Map::new(
            |p: (int, int)| self.index@.contains_key(p),
            |p: (int, int)| self.nodes@[self.index@[p]].value,
        )
    }
}

impl LinkedMatrix {
    /// The lists, the arena and the recycling stack agree with each other, and
    /// no zero is stored.
    pub closed spec fn wf(&self) -> bool {
        &&& self.nodes@.len() <= NONE
        &&& self.rows@.len() < NONE
        &&& self.columns@.len() < NONE
        &&& self.column_cursors@.len() == self.columns@.len()
        &&& placed(self.nodes@, self.index@)
        &&& linked(self.nodes@, self.index@, false)
        &&& linked(self.nodes@, self.index@, true)
        &&& anchored(self.nodes@, self.index@, self.rows@, self.columns@.len(), false)
        &&& anchored(self.nodes@, self.index@, self.columns@, self.rows@.len(), true)
        &&& stacked(self.nodes@, self.index@, self.free, self.spare@)
        &&& self.index@.dom().finite()
        &&& self.index@.dom().len() == self.nnz
        &&& self.nodes@.len() == self.nnz + self.spare@.len()
        &&& forall|p: (int, int)|
            self.index@.contains_key(p) ==> !self.nodes@[#[trigger] self.index@[p]].value.zero()
        &&& forall|c: int|
            0 <= c < self.columns@.len() ==> (#[trigger] self.column_cursors@[c] == NONE || is_node(
                self.nodes@,
                self.index@,
                true,
                c,
                self.column_cursors@[c],
            ))
    }

    pub closed spec fn row_count(&self) -> nat {
        self.rows@.len()
    }

    pub closed spec fn column_count(&self) -> nat {
        self.columns@.len()
    }

    /// Stored positions lie inside the matrix, are finite in number, and hold nonzeros.
    pub proof fn stored_positions(&self)
        requires
            self.wf(),
        ensures
            self@.dom().finite(),
            self.row_count() < NONE,
            self.column_count() < NONE,
            forall|i: int, j: int| #[trigger]
                self@.contains_key((i, j)) ==> 0 <= i < self.row_count() && 0 <= j
                    < self.column_count() && !self@[(i, j)].zero(),
    {
        assert(self@.dom() =~= self.index@.dom());
        assert forall|i: int, j: int| #[trigger] self@.contains_key((i, j)) implies 0 <= i
            < self.row_count() && 0 <= j < self.column_count() && !self@[(i, j)].zero() by {
            assert(place(false, i, j) == (i, j));
            assert(stored(self.index@, false, i, j));
        }
    }

    /// Lines are counted in machine words.
    pub proof fn counts_fit(&self)
        requires
            self.wf(),
        ensures
            self.row_count() <= usize::MAX,
            self.column_count() <= usize::MAX,
    {
    }

    pub fn rows_total(&self) -> (count: usize)
        ensures
            count == self.row_count(),
    {
        self.rows.len()
    }

    /// Stored coefficients are counted in 32 bits.
    pub proof fn stored_count_fits(&self)
        requires
            self.wf(),
        ensures
            self@.dom().len() <= NONE,
    {
        assert(self@.dom() =~= self.index@.dom());
    }

    pub fn zeros(rows: usize, columns: usize) -> (matrix: Self)
        requires
            rows < NONE,
            columns < NONE,
        ensures
            matrix.wf(),
            matrix.row_count() == rows,
            matrix.column_count() == columns,
            matrix@ == Map::<(int, int), Real>::empty(),
    {
        let empty = List { head: NONE, tail: NONE, len: 0 };
        let mut row_lists: Vec<List> = Vec::new();
        let mut at: usize = 0;
        while at < rows
            invariant
                at <= rows,
                row_lists@.len() == at,
                empty == (List { head: NONE, tail: NONE, len: 0 }),
                forall|i: int| 0 <= i < at ==> #[trigger] row_lists@[i] == empty,
            decreases rows - at,
        {
            row_lists.push(empty);
            at = at + 1;
        }
        let mut column_lists: Vec<List> = Vec::new();
        let mut column_cursors: Vec<u32> = Vec::new();
        at = 0;
        while at < columns
            invariant
                at <= columns,
                column_lists@.len() == at,
                column_cursors@.len() == at,
                empty == (List { head: NONE, tail: NONE, len: 0 }),
                forall|i: int| 0 <= i < at ==> #[trigger] column_lists@[i] == empty,
                forall|i: int| 0 <= i < at ==> #[trigger] column_cursors@[i] == NONE,
            decreases columns - at,
        {
            column_lists.push(empty);
            column_cursors.push(NONE);
            at = at + 1;
        }
        let ghost none = Map::<(int, int), int>::empty();
        proof {
            assert forall|axis: bool, i: int| #[trigger] items(none, axis, i) =~= Set::<
                int,
            >::empty() by {}
            assert forall|axis: bool, i: int, k: int| #[trigger] joined(
                Seq::<Node>::empty(),
                none,
                axis,
                i,
                k,
            ) by {}
        }
        let matrix = LinkedMatrix {
            nodes: Vec::new(),
            rows: row_lists,
            columns: column_lists,
            free: NONE,
            nnz: 0,
            column_cursors,
            index: Ghost(none),
            spare: Ghost(Seq::empty()),
        };
        assert(matrix@ =~= Map::<(int, int), Real>::empty());
        matrix
    }

    /// Append an empty column and return its index.
    pub fn add_column(&mut self) -> (column: usize)
        requires
            old(self).wf(),
            old(self).column_count() + 1 < NONE,
        ensures
            final(self).wf(),
            column == old(self).column_count(),
            final(self).column_count() == old(self).column_count() + 1,
            final(self).row_count() == old(self).row_count(),
            final(self)@ == old(self)@,
    {
        let column: usize = self.columns.len();
        self.columns.push(List { head: NONE, tail: NONE, len: 0 });
        self.column_cursors.push(NONE);
        proof {
            let index = self.index@;
            assert forall|k: int| !stored(index, true, column as int, k) by {
                if stored(index, true, column as int, k) {
                    assert(stored(index, true, column as int, k));
                }
            }
            assert(items(index, true, column as int) =~= Set::<int>::empty());
            assert forall|i: int| 0 <= i < self.rows@.len() implies last_below(
                self.nodes@,
                index,
                false,
                i,
                self.columns@.len() as int,
                (#[trigger] self.rows@[i]).tail,
            ) by {
                assert(old(self).rows@[i] == self.rows@[i]);
            }
            assert forall|i: int| 0 <= i < self.columns@.len() implies {
                let list = #[trigger] self.columns@[i];
                &&& first_from(self.nodes@, index, true, i, 0, list.head)
                &&& last_below(self.nodes@, index, true, i, self.rows@.len() as int, list.tail)
                &&& items(index, true, i).finite()
                &&& items(index, true, i).len() == list.len
            } by {
                if i < column {
                    assert(old(self).columns@[i] == self.columns@[i]);
                }
            }
            assert(self@ =~= old(self)@);
        }
        column
    }

    /// Number of columns.
    pub fn columns_total(&self) -> (count: usize)
        ensures
            count == self.column_count(),
    {
        self.columns.len()
    }

    /// Number of stored coefficients.
    pub fn nnz(&self) -> (count: usize)
        requires
            self.wf(),
        ensures
            count == self@.dom().len(),
            self@.dom().finite(),
    {
        assert(self@.dom() =~= self.index@.dom());
        self.nnz
    }

    fn key(&self, node: u32, axis: bool) -> (key: usize)
        requires
            node < self.nodes@.len(),
        ensures
            key == self.nodes@[node as int].key(axis),
    {
        if axis {
            self.nodes[node as usize].row as usize
        } else {
            self.nodes[node as usize].col as usize
        }
    }

    fn list(&self, axis: bool, index: usize) -> (list: List)
        requires
            index < (if axis {
                self.columns@.len()
            } else {
                self.rows@.len()
            }),
        ensures
            list == (if axis {
                self.columns@[index as int]
            } else {
                self.rows@[index as int]
            }),
    {
        if axis {
            self.columns[index]
        } else {
            self.rows[index]
        }
    }

    fn next(&self, node: u32, axis: bool) -> (next: u32)
        requires
            node < self.nodes@.len(),
        ensures
            next == self.nodes@[node as int].next(axis),
    {
        if axis {
            self.nodes[node as usize].col_next
        } else {
            self.nodes[node as usize].row_next
        }
    }

    /// The first node of a line whose item is at least `key`, walking from the head.
    fn position(&self, axis: bool, index: usize, key: usize) -> (at: u32)
        requires
            self.wf(),
            index < (if axis {
                self.columns@.len()
            } else {
                self.rows@.len()
            }),
        ensures
            first_from(self.nodes@, self.index@, axis, index as int, key as int, at),
    {
        let list = self.list(axis, index);
        let ghost limit = if axis {
            self.rows@.len()
        } else {
            self.columns@.len()
        };
        if list.tail == NONE || self.key(list.tail, axis) < key {
            return NONE;
        }
        let mut at: u32 = list.head;
        let ghost mut from: int = 0;
        while at != NONE && self.key(at, axis) < key
            invariant
                self.wf(),
                limit == (if axis {
                    self.rows@.len()
                } else {
                    self.columns@.len()
                }),
                from <= key,
                0 <= from <= limit,
                at != NONE ==> at < self.nodes@.len(),
                first_from(self.nodes@, self.index@, axis, index as int, from, at),
            decreases limit - from,
        {
            proof {
                let k = self.nodes@[at as int].key(axis);
                assert(joined(self.nodes@, self.index@, axis, index as int, k));
                from = k + 1;
            }
            at = self.next(at, axis);
        }
        at
    }

    /// The first node of a column whose row is at least `row`, walking from the
    /// cursor or an end of the column, whichever is nearest in row-index space.
    fn column_position(&self, col: usize, row: usize) -> (at: u32)
        requires
            self.wf(),
            col < self.columns@.len(),
        ensures
            first_from(self.nodes@, self.index@, true, col as int, row as int, at),
    {
        let list = self.columns[col];
        if list.tail == NONE || self.key(list.tail, true) < row {
            return NONE;
        }
        if self.key(list.head, true) >= row {
            return list.head;
        }
        let mut at: u32 = self.column_cursors[col];
        if at == NONE {
            at = list.head;
        }
        if distance(self.key(list.head, true), row) < distance(self.key(at, true), row) {
            at = list.head;
        }
        if distance(self.key(list.tail, true), row) < distance(self.key(at, true), row) {
            at = list.tail;
        }
        if self.key(at, true) < row {
            proof {
                assert(joined(
                    self.nodes@,
                    self.index@,
                    true,
                    col as int,
                    self.nodes@[at as int].key(true),
                ));
            }
            let ghost mut from: int = self.nodes@[at as int].key(true) + 1;
            at = self.nodes[at as usize].col_next;
            while at != NONE && self.key(at, true) < row
                invariant
                    self.wf(),
                    from <= row,
                    0 <= from <= self.rows@.len(),
                    at != NONE ==> at < self.nodes@.len(),
                    first_from(self.nodes@, self.index@, true, col as int, from, at),
                decreases self.rows@.len() - from,
            {
                proof {
                    let k = self.nodes@[at as int].key(true);
                    assert(joined(self.nodes@, self.index@, true, col as int, k));
                    from = k + 1;
                }
                at = self.nodes[at as usize].col_next;
            }
        } else {
            proof {
                assert(joined(
                    self.nodes@,
                    self.index@,
                    true,
                    col as int,
                    self.nodes@[at as int].key(true),
                ));
            }
            let mut prev: u32 = self.nodes[at as usize].col_prev;
            while prev != NONE && self.key(prev, true) >= row
                invariant
                    self.wf(),
                    prev != NONE ==> prev < self.nodes@.len(),
                    is_node(self.nodes@, self.index@, true, col as int, at),
                    self.nodes@[at as int].key(true) >= row,
                    last_below(
                        self.nodes@,
                        self.index@,
                        true,
                        col as int,
                        self.nodes@[at as int].key(true),
                        prev,
                    ),
                decreases self.nodes@[at as int].key(true),
            {
                at = prev;
                proof {
                    assert(joined(
                        self.nodes@,
                        self.index@,
                        true,
                        col as int,
                        self.nodes@[at as int].key(true),
                    ));
                }
                prev = self.nodes[at as usize].col_prev;
            }
        }
        at
    }

    /// The coefficient at a position, zero where none is stored. Walks the shorter line.
    pub fn get(&self, row: usize, col: usize) -> (value: Real)
        requires
            self.wf(),
            row < self.row_count(),
            col < self.column_count(),
        ensures
            value == (if self@.contains_key((row as int, col as int)) {
                self@[(row as int, col as int)]
            } else {
                crate::number::zero()
            }),
    {
        let axis = self.rows[row].len > self.columns[col].len;
        let (index, key): (usize, usize) = if axis {
            (col, row)
        } else {
            (row, col)
        };
        let at: u32 = self.position(axis, index, key);
        proof {
            assert(place(axis, index as int, key as int) == (row as int, col as int));
            assert(stored(self.index@, axis, index as int, key as int) == self.index@.contains_key(
                (row as int, col as int),
            ));
        }
        if at != NONE && self.key(at, axis) == key {
            self.nodes[at as usize].value
        } else {
            crate::number::zero()
        }
    }

    /// Thread a new node between the given successors and their predecessors.
    fn insert(&mut self, row: usize, col: usize, value: Real, row_next: u32, col_next: u32)
        requires
            old(self).wf(),
            row < old(self).rows@.len(),
            col < old(self).columns@.len(),
            !value.zero(),
            old(self).nnz < NONE,
            !old(self).index@.contains_key((row as int, col as int)),
            first_from(
                old(self).nodes@,
                old(self).index@,
                false,
                row as int,
                col as int,
                row_next,
            ),
            first_from(old(self).nodes@, old(self).index@, true, col as int, row as int, col_next),
        ensures
            final(self).wf(),
            final(self).rows@.len() == old(self).rows@.len(),
            final(self).columns@.len() == old(self).columns@.len(),
            final(self)@ == old(self)@.insert((row as int, col as int), value),
            final(self).nnz == old(self).nnz + 1,
            final(self).index@.remove((row as int, col as int)) == old(self).index@,
            final(self).index@.contains_key((row as int, col as int)),
    {
        let ghost before = self.nodes@;
        let ghost index = self.index@;
        proof {
            assert(place(false, row as int, col as int) == (row as int, col as int));
            assert(place(true, col as int, row as int) == (row as int, col as int));
            if row_next != NONE {
                assert(joined(before, index, false, row as int, before[row_next as int].key(false)));
            } else {
                assert(last_below(
                    before,
                    index,
                    false,
                    row as int,
                    self.columns@.len() as int,
                    self.rows@[row as int].tail,
                ));
            }
            if col_next != NONE {
                assert(joined(before, index, true, col as int, before[col_next as int].key(true)));
            } else {
                assert(last_below(
                    before,
                    index,
                    true,
                    col as int,
                    self.rows@.len() as int,
                    self.columns@[col as int].tail,
                ));
            }
        }
        proof {
            items_fit(before, index, self.rows@, self.columns@.len(), false, row as int);
            items_fit(before, index, self.columns@, self.rows@.len(), true, col as int);
        }
        let row_list = self.rows[row];
        let col_list = self.columns[col];
        let row_prev: u32 = if row_next == NONE {
            row_list.tail
        } else {
            self.nodes[row_next as usize].row_prev
        };
        let col_prev: u32 = if col_next == NONE {
            col_list.tail
        } else {
            self.nodes[col_next as usize].col_prev
        };
        assert(last_below(before, index, false, row as int, col as int, row_prev));
        assert(last_below(before, index, true, col as int, row as int, col_prev));
        let node = Node {
            value,
            row: row as u32,
            col: col as u32,
            row_prev,
            row_next,
            col_prev,
            col_next,
        };
        let id: u32 = self.free;
        let id: u32 = if id == NONE {
            let fresh: u32 = self.nodes.len() as u32;
            self.nodes.push(node);
            fresh
        } else {
            proof {
                assert(self.spare@.last() == self.spare@[self.spare@.len() - 1]);
                assert forall|a: int| 0 <= a < self.spare@.drop_last().len() implies #[trigger]
                self.spare@.drop_last()[a] == self.spare@[a] by {}
            }
            self.free = self.nodes[id as usize].row_next;
            self.nodes.set(id as usize, node);
            self.spare = Ghost(self.spare@.drop_last());
            id
        };
        proof {
            assert forall|p: (int, int)| #[trigger] index.contains_key(p) implies index[p] != id by {}
        }
        redirect(
            &mut self.nodes,
            row_prev,
            id,
            row_next,
            id,
            col_prev,
            id,
            col_next,
            id,
        );
        let new_row = List {
            head: if row_prev == NONE {
                id
            } else {
                row_list.head
            },
            tail: if row_next == NONE {
                id
            } else {
                row_list.tail
            },
            len: row_list.len + 1,
        };
        let new_col = List {
            head: if col_prev == NONE {
                id
            } else {
                col_list.head
            },
            tail: if col_next == NONE {
                id
            } else {
                col_list.tail
            },
            len: col_list.len + 1,
        };
        self.rows.set(row, new_row);
        self.columns.set(col, new_col);
        self.column_cursors.set(col, id);
        self.nnz = self.nnz + 1;
        self.index = Ghost(index.insert((row as int, col as int), id as int));
        proof {
            inserted_is_wf(*old(self), *self, row, col, id, node, new_row, new_col);
        }
    }
}

impl LinkedMatrix {
    /// Unthread a node from both lists and recycle it.
    fn remove(&mut self, id: u32)
        requires
            old(self).wf(),
            id < old(self).nodes@.len(),
            ({
                let node = old(self).nodes@[id as int];
                let p = (node.row as int, node.col as int);
                old(self).index@.contains_key(p) && old(self).index@[p] == id
            }),
        ensures
            final(self).wf(),
            final(self).rows@.len() == old(self).rows@.len(),
            final(self).columns@.len() == old(self).columns@.len(),
            final(self).nnz == old(self).nnz - 1,
            ({
                let node = old(self).nodes@[id as int];
                let p = (node.row as int, node.col as int);
                &&& final(self)@ == old(self)@.remove(p)
                &&& final(self).index@ == old(self).index@.remove(p)
                &&& first_from(
                    final(self).nodes@,
                    final(self).index@,
                    false,
                    p.0,
                    p.1 + 1,
                    node.row_next,
                )
                &&& first_from(
                    final(self).nodes@,
                    final(self).index@,
                    true,
                    p.1,
                    p.0 + 1,
                    node.col_next,
                )
                &&& forall|a: int|
                    0 <= a < final(self).rows@.len() && a != p.0 ==> #[trigger] final(self).rows@[a]
                        == old(self).rows@[a]
                &&& forall|a: int|
                    0 <= a < final(self).columns@.len() && a != p.1
                        ==> #[trigger] final(self).columns@[a] == old(self).columns@[a]
            }),
    {
        let node = self.nodes[id as usize];
        let row: usize = node.row as usize;
        let col: usize = node.col as usize;
        let ghost before = self.nodes@;
        let ghost index = self.index@;
        let ghost p = (row as int, col as int);
        proof {
            assert(place(false, row as int, col as int) == p);
            assert(place(true, col as int, row as int) == p);
            assert(stored(index, false, row as int, col as int));
            assert(stored(index, true, col as int, row as int));
            assert(joined(before, index, false, row as int, col as int));
            assert(joined(before, index, true, col as int, row as int));
            assert(self.rows@[row as int].len > 0) by {
                assert(items(index, false, row as int).contains(col as int));
                assert(self.rows@[row as int] == self.rows@[row as int]);
            }
            assert(self.columns@[col as int].len > 0) by {
                assert(items(index, true, col as int).contains(row as int));
                assert(self.columns@[col as int] == self.columns@[col as int]);
            }
            assert(index.dom().contains(p));
        }
        if self.column_cursors[col] == id {
            let near: u32 = if node.col_next != NONE {
                node.col_next
            } else {
                node.col_prev
            };
            self.column_cursors.set(col, near);
        }
        redirect(
            &mut self.nodes,
            node.row_prev,
            node.row_next,
            node.row_next,
            node.row_prev,
            node.col_prev,
            node.col_next,
            node.col_next,
            node.col_prev,
        );
        let row_list = self.rows[row];
        let col_list = self.columns[col];
        let new_row = List {
            head: if node.row_prev == NONE {
                node.row_next
            } else {
                row_list.head
            },
            tail: if node.row_next == NONE {
                node.row_prev
            } else {
                row_list.tail
            },
            len: row_list.len - 1,
        };
        let new_col = List {
            head: if node.col_prev == NONE {
                node.col_next
            } else {
                col_list.head
            },
            tail: if node.col_next == NONE {
                node.col_prev
            } else {
                col_list.tail
            },
            len: col_list.len - 1,
        };
        self.rows.set(row, new_row);
        self.columns.set(col, new_col);
        let mut gone = self.nodes[id as usize];
        gone.row_next = self.free;
        self.nodes.set(id as usize, gone);
        self.free = id;
        self.spare = Ghost(self.spare@.push(id as int));
        self.nnz = self.nnz - 1;
        self.index = Ghost(index.remove(p));
        proof {
            removed_is_wf(*old(self), *self, id, new_row, new_col);
        }
    }
}

proof fn removed_is_wf(
    m0: LinkedMatrix,
    m1: LinkedMatrix,
    id: u32,
    new_row: List,
    new_col: List,
)
    requires
        m0.wf(),
        id < m0.nodes@.len(),
        ({
            let node = m0.nodes@[id as int];
            let p = (node.row as int, node.col as int);
            &&& m0.index@.contains_key(p)
            &&& m0.index@[p] == id
            &&& m1.index@ == m0.index@.remove(p)
            &&& m1.rows@ == m0.rows@.update(p.0, new_row)
            &&& m1.columns@ == m0.columns@.update(p.1, new_col)
            &&& m1.column_cursors@.len() == m0.column_cursors@.len()
            &&& forall|c: int|
                0 <= c < m1.columns@.len() ==> #[trigger] m1.column_cursors@[c] == (if c == p.1
                    && m0.column_cursors@[c] == id {
                    if node.col_next != NONE {
                        node.col_next
                    } else {
                        node.col_prev
                    }
                } else {
                    m0.column_cursors@[c]
                })
            &&& forall|n: int|
                0 <= n < m1.nodes@.len() && n != id ==> #[trigger] m1.nodes@[n] == redirected(
                    m0.nodes@[n],
                    n,
                    node.row_prev,
                    node.row_next,
                    node.row_next,
                    node.row_prev,
                    node.col_prev,
                    node.col_next,
                    node.col_next,
                    node.col_prev,
                )
            &&& new_row.len == m0.rows@[p.0].len - 1
            &&& new_row.head == (if node.row_prev == NONE {
                node.row_next
            } else {
                m0.rows@[p.0].head
            })
            &&& new_row.tail == (if node.row_next == NONE {
                node.row_prev
            } else {
                m0.rows@[p.0].tail
            })
            &&& new_col.len == m0.columns@[p.1].len - 1
            &&& new_col.head == (if node.col_prev == NONE {
                node.col_next
            } else {
                m0.columns@[p.1].head
            })
            &&& new_col.tail == (if node.col_next == NONE {
                node.col_prev
            } else {
                m0.columns@[p.1].tail
            })
        }),
        m1.nodes@.len() == m0.nodes@.len(),
        m1.nodes@[id as int].row_next == m0.free,
        m1.free == id,
        m1.spare@ == m0.spare@.push(id as int),
        m1.nnz == m0.nnz - 1,
    ensures
        m1.wf(),
        ({
            let node = m0.nodes@[id as int];
            let p = (node.row as int, node.col as int);
            &&& m1@ == m0@.remove(p)
            &&& first_from(m1.nodes@, m1.index@, false, p.0, p.1 + 1, node.row_next)
            &&& first_from(m1.nodes@, m1.index@, true, p.1, p.0 + 1, node.col_next)
        }),
{
    let before = m0.nodes@;
    let after = m1.nodes@;
    let index = m0.index@;
    let less = m1.index@;
    let node = before[id as int];
    let row = node.row as int;
    let col = node.col as int;
    let p = (row, col);
    assert(place(false, row, col) == p);
    assert(place(true, col, row) == p);
    assert(stored(index, false, row, col));
    assert(stored(index, true, col, row));
    one_node_per_position(before, index);
    assert forall|q: (int, int)| #[trigger] less.contains_key(q) implies index.contains_key(q)
        && less[q] == index[q] && less[q] != id && 0 <= less[q] < before.len() by {
        assert(index.contains_key(q));
        if index[q] == index[p] {
            assert(q == p);
        }
    }
    assert(joined(before, index, false, row, col));
    assert(joined(before, index, true, col, row));
    removal_keeps_lines(
        before,
        after,
        index,
        m0.rows@,
        new_row,
        m0.columns@.len(),
        false,
        row,
        col,
        id as int,
    );
    removal_keeps_lines(
        before,
        after,
        index,
        m0.columns@,
        new_col,
        m0.rows@.len(),
        true,
        col,
        row,
        id as int,
    );
    assert forall|axis: bool, i: int, k: int| #[trigger] stored(less, axis, i, k) implies stored(
        index,
        axis,
        i,
        k,
    ) && node_at(less, axis, i, k) == node_at(index, axis, i, k) by {}
    assert forall|axis: bool, i: int, k: int| #[trigger] stored(index, axis, i, k) && place(
        axis,
        i,
        k,
    ) != p implies stored(less, axis, i, k) by {}
    assert(placed(after, less));
    assert(m1@ =~= m0@.remove(p));
    assert(less.dom() =~= index.dom().remove(p));
    assert(index.dom().contains(p));
    assert(stacked(after, less, m1.free, m1.spare@)) by {
        let s0 = m0.spare@;
        let s1 = m1.spare@;
        assert(s1.last() == id);
        assert forall|a: int| 0 <= a < s0.len() implies s1[a] == s0[a] && index[p] != #[trigger] s0[a] by {}
        if s0.len() > 0 {
            assert(s0.last() == s0[s0.len() - 1]);
        }
    }
    assert forall|c: int| 0 <= c < m1.columns@.len() implies (#[trigger] m1.column_cursors@[c]
        == NONE || is_node(after, less, true, c, m1.column_cursors@[c])) by {
        assert(m0.column_cursors@[c] == NONE || is_node(
            before,
            index,
            true,
            c,
            m0.column_cursors@[c],
        ));
    }
}

proof fn inserted_is_wf(
    m0: LinkedMatrix,
    m1: LinkedMatrix,
    row: usize,
    col: usize,
    id: u32,
    node: Node,
    new_row: List,
    new_col: List,
)
    requires
        m0.wf(),
        row < m0.rows@.len(),
        col < m0.columns@.len(),
        m0.nnz < NONE,
        !m0.index@.contains_key((row as int, col as int)),
        !node.value.zero(),
        node.row == row,
        node.col == col,
        first_from(m0.nodes@, m0.index@, false, row as int, col as int, node.row_next),
        last_below(m0.nodes@, m0.index@, false, row as int, col as int, node.row_prev),
        first_from(m0.nodes@, m0.index@, true, col as int, row as int, node.col_next),
        last_below(m0.nodes@, m0.index@, true, col as int, row as int, node.col_prev),
        id < NONE,
        m0.free == NONE ==> id == m0.nodes@.len() && m1.nodes@.len() == m0.nodes@.len() + 1
            && m1.free == NONE && m1.spare@ == m0.spare@,
        m0.free != NONE ==> id == m0.free && m1.nodes@.len() == m0.nodes@.len() && m1.free
            == m0.nodes@[id as int].row_next && m1.spare@ == m0.spare@.drop_last(),
        forall|n: int|
            0 <= n < m1.nodes@.len() ==> #[trigger] m1.nodes@[n] == redirected(
                if n == id {
                    node
                } else {
                    m0.nodes@[n]
                },
                n,
                node.row_prev,
                id,
                node.row_next,
                id,
                node.col_prev,
                id,
                node.col_next,
                id,
            ),
        m1.rows@ == m0.rows@.update(row as int, new_row),
        m1.columns@ == m0.columns@.update(col as int, new_col),
        m1.column_cursors@ == m0.column_cursors@.update(col as int, id),
        m1.nnz == m0.nnz + 1,
        m1.index@ == m0.index@.insert((row as int, col as int), id as int),
        new_row.len == m0.rows@[row as int].len + 1,
        new_row.head == (if node.row_prev == NONE {
            id
        } else {
            m0.rows@[row as int].head
        }),
        new_row.tail == (if node.row_next == NONE {
            id
        } else {
            m0.rows@[row as int].tail
        }),
        new_col.len == m0.columns@[col as int].len + 1,
        new_col.head == (if node.col_prev == NONE {
            id
        } else {
            m0.columns@[col as int].head
        }),
        new_col.tail == (if node.col_next == NONE {
            id
        } else {
            m0.columns@[col as int].tail
        }),
    ensures
        m1.wf(),
        m1@ == m0@.insert((row as int, col as int), node.value),
        m1.index@.remove((row as int, col as int)) == m0.index@,
{
    let before = m0.nodes@;
    let after = m1.nodes@;
    let index = m0.index@;
    let grown = m1.index@;
    let p0 = (row as int, col as int);
    assert(place(false, row as int, col as int) == p0);
    assert(place(true, col as int, row as int) == p0);
    assert(!stored(index, false, row as int, col as int));
    assert(!stored(index, true, col as int, row as int));
    if m0.free != NONE {
        assert(m0.spare@.last() == m0.spare@[m0.spare@.len() - 1]);
    }
    assert forall|p: (int, int)| #[trigger] index.contains_key(p) implies index[p] != id && 0
        <= index[p] < before.len() by {}
    assert(node.row_prev != id && node.row_next != id && node.col_prev != id && node.col_next
        != id);
    assert forall|i: int, k: int| #[trigger] stored(index, false, i, k) implies {
        let n = node_at(index, false, i, k);
        0 <= n < before.len() && n != id
    } by {}
    assert forall|i: int, k: int| #[trigger] stored(index, true, i, k) implies {
        let n = node_at(index, true, i, k);
        0 <= n < before.len() && n != id
    } by {}
    insertion_keeps_lines(
        before,
        after,
        index,
        m0.rows@,
        new_row,
        m0.columns@.len(),
        false,
        row as int,
        col as int,
        id as int,
        node.row_prev,
        node.row_next,
    );
    insertion_keeps_lines(
        before,
        after,
        index,
        m0.columns@,
        new_col,
        m0.rows@.len(),
        true,
        col as int,
        row as int,
        id as int,
        node.col_prev,
        node.col_next,
    );
    assert(placed(after, grown));
    assert(m1@ =~= m0@.insert(p0, node.value));
    assert(grown.remove(p0) =~= index);
    assert(grown.dom() =~= index.dom().insert(p0));
    spare_survives_insertion(m0, m1, id);
    assert forall|c: int| 0 <= c < m1.columns@.len() implies (#[trigger] m1.column_cursors@[c]
        == NONE || is_node(after, grown, true, c, m1.column_cursors@[c])) by {
        if c != col {
            assert(m0.column_cursors@[c] == m1.column_cursors@[c]);
            if m1.column_cursors@[c] != NONE {
                assert(is_node(before, index, true, c, m0.column_cursors@[c]));
            }
        } else {
            assert(stored(grown, true, c, row as int));
        }
    }
}

proof fn spare_survives_insertion(m0: LinkedMatrix, m1: LinkedMatrix, id: u32)
    requires
        stacked(m0.nodes@, m0.index@, m0.free, m0.spare@),
        m0.nodes@.len() <= NONE,
        m0.nodes@.len() <= m1.nodes@.len(),
        m0.free == NONE ==> id == m0.nodes@.len() && m1.free == NONE && m1.spare@ == m0.spare@,
        m0.free != NONE ==> id == m0.free && m1.free == m0.nodes@[id as int].row_next && m1.spare@
            == m0.spare@.drop_last(),
        forall|a: int|
            0 <= a < m1.spare@.len() ==> m1.nodes@[#[trigger] m1.spare@[a]].row_next
                == m0.nodes@[m1.spare@[a]].row_next,
        forall|p: (int, int)| #[trigger]
            m1.index@.contains_key(p) ==> m1.index@[p] == id || (m0.index@.contains_key(p)
                && m1.index@[p] == m0.index@[p]),
    ensures
        stacked(m1.nodes@, m1.index@, m1.free, m1.spare@),
{
    let s0 = m0.spare@;
    let s1 = m1.spare@;
    assert forall|a: int| 0 <= a < s1.len() implies #[trigger] s1[a] == s0[a] by {}
    if s0.len() > 0 {
        assert(s0.last() == s0[s0.len() - 1]);
        if s1.len() > 0 {
            assert(s1.last() == s0[s0.len() - 2]);
        }
    }
}

// ---- walking lines ----

/// Equal links and positions keep every structural property, whatever the values.
proof fn values_do_not_matter(
    before: Seq<Node>,
    after: Seq<Node>,
    index: Map<(int, int), int>,
    axis: bool,
)
    requires
        before.len() == after.len(),
        forall|n: int|
            0 <= n < before.len() ==> (#[trigger] after[n]) == (Node {
                value: after[n].value,
                ..before[n]
            }),
        placed(before, index),
        linked(before, index, axis),
    ensures
        linked(after, index, axis),
        forall|i: int, key: int, at: u32|
            first_from(before, index, axis, i, key, at) ==> #[trigger] first_from(
                after,
                index,
                axis,
                i,
                key,
                at,
            ),
        forall|i: int, key: int, at: u32|
            last_below(before, index, axis, i, key, at) ==> #[trigger] last_below(
                after,
                index,
                axis,
                i,
                key,
                at,
            ),
{
    assert forall|i: int, k: int| #[trigger] joined(after, index, axis, i, k) by {
        assert(joined(before, index, axis, i, k));
        if stored(index, axis, i, k) {
            let n = node_at(index, axis, i, k);
            assert(0 <= n < before.len());
            assert(after[n] == (Node { value: after[n].value, ..before[n] }));
        }
    }
}

/// The length of a listed line is the number of items stored in it.
pub proof fn listed_length(
    entries: Seq<(usize, Real)>,
    matrix: Map<(int, int), Real>,
    axis: bool,
    i: int,
)
    requires
        lists_line(entries, matrix, axis, i),
    ensures
        line_items(matrix, axis, i).finite(),
        entries.len() == line_items(matrix, axis, i).len(),
{
    let keys = Seq::new(entries.len(), |a: int| entries[a].0 as int);
    assert(keys.no_duplicates()) by {
        assert forall|a: int, b: int|
            0 <= a < keys.len() && 0 <= b < keys.len() && a != b implies keys[a] != keys[b] by {
            if a < b {
                assert(entries[a].0 < entries[b].0);
            } else {
                assert(entries[b].0 < entries[a].0);
            }
        }
    }
    keys.unique_seq_to_set();
    assert(keys.to_set() =~= line_items(matrix, axis, i)) by {
        assert forall|k: int| line_items(matrix, axis, i).contains(k) implies keys.to_set().contains(
            k,
        ) by {
            assert(matrix.contains_key(place(axis, i, k)));
            let a = choose|a: int| 0 <= a < entries.len() && (#[trigger] entries[a]).0 == k;
            assert(keys[a] == k);
        }
        assert forall|k: int| keys.to_set().contains(k) implies line_items(
            matrix,
            axis,
            i,
        ).contains(k) by {
            let a = choose|a: int| 0 <= a < keys.len() && keys[a] == k;
            assert(entries[a].0 == k);
        }
    }
}

/// A line has one listing: sorted entries are determined by what is stored.
pub proof fn listing_is_unique(
    left: Seq<(usize, Real)>,
    right: Seq<(usize, Real)>,
    matrix: Map<(int, int), Real>,
    axis: bool,
    i: int,
)
    requires
        lists_line(left, matrix, axis, i),
        lists_line(right, matrix, axis, i),
    ensures
        left == right,
    decreases left.len(),
{
    listed_length(left, matrix, axis, i);
    listed_length(right, matrix, axis, i);
    if left.len() > 0 {
        let n = left.len() as int;
        let l = left.last();
        let r = right.last();
        assert(matrix.contains_key(place(axis, i, left[n - 1].0 as int)));
        assert(matrix.contains_key(place(axis, i, right[n - 1].0 as int)));
        let a = choose|a: int| 0 <= a < n && (#[trigger] right[a]).0 == l.0;
        let b = choose|b: int| 0 <= b < n && (#[trigger] left[b]).0 == r.0;
        assert(left[b].0 <= left[n - 1].0);
        assert(right[a].0 <= right[n - 1].0);
        assert(l.0 == r.0);
        assert(l == r);
        let rest = matrix.remove(place(axis, i, l.0 as int));
        assert forall|m: Seq<(usize, Real)>|
            #![trigger lists_line(m, matrix, axis, i)]
            lists_line(m, matrix, axis, i) && m.len() == n && m.last() == l implies lists_line(
            m.drop_last(),
            rest,
            axis,
            i,
        ) by {
            let d = m.drop_last();
            assert forall|a: int| 0 <= a < d.len() implies {
                &&& rest.contains_key(place(axis, i, (#[trigger] d[a]).0 as int))
                &&& rest[place(axis, i, d[a].0 as int)] == d[a].1
            } by {
                assert(d[a] == m[a]);
                assert(m[a].0 < m[n - 1].0);
            }
            assert forall|k: int| #[trigger] rest.contains_key(place(axis, i, k)) implies exists|
                a: int,
            |
                0 <= a < d.len() && (#[trigger] d[a]).0 == k by {
                assert(matrix.contains_key(place(axis, i, k)));
                let a = choose|a: int| 0 <= a < m.len() && (#[trigger] m[a]).0 == k;
                assert(a != n - 1);
                assert(d[a].0 == k);
            }
        }
        listing_is_unique(left.drop_last(), right.drop_last(), rest, axis, i);
        assert(left =~= left.drop_last().push(l));
        assert(right =~= right.drop_last().push(r));
    }
}

/// `entries` lists the items of line `i` that are below `from`.
#[verifier::opaque]
pub(crate) open spec fn listed_below(
    entries: Seq<(usize, Real)>,
    matrix: Map<(int, int), Real>,
    axis: bool,
    i: int,
    from: int,
) -> bool {
    &&& forall|a: int, b: int|
        0 <= a < b < entries.len() ==> (#[trigger] entries[a]).0 < (#[trigger] entries[b]).0
    &&& forall|a: int|
        0 <= a < entries.len() ==> {
            &&& (#[trigger] entries[a]).0 < from
            &&& matrix.contains_key(place(axis, i, entries[a].0 as int))
            &&& matrix[place(axis, i, entries[a].0 as int)] == entries[a].1
        }
    &&& forall|k: int| #[trigger]
        matrix.contains_key(place(axis, i, k)) && k < from ==> exists|a: int|
            0 <= a < entries.len() && (#[trigger] entries[a]).0 == k
}

pub(crate) proof fn listing_starts(matrix: Map<(int, int), Real>, axis: bool, i: int)
    requires
        forall|k: int| #[trigger] matrix.contains_key(place(axis, i, k)) ==> k >= 0,
    ensures
        listed_below(Seq::empty(), matrix, axis, i, 0),
{
    reveal(listed_below);
}

pub(crate) proof fn listing_grows(
    entries: Seq<(usize, Real)>,
    matrix: Map<(int, int), Real>,
    axis: bool,
    i: int,
    from: int,
    key: usize,
    value: Real,
)
    requires
        listed_below(entries, matrix, axis, i, from),
        from <= key,
        matrix.contains_key(place(axis, i, key as int)),
        matrix[place(axis, i, key as int)] == value,
        forall|k: int| #[trigger]
            matrix.contains_key(place(axis, i, k)) ==> k < from || k >= key,
    ensures
        listed_below(entries.push((key, value)), matrix, axis, i, key + 1),
{
    reveal(listed_below);
    let more = entries.push((key, value));
    assert forall|k: int| #[trigger] matrix.contains_key(place(axis, i, k)) && k < key
        + 1 implies exists|a: int| 0 <= a < more.len() && (#[trigger] more[a]).0 == k by {
        if k < from {
            let a = choose|a: int| 0 <= a < entries.len() && (#[trigger] entries[a]).0 == k;
            assert(more[a].0 == k);
        } else {
            assert(more[entries.len() as int].0 == k);
        }
    }
}

pub(crate) proof fn listing_ends(
    entries: Seq<(usize, Real)>,
    matrix: Map<(int, int), Real>,
    axis: bool,
    i: int,
    from: int,
)
    requires
        listed_below(entries, matrix, axis, i, from),
        forall|k: int| #[trigger] matrix.contains_key(place(axis, i, k)) ==> k < from,
    ensures
        lists_line(entries, matrix, axis, i),
{
    reveal(listed_below);
}

/// `map` is `start` without the items of line `i` that are below `from`.
#[verifier::opaque]
spec fn trimmed(
    map: Map<(int, int), Real>,
    start: Map<(int, int), Real>,
    axis: bool,
    i: int,
    from: int,
) -> bool {
    forall|j: int, k: int|
        {
            &&& #[trigger] map.contains_key(place(axis, j, k)) <==> start.contains_key(
                place(axis, j, k),
            ) && (j != i || k >= from)
            &&& map.contains_key(place(axis, j, k)) ==> map[place(axis, j, k)] == start[place(
                axis,
                j,
                k,
            )]
        }
}

proof fn trimming(
    map: Map<(int, int), Real>,
    start: Map<(int, int), Real>,
    axis: bool,
    i: int,
    from: int,
    key: int,
)
    requires
        trimmed(map, start, axis, i, from),
        map.contains_key(place(axis, i, key)),
        forall|k: int| #[trigger] map.contains_key(place(axis, i, k)) ==> k < from || k >= key,
    ensures
        trimmed(map.remove(place(axis, i, key)), start, axis, i, key + 1),
        from <= key,
        start.contains_key(place(axis, i, key)),
        start[place(axis, i, key)] == map[place(axis, i, key)],
        forall|k: int| #[trigger] start.contains_key(place(axis, i, k)) ==> k < from || k >= key,
{
    reveal(trimmed);
    assert forall|k: int| #[trigger] start.contains_key(place(axis, i, k)) implies k < from || k
        >= key by {
        if k >= from {
            assert(map.contains_key(place(axis, i, k)));
        }
    }
    let less = map.remove(place(axis, i, key));
    assert forall|j: int, k: int|
        {
            &&& #[trigger] less.contains_key(place(axis, j, k)) <==> start.contains_key(
                place(axis, j, k),
            ) && (j != i || k >= key + 1)
            &&& less.contains_key(place(axis, j, k)) ==> less[place(axis, j, k)] == start[place(
                axis,
                j,
                k,
            )]
        } by {
        assert(map.contains_key(place(axis, j, k)) <==> start.contains_key(place(axis, j, k)) && (j
            != i || k >= from));
    }
}

proof fn trimmed_away(
    map: Map<(int, int), Real>,
    start: Map<(int, int), Real>,
    axis: bool,
    i: int,
    from: int,
)
    requires
        trimmed(map, start, axis, i, from),
        forall|k: int| !#[trigger] map.contains_key(place(axis, i, k)) || k < from,
    ensures
        forall|k: int| #[trigger] start.contains_key(place(axis, i, k)) ==> k < from,
        map == start.remove_keys(
            start.dom().filter(
                |p: (int, int)| (if axis {
                    p.1
                } else {
                    p.0
                }) == i,
            ),
        ),
{
    reveal(trimmed);
    assert forall|k: int| #[trigger] start.contains_key(place(axis, i, k)) implies k < from by {
        if k >= from {
            assert(map.contains_key(place(axis, i, k)));
        }
    }
    let gone = start.dom().filter(
        |p: (int, int)| (if axis {
            p.1
        } else {
            p.0
        }) == i,
    );
    assert forall|p: (int, int)| #[trigger] map.contains_key(p) <==> start.remove_keys(
        gone,
    ).contains_key(p) by {
        let (j, k) = if axis {
            (p.1, p.0)
        } else {
            (p.0, p.1)
        };
        assert(place(axis, j, k) == p);
        assert(map.contains_key(place(axis, j, k)) <==> start.contains_key(place(axis, j, k)) && (j
            != i || k >= from));
    }
    assert forall|p: (int, int)| #[trigger] map.contains_key(p) implies map[p] == start[p] by {
        let (j, k) = if axis {
            (p.1, p.0)
        } else {
            (p.0, p.1)
        };
        assert(place(axis, j, k) == p);
        assert(map.contains_key(place(axis, j, k)));
    }
    assert(map =~= start.remove_keys(gone));
}

/// A row or column of a matrix.
#[derive(Clone, Copy)]
pub struct Line<'a> {
    matrix: &'a LinkedMatrix,
    index: usize,
    axis: bool,
}

/// A place in a line that outlives the borrow of the matrix, so coefficients
/// may change while the line is walked.
#[derive(Clone, Copy)]
pub struct Cursor {
    next: u32,
    axis: bool,
    line: Ghost<int>,
    from: Ghost<int>,
}

impl<'a> Line<'a> {
    pub closed spec fn wf(&self) -> bool {
        &&& self.matrix.wf()
        &&& self.index < (if self.axis {
            self.matrix.columns@.len()
        } else {
            self.matrix.rows@.len()
        })
    }

    pub closed spec fn matrix(&self) -> Map<(int, int), Real> {
        self.matrix@
    }

    pub closed spec fn source(&self) -> LinkedMatrix {
        *self.matrix
    }

    pub closed spec fn line(&self) -> int {
        self.index as int
    }

    pub closed spec fn axis(&self) -> bool {
        self.axis
    }

    pub fn len(&self) -> (len: usize)
        requires
            self.wf(),
        ensures
            line_items(self.matrix(), self.axis(), self.line()).finite(),
            len == line_items(self.matrix(), self.axis(), self.line()).len(),
    {
        proof {
            let index = self.matrix.index@;
            assert(line_items(self.matrix@, self.axis, self.index as int) =~= items(
                index,
                self.axis,
                self.index as int,
            ));
        }
        self.matrix.list(self.axis, self.index).len
    }

    pub fn is_empty(&self) -> (b: bool)
        requires
            self.wf(),
        ensures
            b == (line_items(self.matrix(), self.axis(), self.line()).len() == 0),
    {
        self.len() == 0
    }

    pub fn cursor(&self) -> (cursor: Cursor)
        requires
            self.wf(),
        ensures
            cursor.on(self.source()),
            cursor.line() == self.line(),
            cursor.axis() == self.axis(),
            cursor.from() == 0,
    {
        Cursor {
            next: self.matrix.list(self.axis, self.index).head,
            axis: self.axis,
            line: Ghost(self.index as int),
            from: Ghost(0),
        }
    }

    /// The stored items in increasing order.
    pub fn to_vec(&self) -> (entries: Entries)
        requires
            self.wf(),
        ensures
            lists_line(entries@, self.matrix(), self.axis(), self.line()),
            entries@.len() == line_items(self.matrix(), self.axis(), self.line()).len(),
    {
        let matrix = self.matrix;
        let mut entries: Entries = Vec::with_capacity(self.len());
        let mut cursor = self.cursor();
        proof {
            matrix.stored_positions();
            assert forall|k: int| #[trigger]
                matrix@.contains_key(place(self.axis, self.index as int, k)) implies k >= 0 by {
                let p = place(self.axis, self.index as int, k);
                assert(matrix@.contains_key((p.0, p.1)));
            }
            listing_starts(matrix@, self.axis, self.index as int);
        }
        loop
            invariant
                matrix.wf(),
                matrix == self.matrix,
                cursor.on(*matrix),
                cursor.line() == self.index,
                cursor.axis() == self.axis,
                listed_below(
                    entries@,
                    matrix@,
                    self.axis,
                    self.index as int,
                    cursor.from(),
                ),
            decreases cursor.left(*matrix),
        {
            let ghost from = cursor.from();
            match cursor.next(matrix) {
                None => {
                    proof {
                        listing_ends(entries@, matrix@, self.axis, self.index as int, from);
                        listed_length(entries@, matrix@, self.axis, self.index as int);
                    }
                    return entries;
                },
                Some(entry) => {
                    proof {
                        listing_grows(
                            entries@,
                            matrix@,
                            self.axis,
                            self.index as int,
                            from,
                            entry.0,
                            entry.1,
                        );
                    }
                    entries.push(entry);
                },
            }
        }
    }
}

impl Cursor {
    /// The cursor stands in a line of `matrix`. Changes of coefficients keep this.
    pub closed spec fn on(&self, matrix: LinkedMatrix) -> bool {
        &&& 0 <= self.line@ < (if self.axis {
            matrix.columns@.len()
        } else {
            matrix.rows@.len()
        })
        &&& 0 <= self.from@
        &&& first_from(matrix.nodes@, matrix.index@, self.axis, self.line@, self.from@, self.next)
    }

    pub closed spec fn line(&self) -> int {
        self.line@
    }

    pub closed spec fn axis(&self) -> bool {
        self.axis
    }

    /// Items below this one have been passed.
    pub closed spec fn from(&self) -> int {
        self.from@
    }

    /// Bounds how often the cursor can still advance.
    pub closed spec fn left(&self, matrix: LinkedMatrix) -> int {
        if self.axis {
            matrix.rows@.len() - self.from@
        } else {
            matrix.columns@.len() - self.from@
        }
    }

    /// Pass the next stored item.
    pub fn next(&mut self, matrix: &LinkedMatrix) -> (entry: Option<(usize, Real)>)
        requires
            matrix.wf(),
            old(self).on(*matrix),
        ensures
            final(self).on(*matrix),
            final(self).line() == old(self).line(),
            final(self).axis() == old(self).axis(),
            match entry {
                None => final(self).from() == old(self).from() && forall|k: int| #[trigger]
                    matrix@.contains_key(place(old(self).axis(), old(self).line(), k)) ==> k
                        < old(self).from(),
                Some((key, value)) => {
                    &&& key >= old(self).from()
                    &&& final(self).from() == key + 1
                    &&& 0 <= final(self).left(*matrix) < old(self).left(*matrix)
                    &&& matrix@.contains_key(place(old(self).axis(), old(self).line(), key as int))
                    &&& matrix@[place(old(self).axis(), old(self).line(), key as int)] == value
                    &&& forall|k: int| #[trigger]
                        matrix@.contains_key(place(old(self).axis(), old(self).line(), k)) ==> k
                            < old(self).from() || k >= key
                },
            },
    {
        let ghost axis = self.axis;
        let ghost i = self.line@;
        proof {
            assert forall|k: int| #[trigger] matrix@.contains_key(place(axis, i, k)) implies stored(
                matrix.index@,
                axis,
                i,
                k,
            ) by {}
        }
        if self.next == NONE {
            return None;
        }
        let at: u32 = self.next;
        let key: usize = matrix.key(at, self.axis);
        let value = matrix.nodes[at as usize].value;
        proof {
            assert(stored(matrix.index@, axis, i, key as int));
            assert(joined(matrix.nodes@, matrix.index@, axis, i, key as int));
        }
        self.next = matrix.next(at, self.axis);
        self.from = Ghost(key + 1);
        Some((key, value))
    }
}

impl LinkedMatrix {
    pub fn row(&self, row: usize) -> (line: Line<'_>)
        requires
            self.wf(),
            row < self.row_count(),
        ensures
            line.wf(),
            line.matrix() == self@,
            line.source() == *self,
            line.line() == row,
            !line.axis(),
    {
        Line { matrix: self, index: row, axis: false }
    }

    pub fn column(&self, col: usize) -> (line: Line<'_>)
        requires
            self.wf(),
            col < self.column_count(),
        ensures
            line.wf(),
            line.matrix() == self@,
            line.source() == *self,
            line.line() == col,
            line.axis(),
    {
        Line { matrix: self, index: col, axis: true }
    }

    /// Overwrite the coefficient of a node in place.
    fn assign(&mut self, at: u32, value: Real)
        requires
            old(self).wf(),
            at < old(self).nodes@.len(),
            !value.zero(),
            ({
                let node = old(self).nodes@[at as int];
                let p = (node.row as int, node.col as int);
                old(self).index@.contains_key(p) && old(self).index@[p] == at
            }),
        ensures
            final(self).wf(),
            ({
                let node = old(self).nodes@[at as int];
                let p = (node.row as int, node.col as int);
                final(self)@ == old(self)@.insert(p, value)
            }),
            final(self).index@ == old(self).index@,
            final(self).rows@ == old(self).rows@,
            final(self).columns@ == old(self).columns@,
            final(self).nnz == old(self).nnz,
            final(self).nodes@ == old(self).nodes@.update(
                at as int,
                (Node { value, ..old(self).nodes@[at as int] }),
            ),
    {
        let mut node = self.nodes[at as usize];
        node.value = value;
        self.nodes.set(at as usize, node);
        proof {
            let before = old(self).nodes@;
            let after = self.nodes@;
            let index = self.index@;
            values_do_not_matter(before, after, index, false);
            values_do_not_matter(before, after, index, true);
            one_node_per_position(before, index);
            let p = (node.row as int, node.col as int);
            assert(self@ =~= old(self)@.insert(p, value));
            assert(stacked(after, index, self.free, self.spare@)) by {
                assert forall|a: int| 0 <= a < self.spare@.len() implies index[p]
                    != #[trigger] self.spare@[a] by {}
            }
            assert(anchored(after, index, self.rows@, self.columns@.len(), false));
            assert(anchored(after, index, self.columns@, self.rows@.len(), true));
            assert forall|c: int| 0 <= c < self.columns@.len() implies (
            #[trigger] self.column_cursors@[c] == NONE || is_node(
                after,
                index,
                true,
                c,
                self.column_cursors@[c],
            )) by {
                assert(old(self).column_cursors@[c] == NONE || is_node(
                    before,
                    index,
                    true,
                    c,
                    old(self).column_cursors@[c],
                ));
            }
        }
    }

    /// Store a coefficient, or remove the position when the coefficient is zero.
    pub fn set(&mut self, row: usize, col: usize, value: Real)
        requires
            old(self).wf(),
            row < old(self).row_count(),
            col < old(self).column_count(),
            value.finite(),
            old(self)@.dom().len() < NONE,
        ensures
            final(self).wf(),
            final(self).row_count() == old(self).row_count(),
            final(self).column_count() == old(self).column_count(),
            final(self)@ == (if value.zero() {
                old(self)@.remove((row as int, col as int))
            } else {
                old(self)@.insert((row as int, col as int), value)
            }),
    {
        let at: u32 = self.position(false, row, col);
        proof {
            assert(self@.dom() =~= self.index@.dom());
            assert(place(false, row as int, col as int) == (row as int, col as int));
            assert(stored(self.index@, false, row as int, col as int) == self.index@.contains_key(
                (row as int, col as int),
            ));
        }
        if at != NONE && self.key(at, false) == col {
            if value.is_zero() {
                self.remove(at);
            } else {
                self.assign(at, value);
            }
        } else if !value.is_zero() {
            let column_at: u32 = self.column_position(col, row);
            self.insert(row, col, value, at, column_at);
        } else {
            assert(self@ =~= old(self)@.remove((row as int, col as int)));
        }
    }

    /// Empty a line from its head, returning its entries.
    fn remove_line(&mut self, axis: bool, index: usize) -> (entries: Entries)
        requires
            old(self).wf(),
            index < (if axis {
                old(self).column_count()
            } else {
                old(self).row_count()
            }),
        ensures
            final(self).wf(),
            final(self).row_count() == old(self).row_count(),
            final(self).column_count() == old(self).column_count(),
            lists_line(entries@, old(self)@, axis, index as int),
            final(self)@ == old(self)@.remove_keys(
                old(self)@.dom().filter(
                    |p: (int, int)| (if axis {
                        p.1
                    } else {
                        p.0
                    }) == index,
                ),
            ),
    {
        let ghost i = index as int;
        let ghost start = self@;
        let ghost limit = if axis {
            self.rows@.len()
        } else {
            self.columns@.len()
        };
        let mut entries: Entries = Vec::new();
        let ghost mut from: int = 0;
        let mut at: u32 = self.list(axis, index).head;
        proof {
            self.stored_positions();
            assert forall|k: int| #[trigger] start.contains_key(place(axis, i, k)) implies k >= 0 by {
                let p = place(axis, i, k);
                assert(start.contains_key((p.0, p.1)));
            }
            listing_starts(start, axis, i);
            reveal(trimmed);
        }
        while at != NONE
            invariant
                self.wf(),
                self.rows@.len() == old(self).rows@.len(),
                self.columns@.len() == old(self).columns@.len(),
                i == index,
                limit == (if axis {
                    self.rows@.len()
                } else {
                    self.columns@.len()
                }),
                0 <= from <= limit,
                first_from(self.nodes@, self.index@, axis, i, from, at),
                trimmed(self@, start, axis, i, from),
                listed_below(entries@, start, axis, i, from),
            decreases limit - from,
        {
            let key: usize = self.key(at, axis);
            let node = self.nodes[at as usize];
            proof {
                assert(stored(self.index@, axis, i, key as int));
                assert(place(axis, i, key as int) == (node.row as int, node.col as int));
                assert(self@.contains_key(place(axis, i, key as int)));
                assert forall|k: int| #[trigger] self@.contains_key(place(axis, i, k)) implies k
                    < from || k >= key by {
                    assert(stored(self.index@, axis, i, k));
                }
                trimming(self@, start, axis, i, from, key as int);
                listing_grows(entries@, start, axis, i, from, key, node.value);
                from = key + 1;
            }
            entries.push((key, node.value));
            self.remove(at);
            at = if axis {
                node.col_next
            } else {
                node.row_next
            };
        }
        proof {
            assert forall|k: int| !#[trigger] self@.contains_key(place(axis, i, k)) || k < from by {
                if self@.contains_key(place(axis, i, k)) {
                    assert(stored(self.index@, axis, i, k));
                }
            }
            trimmed_away(self@, start, axis, i, from);
            listing_ends(entries@, start, axis, i, from);
            assert(start.dom().filter(
                |p: (int, int)| (if axis {
                    p.1
                } else {
                    p.0
                }) == index,
            ) =~= start.dom().filter(
                |p: (int, int)| (if axis {
                    p.1
                } else {
                    p.0
                }) == i,
            ));
        }
        entries
    }

    /// Remove every coefficient of a row, returning them in column order.
    pub fn remove_row(&mut self, row: usize) -> (entries: Entries)
        requires
            old(self).wf(),
            row < old(self).row_count(),
        ensures
            final(self).wf(),
            final(self).row_count() == old(self).row_count(),
            final(self).column_count() == old(self).column_count(),
            lists_line(entries@, old(self)@, false, row as int),
            final(self)@ == old(self)@.remove_keys(
                old(self)@.dom().filter(|p: (int, int)| p.0 == row),
            ),
    {
        let entries = self.remove_line(false, row);
        proof {
            assert(old(self)@.dom().filter(|p: (int, int)| p.0 == row) =~= old(self)@.dom().filter(
                |p: (int, int)| (if false {
                    p.1
                } else {
                    p.0
                }) == row,
            ));
        }
        entries
    }

    /// Remove every coefficient of a column, returning them in row order.
    pub fn remove_column(&mut self, col: usize) -> (entries: Entries)
        requires
            old(self).wf(),
            col < old(self).column_count(),
        ensures
            final(self).wf(),
            final(self).row_count() == old(self).row_count(),
            final(self).column_count() == old(self).column_count(),
            lists_line(entries@, old(self)@, true, col as int),
            final(self)@ == old(self)@.remove_keys(
                old(self)@.dom().filter(|p: (int, int)| p.1 == col),
            ),
    {
        let entries = self.remove_line(true, col);
        proof {
            assert(old(self)@.dom().filter(|p: (int, int)| p.1 == col) =~= old(self)@.dom().filter(
                |p: (int, int)| (if true {
                    p.1
                } else {
                    p.0
                }) == col,
            ));
        }
        entries
    }
}

// ---- replacing rows ----

/// `new` is `old` with row `row` replaced by `entries`.
pub open spec fn row_replaced(
    new: Map<(int, int), Real>,
    old: Map<(int, int), Real>,
    row: int,
    entries: Seq<(usize, Real)>,
) -> bool {
    &&& lists_line(entries, new, false, row)
    &&& same_outside_row(new, old, row)
}

pub open spec fn same_outside_row(
    new: Map<(int, int), Real>,
    old: Map<(int, int), Real>,
    row: int,
) -> bool {
    forall|i: int, j: int|
        i != row ==> {
            &&& (#[trigger] new.contains_key((i, j)) <==> old.contains_key((i, j)))
            &&& new.contains_key((i, j)) ==> new[(i, j)] == old[(i, j)]
        }
}

/// The coefficient at a position appeared, disappeared or took another value.
pub open spec fn changes(
    old: Map<(int, int), Real>,
    new: Map<(int, int), Real>,
    row: int,
    col: int,
) -> bool {
    if old.contains_key((row, col)) && new.contains_key((row, col)) {
        !old[(row, col)].same(new[(row, col)])
    } else {
        old.contains_key((row, col)) || new.contains_key((row, col))
    }
}

impl LinkedMatrix {
    /// Store a coefficient given the first node of the row at or after its
    /// column. Returns what was stored there and the row's node after it.
    fn store(&mut self, row: usize, col: usize, value: Real, at: u32) -> (r: (Option<Real>, u32))
        requires
            old(self).wf(),
            row < old(self).rows@.len(),
            col < old(self).columns@.len(),
            !value.zero(),
            old(self).nnz < NONE,
            first_from(old(self).nodes@, old(self).index@, false, row as int, col as int, at),
        ensures
            final(self).wf(),
            final(self).rows@.len() == old(self).rows@.len(),
            final(self).columns@.len() == old(self).columns@.len(),
            final(self).nnz <= old(self).nnz + 1,
            final(self)@ == old(self)@.insert((row as int, col as int), value),
            r.0 == (if old(self)@.contains_key((row as int, col as int)) {
                Some(old(self)@[(row as int, col as int)])
            } else {
                None
            }),
            first_from(
                final(self).nodes@,
                final(self).index@,
                false,
                row as int,
                col + 1,
                r.1,
            ),
    {
        let ghost i = row as int;
        let ghost nodes0 = self.nodes@;
        let ghost index0 = self.index@;
        proof {
            self.row_items(i, col as int, at);
            assert(place(false, i, col as int) == (i, col as int));
        }
        if at != NONE && self.key(at, false) == col {
            let node = self.nodes[at as usize];
            proof {
                assert(stored(index0, false, i, col as int));
                assert(joined(nodes0, index0, false, i, col as int));
            }
            self.assign(at, value);
            proof {
                values_do_not_matter(nodes0, self.nodes@, index0, false);
            }
            (Some(node.value), node.row_next)
        } else {
            proof {
                if self.index@.contains_key((i, col as int)) {
                    assert(stored(self.index@, false, i, col as int));
                }
            }
            let column_at: u32 = self.column_position(col, row);
            self.insert(row, col, value, at, column_at);
            proof {
                assert forall|k: int| #[trigger] stored(self.index@, false, i, k) implies k == col
                    || stored(index0, false, i, k) by {}
                if at != NONE {
                    let k = nodes0[at as int].key(false);
                    assert(stored(index0, false, i, k));
                    assert(self.index@.remove((i, col as int)).contains_key((i, k)));
                    assert(stored(self.index@, false, i, k));
                    assert(node_at(self.index@, false, i, k) == at);
                }
            }
            (None, at)
        }
    }

    /// The matrix is sound and `at` is the first node of row `i` from column `from` on.
    #[verifier::opaque]
    pub(crate) closed spec fn walking(&self, i: int, from: int, at: u32) -> bool {
        &&& self.wf()
        &&& 0 <= i < self.rows@.len()
        &&& 0 <= from <= self.columns@.len()
        &&& first_from(self.nodes@, self.index@, false, i, from, at)
    }

    /// The column of the node a walk stands at.
    pub(crate) fn peek(&self, row: usize, at: u32, Ghost(from): Ghost<int>) -> (col: Option<usize>)
        requires
            self.walking(row as int, from, at),
        ensures
            match col {
                None => at == NONE && forall|k: int| #[trigger]
                    self@.contains_key((row as int, k)) ==> k < from,
                Some(key) => at != NONE && key >= from && self@.contains_key(
                    (row as int, key as int),
                ) && forall|k: int| #[trigger]
                    self@.contains_key((row as int, k)) ==> k < from || k >= key,
            },
    {
        proof {
            reveal(LinkedMatrix::walking);
            self.row_items(row as int, from, at);
        }
        if at == NONE {
            None
        } else {
            Some(self.key(at, false))
        }
    }

    /// Remove the node a walk stands at and step past it.
    pub(crate) fn take(&mut self, row: usize, at: u32, Ghost(from): Ghost<int>) -> (r: (usize, Real, u32))
        requires
            old(self).walking(row as int, from, at),
            at != NONE,
        ensures
            ({
                let (key, value, next) = r;
                &&& final(self).walking(row as int, key + 1, next)
                &&& key >= from
                &&& key < old(self).column_count()
                &&& final(self)@ == old(self)@.remove((row as int, key as int))
                &&& old(self)@.contains_key((row as int, key as int))
                &&& old(self)@[(row as int, key as int)] == value
                &&& forall|k: int| #[trigger]
                    old(self)@.contains_key((row as int, k)) ==> k < from || k >= key
            }),
            final(self).row_count() == old(self).row_count(),
            final(self).column_count() == old(self).column_count(),
            final(self).stored_count() < old(self).stored_count(),
    {
        proof {
            reveal(LinkedMatrix::walking);
            self.row_items(row as int, from, at);
        }
        let node = self.nodes[at as usize];
        self.remove(at);
        (node.col as usize, node.value, node.row_next)
    }

    /// Store a coefficient at or before the node a walk stands at, and step past it.
    pub(crate) fn put(
        &mut self,
        row: usize,
        col: usize,
        value: Real,
        at: u32,
        Ghost(from): Ghost<int>,
    ) -> (r: (Option<Real>, u32))
        requires
            old(self).walking(row as int, from, at),
            from <= col < old(self).column_count(),
            !value.zero(),
            old(self).stored_count() < NONE,
            forall|k: int| #[trigger]
                old(self)@.contains_key((row as int, k)) ==> k < from || k >= col,
        ensures
            final(self).walking(row as int, col + 1, r.1),
            final(self)@ == old(self)@.insert((row as int, col as int), value),
            r.0 == (if old(self)@.contains_key((row as int, col as int)) {
                Some(old(self)@[(row as int, col as int)])
            } else {
                None
            }),
            final(self).row_count() == old(self).row_count(),
            final(self).column_count() == old(self).column_count(),
            final(self).stored_count() <= old(self).stored_count() + 1,
    {
        proof {
            reveal(LinkedMatrix::walking);
            self.row_items(row as int, from, at);
            assert(first_from(self.nodes@, self.index@, false, row as int, col as int, at)) by {
                assert forall|k: int| #[trigger] stored(
                    self.index@,
                    false,
                    row as int,
                    k,
                ) implies k < from || k >= col by {
                    assert(place(false, row as int, k) == (row as int, k));
                    assert(self@.contains_key((row as int, k)));
                }
            }
        }
        self.store(row, col, value, at)
    }

    /// Store a coefficient behind everything in its row and its column.
    pub(crate) fn append(&mut self, row: usize, col: usize, value: Real)
        requires
            old(self).wf(),
            row < old(self).row_count(),
            col < old(self).column_count(),
            !value.zero(),
            old(self)@.dom().len() < NONE,
            forall|k: int| #[trigger] old(self)@.contains_key((row as int, k)) ==> k < col,
            forall|k: int| #[trigger] old(self)@.contains_key((k, col as int)) ==> k < row,
        ensures
            final(self).wf(),
            final(self).row_count() == old(self).row_count(),
            final(self).column_count() == old(self).column_count(),
            final(self)@ == old(self)@.insert((row as int, col as int), value),
    {
        proof {
            assert(self@.dom() =~= self.index@.dom());
            assert forall|k: int| #[trigger] stored(self.index@, false, row as int, k) implies k
                < col by {
                assert(place(false, row as int, k) == (row as int, k));
                assert(self@.contains_key((row as int, k)));
            }
            assert forall|k: int| #[trigger] stored(self.index@, true, col as int, k) implies k
                < row by {
                assert(place(true, col as int, k) == (k, col as int));
                assert(self@.contains_key((k, col as int)));
            }
            assert(!self.index@.contains_key((row as int, col as int))) by {
                if self.index@.contains_key((row as int, col as int)) {
                    assert(self@.contains_key((row as int, col as int)));
                }
            }
        }
        self.insert(row, col, value, NONE, NONE);
    }

    /// Start walking a row at its head.
    pub(crate) fn walk(&self, row: usize) -> (at: u32)
        requires
            self.wf(),
            row < self.row_count(),
        ensures
            self.walking(row as int, 0, at),
            self.stored_count() == self@.dom().len(),
    {
        proof {
            reveal(LinkedMatrix::walking);
            assert(self@.dom() =~= self.index@.dom());
        }
        self.rows[row].head
    }

    /// What a finished walk leaves.
    pub(crate) proof fn walked(&self, i: int, from: int)
        requires
            self.walking(i, from, NONE),
        ensures
            self.wf(),
            self.stored_count() == self@.dom().len(),
            forall|k: int| #[trigger] self@.contains_key((i, k)) ==> k < from,
    {
        reveal(LinkedMatrix::walking);
        self.row_items(i, from, NONE);
        assert(self@.dom() =~= self.index@.dom());
    }

    /// Number of stored coefficients, as the matrix counts them.
    pub(crate) closed spec fn stored_count(&self) -> nat {
        self.nnz as nat
    }

    /// What the first node at or after `from` says of the row.
    proof fn row_items(&self, i: int, from: int, at: u32)
        requires
            self.wf(),
            first_from(self.nodes@, self.index@, false, i, from, at),
        ensures
            at == NONE ==> forall|k: int| #[trigger] self@.contains_key((i, k)) ==> k < from,
            at != NONE ==> {
                let node = self.nodes@[at as int];
                &&& at < self.nodes@.len()
                &&& node.row == i
                &&& node.col >= from
                &&& node.col < self.columns@.len()
                &&& self.index@.contains_key((i, node.col as int))
                &&& self.index@[(i, node.col as int)] == at
                &&& self@.contains_key((i, node.col as int))
                &&& self@[(i, node.col as int)] == node.value
                &&& forall|k: int| #[trigger]
                    self@.contains_key((i, k)) ==> k < from || k >= node.col
            },
            forall|k: int| #[trigger]
                self@.contains_key(place(false, i, k)) == self@.contains_key((i, k)),
    {
        assert forall|k: int| #[trigger] self@.contains_key((i, k)) implies stored(
            self.index@,
            false,
            i,
            k,
        ) by {
            assert(place(false, i, k) == (i, k));
        }
        if at != NONE {
            let k = self.nodes@[at as int].col as int;
            assert(stored(self.index@, false, i, k));
            assert(place(false, i, k) == (i, k));
        }
    }
}

} // verus!
