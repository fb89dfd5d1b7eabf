//! Connected components of the coupling graph of a semidefinite block.

use crate::cone;
use vstd::prelude::*;

verus! {

/// Two indices are joined by a chain of edges: every labelling that is equal
/// across each edge gives them equal labels.
pub open spec fn connected(edge: spec_fn(int, int) -> bool, i: int, j: int) -> bool {
    forall|label: spec_fn(int) -> int| #[trigger] respects(label, edge) ==> label(i) == label(j)
}

pub open spec fn respects(label: spec_fn(int) -> int, edge: spec_fn(int, int) -> bool) -> bool {
    forall|a: int, b: int| #[trigger] edge(a, b) ==> label(a) == label(b)
}

/// Being connected is an equivalence that holds across every edge.
pub proof fn connection_is_an_equivalence(
    edge: spec_fn(int, int) -> bool,
    i: int,
    j: int,
    k: int,
)
    ensures
        connected(edge, i, i),
        connected(edge, i, j) ==> connected(edge, j, i),
        connected(edge, i, j) && connected(edge, j, k) ==> connected(edge, i, k),
        edge(i, j) ==> connected(edge, i, j),
{
    if edge(i, j) {
        assert forall|label: spec_fn(int) -> int| #[trigger] respects(label, edge) implies label(i)
            == label(j) by {}
    }
}

/// The edges of a packed upper triangle: row `a` and column `b` above the
/// diagonal are coupled when their coordinate is marked.
pub open spec fn triangle_edge(marks: Seq<bool>, order: int) -> spec_fn(int, int) -> bool {
    |a: int, b: int| 0 <= a < b < order && marks[cone::triangle(b) + a]
}

/// The edges among the coordinates before entry `(i, j)` in column-major order.
spec fn edges_before(marks: Seq<bool>, i: int, j: int) -> spec_fn(int, int) -> bool {
    |a: int, b: int|
        0 <= a < b && (b < j || (b == j && a < i)) && marks[cone::triangle(b) + a]
}

/// Labels agree exactly on connected indices, and each label names a member.
pub open spec fn labels_components(
    labels: Seq<usize>,
    edge: spec_fn(int, int) -> bool,
) -> bool {
    &&& forall|i: int| 0 <= i < labels.len() ==> (#[trigger] labels[i]) < labels.len()
    &&& forall|i: int| 0 <= i < labels.len() ==> labels[(#[trigger] labels[i]) as int] == labels[i]
    &&& forall|i: int, j: int|
        0 <= i < labels.len() && 0 <= j < labels.len() ==> (#[trigger] labels[i]
            == #[trigger] labels[j] <==> connected(edge, i, j))
}

/// `labels` is the state after merging the classes of the edges of `edge`.
spec fn merged(labels: Seq<usize>, edge: spec_fn(int, int) -> bool) -> bool {
    &&& forall|i: int| 0 <= i < labels.len() ==> (#[trigger] labels[i]) < labels.len()
    &&& forall|i: int| 0 <= i < labels.len() ==> labels[(#[trigger] labels[i]) as int] == labels[i]
    &&& forall|a: int, b: int| #[trigger]
        edge(a, b) ==> 0 <= a < labels.len() && 0 <= b < labels.len() && labels[a] == labels[b]
    &&& forall|label: spec_fn(int) -> int, i: int|
        #![trigger respects(label, edge), labels[i]]
        respects(label, edge) && 0 <= i < labels.len() ==> label(i) == label(labels[i] as int)
}

proof fn merged_labels(labels: Seq<usize>, edge: spec_fn(int, int) -> bool)
    requires
        merged(labels, edge),
    ensures
        labels_components(labels, edge),
{
    let own = |i: int|
        if 0 <= i < labels.len() {
            labels[i] as int
        } else {
            -1
        };
    assert(respects(own, edge));
    assert forall|i: int, j: int| 0 <= i < labels.len() && 0 <= j < labels.len() implies (
    #[trigger] labels[i] == #[trigger] labels[j] <==> connected(edge, i, j)) by {
        if labels[i] == labels[j] {
            assert forall|label: spec_fn(int) -> int| #[trigger] respects(
                label,
                edge,
            ) implies label(i) == label(j) by {
                assert(label(i) == label(labels[i] as int));
                assert(label(j) == label(labels[j] as int));
            }
        } else {
            assert(own(i) != own(j));
        }
    }
}

/// Rename class `from` to class `to`.
fn merge(labels: &mut Vec<usize>, to: usize, from: usize)
    ensures
        final(labels)@.len() == old(labels)@.len(),
        forall|k: int|
            0 <= k < final(labels)@.len() ==> #[trigger] final(labels)@[k] == (if old(labels)@[k]
                == from {
                to
            } else {
                old(labels)@[k]
            }),
{
    let mut k: usize = 0;
    while k < labels.len()
        invariant
            k <= labels@.len(),
            labels@.len() == old(labels)@.len(),
            forall|l: int|
                0 <= l < k ==> #[trigger] labels@[l] == (if old(labels)@[l] == from {
                    to
                } else {
                    old(labels)@[l]
                }),
            forall|l: int| k <= l < labels@.len() ==> #[trigger] labels@[l] == old(labels)@[l],
        decreases labels@.len() - k,
    {
        if labels[k] == from {
            labels.set(k, to);
        }
        k = k + 1;
    }
}

proof fn merging_keeps(
    before: Seq<usize>,
    after: Seq<usize>,
    less: spec_fn(int, int) -> bool,
    more: spec_fn(int, int) -> bool,
    i: int,
    j: int,
)
    requires
        merged(before, less),
        0 <= i < before.len(),
        0 <= j < before.len(),
        after.len() == before.len(),
        forall|k: int|
            0 <= k < after.len() ==> #[trigger] after[k] == (if before[k] == before[j] {
                before[i]
            } else {
                before[k]
            }),
        forall|a: int, b: int| #[trigger] more(a, b) <==> less(a, b) || (a == i && b == j),
    ensures
        merged(after, more),
{
    assert forall|k: int| 0 <= k < after.len() implies after[(#[trigger] after[k]) as int]
        == after[k] by {
        assert(before[before[k] as int] == before[k]);
        assert(before[before[i] as int] == before[i]);
    }
    assert forall|label: spec_fn(int) -> int, k: int|
        #![trigger respects(label, more), after[k]]
        respects(label, more) && 0 <= k < after.len() implies label(k) == label(after[k] as int) by {
        assert(respects(label, less)) by {
            assert forall|a: int, b: int| #[trigger] less(a, b) implies label(a) == label(b) by {
                assert(more(a, b));
            }
        }
        assert(more(i, j));
        assert(label(i) == label(j));
        assert(label(i) == label(before[i] as int));
        assert(label(j) == label(before[j] as int));
        assert(label(k) == label(before[k] as int));
    }
    assert forall|a: int, b: int| #[trigger] more(a, b) implies 0 <= a < after.len() && 0 <= b
        < after.len() && after[a] == after[b] by {
        if less(a, b) {
            assert(before[a] == before[b]);
        }
    }
}

proof fn same_edges_merged(
    labels: Seq<usize>,
    less: spec_fn(int, int) -> bool,
    more: spec_fn(int, int) -> bool,
)
    requires
        merged(labels, less),
        forall|a: int, b: int| #[trigger] more(a, b) <==> less(a, b),
    ensures
        merged(labels, more),
{
    assert forall|a: int, b: int| #[trigger] more(a, b) implies 0 <= a < labels.len() && 0 <= b
        < labels.len() && labels[a] == labels[b] by {
        assert(less(a, b));
    }
    assert forall|label: spec_fn(int) -> int, k: int|
        #![trigger respects(label, more), labels[k]]
        respects(label, more) && 0 <= k < labels.len() implies label(k) == label(
        labels[k] as int,
    ) by {
        assert(respects(label, less)) by {
            assert forall|a: int, b: int| #[trigger] less(a, b) implies label(a) == label(b) by {
                assert(more(a, b));
            }
        }
    }
}

/// Label the connected components of a semidefinite block. `marks` tells, for
/// each coordinate of the packed upper triangle, whether it is coupled.
pub fn component_labels(order: usize, marks: &Vec<bool>) -> (labels: Vec<usize>)
    requires
        marks@.len() == cone::triangle(order as int),
    ensures
        labels@.len() == order,
        labels_components(labels@, triangle_edge(marks@, order as int)),
{
    let mut labels: Vec<usize> = Vec::new();
    let mut j: usize = 0;
    while j < order
        invariant
            j <= order,
            labels@.len() == j,
            forall|i: int| 0 <= i < j ==> #[trigger] labels@[i] == i,
        decreases order - j,
    {
        labels.push(j);
        j = j + 1;
    }
    let mut k: usize = 0;
    j = 0;
    proof {
        assert(merged(labels@, edges_before(marks@, 0, 0)));
        assert(marks.len() == marks@.len());
    }
    while j < order
        invariant
            j <= order,
            labels@.len() == order,
            marks@.len() == cone::triangle(order as int),
            marks@.len() <= usize::MAX,
            k == cone::triangle(j as int),
            merged(labels@, edges_before(marks@, 0, j as int)),
        decreases order - j,
    {
        let mut i: usize = 0;
        proof {
            cone::triangle_step(j as int);
            cone::triangle_monotone(j + 1, order as int);
        }
        while i < j
            invariant
                i <= j < order,
                labels@.len() == order,
                marks@.len() <= usize::MAX,
                k == cone::triangle(j as int) + i,
                cone::triangle(j as int) + j < marks@.len(),
                merged(labels@, edges_before(marks@, i as int, j as int)),
            decreases j - i,
        {
            let ghost before = labels@;
            let ghost less = edges_before(marks@, i as int, j as int);
            let ghost more = edges_before(marks@, i + 1, j as int);
            if marks[k] {
                let to: usize = labels[i];
                let from: usize = labels[j];
                merge(&mut labels, to, from);
                proof {
                    merging_keeps(before, labels@, less, more, i as int, j as int);
                }
            } else {
                proof {
                    same_edges_merged(labels@, less, more);
                }
            }
            i = i + 1;
            k = k + 1;
        }
        k = k + 1;
        proof {
            same_edges_merged(
                labels@,
                edges_before(marks@, j as int, j as int),
                edges_before(marks@, 0, j + 1),
            );
        }
        j = j + 1;
    }
    proof {
        same_edges_merged(
            labels@,
            edges_before(marks@, 0, order as int),
            triangle_edge(marks@, order as int),
        );
        merged_labels(labels@, triangle_edge(marks@, order as int));
    }
    labels
}

/// The members of one class among the first `n` indices, in order.
pub open spec fn members(labels: Seq<usize>, label: usize, n: nat) -> Seq<usize>
    decreases n,
{
    if n == 0 {
        Seq::empty()
    } else if labels[n - 1] == label {
        members(labels, label, (n - 1) as nat).push((n - 1) as usize)
    } else {
        members(labels, label, (n - 1) as nat)
    }
}

/// The nonempty classes with labels below `bound`, by increasing label.
pub open spec fn classes(labels: Seq<usize>, bound: nat) -> Seq<Seq<usize>>
    decreases bound,
{
    if bound == 0 {
        Seq::empty()
    } else {
        let before = classes(labels, (bound - 1) as nat);
        let last = members(labels, (bound - 1) as usize, labels.len());
        if last.len() == 0 {
            before
        } else {
            before.push(last)
        }
    }
}

/// Members are increasing, in range, and exactly the indices with the label.
pub proof fn members_are_exact(labels: Seq<usize>, label: usize, n: nat)
    requires
        n <= labels.len(),
        labels.len() <= usize::MAX,
    ensures
        forall|a: int, b: int|
            0 <= a < b < members(labels, label, n).len() ==> (
            #[trigger] members(labels, label, n)[a]) < (#[trigger] members(labels, label, n)[b]),
        forall|a: int|
            0 <= a < members(labels, label, n).len() ==> (#[trigger] members(labels, label, n)[a])
                < n && labels[members(labels, label, n)[a] as int] == label,
        forall|i: int|
            0 <= i < n && #[trigger] labels[i] == label ==> members(labels, label, n).contains(
                i as usize,
            ),
    decreases n,
{
    if n > 0 {
        members_are_exact(labels, label, (n - 1) as nat);
        let before = members(labels, label, (n - 1) as nat);
        let after = members(labels, label, n);
        assert forall|i: int| 0 <= i < n && #[trigger] labels[i] == label implies after.contains(
            i as usize,
        ) by {
            if i < n - 1 {
                assert(before.contains(i as usize));
                let a = choose|a: int| 0 <= a < before.len() && before[a] == i as usize;
                assert(after[a] == i as usize);
            } else {
                assert(after[before.len() as int] == i as usize);
            }
        }
    }
}

/// Collect the classes of a labelling, by increasing label. Labels that are no
/// index have no class.
pub fn group_labels(labels: &Vec<usize>) -> (groups: Vec<Vec<usize>>)
    ensures
        groups@.len() == classes(labels@, labels@.len()).len(),
        forall|g: int|
            0 <= g < groups@.len() ==> (#[trigger] groups@[g])@ == classes(
                labels@,
                labels@.len(),
            )[g],
{
    let mut buckets: Vec<Vec<usize>> = Vec::new();
    let mut at: usize = 0;
    while at < labels.len()
        invariant
            at <= labels@.len(),
            buckets@.len() == at,
            forall|b: int| 0 <= b < at ==> (#[trigger] buckets@[b])@ == Seq::<usize>::empty(),
        decreases labels@.len() - at,
    {
        buckets.push(Vec::new());
        at = at + 1;
    }
    let mut i: usize = 0;
    while i < labels.len()
        invariant
            i <= labels@.len(),
            buckets@.len() == labels@.len(),
            forall|b: int|
                0 <= b < buckets@.len() ==> (#[trigger] buckets@[b])@ == members(
                    labels@,
                    b as usize,
                    i as nat,
                ),
        decreases labels@.len() - i,
    {
        let label: usize = labels[i];
        let ghost before = buckets@;
        if label < buckets.len() {
            let mut bucket: Vec<usize> = Vec::new();
            std::mem::swap(&mut bucket, &mut buckets[label]);
            bucket.push(i);
            buckets.set(label, bucket);
        }
        proof {
            assert forall|b: int| 0 <= b < buckets@.len() implies (#[trigger] buckets@[b])@
                == members(labels@, b as usize, (i + 1) as nat) by {
                assert(before[b]@ == members(labels@, b as usize, i as nat));
                assert(b == label <==> b as usize == label);
            }
        }
        i = i + 1;
    }
    let mut groups: Vec<Vec<usize>> = Vec::new();
    let mut b: usize = 0;
    while b < buckets.len()
        invariant
            b <= buckets@.len(),
            buckets@.len() == labels@.len(),
            forall|c: int|
                b <= c < buckets@.len() ==> (#[trigger] buckets@[c])@ == members(
                    labels@,
                    c as usize,
                    labels@.len(),
                ),
            groups@.len() == classes(labels@, b as nat).len(),
            forall|g: int|
                0 <= g < groups@.len() ==> (#[trigger] groups@[g])@ == classes(labels@, b as nat)[g],
        decreases buckets@.len() - b,
    {
        let ghost before = groups@;
        let mut bucket: Vec<usize> = Vec::new();
        std::mem::swap(&mut bucket, &mut buckets[b]);
        if bucket.len() > 0 {
            groups.push(bucket);
        }
        b = b + 1;
        proof {
            assert forall|g: int| 0 <= g < groups@.len() implies (#[trigger] groups@[g])@
                == classes(labels@, b as nat)[g] by {
                if g < before.len() {
                    assert(groups@[g] == before[g]);
                }
            }
        }
    }
    groups
}

} // verus!
