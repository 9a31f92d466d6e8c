//! 8-connected labelling of the solid cells.
use vstd::prelude::*;

use crate::grid::{col, idx, in_bounds, lemma_idx_bounds, lemma_idx_roundtrip, n8, neighbor8, row, Cell, Grid, GRID_CELLS, GRID_H, GRID_W};

verus! {

/// The label at the `d`-th neighbour of flat index `i` agrees with `i`'s, if
/// that neighbour is an on-board solid.
pub open spec fn nbr_ok(cells: Seq<Cell>, labels: Seq<Option<usize>>, i: int, d: int) -> bool {
    let nx = col(i) + n8(d).0;
    let ny = row(i) + n8(d).1;
    in_bounds(nx, ny) && cells[idx(nx, ny)] == Cell::Solid ==> labels[idx(nx, ny)] == labels[i]
}

/// `labels` marks exactly the solids, and 8-adjacent solids share a label.
pub open spec fn components_valid(cells: Seq<Cell>, labels: Seq<Option<usize>>) -> bool {
    &&& labels.len() == GRID_CELLS
    &&& cells.len() == GRID_CELLS
    &&& forall|i: int| 0 <= i < GRID_CELLS ==> ((#[trigger] labels[i]) is Some <==> cells[i] == Cell::Solid)
    &&& forall|i: int, d: int|
        0 <= i < GRID_CELLS && 0 <= d < 8 && labels[i] is Some ==> #[trigger] nbr_ok(cells, labels, i, d)
}

/// Number of labelled entries.
pub open spec fn count_labelled(s: Seq<Option<usize>>) -> nat
    decreases s.len(),
{
    if s.len() == 0 {
        0
    } else {
        count_labelled(s.drop_last()) + if s.last() is Some {
            1nat
        } else {
            0nat
        }
    }
}

proof fn lemma_count_labelled_none(s: Seq<Option<usize>>)
    requires
        forall|i: int| 0 <= i < s.len() ==> s[i] is None,
    ensures
        count_labelled(s) == 0,
    decreases s.len(),
{
    if s.len() > 0 {
        lemma_count_labelled_none(s.drop_last());
    }
}

proof fn lemma_count_labelled_le(s: Seq<Option<usize>>)
    ensures
        count_labelled(s) <= s.len(),
    decreases s.len(),
{
    if s.len() > 0 {
        lemma_count_labelled_le(s.drop_last());
    }
}

proof fn lemma_count_labelled_set(s: Seq<Option<usize>>, i: int, v: usize)
    requires
        0 <= i < s.len(),
        s[i] is None,
    ensures
        count_labelled(s.update(i, Some(v))) == count_labelled(s) + 1,
    decreases s.len(),
{
    let t = s.update(i, Some(v));
    if i == s.len() - 1 {
        assert(t.drop_last() =~= s.drop_last());
    } else {
        assert(t.drop_last() =~= s.drop_last().update(i, Some(v)));
        lemma_count_labelled_set(s.drop_last(), i, v);
    }
}

proof fn lemma_pop_not_contains(s: Seq<usize>, c: usize)
    requires
        s.push(c).no_duplicates(),
    ensures
        !s.contains(c),
        s.no_duplicates(),
{
    let t = s.push(c);
    if s.contains(c) {
        let k = choose|k: int| 0 <= k < s.len() && s[k] == c;
        assert(t[k] == t[s.len() as int]);
    }
    assert forall|a: int, b: int| 0 <= a < s.len() && 0 <= b < s.len() && a != b implies s[a] != s[b] by {
        assert(t[a] == s[a] && t[b] == s[b]);
    }
}

/// The direction opposite to neighbour direction `d`.
pub open spec fn opposite(d: int) -> int {
    (d + 4) % 8
}

proof fn lemma_opposite(d: int)
    requires
        0 <= d < 8,
    ensures
        0 <= opposite(d) < 8,
        n8(opposite(d)).0 == -n8(d).0,
        n8(opposite(d)).1 == -n8(d).1,
{
}

proof fn lemma_nbr_ok_after_set(cells: Seq<Cell>, labels: Seq<Option<usize>>, n: int, v: usize, i: int, d: int)
    requires
        labels.len() == GRID_CELLS,
        cells.len() == GRID_CELLS,
        0 <= n < GRID_CELLS,
        labels[n] is None,
        0 <= i < GRID_CELLS,
        i != n,
        0 <= d < 8,
        labels[i] is Some,
        nbr_ok(cells, labels, i, d),
    ensures
        nbr_ok(cells, labels.update(n, Some(v)), i, d),
{
    let nx = col(i) + n8(d).0;
    let ny = row(i) + n8(d).1;
    if in_bounds(nx, ny) {
        lemma_idx_bounds(nx, ny);
    }
}


/// Every flat index outside the pending ones (the stack and `c`) is closed:
/// its solid neighbours carry its label.
pub open spec fn closed_except(cells: Seq<Cell>, labels: Seq<Option<usize>>, stack: Seq<usize>, c: int) -> bool {
    forall|i: int, d: int|
        0 <= i < GRID_CELLS && 0 <= d < 8 && labels[i] is Some && i != c && !stack.contains(i as usize)
            ==> #[trigger] nbr_ok(cells, labels, i, d)
}

/// Labels only sit on solids.
pub open spec fn labels_on_solids(cells: Seq<Cell>, labels: Seq<Option<usize>>) -> bool {
    forall|i: int| 0 <= i < GRID_CELLS && (#[trigger] labels[i]) is Some ==> cells[i] == Cell::Solid
}

/// Every solid before flat index `k` is labelled.
pub open spec fn scanned(cells: Seq<Cell>, labels: Seq<Option<usize>>, k: int) -> bool {
    forall|i: int| 0 <= i < k && #[trigger] cells[i] == Cell::Solid ==> labels[i] is Some
}

/// Every label is at most `top`.
pub open spec fn labels_upto(labels: Seq<Option<usize>>, top: int) -> bool {
    forall|i: int| 0 <= i < GRID_CELLS && (#[trigger] labels[i]) is Some ==> labels[i]->0 <= top
}

/// Every stacked index is on the board and labelled `id`, once.
pub open spec fn stack_ok(labels: Seq<Option<usize>>, stack: Seq<usize>, id: usize) -> bool {
    &&& stack.no_duplicates()
    &&& forall|t: int| 0 <= t < stack.len() ==> #[trigger] stack[t] < GRID_CELLS && labels[stack[t] as int] == Some(id)
}

proof fn lemma_closed_start(cells: Seq<Cell>, labels: Seq<Option<usize>>, k: int, id: usize)
    requires
        cells.len() == GRID_CELLS,
        labels.len() == GRID_CELLS,
        0 <= k < GRID_CELLS,
        labels[k] is None,
        closed_except(cells, labels, Seq::empty(), -1),
    ensures
        closed_except(cells, labels.update(k, Some(id)), seq![k as usize], -1),
{
    let l2 = labels.update(k, Some(id));
    let st = seq![k as usize];
    assert forall|i: int, d: int|
        0 <= i < GRID_CELLS && 0 <= d < 8 && l2[i] is Some && i != -1 && !st.contains(i as usize)
            implies #[trigger] nbr_ok(cells, l2, i, d) by {
        if i == k {
            assert(st[0] == k as usize);
        }
        assert(!Seq::<usize>::empty().contains(i as usize));
        assert(nbr_ok(cells, labels, i, d));
        lemma_nbr_ok_after_set(cells, labels, k, id, i, d);
    }
}

proof fn lemma_closed_pop(cells: Seq<Cell>, labels: Seq<Option<usize>>, stack: Seq<usize>, c: usize)
    requires
        closed_except(cells, labels, stack.push(c), -1),
    ensures
        closed_except(cells, labels, stack, c as int),
{
    assert forall|i: int, d: int|
        0 <= i < GRID_CELLS && 0 <= d < 8 && labels[i] is Some && i != c as int && !stack.contains(i as usize)
            implies #[trigger] nbr_ok(cells, labels, i, d) by {
        if stack.push(c).contains(i as usize) {
            let t = choose|t: int| 0 <= t < stack.push(c).len() && stack.push(c)[t] == i as usize;
            if t < stack.len() {
                assert(stack[t] == i as usize);
            }
        }
    }
}

proof fn lemma_closed_push(
    cells: Seq<Cell>,
    labels: Seq<Option<usize>>,
    stack: Seq<usize>,
    c: int,
    n: int,
    id: usize,
)
    requires
        cells.len() == GRID_CELLS,
        labels.len() == GRID_CELLS,
        0 <= n < GRID_CELLS,
        labels[n] is None,
        closed_except(cells, labels, stack, c),
    ensures
        closed_except(cells, labels.update(n, Some(id)), stack.push(n as usize), c),
{
    let l2 = labels.update(n, Some(id));
    let s2 = stack.push(n as usize);
    assert forall|i: int, d: int|
        0 <= i < GRID_CELLS && 0 <= d < 8 && l2[i] is Some && i != c && !s2.contains(i as usize)
            implies #[trigger] nbr_ok(cells, l2, i, d) by {
        if i == n {
            assert(s2[stack.len() as int] == n as usize);
        }
        if stack.contains(i as usize) {
            let t = choose|t: int| 0 <= t < stack.len() && stack[t] == i as usize;
            assert(s2[t] == i as usize);
        }
        assert(nbr_ok(cells, labels, i, d));
        lemma_nbr_ok_after_set(cells, labels, n, id, i, d);
    }
}

proof fn lemma_closed_done(cells: Seq<Cell>, labels: Seq<Option<usize>>, stack: Seq<usize>, c: int)
    requires
        closed_except(cells, labels, stack, c),
        forall|e: int| 0 <= e < 8 ==> #[trigger] nbr_ok(cells, labels, c, e),
    ensures
        closed_except(cells, labels, stack, -1),
{
}

proof fn lemma_push_stack_ok(labels: Seq<Option<usize>>, stack: Seq<usize>, n: int, id: usize)
    requires
        labels.len() == GRID_CELLS,
        0 <= n < GRID_CELLS,
        labels[n] is None,
        stack_ok(labels, stack, id),
    ensures
        stack_ok(labels.update(n, Some(id)), stack.push(n as usize), id),
{
    let l2 = labels.update(n, Some(id));
    let s2 = stack.push(n as usize);
    assert(!stack.contains(n as usize)) by {
        if stack.contains(n as usize) {
            let t = choose|t: int| 0 <= t < stack.len() && stack[t] == n as usize;
            assert(labels[stack[t] as int] == Some(id));
        }
    }
    assert forall|a: int, b: int| 0 <= a < s2.len() && 0 <= b < s2.len() && a != b implies s2[a] != s2[b] by {
        if a == stack.len() {
            assert(stack.contains(stack[b]));
        } else if b == stack.len() {
            assert(stack.contains(stack[a]));
        }
    }
    assert forall|t: int| 0 <= t < s2.len() implies #[trigger] s2[t] < GRID_CELLS && l2[s2[t] as int] == Some(id) by {
        if t < stack.len() {
            assert(s2[t] == stack[t]);
        }
    }
}

proof fn lemma_update_keeps_facts(cells: Seq<Cell>, labels: Seq<Option<usize>>, n: int, id: usize, k: int)
    requires
        cells.len() == GRID_CELLS,
        labels.len() == GRID_CELLS,
        0 <= n < GRID_CELLS,
        cells[n] == Cell::Solid,
        id as int <= k,
        k <= GRID_CELLS,
        labels_on_solids(cells, labels),
        scanned(cells, labels, k),
        labels_upto(labels, id as int),
    ensures
        labels_on_solids(cells, labels.update(n, Some(id))),
        scanned(cells, labels.update(n, Some(id)), k),
        labels_upto(labels.update(n, Some(id)), id as int),
{
    let l2 = labels.update(n, Some(id));
    assert forall|i: int| 0 <= i < GRID_CELLS && (#[trigger] l2[i]) is Some implies cells[i] == Cell::Solid by {
        if i != n {
            assert(labels[i] is Some);
        }
    }
    assert forall|i: int| 0 <= i < k && #[trigger] cells[i] == Cell::Solid implies l2[i] is Some by {
        if i != n {
            assert(labels[i] is Some);
        }
    }
    assert forall|i: int| 0 <= i < GRID_CELLS && (#[trigger] l2[i]) is Some implies l2[i]->0 <= id by {
        if i != n {
            assert(labels[i] is Some);
        }
    }
}

/// Flat indices `a` and `b` are 8-neighbouring board cells.
pub open spec fn touching(a: int, b: int) -> bool {
    &&& 0 <= a < GRID_CELLS
    &&& 0 <= b < GRID_CELLS
    &&& exists|d: int| 0 <= d < 8 && col(a) + n8(d).0 == col(b) && row(a) + n8(d).1 == row(b)
}

/// `p` walks over solid cells, each step to an 8-neighbour.
pub open spec fn solid_path(cells: Seq<Cell>, p: Seq<int>) -> bool {
    &&& p.len() > 0
    &&& forall|t: int| 0 <= t < p.len() ==> 0 <= #[trigger] p[t] < GRID_CELLS && cells[p[t]] == Cell::Solid
    &&& forall|t: int| 0 <= t < p.len() - 1 ==> touching(#[trigger] p[t], p[t + 1])
}

/// Solid cells `a` and `b` belong to the same 8-connected mass.
pub open spec fn linked(cells: Seq<Cell>, a: int, b: int) -> bool {
    exists|p: Seq<int>| #[trigger] solid_path(cells, p) && p[0] == a && p.last() == b
}

/// Every labelled cell is linked to the cell its label started from.
pub open spec fn linked_to_seeds(cells: Seq<Cell>, labels: Seq<Option<usize>>, seeds: Seq<int>) -> bool {
    forall|i: int|
        0 <= i < GRID_CELLS && (#[trigger] labels[i]) is Some ==> labels[i]->0 < seeds.len() && linked(
            cells,
            seeds[labels[i]->0 as int],
            i,
        )
}

proof fn lemma_touching_symmetric(a: int, b: int)
    requires
        touching(a, b),
    ensures
        touching(b, a),
{
    let d = choose|d: int| 0 <= d < 8 && col(a) + n8(d).0 == col(b) && row(a) + n8(d).1 == row(b);
    lemma_opposite(d);
    assert(col(b) + n8(opposite(d)).0 == col(a) && row(b) + n8(opposite(d)).1 == row(a));
}

proof fn lemma_linked_self(cells: Seq<Cell>, k: int)
    requires
        0 <= k < GRID_CELLS,
        cells[k] == Cell::Solid,
    ensures
        linked(cells, k, k),
{
    let p = seq![k];
    assert(solid_path(cells, p));
}

proof fn lemma_linked_step(cells: Seq<Cell>, a: int, c: int, n: int)
    requires
        linked(cells, a, c),
        touching(c, n),
        cells[n] == Cell::Solid,
    ensures
        linked(cells, a, n),
{
    let p = choose|p: Seq<int>| #[trigger] solid_path(cells, p) && p[0] == a && p.last() == c;
    let q = p.push(n);
    assert forall|t: int| 0 <= t < q.len() - 1 implies touching(#[trigger] q[t], q[t + 1]) by {
        if t < p.len() - 1 {
            assert(q[t] == p[t] && q[t + 1] == p[t + 1]);
        } else {
            assert(q[t] == c && q[t + 1] == n);
        }
    }
    assert(solid_path(cells, q));
    assert(q[0] == a && q.last() == n);
}

/// Two cells linked to a common cell are linked to each other.
proof fn lemma_linked_join(cells: Seq<Cell>, s: int, i: int, j: int)
    requires
        linked(cells, s, i),
        linked(cells, s, j),
    ensures
        linked(cells, i, j),
{
    let p1 = choose|p: Seq<int>| #[trigger] solid_path(cells, p) && p[0] == s && p.last() == i;
    let p2 = choose|p: Seq<int>| #[trigger] solid_path(cells, p) && p[0] == s && p.last() == j;
    let r = p1.reverse();
    let q = r + p2.drop_first();
    assert forall|t: int| 0 <= t < q.len() implies 0 <= #[trigger] q[t] < GRID_CELLS && cells[q[t]] == Cell::Solid by {
        if t < r.len() {
            assert(q[t] == p1[p1.len() - 1 - t]);
        } else {
            assert(q[t] == p2[t - r.len() + 1]);
        }
    }
    assert forall|t: int| 0 <= t < q.len() - 1 implies touching(#[trigger] q[t], q[t + 1]) by {
        if t < r.len() - 1 {
            let u = p1.len() - 2 - t;
            assert(q[t] == p1[u + 1] && q[t + 1] == p1[u]);
            assert(touching(p1[u], p1[u + 1]));
            lemma_touching_symmetric(p1[u], p1[u + 1]);
        } else if t == r.len() - 1 {
            assert(q[t] == p1[0]);
            assert(q[t + 1] == p2[1]);
            assert(touching(p2[0], p2[1]));
        } else {
            let u = t - r.len() + 1;
            assert(q[t] == p2[u] && q[t + 1] == p2[u + 1]);
        }
    }
    assert(solid_path(cells, q));
    assert(q[0] == i);
    if p2.len() == 1 {
        assert(q.last() == p1[0]);
    } else {
        assert(q.last() == p2.last());
    }
}

/// Labelling one more cell `n` with `v`, when `n` is linked to `v`'s seed,
/// keeps every label linked to its seed.
proof fn lemma_seeds_after_set(cells: Seq<Cell>, labels: Seq<Option<usize>>, seeds: Seq<int>, n: int, v: usize)
    requires
        labels.len() == GRID_CELLS,
        0 <= n < GRID_CELLS,
        v < seeds.len(),
        linked_to_seeds(cells, labels, seeds),
        linked(cells, seeds[v as int], n),
    ensures
        linked_to_seeds(cells, labels.update(n, Some(v)), seeds),
{
    let l2 = labels.update(n, Some(v));
    assert forall|i: int| 0 <= i < GRID_CELLS && (#[trigger] l2[i]) is Some implies l2[i]->0 < seeds.len() && linked(
        cells,
        seeds[l2[i]->0 as int],
        i,
    ) by {
        if i != n {
            assert(labels[i] is Some);
        }
    }
}

proof fn lemma_seeds_push(cells: Seq<Cell>, labels: Seq<Option<usize>>, seeds: Seq<int>, k: int)
    requires
        linked_to_seeds(cells, labels, seeds),
    ensures
        linked_to_seeds(cells, labels, seeds.push(k)),
{
    assert forall|i: int| 0 <= i < GRID_CELLS && (#[trigger] labels[i]) is Some implies labels[i]->0 < seeds.push(
        k,
    ).len() && linked(cells, seeds.push(k)[labels[i]->0 as int], i) by {
        assert(seeds.push(k)[labels[i]->0 as int] == seeds[labels[i]->0 as int]);
    }
}

/// Cells with the same label belong to the same 8-connected mass.
pub open spec fn labels_linked(cells: Seq<Cell>, labels: Seq<Option<usize>>) -> bool {
    forall|i: int, j: int|
        0 <= i < GRID_CELLS && 0 <= j < GRID_CELLS && (#[trigger] labels[i]) is Some && labels[i] == #[trigger] labels[j]
            ==> linked(cells, i, j)
}

/// Equal labels mean the same 8-connected mass.
proof fn lemma_same_label_linked(cells: Seq<Cell>, labels: Seq<Option<usize>>, seeds: Seq<int>)
    requires
        labels.len() == GRID_CELLS,
        linked_to_seeds(cells, labels, seeds),
    ensures
        labels_linked(cells, labels),
{
    assert forall|i: int, j: int|
        0 <= i < GRID_CELLS && 0 <= j < GRID_CELLS && (#[trigger] labels[i]) is Some && labels[i] == #[trigger] labels[j]
            implies linked(cells, i, j) by {
        let id = labels[i]->0 as int;
        assert(labels[j] is Some);
        lemma_linked_join(cells, seeds[id], i, j);
    }
}

/// Flat index `i` carries a label that no earlier index carries.
pub open spec fn first_label(labels: Seq<Option<usize>>, i: int) -> bool {
    &&& labels[i] is Some
    &&& forall|h: int| 0 <= h < i ==> #[trigger] labels[h] != labels[i]
}

/// How many labels first appear before flat index `n`.
pub open spec fn first_count(labels: Seq<Option<usize>>, n: int) -> nat
    decreases n,
{
    if n <= 0 {
        0
    } else {
        first_count(labels, n - 1) + if first_label(labels, n - 1) {
            1nat
        } else {
            0nat
        }
    }
}

/// Below flat index `k`, each label first appears with the id that counts
/// the labels seen before it.
pub open spec fn ordered_upto(labels: Seq<Option<usize>>, k: int) -> bool {
    forall|i: int| 0 <= i < k && #[trigger] first_label(labels, i) ==> labels[i]->0 == first_count(labels, i)
}

/// The ids are handed out `0, 1, 2, …` in scan order (row by row from the
/// bottom, left to right): each mass takes the next id at its first cell.
pub open spec fn scan_ordered(labels: Seq<Option<usize>>) -> bool {
    ordered_upto(labels, labels.len() as int)
}

/// Whether an index starts a label, and how many labels start before it,
/// depend only on the labels before it.
proof fn lemma_first_prefix(l1: Seq<Option<usize>>, l2: Seq<Option<usize>>, n: int)
    requires
        0 <= n <= l1.len(),
        l1.len() == l2.len(),
        forall|i: int| 0 <= i < n ==> l1[i] == l2[i],
    ensures
        first_count(l1, n) == first_count(l2, n),
        forall|i: int| 0 <= i < n ==> first_label(l1, i) == first_label(l2, i),
    decreases n,
{
    assert forall|i: int| 0 <= i < n implies first_label(l1, i) == first_label(l2, i) by {
        if first_label(l1, i) {
            assert forall|h: int| 0 <= h < i implies #[trigger] l2[h] != l2[i] by {
                assert(l1[h] != l1[i]);
            }
        }
        if first_label(l2, i) {
            assert forall|h: int| 0 <= h < i implies #[trigger] l1[h] != l1[i] by {
                assert(l2[h] != l2[i]);
            }
        }
    }
    if n > 0 {
        lemma_first_prefix(l1, l2, n - 1);
    }
}

/// Scanning index `k`: either it starts a new mass with the next id, or its
/// label (if any) was already seen at an earlier seed.
proof fn lemma_order_step(
    pre: Seq<Option<usize>>,
    post: Seq<Option<usize>>,
    k: int,
    nid: int,
    seeds: Seq<int>,
    fresh: bool,
)
    requires
        pre.len() == GRID_CELLS,
        post.len() == GRID_CELLS,
        0 <= k < GRID_CELLS,
        ordered_upto(pre, k),
        first_count(pre, k) == nid,
        nid <= k,
        forall|i: int| 0 <= i < GRID_CELLS && (#[trigger] pre[i]) is Some ==> pre[i]->0 < nid,
        forall|i: int| 0 <= i < k ==> post[i] == pre[i],
        seeds.len() == nid,
        forall|v: int| 0 <= v < nid ==> 0 <= #[trigger] seeds[v] < k && pre[seeds[v]] == Some(v as usize),
        fresh ==> pre[k] is None && post[k] == Some(nid as usize),
        !fresh ==> post[k] == pre[k],
    ensures
        ordered_upto(post, k + 1),
        first_count(post, k + 1) == nid + if fresh {
            1int
        } else {
            0int
        },
{
    lemma_first_prefix(pre, post, k);
    assert(first_count(post, k + 1) == first_count(post, k) + if first_label(post, k) {
        1nat
    } else {
        0nat
    });
    if fresh {
        assert forall|h: int| 0 <= h < k implies #[trigger] post[h] != post[k] by {
            assert(post[h] == pre[h]);
            if pre[h] is Some {
                assert(pre[h]->0 < nid);
            }
        }
        assert(first_label(post, k));
    } else if post[k] is Some {
        let v = post[k]->0 as int;
        assert(pre[k] is Some);
        assert(v < nid);
        let sv = seeds[v];
        assert(post[sv] == pre[sv]);
        assert(!first_label(post, k));
    }
    assert forall|i: int| 0 <= i < k + 1 && #[trigger] first_label(post, i) implies post[i]->0 == first_count(post, i) by {
        if i < k {
            assert(first_label(pre, i));
            lemma_first_prefix(pre, post, i);
        }
    }
}

/// Along a solid path every cell carries the label of its first cell.
proof fn lemma_path_same_label(cells: Seq<Cell>, labels: Seq<Option<usize>>, p: Seq<int>, n: int)
    requires
        components_valid(cells, labels),
        solid_path(cells, p),
        0 <= n < p.len(),
    ensures
        labels[p[n]] == labels[p[0]],
    decreases n,
{
    if n > 0 {
        lemma_path_same_label(cells, labels, p, n - 1);
        let a = p[n - 1];
        let b = p[n];
        assert(touching(a, b));
        let d = choose|d: int| 0 <= d < 8 && col(a) + n8(d).0 == col(b) && row(a) + n8(d).1 == row(b);
        lemma_idx_roundtrip(b);
        assert(labels[a] is Some);
        assert(nbr_ok(cells, labels, a, d));
    }
}

/// Linked solids carry one label.
proof fn lemma_linked_same_label(cells: Seq<Cell>, labels: Seq<Option<usize>>, a: int, b: int)
    requires
        components_valid(cells, labels),
        linked(cells, a, b),
    ensures
        labels[a] == labels[b],
{
    let p = choose|p: Seq<int>| #[trigger] solid_path(cells, p) && p[0] == a && p.last() == b;
    lemma_path_same_label(cells, labels, p, p.len() - 1);
}

/// Every label seen at `i` first appears at some index at or before `i`.
proof fn lemma_first_of(labels: Seq<Option<usize>>, i: int) -> (f: int)
    requires
        0 <= i < labels.len(),
        labels[i] is Some,
    ensures
        0 <= f <= i,
        first_label(labels, f),
        labels[f] == labels[i],
    decreases i,
{
    if first_label(labels, i) {
        i
    } else {
        let h = choose|h: int| 0 <= h < i && labels[h] == labels[i];
        lemma_first_of(labels, h)
    }
}

/// Two labellings that give the same starts count them alike.
proof fn lemma_first_count_same(l1: Seq<Option<usize>>, l2: Seq<Option<usize>>, n: int)
    requires
        0 <= n <= l1.len(),
        forall|i: int| 0 <= i < n ==> first_label(l1, i) == first_label(l2, i),
    ensures
        first_count(l1, n) == first_count(l2, n),
    decreases n,
{
    if n > 0 {
        lemma_first_count_same(l1, l2, n - 1);
    }
}

/// The labelling of a board is unique: two labellings that each mark exactly
/// the solids, share labels exactly within 8-connected masses, and number the
/// masses in scan order are equal. So every call of
/// [`Grid::solid_components`] on one board gives the same labels, and so does
/// every run started on it.
pub proof fn labelling_is_unique(cells: Seq<Cell>, l1: Seq<Option<usize>>, l2: Seq<Option<usize>>)
    requires
        components_valid(cells, l1),
        labels_linked(cells, l1),
        scan_ordered(l1),
        components_valid(cells, l2),
        labels_linked(cells, l2),
        scan_ordered(l2),
    ensures
        l1 == l2,
{
    assert forall|i: int, j: int| 0 <= i < GRID_CELLS && 0 <= j < GRID_CELLS && l1[i] is Some && l1[j] is Some implies (
    #[trigger] l1[i] == #[trigger] l1[j]) == (l2[i] == l2[j]) by {
        if l1[i] == l1[j] {
            lemma_linked_same_label(cells, l2, i, j);
        }
        if l2[i] == l2[j] {
            assert(l2[i] is Some);
            lemma_linked_same_label(cells, l1, i, j);
        }
    }
    assert forall|i: int| 0 <= i < GRID_CELLS implies first_label(l1, i) == first_label(l2, i) by {
        assert(l1[i] is Some == l2[i] is Some);
        if l1[i] is Some {
            if first_label(l1, i) {
                assert forall|h: int| 0 <= h < i implies #[trigger] l2[h] != l2[i] by {
                    if l2[h] is Some {
                        assert(l1[h] != l1[i]);
                    }
                }
            }
            if first_label(l2, i) {
                assert forall|h: int| 0 <= h < i implies #[trigger] l1[h] != l1[i] by {
                    if l1[h] is Some {
                        assert(l2[h] != l2[i]);
                    }
                }
            }
        }
    }
    assert forall|i: int| 0 <= i < GRID_CELLS implies #[trigger] l1[i] == l2[i] by {
        if l1[i] is Some {
            let f = lemma_first_of(l1, i);
            assert(first_label(l2, f));
            lemma_first_count_same(l1, l2, f);
            assert(l1[f] == l2[f]);
            assert(l2[f] == l2[i]);
        } else {
            assert(l2[i] is None);
        }
    }
    assert(l1 =~= l2);
}

impl Grid {
    /// Label every solid cell with an 8-connected component id. The ball uses
    /// the labels to pick its first anchor and to stay on its own mass.
    pub fn solid_components(&self) -> (labels: Vec<Option<usize>>)
        requires
            self.wf(),
        ensures
            components_valid(self.cells@, labels@),
            labels_linked(self.cells@, labels@),
            scan_ordered(labels@),
    {
        let mut labels: Vec<Option<usize>> = Vec::new();
        let mut j: usize = 0;
        while j < GRID_CELLS
            invariant
                j <= GRID_CELLS,
                labels@.len() == j,
                forall|i: int| 0 <= i < j ==> labels@[i] is None,
            decreases GRID_CELLS - j,
        {
            labels.push(None);
            j = j + 1;
        }
        proof {
            lemma_count_labelled_none(labels@);
        }
        let mut assigned: usize = 0;
        let mut next_id: usize = 0;
        let mut k: usize = 0;
        let ghost mut seeds: Seq<int> = Seq::empty();
        while k < GRID_CELLS
            invariant
                self.wf(),
                k <= GRID_CELLS,
                labels@.len() == GRID_CELLS,
                assigned == count_labelled(labels@),
                next_id <= k,
                labels_on_solids(self.cells@, labels@),
                scanned(self.cells@, labels@, k as int),
                forall|i: int|
                    0 <= i < GRID_CELLS && (#[trigger] labels@[i]) is Some ==> labels@[i]->0 < next_id,
                closed_except(self.cells@, labels@, Seq::empty(), -1),
                seeds.len() == next_id,
                linked_to_seeds(self.cells@, labels@, seeds),
                ordered_upto(labels@, k as int),
                first_count(labels@, k as int) == next_id,
                forall|v: int| 0 <= v < next_id ==> 0 <= #[trigger] seeds[v] < k && labels@[seeds[v]] == Some(v as usize),
            decreases GRID_CELLS - k,
        {
            let ghost pre = labels@;
            let ghost pre_seeds = seeds;
            let ghost nid = next_id as int;
            if self.cells[k] == Cell::Solid && labels[k].is_none() {
                proof {
                    lemma_count_labelled_set(labels@, k as int, next_id);
                    lemma_count_labelled_le(labels@.update(k as int, Some(next_id)));
                    lemma_closed_start(self.cells@, labels@, k as int, next_id);
                    lemma_update_keeps_facts(self.cells@, labels@, k as int, next_id, k as int);
                    lemma_seeds_push(self.cells@, labels@, seeds, k as int);
                    seeds = seeds.push(k as int);
                    lemma_linked_self(self.cells@, k as int);
                    lemma_seeds_after_set(self.cells@, labels@, seeds, k as int, next_id);
                }
                labels.set(k, Some(next_id));
                assigned = assigned + 1;
                let mut stack: Vec<usize> = Vec::new();
                stack.push(k);
                proof {
                    assert(stack@ =~= seq![k]);
                    assert(stack@[0] == k);
                    assert forall|i: int| 0 <= i < GRID_CELLS && (#[trigger] labels@[i]) is Some
                        implies labels@[i]->0 <= next_id by {}
                }
                loop
                    invariant_except_break
                        self.wf(),
                        k < GRID_CELLS,
                        labels@.len() == GRID_CELLS,
                        assigned == count_labelled(labels@),
                        assigned <= GRID_CELLS,
                        next_id <= k,
                        labels@[k as int] == Some(next_id),
                        stack_ok(labels@, stack@, next_id),
                        labels_on_solids(self.cells@, labels@),
                        scanned(self.cells@, labels@, k as int),
                        labels_upto(labels@, next_id as int),
                        closed_except(self.cells@, labels@, stack@, -1),
                        seeds.len() == next_id + 1,
                        linked_to_seeds(self.cells@, labels@, seeds),
                        forall|i: int| 0 <= i < k ==> labels@[i] == pre[i],
                    ensures
                        self.wf(),
                        labels@.len() == GRID_CELLS,
                        assigned == count_labelled(labels@),
                        labels@[k as int] == Some(next_id),
                        labels_on_solids(self.cells@, labels@),
                        scanned(self.cells@, labels@, k as int),
                        labels_upto(labels@, next_id as int),
                        closed_except(self.cells@, labels@, Seq::empty(), -1),
                        seeds.len() == next_id + 1,
                        linked_to_seeds(self.cells@, labels@, seeds),
                        forall|i: int| 0 <= i < k ==> labels@[i] == pre[i],
                    decreases 9 * (GRID_CELLS - assigned) + stack@.len(),
                {
                    let ghost m0 = 9 * (GRID_CELLS - assigned) + stack@.len();
                    let ghost stack_before = stack@;
                    let top = stack.pop();
                    let c = match top {
                        None => {
                            proof {
                                assert(stack@ =~= Seq::<usize>::empty());
                            }
                            break;
                        },
                        Some(c) => c,
                    };
                    proof {
                        assert(stack_before =~= stack@.push(c));
                        assert(stack_before[stack@.len() as int] == c);
                        lemma_pop_not_contains(stack@, c);
                        lemma_closed_pop(self.cells@, labels@, stack@, c);
                        assert forall|t: int| 0 <= t < stack@.len() implies #[trigger] stack@[t] < GRID_CELLS
                            && labels@[stack@[t] as int] == Some(next_id) by {
                            assert(stack_before[t] == stack@[t]);
                        }
                        lemma_idx_roundtrip(c as int);
                    }
                    let cx = (c % (GRID_W as usize)) as i64;
                    let cy = (c / (GRID_W as usize)) as i64;
                    let mut d: usize = 0;
                    while d < 8
                        invariant
                            self.wf(),
                            k < GRID_CELLS,
                            c < GRID_CELLS,
                            cx == col(c as int),
                            cy == row(c as int),
                            d <= 8,
                            labels@.len() == GRID_CELLS,
                            assigned == count_labelled(labels@),
                            assigned <= GRID_CELLS,
                            next_id <= k,
                            labels@[k as int] == Some(next_id),
                            labels@[c as int] == Some(next_id),
                            stack_ok(labels@, stack@, next_id),
                            !stack@.contains(c),
                            9 * (GRID_CELLS - assigned) + stack@.len() < m0,
                            labels_on_solids(self.cells@, labels@),
                            scanned(self.cells@, labels@, k as int),
                            labels_upto(labels@, next_id as int),
                            closed_except(self.cells@, labels@, stack@, c as int),
                            forall|e: int| 0 <= e < d ==> #[trigger] nbr_ok(self.cells@, labels@, c as int, e),
                            seeds.len() == next_id + 1,
                            linked_to_seeds(self.cells@, labels@, seeds),
                            forall|i: int| 0 <= i < k ==> labels@[i] == pre[i],
                        decreases 8 - d,
                    {
                        let o = neighbor8(d);
                        let nx = cx + o.x as i64;
                        let ny = cy + o.y as i64;
                        if nx >= 0 && ny >= 0 && nx < GRID_W as i64 && ny < GRID_H as i64 {
                            let n = (ny * GRID_W as i64 + nx) as usize;
                            proof {
                                lemma_idx_bounds(nx as int, ny as int);
                            }
                            if self.cells[n] == Cell::Solid && labels[n].is_none() {
                                let ghost before = labels@;
                                proof {
                                    lemma_count_labelled_set(labels@, n as int, next_id);
                                    lemma_count_labelled_le(labels@.update(n as int, Some(next_id)));
                                    lemma_closed_push(self.cells@, labels@, stack@, c as int, n as int, next_id);
                                    lemma_push_stack_ok(labels@, stack@, n as int, next_id);
                                    lemma_update_keeps_facts(self.cells@, labels@, n as int, next_id, k as int);
                                    assert(col(c as int) + n8(d as int).0 == col(n as int) && row(c as int) + n8(
                                        d as int,
                                    ).1 == row(n as int));
                                    assert(touching(c as int, n as int));
                                    assert(labels@[c as int] is Some);
                                    lemma_linked_step(self.cells@, seeds[next_id as int], c as int, n as int);
                                    lemma_seeds_after_set(self.cells@, labels@, seeds, n as int, next_id);
                                    assert(c != n);
                                    assert forall|e: int| 0 <= e < d implies #[trigger] nbr_ok(
                                        self.cells@,
                                        labels@.update(n as int, Some(next_id)),
                                        c as int,
                                        e,
                                    ) by {
                                        assert(nbr_ok(self.cells@, labels@, c as int, e));
                                        lemma_nbr_ok_after_set(self.cells@, labels@, n as int, next_id, c as int, e);
                                    }
                                    assert(!stack@.push(n).contains(c)) by {
                                        if stack@.push(n).contains(c) {
                                            let t = choose|t: int| 0 <= t < stack@.push(n).len() && stack@.push(n)[t] == c;
                                            if t < stack@.len() {
                                                assert(stack@[t] == c);
                                            }
                                        }
                                    }
                                }
                                labels.set(n, Some(next_id));
                                assigned = assigned + 1;
                                stack.push(n);
                            } else {
                                proof {
                                    if self.cells@[n as int] == Cell::Solid {
                                        let od = opposite(d as int);
                                        lemma_opposite(d as int);
                                        assert(labels@[n as int] is Some);
                                        if labels@[n as int] != Some(next_id) {
                                            assert(!stack@.contains(n)) by {
                                                if stack@.contains(n) {
                                                    let t = choose|t: int| 0 <= t < stack@.len() && stack@[t] == n;
                                                    assert(labels@[stack@[t] as int] == Some(next_id));
                                                }
                                            }
                                            assert(nbr_ok(self.cells@, labels@, n as int, od));
                                            lemma_idx_bounds(nx as int, ny as int);
                                        }
                                    }
                                }
                            }
                        }
                        proof {
                            assert(nbr_ok(self.cells@, labels@, c as int, d as int));
                        }
                        d = d + 1;
                    }
                    proof {
                        lemma_closed_done(self.cells@, labels@, stack@, c as int);
                    }
                }
                proof {
                    lemma_order_step(pre, labels@, k as int, nid, pre_seeds, true);
                    assert forall|v: int| 0 <= v < next_id + 1 implies 0 <= #[trigger] seeds[v] < k + 1
                        && labels@[seeds[v]] == Some(v as usize) by {
                        if v < next_id {
                            assert(seeds[v] == pre_seeds[v]);
                        }
                    }
                }
                next_id = next_id + 1;
            } else {
                proof {
                    lemma_order_step(pre, labels@, k as int, nid, pre_seeds, false);
                }
            }
            k = k + 1;
        }
        proof {
            lemma_same_label_linked(self.cells@, labels@, seeds);
            assert forall|i: int, d: int|
                0 <= i < GRID_CELLS && 0 <= d < 8 && labels@[i] is Some implies #[trigger] nbr_ok(
                self.cells@,
                labels@,
                i,
                d,
            ) by {
                assert(!Seq::<usize>::empty().contains(i as usize));
            }
        }
        labels
    }
}

} // verus!
