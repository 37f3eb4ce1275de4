//! Cell positions on the 6 x 13 field, orthogonal connectivity and
//! connected components.
//!
//! A position `p` stands for column `p % 6` and row `p / 6`, with row 0 at
//! the floor. Masks are 78 booleans in the same order.

use vstd::prelude::*;

verus! {

pub const WIDTH: usize = 6;

pub const HEIGHT: usize = 13;

pub const VISIBLE_HEIGHT: usize = 12;

pub const CELL_COUNT: usize = 78;

pub open spec fn valid_pos(p: int) -> bool {
    0 <= p < 78
}

/// Orthogonal neighbours on the 6-wide, 13-high field.
pub open spec fn adjacent(p: int, q: int) -> bool {
    &&& valid_pos(p)
    &&& valid_pos(q)
    &&& {
        ||| q == p + 6
        ||| q == p - 6
        ||| (q == p + 1 && p % 6 != 5)
        ||| (q == p - 1 && p % 6 != 0)
    }
}

/// `path` is a walk of orthogonal steps through cells of the mask `m`.
pub open spec fn is_path(m: Seq<bool>, path: Seq<int>) -> bool {
    &&& path.len() >= 1
    &&& forall|i: int| 0 <= i < path.len() ==> valid_pos(#[trigger] path[i]) && m[path[i]]
    &&& forall|i: int| 0 <= i < path.len() - 1 ==> adjacent(#[trigger] path[i], path[i + 1])
}

/// `a` and `b` lie in the same orthogonally connected component of the mask.
pub open spec fn connected(m: Seq<bool>, a: int, b: int) -> bool {
    exists|path: Seq<int>| #[trigger] is_path(m, path) && path[0] == a && path.last() == b
}

pub open spec fn count_true(s: Seq<bool>) -> nat
    decreases s.len(),
{
    if s.len() == 0 {
        0
    } else {
        count_true(s.drop_last()) + if s.last() {
            1nat
        } else {
            0nat
        }
    }
}

/// The component of `a` as a mask.
pub open spec fn component_mask(m: Seq<bool>, a: int) -> Seq<bool> {
    Seq::new(78, |q: int| connected(m, a, q))
}

/// Number of cells in the component of `a`.
pub open spec fn component_size(m: Seq<bool>, a: int) -> nat {
    count_true(component_mask(m, a))
}

/// `p` is the first cell (lowest position) of its component.
pub open spec fn first_of_component(m: Seq<bool>, p: int) -> bool {
    &&& valid_pos(p)
    &&& m[p]
    &&& forall|q: int| 0 <= q < p ==> !connected(m, q, p)
}

pub proof fn lemma_count_true_bound(s: Seq<bool>)
    ensures
        count_true(s) <= s.len(),
    decreases s.len(),
{
    if s.len() > 0 {
        lemma_count_true_bound(s.drop_last());
    }
}

pub proof fn lemma_count_true_update(s: Seq<bool>, i: int)
    requires
        0 <= i < s.len(),
        !s[i],
    ensures
        count_true(s.update(i, true)) == count_true(s) + 1,
    decreases s.len(),
{
    let t = s.update(i, true);
    if i == s.len() - 1 {
        assert(t.drop_last() =~= s.drop_last());
    } else {
        assert(t.drop_last() =~= s.drop_last().update(i, true));
        lemma_count_true_update(s.drop_last(), i);
    }
}

/// The count of a prefix grows by the last element.
pub proof fn lemma_count_true_take(s: Seq<bool>, n: int)
    requires
        0 <= n < s.len(),
    ensures
        count_true(s.take(n + 1)) == count_true(s.take(n)) + if s[n] {
            1nat
        } else {
            0nat
        },
{
    assert(s.take(n + 1).drop_last() =~= s.take(n));
}

/// A sequence that is true everywhere counts its whole length.
pub proof fn lemma_count_true_all_true(s: Seq<bool>)
    requires
        forall|i: int| 0 <= i < s.len() ==> s[i],
    ensures
        count_true(s) == s.len(),
    decreases s.len(),
{
    if s.len() > 0 {
        lemma_count_true_all_true(s.drop_last());
    }
}

pub proof fn lemma_count_true_all(s: Seq<bool>)
    ensures
        count_true(s.take(s.len() as int)) == count_true(s),
{
    assert(s.take(s.len() as int) =~= s);
}

pub proof fn lemma_connected_symmetric(m: Seq<bool>, a: int, b: int)
    requires
        connected(m, a, b),
    ensures
        connected(m, b, a),
{
    let path = choose|path: Seq<int>| #[trigger] is_path(m, path) && path[0] == a && path.last() == b;
    let rev = path.reverse();
    assert forall|i: int| 0 <= i < rev.len() - 1 implies adjacent(#[trigger] rev[i], rev[i + 1]) by {
        assert(rev[i] == path[path.len() - 1 - i]);
        assert(rev[i + 1] == path[path.len() - 2 - i]);
        assert(adjacent(path[path.len() - 2 - i], path[path.len() - 1 - i]));
    }
    assert(is_path(m, rev));
}

pub proof fn lemma_connected_transitive(m: Seq<bool>, a: int, b: int, c: int)
    requires
        connected(m, a, b),
        connected(m, b, c),
    ensures
        connected(m, a, c),
{
    let p1 = choose|path: Seq<int>| #[trigger] is_path(m, path) && path[0] == a && path.last() == b;
    let p2 = choose|path: Seq<int>| #[trigger] is_path(m, path) && path[0] == b && path.last() == c;
    let joined = p1 + p2.drop_first();
    assert forall|i: int| 0 <= i < joined.len() implies valid_pos(#[trigger] joined[i]) && m[joined[i]] by {
        if i >= p1.len() {
            assert(joined[i] == p2[i - p1.len() + 1]);
        }
    }
    assert forall|i: int| 0 <= i < joined.len() - 1 implies adjacent(#[trigger] joined[i], joined[i + 1]) by {
        if i + 1 < p1.len() {
        } else if i + 1 == p1.len() {
            assert(joined[i] == b);
            assert(joined[i + 1] == p2[1]);
            assert(adjacent(p2[0], p2[1]));
        } else {
            assert(joined[i] == p2[i - p1.len() + 1]);
            assert(joined[i + 1] == p2[i - p1.len() + 2]);
        }
    }
    if p2.len() == 1 {
        assert(joined =~= p1);
    } else {
        assert(joined.last() == p2.last());
    }
    assert(is_path(m, joined));
}

pub proof fn lemma_connected_ends(m: Seq<bool>, a: int, b: int)
    requires
        connected(m, a, b),
    ensures
        valid_pos(a),
        valid_pos(b),
        m[a],
        m[b],
{
    let path = choose|path: Seq<int>| #[trigger] is_path(m, path) && path[0] == a && path.last() == b;
    assert(valid_pos(path[0]) && m[path[0]]);
    assert(valid_pos(path[path.len() - 1]) && m[path[path.len() - 1]]);
}

pub proof fn lemma_connected_self(m: Seq<bool>, a: int)
    requires
        valid_pos(a),
        m[a],
    ensures
        connected(m, a, a),
{
    let path = seq![a];
    assert(is_path(m, path));
}

pub proof fn lemma_connected_step(m: Seq<bool>, a: int, b: int, c: int)
    requires
        connected(m, a, b),
        adjacent(b, c),
        m[c],
    ensures
        connected(m, a, c),
{
    let path = choose|path: Seq<int>| #[trigger] is_path(m, path) && path[0] == a && path.last() == b;
    let ext = path.push(c);
    assert forall|i: int| 0 <= i < ext.len() - 1 implies adjacent(#[trigger] ext[i], ext[i + 1]) by {
        if i + 1 < path.len() {
            assert(ext[i] == path[i] && ext[i + 1] == path[i + 1]);
        }
    }
    assert(is_path(m, ext));
}

/// Two connected cells have the same component.
pub proof fn lemma_same_component(m: Seq<bool>, a: int, b: int)
    requires
        m.len() == 78,
        connected(m, a, b),
    ensures
        component_mask(m, a) == component_mask(m, b),
        component_size(m, a) == component_size(m, b),
{
    assert forall|q: int| 0 <= q < 78 implies connected(m, a, q) == connected(m, b, q) by {
        if connected(m, a, q) {
            lemma_connected_symmetric(m, a, b);
            lemma_connected_transitive(m, b, a, q);
        }
        if connected(m, b, q) {
            lemma_connected_transitive(m, a, b, q);
        }
    }
    assert(component_mask(m, a) =~= component_mask(m, b));
}

/// A set that holds `a` and is closed under masked neighbours holds the
/// whole component of `a`.
pub proof fn lemma_closed_holds_connected(m: Seq<bool>, vis: Seq<bool>, a: int, b: int)
    requires
        m.len() == 78,
        vis.len() == 78,
        valid_pos(a),
        vis[a],
        forall|p: int, q: int|
            valid_pos(p) && #[trigger] vis[p] && #[trigger] adjacent(p, q) && m[q] ==> vis[q],
        connected(m, a, b),
    ensures
        vis[b],
{
    let path = choose|path: Seq<int>| #[trigger] is_path(m, path) && path[0] == a && path.last() == b;
    lemma_closed_holds_path(m, vis, path, path.len() - 1);
}

proof fn lemma_closed_holds_path(m: Seq<bool>, vis: Seq<bool>, path: Seq<int>, i: int)
    requires
        m.len() == 78,
        vis.len() == 78,
        is_path(m, path),
        vis[path[0]],
        0 <= i < path.len(),
        forall|p: int, q: int|
            valid_pos(p) && #[trigger] vis[p] && #[trigger] adjacent(p, q) && m[q] ==> vis[q],
    ensures
        vis[path[i]],
    decreases i,
{
    if i > 0 {
        lemma_closed_holds_path(m, vis, path, i - 1);
        assert(adjacent(path[i - 1], path[i]));
        assert(valid_pos(path[i - 1]));
        assert(valid_pos(path[i]) && m[path[i]]);
    }
}

pub open spec fn closed_except(m: Seq<bool>, vis: Seq<bool>, pending: Seq<bool>) -> bool {
    forall|p: int, q: int|
        valid_pos(p) && #[trigger] vis[p] && !pending[p] && #[trigger] adjacent(p, q) && m[q] ==> vis[q]
}

/// Search state of a flood fill: visited cells, cells whose neighbours are
/// still to be looked at, and a stack holding exactly the latter.
pub open spec fn fill_state(
    m: Seq<bool>,
    s: int,
    vis: Seq<bool>,
    pending: Seq<bool>,
    stack: Seq<usize>,
    count: int,
) -> bool {
    &&& m.len() == 78
    &&& vis.len() == 78
    &&& pending.len() == 78
    &&& count == count_true(vis)
    &&& count <= 78
    &&& count_true(pending) == stack.len()
    &&& forall|i: int| 0 <= i < stack.len() ==> (#[trigger] stack[i]) < 78 && pending[stack[i] as int]
    &&& forall|i: int, j: int| 0 <= i < j < stack.len() ==> (#[trigger] stack[i]) != (#[trigger] stack[j])
    &&& forall|q: int| 0 <= q < 78 && #[trigger] pending[q] ==> vis[q]
    &&& forall|q: int| 0 <= q < 78 && #[trigger] vis[q] ==> connected(m, s, q)
}

fn visit(
    mask: &[bool; 78],
    vis: &mut [bool; 78],
    pending: &mut [bool; 78],
    stack: &mut Vec<usize>,
    count: &mut usize,
    q: usize,
    Ghost(s): Ghost<int>,
)
    requires
        q < 78,
        fill_state(mask@, s, old(vis)@, old(pending)@, old(stack)@, *old(count) as int),
        mask[q as int] ==> connected(mask@, s, q as int),
    ensures
        fill_state(mask@, s, final(vis)@, final(pending)@, final(stack)@, *final(count) as int),
        final(vis)@ == (if mask[q as int] {
            old(vis)@.update(q as int, true)
        } else {
            old(vis)@
        }),
        forall|r: int| 0 <= r < 78 && old(pending)[r] ==> final(pending)[r],
        forall|r: int| 0 <= r < 78 && final(vis)[r] && !old(vis)[r] ==> final(pending)[r],
        forall|r: int| 0 <= r < 78 && !old(vis)[r] && !final(vis)[r] ==> !final(pending)[r],
        forall|r: int| 0 <= r < 78 && old(vis)[r] ==> final(pending)[r] == old(pending)[r],
        final(stack)@.len() - old(stack)@.len() == *final(count) - *old(count),
        final(stack)@.len() >= old(stack)@.len(),
{
    if mask[q] && !vis[q] {
        proof {
            lemma_count_true_update(vis@, q as int);
            lemma_count_true_bound(vis@.update(q as int, true));
            assert(!pending[q as int]);
            lemma_count_true_update(pending@, q as int);
        }
        vis[q] = true;
        pending[q] = true;
        stack.push(q);
        *count = *count + 1;
    } else if mask[q] {
        assert(vis@.update(q as int, true) =~= vis@);
    }
}

fn expand_cell(
    mask: &[bool; 78],
    vis: &mut [bool; 78],
    pending: &mut [bool; 78],
    stack: &mut Vec<usize>,
    count: &mut usize,
    p: usize,
    Ghost(s): Ghost<int>,
)
    requires
        p < 78,
        fill_state(mask@, s, old(vis)@, old(pending)@, old(stack)@, *old(count) as int),
        old(vis)[p as int],
    ensures
        fill_state(mask@, s, final(vis)@, final(pending)@, final(stack)@, *final(count) as int),
        forall|r: int| 0 <= r < 78 && old(vis)[r] ==> #[trigger] final(vis)[r],
        forall|r: int| 0 <= r < 78 && old(vis)[r] ==> #[trigger] final(pending)[r] == old(pending)[r],
        forall|r: int| 0 <= r < 78 && final(vis)[r] && !old(vis)[r] ==> #[trigger] final(pending)[r],
        forall|q: int| adjacent(p as int, q) && mask[q] ==> #[trigger] final(vis)[q],
        final(stack)@.len() - old(stack)@.len() == *final(count) - *old(count),
        final(stack)@.len() >= old(stack)@.len(),
{
    let ghost m = mask@;
    assert(connected(m, s, p as int));
    if p >= 6 {
        proof {
            if m[p - 6] {
                lemma_connected_step(m, s, p as int, p - 6);
            }
        }
        visit(mask, vis, pending, stack, count, p - 6, Ghost(s));
    }
    let ghost v1 = vis@;
    if p + 6 < 78 {
        proof {
            if m[p + 6] {
                lemma_connected_step(m, s, p as int, p + 6);
            }
        }
        visit(mask, vis, pending, stack, count, p + 6, Ghost(s));
    }
    let ghost v2 = vis@;
    if p % 6 != 0 {
        proof {
            if m[p - 1] {
                lemma_connected_step(m, s, p as int, p - 1);
            }
        }
        visit(mask, vis, pending, stack, count, p - 1, Ghost(s));
    }
    let ghost v3 = vis@;
    if p % 6 != 5 {
        proof {
            if m[p + 1] {
                lemma_connected_step(m, s, p as int, p + 1);
            }
        }
        visit(mask, vis, pending, stack, count, p + 1, Ghost(s));
    }
}

/// Marks the component of `start` within `mask` and counts its cells.
pub fn flood_fill(mask: &[bool; 78], start: usize) -> (res: ([bool; 78], usize))
    requires
        start < 78,
        mask[start as int],
    ensures
        forall|q: int| 0 <= q < 78 ==> res.0[q] == connected(mask@, start as int, q),
        res.0@ == component_mask(mask@, start as int),
        res.1 == component_size(mask@, start as int),
{
    let ghost m = mask@;
    let ghost s = start as int;
    let mut vis = [false; 78];
    let mut pending = [false; 78];
    let mut stack: Vec<usize> = Vec::new();
    let mut count: usize = 0;
    proof {
        lemma_count_all_false(vis@);
        lemma_count_all_false(pending@);
        lemma_connected_self(m, s);
    }
    visit(mask, &mut vis, &mut pending, &mut stack, &mut count, start, Ghost(s));
    while stack.len() > 0
        invariant
            m == mask@,
            s == start,
            start < 78,
            fill_state(m, s, vis@, pending@, stack@, count as int),
            vis[s],
            closed_except(m, vis@, pending@),
        decreases 5 * (78 - count) + stack.len(),
    {
        let ghost old_stack = stack@;
        let p = stack.pop().unwrap();
        assert(old_stack[old_stack.len() - 1] == p);
        assert(pending[p as int]);
        proof {
            lemma_count_true_clear(pending@, p as int);
            assert(forall|i: int| 0 <= i < stack.len() ==> stack@[i] == old_stack[i]);
        }
        pending[p] = false;
        assert forall|i: int| 0 <= i < stack.len() implies (#[trigger] stack@[i]) < 78 && pending[stack@[i] as int] by {
            assert(old_stack[i] != old_stack[old_stack.len() - 1]);
        }
        let ghost vis0 = vis@;
        let ghost pend0 = pending@;
        expand_cell(mask, &mut vis, &mut pending, &mut stack, &mut count, p, Ghost(s));
        proof {
            assert forall|p2: int, q: int|
                valid_pos(p2) && #[trigger] vis[p2] && !pending[p2] && #[trigger] adjacent(p2, q)
                    && m[q] implies vis[q] by {
                if p2 != p as int && vis0[p2] {
                    assert(!pend0[p2]);
                    assert(vis0[q]);
                }
            }
        }
    }
    proof {
        lemma_count_true_zero(pending@);
        assert forall|q: int| 0 <= q < 78 implies vis[q] == connected(m, s, q) by {
            if connected(m, s, q) {
                lemma_closed_holds_connected(m, vis@, s, q);
            }
        }
        assert(vis@ =~= component_mask(m, s));
    }
    (vis, count)
}

pub proof fn lemma_count_true_clear(s: Seq<bool>, i: int)
    requires
        0 <= i < s.len(),
        s[i],
    ensures
        count_true(s.update(i, false)) + 1 == count_true(s),
{
    let t = s.update(i, false);
    lemma_count_true_update(t, i);
    assert(t.update(i, true) =~= s);
}

pub proof fn lemma_count_true_zero(s: Seq<bool>)
    requires
        count_true(s) == 0,
    ensures
        forall|i: int| 0 <= i < s.len() ==> !s[i],
    decreases s.len(),
{
    if s.len() > 0 {
        lemma_count_true_zero(s.drop_last());
        assert forall|i: int| 0 <= i < s.len() implies !s[i] by {
            if i < s.len() - 1 {
                assert(s[i] == s.drop_last()[i]);
            }
        }
    }
}

pub proof fn lemma_count_all_false(s: Seq<bool>)
    requires
        forall|i: int| 0 <= i < s.len() ==> !s[i],
    ensures
        count_true(s) == 0,
    decreases s.len(),
{
    if s.len() > 0 {
        lemma_count_all_false(s.drop_last());
    }
}

/// Some cell before position `p` lies in the component of `q`.
pub open spec fn seen_before(m: Seq<bool>, p: int, q: int) -> bool {
    exists|r: int| 0 <= r < p && #[trigger] connected(m, r, q)
}

/// Size of the component of every masked cell, and the first cell of each
/// component.
pub fn label_components(mask: &[bool; 78]) -> (res: ([u8; 78], [bool; 78]))
    ensures
        forall|p: int|
            0 <= p < 78 ==> res.0[p] == if mask[p] {
                component_size(mask@, p)
            } else {
                0
            },
        forall|p: int| 0 <= p < 78 ==> res.1[p] == first_of_component(mask@, p),
{
    let ghost m = mask@;
    let mut sizes = [0u8; 78];
    let mut assigned = [false; 78];
    let mut first = [false; 78];
    let mut p: usize = 0;
    while p < 78
        invariant
            m == mask@,
            p <= 78,
            forall|q: int| 0 <= q < 78 ==> #[trigger] assigned[q] == seen_before(m, p as int, q),
            forall|q: int|
                0 <= q < 78 ==> #[trigger] sizes[q] == if assigned[q] {
                    component_size(m, q)
                } else {
                    0
                },
            forall|q: int| 0 <= q < 78 ==> #[trigger] first[q] == (q < p && first_of_component(m, q)),
        decreases 78 - p,
    {
        let ghost pi = p as int;
        if mask[p] && !assigned[p] {
            assert(first_of_component(m, pi)) by {
                assert forall|q: int| 0 <= q < pi implies !connected(m, q, pi) by {
                    if connected(m, q, pi) {
                        assert(seen_before(m, pi, pi));
                    }
                }
            }
            first[p] = true;
            let (comp, n) = flood_fill(mask, p);
            proof {
                lemma_count_true_bound(component_mask(m, pi));
            }
            let mut q: usize = 0;
            while q < 78
                invariant
                    m == mask@,
                    p < 78,
                    pi == p,
                    q <= 78,
                    mask[pi],
                    n == component_size(m, pi),
                    n <= 78,
                    forall|r: int| 0 <= r < 78 ==> comp[r] == connected(m, pi, r),
                    forall|r: int|
                        0 <= r < 78 ==> #[trigger] assigned[r] == (seen_before(m, pi, r) || (r < q
                            && connected(m, pi, r))),
                    forall|r: int|
                        0 <= r < 78 ==> #[trigger] sizes[r] == if assigned[r] {
                            component_size(m, r)
                        } else {
                            0
                        },
                decreases 78 - q,
            {
                if comp[q] {
                    proof {
                        lemma_same_component(m, pi, q as int);
                    }
                    sizes[q] = n as u8;
                    assigned[q] = true;
                }
                q += 1;
            }
            proof {
                assert forall|r: int| 0 <= r < 78 implies #[trigger] assigned[r] == seen_before(
                    m,
                    pi + 1,
                    r,
                ) by {
                    if seen_before(m, pi + 1, r) {
                        let w = choose|w: int| 0 <= w < pi + 1 && #[trigger] connected(m, w, r);
                        if w < pi {
                            assert(seen_before(m, pi, r));
                        }
                    }
                    if connected(m, pi, r) {
                        assert(seen_before(m, pi + 1, r));
                    }
                    if seen_before(m, pi, r) {
                        let w = choose|w: int| 0 <= w < pi && #[trigger] connected(m, w, r);
                        assert(seen_before(m, pi + 1, r));
                    }
                }
            }
        } else {
            proof {
                assert forall|r: int| 0 <= r < 78 implies #[trigger] assigned[r] == seen_before(
                    m,
                    pi + 1,
                    r,
                ) by {
                    if seen_before(m, pi + 1, r) && !seen_before(m, pi, r) {
                        let w = choose|w: int| 0 <= w < pi + 1 && #[trigger] connected(m, w, r);
                        assert(w == pi);
                        lemma_connected_ends(m, pi, r);
                        assert(seen_before(m, pi, pi));
                        let v = choose|v: int| 0 <= v < pi && #[trigger] connected(m, v, pi);
                        lemma_connected_transitive(m, v, pi, r);
                        assert(seen_before(m, pi, r));
                    }
                    if seen_before(m, pi, r) {
                        let w = choose|w: int| 0 <= w < pi && #[trigger] connected(m, w, r);
                        assert(seen_before(m, pi + 1, r));
                    }
                }
                if mask[pi] {
                    assert(seen_before(m, pi, pi));
                    let v = choose|v: int| 0 <= v < pi && #[trigger] connected(m, v, pi);
                    assert(!first_of_component(m, pi));
                }
            }
        }
        p += 1;
    }
    proof {
        assert forall|q: int| 0 <= q < 78 implies assigned[q] == mask[q] by {
            if mask[q] {
                lemma_connected_self(m, q);
                assert(seen_before(m, 78, q));
            }
            if seen_before(m, 78, q) {
                let w = choose|w: int| 0 <= w < 78 && #[trigger] connected(m, w, q);
                lemma_connected_ends(m, w, q);
            }
        }
    }
    (sizes, first)
}

} // verus!
