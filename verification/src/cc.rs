//! The compile pass: slot assignment and topological scheduling.
//!
//! Each declared input gets a dense slot index in declaration order. The
//! outputs' DAG is then walked depth-first, post-order, with a visited set
//! keyed on node identity, producing a linear order in which every distinct
//! reachable node appears exactly once and strictly after both of its
//! children. A subexpression shared through handle reuse is scheduled once.

use vstd::prelude::*;

verus! {

use crate::alg::{reaches, reaches_any, same_value, Fn, Ns, Op, OpRef, Value};

/// The set of arena slots whose flag is raised.
pub open spec fn flag_set(flags: Seq<bool>) -> Set<int> {
    Set::new(|i: int| 0 <= i < flags.len() && flags[i])
}

/// One step of the post-order walk: what a visit of `o` turns the visited set
/// and the accumulated order into. An already-visited node is skipped; a
/// binary node schedules its left subtree, then its right subtree, then
/// itself; a leaf schedules itself.
pub open spec fn sched_node_spec(ns: Ns, o: OpRef, visited: Set<int>, order: Seq<OpRef>) -> (
    Set<int>,
    Seq<OpRef>,
)
    decreases o.idx,
        when ns.wf() && o.idx < ns.nodes@.len()
{
    if visited.contains(o.idx as int) {
        (visited, order)
    } else {
        match ns.nodes@[o.idx as int] {
            Op::Binary(_, l, r) => {
                let (v1, s1) = sched_node_spec(ns, l, visited, order);
                let (v2, s2) = sched_node_spec(ns, r, v1, s1);
                (v2.insert(o.idx as int), s2.push(o))
            },
            _ => (visited.insert(o.idx as int), order.push(o)),
        }
    }
}

/// The walk over a list of outputs, first to last.
pub open spec fn sched_outs_spec(ns: Ns, outs: Seq<OpRef>, visited: Set<int>, order: Seq<OpRef>) -> (
    Set<int>,
    Seq<OpRef>,
)
    decreases outs.len(),
{
    if outs.len() == 0 {
        (visited, order)
    } else {
        let (v1, s1) = sched_node_spec(ns, outs[0], visited, order);
        sched_outs_spec(ns, outs.drop_first(), v1, s1)
    }
}

/// At position `p` of the order, a binary node's two children both stand at
/// earlier positions.
pub open spec fn children_before(ns: Ns, order: Seq<OpRef>, p: int) -> bool {
    match ns.nodes@[order[p].idx as int] {
        Op::Binary(_, l, r) => {
            &&& exists|q: int| 0 <= q < p && order[q] == l
            &&& exists|q: int| 0 <= q < p && order[q] == r
        },
        _ => true,
    }
}

/// Every node reachable from one of `outs` stands somewhere in `order`.
pub open spec fn schedule_complete(ns: Ns, outs: Seq<OpRef>, order: Seq<OpRef>) -> bool {
    forall|b: OpRef|
        b.idx < ns.nodes@.len() && #[trigger] reaches_any(ns, outs, b) ==> exists|p: int|
            0 <= p < order.len() && #[trigger] order[p] == b
}

/// The visited set never points outside the arena, and is closed under
/// children: a visited binary node has both children visited.
pub open spec fn closed_under_children(ns: Ns, visited: Set<int>) -> bool {
    forall|i: int|
        #[trigger] visited.contains(i) ==> 0 <= i < ns.nodes@.len() && match ns.nodes@[i] {
            Op::Binary(_, l, r) => visited.contains(l.idx as int) && visited.contains(
                r.idx as int,
            ),
            _ => true,
        }
}

/// What every intermediate state of the walk maintains: the visited set is
/// exactly the set of scheduled slots, scheduled slots are pairwise distinct,
/// every scheduled binary node has its children scheduled earlier, and the
/// visited set is closed under children.
pub open spec fn sched_inv(ns: Ns, visited: Set<int>, order: Seq<OpRef>) -> bool {
    &&& (forall|p: int|
        0 <= p < order.len() ==> (#[trigger] order[p]).idx < ns.nodes@.len() && visited.contains(
            order[p].idx as int,
        ))
    &&& (forall|i: int|
        #[trigger] visited.contains(i) ==> exists|p: int|
            0 <= p < order.len() && (#[trigger] order[p]).idx == i)
    &&& (forall|p: int, q: int|
        0 <= p < q < order.len() ==> (#[trigger] order[p]).idx != (#[trigger] order[q]).idx)
    &&& (forall|p: int| 0 <= p < order.len() ==> #[trigger] children_before(ns, order, p))
    &&& closed_under_children(ns, visited)
}

/// Reachability only walks down the arena: a reachable node sits at the same
/// slot or an earlier one.
proof fn lemma_reaches_le(ns: Ns, a: OpRef, b: OpRef)
    requires
        ns.wf(),
        a.idx < ns.nodes@.len(),
        reaches(ns, a, b),
    ensures
        b.idx <= a.idx,
    decreases a.idx,
{
    if a == b {
    } else {
        match ns.nodes@[a.idx as int] {
            Op::Binary(_, l, r) => {
                if reaches(ns, l, b) {
                    lemma_reaches_le(ns, l, b);
                } else {
                    lemma_reaches_le(ns, r, b);
                }
            },
            _ => {},
        }
    }
}

/// Everything reachable from a member of a child-closed visited set is itself
/// a member.
proof fn lemma_closed_reaches(ns: Ns, visited: Set<int>, a: OpRef, b: OpRef)
    requires
        ns.wf(),
        a.idx < ns.nodes@.len(),
        visited.contains(a.idx as int),
        closed_under_children(ns, visited),
        reaches(ns, a, b),
    ensures
        visited.contains(b.idx as int),
    decreases a.idx,
{
    if a == b {
    } else {
        match ns.nodes@[a.idx as int] {
            Op::Binary(_, l, r) => {
                if reaches(ns, l, b) {
                    lemma_closed_reaches(ns, visited, l, b);
                } else {
                    lemma_closed_reaches(ns, visited, r, b);
                }
            },
            _ => {},
        }
    }
}

/// A longer order that agrees on a prefix keeps `children_before` at every
/// prefix position.
proof fn lemma_children_before_extend(ns: Ns, order: Seq<OpRef>, ext: Seq<OpRef>, p: int)
    requires
        0 <= p < order.len(),
        order.len() <= ext.len(),
        forall|q: int| 0 <= q < order.len() ==> ext[q] == order[q],
        children_before(ns, order, p),
    ensures
        children_before(ns, ext, p),
{
    assert(ext[p] == order[p]);
    match ns.nodes@[order[p].idx as int] {
        Op::Binary(_, l, r) => {
            let ql = choose|q: int| 0 <= q < p && order[q] == l;
            let qr = choose|q: int| 0 <= q < p && order[q] == r;
            assert(ext[ql] == l);
            assert(ext[qr] == r);
        },
        _ => {},
    }
}

/// The heart of the scheduler's correctness: one visit preserves the
/// invariant, only appends to the order, visits exactly the not-yet-visited
/// nodes reachable from `o`, and ends with `o` visited.
proof fn lemma_sched_node(ns: Ns, o: OpRef, visited: Set<int>, order: Seq<OpRef>)
    requires
        ns.wf(),
        o.idx < ns.nodes@.len(),
        sched_inv(ns, visited, order),
    ensures
        ({
            let (v2, s2) = sched_node_spec(ns, o, visited, order);
            &&& sched_inv(ns, v2, s2)
            &&& v2.contains(o.idx as int)
            &&& s2.len() >= order.len()
            &&& (forall|p: int| 0 <= p < order.len() ==> s2[p] == order[p])
            &&& (forall|i: int| visited.contains(i) ==> #[trigger] v2.contains(i))
            &&& (forall|i: int|
                #[trigger] v2.contains(i) && !visited.contains(i) ==> reaches(
                    ns,
                    o,
                    OpRef { idx: i as usize },
                ))
            &&& (forall|p: int| order.len() <= p < s2.len() ==> reaches(ns, o, #[trigger] s2[p]))
            &&& (forall|b: OpRef|
                b.idx < ns.nodes@.len() && #[trigger] reaches(ns, o, b) ==> v2.contains(
                    b.idx as int,
                ))
        }),
    decreases o.idx,
{
    let (v2, s2) = sched_node_spec(ns, o, visited, order);
    assert(reaches(ns, o, o));
    if visited.contains(o.idx as int) {
        assert forall|b: OpRef|
            b.idx < ns.nodes@.len() && #[trigger] reaches(ns, o, b) implies v2.contains(
            b.idx as int,
        ) by {
            lemma_closed_reaches(ns, visited, o, b);
        }
    } else {
        match ns.nodes@[o.idx as int] {
            Op::Binary(_, l, r) => {
                let (va, sa) = sched_node_spec(ns, l, visited, order);
                lemma_sched_node(ns, l, visited, order);
                let (vb, sb) = sched_node_spec(ns, r, va, sa);
                lemma_sched_node(ns, r, va, sa);
                assert(v2 == vb.insert(o.idx as int));
                assert(s2 == sb.push(o));
                // the new slot is fresh: everything visited on the way down
                // sits at or below a child, hence strictly below `o`
                assert(!vb.contains(o.idx as int)) by {
                    if vb.contains(o.idx as int) {
                        if va.contains(o.idx as int) {
                            assert(reaches(ns, l, OpRef { idx: o.idx }));
                            lemma_reaches_le(ns, l, OpRef { idx: o.idx });
                        } else {
                            assert(reaches(ns, r, OpRef { idx: o.idx }));
                            lemma_reaches_le(ns, r, OpRef { idx: o.idx });
                        }
                    }
                }
                // the invariant, clause by clause
                assert forall|p: int|
                    0 <= p < s2.len() implies (#[trigger] s2[p]).idx < ns.nodes@.len()
                    && v2.contains(s2[p].idx as int) by {
                    if p < sb.len() {
                        assert(s2[p] == sb[p]);
                    } else {
                        assert(s2[p] == o);
                    }
                }
                assert forall|i: int| #[trigger] v2.contains(i) implies exists|p: int|
                    0 <= p < s2.len() && (#[trigger] s2[p]).idx == i by {
                    if i == o.idx as int {
                        assert(s2[sb.len() as int].idx == i);
                    } else {
                        let p = choose|p: int| 0 <= p < sb.len() && (#[trigger] sb[p]).idx == i;
                        assert(s2[p].idx == i);
                    }
                }
                assert forall|p: int, q: int|
                    0 <= p < q < s2.len() implies (#[trigger] s2[p]).idx != (
                #[trigger] s2[q]).idx by {
                    if q == sb.len() as int {
                        assert(s2[p] == sb[p]);
                        assert(vb.contains(sb[p].idx as int));
                    } else {
                        assert(s2[p] == sb[p] && s2[q] == sb[q]);
                    }
                }
                assert forall|p: int| 0 <= p < s2.len() implies #[trigger] children_before(
                    ns,
                    s2,
                    p,
                ) by {
                    if p < sb.len() {
                        lemma_children_before_extend(ns, sb, s2, p);
                    } else {
                        assert(s2[p] == o);
                        assert(va.contains(l.idx as int));
                        let pl = choose|pp: int|
                            0 <= pp < sa.len() && (#[trigger] sa[pp]).idx == l.idx;
                        assert(sb[pl] == sa[pl]);
                        assert(s2[pl] == sa[pl]);
                        assert(s2[pl].idx == l.idx);
                        assert(s2[pl] == l);
                        assert(vb.contains(r.idx as int));
                        let pr = choose|pp: int|
                            0 <= pp < sb.len() && (#[trigger] sb[pp]).idx == r.idx;
                        assert(s2[pr] == sb[pr]);
                        assert(s2[pr] == r);
                        assert(0 <= pl < p && s2[pl] == l);
                        assert(0 <= pr < p && s2[pr] == r);
                    }
                }
                assert forall|i: int| #[trigger] v2.contains(i) implies 0 <= i < ns.nodes@.len()
                    && match ns.nodes@[i] {
                    Op::Binary(_, cl, cr) => v2.contains(cl.idx as int) && v2.contains(
                        cr.idx as int,
                    ),
                    _ => true,
                } by {
                    if i == o.idx as int {
                        assert(va.contains(l.idx as int));
                        assert(vb.contains(l.idx as int));
                        assert(vb.contains(r.idx as int));
                    } else {
                        assert(vb.contains(i));
                    }
                }
                // everything newly visited or newly scheduled is reachable
                assert forall|i: int|
                    #[trigger] v2.contains(i) && !visited.contains(i) implies reaches(
                    ns,
                    o,
                    OpRef { idx: i as usize },
                ) by {
                    if i == o.idx as int {
                        assert(OpRef { idx: i as usize } == o);
                    } else if va.contains(i) {
                        assert(reaches(ns, l, OpRef { idx: i as usize }));
                    } else {
                        assert(reaches(ns, r, OpRef { idx: i as usize }));
                    }
                }
                assert forall|p: int| order.len() <= p < s2.len() implies reaches(
                    ns,
                    o,
                    #[trigger] s2[p],
                ) by {
                    if p < sa.len() {
                        assert(s2[p] == sa[p]);
                        assert(reaches(ns, l, sa[p]));
                    } else if p < sb.len() {
                        assert(s2[p] == sb[p]);
                        assert(reaches(ns, r, sb[p]));
                    } else {
                        assert(s2[p] == o);
                    }
                }
                assert forall|b: OpRef|
                    b.idx < ns.nodes@.len() && #[trigger] reaches(ns, o, b) implies v2.contains(
                    b.idx as int,
                ) by {
                    if b == o {
                    } else if reaches(ns, l, b) {
                        assert(va.contains(b.idx as int));
                    } else {
                        assert(reaches(ns, r, b));
                        assert(vb.contains(b.idx as int));
                    }
                }
            },
            _ => {
                assert(v2 == visited.insert(o.idx as int));
                assert(s2 == order.push(o));
                assert forall|p: int|
                    0 <= p < s2.len() implies (#[trigger] s2[p]).idx < ns.nodes@.len()
                    && v2.contains(s2[p].idx as int) by {
                    if p < order.len() {
                        assert(s2[p] == order[p]);
                    } else {
                        assert(s2[p] == o);
                    }
                }
                assert forall|i: int| #[trigger] v2.contains(i) implies exists|p: int|
                    0 <= p < s2.len() && (#[trigger] s2[p]).idx == i by {
                    if i == o.idx as int {
                        assert(s2[order.len() as int].idx == i);
                    } else {
                        let p = choose|p: int| 0 <= p < order.len() && (#[trigger] order[p]).idx == i;
                        assert(s2[p].idx == i);
                    }
                }
                assert forall|p: int, q: int|
                    0 <= p < q < s2.len() implies (#[trigger] s2[p]).idx != (
                #[trigger] s2[q]).idx by {
                    if q == order.len() as int {
                        assert(s2[p] == order[p]);
                        assert(visited.contains(order[p].idx as int));
                    } else {
                        assert(s2[p] == order[p] && s2[q] == order[q]);
                    }
                }
                assert forall|p: int| 0 <= p < s2.len() implies #[trigger] children_before(
                    ns,
                    s2,
                    p,
                ) by {
                    if p < order.len() {
                        lemma_children_before_extend(ns, order, s2, p);
                    } else {
                        assert(s2[p] == o);
                    }
                }
                assert forall|b: OpRef|
                    b.idx < ns.nodes@.len() && #[trigger] reaches(ns, o, b) implies v2.contains(
                    b.idx as int,
                ) by {
                    assert(b == o);
                }
                assert(forall|i: int|
                    #[trigger] v2.contains(i) && !visited.contains(i) ==> i == o.idx as int);
                assert(reaches(ns, o, OpRef { idx: o.idx }));
            },
        }
    }
}

/// [`lemma_sched_node`], lifted over a list of outputs.
proof fn lemma_sched_outs(ns: Ns, outs: Seq<OpRef>, visited: Set<int>, order: Seq<OpRef>)
    requires
        ns.wf(),
        forall|k: int| 0 <= k < outs.len() ==> (#[trigger] outs[k]).idx < ns.nodes@.len(),
        sched_inv(ns, visited, order),
    ensures
        ({
            let (v2, s2) = sched_outs_spec(ns, outs, visited, order);
            &&& sched_inv(ns, v2, s2)
            &&& s2.len() >= order.len()
            &&& (forall|p: int| 0 <= p < order.len() ==> s2[p] == order[p])
            &&& (forall|i: int| visited.contains(i) ==> #[trigger] v2.contains(i))
            &&& (forall|b: OpRef|
                b.idx < ns.nodes@.len() && #[trigger] reaches_any(ns, outs, b) ==> v2.contains(
                    b.idx as int,
                ))
            &&& (forall|p: int|
                order.len() <= p < s2.len() ==> reaches_any(ns, outs, #[trigger] s2[p]))
        }),
    decreases outs.len(),
{
    let (v2, s2) = sched_outs_spec(ns, outs, visited, order);
    if outs.len() == 0 {
        assert forall|b: OpRef|
            b.idx < ns.nodes@.len() && #[trigger] reaches_any(ns, outs, b) implies v2.contains(
            b.idx as int,
        ) by {
            let k = choose|k: int| 0 <= k < outs.len() && reaches(ns, #[trigger] outs[k], b);
            assert(false);
        }
    } else {
        let (va, sa) = sched_node_spec(ns, outs[0], visited, order);
        lemma_sched_node(ns, outs[0], visited, order);
        let rest = outs.drop_first();
        assert(forall|k: int| 0 <= k < rest.len() ==> #[trigger] rest[k] == outs[k + 1]);
        lemma_sched_outs(ns, rest, va, sa);
        assert forall|b: OpRef|
            b.idx < ns.nodes@.len() && #[trigger] reaches_any(ns, outs, b) implies v2.contains(
            b.idx as int,
        ) by {
            let k = choose|k: int| 0 <= k < outs.len() && reaches(ns, #[trigger] outs[k], b);
            if k == 0 {
                assert(va.contains(b.idx as int));
            } else {
                assert(rest[k - 1] == outs[k]);
                assert(reaches_any(ns, rest, b));
            }
        }
        assert forall|p: int| order.len() <= p < s2.len() implies reaches_any(
            ns,
            outs,
            #[trigger] s2[p],
        ) by {
            if p < sa.len() {
                assert(s2[p] == sa[p]);
                assert(reaches(ns, outs[0], sa[p]));
            } else {
                assert(reaches_any(ns, rest, s2[p]));
                let k = choose|k: int| 0 <= k < rest.len() && reaches(ns, #[trigger] rest[k], s2[p]);
                assert(outs[k + 1] == rest[k]);
                assert(reaches(ns, outs[k + 1], s2[p]));
            }
        }
    }
}

/// Processing one more output is one more visit at the end of the walk.
proof fn lemma_sched_outs_snoc(ns: Ns, s: Seq<OpRef>, x: OpRef, visited: Set<int>, order: Seq<OpRef>)
    ensures
        sched_outs_spec(ns, s.push(x), visited, order) == ({
            let (v1, s1) = sched_outs_spec(ns, s, visited, order);
            sched_node_spec(ns, x, v1, s1)
        }),
    decreases s.len(),
{
    let full = s.push(x);
    assert(full.len() == s.len() + 1);
    if s.len() == 0 {
        assert(full[0] == x);
        assert(full.drop_first() =~= Seq::<OpRef>::empty());
        let (v1, s1) = sched_node_spec(ns, x, visited, order);
        assert(sched_outs_spec(ns, full.drop_first(), v1, s1) == (v1, s1));
    } else {
        assert(full[0] == s[0]);
        assert(full.drop_first() =~= s.drop_first().push(x));
        let (va, sa) = sched_node_spec(ns, s[0], visited, order);
        lemma_sched_outs_snoc(ns, s.drop_first(), x, va, sa);
    }
}

/// The recursive post-order walk behind [`compile`]: one visit of `o`, with
/// the visited set held as one flag per arena slot.
pub fn top_sort(ns: &Ns, o: OpRef, visited: &mut Vec<bool>, order: &mut Vec<OpRef>)
    requires
        ns.wf(),
        o.idx < ns.nodes@.len(),
        old(visited)@.len() == ns.nodes@.len(),
    ensures
        final(visited)@.len() == ns.nodes@.len(),
        flag_set(final(visited)@) == sched_node_spec(
            *ns,
            o,
            flag_set(old(visited)@),
            old(order)@,
        ).0,
        final(order)@ == sched_node_spec(*ns, o, flag_set(old(visited)@), old(order)@).1,
    decreases o.idx,
{
    if visited[o.idx] {
        proof {
            assert(flag_set(visited@).contains(o.idx as int));
        }
        return ;
    }
    proof {
        assert(!flag_set(visited@).contains(o.idx as int));
    }
    match &ns.nodes[o.idx] {
        Op::Binary(_, l, r) => {
            let left = *l;
            let right = *r;
            top_sort(ns, left, visited, order);
            top_sort(ns, right, visited, order);
            order.push(o);
            visited[o.idx] = true;
            proof {
                let (va, sa) = sched_node_spec(*ns, left, flag_set(old(visited)@), old(order)@);
                let (vb, sb) = sched_node_spec(*ns, right, va, sa);
                assert(flag_set(visited@) =~= vb.insert(o.idx as int));
            }
        },
        _ => {
            order.push(o);
            visited[o.idx] = true;
            proof {
                assert(flag_set(visited@) =~= flag_set(old(visited)@).insert(o.idx as int));
            }
        },
    }
}

/// The result of the compile pass: one `(input, slot)` pair per declared
/// input, in declaration order, and the linear, dependency-ordered schedule
/// of every node reachable from the outputs.
pub struct Schedule {
    pub slots: Vec<(Value, usize)>,
    pub order: Vec<OpRef>,
}

/// The compile pass.
///
/// Slots are assigned densely from 0 in declaration order. The schedule is
/// the depth-first post-order walk of the outputs, in their registration
/// order: every node reachable from the outputs appears exactly once, every
/// binary node strictly after both of its children, and nothing else appears.
pub fn compile(ns: &Ns, f: &Fn) -> (r: Schedule)
    requires
        ns.wf(),
        f.outs_valid(*ns),
    ensures
        r.slots@.len() == f.inps@.len(),
        forall|i: int|
            0 <= i < f.inps@.len() ==> {
                &&& same_value((#[trigger] r.slots@[i]).0, f.inps@[i])
                &&& r.slots@[i].0.name@ == f.inps@[i].name@
                &&& r.slots@[i].0.vtype == f.inps@[i].vtype
                &&& r.slots@[i].1 == i
            },
        r.order@ == sched_outs_spec(*ns, f.outs@, Set::empty(), Seq::empty()).1,
        forall|p: int| 0 <= p < r.order@.len() ==> (#[trigger] r.order@[p]).idx < ns.nodes@.len(),
        forall|p: int| 0 <= p < r.order@.len() ==> #[trigger] children_before(*ns, r.order@, p),
        forall|p: int, q: int|
            0 <= p < q < r.order@.len() ==> #[trigger] r.order@[p] != #[trigger] r.order@[q],
        forall|p: int| 0 <= p < r.order@.len() ==> reaches_any(*ns, f.outs@, #[trigger] r.order@[p]),
        schedule_complete(*ns, f.outs@, r.order@),
{
    let mut slots: Vec<(Value, usize)> = Vec::new();
    let n_inps = f.inps.len();
    let mut i: usize = 0;
    while i < n_inps
        invariant
            n_inps == f.inps@.len(),
            0 <= i <= n_inps,
            slots@.len() == i,
            forall|j: int|
                0 <= j < i ==> {
                    &&& same_value((#[trigger] slots@[j]).0, f.inps@[j])
                    &&& slots@[j].0.name@ == f.inps@[j].name@
                    &&& slots@[j].0.vtype == f.inps@[j].vtype
                    &&& slots@[j].1 == j
                },
        decreases n_inps - i,
    {
        let v = f.inps[i].clone();
        slots.push((v, i));
        i = i + 1;
    }
    let mut visited: Vec<bool> = vec![false; ns.nodes.len()];
    let mut order: Vec<OpRef> = Vec::new();
    proof {
        assert(flag_set(visited@) =~= Set::<int>::empty());
        assert(sched_inv(*ns, Set::empty(), Seq::empty())) by {
            assert forall|b: int| #[trigger] Set::<int>::empty().contains(b) implies false by {}
        }
    }
    let n_outs = f.outs.len();
    let mut k: usize = 0;
    proof {
        assert(f.outs@.take(0) =~= Seq::<OpRef>::empty());
    }
    while k < n_outs
        invariant
            n_outs == f.outs@.len(),
            0 <= k <= n_outs,
            ns.wf(),
            f.outs_valid(*ns),
            visited@.len() == ns.nodes@.len(),
            flag_set(visited@) == sched_outs_spec(
                *ns,
                f.outs@.take(k as int),
                Set::empty(),
                Seq::empty(),
            ).0,
            order@ == sched_outs_spec(*ns, f.outs@.take(k as int), Set::empty(), Seq::empty()).1,
        decreases n_outs - k,
    {
        let o = f.outs[k];
        top_sort(ns, o, &mut visited, &mut order);
        proof {
            lemma_sched_outs_snoc(
                *ns,
                f.outs@.take(k as int),
                f.outs@[k as int],
                Set::empty(),
                Seq::empty(),
            );
            assert(f.outs@.take(k as int).push(f.outs@[k as int]) =~= f.outs@.take(k as int + 1));
        }
        k = k + 1;
    }
    proof {
        assert(f.outs@.take(n_outs as int) =~= f.outs@);
        lemma_sched_outs(*ns, f.outs@, Set::empty(), Seq::empty());
        let (v2, s2) = sched_outs_spec(*ns, f.outs@, Set::empty(), Seq::empty());
        assert forall|p: int, q: int| 0 <= p < q < s2.len() implies #[trigger] s2[p]
            != #[trigger] s2[q] by {
            assert(s2[p].idx != s2[q].idx);
        }
        assert(schedule_complete(*ns, f.outs@, order@)) by {
            assert forall|b: OpRef|
                b.idx < ns.nodes@.len() && #[trigger] reaches_any(*ns, f.outs@, b) implies exists|p: int|
                0 <= p < order@.len() && #[trigger] order@[p] == b by {
                assert(v2.contains(b.idx as int));
                let p = choose|p: int| 0 <= p < s2.len() && (#[trigger] s2[p]).idx == b.idx as int;
                assert(order@[p] == s2[p]);
                assert(order@[p] == b);
            }
        }
        assert forall|p: int| 0 <= p < s2.len() implies reaches_any(
            *ns,
            f.outs@,
            #[trigger] s2[p],
        ) by {}
    }
    Schedule { slots, order }
}

} // verus!

