//! The Transform Propagator: from the roots, down the Hierarchy Map, the order
//! in which World Matrices are composed, parent before child; and a report of
//! every entity with a Parent Relation that no root reaches.
use crate::hierarchy::{build_hierarchy, children_in, hierarchy_of, lemma_children_in, HierarchyMap};
use crate::store::{
    build_index, entities, indexes, has_matrix, is_root, lemma_entities, lemma_record_at, lookup,
    parent_of, present, unique_entities, EntityId, Record,
};
use std::collections::{HashMap, HashSet};
use vstd::prelude::*;

verus! {

/// One composition of a resolution pass.
#[derive(Clone, Copy, Debug, PartialEq, Eq)]
pub struct Step {
    pub entity: EntityId,
    /// `None` for a root, whose World Matrix is its Local Matrix; `Some(p)`
    /// where the World Matrix is p's World Matrix times the entity's Local
    /// Matrix.
    pub parent: Option<EntityId>,
}

/// Why an entity with a Parent Relation was left unresolved.
#[derive(Clone, Copy, Debug, PartialEq, Eq)]
pub enum FaultKind {
    /// It has a Parent Relation but no Local Matrix.
    MissingLocalMatrix,
    /// Its Parent Relation names an entity that is not in the store.
    DanglingParent,
    /// Following Parent Relations from it leads back to it.
    Cycle,
    /// Its parent is in the store, but an ancestor is faulty or has no
    /// Local Matrix, so no root reaches it.
    DetachedAncestor,
}

/// An entity that the pass skipped, with the reason.
#[derive(Clone, Copy, Debug, PartialEq, Eq)]
pub struct Fault {
    pub entity: EntityId,
    pub kind: FaultKind,
}

/// The outcome of one pass: the compositions to perform, in order, and the
/// entities skipped.
pub struct Resolution {
    pub steps: Vec<Step>,
    pub faults: Vec<Fault>,
}

/// `e` hangs `n` Parent Relations below a root, every entity on the way
/// carrying a Local Matrix.
pub open spec fn rooted_at(s: Seq<Record>, e: EntityId, n: nat) -> bool
    decreases n,
{
    if n == 0 {
        is_root(s, e)
    } else {
        has_matrix(s, e) && match parent_of(s, e) {
            Some(p) => rooted_at(s, p, (n - 1) as nat),
            None => false,
        }
    }
}

/// Some root reaches `e`: its World Matrix is resolved by a pass.
pub open spec fn reachable(s: Seq<Record>, e: EntityId) -> bool {
    exists|n: nat| #[trigger] rooted_at(s, e, n)
}

/// The entity `k` Parent Relations above `e`.
pub open spec fn ancestor(s: Seq<Record>, e: EntityId, k: nat) -> Option<EntityId>
    decreases k,
{
    if k == 0 {
        Some(e)
    } else {
        match ancestor(s, e, (k - 1) as nat) {
            Some(a) => parent_of(s, a),
            None => None,
        }
    }
}

/// `e` comes back to itself by following at most as many Parent Relations
/// as the store has entities: it lies on a cycle.
pub open spec fn on_cycle(s: Seq<Record>, e: EntityId) -> bool {
    exists|k: nat| 1 <= k <= s.len() && #[trigger] ancestor(s, e, k) == Some(e)
}

/// The faults of a record: none where it has no Parent Relation or a root
/// reaches it. Otherwise a dangling parent or a cycle (at most one of the two
/// applies), then a missing Local Matrix, each where it applies; and where
/// none does, a detached ancestor.
pub open spec fn faults_of_record(s: Seq<Record>, r: Record) -> Seq<Fault> {
    if r.parent is None || reachable(s, r.entity) {
        seq![]
    } else {
        let link = if !present(s, r.parent->0) {
            seq![Fault { entity: r.entity, kind: FaultKind::DanglingParent }]
        } else if on_cycle(s, r.entity) {
            seq![Fault { entity: r.entity, kind: FaultKind::Cycle }]
        } else {
            seq![]
        };
        let matrix = if !r.has_matrix {
            seq![Fault { entity: r.entity, kind: FaultKind::MissingLocalMatrix }]
        } else {
            seq![]
        };
        if link.len() + matrix.len() == 0 {
            seq![Fault { entity: r.entity, kind: FaultKind::DetachedAncestor }]
        } else {
            link + matrix
        }
    }
}

/// The faults of the first `n` records, in store order.
pub open spec fn faults_upto(s: Seq<Record>, n: nat) -> Seq<Fault>
    decreases n,
{
    if n == 0 || n > s.len() {
        seq![]
    } else {
        faults_upto(s, (n - 1) as nat) + faults_of_record(s, s[n - 1])
    }
}

/// Every fault of a snapshot, in store order.
pub open spec fn faults_of(s: Seq<Record>) -> Seq<Fault> {
    faults_upto(s, s.len())
}

/// No entity is composed twice, and a parent is composed before its child.
pub open spec fn ordered(steps: Seq<Step>) -> bool {
    &&& forall|i: int, j: int|
        #![trigger steps[i], steps[j]]
        0 <= i < j < steps.len() ==> steps[i].entity != steps[j].entity
    &&& forall|i: int|
        0 <= i < steps.len() && (#[trigger] steps[i]).parent is Some ==> exists|j: int|
            0 <= j < i && #[trigger] steps[j].entity == steps[i].parent->0
}

/// `e` is composed by some step.
pub open spec fn in_plan(steps: Seq<Step>, e: EntityId) -> bool {
    exists|i: int| 0 <= i < steps.len() && #[trigger] steps[i].entity == e
}

/// A correct plan for a snapshot: ordered, each step composing an entity
/// with its own parent, and covering exactly the entities a root reaches.
pub open spec fn valid_plan(s: Seq<Record>, steps: Seq<Step>) -> bool {
    &&& ordered(steps)
    &&& forall|i: int|
        0 <= i < steps.len() ==> (#[trigger] steps[i]).parent == parent_of(s, steps[i].entity)
    &&& forall|e: EntityId| reachable(s, e) <==> #[trigger] in_plan(steps, e)
}

proof fn lemma_ancestor_none(s: Seq<Record>, e: EntityId, k: nat, j: nat)
    requires
        k <= j,
        ancestor(s, e, k) is None,
    ensures
        ancestor(s, e, j) is None,
    decreases j,
{
    if k < j {
        lemma_ancestor_none(s, e, k, (j - 1) as nat);
    }
}

/// Whether `e` lies on a cycle of Parent Relations.
pub fn detect_cycle(store: &Vec<Record>, index: &HashMap<EntityId, usize>, e: EntityId) -> (r:
    bool)
    requires
        unique_entities(store@),
        indexes(store@, index@),
    ensures
        r == on_cycle(store@, e),
{
    let n = store.len();
    let mut cur = e;
    let mut k: usize = 0;
    while k < n
        invariant
            k <= n,
            n == store@.len(),
            unique_entities(store@),
            indexes(store@, index@),
            ancestor(store@, e, k as nat) == Some(cur),
            forall|j: nat| 1 <= j <= k ==> #[trigger] ancestor(store@, e, j) != Some(e),
        decreases n - k,
    {
        let next = match lookup(store, index, cur) {
            Some(rec) => rec.parent,
            None => None,
        };
        assert(ancestor(store@, e, (k + 1) as nat) == next);
        match next {
            None => {
                proof {
                    assert forall|j: nat| 1 <= j <= store@.len() implies #[trigger] ancestor(
                        store@,
                        e,
                        j,
                    ) != Some(e) by {
                        if j > k {
                            lemma_ancestor_none(store@, e, (k + 1) as nat, j);
                        }
                    }
                }
                return false;
            },
            Some(p) => {
                cur = p;
                k = k + 1;
                if cur == e {
                    return true;
                }
            },
        }
    }
    false
}

/// What a pass in progress keeps true: `done` holds the compositions made,
/// `pending` those still to make, `seen` the entities of both.
#[verifier::opaque]
spec fn progress(s: Seq<Record>, done: Seq<Step>, pending: Seq<Step>, seen: Set<EntityId>) -> bool {
    &&& seen.finite()
    &&& forall|x: EntityId| #[trigger] seen.contains(x) ==> entities(s).contains(x)
    &&& tracks(done, pending, seen)
    &&& ordered(done)
    &&& queue_ok(s, done, pending)
    &&& forall|x: EntityId| #[trigger] seen.contains(x) ==> reachable(s, x)
}

/// `seen` holds exactly the entities of `done` and `pending`.
#[verifier::opaque]
spec fn tracks(done: Seq<Step>, pending: Seq<Step>, seen: Set<EntityId>) -> bool {
    forall|x: EntityId| #[trigger] seen.contains(x) <==> (in_plan(done, x) || in_plan(pending, x))
}

/// The queue holds distinct entities not yet composed, each with its own
/// parent, whose parent is already composed.
#[verifier::opaque]
spec fn queue_ok(s: Seq<Record>, done: Seq<Step>, pending: Seq<Step>) -> bool {
    &&& forall|i: int, j: int|
        #![trigger pending[i], pending[j]]
        0 <= i < j < pending.len() ==> pending[i].entity != pending[j].entity
    &&& forall|i: int, j: int|
        #![trigger done[i], pending[j]]
        0 <= i < done.len() && 0 <= j < pending.len() ==> done[i].entity != pending[j].entity
    &&& forall|i: int|
        0 <= i < done.len() ==> (#[trigger] done[i]).parent == parent_of(s, done[i].entity)
    &&& forall|j: int|
        0 <= j < pending.len() ==> (#[trigger] pending[j]).parent == parent_of(
            s,
            pending[j].entity,
        )
    &&& forall|j: int|
        0 <= j < pending.len() && (#[trigger] pending[j]).parent is Some ==> in_plan(
            done,
            pending[j].parent->0,
        )
}

/// Every root is seen.
spec fn roots_seen(s: Seq<Record>, seen: Set<EntityId>) -> bool {
    forall|j: int|
        0 <= j < s.len() && s[j].has_matrix && s[j].parent is None ==> seen.contains(
            #[trigger] s[j].entity,
        )
}

/// The children with a Local Matrix of the first `k` compositions are seen.
spec fn children_seen(s: Seq<Record>, done: Seq<Step>, k: int, seen: Set<EntityId>) -> bool {
    forall|i: int, c: EntityId|
        0 <= i < k && #[trigger] children_in(s, done[i].entity).contains(c) && has_matrix(s, c)
            ==> seen.contains(c)
}

proof fn lemma_progress_start(s: Seq<Record>)
    ensures
        progress(s, seq![], seq![], Set::empty()),
{
    reveal(progress);
    reveal(tracks);
    reveal(queue_ok);
}

proof fn lemma_progress_seen(s: Seq<Record>, done: Seq<Step>, pending: Seq<Step>, seen: Set<EntityId>)
    requires
        progress(s, done, pending, seen),
    ensures
        seen.finite(),
        seen.len() <= entities(s).len(),
        forall|x: EntityId| #[trigger] seen.contains(x) ==> reachable(s, x),
        pending.len() == 0 ==> forall|x: EntityId|
            #![trigger seen.contains(x)]
            #![trigger in_plan(done, x)]
            seen.contains(x) <==> in_plan(done, x),
        pending.len() == 0 ==> ordered(done),
        pending.len() == 0 ==> forall|i: int|
            0 <= i < done.len() ==> (#[trigger] done[i]).parent == parent_of(s, done[i].entity),
{
    reveal(progress);
    reveal(tracks);
    reveal(queue_ok);
    lemma_entities(s, 0);
    vstd::set_lib::lemma_len_subset(seen, entities(s));
    if pending.len() == 0 {
        assert forall|x: EntityId| #[trigger] seen.contains(x) <==> in_plan(done, x) by {
            if in_plan(pending, x) {
                let j = choose|j: int| 0 <= j < pending.len() && #[trigger] pending[j].entity == x;
            }
        }
    }
}

/// Queues `st` for composition, marking its entity seen.
proof fn lemma_progress_push(
    s: Seq<Record>,
    done: Seq<Step>,
    pending: Seq<Step>,
    seen: Set<EntityId>,
    st: Step,
)
    requires
        progress(s, done, pending, seen),
        !seen.contains(st.entity),
        present(s, st.entity),
        reachable(s, st.entity),
        st.parent == parent_of(s, st.entity),
        st.parent is Some ==> in_plan(done, st.parent->0),
    ensures
        progress(s, done, pending.push(st), seen.insert(st.entity)),
        seen.insert(st.entity).len() == seen.len() + 1,
{
    reveal(progress);
    reveal(tracks);
    reveal(queue_ok);
    lemma_entities(s, st.entity);
    let q = pending.push(st);
    let c = st.entity;
    assert forall|x: EntityId| #[trigger]
        seen.insert(c).contains(x) <==> (in_plan(done, x) || in_plan(q, x)) by {
        if in_plan(pending, x) {
            let j = choose|j: int| 0 <= j < pending.len() && #[trigger] pending[j].entity == x;
            assert(q[j].entity == x);
        }
        if x == c {
            assert(q[q.len() - 1].entity == x);
        }
        if in_plan(q, x) && x != c {
            let j = choose|j: int| 0 <= j < q.len() && #[trigger] q[j].entity == x;
            assert(pending[j].entity == x);
        }
    }
    assert forall|i: int, j: int|
        #![trigger q[i], q[j]]
        0 <= i < j < q.len() implies q[i].entity != q[j].entity by {
        assert(q[i] == pending[i]);
        if j < q.len() - 1 {
            assert(q[j] == pending[j]);
        } else {
            assert(in_plan(pending, pending[i].entity));
        }
    }
    assert forall|i: int, j: int|
        #![trigger done[i], q[j]]
        0 <= i < done.len() && 0 <= j < q.len() implies done[i].entity != q[j].entity by {
        if j < q.len() - 1 {
            assert(q[j] == pending[j]);
        } else {
            assert(in_plan(done, done[i].entity));
        }
    }
    assert forall|j: int| 0 <= j < q.len() implies (#[trigger] q[j]).parent == parent_of(
        s,
        q[j].entity,
    ) by {
        if j < q.len() - 1 {
            assert(q[j] == pending[j]);
        }
    }
    assert forall|j: int|
        0 <= j < q.len() && (#[trigger] q[j]).parent is Some implies in_plan(done, q[j].parent->0) by {
        if j < q.len() - 1 {
            assert(q[j] == pending[j]);
        }
    }
}

proof fn lemma_emit_membership(done: Seq<Step>, pending: Seq<Step>, seen: Set<EntityId>)
    requires
        pending.len() > 0,
        tracks(done, pending, seen),
    ensures
        tracks(done.push(pending.last()), pending.drop_last(), seen),
        in_plan(done.push(pending.last()), pending.last().entity),
        seen.contains(pending.last().entity),
{
    reveal(tracks);
    assert(pending[pending.len() - 1].entity == pending.last().entity);
    let d = done.push(pending.last());
    let p = pending.drop_last();
    assert(d[d.len() - 1].entity == pending.last().entity);
    assert forall|x: EntityId| #[trigger] seen.contains(x) <==> (in_plan(d, x) || in_plan(p, x)) by {
        if in_plan(pending, x) {
            let j = choose|j: int| 0 <= j < pending.len() && #[trigger] pending[j].entity == x;
            if j < p.len() {
                assert(p[j].entity == x);
            } else {
                assert(d[d.len() - 1].entity == x);
            }
        }
        if in_plan(done, x) {
            let j = choose|j: int| 0 <= j < done.len() && #[trigger] done[j].entity == x;
            assert(d[j].entity == x);
        }
        if in_plan(d, x) {
            let j = choose|j: int| 0 <= j < d.len() && #[trigger] d[j].entity == x;
            if j < done.len() {
                assert(done[j].entity == x);
            } else {
                assert(pending[pending.len() - 1].entity == x);
            }
        }
        if in_plan(p, x) {
            let j = choose|j: int| 0 <= j < p.len() && #[trigger] p[j].entity == x;
            assert(pending[j].entity == x);
        }
    }
}

proof fn lemma_emit_ordered(s: Seq<Record>, done: Seq<Step>, pending: Seq<Step>)
    requires
        pending.len() > 0,
        ordered(done),
        queue_ok(s, done, pending),
    ensures
        ordered(done.push(pending.last())),
{
    reveal(queue_ok);
    let item = pending.last();
    let d = done.push(item);
    assert forall|i: int, j: int|
        #![trigger d[i], d[j]]
        0 <= i < j < d.len() implies d[i].entity != d[j].entity by {
        assert(done[i] == d[i]);
        if j < d.len() - 1 {
            assert(done[j] == d[j]);
        } else {
            assert(pending[pending.len() - 1] == item);
        }
    }
    assert forall|i: int|
        0 <= i < d.len() && (#[trigger] d[i]).parent is Some implies exists|j: int|
            0 <= j < i && #[trigger] d[j].entity == d[i].parent->0 by {
        if i < d.len() - 1 {
            assert(done[i] == d[i]);
            let j = choose|j: int| 0 <= j < i && #[trigger] done[j].entity == d[i].parent->0;
            assert(d[j] == done[j]);
        } else {
            assert(pending[pending.len() - 1] == item);
            let j = choose|j: int|
                0 <= j < done.len() && #[trigger] done[j].entity == item.parent->0;
            assert(d[j] == done[j]);
        }
    }
}

proof fn lemma_emit_rest(s: Seq<Record>, done: Seq<Step>, pending: Seq<Step>)
    requires
        pending.len() > 0,
        queue_ok(s, done, pending),
    ensures
        queue_ok(s, done.push(pending.last()), pending.drop_last()),
{
    reveal(queue_ok);
    let item = pending.last();
    let d = done.push(item);
    let p = pending.drop_last();
    assert forall|i: int, j: int|
        #![trigger d[i], p[j]]
        0 <= i < d.len() && 0 <= j < p.len() implies d[i].entity != p[j].entity by {
        assert(pending[j] == p[j]);
        if i == d.len() - 1 {
            assert(pending[pending.len() - 1] == item);
        } else {
            assert(done[i] == d[i]);
        }
    }
    assert forall|j: int|
        0 <= j < p.len() && (#[trigger] p[j]).parent is Some implies in_plan(d, p[j].parent->0) by {
        assert(pending[j] == p[j]);
        let k = choose|k: int| 0 <= k < done.len() && #[trigger] done[k].entity == p[j].parent->0;
        assert(d[k] == done[k]);
    }
    assert forall|j: int| 0 <= j < p.len() implies (#[trigger] p[j]).parent == parent_of(
        s,
        p[j].entity,
    ) by {
        assert(pending[j] == p[j]);
    }
    assert forall|i: int| 0 <= i < d.len() implies (#[trigger] d[i]).parent == parent_of(
        s,
        d[i].entity,
    ) by {
        if i == d.len() - 1 {
            assert(pending[pending.len() - 1] == item);
        } else {
            assert(done[i] == d[i]);
        }
    }
    assert forall|j: int, k: int|
        #![trigger p[j], p[k]]
        0 <= j < k < p.len() implies p[j].entity != p[k].entity by {
        assert(pending[j] == p[j]);
        assert(pending[k] == p[k]);
    }
}

/// Moves the last queued step to the compositions made.
proof fn lemma_progress_emit(s: Seq<Record>, done: Seq<Step>, pending: Seq<Step>, seen: Set<EntityId>)
    requires
        progress(s, done, pending, seen),
        pending.len() > 0,
    ensures
        progress(s, done.push(pending.last()), pending.drop_last(), seen),
        in_plan(done.push(pending.last()), pending.last().entity),
        reachable(s, pending.last().entity),
{
    reveal(progress);
    lemma_emit_membership(done, pending, seen);
    lemma_emit_ordered(s, done, pending);
    lemma_emit_rest(s, done, pending);
}

proof fn lemma_complete(s: Seq<Record>, done: Seq<Step>, seen: Set<EntityId>, e: EntityId, n: nat)
    requires
        unique_entities(s),
        roots_seen(s, seen),
        children_seen(s, done, done.len() as int, seen),
        forall|x: EntityId| #[trigger] seen.contains(x) <==> in_plan(done, x),
        rooted_at(s, e, n),
    ensures
        seen.contains(e),
    decreases n,
{
    let i = choose|i: int| 0 <= i < s.len() && #[trigger] s[i].entity == e;
    lemma_record_at(s, i);
    if n == 0 {
        assert(s[i].has_matrix && s[i].parent is None);
    } else {
        let p = parent_of(s, e)->0;
        lemma_complete(s, done, seen, p, (n - 1) as nat);
        assert(in_plan(done, p));
        let k = choose|k: int| 0 <= k < done.len() && #[trigger] done[k].entity == p;
        lemma_children_in(s, p, e);
        assert(children_in(s, done[k].entity).contains(e));
    }
}

/// Queues every root of the store, in store order.
fn collect_roots(store: &Vec<Record>) -> (r: (HashSet<EntityId>, Vec<Step>))
    requires
        unique_entities(store@),
    ensures
        progress(store@, seq![], r.1@, r.0@),
        roots_seen(store@, r.0@),
{
    let ghost s = store@;
    let n = store.len();
    let mut seen: HashSet<EntityId> = HashSet::new();
    let mut pending: Vec<Step> = Vec::new();
    proof {
        lemma_progress_start(s);
    }
    for i in 0..n
        invariant
            n == s.len(),
            s == store@,
            unique_entities(s),
            progress(s, seq![], pending@, seen@),
            forall|j: int|
                0 <= j < i && s[j].has_matrix && s[j].parent is None ==> seen@.contains(
                    #[trigger] s[j].entity,
                ),
    {
        let r = store[i];
        if r.has_matrix && r.parent.is_none() && !seen.contains(&r.entity) {
            let st = Step { entity: r.entity, parent: None };
            proof {
                lemma_record_at(s, i as int);
                assert(rooted_at(s, r.entity, 0));
                lemma_progress_push(s, seq![], pending@, seen@, st);
            }
            seen.insert(r.entity);
            pending.push(st);
        }
    }
    (seen, pending)
}

/// Queues the children of the entity just composed (the last of `steps`)
/// that carry a Local Matrix and are not yet seen.
fn queue_children(
    store: &Vec<Record>,
    index: &HashMap<EntityId, usize>,
    parent: EntityId,
    kids: &Vec<EntityId>,
    steps: &Vec<Step>,
    pending: &mut Vec<Step>,
    seen: &mut HashSet<EntityId>,
)
    requires
        unique_entities(store@),
        indexes(store@, index@),
        steps@.len() > 0,
        parent == steps@.last().entity,
        kids@ == children_in(store@, steps@.last().entity),
        in_plan(steps@, steps@.last().entity),
        reachable(store@, steps@.last().entity),
        progress(store@, steps@, old(pending)@, old(seen)@),
        roots_seen(store@, old(seen)@),
        children_seen(store@, steps@, steps@.len() - 1, old(seen)@),
    ensures
        progress(store@, steps@, final(pending)@, final(seen)@),
        roots_seen(store@, final(seen)@),
        children_seen(store@, steps@, steps@.len() as int, final(seen)@),
        final(seen)@.len() - old(seen)@.len() == final(pending)@.len() - old(pending)@.len(),
        old(pending)@.len() <= final(pending)@.len(),
{
    let ghost s = store@;
    let ghost item = steps@.last();
    proof {
        lemma_progress_seen(s, steps@, pending@, seen@);
    }
    let m = kids.len();
    for k in 0..m
        invariant
            s == store@,
            unique_entities(s),
            indexes(s, index@),
            m == kids@.len(),
            kids@ == children_in(s, item.entity),
            item == steps@.last(),
            parent == item.entity,
            steps@.len() > 0,
            in_plan(steps@, item.entity),
            reachable(s, item.entity),
            progress(s, steps@, pending@, seen@),
            old(seen)@.subset_of(seen@),
            seen@.len() - old(seen)@.len() == pending@.len() - old(pending)@.len(),
            old(pending)@.len() <= pending@.len(),
            old(seen)@.finite(),
            forall|j: int|
                0 <= j < k && has_matrix(s, #[trigger] kids@[j]) ==> seen@.contains(kids@[j]),
    {
        let c = kids[k];
        let ghost seen_k = seen@;
        proof {
            lemma_children_in(s, item.entity, c);
            assert(kids@[k as int] == c);
            assert(kids@.contains(c));
            let i = choose|i: int|
                0 <= i < s.len() && #[trigger] s[i].entity == c && s[i].parent == Some(item.entity);
            lemma_record_at(s, i);
        }
        if let Some(rec) = lookup(store, index, c) {
            if rec.has_matrix && !seen.contains(&c) {
                let st = Step { entity: c, parent: Some(parent) };
                proof {
                    let nn = choose|nn: nat| #[trigger] rooted_at(s, item.entity, nn);
                    assert(rooted_at(s, c, nn + 1));
                    lemma_progress_push(s, steps@, pending@, seen@, st);
                }
                seen.insert(c);
                pending.push(st);
            }
        }
        proof {
            assert forall|j: int| 0 <= j < k + 1 && has_matrix(s, #[trigger] kids@[j]) implies seen@.contains(
                kids@[j],
            ) by {
                if j < k {
                    assert(seen_k.contains(kids@[j]));
                }
            }
        }
    }
    proof {
        let d = steps@;
        assert forall|i: int, c: EntityId|
            0 <= i < d.len() && #[trigger] children_in(s, d[i].entity).contains(c) && has_matrix(
                s,
                c,
            ) implies seen@.contains(c) by {
            if i == d.len() - 1 {
                let j = choose|j: int| 0 <= j < kids@.len() && kids@[j] == c;
                assert(has_matrix(s, kids@[j]));
            } else {
                assert(old(seen)@.contains(c));
                assert(old(seen)@.subset_of(seen@));
            }
        }
    }
}

/// The faults of the store, given the set of entities a root reaches.
fn report_faults(store: &Vec<Record>, index: &HashMap<EntityId, usize>, seen: &HashSet<EntityId>) -> (r: Vec<Fault>)
    requires
        unique_entities(store@),
        indexes(store@, index@),
        forall|x: EntityId| #[trigger] seen@.contains(x) <==> reachable(store@, x),
    ensures
        r@ == faults_of(store@),
{
    let ghost s = store@;
    let n = store.len();
    let mut faults: Vec<Fault> = Vec::new();
    for i in 0..n
        invariant
            n == s.len(),
            s == store@,
            unique_entities(s),
            indexes(s, index@),
            forall|x: EntityId| #[trigger] seen@.contains(x) <==> reachable(s, x),
            faults@ == faults_upto(s, i as nat),
    {
        let r = store[i];
        let ghost prev = faults@;
        if let Some(p) = r.parent {
            if !seen.contains(&r.entity) {
                let mut any = false;
                if lookup(store, index, p).is_none() {
                    faults.push(Fault { entity: r.entity, kind: FaultKind::DanglingParent });
                    any = true;
                } else if detect_cycle(store, index, r.entity) {
                    faults.push(Fault { entity: r.entity, kind: FaultKind::Cycle });
                    any = true;
                }
                if !r.has_matrix {
                    faults.push(Fault { entity: r.entity, kind: FaultKind::MissingLocalMatrix });
                    any = true;
                }
                if !any {
                    faults.push(Fault { entity: r.entity, kind: FaultKind::DetachedAncestor });
                }
            }
        }
        proof {
            assert(faults@ =~= prev + faults_of_record(s, r));
        }
    }
    faults
}

/// The Transform Propagator. From every root, down `hierarchy`, lists the
/// compositions that resolve World Matrices, parent before child, and
/// reports in store order every entity with a Parent Relation that no root
/// reaches.
pub fn propagate(store: &Vec<Record>, hierarchy: &HierarchyMap) -> (r: Resolution)
    requires
        unique_entities(store@),
        hierarchy@ == hierarchy_of(store@),
    ensures
        valid_plan(store@, r.steps@),
        r.faults@ == faults_of(store@),
{
    let ghost s = store@;
    let index = build_index(store);
    let (mut seen, mut pending) = collect_roots(store);
    let mut steps: Vec<Step> = Vec::new();
    while pending.len() > 0
        invariant
            s == store@,
            unique_entities(s),
            hierarchy@ == hierarchy_of(s),
            indexes(s, index@),
            progress(s, steps@, pending@, seen@),
            roots_seen(s, seen@),
            children_seen(s, steps@, steps@.len() as int, seen@),
        decreases entities(s).len() - seen@.len(), pending@.len(),
    {
        proof {
            lemma_progress_seen(s, steps@, pending@, seen@);
            lemma_progress_emit(s, steps@, pending@, seen@);
        }
        let ghost seen0 = seen@;
        let ghost steps0 = steps@;
        let ghost old_len = pending@.len();
        let item = pending.pop().unwrap();
        steps.push(item);
        let none: Vec<EntityId> = Vec::new();
        let kids: &Vec<EntityId> = match hierarchy.children(item.entity) {
            Some(v) => v,
            None => &none,
        };
        proof {
            if !hierarchy@.contains_key(item.entity) {
                assert(children_in(s, item.entity) =~= seq![]);
            }
            assert(steps@.last() == item);
            assert forall|i: int, c: EntityId|
                0 <= i < steps@.len() - 1 && #[trigger] children_in(s, steps@[i].entity).contains(c)
                    && has_matrix(s, c) implies seen@.contains(c) by {
                assert(steps@[i] == steps0[i]);
            }
        }
        let ghost mid = pending@.len();
        queue_children(store, &index, item.entity, kids, &steps, &mut pending, &mut seen);
        proof {
            lemma_progress_seen(s, steps@, pending@, seen@);
            assert(mid + 1 == old_len);
            if seen@.len() == seen0.len() {
                assert(pending@.len() < old_len);
            }
        }
    }
    proof {
        lemma_progress_seen(s, steps@, pending@, seen@);
        assert forall|e: EntityId| reachable(s, e) <==> #[trigger] in_plan(steps@, e) by {
            if reachable(s, e) {
                let nn = choose|nn: nat| #[trigger] rooted_at(s, e, nn);
                lemma_complete(s, steps@, seen@, e, nn);
            }
        }
    }
    let faults = report_faults(store, &index, &seen);
    Resolution { steps, faults }
}

/// Both passes on one snapshot: builds the Hierarchy Map, then propagates
/// from every root.
pub fn update_parent_transform_matrix_system(store: &Vec<Record>) -> (r: Resolution)
    requires
        unique_entities(store@),
    ensures
        valid_plan(store@, r.steps@),
        r.faults@ == faults_of(store@),
{
    let hierarchy = build_hierarchy(store);
    propagate(store, &hierarchy)
}

/// The library's entry point for a running program, called once per frame:
/// both passes under the strict policy, where any fault stops the frame. The
/// compositions to perform when every entity with a Parent Relation resolves,
/// otherwise the first fault in store order.
pub fn real_main(store: &Vec<Record>) -> (r: Result<Vec<Step>, Fault>)
    requires
        unique_entities(store@),
    ensures
        r is Ok <==> faults_of(store@).len() == 0,
        r is Ok ==> valid_plan(store@, r->Ok_0@),
        r is Err ==> r->Err_0 == faults_of(store@)[0],
{
    let res = update_parent_transform_matrix_system(store);
    if res.faults.len() == 0 {
        Ok(res.steps)
    } else {
        Err(res.faults[0])
    }
}

} // verus!
