//! What carrying out a plan does to World Matrices, and the laws that
//! follow. A World Matrix is taken in symbolic form: the entities whose Local
//! Matrices are multiplied to give it, outermost first.
use crate::propagate::{
    ancestor, faults_of, faults_of_record, faults_upto, in_plan, ordered, reachable, rooted_at, valid_plan, Step,
};
use crate::propagate::on_cycle;
use crate::store::{
    entities, has_matrix, is_root, lemma_entities, lemma_record_at, parent_of, present,
    unique_entities, EntityId, Record,
};
use vstd::prelude::*;

verus! {

/// World Matrices in symbolic form, by entity.
pub type Worlds = Map<EntityId, Seq<EntityId>>;

/// One composition: a root's World Matrix is its Local Matrix; a child's is
/// its parent's World Matrix times its own Local Matrix.
pub open spec fn apply_step(w: Worlds, st: Step) -> Worlds {
    match st.parent {
        None => w.insert(st.entity, seq![st.entity]),
        Some(p) => w.insert(st.entity, w[p].push(st.entity)),
    }
}

/// The World Matrices after carrying out `steps` in order, starting from `w`.
pub open spec fn world_after(steps: Seq<Step>, w: Worlds) -> Worlds
    decreases steps.len(),
{
    if steps.len() == 0 {
        w
    } else {
        apply_step(world_after(steps.drop_last(), w), steps.last())
    }
}

proof fn lemma_untouched_by_plan(steps: Seq<Step>, w: Worlds, e: EntityId)
    ensures
        world_after(steps, w).contains_key(e) <==> (w.contains_key(e) || in_plan(steps, e)),
        !in_plan(steps, e) ==> world_after(steps, w)[e] == w[e],
    decreases steps.len(),
{
    if steps.len() > 0 {
        let d = steps.drop_last();
        lemma_untouched_by_plan(d, w, e);
        if in_plan(d, e) {
            let i = choose|i: int| 0 <= i < d.len() && #[trigger] d[i].entity == e;
            assert(steps[i].entity == e);
        }
        if in_plan(steps, e) && steps.last().entity != e {
            let i = choose|i: int| 0 <= i < steps.len() && #[trigger] steps[i].entity == e;
            assert(d[i].entity == e);
        }
        if steps.last().entity == e {
            assert(steps[steps.len() - 1].entity == e);
        }
    }
}

proof fn lemma_ordered_prefix(steps: Seq<Step>)
    requires
        ordered(steps),
        steps.len() > 0,
    ensures
        ordered(steps.drop_last()),
{
    let d = steps.drop_last();
    assert forall|i: int, j: int|
        #![trigger d[i], d[j]]
        0 <= i < j < d.len() implies d[i].entity != d[j].entity by {
        assert(steps[i] == d[i] && steps[j] == d[j]);
    }
    assert forall|i: int|
        0 <= i < d.len() && (#[trigger] d[i]).parent is Some implies exists|j: int|
            0 <= j < i && #[trigger] d[j].entity == d[i].parent->0 by {
        assert(steps[i] == d[i]);
        let j = choose|j: int| 0 <= j < i && #[trigger] steps[j].entity == steps[i].parent->0;
        assert(d[j] == steps[j]);
    }
}

/// In an ordered plan every composition sees its parent's final World Matrix.
proof fn lemma_final_value(steps: Seq<Step>, w: Worlds, i: int)
    requires
        ordered(steps),
        0 <= i < steps.len(),
    ensures
        world_after(steps, w)[steps[i].entity] == match steps[i].parent {
            None => seq![steps[i].entity],
            Some(p) => world_after(steps, w)[p].push(steps[i].entity),
        },
    decreases steps.len(),
{
    let d = steps.drop_last();
    let last = steps.last();
    let n = steps.len() - 1;
    assert(steps[n] == last);
    if let Some(p) = steps[i].parent {
        let j = choose|j: int| 0 <= j < i && #[trigger] steps[j].entity == p;
        assert(steps[j].entity != last.entity);
    }
    if i < n {
        lemma_ordered_prefix(steps);
        lemma_final_value(d, w, i);
        assert(d[i] == steps[i]);
        assert(steps[i].entity != last.entity);
    }
}

proof fn lemma_agree_at(s: Seq<Record>, p1: Seq<Step>, p2: Seq<Step>, w1: Worlds, w2: Worlds, i: int)
    requires
        valid_plan(s, p1),
        valid_plan(s, p2),
        0 <= i < p1.len(),
    ensures
        world_after(p1, w1)[p1[i].entity] == world_after(p2, w2)[p1[i].entity],
    decreases i,
{
    let e = p1[i].entity;
    assert(in_plan(p1, e));
    assert(in_plan(p2, e));
    let k = choose|k: int| 0 <= k < p2.len() && #[trigger] p2[k].entity == e;
    lemma_final_value(p1, w1, i);
    lemma_final_value(p2, w2, k);
    if let Some(p) = p1[i].parent {
        let j = choose|j: int| 0 <= j < i && #[trigger] p1[j].entity == p;
        lemma_agree_at(s, p1, p2, w1, w2, j);
    }
}

/// After a pass, an entity that a root reaches has as World Matrix its
/// parent's World Matrix times its own Local Matrix; a root has its Local
/// Matrix alone.
pub proof fn lemma_world_composition(s: Seq<Record>, steps: Seq<Step>, w: Worlds, e: EntityId)
    requires
        valid_plan(s, steps),
        reachable(s, e),
    ensures
        world_after(steps, w).contains_key(e),
        world_after(steps, w)[e] == match parent_of(s, e) {
            None => seq![e],
            Some(p) => world_after(steps, w)[p].push(e),
        },
{
    assert(in_plan(steps, e));
    let i = choose|i: int| 0 <= i < steps.len() && #[trigger] steps[i].entity == e;
    lemma_final_value(steps, w, i);
    lemma_untouched_by_plan(steps, w, e);
}

/// A root's World Matrix after a pass is exactly its Local Matrix.
pub proof fn lemma_root_identity(s: Seq<Record>, steps: Seq<Step>, w: Worlds, e: EntityId)
    requires
        valid_plan(s, steps),
        is_root(s, e),
    ensures
        world_after(steps, w).contains_key(e),
        world_after(steps, w)[e] == seq![e],
{
    assert(rooted_at(s, e, 0));
    lemma_world_composition(s, steps, w, e);
}

proof fn lemma_fault_has_parent(s: Seq<Record>, n: nat, k: int)
    requires
        0 <= k < faults_upto(s, n).len(),
    ensures
        exists|i: int|
            0 <= i < s.len() && #[trigger] s[i].entity == faults_upto(s, n)[k].entity
                && s[i].parent is Some,
    decreases n,
{
    if n > 0 && n <= s.len() {
        let prev = faults_upto(s, (n - 1) as nat);
        let own = faults_of_record(s, s[n - 1]);
        assert(faults_upto(s, n) == prev + own);
        if k < prev.len() {
            lemma_fault_has_parent(s, (n - 1) as nat, k);
            assert(faults_upto(s, n)[k] == prev[k]);
        } else {
            assert(faults_upto(s, n)[k] == own[k - prev.len()]);
            assert(own[k - prev.len()].entity == s[n - 1].entity);
            assert(s[n - 1].entity == faults_upto(s, n)[k].entity);
        }
    }
}

/// An entity with neither a Local Matrix nor a Parent Relation keeps what it
/// held, and no fault names it.
pub proof fn lemma_untouched(s: Seq<Record>, steps: Seq<Step>, w: Worlds, e: EntityId)
    requires
        unique_entities(s),
        valid_plan(s, steps),
        !has_matrix(s, e),
        parent_of(s, e) is None,
    ensures
        world_after(steps, w).contains_key(e) == w.contains_key(e),
        world_after(steps, w)[e] == w[e],
        forall|k: int| 0 <= k < faults_of(s).len() ==> (#[trigger] faults_of(s)[k]).entity != e,
{
    assert forall|n: nat| !(#[trigger] rooted_at(s, e, n)) by {
        if n > 0 {
            assert(!has_matrix(s, e));
        }
    }
    assert(!in_plan(steps, e));
    lemma_untouched_by_plan(steps, w, e);
    assert forall|k: int| 0 <= k < faults_of(s).len() implies (#[trigger] faults_of(s)[k]).entity
        != e by {
        lemma_fault_has_parent(s, s.len(), k);
        let i = choose|i: int|
            0 <= i < s.len() && #[trigger] s[i].entity == faults_of(s)[k].entity && s[i].parent is Some;
        lemma_record_at(s, i);
    }
}

/// Any two correct plans of one snapshot resolve an entity to the same World
/// Matrix, whatever order they visit siblings in and whatever was held before.
pub proof fn lemma_order_independent(
    s: Seq<Record>,
    p1: Seq<Step>,
    p2: Seq<Step>,
    w1: Worlds,
    w2: Worlds,
    e: EntityId,
)
    requires
        valid_plan(s, p1),
        valid_plan(s, p2),
        reachable(s, e),
    ensures
        world_after(p1, w1)[e] == world_after(p2, w2)[e],
{
    assert(in_plan(p1, e));
    let i = choose|i: int| 0 <= i < p1.len() && #[trigger] p1[i].entity == e;
    lemma_agree_at(s, p1, p2, w1, w2, i);
}

/// Running the pass a second time on an unchanged snapshot changes no World
/// Matrix.
pub proof fn lemma_idempotent(s: Seq<Record>, p1: Seq<Step>, p2: Seq<Step>, w: Worlds)
    requires
        valid_plan(s, p1),
        valid_plan(s, p2),
    ensures
        world_after(p2, world_after(p1, w)) == world_after(p1, w),
{
    let w1 = world_after(p1, w);
    let w2 = world_after(p2, w1);
    assert forall|x: EntityId| #[trigger] w2.contains_key(x) <==> w1.contains_key(x) by {
        lemma_untouched_by_plan(p1, w, x);
        lemma_untouched_by_plan(p2, w1, x);
    }
    assert forall|x: EntityId| #[trigger] w2.contains_key(x) implies w2[x] == w1[x] by {
        lemma_untouched_by_plan(p2, w1, x);
        if in_plan(p2, x) {
            lemma_order_independent(s, p2, p1, w1, w, x);
        }
    }
    assert(w2 =~= w1);
}

/// Every Parent Relation of the snapshot resolves: its child and its parent
/// carry a Local Matrix (so the parent is in the store), and the child lies
/// on no cycle.
pub open spec fn well_formed_forest(s: Seq<Record>) -> bool {
    forall|i: int|
        0 <= i < s.len() && (#[trigger] s[i]).parent is Some ==> s[i].has_matrix && has_matrix(
            s,
            s[i].parent->0,
        ) && !on_cycle(s, s[i].entity)
}

/// Climbs from `e` towards a root; `path` holds the entities climbed from,
/// each of which has `e` as an ancestor.
proof fn lemma_climb(s: Seq<Record>, e: EntityId, path: Seq<EntityId>)
    requires
        unique_entities(s),
        well_formed_forest(s),
        has_matrix(s, e),
        path.no_duplicates(),
        !path.contains(e),
        forall|i: int| 0 <= i < path.len() ==> present(s, #[trigger] path[i]),
        forall|i: int|
            0 <= i < path.len() ==> parent_of(s, #[trigger] path[i]) is Some && ancestor(
                s,
                path[i],
                (path.len() - i) as nat,
            ) == Some(e),
    ensures
        reachable(s, e),
    decreases s.len() - path.len(),
{
    let next = path.push(e);
    assert forall|x: EntityId| next.to_set().contains(x) implies entities(s).contains(x) by {
        let i = choose|i: int| 0 <= i < next.len() && next[i] == x;
        lemma_entities(s, x);
        if i < path.len() {
            assert(present(s, path[i]));
        }
    }
    assert(next.no_duplicates()) by {
        assert forall|i: int, j: int| 0 <= i < j < next.len() implies next[i] != next[j] by {
            if j == path.len() {
                assert(path.contains(path[i]));
            } else {
                assert(path[i] == next[i] && path[j] == next[j]);
            }
        }
    }
    next.unique_seq_to_set();
    lemma_entities(s, e);
    vstd::set_lib::lemma_len_subset(next.to_set(), entities(s));
    s.map_values(|r: Record| r.entity).lemma_cardinality_of_set();
    let k = choose|k: int| 0 <= k < s.len() && #[trigger] s[k].entity == e;
    lemma_record_at(s, k);
    match parent_of(s, e) {
        None => {
            assert(rooted_at(s, e, 0));
        },
        Some(p) => {
            assert(ancestor(s, e, 0) == Some(e));
            assert(ancestor(s, e, 1) == Some(p));
            assert forall|i: int|
                0 <= i < next.len() implies parent_of(s, #[trigger] next[i]) is Some && ancestor(
                s,
                next[i],
                (next.len() - i) as nat,
            ) == Some(p) by {
                if i < path.len() {
                    assert(next[i] == path[i]);
                    assert(ancestor(s, path[i], (path.len() - i) as nat) == Some(e));
                }
            }
            if next.contains(p) {
                let i = choose|i: int| 0 <= i < next.len() && next[i] == p;
                let x = next[i];
                let m = (next.len() - i) as nat;
                assert(ancestor(s, x, m) == Some(x));
                let j = choose|j: int| 0 <= j < s.len() && #[trigger] s[j].entity == x;
                lemma_record_at(s, j);
                assert(on_cycle(s, x));
            }
            assert forall|i: int| 0 <= i < next.len() implies present(s, #[trigger] next[i]) by {
                if i < path.len() {
                    assert(next[i] == path[i]);
                }
            }
            lemma_climb(s, p, next);
            let n = choose|n: nat| #[trigger] rooted_at(s, p, n);
            assert(rooted_at(s, e, n + 1));
        },
    }
}

/// In a well-formed forest a root reaches every entity that carries a Local
/// Matrix.
pub proof fn lemma_forest_reachable(s: Seq<Record>, e: EntityId)
    requires
        unique_entities(s),
        well_formed_forest(s),
        has_matrix(s, e),
    ensures
        reachable(s, e),
{
    lemma_climb(s, e, seq![]);
}

/// After the Parent Relations change between two frames (the hierarchy
/// staying a well-formed forest), the next pass gives every entity with a
/// Local Matrix the World Matrix that the new hierarchy alone defines: its new
/// parent's World Matrix times its Local Matrix, or its Local Matrix alone
/// where it became a root. Nothing of the earlier frame's results remains.
pub proof fn lemma_reparenting(
    s1: Seq<Record>,
    s2: Seq<Record>,
    p1: Seq<Step>,
    p2: Seq<Step>,
    w: Worlds,
    fresh: Worlds,
    e: EntityId,
)
    requires
        valid_plan(s1, p1),
        valid_plan(s2, p2),
        unique_entities(s2),
        well_formed_forest(s2),
        has_matrix(s2, e),
    ensures
        world_after(p2, world_after(p1, w))[e] == world_after(p2, fresh)[e],
        world_after(p2, world_after(p1, w))[e] == match parent_of(s2, e) {
            None => seq![e],
            Some(q) => world_after(p2, world_after(p1, w))[q].push(e),
        },
{
    lemma_forest_reachable(s2, e);
    lemma_order_independent(s2, p2, p2, world_after(p1, w), fresh, e);
    lemma_world_composition(s2, p2, world_after(p1, w), e);
}

/// For a chain root → A → B, A's World Matrix is Local(root)·Local(A) and B's
/// is Local(root)·Local(A)·Local(B): the offsets accumulate.
pub proof fn lemma_accumulation(
    s: Seq<Record>,
    steps: Seq<Step>,
    w: Worlds,
    root: EntityId,
    a: EntityId,
    b: EntityId,
)
    requires
        valid_plan(s, steps),
        is_root(s, root),
        has_matrix(s, a),
        parent_of(s, a) == Some(root),
        has_matrix(s, b),
        parent_of(s, b) == Some(a),
    ensures
        world_after(steps, w)[a] == seq![root, a],
        world_after(steps, w)[b] == seq![root, a, b],
{
    assert(rooted_at(s, root, 0));
    assert(rooted_at(s, a, 1));
    assert(rooted_at(s, b, 2));
    lemma_root_identity(s, steps, w, root);
    lemma_world_composition(s, steps, w, a);
    lemma_world_composition(s, steps, w, b);
    assert(seq![root].push(a) =~= seq![root, a]);
    assert(seq![root, a].push(b) =~= seq![root, a, b]);
}

proof fn lemma_ancestor_shift(s: Seq<Record>, e: EntityId, p: EntityId, k: nat)
    requires
        parent_of(s, e) == Some(p),
    ensures
        ancestor(s, e, k + 1) == ancestor(s, p, k),
    decreases k,
{
    if k > 0 {
        lemma_ancestor_shift(s, e, p, (k - 1) as nat);
        assert(ancestor(s, e, k) == ancestor(s, p, (k - 1) as nat));
    } else {
        assert(ancestor(s, e, 0) == Some(e));
        assert(ancestor(s, p, 0) == Some(p));
    }
}

/// An entity `n` Parent Relations below a root has as World Matrix the
/// product of the Local Matrices of its lineage, from the root down to
/// itself: position `n - k` holds its ancestor `k` levels up.
pub proof fn lemma_world_is_lineage(s: Seq<Record>, steps: Seq<Step>, w: Worlds, e: EntityId, n: nat)
    requires
        valid_plan(s, steps),
        rooted_at(s, e, n),
    ensures
        world_after(steps, w)[e].len() == n + 1,
        is_root(s, world_after(steps, w)[e][0]),
        forall|k: nat| k <= n ==> Some(#[trigger] world_after(steps, w)[e][n - k]) == ancestor(s, e, k),
    decreases n,
{
    let we = world_after(steps, w)[e];
    lemma_world_composition(s, steps, w, e);
    if n == 0 {
        assert forall|k: nat| k <= n implies Some(#[trigger] world_after(steps, w)[e][n - k]) == ancestor(s, e, k) by {
            assert(k == 0);
        }
    } else {
        let p = parent_of(s, e)->0;
        lemma_world_is_lineage(s, steps, w, p, (n - 1) as nat);
        let wp = world_after(steps, w)[p];
        assert(we == wp.push(e));
        assert(we[0] == wp[0]);
        assert forall|k: nat| k <= n implies Some(#[trigger] world_after(steps, w)[e][n - k]) == ancestor(s, e, k) by {
            if k == 0 {
                assert(we[n - k] == e);
            } else {
                lemma_ancestor_shift(s, e, p, (k - 1) as nat);
                assert(wp[(n - 1) - (k - 1)] == we[n - k]);
                assert(Some(wp[(n - 1) - ((k - 1) as nat)]) == ancestor(s, p, (k - 1) as nat));
            }
        }
    }
}

} // verus!
