//! The Hierarchy Builder: an index from each parent to its direct children,
//! rebuilt from the store's Parent Relations every frame.
use crate::store::{EntityId, Record};
use std::collections::HashMap;
use vstd::prelude::*;

verus! {

/// The children whose Parent Relation names `p`, in the order the snapshot
/// lists them.
pub open spec fn children_in(s: Seq<Record>, p: EntityId) -> Seq<EntityId>
    decreases s.len(),
{
    if s.len() == 0 {
        seq![]
    } else {
        let rest = children_in(s.drop_last(), p);
        if s.last().parent == Some(p) {
            rest.push(s.last().entity)
        } else {
            rest
        }
    }
}

/// The Hierarchy Map of a snapshot: every entity that some Parent Relation
/// names, with its children in store order.
pub open spec fn hierarchy_of(s: Seq<Record>) -> Map<EntityId, Seq<EntityId>> {
    Map::new(|p: EntityId| children_in(s, p).len() > 0, |p: EntityId| children_in(s, p))
}

/// An entity is a child of `p` exactly when some record lists it with `p` as
/// its parent.
pub proof fn lemma_children_in(s: Seq<Record>, p: EntityId, c: EntityId)
    ensures
        children_in(s, p).contains(c) <==> exists|i: int|
            0 <= i < s.len() && #[trigger] s[i].entity == c && s[i].parent == Some(p),
    decreases s.len(),
{
    if s.len() > 0 {
        let d = s.drop_last();
        lemma_children_in(d, p, c);
        if children_in(s, p).contains(c) {
            if children_in(d, p).contains(c) {
                let i = choose|i: int|
                    0 <= i < d.len() && #[trigger] d[i].entity == c && d[i].parent == Some(p);
                assert(s[i].entity == c);
            } else {
                assert(s[s.len() - 1].entity == c);
            }
        }
        if exists|i: int| 0 <= i < s.len() && #[trigger] s[i].entity == c && s[i].parent == Some(p) {
            let i = choose|i: int|
                0 <= i < s.len() && #[trigger] s[i].entity == c && s[i].parent == Some(p);
            if i < s.len() - 1 {
                assert(d[i].entity == c);
                let rest = children_in(d, p);
                let k = choose|k: int| 0 <= k < rest.len() && rest[k] == c;
                if s.last().parent == Some(p) {
                    assert(children_in(s, p)[k] == c);
                }
            } else {
                assert(children_in(s, p).last() == c);
            }
        }
    }
}

/// The transient parent-to-children index of one resolution pass.
pub struct HierarchyMap {
    map: HashMap<EntityId, Vec<EntityId>>,
}

impl View for HierarchyMap {
    type V = Map<EntityId, Seq<EntityId>>;

    closed spec fn view(&self) -> Map<EntityId, Seq<EntityId>> {
        Map::new(|p: EntityId| self.map@.contains_key(p), |p: EntityId| self.map@[p]@)
    }
}

impl HierarchyMap {
    /// The direct children of `parent`, or `None` where it has none.
    pub fn children(&self, parent: EntityId) -> (r: Option<&Vec<EntityId>>)
        ensures
            r is Some <==> self@.contains_key(parent),
            r is Some ==> r->0@ == self@[parent],
    {
        self.map.get(&parent)
    }
}

/// Builds the Hierarchy Map from the Parent Relations of a snapshot: each
/// parent maps to its children in the order they are listed.
pub fn build_hierarchy(store: &Vec<Record>) -> (h: HierarchyMap)
    ensures
        h@ == hierarchy_of(store@),
{
    let mut map: HashMap<EntityId, Vec<EntityId>> = HashMap::new();
    let n = store.len();
    for i in 0..n
        invariant
            n == store@.len(),
            forall|p: EntityId|
                #[trigger] map@.contains_key(p) <==> children_in(store@.take(i as int), p).len() > 0,
            forall|p: EntityId|
                #[trigger] map@.contains_key(p) ==> map@[p]@ == children_in(store@.take(i as int), p),
    {
        let r = store[i];
        proof {
            assert(store@.take(i + 1).drop_last() =~= store@.take(i as int));
            assert(store@.take(i + 1).last() == r);
        }
        if let Some(p) = r.parent {
            let mut kids = match map.remove(&p) {
                Some(v) => v,
                None => Vec::new(),
            };
            kids.push(r.entity);
            map.insert(p, kids);
        }
    }
    assert(store@.take(n as int) =~= store@);
    let h = HierarchyMap { map };
    assert(h@ =~= hierarchy_of(store@));
    h
}

} // verus!
