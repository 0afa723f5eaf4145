//! The snapshot of the entity store that hierarchy resolution reads, and the
//! facts about entities that the rest of the library is stated over.
use std::collections::HashMap;
use vstd::prelude::*;

verus! {

/// An entity of the store, by the bits of its identifier.
pub type EntityId = u64;

/// What the store holds of one entity, as far as hierarchy resolution reads it.
#[derive(Clone, Copy, Debug, PartialEq, Eq)]
pub struct Record {
    pub entity: EntityId,
    /// Whether the entity carries a Local Matrix (and with it a World Matrix).
    pub has_matrix: bool,
    /// The entity's Parent Relation, if it has one.
    pub parent: Option<EntityId>,
}

/// No entity is listed twice in a snapshot.
pub open spec fn unique_entities(s: Seq<Record>) -> bool {
    forall|i: int, j: int|
        0 <= i < s.len() && 0 <= j < s.len() && #[trigger] s[i].entity == #[trigger] s[j].entity
            ==> i == j
}

/// The entity is listed in the snapshot.
pub open spec fn present(s: Seq<Record>, e: EntityId) -> bool {
    exists|i: int| 0 <= i < s.len() && #[trigger] s[i].entity == e
}

/// The record that lists `e` (meaningful where `present(s, e)`).
pub open spec fn record_of(s: Seq<Record>, e: EntityId) -> Record {
    s[choose|i: int| 0 <= i < s.len() && #[trigger] s[i].entity == e]
}

/// The parent that `e`'s Parent Relation names; `None` for an entity with no
/// relation or not in the store.
pub open spec fn parent_of(s: Seq<Record>, e: EntityId) -> Option<EntityId> {
    if present(s, e) {
        record_of(s, e).parent
    } else {
        None
    }
}

/// `e` is in the store and carries a Local Matrix.
pub open spec fn has_matrix(s: Seq<Record>, e: EntityId) -> bool {
    present(s, e) && record_of(s, e).has_matrix
}

/// A root: an entity with a Local Matrix and no Parent Relation.
pub open spec fn is_root(s: Seq<Record>, e: EntityId) -> bool {
    has_matrix(s, e) && parent_of(s, e) is None
}

/// The set of entities listed in the snapshot.
pub open spec fn entities(s: Seq<Record>) -> Set<EntityId> {
    s.map_values(|r: Record| r.entity).to_set()
}

/// In a snapshot without repeats, the record at position `i` is the record of its entity.
pub proof fn lemma_record_at(s: Seq<Record>, i: int)
    requires
        unique_entities(s),
        0 <= i < s.len(),
    ensures
        present(s, s[i].entity),
        record_of(s, s[i].entity) == s[i],
        parent_of(s, s[i].entity) == s[i].parent,
        has_matrix(s, s[i].entity) == s[i].has_matrix,
        entities(s).contains(s[i].entity),
{
    let e = s[i].entity;
    assert(present(s, e));
    let j = choose|j: int| 0 <= j < s.len() && #[trigger] s[j].entity == e;
    assert(s[j].entity == s[i].entity);
    assert(s.map_values(|r: Record| r.entity)[i] == e);
}

/// A present entity is one of `entities(s)`, and that set is finite.
pub proof fn lemma_entities(s: Seq<Record>, e: EntityId)
    ensures
        entities(s).finite(),
        present(s, e) <==> entities(s).contains(e),
{
    let m = s.map_values(|r: Record| r.entity);
    if present(s, e) {
        let i = choose|i: int| 0 <= i < s.len() && #[trigger] s[i].entity == e;
        assert(m[i] == e);
    }
    if entities(s).contains(e) {
        let i = choose|i: int| 0 <= i < m.len() && m[i] == e;
        assert(s[i].entity == e);
    }
}

/// `index` maps each listed entity, and nothing else, to its position.
pub open spec fn indexes(s: Seq<Record>, index: Map<EntityId, usize>) -> bool {
    &&& forall|x: EntityId| #[trigger] index.contains_key(x) <==> present(s, x)
    &&& forall|x: EntityId|
        #[trigger] index.contains_key(x) ==> index[x] < s.len() && s[index[x] as int].entity == x
}

/// Builds the map from each listed entity to its position in the snapshot.
pub fn build_index(store: &Vec<Record>) -> (index: HashMap<EntityId, usize>)
    requires
        unique_entities(store@),
    ensures
        indexes(store@, index@),
{
    let mut index: HashMap<EntityId, usize> = HashMap::new();
    let n = store.len();
    for i in 0..n
        invariant
            n == store@.len(),
            forall|e: EntityId|
                #[trigger] index@.contains_key(e) <==> exists|j: int|
                    0 <= j < i && #[trigger] store@[j].entity == e,
            forall|e: EntityId|
                #[trigger] index@.contains_key(e) ==> index@[e] < i && store@[index@[e] as int].entity
                    == e,
    {
        index.insert(store[i].entity, i);
        assert forall|e: EntityId| #[trigger] index@.contains_key(e) <==> exists|j: int|
            0 <= j < i + 1 && #[trigger] store@[j].entity == e by {
            if e == store@[i as int].entity {
                assert(store@[i as int].entity == e);
            }
        }
    }
    index
}

/// Where `e` stands in the store, by way of an index from `build_index`.
pub fn lookup(store: &Vec<Record>, index: &HashMap<EntityId, usize>, e: EntityId) -> (r: Option<
    Record,
>)
    requires
        unique_entities(store@),
        indexes(store@, index@),
    ensures
        r is Some <==> present(store@, e),
        r is Some ==> r->0 == record_of(store@, e),
{
    match index.get(&e) {
        Some(i) => {
            proof {
                lemma_record_at(store@, *i as int);
            }
            Some(store[*i])
        },
        None => None,
    }
}

} // verus!
