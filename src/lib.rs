//! Scene-graph transform resolution: from each entity's Parent Relation and
//! whether it carries a Local Matrix, the order in which World Matrices are
//! composed, parent before child, and the entities that cannot be resolved.
pub mod hierarchy;
pub mod propagate;
pub mod store;
pub mod world;

pub use hierarchy::{build_hierarchy, HierarchyMap};
pub use propagate::{
    propagate, real_main, update_parent_transform_matrix_system, Fault, FaultKind, Resolution,
    Step,
};
pub use store::{EntityId, Record};
