//! An entity-component-system container: generational entity identities,
//! dense and sparse component storages, and a composable algebra of
//! index-ordered scanners over them.

pub mod component;
pub mod component_scanner;
pub mod dense_component;
pub mod sorted_pairs;
pub mod sparse_component;
pub mod type_map;
pub mod generational_index;
pub mod entity;
pub mod ecs;
pub mod world;
pub mod world_multi_lock;
