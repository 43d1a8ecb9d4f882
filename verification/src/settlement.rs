//! Settlements: building prefabs, how buildings are packed into a
//! settlement, and how they are stamped onto the map.

pub mod prefab;
pub mod layout;
pub mod stamp;
