//! The discrete half of a build-enumeration fight engine: the scheduler's
//! event kinds and their packed tie-break ranks, the pick of a kit's
//! rotation, the damage-source label table, the merge of item effects, and
//! the item combination enumerator with its legality, budget and placement
//! rules.

pub mod combinations;
pub mod enumerate;
pub mod fight;
pub mod fx;
pub mod pool;
pub mod prep;
