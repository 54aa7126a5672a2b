//! The names that most users of this crate need.

pub use crate::builder::{spawn_children, SpawnChildBuilder, WithChildren};
pub use crate::bundle::{Bundle, ChildRequest, SpawnChildren};
pub use crate::engine::{force_spawn_children, invoke_spawn_children};
pub use crate::error::SpawnError;
pub use crate::key::SpawnKey;
pub use crate::registry::Spawnables;
pub use crate::spawn::{CommandBuffer, SpawnCommands, SpawnWorld};
pub use crate::store::{EntityId, EntityStore};
