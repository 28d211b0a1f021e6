pub mod entities;
pub mod entity;
pub mod pool;

pub use entities::Entities;
pub use entity::Entity;
pub use pool::Pool;
