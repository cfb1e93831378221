pub mod codec;
pub mod layer;
pub mod serialization;
pub mod store;
pub mod tile;
pub mod transform;
