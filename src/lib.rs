pub mod codec;
pub mod inverse;
pub mod model;
pub mod ops;
pub mod ot;
pub mod session;
pub mod store;
