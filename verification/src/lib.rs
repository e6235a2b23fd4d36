pub mod bucket;
pub mod codec;
pub mod laws;
pub mod digest;
pub mod rng;
pub mod store;
pub mod token;
pub mod window;
