pub mod codec;
pub mod keyed;
pub mod log;
pub mod store;
pub mod laws;
pub mod memstore;
