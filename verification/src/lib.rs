pub mod codec;
pub mod errors;
pub mod session;
pub mod tasks;
