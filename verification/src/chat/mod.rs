pub mod profile;
pub mod session;
