pub(crate) mod chance;
pub mod progression;
pub mod puzzle;
pub mod session;
