pub mod adaptor;
pub mod token;
