pub mod bin;
pub mod generate;
pub mod plan;
pub mod validate;
