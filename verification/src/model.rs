pub mod conversion;
pub mod scaling;
