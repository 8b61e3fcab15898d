pub mod icons;
pub mod types;
