pub mod pipeline2;
pub mod pipelin2;
pub mod pipeline;
