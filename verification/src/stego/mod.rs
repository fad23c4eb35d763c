pub mod embed;
pub mod chaos;
pub mod bits;
pub mod positions;
pub mod png;
pub mod encoder;
pub mod decoder;
