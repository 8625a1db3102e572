pub mod animation;
pub mod bits;
pub mod encoder;
pub mod laws;
pub mod player;
