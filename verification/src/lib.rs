pub mod render;
pub mod sim;
