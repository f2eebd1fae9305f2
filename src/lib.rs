pub mod pixels;
pub mod canvas;
pub mod region;
pub mod compose;
pub mod rotate;
pub mod utility;
pub mod text;
