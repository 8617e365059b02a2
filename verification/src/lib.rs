pub mod input;
pub mod matrix;
pub mod pde;
