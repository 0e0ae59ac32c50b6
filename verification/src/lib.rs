pub mod nodes;
pub mod number;
pub mod pins;
pub mod shapes;
pub mod solver;
pub mod values;
