pub mod field_operations;
pub mod number_theory;
pub mod convolution;
pub mod roots;
pub mod polynomials;
