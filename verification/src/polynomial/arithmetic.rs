pub mod addition;
pub mod division;
pub mod multiplication;
pub mod negation;
pub mod subtraction;
