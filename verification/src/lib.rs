pub mod algebraic;
pub mod cad;
pub mod decimal;
pub mod exact;
pub mod field;
pub mod isolation;
pub mod matrix;
pub mod numeric;
pub mod poly;
pub mod rational;
pub mod univariate;
