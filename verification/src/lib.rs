//! Splitting a receipt's total between people by ratio, with decimal
//! arithmetic delegated to `rust_decimal`.
pub mod decimal;
pub mod error;
pub mod receipt;
