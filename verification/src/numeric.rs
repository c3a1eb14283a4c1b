//! Numbers that game values are built from.

pub mod decimal;
pub mod dyadic_rational_number;
pub mod nimber;
pub mod rational;
