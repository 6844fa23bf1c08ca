//! A loan amortization engine over fixed-point monetary values.
//!
//! Given a principal, an annual interest rate, a compounding frequency, a
//! payment amount and a payment interval, the library decides whether the
//! payment schedule ever pays the loan off, and if so, reports the total
//! interest paid and the time to payoff.
//!
//! Monetary values are held in whole cents and the annual rate in hundredths
//! of a percent, so every step of the simulation is exact integer arithmetic;
//! rounding to whole cents uses round-half-up division (see [`rounding`]).

pub mod duration;
pub mod fin_math;
pub mod rounding;
