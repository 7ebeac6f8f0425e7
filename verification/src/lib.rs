//! Arbitrary-precision integer and floating-point arithmetic.
//!
//! The crate offers unsigned big integers ([`UBig`](ubig::UBig)), signed big
//! integers ([`IBig`](ibig::IBig)) and a directed-rounding arbitrary-precision
//! float built on top of them.  Values of up to two machine words are stored
//! inline; larger magnitudes live in a heap buffer with an explicit capacity
//! policy.  Every operation carries a contract relating the machine
//! representation to its mathematical value.

pub mod primitive;
pub mod math;
pub mod sign;
pub mod buffer;
pub mod repr;
pub mod add_ops;
pub mod cmp_ops;
pub mod mul_ops;
pub mod shift_ops;
pub mod ubig;
pub mod bits;
pub mod div_ops;
pub mod pow_ops;
pub mod ibig;
pub mod convert;
pub mod gcd_ops;
pub mod log_ops;
pub mod root_ops;
pub mod ring;
pub mod fast_div;
pub mod modular;
pub mod round;
pub mod fbig;
pub mod fops;
pub mod flog;
pub mod laws;
pub mod futils;
