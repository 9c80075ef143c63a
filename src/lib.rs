//! Colour texts and their byte forms.
//!
//! A colour is written either as hexadecimal (`#RRGGBB`, `#RRGGBBAA`) or in
//! CSS functional notation (`rgb(..)`, `rgba(..)`, `hsv(..)`, `hsva(..)`,
//! `hsl(..)`, `hsla(..)`). This crate reads and writes both forms, packs
//! channel bytes into 32-bit integers, and says for each written number how it
//! becomes a channel value: a number and the divisor that its position and its
//! `%` sign call for. Numbers are kept as the decimal digits they are written
//! with, so reading, rounding and displaying them is exact.
pub mod chars;
pub mod color;
pub mod css;
pub mod decimal;
pub mod hex;
pub mod packed;
pub mod round_trip;
