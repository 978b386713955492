//! Succinct bit-packed sequence structures: a bit vector with constant-time
//! rank and sublinear-space select, an Elias-Fano representation of
//! non-decreasing integer sequences, and a wavelet matrix over fixed-width
//! symbols.

pub mod bits;
pub mod bitv;
pub mod elias_fano;
pub mod rank_select;
pub mod wm;
