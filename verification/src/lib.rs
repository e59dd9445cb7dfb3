//! Small verified building blocks: a stack that remembers every earlier point
//! in time, a heterogeneous bump arena addressed by 4-byte indices, a
//! two-mode integer calculator and a fixed-point Mandelbrot escape counter.
pub mod arena;
pub mod calculator;
pub mod mandelbrot;
pub mod text;
pub mod timestack;
