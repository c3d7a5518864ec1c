//! Building blocks of a small 2D geometry kernel: the text form of points
//! and lines (WKT `POINT` and `LINESTRING`), lines as ordered runs of two or
//! more vertices, and the symmetric matrix of values between every two items
//! of a batch.
pub mod line;
pub mod grammar;
pub mod matrix;
pub mod wkt;
