//! Layout coordination for a tree of boxes: a worker that owns the box-layout
//! engine applies topology requests in order and, on measurement, reports the
//! absolute boxes that changed since the previous measurement.

pub mod children;
pub mod engine;
pub mod geometry;
pub mod propagate;
pub mod topology;
pub mod worker;
