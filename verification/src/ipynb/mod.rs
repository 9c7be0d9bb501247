//! The `.ipynb` document model.

pub mod model;
