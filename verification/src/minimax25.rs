//! A flat database with an IVF cluster index, whose ids are held in a
//! concurrent hash map.

pub mod distance;
pub mod error;
pub mod clustering;
pub mod vector_db;
