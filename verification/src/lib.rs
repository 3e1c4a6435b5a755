//! Configuration model and configuration transformations of a GraphQL
//! gateway, with their behaviour stated and proved.

pub mod config;
pub mod strings;
pub mod strmap;
pub mod strset;
pub mod valid;
