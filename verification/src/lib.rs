//! Data-model preparation and manifest building for an embedded key-value
//! store generator, with the key encoding, the name mangling and the
//! model transformations proved against their specifications.

pub mod strings;
pub mod strmap;
pub mod key;
pub mod model;
pub mod prepare;
pub mod manifest;
pub mod run;
pub mod files;
pub mod rust_kvp;
