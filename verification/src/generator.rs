//! The two code-generation backends.

pub mod cgenerator;
pub mod typstgenerator;
