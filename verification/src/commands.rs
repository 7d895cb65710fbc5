//! What the commands decide and compute, once the records they need have been read.
pub mod attachment;
pub mod init;
pub mod project;
pub mod task;
