pub mod serde_error;
