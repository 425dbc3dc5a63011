pub mod terms;
pub mod utils;
