pub mod cmp;
