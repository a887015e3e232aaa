pub mod prometheus;
