pub mod sway;
