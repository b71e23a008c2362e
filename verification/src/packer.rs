pub mod skyline;
pub mod skyline_packer;
