pub mod sift;
