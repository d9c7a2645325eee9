pub mod bislice;
pub mod bislice_mut;
pub mod util;
pub mod yin;
pub mod note;
