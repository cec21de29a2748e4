pub mod text;
pub mod path;
pub mod util;
pub mod logo;
pub mod sort;
pub mod json;
pub mod browser;
pub mod extensions;
pub mod os;
pub mod output;
