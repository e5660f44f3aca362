pub mod char_map;
pub mod wubi86;
