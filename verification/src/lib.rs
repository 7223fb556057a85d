pub mod text;
pub mod mora_table;
pub mod romaji;
pub mod skk;
pub mod fst_map;
pub mod compiled;
pub mod dictionary;
pub mod searcher;
pub mod complete;
pub mod launcher;
pub mod tui;
