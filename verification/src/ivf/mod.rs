pub mod assign;
pub mod centroid;
pub mod entry;
pub mod entry_layout;
pub mod free_list;
pub mod insert;
pub mod list_directory;
pub mod meta_page;
pub mod options;
pub mod probe;
pub mod scan;
pub mod sealing;
pub mod search_laws;
pub mod segment;
pub mod simd;
pub mod vacuum;
