pub mod closer_cache;
pub mod connect;
pub mod diversity;
pub mod graph_search;
pub mod layer_search;
pub mod levels;
pub mod list_laws;
pub mod loading_laws;
pub mod memory;
pub mod meta;
pub mod neighbors;
pub mod params;
pub mod region;
pub mod repair;
pub mod repair_element;
pub mod repair_pass;
pub mod search_laws;
pub mod select;
pub mod skipping_laws;
pub mod stored;
pub mod stored_complete;
pub mod stored_discards;
pub mod stored_neighbors;
pub mod stored_search;
pub mod stored_sound;
pub mod tuple;
pub mod types;
pub mod vacuum;
pub mod vacuum_laws;
