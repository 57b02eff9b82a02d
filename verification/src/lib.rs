//! Red & black knights: pieces take turns placing tokens along a spiral order of the
//! infinite board, avoiding cells attacked by the pieces they respect.

pub mod spiral;
pub mod index_order;
pub mod grid;
pub mod model;
pub mod random_source;
pub mod mutate;
pub mod sim;
pub mod placement_path;
pub mod discover_catalog;
pub mod place_profile;
pub mod app_profile;
pub mod random_gen;
pub mod sim_config_history;
pub mod viewport;
pub mod discover;
pub mod board_raster;
pub mod sim_worker;
pub mod calibration_config;
pub mod share_code;
pub mod sim_piece_stats;
pub mod placement_fanout;
pub mod render;
pub mod roster_edit;
pub mod library;
pub mod meta_fields;
