//! Incremental project scanning: ignore rules, directory walking, cached
//! per-file statistics and the aggregated file tree; beside it the
//! compression of sources from their syntax trees and the check of loaded
//! files against the disk.

pub mod text;
pub mod types;
pub mod path_map;
pub mod sorting;
pub mod paths;
pub mod ignore_handler;
pub mod plain_patterns;
pub mod scan_cache;
pub mod scan_tree;
pub mod traversal;
pub mod utils;
pub mod scan_state;
pub mod file_stats;
pub mod scanner;
pub mod app_settings;
pub mod syntax;
pub mod edits;
pub mod compress;
pub mod python_compressor;
pub mod tsx_compressor;
pub mod file_monitor;
