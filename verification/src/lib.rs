//! Verified building blocks of a set of small Nix and desktop tools: version
//! parsing and ordering, closure diffs, changelog slicing, build progress
//! bookkeeping, git status parsing and screen-capture helpers.

pub mod text;
pub mod version;
pub mod version_order;
pub mod levenshtein;
pub mod sorting;
pub mod matching;
pub mod style;
pub mod diff;
pub mod strings;
pub mod changelog;
pub mod units;
pub mod progress;
pub mod monitor;
pub mod storepath;
pub mod closure;
pub mod statusline;
pub mod store;
pub mod capture;
pub mod pixels;
pub mod config;
pub mod gulp;
pub mod region;
pub mod release_range;
pub mod widths;
pub mod package_diff;
pub mod upload;
