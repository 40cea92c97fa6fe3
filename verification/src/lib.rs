//! Rewraps `//`, `///` and `//!` comments of Rust sources to a maximum line width.
pub mod text;
pub mod comment;
pub mod tokenize;
pub mod wrap;
pub mod lines;
pub mod process;
pub mod reflow;
pub mod roundtrip;
pub mod config;
pub mod report;

pub use comment::{
    can_combine, hierarchical_marker_width, parse_comment_line, starts_with_hierarchical_marker,
    CommentLine,
};
pub use config::{
    config_max_width, config_width_from_entry, effective_quiet, resolve_width, search_step,
    width_origin, locate_config, ConfigFile, DirProbe, SearchStep, WidthOrigin, DEFAULT_WIDTH,
};
pub use process::{process_content, Change};
pub use report::{render_changes, run_stdin, StdinOutcome};
pub use tokenize::tokenize_preserving_backticks;
pub use wrap::wrap_text;
