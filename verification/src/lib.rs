//! Disk usage tree engine: a verified model of a scanned filesystem
//! subtree, its aggregation and mutation operations, a sunburst layout
//! engine over exact integer angle units, and the hit tester that maps a
//! polar point back to a layout segment.
pub mod actions;
pub mod app_state;
pub mod format;
pub mod model;
pub mod remove;
pub mod scanner;
pub mod sort;
pub mod sunburst;
pub mod text;

pub use actions::delete_precheck;
pub use actions::get_delete_info;
pub use actions::DeleteResult;
pub use app_state::AppState;
pub use format::format_size;
pub use model::is_protected_path;
pub use model::DirEntry;
pub use model::FileType;
pub use remove::remove_entry_from_tree;
pub use scanner::build_scanned_tree;
pub use scanner::is_virtual_fs;
pub use scanner::try_build_tree;
pub use scanner::RawNode;
pub use scanner::ScanProgress;
pub use sunburst::build_segments;
pub use sunburst::find_segment_at_point;
pub use sunburst::Segment;
pub use sunburst::FULL_TURN;
pub use sunburst::MAX_DEPTH;
pub use sunburst::MIN_ANGLE;

