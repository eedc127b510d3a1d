//! The logic of a terminal file picker.
pub mod app;
pub mod bench;
pub mod clock;
pub mod desktop;
pub mod edit;
pub mod encoding;
pub mod entry;
pub mod fd;
pub mod files;
pub mod flicker;
pub mod fuzzy;
pub mod highlight;
pub mod history;
pub mod incremental;
pub mod keys;
pub mod kitty;
pub mod launch;
pub mod lru;
pub mod match_laws;
pub mod number;
pub mod order;
pub mod parts;
pub mod path_laws;
pub mod paths;
pub mod picture;
pub mod pool;
pub mod preview;
pub mod rank;
pub mod recency;
pub mod recency_laws;
pub mod rfc3339;
pub mod search;
pub mod search_laws;
pub mod session;
pub mod state_laws;
pub mod style;
pub mod text;
pub mod text_laws;
pub mod thumbnail;
pub mod trace;
pub mod typo;
pub mod video;
pub mod view;
pub mod viewer;
pub mod viewer_laws;
