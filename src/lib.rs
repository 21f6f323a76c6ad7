//! Backend core of an interactive fuzzy finder: ranking of matched
//! candidates, directory listings for the file browser provider, and the
//! registry that keeps one live session per provider.

pub mod filer;
pub mod rank;
pub mod session;

pub use filer::{
    handle_filer_message, preview_error, preview_size, read_dir_entries, strip_icon, DisplayPath, FilerAction,
    FilerMessageHandler, FilerResponse, FilerSession, Message, MoveMessage, PathInfo, RpcMessage,
    SessionContext,
};
pub use rank::{rank, sync_run, FilterResult, MatchResult, SourceError, SourceItem};
pub use session::SessionRegistry;
