pub mod errors;
pub mod mutation;
pub mod path_ops;
pub mod settings;
pub mod tree;
pub mod workspace;

pub use errors::MikuError;
pub use mutation::{create_file, create_folder, delete_file, rename_file, DeleteKind};
pub use path_ops::{file_exists, get_file_name, get_parent_dir, is_markdown_file, join_path};
pub use settings::{add_recent_file, new_document, Document, ThemePreference};
pub use tree::{
    build_listing, is_excluded_entry, list_workspace_files, listing_admissible, RawEntry,
    WorkspaceFile,
};
pub use workspace::{
    get_current_workspace, get_recent_workspaces, get_workspace_info, set_workspace, Workspace,
    WorkspaceConfig,
};
