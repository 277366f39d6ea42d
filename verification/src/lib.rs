//! A typed hierarchy of resources, held against a declared shape.
//!
//! A schema says which files and directories a store must hold. The library
//! recognises whether a discovered tree fits a declared shape (`bound`),
//! loads leaves and the members of a directory whose membership is open
//! (`asset`, `builtin`), and reports which required files a store lacks
//! (`integrity`). A store is anything that implements `loader::AssetLoader`.
//!
//! The library does not know what a store holds, nor what a type makes of
//! its bytes. Its contracts therefore speak of what the operations of a
//! store, or the functions that it is handed, can return, and pin down what
//! the library makes of each such result.

pub mod asset;
pub mod bound;
pub mod builtin;
pub mod error;
pub mod integrity;
pub mod loader;
pub mod schema;

pub use asset::{Asset, StaticAssetFolder};
pub use bound::{
    AssetBound, AssetFileType, AssetProperties, AssetTreeNode, BoundView, NodeView,
    PropertiesView,
};
pub use error::{Error, ErrorKind, ErrorView};
pub use integrity::check_integrity;
