pub mod args;
pub mod blobstore;
pub mod builder;
pub mod assign;
pub mod assignlaw;
pub mod cursor;
pub mod diff;
pub mod diffagain;
pub mod difflaw;
pub mod dir;
pub mod edit;
pub mod entry;
pub mod error;
pub mod file;
pub mod files;
pub mod finalize;
pub mod flush;
pub mod hash;
pub mod iddag;
pub mod idmap;
pub mod laws;
pub mod link;
pub mod loaded;
pub mod lookup;
pub mod matches;
pub mod matcher;
pub mod newstore;
pub mod node;
pub mod nodemap;
pub mod order;
pub mod parse;
pub mod path;
pub mod repos;
pub mod sql;
pub mod store;
pub mod subtree;
pub mod text;
pub mod tree;
pub mod update;
