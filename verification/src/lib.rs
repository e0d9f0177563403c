//! The host side of a plugin system for a build and dev-server tool.
//!
//! Plugins are compiled to isolated modules. They share no memory with the
//! host: values cross the boundary as bytes, configuration is reached through
//! handles, and what a plugin may ask of the host is a fixed surface of
//! calls. The host remembers in a lock file which plugins were registered and
//! what state they keep.
//!
//! The value model:
//! - [`value`]: a structured value as a whole, and its model as a tree;
//! - [`handle`]: the arena of nodes and the handles that alias them;
//! - [`snapshot`]: whole values in and out of the arena;
//! - [`codec`] and [`roundtrip`]: the byte form of a value, and the proof
//!   that decoding gives back what was encoded;
//! - [`config`], [`keyed`], [`nesting`], [`table`] and [`seed`]: values as
//!   TOML, how a TOML table keeps its entries, and the section of a plugin in
//!   the project's configuration.
//!
//! The host and its plugins:
//! - [`watch`] and [`host`]: the watched paths and the calls that a plugin
//!   may make;
//! - [`lifecycle`]: the hooks of a plugin and the order of their calls;
//! - [`lock`], [`lock_file`] and [`string_map`]: what is remembered of each
//!   plugin, and the document that it is saved as.
//!
//! Around the plugins:
//! - [`builder`]: what a build is made of;
//! - [`page`] and [`text`]: the page that loads the application;
//! - [`style`], [`document`], [`widgets`] and [`global`]: pieces of the
//!   renderers that are decided without rendering.

pub mod builder;
pub mod codec;
pub mod config;
pub mod document;
pub mod global;
pub mod handle;
pub mod host;
pub mod keyed;
pub mod lifecycle;
pub mod lock;
pub mod lock_file;
pub mod nesting;
pub mod page;
pub mod roundtrip;
pub mod seed;
pub mod snapshot;
pub mod string_map;
pub mod style;
pub mod table;
pub mod text;
pub mod value;
pub mod watch;
pub mod widgets;
