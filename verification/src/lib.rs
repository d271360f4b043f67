//! Version lenses: above each dependency of a `package.json`, and of the catalogs in a
//! `pnpm-workspace.yaml`, what newer releases there are.
//!
//! - [`text`] and [`text_map`] hold what is needed of texts and maps, and [`text_laws`] what
//!   texts are made of.
//! - [`manifest`], [`package_json`] and [`catalogs`] read the dependencies of a file, with
//!   the place of each, and [`json_line`] the strings and braces of a line. [`listing`]
//!   proves that the places and the sections are right, [`places`] which entry a place
//!   belongs to, [`json_laws`], [`yaml_laws`] and [`catalog_laws`] that the listing is
//!   complete and holds nothing else.
//! - [`version`] and [`tiers`] find the newest patch, minor and major release above a
//!   version. [`ranges`] proves which version a range starts from, [`offers`] what the badges
//!   offer.
//! - [`json`], [`registry`] and [`links`] read what the npm registry answers, and [`workspace`] what
//!   the files of a pnpm workspace say. [`documents`], [`link_laws`] and [`workspace_laws`]
//!   prove what each field, each form of an address and each reference gives.
//! - [`lens`] decides what each lens shows and what must be asked for, and [`signature`]
//!   proves that its signature tells a lens from another; [`blocks`] matches the lenses
//!   with the blocks that an editor shows. [`lens_laws`] and [`block_laws`] prove which
//!   dependency has which lens, and which lens which block.
//! - [`edit`] rewrites a dependency to another version; [`rewrite`], [`rewrite_yaml`],
//!   [`rewrite_spec`] and [`rewrite_file`] prove what that does to a line, to a version
//!   text and to the whole file, and [`edit_laws`] what is written where.
//! - [`hover`] makes the popover for the package under the pointer, and [`hover_laws`] proves
//!   what it shows.
//!
//! Reading files, the network, drawing and editing are left to the editor.
pub mod block_laws;
pub mod blocks;
pub mod catalog_laws;
pub mod catalogs;
pub mod documents;
pub mod edit;
pub mod edit_laws;
pub mod hover;
pub mod hover_laws;
pub mod json;
pub mod json_laws;
pub mod json_line;
pub mod lens;
pub mod lens_laws;
pub mod link_laws;
pub mod links;
pub mod listing;
pub mod manifest;
pub mod offers;
pub mod package_json;
pub mod places;
pub mod ranges;
pub mod registry;
pub mod rewrite;
pub mod rewrite_file;
pub mod rewrite_spec;
pub mod rewrite_yaml;
pub mod signature;
pub mod text;
pub mod text_laws;
pub mod text_map;
pub mod tiers;
pub mod version;
pub mod workspace;
pub mod workspace_laws;
pub mod yaml_laws;
