//! CrabMD's document model: a markdown file as bytes, the blocks and
//! paint ranges parsed from it, the display text the editor shows for it,
//! and the edits, file names and settings around it.
pub mod assets;
pub mod blocks;
pub mod capture;
pub mod click;
pub mod config;
pub mod coords;
pub mod daemon;
pub mod desktop;
pub mod display;
pub mod document;
pub mod editor;
pub mod emit;
pub mod frontmatter;
pub mod html;
pub mod images;
pub mod inline;
pub mod md;
pub mod notion;
pub mod projection;
pub mod restore;
pub mod search;
pub mod table;
pub mod text;
