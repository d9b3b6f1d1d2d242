//! EditorConfig resolution and Markdown linting for the croft editor.

pub mod braces;
pub mod editorconfig;
pub mod glob;
pub mod markdown_lint;
pub mod path;
pub mod text;
