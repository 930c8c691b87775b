//! Text-level markup of the site's markdown.

pub mod ruby;
