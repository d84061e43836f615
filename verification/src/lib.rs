pub mod text;
pub mod matching;
pub mod zotero;
pub mod dsl;
pub mod manifest;
pub mod pipeline;
pub mod html;
pub mod error;
pub mod companion;
pub mod llm_fallback;
pub mod cli;
