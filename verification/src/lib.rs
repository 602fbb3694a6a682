pub mod export;
pub mod markdown;
pub mod parse;
pub mod paths;
pub mod pdf;
pub mod sources;
pub mod text;
pub mod toc;
pub mod wrap;
