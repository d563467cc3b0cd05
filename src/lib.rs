pub mod text;
pub mod measure;
pub mod record;
pub mod stats;
