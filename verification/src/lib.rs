pub mod completion;
pub mod measure;
pub mod protocol;
pub mod text;
pub mod theme;
pub mod view;
