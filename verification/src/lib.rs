pub mod text;
pub mod model;
pub mod quiz;
pub mod import;
pub mod logging;
pub mod session;
pub mod library;
pub mod apkg;
pub mod arrange;
pub mod selection;
