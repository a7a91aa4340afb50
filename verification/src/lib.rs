pub mod text;
pub mod locale;
pub mod entry;
pub mod history;
pub mod collection;
pub mod theme;
pub mod ui;
pub mod application;
