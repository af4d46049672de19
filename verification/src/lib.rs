pub mod app_classifier;
pub mod apps;
pub mod audio;
pub mod commands;
pub mod desktop;
pub mod greeting;
pub mod order;
pub mod reminders;
pub mod service;
pub mod text;
pub mod tools;
pub mod updater;
