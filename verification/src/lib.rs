pub mod text;
pub mod paths;
pub mod order;
pub mod models;
pub mod scanner;
pub mod cleanup;
pub mod health;
pub mod integrity;
pub mod clock;
pub mod storage;
pub mod updater;
pub mod control;
pub mod laws;
