pub mod application;
pub mod datasource;
pub mod domain;
pub mod error;
pub mod repository;
pub mod text;
