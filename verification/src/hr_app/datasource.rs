pub mod department;
pub mod member;
pub mod person;
