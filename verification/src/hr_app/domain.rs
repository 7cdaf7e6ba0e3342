pub mod department;
pub mod id_type;
pub mod member;
pub mod name_type;
pub mod person;
pub mod registry;
