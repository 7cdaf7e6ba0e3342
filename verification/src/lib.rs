//! A single-process record keeper for persons, departments and the
//! memberships between them.
pub mod hr_app;
