pub mod audit_log_service;
pub mod auth_service;
pub mod entity_service;
pub mod errors;
pub mod user_service;
