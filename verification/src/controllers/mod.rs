pub mod audit_log_routes;
pub mod entity_routes;
pub mod errors;
pub mod user_routes;
