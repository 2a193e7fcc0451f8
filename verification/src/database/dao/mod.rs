pub mod audit_log_dao;
pub mod entity_dao;
pub mod forest_laws;
