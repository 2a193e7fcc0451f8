pub mod dao;
pub mod db;
pub mod entity_dao;
pub mod errors;
pub mod session_dao;
pub mod user_dao;
