//! Entity registry logic for an NFC tag scanner service: entities (items that a
//! tag can be assigned to) form a forest through their optional owner entity.
pub mod controllers;
pub mod database;
pub mod services;
pub mod util;
