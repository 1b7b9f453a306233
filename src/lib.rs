//! Meal planning core: a gap-free calendar timeline, reconciliation of child
//! entities against what is stored, and aggregation of ingredient quantities
//! into a shopping list.

pub mod text;
pub mod decimal;
pub mod food;
pub mod calendar;
pub mod shopping;
pub mod db;
pub mod bring;
pub mod server_config;
pub mod utils;
pub mod reconcile;
