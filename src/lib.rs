pub mod types;
pub mod symbol_ref_db;
pub mod lazy_export;
pub mod bundler;
