pub mod error;
pub mod types;
pub mod order;
pub mod level;
pub mod symbol;
pub mod external;
pub mod order_book;
pub mod market_handler;
pub mod market_manager;
pub mod consistency;
pub mod text;
pub mod depth;
pub mod laws;
