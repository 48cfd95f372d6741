pub mod text;
pub mod order;
pub mod parser;
pub mod strmap;
pub mod state;
pub mod executor;
pub mod editor;
pub mod utils;
