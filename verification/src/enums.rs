pub mod order_book_errors;
pub mod order_side;
pub mod order_status;
pub mod order_type;
pub mod symbol;
