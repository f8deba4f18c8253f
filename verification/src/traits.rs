pub mod order_book;
