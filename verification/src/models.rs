pub mod bench_stats;
pub mod bitset;
pub mod order;
pub mod order_book_config;
pub mod order_fill;
pub mod ring_buffer;
