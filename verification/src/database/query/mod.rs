pub mod query_builder;
pub mod select_parser;
pub mod select_processor;
pub mod where_fetcher;
