pub mod three_opt;
