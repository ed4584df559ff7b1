pub mod chrono_parse;
pub mod decimal_ops;
pub mod regex_search;
pub mod std_text;
