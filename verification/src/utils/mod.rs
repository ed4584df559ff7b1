pub mod dates;
pub mod doc_no;
pub mod natural_sort;
pub mod numbers;
pub mod numerals;
pub mod strings;
pub mod text;
pub mod text_order;
pub mod utf8_ascii;
