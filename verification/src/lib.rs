//! Playfair cipher: a digraph substitution cipher over a 5x5 letter table
//! derived from a keyword.
//!
//! [`table::generate_playfair_table`] builds the table from a key;
//! [`cipher::playfair_cipher`] normalizes a text, pairs it into digraphs with
//! 'X' fillers, and substitutes each digraph by the row, column or rectangle
//! rule of the chosen mode.

pub mod chars;
pub mod cipher;
pub mod table;

pub use chars::is_alpha;
pub use chars::to_upper;
pub use cipher::playfair_cipher;
pub use cipher::CipherMode;
pub use table::find_position;
pub use table::generate_playfair_table;
