/// The forms that a value takes when it is asked for a truth value, a number,
/// a text, a list, an integer or a date; and the building of objects.
pub mod coerce;
/// Dates as text and as fields.
pub mod date;
/// Numbers, held by bit pattern and rendering, and the reading of numerals.
pub mod number;
/// From tokens to values.
pub mod parser;
/// Why a value that is written out and parsed again is the same value.
pub mod round_trip;
/// From values to JSON text.
pub mod stringify;
/// Bytes and text: splitting, decimal numerals, UTF-8 and letter case.
pub mod text;
/// From bytes to tokens.
pub mod token;
/// Shapes that values are asked to have.
pub mod validator;
/// The tree of JSON values and what it holds.
pub mod value;

pub use date::JsonDate;
pub use number::{JsonNumber, Numerals};
pub use parser::JsonParserUtilities;
pub use token::JsonToken;
pub use validator::{JsonValidator, Predicate, Test};
pub use value::JsonValue;
