//! A speed reader for PDF books: the words of a book with their places, the
//! pace at which they are shown, and the reader that walks through them.
pub mod arithmetic;
pub mod big;
pub mod conduct;
pub mod extract;
pub mod geometry;
pub mod label;
pub mod laws;
pub mod lines;
pub mod numeral;
pub mod outline;
pub mod pace;
pub mod pace_laws;
pub mod paragraphs;
pub mod printed;
pub mod progress;
pub mod reader;
pub mod render;
pub mod rounding;
pub mod single;
pub mod spelled;
pub mod state;
pub mod text;
pub mod timing;
pub mod view;
pub mod xml;
