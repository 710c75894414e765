//! Decoding of a field that may arrive either as an ordered sequence of
//! elements or as a mapping from text keys to elements, into one tagged value
//! that keeps which of the two shapes was present.
//!
//! [`decode::Decoder`] is the state machine that a token source drives: it is
//! told the shape once, then handed each decoded element or entry until the
//! source is exhausted or something fails. [`decode::decode`] runs it over a
//! whole list of such items, and [`lemmas`] states what a whole decode yields.

pub mod table;
pub mod decode;
pub mod lemmas;
