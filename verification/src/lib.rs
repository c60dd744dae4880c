//! Line-oriented manipulation of text: a block of text is read as an ordered,
//! 0-indexed sequence of lines separated by single `'\n'` characters, with
//! query and rebuild-on-mutation operations over that sequence.

pub mod lines;
