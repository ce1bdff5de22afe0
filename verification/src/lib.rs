// A character of ASCII art says a quote in a balloon.
//
// wrap      breaks a quote into lines and trims them
// balloon   draws the balloon around the lines
// template  reads a character's template: header and body
// compose   puts the balloon into the body
// pony      a character: its template's path, its name, its text
// paths     the name that a path gives a character
// select    the characters that the caller allows, and the choice of one
// quote     where the quote comes from, and the character it asks for
// list      the characters in the order of their names
// order     the order of two characters
// text      strings as characters

pub mod balloon;
pub mod compose;
pub mod list;
pub mod order;
pub mod paths;
pub mod pony;
pub mod quote;
pub mod select;
pub mod template;
pub mod text;
pub mod wrap;
