//! Enumeration of homoglyph variants of a word.
//!
//! A confusable table groups characters that are visually mistakable for one
//! another (such as Cyrillic/Latin look-alikes) into disjoint classes. Given a
//! word, the expansion engine produces every distinct string reachable by
//! substituting one or more positions with an alternate from that position's
//! class, substitutions composing strictly left to right. The result never
//! contains the input word itself, and a substitution that maps a character
//! to itself is not a variant.

pub mod expand;
pub mod laws;
pub mod table;
