//! A dictionary-driven text converter.
//!
//! Rules map a source phrase to a replacement. A dictionary holds one or
//! more layers of rules, each a prefix tree keyed by characters, and rewrites
//! text greedily: at each position the longest rule key that starts there is
//! replaced, and a character that starts no key is copied through. The
//! layers apply in order, each to the output of the one before.
//!
//! Rules are read from text with one rule per line: the key, a TAB, then the
//! replacement, of which only the part before the first space counts.
pub mod dict;
pub mod laws;
pub mod text;
pub mod trie;

pub use dict::Dict;
pub use trie::DictNode;
