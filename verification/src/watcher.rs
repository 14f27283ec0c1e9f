//! The non-cryptographic content fingerprint used throughout the pipeline,
//! and the built-in document tokenizers.

use crate::text::clean_spec;
use crate::text::split_spec;
use crate::text::split_str;
use crate::text::trim_and_filter;
use std::hash::Hasher;
use twox_hash::XxHash64;
use vstd::prelude::*;

verus! {

/// The 64-bit fingerprint that [`hash_str`] assigns to a text: a pure
/// function of the characters alone.  Collisions are accepted as a
/// negligible-probability risk; hashes only suppress no-op events.
pub uninterp spec fn hash_of(s: Seq<char>) -> u64;

/// Relies on `twox_hash::XxHash64` (through `std::hash::Hasher`): feeding the
/// UTF-8 bytes of a string to a fresh, unseeded hasher and finishing it yields
/// a 64-bit value that depends on the string's contents alone.
#[verifier::external_body]
pub fn hash_str(data: &str) -> (r: u64)
    ensures
        r == hash_of(data@),
{
    let mut hasher = XxHash64::default();
    hasher.write(data.as_bytes());
    hasher.finish()
}

/// Splits a document's raw text into an ordered sequence of independent item
/// texts.  `spec_tokenize` is the mathematical splitting; `tokenize` must
/// compute exactly it.  A tokenizer is pure: the result depends on the
/// content alone.
pub trait Tokenizer {
    spec fn spec_tokenize(&self, content: Seq<char>) -> Seq<Seq<char>>;

    fn tokenize(&self, content: &str) -> (items: Vec<String>)
        ensures
            items.deep_view() == self.spec_tokenize(content@),
    ;
}

pub open spec fn yaml_separator() -> Seq<char> {
    "\n---"@
}

pub open spec fn json_separator() -> Seq<char> {
    "\n}\n{"@
}

/// Splits a multi-document YAML text on its document-separator lines; each
/// piece is trimmed and empty pieces are dropped.
pub struct YamlTokenizer;

impl Tokenizer for YamlTokenizer {
    open spec fn spec_tokenize(&self, content: Seq<char>) -> Seq<Seq<char>> {
        clean_spec(split_spec(content, yaml_separator()))
    }

    fn tokenize(&self, content: &str) -> (items: Vec<String>) {
        let sep: &str = "\n---";
        proof {
            reveal_strlit("\n---");
        }
        trim_and_filter(split_str(content, sep))
    }
}

/// Splits concatenated JSON objects on the boundary between a closing and the
/// next opening brace; each piece is trimmed and empty pieces are dropped.
pub struct JsonTokenizer;

impl Tokenizer for JsonTokenizer {
    open spec fn spec_tokenize(&self, content: Seq<char>) -> Seq<Seq<char>> {
        clean_spec(split_spec(content, json_separator()))
    }

    fn tokenize(&self, content: &str) -> (items: Vec<String>) {
        let sep: &str = "\n}\n{";
        proof {
            reveal_strlit("\n}\n{");
        }
        trim_and_filter(split_str(content, sep))
    }
}

} // verus!
