use vstd::prelude::*;

pub mod records;
pub mod tokenizer;
pub mod vocab;

pub use records::VocabError;
pub use vocab::Vocab;
