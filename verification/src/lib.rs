use vstd::prelude::*;

mod codec;
mod context;
mod converter;
mod engine;
mod learning;
mod symspell;
mod tables;
mod trie;
mod types;

pub use codec::decode_state;
pub use codec::encode_state;
pub use codec::DecodeError;
pub use context::ContextModel;
pub use engine::ImeEngine;
pub use engine::KeyAction;
pub use converter::RomanizationEngine;
pub use learning::LearningEngine;
pub use learning::WordConfirmation;
pub use symspell::SymSpell;
pub use trie::Trie;
pub use types::WordId;
pub use types::WordMetadata;

verus! {

} // verus!
