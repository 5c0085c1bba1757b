//! A single token produced by a model: an id, its surface string, byte
//! offsets into the text it was cut from, and the index of the source
//! pre-token.

use vstd::prelude::*;

verus! {

/// Ghost record of a token.
#[verifier::ext_equal]
pub struct TokenModel {
    pub id: u32,
    pub value: Seq<char>,
    pub offsets: (usize, usize),
    pub word: u32,
}

/// A single token produced by a model.
pub struct Token {
    pub id: u32,
    pub value: String,
    pub offsets: (usize, usize),
    pub word: u32,
}

impl View for Token {
    type V = TokenModel;

    open spec fn view(&self) -> TokenModel {
        TokenModel { id: self.id, value: self.value@, offsets: self.offsets, word: self.word }
    }
}

impl DeepView for Token {
    type V = TokenModel;

    open spec fn deep_view(&self) -> TokenModel {
        self.view()
    }
}

impl Token {
    pub fn new(id: u32, value: String, offsets: (usize, usize), word: u32) -> (t: Token)
        ensures
            t.id == id,
            t.value == value,
            t.offsets == offsets,
            t.word == word,
    {
        Token { id, value, offsets, word }
    }
}

} // verus!
