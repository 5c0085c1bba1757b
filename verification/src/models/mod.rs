//! Tokenization models: they turn pre-tokens into tokens.

pub mod bpe;
pub mod vocab;
pub mod wordlevel;
pub mod wordpiece;

use vstd::prelude::*;

use crate::error::TokenizerError;
use crate::text::byte_len;
use crate::token::{Token, TokenModel};

verus! {

/// The model interface of the pipeline: turn pre-tokens into tokens.
pub trait Model {
    /// The model's internal invariant.
    spec fn inv(&self) -> bool;

    fn tokenize(&self, sentence: Vec<(String, (usize, usize))>) -> (r: Result<
        Vec<Token>,
        TokenizerError,
    >)
        requires
            self.inv(),
            sentence@.len() <= u32::MAX,
            forall|i: int| 0 <= i < sentence@.len() ==> (#[trigger] sentence@[i]).1.0 + byte_len(
                sentence@[i].0@,
            ) <= usize::MAX,
            forall|i: int| 0 <= i < sentence@.len() ==> (#[trigger] sentence@[i]).1.0
                <= sentence@[i].1.1,
    ;

    fn token_to_id(&self, token: &str) -> (r: Option<u32>)
        requires
            self.inv(),
    ;

    fn id_to_token(&self, id: u32) -> (r: Option<String>)
        requires
            self.inv(),
    ;

    fn get_vocab_size(&self) -> (r: usize)
        requires
            self.inv(),
    ;
}

/// Every piece's offsets are ordered and within `b`, and its string
/// starts within `b` of its start offset. The whole-text piece and
/// the BERT splitter's byte-subrange pieces both satisfy this with
/// `b` the normalized text's byte length.
pub open spec fn pieces_fit(pts: Seq<(Seq<char>, (usize, usize))>, b: int) -> bool {
    forall|i: int| 0 <= i < pts.len() ==> (#[trigger] pts[i]).1.0 <= pts[i].1.1 <= b && pts[i].1.0
        + byte_len(pts[i].0) <= b
}

/// Tokens of fitting pieces have ordered offsets within `b`, for
/// every model.
pub proof fn lemma_model_tokens_bound(
    mw: &ModelWrapper,
    pts: Seq<(Seq<char>, (usize, usize))>,
    b: int,
)
    requires
        pieces_fit(pts, b),
        b <= usize::MAX,
    ensures
        ({
            match spec_model_tokenize(mw, pts) {
                Ok(ts) => forall|k: int|
                    0 <= k < ts.len() ==> (#[trigger] ts[k]).offsets.0 <= ts[k].offsets.1 <= b,
                Err(_) => true,
            }
        }),
{
    match mw {
        ModelWrapper::WordPiece(wp) => {
            wordpiece::lemma_wp_from_bound(*wp, pts, 0, b);
        },
        ModelWrapper::BPE(bp) => {
            bpe::lemma_bpe_from_bound(bp, pts, 0, b);
        },
        ModelWrapper::WordLevel(wl) => {
            wordlevel::lemma_wl_from_bound(*wl, pts, 0, b);
        },
    }
}

/// The set of models this pipeline ships.
pub enum ModelWrapper {
    WordPiece(wordpiece::WordPiece),
    BPE(bpe::BPE),
    WordLevel(wordlevel::WordLevel),
}

/// What the wrapped model's tokenization returns.
pub open spec fn spec_model_tokenize(
    mw: &ModelWrapper,
    pts: Seq<(Seq<char>, (usize, usize))>,
) -> Result<Seq<TokenModel>, TokenizerError> {
    match mw {
        ModelWrapper::WordPiece(wp) => wordpiece::spec_wp_tokenize(*wp, pts),
        ModelWrapper::BPE(b) => Ok(bpe::spec_bpe_tokenize(b, pts)),
        ModelWrapper::WordLevel(wl) => wordlevel::spec_wl_tokenize(*wl, pts),
    }
}

/// The wrapped model's token-to-id map.
pub open spec fn spec_model_vocab(mw: &ModelWrapper) -> Map<Seq<char>, u32> {
    match mw {
        ModelWrapper::WordPiece(wp) => wp.vocab@,
        ModelWrapper::BPE(b) => b.vocab@,
        ModelWrapper::WordLevel(wl) => wl.vocab@,
    }
}

/// The wrapped model's vocabulary entries, in insertion order.
pub open spec fn spec_model_entries(mw: &ModelWrapper) -> Seq<(Seq<char>, u32)> {
    match mw {
        ModelWrapper::WordPiece(wp) => wp.vocab.spec_entries(),
        ModelWrapper::BPE(b) => b.vocab.spec_entries(),
        ModelWrapper::WordLevel(wl) => wl.vocab.spec_entries(),
    }
}

impl ModelWrapper {
    pub open spec fn wf(&self) -> bool {
        match self {
            ModelWrapper::WordPiece(wp) => wp.wf(),
            ModelWrapper::BPE(b) => b.wf(),
            ModelWrapper::WordLevel(wl) => wl.wf(),
        }
    }

    /// Tokenize the given pre-tokens with the wrapped model.
    pub fn tokenize_pieces(&self, sentence: Vec<(String, (usize, usize))>) -> (r: Result<
        Vec<Token>,
        TokenizerError,
    >)
        requires
            self.wf(),
            sentence@.len() <= u32::MAX,
            forall|i: int| 0 <= i < sentence@.len() ==> (#[trigger] sentence@[i]).1.0 + byte_len(
                sentence@[i].0@,
            ) <= usize::MAX,
            forall|i: int| 0 <= i < sentence@.len() ==> (#[trigger] sentence@[i]).1.0
                <= sentence@[i].1.1,
        ensures
            ({
                let spec_r = spec_model_tokenize(self, crate::pre_tokenizers::pieces_view(sentence@));
                match r {
                    Ok(ts) => spec_r is Ok && ts.deep_view() == spec_r->Ok_0 && forall|k: int|
                        0 <= k < ts@.len() ==> (#[trigger] ts@[k]).offsets.0 <= ts@[k].offsets.1,
                    Err(e) => spec_r is Err && e == spec_r->Err_0,
                }
            }),
    {
        match self {
            ModelWrapper::WordPiece(wp) => wp.tokenize(sentence),
            ModelWrapper::BPE(b) => b.tokenize(sentence),
            ModelWrapper::WordLevel(wl) => wl.tokenize(sentence),
        }
    }

    /// The id of `token` in the wrapped model's vocabulary.
    pub fn token_to_id_model(&self, token: &str) -> (r: Option<u32>)
        ensures
            r is Some <==> spec_model_vocab(self).contains_key(token@),
            r is Some ==> r->0 == spec_model_vocab(self)[token@],
    {
        match self {
            ModelWrapper::WordPiece(wp) => wp.token_to_id(token),
            ModelWrapper::BPE(b) => b.token_to_id(token),
            ModelWrapper::WordLevel(wl) => wl.token_to_id(token),
        }
    }

    /// The token of `id` in the wrapped model's vocabulary: the first
    /// entry holding it.
    pub fn id_to_token_model(&self, id: u32) -> (r: Option<String>)
        requires
            self.wf(),
        ensures
            match r {
                Some(t) => vocab::first_token_of(spec_model_entries(self), id, 0) == Some(t@),
                None => vocab::first_token_of(spec_model_entries(self), id, 0) is None,
            },
    {
        match self {
            ModelWrapper::WordPiece(wp) => {
                let r = wp.id_to_token(id);
                proof {
                    assert(spec_model_entries(self) == wp.vocab.spec_entries());
                    assert(vocab::first_token_of(spec_model_entries(self), id, 0)
                        == vocab::first_token_of(wp.vocab.spec_entries(), id, 0));
                }
                r
            },
            ModelWrapper::BPE(b) => {
                let r = b.id_to_token(id);
                proof {
                    assert(spec_model_entries(self) == b.vocab.spec_entries());
                    assert(vocab::first_token_of(spec_model_entries(self), id, 0)
                        == vocab::first_token_of(b.vocab.spec_entries(), id, 0));
                }
                r
            },
            ModelWrapper::WordLevel(wl) => {
                let r = wl.id_to_token(id);
                proof {
                    assert(spec_model_entries(self) == wl.vocab.spec_entries());
                    assert(vocab::first_token_of(spec_model_entries(self), id, 0)
                        == vocab::first_token_of(wl.vocab.spec_entries(), id, 0));
                }
                r
            },
        }
    }

    /// The number of entries of the wrapped model's vocabulary.
    pub fn vocab_size(&self) -> (r: usize)
        requires
            self.wf(),
        ensures
            r == spec_model_entries(self).len(),
    {
        match self {
            ModelWrapper::WordPiece(wp) => wp.get_vocab_size(),
            ModelWrapper::BPE(b) => b.get_vocab_size(),
            ModelWrapper::WordLevel(wl) => wl.get_vocab_size(),
        }
    }

    /// The wrapped model's vocabulary entries, in insertion order.
    pub fn vocab_entries(&self) -> (r: &Vec<(String, u32)>)
        ensures
            vocab::entries_view(r@) == spec_model_entries(self),
    {
        match self {
            ModelWrapper::WordPiece(wp) => wp.vocab.entries_list(),
            ModelWrapper::BPE(b) => b.vocab.entries_list(),
            ModelWrapper::WordLevel(wl) => wl.vocab.entries_list(),
        }
    }
}

impl Model for ModelWrapper {
    open spec fn inv(&self) -> bool {
        self.wf()
    }

    fn tokenize(&self, sentence: Vec<(String, (usize, usize))>) -> Result<
        Vec<Token>,
        TokenizerError,
    > {
        self.tokenize_pieces(sentence)
    }

    fn token_to_id(&self, token: &str) -> Option<u32> {
        self.token_to_id_model(token)
    }

    fn id_to_token(&self, id: u32) -> Option<String> {
        self.id_to_token_model(id)
    }

    fn get_vocab_size(&self) -> usize {
        self.vocab_size()
    }
}

impl Model for wordpiece::WordPiece {
    open spec fn inv(&self) -> bool {
        self.wf()
    }

    fn tokenize(&self, sentence: Vec<(String, (usize, usize))>) -> Result<
        Vec<Token>,
        TokenizerError,
    > {
        wordpiece::WordPiece::tokenize(self, sentence)
    }

    fn token_to_id(&self, token: &str) -> Option<u32> {
        wordpiece::WordPiece::token_to_id(self, token)
    }

    fn id_to_token(&self, id: u32) -> Option<String> {
        wordpiece::WordPiece::id_to_token(self, id)
    }

    fn get_vocab_size(&self) -> usize {
        wordpiece::WordPiece::get_vocab_size(self)
    }
}

impl Model for bpe::BPE {
    open spec fn inv(&self) -> bool {
        self.wf()
    }

    fn tokenize(&self, sentence: Vec<(String, (usize, usize))>) -> Result<
        Vec<Token>,
        TokenizerError,
    > {
        bpe::BPE::tokenize(self, sentence)
    }

    fn token_to_id(&self, token: &str) -> Option<u32> {
        bpe::BPE::token_to_id(self, token)
    }

    fn id_to_token(&self, id: u32) -> Option<String> {
        bpe::BPE::id_to_token(self, id)
    }

    fn get_vocab_size(&self) -> usize {
        bpe::BPE::get_vocab_size(self)
    }
}

impl Model for wordlevel::WordLevel {
    open spec fn inv(&self) -> bool {
        self.wf()
    }

    fn tokenize(&self, sentence: Vec<(String, (usize, usize))>) -> Result<
        Vec<Token>,
        TokenizerError,
    > {
        wordlevel::WordLevel::tokenize(self, sentence)
    }

    fn token_to_id(&self, token: &str) -> Option<u32> {
        wordlevel::WordLevel::token_to_id(self, token)
    }

    fn id_to_token(&self, id: u32) -> Option<String> {
        wordlevel::WordLevel::id_to_token(self, id)
    }

    fn get_vocab_size(&self) -> usize {
        wordlevel::WordLevel::get_vocab_size(self)
    }
}

} // verus!
