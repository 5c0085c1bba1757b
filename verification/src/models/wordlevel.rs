//! The WordLevel model: each pre-token is looked up whole.

use vstd::prelude::*;

use crate::error::TokenizerError;
use crate::models::vocab::Vocab;
use crate::token::{Token, TokenModel};

verus! {

/// A WordLevel model.
pub struct WordLevel {
    pub vocab: Vocab,
    pub unk_token: String,
}

/// The token of one pre-token: its own id when the vocabulary holds
/// it, else the unknown token's, else the `MissingUnkToken` error.
pub open spec fn spec_wl_word_token(wl: WordLevel, word: Seq<char>, wo: (usize, usize), idx: u32) -> Result<
    TokenModel,
    TokenizerError,
> {
    let vm = wl.vocab@;
    if vm.contains_key(word) {
        Ok(TokenModel { id: vm[word], value: word, offsets: wo, word: idx })
    } else if vm.contains_key(wl.unk_token@) {
        Ok(TokenModel { id: vm[wl.unk_token@], value: wl.unk_token@, offsets: wo, word: idx })
    } else {
        Err(TokenizerError::MissingUnkToken)
    }
}

/// The tokens of the pre-tokens from position `i` on.
pub open spec fn spec_wl_from(wl: WordLevel, pts: Seq<(Seq<char>, (usize, usize))>, i: int) -> Result<
    Seq<TokenModel>,
    TokenizerError,
>
    decreases (if i <= pts.len() { pts.len() - i } else { 0 }),
{
    if i < 0 || i >= pts.len() {
        Ok(Seq::empty())
    } else {
        match spec_wl_word_token(wl, pts[i].0, pts[i].1, i as u32) {
            Err(e) => Err(e),
            Ok(t) => match spec_wl_from(wl, pts, i + 1) {
                Err(e) => Err(e),
                Ok(rest) => Ok(seq![t] + rest),
            },
        }
    }
}

/// The WordLevel tokenization of a pre-token list.
pub open spec fn spec_wl_tokenize(wl: WordLevel, pts: Seq<(Seq<char>, (usize, usize))>) -> Result<
    Seq<TokenModel>,
    TokenizerError,
> {
    spec_wl_from(wl, pts, 0)
}

impl WordLevel {
    pub open spec fn wf(&self) -> bool {
        self.vocab.wf()
    }

    /// A model over the given entries. Fails with `VocabLoad` exactly
    /// when a token or an id repeats.
    pub fn new(entries: Vec<(String, u32)>, unk_token: String) -> (r: Result<
        WordLevel,
        TokenizerError,
    >)
        ensures
            match r {
                Ok(wl) => {
                    &&& wl.wf()
                    &&& wl.vocab.spec_entries() == crate::models::vocab::entries_view(entries@)
                    &&& wl.vocab@ == crate::models::vocab::entries_map(
                        crate::models::vocab::entries_view(entries@),
                    )
                    &&& wl.unk_token == unk_token
                },
                Err(e) => e == TokenizerError::VocabLoad && !crate::models::vocab::entries_unique(
                    crate::models::vocab::entries_view(entries@),
                ),
            },
    {
        let vocab = Vocab::from_entries(entries)?;
        Ok(WordLevel { vocab, unk_token })
    }

    pub fn get_vocab(&self) -> (r: &Vocab)
        ensures
            r == self.vocab,
    {
        &self.vocab
    }

    pub fn get_vocab_size(&self) -> (r: usize)
        requires
            self.wf(),
        ensures
            r == self.vocab.spec_entries().len(),
    {
        self.vocab.size()
    }

    pub fn token_to_id(&self, token: &str) -> (r: Option<u32>)
        ensures
            r is Some <==> self.vocab@.contains_key(token@),
            r is Some ==> r->0 == self.vocab@[token@],
    {
        self.vocab.get(token)
    }

    pub fn id_to_token(&self, id: u32) -> (r: Option<String>)
        requires
            self.wf(),
        ensures
            match r {
                Some(t) => crate::models::vocab::first_token_of(self.vocab.spec_entries(), id, 0)
                    == Some(t@),
                None => crate::models::vocab::first_token_of(self.vocab.spec_entries(), id, 0)
                    is None,
            },
    {
        self.vocab.id_to_token(id)
    }

    /// Look each pre-token up whole; misses become the unknown token.
    pub fn tokenize(&self, sentence: Vec<(String, (usize, usize))>) -> (r: Result<
        Vec<Token>,
        TokenizerError,
    >)
        requires
            self.wf(),
            sentence@.len() <= u32::MAX,
            forall|i: int| 0 <= i < sentence@.len() ==> (#[trigger] sentence@[i]).1.0
                <= sentence@[i].1.1,
        ensures
            ({
                let spec_r = spec_wl_tokenize(*self, crate::pre_tokenizers::pieces_view(sentence@));
                match r {
                    Ok(ts) => spec_r is Ok && ts.deep_view() == spec_r->Ok_0 && forall|k: int|
                        0 <= k < ts@.len() ==> (#[trigger] ts@[k]).offsets == sentence@[k].1
                            && ts@[k].offsets.0 <= ts@[k].offsets.1,
                    Err(e) => spec_r is Err && e == spec_r->Err_0,
                }
            }),
    {
        let ghost pts = crate::pre_tokenizers::pieces_view(sentence@);
        let n: usize = sentence.len();
        let mut out: Vec<Token> = Vec::new();
        let mut i: usize = 0;
        while i < n
            invariant
                n == sentence@.len(),
                pts == crate::pre_tokenizers::pieces_view(sentence@),
                0 <= i <= n,
                out@.len() == i,
                spec_wl_from(*self, pts, 0) == (match spec_wl_from(*self, pts, i as int) {
                    Ok(rest) => Ok::<Seq<TokenModel>, TokenizerError>(out.deep_view() + rest),
                    Err(e) => Err::<Seq<TokenModel>, TokenizerError>(e),
                }),
                forall|k: int| 0 <= k < i ==> (#[trigger] out@[k]).offsets == sentence@[k].1
                    && out@[k].offsets.0 <= out@[k].offsets.1,
            decreases n - i,
        {
            let word = sentence[i].0.clone();
            let wo = sentence[i].1;
            let ghost out_pre = out.deep_view();
            let tok: Token = match self.vocab.get(word.as_str()) {
                Some(id) => Token { id, value: word, offsets: wo, word: i as u32 },
                None => {
                    match self.vocab.get(self.unk_token.as_str()) {
                        Some(id) => Token {
                            id,
                            value: self.unk_token.clone(),
                            offsets: wo,
                            word: i as u32,
                        },
                        None => {
                            proof {
                                assert(spec_wl_from(*self, pts, i as int) is Err);
                            }
                            return Err(TokenizerError::MissingUnkToken);
                        },
                    }
                },
            };
            let ghost tm = tok@;
            out.push(tok);
            i = i + 1;
            proof {
                assert(tm == spec_wl_word_token(*self, pts[i - 1].0, pts[i - 1].1, (i - 1) as u32)->Ok_0);
                assert(out.deep_view() =~= out_pre.push(tm)) by {
                    assert forall|k: int| 0 <= k < out@.len() implies #[trigger] out.deep_view()[k]
                        == out_pre.push(tm)[k] by {
                        assert(out.deep_view()[k] == out@[k]@);
                    }
                }
                if spec_wl_from(*self, pts, i as int) is Ok {
                    assert(out_pre + (seq![tm] + spec_wl_from(*self, pts, i as int)->Ok_0)
                        =~= out.deep_view() + spec_wl_from(*self, pts, i as int)->Ok_0);
                }
            }
        }
        proof {
            assert(out.deep_view() + Seq::<TokenModel>::empty() =~= out.deep_view());
        }
        Ok(out)
    }
}

/// WordLevel tokens carry their pre-token's offsets, so fitting
/// pieces give ordered offsets within `b`.
pub proof fn lemma_wl_from_bound(wl: WordLevel, pts: Seq<(Seq<char>, (usize, usize))>, i: int, b: int)
    requires
        crate::models::pieces_fit(pts, b),
    ensures
        ({
            match spec_wl_from(wl, pts, i) {
                Ok(ts) => forall|k: int|
                    0 <= k < ts.len() ==> (#[trigger] ts[k]).offsets.0 <= ts[k].offsets.1 <= b,
                Err(_) => true,
            }
        }),
    decreases (if i <= pts.len() { pts.len() - i } else { 0 }),
{
    if !(i < 0 || i >= pts.len()) {
        lemma_wl_from_bound(wl, pts, i + 1, b);
        match spec_wl_word_token(wl, pts[i].0, pts[i].1, i as u32) {
            Err(_) => {},
            Ok(t) => {
                match spec_wl_from(wl, pts, i + 1) {
                    Err(_) => {},
                    Ok(rest) => {
                        let whole = seq![t] + rest;
                        assert forall|k: int| 0 <= k < whole.len() implies
                            (#[trigger] whole[k]).offsets.0 <= whole[k].offsets.1 <= b by {
                            if k > 0 {
                                assert(whole[k] == rest[k - 1]);
                            }
                        }
                    },
                }
            },
        }
    }
}

impl Default for WordLevel {
    /// An empty vocabulary with the usual `<unk>` token.
    fn default() -> (r: WordLevel)
        ensures
            r.wf(),
            r.vocab@ == Map::<Seq<char>, u32>::empty(),
            r.unk_token@ == "<unk>"@,
    {
        WordLevel { vocab: Vocab::empty(), unk_token: String::from_str("<unk>") }
    }
}

} // verus!
