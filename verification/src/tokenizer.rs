//! The tokenization pipeline: added-vocabulary extraction,
//! normalization, pre-tokenization, model tokenization, truncation,
//! merging and padding; and decoding back to text.

use vstd::prelude::*;

use crate::added::{
    av_map, first_added_content, spec_add_all, AddedToken, AddedTokenModel, AddedVocabulary,
};
use crate::encoding::{EncModel, EncRows, Encoding};
use crate::error::TokenizerError;
use crate::models::vocab::first_token_of;
use crate::models::{spec_model_entries, spec_model_vocab, ModelWrapper};
use crate::normalized::NormalizedString;
use crate::normalizer::NormalizerWrapper;
use crate::padding::{spec_pad_model, spec_pad_target, PaddingParams, PaddingStrategy};
use crate::pre_tokenizers::{concat_chars, spec_ms_decode, Metaspace, PreTokenizerWrapper};
use crate::text::{byte_len, push_char};
use crate::token::TokenModel;
use crate::truncation::{spec_truncate_encodings, truncate_encodings, TruncationParams};

verus! {

/// One sequence handed to `encode`: raw text, or text already cut
/// into pre-tokens.
pub enum InputSequence {
    Raw(String),
    PreTokenized(Vec<String>),
}

/// The input of `encode`: one sequence, or a pair.
pub enum EncodeInput {
    Single(InputSequence),
    Dual(InputSequence, InputSequence),
}

/// An error raised while assembling a `Tokenizer`.
pub struct BuilderError {
    pub reason: String,
}

impl BuilderError {
    /// A human-readable description of the error.
    pub fn message(&self) -> (r: String)
        ensures
            r@ == self.reason@,
    {
        self.reason.clone()
    }
}

/// The post-processing interface: insert a model's special tokens
/// around one encoding or a pair. The default processing, with no
/// processor configured, simply merges the pair.
pub trait PostProcessor {
    /// The number of tokens the processing step will add.
    fn added_tokens(&self, is_pair: bool) -> (r: usize);

    /// Process both encodings and return the merged one.
    fn process(
        &self,
        encoding: Encoding,
        pair_encoding: Option<Encoding>,
        add_special_tokens: bool,
    ) -> (r: Result<Encoding, TokenizerError>)
        requires
            encoding.wf(),
            pair_encoding is Some ==> pair_encoding->0.wf(),
        ensures
            r is Ok ==> (r->Ok_0).wf(),
    ;

    /// The processing used when no processor is configured: the pair
    /// is appended to the first encoding.
    fn default_process(
        encoding: Encoding,
        pair_encoding: Option<Encoding>,
        _add_special_tokens: bool,
    ) -> (r: Result<Encoding, TokenizerError>)
        requires
            encoding.wf(),
            pair_encoding is Some ==> pair_encoding->0.wf(),
        ensures
            r is Ok,
            (r->Ok_0)@ == spec_default_process(encoding@, match pair_encoding {
                Some(p) => Some(p@),
                None => None,
            }),
            (r->Ok_0).wf(),
    {
        match pair_encoding {
            None => Ok(encoding),
            Some(pair) => {
                let mut encoding = encoding;
                encoding.merge_with(pair, false);
                Ok(encoding)
            },
        }
    }
}

/// The default processing: the pair is appended to the first encoding
/// with no offset shift.
pub open spec fn spec_default_process(a: EncModel, b: Option<EncModel>) -> EncModel {
    match b {
        None => a,
        Some(bm) => crate::encoding::spec_merged(a, bm, false),
    }
}

/// The decoding interface: join token strings back into text.
pub trait Decoder {
    fn decode(&self, tokens: Vec<String>) -> (r: Result<String, TokenizerError>);
}

/// The set of decoders this pipeline ships.
#[derive(Clone, Copy, Debug, PartialEq, Eq, Structural)]
pub enum DecoderWrapper {
    Metaspace(Metaspace),
}

impl Decoder for DecoderWrapper {
    fn decode(&self, tokens: Vec<String>) -> (r: Result<String, TokenizerError>) {
        match self {
            DecoderWrapper::Metaspace(m) => m.decode(tokens),
        }
    }
}

/// The training interface: a trainer counts words and produces a new
/// model, together with special tokens to register with it.
pub trait Trainer {
    /// Whether progress should be reported while counting words.
    fn should_show_progress(&self) -> (r: bool);

    /// Produce a model from word counts.
    fn train(&self, words: Vec<(String, u32)>) -> (r: Result<
        (ModelWrapper, Vec<AddedToken>),
        TokenizerError,
    >)
        ensures
            r is Ok ==> (r->Ok_0).0.wf(),
    ;

    /// Count the given pre-token strings as relevant words.
    fn process_tokens(&self, words: &mut Vec<(String, u32)>, tokens: Vec<String>);
}

/// A tokenizer: the assembled pipeline.
pub struct Tokenizer {
    pub normalizer: Option<NormalizerWrapper>,
    pub pre_tokenizer: Option<PreTokenizerWrapper>,
    pub model: ModelWrapper,
    pub decoder: Option<DecoderWrapper>,
    pub added_vocabulary: AddedVocabulary,
    pub truncation: Option<TruncationParams>,
    pub padding: Option<PaddingParams>,
}

/// Configuration of a `Tokenizer` under construction.
pub struct TokenizerBuilder {
    pub model: Option<ModelWrapper>,
    pub normalizer: Option<NormalizerWrapper>,
    pub pre_tokenizer: Option<PreTokenizerWrapper>,
    pub decoder: Option<DecoderWrapper>,
    pub truncation: Option<TruncationParams>,
    pub padding: Option<PaddingParams>,
}

impl TokenizerBuilder {
    /// An empty builder.
    pub fn new() -> (r: TokenizerBuilder)
        ensures
            r.model is None,
            r.normalizer is None,
            r.pre_tokenizer is None,
            r.decoder is None,
            r.truncation is None,
            r.padding is None,
    {
        TokenizerBuilder {
            model: None,
            normalizer: None,
            pre_tokenizer: None,
            decoder: None,
            truncation: None,
            padding: None,
        }
    }

    pub fn with_model(self, model: ModelWrapper) -> (r: TokenizerBuilder)
        ensures
            r == (TokenizerBuilder { model: Some(model), ..self }),
    {
        TokenizerBuilder { model: Some(model), ..self }
    }

    pub fn with_normalizer(self, normalizer: Option<NormalizerWrapper>) -> (r: TokenizerBuilder)
        ensures
            r == (TokenizerBuilder { normalizer, ..self }),
    {
        TokenizerBuilder { normalizer, ..self }
    }

    pub fn with_pretokenizer(self, pre_tokenizer: Option<PreTokenizerWrapper>) -> (r:
        TokenizerBuilder)
        ensures
            r == (TokenizerBuilder { pre_tokenizer, ..self }),
    {
        TokenizerBuilder { pre_tokenizer, ..self }
    }

    pub fn with_decoder(self, decoder: Option<DecoderWrapper>) -> (r: TokenizerBuilder)
        ensures
            r == (TokenizerBuilder { decoder, ..self }),
    {
        TokenizerBuilder { decoder, ..self }
    }

    pub fn with_truncation(self, truncation: Option<TruncationParams>) -> (r: TokenizerBuilder)
        ensures
            r == (TokenizerBuilder { truncation, ..self }),
    {
        TokenizerBuilder { truncation, ..self }
    }

    pub fn with_padding(self, padding: Option<PaddingParams>) -> (r: TokenizerBuilder)
        ensures
            r == (TokenizerBuilder { padding, ..self }),
    {
        TokenizerBuilder { padding, ..self }
    }

    /// Build the tokenizer; fails when no model was set.
    pub fn build(self) -> (r: Result<Tokenizer, BuilderError>)
        requires
            self.model is Some ==> self.model->0.wf(),
        ensures
            match r {
                Ok(t) => {
                    &&& self.model is Some
                    &&& t.model == self.model->0
                    &&& t.normalizer == self.normalizer
                    &&& t.pre_tokenizer == self.pre_tokenizer
                    &&& t.decoder == self.decoder
                    &&& t.truncation == self.truncation
                    &&& t.padding == self.padding
                    &&& t.added_vocabulary.spec_entries().len() == 0
                    &&& t.wf()
                },
                Err(_) => self.model is None,
            },
    {
        match self.model {
            None => Err(BuilderError { reason: String::from_str("Model missing.") }),
            Some(model) => Ok(
                Tokenizer {
                    normalizer: self.normalizer,
                    pre_tokenizer: self.pre_tokenizer,
                    model,
                    decoder: self.decoder,
                    added_vocabulary: AddedVocabulary::new(),
                    truncation: self.truncation,
                    padding: self.padding,
                },
            ),
        }
    }
}

impl Tokenizer {
    pub open spec fn wf(&self) -> bool {
        &&& self.model.wf()
        &&& self.added_vocabulary.wf()
    }

    /// A tokenizer over the given model, with nothing else configured.
    pub fn new(model: ModelWrapper) -> (r: Tokenizer)
        requires
            model.wf(),
        ensures
            r.model == model,
            r.normalizer is None,
            r.pre_tokenizer is None,
            r.decoder is None,
            r.truncation is None,
            r.padding is None,
            r.added_vocabulary.spec_entries().len() == 0,
            r.wf(),
    {
        Tokenizer {
            normalizer: None,
            pre_tokenizer: None,
            model,
            decoder: None,
            added_vocabulary: AddedVocabulary::new(),
            truncation: None,
            padding: None,
        }
    }

    pub fn with_normalizer(&mut self, normalizer: NormalizerWrapper)
        requires
            old(self).wf(),
        ensures
            *final(self) == (Tokenizer { normalizer: Some(normalizer), ..*old(self) }),
            final(self).wf(),
    {
        self.normalizer = Some(normalizer);
    }

    pub fn get_normalizer(&self) -> (r: &Option<NormalizerWrapper>)
        ensures
            r == self.normalizer,
    {
        &self.normalizer
    }

    pub fn with_pre_tokenizer(&mut self, pre_tokenizer: PreTokenizerWrapper)
        requires
            old(self).wf(),
        ensures
            *final(self) == (Tokenizer { pre_tokenizer: Some(pre_tokenizer), ..*old(self) }),
            final(self).wf(),
    {
        self.pre_tokenizer = Some(pre_tokenizer);
    }

    pub fn get_pre_tokenizer(&self) -> (r: &Option<PreTokenizerWrapper>)
        ensures
            r == self.pre_tokenizer,
    {
        &self.pre_tokenizer
    }

    pub fn with_decoder(&mut self, decoder: DecoderWrapper)
        requires
            old(self).wf(),
        ensures
            *final(self) == (Tokenizer { decoder: Some(decoder), ..*old(self) }),
            final(self).wf(),
    {
        self.decoder = Some(decoder);
    }

    pub fn get_decoder(&self) -> (r: &Option<DecoderWrapper>)
        ensures
            r == self.decoder,
    {
        &self.decoder
    }

    pub fn with_model(&mut self, model: ModelWrapper)
        requires
            old(self).wf(),
            model.wf(),
        ensures
            *final(self) == (Tokenizer { model, ..*old(self) }),
            final(self).wf(),
    {
        self.model = model;
    }

    pub fn get_model(&self) -> (r: &ModelWrapper)
        ensures
            r == self.model,
    {
        &self.model
    }

    pub fn with_truncation(&mut self, truncation: Option<TruncationParams>)
        requires
            old(self).wf(),
        ensures
            *final(self) == (Tokenizer { truncation, ..*old(self) }),
            final(self).wf(),
    {
        self.truncation = truncation;
    }

    pub fn get_truncation(&self) -> (r: &Option<TruncationParams>)
        ensures
            r == self.truncation,
    {
        &self.truncation
    }

    pub fn with_padding(&mut self, padding: Option<PaddingParams>)
        requires
            old(self).wf(),
        ensures
            *final(self) == (Tokenizer { padding, ..*old(self) }),
            final(self).wf(),
    {
        self.padding = padding;
    }

    pub fn get_padding(&self) -> (r: &Option<PaddingParams>)
        ensures
            r == self.padding,
    {
        &self.padding
    }

    /// The size of the vocabulary, with or without the overlay ids.
    pub fn get_vocab_size(&self, with_added_tokens: bool) -> (r: usize)
        requires
            self.wf(),
            spec_model_entries(&self.model).len() + self.added_vocabulary.overlay_len
                <= usize::MAX,
        ensures
            with_added_tokens ==> r == spec_model_entries(&self.model).len()
                + self.added_vocabulary.overlay_len,
            !with_added_tokens ==> r == spec_model_entries(&self.model).len(),
    {
        let base = self.model.vocab_size();
        if with_added_tokens {
            base + self.added_vocabulary.len()
        } else {
            base
        }
    }

    /// The model's entries followed by the overlay's, each overlay
    /// token with its assigned id.
    pub fn get_vocab(&self, with_added_tokens: bool) -> (r: Vec<(String, u32)>)
        requires
            self.wf(),
        ensures
            crate::models::vocab::entries_view(r@) == (if with_added_tokens {
                spec_model_entries(&self.model) + self.added_vocabulary.spec_entries().map_values(
                    |e: (AddedTokenModel, u32)| (e.0.content, e.1),
                )
            } else {
                spec_model_entries(&self.model)
            }),
    {
        let mut r = crate::models::vocab::clone_entries(self.model.vocab_entries());
        let ghost base = r@;
        if with_added_tokens {
            let added = self.added_vocabulary.get_vocab();
            let n: usize = added.len();
            let mut i: usize = 0;
            while i < n
                invariant
                    n == added@.len(),
                    0 <= i <= n,
                    r@.len() == base.len() + i,
                    forall|j: int| 0 <= j < base.len() ==> (#[trigger] r@[j]).0@ == base[j].0@
                        && r@[j].1 == base[j].1,
                    forall|j: int| 0 <= j < i ==> (#[trigger] r@[base.len() + j]).0@
                        == added@[j].0.content@ && r@[base.len() + j].1 == added@[j].1,
                decreases n - i,
            {
                let e = &added[i];
                r.push((e.0.content.clone(), e.1));
                i = i + 1;
            }
            proof {
                let goal = spec_model_entries(&self.model)
                    + self.added_vocabulary.spec_entries().map_values(
                    |e: (AddedTokenModel, u32)| (e.0.content, e.1),
                );
                assert(crate::models::vocab::entries_view(base).len() == base.len());
                assert(spec_model_entries(&self.model) == crate::models::vocab::entries_view(base));
                assert(self.added_vocabulary.spec_entries().len()
                    == self.added_vocabulary.entries@.len());
                assert forall|j: int| 0 <= j < r@.len() implies
                    #[trigger] crate::models::vocab::entries_view(r@)[j] == goal[j] by {
                    assert(crate::models::vocab::entries_view(r@)[j] == (r@[j].0@, r@[j].1));
                    if j < base.len() {
                        assert(crate::models::vocab::entries_view(base)[j] == (base[j].0@, base[j].1));
                    } else {
                        let k = j - base.len();
                        assert(crate::added::av_view(added@)[k] == (added@[k].0@, added@[k].1));
                        assert(crate::added::av_view(added@)
                            == self.added_vocabulary.spec_entries());
                        assert(self.added_vocabulary.spec_entries().map_values(
                            |e: (AddedTokenModel, u32)| (e.0.content, e.1),
                        )[k] == (self.added_vocabulary.spec_entries()[k].0.content,
                            self.added_vocabulary.spec_entries()[k].1));
                        assert(r@[base.len() + k].0@ == added@[k].0.content@ && r@[base.len()
                            + k].1 == added@[k].1);
                        assert(r@[j] == r@[base.len() + k]);
                        assert(added@[k].0@.content == added@[k].0.content@);
                    }
                }
                assert(crate::models::vocab::entries_view(r@) =~= goal);
            }
        } else {
            proof {
                assert(crate::models::vocab::entries_view(r@) =~= spec_model_entries(&self.model));
            }
        }
        r
    }

    /// The id of `token`: the overlay's when it holds it, else the
    /// model's.
    pub fn token_to_id(&self, token: &str) -> (r: Option<u32>)
        requires
            self.wf(),
        ensures
            ({
                let am = av_map(self.added_vocabulary.spec_entries());
                if am.contains_key(token@) {
                    r == Some(am[token@].0)
                } else if spec_model_vocab(&self.model).contains_key(token@) {
                    r == Some(spec_model_vocab(&self.model)[token@])
                } else {
                    r is None
                }
            }),
    {
        self.added_vocabulary.token_to_id(token, &self.model)
    }

    /// The token of `id`: the overlay's when an added token has it,
    /// else the model's.
    pub fn id_to_token(&self, id: u32) -> (r: Option<String>)
        requires
            self.wf(),
        ensures
            match r {
                Some(t) => spec_lookup_token(self, id) == Some(t@),
                None => spec_lookup_token(self, id) is None,
            },
    {
        self.added_vocabulary.id_to_token(id, &self.model)
    }

    /// Register the given tokens as special tokens.
    pub fn add_special_tokens(&mut self, tokens: &Vec<AddedToken>) -> (r: usize)
        requires
            old(self).wf(),
            spec_model_entries(&old(self).model).len() + old(self).added_vocabulary.overlay_len
                + tokens@.len() <= u32::MAX,
        ensures
            final(self).wf(),
            *final(self) == (Tokenizer { added_vocabulary: final(self).added_vocabulary, ..*old(self) }),
            final(self).added_vocabulary.spec_state() == spec_add_all(
                old(self).added_vocabulary.spec_state(),
                spec_model_vocab(&old(self).model),
                spec_model_entries(&old(self).model).len() as int,
                tokens@.map_values(
                    |t: AddedToken| AddedTokenModel { special: true, ..t@ },
                ),
                0,
            ),
            r == final(self).added_vocabulary.overlay_len - old(
                self,
            ).added_vocabulary.overlay_len,
    {
        let mut av = AddedVocabulary::new();
        core::mem::swap(&mut av, &mut self.added_vocabulary);
        let r = av.add_special_tokens(tokens, &self.model, self.normalizer.as_ref());
        core::mem::swap(&mut av, &mut self.added_vocabulary);
        r
    }

    /// Add the given tokens to the added vocabulary.
    pub fn add_tokens(&mut self, tokens: &Vec<AddedToken>) -> (r: usize)
        requires
            old(self).wf(),
            spec_model_entries(&old(self).model).len() + old(self).added_vocabulary.overlay_len
                + tokens@.len() <= u32::MAX,
        ensures
            final(self).wf(),
            *final(self) == (Tokenizer { added_vocabulary: final(self).added_vocabulary, ..*old(self) }),
            final(self).added_vocabulary.spec_state() == spec_add_all(
                old(self).added_vocabulary.spec_state(),
                spec_model_vocab(&old(self).model),
                spec_model_entries(&old(self).model).len() as int,
                tokens@.map_values(|t: AddedToken| t@),
                0,
            ),
            r == final(self).added_vocabulary.overlay_len - old(self).added_vocabulary.overlay_len,
    {
        let mut av = AddedVocabulary::new();
        core::mem::swap(&mut av, &mut self.added_vocabulary);
        let r = av.add_tokens(tokens, &self.model, self.normalizer.as_ref());
        core::mem::swap(&mut av, &mut self.added_vocabulary);
        r
    }
}

/// The string of `id`: the overlay's first matching entry, else the
/// model's.
pub open spec fn spec_lookup_token(t: &Tokenizer, id: u32) -> Option<Seq<char>> {
    match first_added_content(t.added_vocabulary.spec_entries(), id, 0) {
        Some(c) => Some(c),
        None => first_token_of(spec_model_entries(&t.model), id, 0),
    }
}

/// Whether the overlay marks `s` as a special token.
pub open spec fn spec_is_special(t: &Tokenizer, s: Seq<char>) -> bool {
    av_map(t.added_vocabulary.spec_entries()).contains_key(s) && av_map(
        t.added_vocabulary.spec_entries(),
    )[s].1
}

/// The token strings of the given ids, from position `i` on: unknown
/// ids are dropped, and special tokens too when `skip` is set.
pub open spec fn spec_decode_strings(t: &Tokenizer, ids: Seq<u32>, skip: bool, i: int) -> Seq<
    Seq<char>,
>
    decreases (if i <= ids.len() { ids.len() - i } else { 0 }),
{
    if i < 0 || i >= ids.len() {
        Seq::empty()
    } else {
        let rest = spec_decode_strings(t, ids, skip, i + 1);
        match spec_lookup_token(t, ids[i]) {
            None => rest,
            Some(s) => if skip && spec_is_special(t, s) {
                rest
            } else {
                seq![s] + rest
            },
        }
    }
}

/// The strings joined with single spaces.
pub open spec fn spec_join_tail(toks: Seq<Seq<char>>, i: int) -> Seq<char>
    decreases (if i <= toks.len() { toks.len() - i } else { 0 }),
{
    if i < 0 || i >= toks.len() {
        Seq::empty()
    } else {
        seq![' '] + toks[i] + spec_join_tail(toks, i + 1)
    }
}

pub open spec fn spec_join_spaces(toks: Seq<Seq<char>>) -> Seq<char> {
    if toks.len() == 0 {
        Seq::empty()
    } else {
        toks[0] + spec_join_tail(toks, 1)
    }
}

/// What decoding the given ids returns: the looked-up strings joined
/// by the configured decoder, or by single spaces.
pub open spec fn spec_decode(t: &Tokenizer, ids: Seq<u32>, skip: bool) -> Seq<char> {
    let strs = spec_decode_strings(t, ids, skip, 0);
    match t.decoder {
        Some(DecoderWrapper::Metaspace(m)) => spec_ms_decode(
            concat_chars(strs),
            m.replacement,
            m.add_prefix_space,
        ),
        None => spec_join_spaces(strs),
    }
}

impl Tokenizer {
    /// Decode the given ids back to text. Never fails.
    pub fn decode(&self, ids: Vec<u32>, skip_special_tokens: bool) -> (r: Result<
        String,
        TokenizerError,
    >)
        requires
            self.wf(),
        ensures
            r is Ok,
            (r->Ok_0)@ == spec_decode(self, ids@, skip_special_tokens),
    {
        let n: usize = ids.len();
        let mut tokens: Vec<String> = Vec::new();
        let mut i: usize = 0;
        while i < n
            invariant
                n == ids@.len(),
                self.wf(),
                0 <= i <= n,
                spec_decode_strings(self, ids@, skip_special_tokens, 0) =~= tokens.deep_view()
                    + spec_decode_strings(self, ids@, skip_special_tokens, i as int),
            decreases n - i,
        {
            let ghost toks_pre = tokens.deep_view();
            match self.added_vocabulary.id_to_token(ids[i], &self.model) {
                Some(s) => {
                    let keep: bool = if skip_special_tokens {
                        !self.added_vocabulary.is_special_token(s.as_str())
                    } else {
                        true
                    };
                    if keep {
                        tokens.push(s);
                        proof {
                            assert(tokens.deep_view() =~= toks_pre.push(
                                spec_lookup_token(self, ids@[i as int])->0,
                            )) by {
                                assert forall|k: int| 0 <= k < tokens@.len() implies
                                    #[trigger] tokens.deep_view()[k] == toks_pre.push(
                                    spec_lookup_token(self, ids@[i as int])->0,
                                )[k] by {
                                    assert(tokens.deep_view()[k] == tokens@[k]@);
                                }
                            }
                        }
                    }
                },
                None => {},
            }
            i = i + 1;
            proof {
                assert(spec_decode_strings(self, ids@, skip_special_tokens, 0)
                    =~= tokens.deep_view() + spec_decode_strings(
                    self,
                    ids@,
                    skip_special_tokens,
                    i as int,
                ));
            }
        }
        proof {
            assert(spec_decode_strings(self, ids@, skip_special_tokens, n as int) =~= Seq::<
                Seq<char>,
            >::empty());
            assert(tokens.deep_view() + Seq::<Seq<char>>::empty() =~= tokens.deep_view());
            assert(tokens.deep_view() == spec_decode_strings(self, ids@, skip_special_tokens, 0));
        }
        match &self.decoder {
            Some(DecoderWrapper::Metaspace(m)) => m.decode(tokens),
            None => {
                let nt: usize = tokens.len();
                let mut out: String = String::new();
                let mut j: usize = 0;
                let ghost strs = tokens.deep_view();
                while j < nt
                    invariant
                        nt == tokens@.len(),
                        strs == tokens.deep_view(),
                        0 <= j <= nt,
                        j == 0 ==> out@ =~= Seq::<char>::empty(),
                        j > 0 ==> out@ + spec_join_tail(strs, j as int) =~= spec_join_spaces(strs),
                    decreases nt - j,
                {
                    if j > 0 {
                        push_char(&mut out, ' ');
                    }
                    out.append(tokens[j].as_str());
                    proof {
                        assert(tokens.deep_view()[j as int] == tokens@[j as int]@);
                    }
                    j = j + 1;
                    proof {
                        if j == 1 {
                            assert(out@ =~= strs[0]);
                        }
                        assert(out@ + spec_join_tail(strs, j as int) =~= spec_join_spaces(strs));
                    }
                }
                proof {
                    assert(spec_join_tail(strs, nt as int) =~= Seq::<char>::empty());
                    if nt > 0 {
                        assert(out@ =~= spec_join_spaces(strs));
                    } else {
                        assert(out@ =~= spec_join_spaces(strs));
                    }
                }
                Ok(out)
            },
        }
    }

    /// Encode the given input: one sequence, or a pair; each raw or
    /// already pre-tokenized.
    pub fn encode(&self, input: EncodeInput, add_special_tokens: bool) -> (r: Result<
        Encoding,
        TokenizerError,
    >)
        requires
            self.wf(),
            encode_input_ok(&input),
        ensures
            ({
                let spec_r = spec_encode(self, &input, add_special_tokens);
                match r {
                    Ok(e) => spec_r is Ok && e@ == spec_r->Ok_0 && e.wf(),
                    Err(e) => spec_r is Err && e == spec_r->Err_0,
                }
            }),
    {
        let (sequence, pair) = match input {
            EncodeInput::Single(s1) => (s1, None),
            EncodeInput::Dual(s1, s2) => (s1, Some(s2)),
        };
        let encoding = self.encode_single_sequence(&sequence, 0)?;
        let pair_encoding = match &pair {
            Some(s2) => Some(self.encode_single_sequence(s2, 1)?),
            None => None,
        };
        proof {
            assert(encoding@ =~~= (EncModel {
                rows: encoding@.rows,
                overflowing: Seq::<EncRows>::empty(),
            }));
            match &pair_encoding {
                Some(pe) => {
                    assert(pe@ =~~= (EncModel {
                        rows: pe@.rows,
                        overflowing: Seq::<EncRows>::empty(),
                    }));
                },
                None => {},
            }
        }
        self.post_process(encoding, pair_encoding, add_special_tokens)
    }

    /// Encode one sequence into one encoding with the given type id.
    fn encode_single_sequence(&self, sequence: &InputSequence, type_id: u32) -> (r: Result<
        Encoding,
        TokenizerError,
    >)
        requires
            self.wf(),
            input_sequence_ok(sequence),
        ensures
            ({
                let spec_r = spec_encode_sequence(self, sequence, type_id);
                match r {
                    Ok(e) => spec_r is Ok && e@.rows == spec_r->Ok_0 && e@.overflowing.len() == 0
                        && e.wf(),
                    Err(e) => spec_r is Err && e == spec_r->Err_0,
                }
            }),
    {
        match sequence {
            InputSequence::Raw(s) => self.encode_subseq(s, type_id, false),
            InputSequence::PreTokenized(v) => {
                let mut acc = Encoding::empty();
                let n: usize = v.len();
                let mut j: usize = 0;
                while j < n
                    invariant
                        self.wf(),
                        n == v@.len(),
                        forall|k: int| 0 <= k < v@.len() ==> byte_len((#[trigger] v@[k])@)
                            <= 0x10000000,
                        0 <= j <= n,
                        acc.wf(),
                        acc@.overflowing.len() == 0,
                        spec_encode_pretok(self, v@, type_id, 0, EncRows::empty())
                            == spec_encode_pretok(self, v@, type_id, j as int, acc@.rows),
                    decreases n - j,
                {
                    let e = self.encode_subseq(&v[j], type_id, true)?;
                    let ghost acc_rows = acc@.rows;
                    let ghost e_rows = e@.rows;
                    acc.merge_with(e, false);
                    j = j + 1;
                    proof {
                        assert(acc@.overflowing =~= Seq::<EncRows>::empty());
                    }
                }
                Ok(acc)
            },
        }
    }

    /// Encode one piece of text (one raw sequence, or one element of a
    /// pre-tokenized sequence).
    fn encode_subseq(&self, subseq: &String, type_id: u32, pre_tokenized: bool) -> (r: Result<
        Encoding,
        TokenizerError,
    >)
        requires
            self.wf(),
            byte_len(subseq@) <= 0x10000000,
        ensures
            ({
                let spec_r = spec_encode_subseq(self, subseq@, type_id, pre_tokenized);
                match r {
                    Ok(e) => spec_r is Ok && e@.rows == spec_r->Ok_0 && e@.overflowing.len() == 0
                        && e.wf(),
                    Err(e) => spec_r is Err && e == spec_r->Err_0,
                }
            }),
    {
        let ghost ev = self.added_vocabulary.spec_entries();
        let ghost nrm = self.normalizer;
        let ghost cm = crate::added::spec_extract(ev, nrm, subseq@);
        let nref = self.normalizer.as_ref();
        proof {
            crate::added::lemma_extract_origs(ev, nrm, subseq@);
            match nref {
                Some(w) => {
                    assert(crate::added::opt_norm_view(nref) == nrm);
                },
                None => {
                    assert(crate::added::opt_norm_view(nref) == nrm);
                },
            }
            assert(cm.take(0) =~= Seq::<
                (crate::normalized::NsModel, Option<(u32, bool)>),
            >::empty());
            assert(crate::added::cat_origs(cm.take(0)) =~= Seq::<char>::empty());
        }
        let mut chunks = self.added_vocabulary.extract_and_normalize(nref, subseq.as_str());
        let n: usize = chunks.len();
        let mut acc = Encoding::empty();
        let mut off: usize = 0;
        let mut i: usize = 0;
        while chunks.len() > 0
            invariant
                self.wf(),
                byte_len(subseq@) <= 0x10000000,
                cm == crate::added::spec_extract(ev, nrm, subseq@),
                ev == self.added_vocabulary.spec_entries(),
                nrm == self.normalizer,
                chunks@.len() + i == n,
                n == cm.len(),
                forall|k: int| 0 <= k < chunks@.len() ==> crate::added::chunks_view(chunks@)[k]
                    == cm[i + k] && (#[trigger] chunks@[k]).0.wf(),
                acc.wf(),
                acc@.overflowing.len() == 0,
                off == byte_len(crate::added::cat_origs(cm.take(i as int))),
                off <= byte_len(subseq@),
                spec_encode_chunks(self, cm, type_id, pre_tokenized, 0, 0, EncRows::empty())
                    == spec_encode_chunks(
                    self,
                    cm,
                    type_id,
                    pre_tokenized,
                    i as int,
                    off as int,
                    acc@.rows,
                ),
            decreases chunks@.len(),
        {
            let ghost chunks_pre = chunks@;
            let (m, idopt) = chunks.remove(0);
            proof {
                assert(crate::added::chunks_view(chunks_pre)[0] == cm[i as int]);
                assert(forall|k: int| 0 <= k < chunks@.len() ==> chunks@[k] == chunks_pre[k + 1]);
                assert forall|k: int| 0 <= k < chunks@.len() implies crate::added::chunks_view(
                    chunks@,
                )[k] == cm[i + 1 + k] by {
                    assert(crate::added::chunks_view(chunks_pre)[k + 1] == cm[i + 1 + k]);
                }
                crate::added::lemma_extract_norm(ev, nrm, subseq@, i as int);
            }
            let chunk_orig_bytes: usize = m.len_original();
            proof {
                assert(cm.take(i as int + 1) =~= cm.take(i as int) + seq![cm[i as int]]);
                crate::added::lemma_cat_origs_concat(cm.take(i as int), seq![cm[i as int]]);
                crate::added::lemma_cat_singleton(cm[i as int]);
                crate::text::lemma_byte_len_concat(
                    crate::added::cat_origs(cm.take(i as int)),
                    cm[i as int].0.original,
                );
                // The processed part plus the rest always spans the input.
                assert(cm =~= cm.take(i as int + 1) + cm.skip(i as int + 1));
                crate::added::lemma_cat_origs_concat(cm.take(i as int + 1), cm.skip(i as int + 1));
                crate::text::lemma_byte_len_concat(
                    crate::added::cat_origs(cm.take(i as int + 1)),
                    crate::added::cat_origs(cm.skip(i as int + 1)),
                );
            }
            let (chunk_enc, ns3) = match self.chunk_encoding(
                m,
                idopt,
                type_id,
                pre_tokenized,
                Ghost(byte_len(subseq@) as int),
            ) {
                Ok(p) => p,
                Err(e) => {
                    return Err(e);
                },
            };
            let converted = convert_chunk(chunk_enc, &ns3, off);
            let ghost acc_rows = acc@.rows;
            acc.merge_with(converted, false);
            off = off + chunk_orig_bytes;
            i = i + 1;
            proof {
                assert(acc@.overflowing =~= Seq::<EncRows>::empty());
            }
        }
        proof {
            assert(cm.take(n as int) =~= cm);
        }
        Ok(acc)
    }

    /// The rows of one chunk, before offset conversion, together with
    /// the normalized string those rows' offsets refer to.
    fn chunk_encoding(
        &self,
        m: NormalizedString,
        idopt: Option<(u32, bool)>,
        type_id: u32,
        pre_tokenized: bool,
        Ghost(limit): Ghost<int>,
    ) -> (r: Result<(Encoding, NormalizedString), TokenizerError>)
        requires
            self.wf(),
            m.wf(),
            byte_len(m@.normalized) <= limit <= 0x10000000,
        ensures
            ({
                let spec_r = spec_chunk_result(self, (m@, idopt), type_id, pre_tokenized);
                match r {
                    Ok((e, ns3)) => spec_r is Ok && e@.rows == (spec_r->Ok_0).0 && ns3@ == (
                    spec_r->Ok_0).1 && e@.overflowing.len() == 0 && e.wf() && ns3.wf(),
                    Err(e) => spec_r is Err && e == spec_r->Err_0,
                }
            }),
    {
        match idopt {
            Some((id, special)) => {
                let text = m.get();
                let blen = m.len();
                let mut ids: Vec<u32> = Vec::new();
                ids.push(id);
                let mut type_ids: Vec<u32> = Vec::new();
                type_ids.push(type_id);
                let mut tokens: Vec<String> = Vec::new();
                tokens.push(text);
                let mut words: Vec<Option<u32>> = Vec::new();
                words.push(Some(0));
                let mut offsets: Vec<(usize, usize)> = Vec::new();
                offsets.push((0, blen));
                let mut special_tokens_mask: Vec<u32> = Vec::new();
                special_tokens_mask.push(if special {
                    1
                } else {
                    0
                });
                let mut attention_mask: Vec<u32> = Vec::new();
                attention_mask.push(1);
                let e = Encoding {
                    ids,
                    type_ids,
                    tokens,
                    words,
                    offsets,
                    special_tokens_mask,
                    attention_mask,
                    overflowing: Vec::new(),
                };
                proof {
                    assert(e@.rows =~~= (spec_chunk_result(
                        self,
                        (m@, idopt),
                        type_id,
                        pre_tokenized,
                    )->Ok_0).0);
                    assert(e@.overflowing =~= Seq::<EncRows>::empty());
                }
                Ok((e, m))
            },
            None => {
                let mut ns2 = m;
                let use_ptok = !pre_tokenized && self.pre_tokenizer.is_some();
                let pieces: Vec<(String, (usize, usize))> = if use_ptok {
                    match &self.pre_tokenizer {
                        Some(pt) => {
                            proof {
                                crate::pre_tokenizers::lemma_pretok_pieces_bounded(*pt, ns2@);
                            }
                            pt.apply(&mut ns2)
                        },
                        None => {
                            proof {
                                assert(false);
                            }
                            vstd::pervasive::unreached()
                        },
                    }
                } else {
                    whole_piece(&ns2)
                };
                proof {
                    let pv = crate::pre_tokenizers::pieces_view(pieces@);
                    assert(pieces@.len() == pv.len());
                    assert(byte_len(ns2@.normalized) <= limit + 1) by {
                        if use_ptok {
                            match self.pre_tokenizer->0 {
                                PreTokenizerWrapper::BertPreTokenizer(_) => {},
                                PreTokenizerWrapper::Delimiter(_) => {},
                                PreTokenizerWrapper::Metaspace(pms) => {
                                    let m0 = m@;
                                    if pms.add_prefix_space && !(m0.normalized.len() > 0
                                        && m0.normalized.first() == ' ') {
                                        crate::text::lemma_byte_len_concat(seq![' '], m0.normalized);
                                        assert(byte_len(seq![' ']) == 1) by {
                                            assert(seq![' '].drop_last() =~= Seq::<char>::empty());
                                            assert(byte_len(Seq::<char>::empty()) == 0);
                                            assert(seq![' '].last() == ' ');
                                            assert(crate::text::utf8_len(' ') == 1);
                                        }
                                    }
                                },
                            }
                        }
                    }
                    if !use_ptok {
                        assert(crate::pre_tokenizers::pieces_bounded(pv, ns2@.normalized)) by {
                            crate::pre_tokenizers::lemma_byte_len_le_4len(ns2@.normalized);
                            assert(pv.len() == 1);
                            assert(pv[0] == (
                                ns2@.normalized,
                                (0usize, (byte_len(ns2@.normalized) as usize)),
                            ));
                        }
                    }
                    assert forall|k: int| 0 <= k < pieces@.len() implies
                        (#[trigger] pieces@[k]).1.0 + byte_len(pieces@[k].0@) <= usize::MAX
                            && pieces@[k].1.0 <= pieces@[k].1.1 by {
                        assert(pv[k] == (pieces@[k].0@, pieces@[k].1));
                        assert(pv[k].1.0 <= pv[k].1.1 <= byte_len(ns2@.normalized));
                        assert(byte_len(pv[k].0) <= 4 * byte_len(ns2@.normalized));
                    }
                    assert(pieces@.len() <= 2 * ns2@.normalized.len() + 1);
                    crate::text::lemma_byte_len_at_least_len(ns2@.normalized);
                }
                let toks = self.model.tokenize_pieces(pieces)?;
                let e = Encoding::from_tokens(toks, type_id);
                Ok((e, ns2))
            },
        }
    }

    /// Truncate, merge and pad one encoding or a pair. The original
    /// pipeline consults a configured post-processor here, reducing
    /// the truncation budget by the tokens it would add; this
    /// pipeline ships no processor (the concrete catalog is outside
    /// its scope), so the budget is used unreduced and the default
    /// merge applies. The `PostProcessor` trait remains the extension
    /// point.
    pub fn post_process(
        &self,
        encoding: Encoding,
        pair_encoding: Option<Encoding>,
        add_special_tokens: bool,
    ) -> (r: Result<Encoding, TokenizerError>)
        requires
            self.wf(),
            encoding.wf(),
            pair_encoding is Some ==> pair_encoding->0.wf(),
        ensures
            ({
                let spec_r = spec_post_process(self, encoding@, match pair_encoding {
                    Some(p) => Some(p@),
                    None => None,
                }, add_special_tokens);
                match r {
                    Ok(e) => spec_r is Ok && e@ == spec_r->Ok_0 && e.wf(),
                    Err(e) => spec_r is Err && e == spec_r->Err_0,
                }
            }),
    {
        let (e1, p1) = match &self.truncation {
            Some(tp) => truncate_encodings(encoding, pair_encoding, tp)?,
            None => (encoding, pair_encoding),
        };
        let merged = match p1 {
            None => e1,
            Some(pp) => {
                let mut e = e1;
                e.merge_with(pp, false);
                e
            },
        };
        match &self.padding {
            Some(params) => {
                let target: usize = match params.strategy {
                    PaddingStrategy::Fixed(k) => k,
                    PaddingStrategy::BatchLongest => merged.len(),
                };
                proof {
                    assert(crate::padding::max_len_of(seq![merged@]) == merged@.rows.len() as int)
                        by {
                        assert(crate::padding::max_len_of(Seq::<EncModel>::empty()) == 0);
                        assert(seq![merged@].drop_last() =~= Seq::<EncModel>::empty());
                        assert(seq![merged@].last() == merged@);
                    }
                }
                let mut out = merged;
                out.pad(target, params.pad_id, params.pad_type_id, &params.pad_token,
                    params.direction);
                Ok(out)
            },
            None => Ok(merged),
        }
    }

    /// Normalize the given sentence: cut it at added-token matches,
    /// normalize and pre-tokenize the unmatched chunks, and merge the
    /// chunks back into one aligned `NormalizedString`. Never fails.
    pub fn normalize(&self, sentence: &str) -> (r: Result<NormalizedString, TokenizerError>)
        requires
            self.wf(),
            byte_len(sentence@) <= 0x10000000,
        ensures
            r is Ok,
            (r->Ok_0)@ == spec_normalized_sentence(self, sentence@),
            (r->Ok_0).wf(),
    {
        let ghost ev = self.added_vocabulary.spec_entries();
        let ghost nrm = self.normalizer;
        let ghost cm = crate::added::spec_extract(ev, nrm, sentence@);
        let nref = self.normalizer.as_ref();
        proof {
            crate::added::lemma_extract_origs(ev, nrm, sentence@);
            match nref {
                Some(w) => {
                    assert(crate::added::opt_norm_view(nref) == nrm);
                },
                None => {
                    assert(crate::added::opt_norm_view(nref) == nrm);
                },
            }
            assert(cm.take(0) =~= Seq::<
                (crate::normalized::NsModel, Option<(u32, bool)>),
            >::empty());
            assert(crate::added::cat_origs(cm.take(0)) =~= Seq::<char>::empty());
        }
        let mut chunks = self.added_vocabulary.extract_and_normalize(nref, sentence);
        let n: usize = chunks.len();
        let mut acc = NormalizedString {
            original: Vec::new(),
            normalized: Vec::new(),
            alignment: Vec::new(),
            original_bytes: 0,
        };
        proof {
            assert(byte_len(acc@.normalized) == 0);
            assert(byte_len(acc@.original) == 0);
            assert(acc.wf());
            assert(acc@ =~~= (crate::normalized::NsModel {
                original: Seq::empty(),
                normalized: Seq::empty(),
                alignment: Seq::empty(),
            }));
        }
        let mut i: usize = 0;
        while chunks.len() > 0
            invariant
                self.wf(),
                byte_len(sentence@) <= 0x10000000,
                cm == crate::added::spec_extract(ev, nrm, sentence@),
                ev == self.added_vocabulary.spec_entries(),
                nrm == self.normalizer,
                chunks@.len() + i == n,
                n == cm.len(),
                forall|k: int| 0 <= k < chunks@.len() ==> crate::added::chunks_view(chunks@)[k]
                    == cm[i + k] && (#[trigger] chunks@[k]).0.wf(),
                acc.wf(),
                byte_len(acc@.original) == byte_len(crate::added::cat_origs(cm.take(i as int))),
                byte_len(acc@.original) <= byte_len(sentence@),
                spec_normalize_chunks(self, cm, 0, (crate::normalized::NsModel {
                    original: Seq::empty(),
                    normalized: Seq::empty(),
                    alignment: Seq::empty(),
                })) == spec_normalize_chunks(self, cm, i as int, acc@),
            decreases chunks@.len(),
        {
            let ghost chunks_pre = chunks@;
            let (m, idopt) = chunks.remove(0);
            proof {
                assert(crate::added::chunks_view(chunks_pre)[0] == cm[i as int]);
                assert(forall|k: int| 0 <= k < chunks@.len() ==> chunks@[k] == chunks_pre[k + 1]);
                assert forall|k: int| 0 <= k < chunks@.len() implies crate::added::chunks_view(
                    chunks@,
                )[k] == cm[i + 1 + k] by {
                    assert(crate::added::chunks_view(chunks_pre)[k + 1] == cm[i + 1 + k]);
                }
                crate::added::lemma_extract_norm(ev, nrm, sentence@, i as int);
                assert(cm.take(i as int + 1) =~= cm.take(i as int) + seq![cm[i as int]]);
                crate::added::lemma_cat_origs_concat(cm.take(i as int), seq![cm[i as int]]);
                crate::added::lemma_cat_singleton(cm[i as int]);
                crate::text::lemma_byte_len_concat(
                    crate::added::cat_origs(cm.take(i as int)),
                    cm[i as int].0.original,
                );
                assert(cm =~= cm.take(i as int + 1) + cm.skip(i as int + 1));
                crate::added::lemma_cat_origs_concat(cm.take(i as int + 1), cm.skip(i as int + 1));
                crate::text::lemma_byte_len_concat(
                    crate::added::cat_origs(cm.take(i as int + 1)),
                    crate::added::cat_origs(cm.skip(i as int + 1)),
                );
            }
            let mut ns3 = m;
            let is_matched = idopt.is_some();
            if !is_matched {
                match &self.pre_tokenizer {
                    Some(pt) => {
                        let _ = pt.apply(&mut ns3);
                    },
                    None => {},
                }
            }
            proof {
                assert(ns3@ == spec_chunk_ns(self, cm[i as int]));
                assert(ns3@.original == cm[i as int].0.original);
            }
            let ghost acc_pre = acc@;
            acc.merge_with(&ns3);
            i = i + 1;
            proof {
                crate::text::lemma_byte_len_concat(acc_pre.original, ns3@.original);
            }
        }
        proof {
            assert(cm.take(n as int) =~= cm);
        }
        Ok(acc)
    }

    /// The piece strings of one line: the line normalized (when a
    /// normalizer is configured) and cut by the pre-tokenizer (or
    /// kept whole without one), keeping each piece's string.
    pub fn line_pieces(&self, line: &String) -> (r: Vec<String>)
        requires
            self.wf(),
            byte_len(line@) <= 0x10000000,
        ensures
            r.deep_view() == spec_line_pieces(self, line@),
    {
        let ghost m0 = crate::normalized::NsModel {
            original: line@,
            normalized: line@,
            alignment: crate::normalized::identity_alignment(line@),
        };
        let mut ns = NormalizedString::from_str(line.as_str());
        match &self.normalizer {
            Some(w) => {
                let _ = w.apply(&mut ns);
                proof {
                    crate::added::lemma_normalize_norm_le(Some(*w), m0);
                }
            },
            None => {},
        }
        proof {
            assert(ns@ == crate::added::apply_opt_normalizer(self.normalizer, m0));
        }
        let mut pieces: Vec<(String, (usize, usize))> = match &self.pre_tokenizer {
            Some(pt) => pt.apply(&mut ns),
            None => whole_piece(&ns),
        };
        let ghost pv = crate::pre_tokenizers::pieces_view(pieces@);
        proof {
            assert(pv.map_values(|p: (Seq<char>, (usize, usize))| p.0) == spec_line_pieces(
                self,
                line@,
            ));
        }
        let n: usize = pieces.len();
        let mut out: Vec<String> = Vec::new();
        let mut done: usize = 0;
        while pieces.len() > 0
            invariant
                pieces@.len() + done == n,
                n == pv.len(),
                forall|j: int| 0 <= j < pieces@.len() ==> ((#[trigger] pieces@[j]).0@, pieces@[j].1)
                    == pv[done + j],
                out@.len() == done,
                forall|j: int| 0 <= j < done ==> (#[trigger] out@[j])@ == pv[j].0,
            decreases pieces@.len(),
        {
            let ghost pieces_pre = pieces@;
            let p = pieces.remove(0);
            proof {
                assert(forall|j: int| 0 <= j < pieces@.len() ==> pieces@[j] == pieces_pre[j + 1]);
            }
            out.push(p.0);
            done = done + 1;
        }
        proof {
            assert forall|j: int| 0 <= j < n as int implies #[trigger] out.deep_view()[j]
                == spec_line_pieces(self, line@)[j] by {
                assert(out.deep_view()[j] == out@[j]@);
                assert(spec_line_pieces(self, line@)[j] == pv[j].0);
            }
            assert(out.deep_view() =~= spec_line_pieces(self, line@));
        }
        out
    }

    /// Count words for training: hand the trainer, line by line,
    /// exactly the piece strings `line_pieces` produces (its contract
    /// fixes them). The counts themselves are whatever the trainer
    /// accumulates; its `process_tokens` carries no contract of its
    /// own.
    pub fn count_words<T: Trainer>(&self, trainer: &T, lines: &Vec<String>) -> (r: Result<
        Vec<(String, u32)>,
        TokenizerError,
    >)
        requires
            self.wf(),
            forall|i: int| 0 <= i < lines@.len() ==> byte_len((#[trigger] lines@[i])@)
                <= 0x10000000,
        ensures
            r is Ok,
    {
        let mut words: Vec<(String, u32)> = Vec::new();
        let n: usize = lines.len();
        let mut i: usize = 0;
        while i < n
            invariant
                self.wf(),
                n == lines@.len(),
                0 <= i <= n,
                forall|j: int| 0 <= j < n ==> byte_len((#[trigger] lines@[j])@) <= 0x10000000,
            decreases n - i,
        {
            let pieces = self.line_pieces(&lines[i]);
            trainer.process_tokens(&mut words, pieces);
            i = i + 1;
        }
        Ok(words)
    }

    /// The tokenizer after training: the given model replaces the old
    /// one, every other stage is kept, and the trainer's special
    /// tokens are registered as special.
    pub fn with_trained_model(self, model: ModelWrapper, special_tokens: &Vec<AddedToken>) -> (r:
        Tokenizer)
        requires
            self.wf(),
            model.wf(),
            spec_model_entries(&model).len() + self.added_vocabulary.overlay_len
                + special_tokens@.len() <= u32::MAX,
        ensures
            r.model == model,
            r.normalizer == self.normalizer,
            r.pre_tokenizer == self.pre_tokenizer,
            r.decoder == self.decoder,
            r.truncation == self.truncation,
            r.padding == self.padding,
            r.added_vocabulary.spec_state() == spec_add_all(
                self.added_vocabulary.spec_state(),
                spec_model_vocab(&model),
                spec_model_entries(&model).len() as int,
                special_tokens@.map_values(
                    |t: AddedToken| AddedTokenModel { special: true, ..t@ },
                ),
                0,
            ),
            r.wf(),
    {
        let mut new_tok = Tokenizer {
            normalizer: self.normalizer,
            pre_tokenizer: self.pre_tokenizer,
            model,
            decoder: self.decoder,
            added_vocabulary: self.added_vocabulary,
            truncation: self.truncation,
            padding: self.padding,
        };
        new_tok.add_special_tokens(special_tokens);
        new_tok
    }

    /// Train a model on the given lines: count words through
    /// `count_words`, let the trainer build a model from them, and
    /// assemble the result with `with_trained_model`, whose contract
    /// fixes everything the trainer's outputs determine. What the
    /// trainer returns is constrained only by its trait (the model is
    /// well-formed).
    pub fn train<T: Trainer>(self, trainer: &T, lines: &Vec<String>) -> (r: Result<
        Tokenizer,
        TokenizerError,
    >)
        requires
            self.wf(),
            forall|i: int| 0 <= i < lines@.len() ==> byte_len((#[trigger] lines@[i])@)
                <= 0x10000000,
        ensures
            r is Ok ==> (r->Ok_0).wf(),
    {
        let words = match self.count_words(trainer, lines) {
            Ok(w) => w,
            Err(_) => {
                proof {
                    assert(false);
                }
                vstd::pervasive::unreached()
            },
        };
        let (model, special_tokens) = trainer.train(words)?;
        let cap: usize = u32::MAX as usize;
        let base = model.vocab_size();
        let overlay = self.added_vocabulary.len();
        if base > cap || overlay > cap - base || special_tokens.len() > cap - base - overlay {
            return Err(TokenizerError::InvalidInput);
        }
        Ok(self.with_trained_model(model, &special_tokens))
    }

    /// Decode several id lists, in order. Never fails.
    pub fn decode_batch(&self, sentences: Vec<Vec<u32>>, skip_special_tokens: bool) -> (r: Result<
        Vec<String>,
        TokenizerError,
    >)
        requires
            self.wf(),
        ensures
            r is Ok,
            (r->Ok_0)@.len() == sentences@.len(),
            forall|i: int| 0 <= i < sentences@.len() ==> (#[trigger] (r->Ok_0)@[i])@ == spec_decode(
                self,
                sentences@[i]@,
                skip_special_tokens,
            ),
    {
        let n: usize = sentences.len();
        let mut out: Vec<String> = Vec::new();
        let mut sentences = sentences;
        let ghost sv = sentences@;
        let mut i: usize = 0;
        while sentences.len() > 0
            invariant
                self.wf(),
                sv.len() == n,
                sentences@.len() + i == n,
                forall|j: int| 0 <= j < sentences@.len() ==> (#[trigger] sentences@[j])@ == sv[i + j]@,
                out@.len() == i,
                forall|j: int| 0 <= j < i ==> (#[trigger] out@[j])@ == spec_decode(
                    self,
                    sv[j]@,
                    skip_special_tokens,
                ),
            decreases sentences@.len(),
        {
            let ghost pre = sentences@;
            let s = sentences.remove(0);
            proof {
                assert(forall|j: int| 0 <= j < sentences@.len() ==> sentences@[j] == pre[j + 1]);
            }
            let d = match self.decode(s, skip_special_tokens) {
                Ok(d) => d,
                Err(_) => {
                    proof {
                        assert(false);
                    }
                    vstd::pervasive::unreached()
                },
            };
            out.push(d);
            i = i + 1;
        }
        Ok(out)
    }
}

/// The normalized string one chunk contributes: matched chunks stand
/// as they are; unmatched ones carry the pre-tokenizer's mutation
/// (its prefix space) when one is configured.
pub open spec fn spec_chunk_ns(
    t: &Tokenizer,
    chunk: (crate::normalized::NsModel, Option<(u32, bool)>),
) -> crate::normalized::NsModel {
    if chunk.1 is Some {
        chunk.0
    } else {
        match t.pre_tokenizer {
            Some(pt) => crate::pre_tokenizers::spec_pretok_ns(pt, chunk.0),
            None => chunk.0,
        }
    }
}

/// The chunks from position `i` on, merged onto `acc` in order.
pub open spec fn spec_normalize_chunks(
    t: &Tokenizer,
    chunks: Seq<(crate::normalized::NsModel, Option<(u32, bool)>)>,
    i: int,
    acc: crate::normalized::NsModel,
) -> crate::normalized::NsModel
    decreases (if i <= chunks.len() { chunks.len() - i } else { 0 }),
{
    if i < 0 || i >= chunks.len() {
        acc
    } else {
        spec_normalize_chunks(
            t,
            chunks,
            i + 1,
            crate::normalized::spec_ns_merged(acc, spec_chunk_ns(t, chunks[i])),
        )
    }
}

/// What `normalize` returns: the extraction chunks, pre-tokenized
/// where that applies, merged back into one aligned string.
pub open spec fn spec_normalized_sentence(t: &Tokenizer, s: Seq<char>) -> crate::normalized::NsModel {
    spec_normalize_chunks(
        t,
        crate::added::spec_extract(t.added_vocabulary.spec_entries(), t.normalizer, s),
        0,
        (crate::normalized::NsModel {
            original: Seq::empty(),
            normalized: Seq::empty(),
            alignment: Seq::empty(),
        }),
    )
}

/// The piece strings `line_pieces` hands the trainer for one line:
/// the line normalized (identity when no normalizer is configured)
/// and cut by the configured pre-tokenizer, or kept whole without
/// one.
pub open spec fn spec_line_pieces(t: &Tokenizer, line: Seq<char>) -> Seq<Seq<char>> {
    let m0 = crate::normalized::NsModel {
        original: line,
        normalized: line,
        alignment: crate::normalized::identity_alignment(line),
    };
    let m1 = crate::added::apply_opt_normalizer(t.normalizer, m0);
    let pieces = match t.pre_tokenizer {
        Some(pt) => crate::pre_tokenizers::spec_pretok_pieces(pt, m1),
        None => seq![(m1.normalized, (0usize, (byte_len(m1.normalized) as usize)))],
    };
    pieces.map_values(|p: (Seq<char>, (usize, usize))| p.0)
}

/// The input size the pipeline accepts: a machine limit that keeps
/// every byte-offset computation within `usize`.
pub open spec fn input_sequence_ok(input: &InputSequence) -> bool {
    match input {
        InputSequence::Raw(s) => byte_len(s@) <= 0x10000000,
        InputSequence::PreTokenized(v) => forall|k: int|
            0 <= k < v@.len() ==> byte_len((#[trigger] v@[k])@) <= 0x10000000,
    }
}

pub open spec fn encode_input_ok(input: &EncodeInput) -> bool {
    match input {
        EncodeInput::Single(s1) => input_sequence_ok(s1),
        EncodeInput::Dual(s1, s2) => input_sequence_ok(s1) && input_sequence_ok(s2),
    }
}

/// Addition clamped at the largest `usize`.
pub open spec fn sat_add(a: int, b: int) -> usize {
    if a + b > usize::MAX {
        usize::MAX
    } else {
        (a + b) as usize
    }
}

/// One offset pair converted to the original text and shifted to the
/// chunk's position: the alignment's answer when it has one, the
/// normalized offsets themselves otherwise.
pub open spec fn spec_convert_offset(ns: crate::normalized::NsModel, o: (usize, usize), off: int) -> (
    usize,
    usize,
) {
    match crate::normalized::spec_convert(ns, o.0 as int, o.1 as int) {
        Some(ab) => (sat_add(ab.0 as int, off), sat_add(ab.1 as int, off)),
        None => (sat_add(o.0 as int, off), sat_add(o.1 as int, off)),
    }
}

/// The rows with every offset converted back to the original text and
/// shifted to the chunk's position.
pub open spec fn spec_convert_rows(rows: EncRows, ns: crate::normalized::NsModel, off: int) -> EncRows {
    EncRows {
        offsets: Seq::new(rows.offsets.len(), |k: int| spec_convert_offset(ns, rows.offsets[k], off)),
        ..rows
    }
}

/// The rows of one chunk (offsets still relative to the chunk), and
/// the normalized string they refer to: a matched chunk is a single
/// pre-assigned token; an unmatched one runs the pre-tokenizer (when
/// one applies) and the model.
pub open spec fn spec_chunk_result(
    t: &Tokenizer,
    chunk: (crate::normalized::NsModel, Option<(u32, bool)>),
    type_id: u32,
    pre_tokenized: bool,
) -> Result<(EncRows, crate::normalized::NsModel), TokenizerError> {
    match chunk.1 {
        Some(id_special) => Ok(
            (
                EncRows {
                    ids: seq![id_special.0],
                    type_ids: seq![type_id],
                    tokens: seq![chunk.0.normalized],
                    words: seq![Some(0u32)],
                    offsets: seq![(0usize, (byte_len(chunk.0.normalized) as usize))],
                    special_tokens_mask: seq![
                        if id_special.1 {
                            1u32
                        } else {
                            0u32
                        },
                    ],
                    attention_mask: seq![1u32],
                },
                chunk.0,
            ),
        ),
        None => {
            let use_ptok = !pre_tokenized && t.pre_tokenizer is Some;
            let pieces = if use_ptok {
                crate::pre_tokenizers::spec_pretok_pieces(t.pre_tokenizer->0, chunk.0)
            } else {
                seq![(chunk.0.normalized, (0usize, (byte_len(chunk.0.normalized) as usize)))]
            };
            let ns3 = if use_ptok {
                crate::pre_tokenizers::spec_pretok_ns(t.pre_tokenizer->0, chunk.0)
            } else {
                chunk.0
            };
            match crate::models::spec_model_tokenize(&t.model, pieces) {
                Err(e) => Err(e),
                Ok(toks) => Ok((crate::encoding::spec_from_tokens(toks, type_id), ns3)),
            }
        },
    }
}

/// The rows of a chunk list folded left to right: each chunk's rows
/// are converted at the running original-byte offset and appended.
pub open spec fn spec_encode_chunks(
    t: &Tokenizer,
    chunks: Seq<(crate::normalized::NsModel, Option<(u32, bool)>)>,
    type_id: u32,
    pre_tokenized: bool,
    i: int,
    off: int,
    acc: EncRows,
) -> Result<EncRows, TokenizerError>
    decreases (if i <= chunks.len() { chunks.len() - i } else { 0 }),
{
    if i < 0 || i >= chunks.len() {
        Ok(acc)
    } else {
        match spec_chunk_result(t, chunks[i], type_id, pre_tokenized) {
            Err(e) => Err(e),
            Ok(rows_ns) => spec_encode_chunks(
                t,
                chunks,
                type_id,
                pre_tokenized,
                i + 1,
                off + byte_len(rows_ns.1.original),
                crate::encoding::spec_merge_rows(
                    acc,
                    spec_convert_rows(rows_ns.0, rows_ns.1, off),
                    false,
                ),
            ),
        }
    }
}

/// The rows of one piece of text: its chunks, encoded and merged.
pub open spec fn spec_encode_subseq(
    t: &Tokenizer,
    s: Seq<char>,
    type_id: u32,
    pre_tokenized: bool,
) -> Result<EncRows, TokenizerError> {
    spec_encode_chunks(
        t,
        crate::added::spec_extract(t.added_vocabulary.spec_entries(), t.normalizer, s),
        type_id,
        pre_tokenized,
        0,
        0,
        EncRows::empty(),
    )
}

/// The rows of a pre-tokenized sequence: each element encoded (with
/// the pre-tokenizer stage skipped) and appended.
pub open spec fn spec_encode_pretok(
    t: &Tokenizer,
    v: Seq<String>,
    type_id: u32,
    j: int,
    acc: EncRows,
) -> Result<EncRows, TokenizerError>
    decreases (if j <= v.len() { v.len() - j } else { 0 }),
{
    if j < 0 || j >= v.len() {
        Ok(acc)
    } else {
        match spec_encode_subseq(t, v[j]@, type_id, true) {
            Err(e) => Err(e),
            Ok(rows) => spec_encode_pretok(
                t,
                v,
                type_id,
                j + 1,
                crate::encoding::spec_merge_rows(acc, rows, false),
            ),
        }
    }
}

/// The rows of one input sequence.
pub open spec fn spec_encode_sequence(t: &Tokenizer, input: &InputSequence, type_id: u32) -> Result<
    EncRows,
    TokenizerError,
> {
    match input {
        InputSequence::Raw(s) => spec_encode_subseq(t, s@, type_id, false),
        InputSequence::PreTokenized(v) => spec_encode_pretok(t, v@, type_id, 0, EncRows::empty()),
    }
}

/// The padding applied to a single processed encoding, when one is
/// configured.
pub open spec fn spec_pad_opt(t: &Tokenizer, m: EncModel) -> EncModel {
    match t.padding {
        Some(p) => spec_pad_model(
            m,
            spec_pad_target(seq![m], p.strategy),
            p.pad_id,
            p.pad_type_id,
            p.pad_token@,
            p.direction,
        ),
        None => m,
    }
}

/// Post-processing of one encoding or a pair: truncation when
/// configured, the default merge, then padding when configured.
pub open spec fn spec_post_process(
    t: &Tokenizer,
    a: EncModel,
    b: Option<EncModel>,
    add_special_tokens: bool,
) -> Result<EncModel, TokenizerError> {
    match t.truncation {
        Some(tp) => match spec_truncate_encodings(a, b, tp) {
            Err(e) => Err(e),
            Ok(ab) => Ok(spec_pad_opt(t, spec_default_process(ab.0, ab.1))),
        },
        None => Ok(spec_pad_opt(t, spec_default_process(a, b))),
    }
}

/// What `encode` returns for the given input.
pub open spec fn spec_encode(t: &Tokenizer, input: &EncodeInput, add_special_tokens: bool) -> Result<
    EncModel,
    TokenizerError,
> {
    match input {
        EncodeInput::Single(s1) => match spec_encode_sequence(t, s1, 0) {
            Err(e) => Err(e),
            Ok(r1) => spec_post_process(
                t,
                EncModel { rows: r1, overflowing: Seq::empty() },
                None,
                add_special_tokens,
            ),
        },
        EncodeInput::Dual(s1, s2) => match spec_encode_sequence(t, s1, 0) {
            Err(e) => Err(e),
            Ok(r1) => match spec_encode_sequence(t, s2, 1) {
                Err(e) => Err(e),
                Ok(r2) => spec_post_process(
                    t,
                    EncModel { rows: r1, overflowing: Seq::empty() },
                    Some(EncModel { rows: r2, overflowing: Seq::empty() }),
                    add_special_tokens,
                ),
            },
        },
    }
}

/// The encodings of a batch, in input order, before padding.
pub open spec fn spec_encode_batch_list(
    t: &Tokenizer,
    inputs: Seq<EncodeInput>,
    add_special_tokens: bool,
    i: int,
) -> Result<Seq<EncModel>, TokenizerError>
    decreases (if i <= inputs.len() { inputs.len() - i } else { 0 }),
{
    if i < 0 || i >= inputs.len() {
        Ok(Seq::empty())
    } else {
        match spec_encode(t, &inputs[i], add_special_tokens) {
            Err(e) => Err(e),
            Ok(m) => match spec_encode_batch_list(t, inputs, add_special_tokens, i + 1) {
                Err(e) => Err(e),
                Ok(rest) => Ok(seq![m] + rest),
            },
        }
    }
}

/// What `encode_batch` returns: the encodings in input order, padded
/// to a common length when padding is configured.
pub open spec fn spec_encode_batch(
    t: &Tokenizer,
    inputs: Seq<EncodeInput>,
    add_special_tokens: bool,
) -> Result<Seq<EncModel>, TokenizerError> {
    match spec_encode_batch_list(t, inputs, add_special_tokens, 0) {
        Err(e) => Err(e),
        Ok(ms) => match t.padding {
            None => Ok(ms),
            Some(p) => Ok(
                ms.map_values(
                    |m: EncModel| spec_pad_model(
                        m,
                        spec_pad_target(ms, p.strategy),
                        p.pad_id,
                        p.pad_type_id,
                        p.pad_token@,
                        p.direction,
                    ),
                ),
            ),
        },
    }
}

impl Tokenizer {
    /// Encode every input, in order; when padding is configured the
    /// batch is padded to a common length afterwards.
    #[verifier::rlimit(100)]
    #[verifier::spinoff_prover]
    pub fn encode_batch(&self, inputs: Vec<EncodeInput>, add_special_tokens: bool) -> (r: Result<
        Vec<Encoding>,
        TokenizerError,
    >)
        requires
            self.wf(),
            forall|i: int| 0 <= i < inputs@.len() ==> encode_input_ok(#[trigger] &inputs@[i]),
        ensures
            ({
                let spec_r = spec_encode_batch(self, inputs@, add_special_tokens);
                match r {
                    Ok(es) => {
                        &&& spec_r is Ok
                        &&& es@.len() == inputs@.len()
                        &&& forall|i: int| 0 <= i < es@.len() ==> (#[trigger] es@[i])@ == (
                        spec_r->Ok_0)[i] && es@[i].wf()
                    },
                    Err(e) => spec_r is Err && e == spec_r->Err_0,
                }
            }),
    {
        let ghost iv = inputs@;
        let n: usize = inputs.len();
        let mut encodings: Vec<Encoding> = Vec::new();
        let mut inputs = inputs;
        let mut i: usize = 0;
        while inputs.len() > 0
            invariant
                self.wf(),
                iv.len() == n,
                inputs@.len() + i == n,
                forall|j: int| 0 <= j < inputs@.len() ==> (#[trigger] inputs@[j]) == iv[i + j],
                forall|j: int| 0 <= j < iv.len() ==> encode_input_ok(#[trigger] &iv[j]),
                encodings@.len() == i,
                forall|j: int| 0 <= j < i ==> (#[trigger] encodings@[j]).wf(),
                ({
                    let whole = spec_encode_batch_list(self, iv, add_special_tokens, 0);
                    match spec_encode_batch_list(self, iv, add_special_tokens, i as int) {
                        Ok(rest) => whole == Ok::<Seq<EncModel>, TokenizerError>(
                            encodings@.map_values(|e: Encoding| e@) + rest,
                        ),
                        Err(e) => whole == Err::<Seq<EncModel>, TokenizerError>(e),
                    }
                }),
            decreases inputs@.len(),
        {
            let ghost pre = inputs@;
            let input = inputs.remove(0);
            proof {
                assert(input == iv[i as int]);
                assert(forall|j: int| 0 <= j < inputs@.len() ==> inputs@[j] == pre[j + 1]);
            }
            let ghost encs_pre = encodings@;
            match self.encode(input, add_special_tokens) {
                Ok(e) => {
                    encodings.push(e);
                },
                Err(e) => {
                    proof {
                        assert(spec_encode_batch_list(self, iv, add_special_tokens, i as int)
                            is Err);
                    }
                    return Err(e);
                },
            }
            i = i + 1;
            proof {
                let whole = spec_encode_batch_list(self, iv, add_special_tokens, 0);
                match spec_encode_batch_list(self, iv, add_special_tokens, i as int) {
                    Ok(rest) => {
                        assert(encs_pre.map_values(|e: Encoding| e@) + (seq![
                            spec_encode(self, &iv[i - 1], add_special_tokens)->Ok_0,
                        ] + rest) =~= encodings@.map_values(|e: Encoding| e@) + rest);
                    },
                    Err(_) => {},
                }
            }
        }
        match &self.padding {
            None => {
                proof {
                    assert(encodings@.map_values(|e: Encoding| e@) + Seq::<EncModel>::empty()
                        =~= encodings@.map_values(|e: Encoding| e@));
                }
                Ok(encodings)
            },
            Some(params) => {
                let ghost before = encodings@.map_values(|e: Encoding| e@);
                proof {
                    assert(before + Seq::<EncModel>::empty() =~= before);
                }
                match crate::padding::pad_encodings(&mut encodings, params) {
                    Ok(()) => {
                        proof {
                            assert(encodings@.map_values(|e: Encoding| e@) =~= before.map_values(
                                |m: EncModel| spec_pad_model(
                                    m,
                                    spec_pad_target(before, params.strategy),
                                    params.pad_id,
                                    params.pad_type_id,
                                    params.pad_token@,
                                    params.direction,
                                ),
                            ));
                        }
                        Ok(encodings)
                    },
                    Err(e) => {
                        proof {
                            assert(false);
                        }
                        vstd::pervasive::unreached()
                    },
                }
            },
        }
    }
}

/// Every encoding of a batch equals the encoding of its input alone:
/// when no padding is configured, `encode_batch` and `encode` agree
/// element by element, in input order.
pub proof fn lemma_encode_batch_matches_encode(
    t: &Tokenizer,
    inputs: Seq<EncodeInput>,
    add_special_tokens: bool,
    i: int,
)
    requires
        t.padding is None,
        spec_encode_batch(t, inputs, add_special_tokens) is Ok,
        0 <= i < inputs.len(),
    ensures
        spec_encode_batch(t, inputs, add_special_tokens)->Ok_0.len() == inputs.len(),
        spec_encode(t, &inputs[i], add_special_tokens) is Ok,
        spec_encode_batch(t, inputs, add_special_tokens)->Ok_0[i] == spec_encode(
            t,
            &inputs[i],
            add_special_tokens,
        )->Ok_0,
{
    lemma_encode_batch_list_index(t, inputs, add_special_tokens, 0, i);
}

/// Element `i` of the batch fold is the encoding of input `i`.
#[verifier::rlimit(100)]
pub proof fn lemma_encode_batch_list_index(
    t: &Tokenizer,
    inputs: Seq<EncodeInput>,
    add_special_tokens: bool,
    j: int,
    i: int,
)
    requires
        spec_encode_batch_list(t, inputs, add_special_tokens, j) is Ok,
        0 <= j <= i < inputs.len(),
    ensures
        spec_encode_batch_list(t, inputs, add_special_tokens, j)->Ok_0.len() == inputs.len() - j,
        spec_encode(t, &inputs[i], add_special_tokens) is Ok,
        spec_encode_batch_list(t, inputs, add_special_tokens, j)->Ok_0[i - j] == spec_encode(
            t,
            &inputs[i],
            add_special_tokens,
        )->Ok_0,
    decreases inputs.len() - j,
{
    if j < i {
        lemma_encode_batch_list_index(t, inputs, add_special_tokens, j + 1, i);
    } else if j + 1 < inputs.len() {
        lemma_encode_batch_list_len(t, inputs, add_special_tokens, j + 1);
    }
}

pub proof fn lemma_encode_batch_list_len(
    t: &Tokenizer,
    inputs: Seq<EncodeInput>,
    add_special_tokens: bool,
    j: int,
)
    requires
        spec_encode_batch_list(t, inputs, add_special_tokens, j) is Ok,
        0 <= j <= inputs.len(),
    ensures
        spec_encode_batch_list(t, inputs, add_special_tokens, j)->Ok_0.len() == inputs.len() - j,
    decreases inputs.len() - j,
{
    if j < inputs.len() {
        lemma_encode_batch_list_len(t, inputs, add_special_tokens, j + 1);
    }
}

/// With `BatchLongest` padding, every encoding of the batch comes out
/// with exactly the length of the longest one, and every overflowing
/// sibling is padded to that same length too (kept longer only if it
/// already was).
pub proof fn lemma_batch_longest_lengths(
    t: &Tokenizer,
    inputs: Seq<EncodeInput>,
    add_special_tokens: bool,
)
    requires
        t.padding is Some,
        t.padding->0.strategy is BatchLongest,
        spec_encode_batch(t, inputs, add_special_tokens) is Ok,
    ensures
        ({
            let unpadded = spec_encode_batch_list(t, inputs, add_special_tokens, 0);
            let padded = spec_encode_batch(t, inputs, add_special_tokens)->Ok_0;
            let target = crate::padding::max_len_of(unpadded->Ok_0);
            &&& unpadded is Ok
            &&& forall|i: int| 0 <= i < padded.len() ==> (#[trigger] padded[i]).rows.len()
                == target
            &&& forall|i: int, j: int|
                0 <= i < padded.len() && 0 <= j < padded[i].overflowing.len()
                    ==> (#[trigger] padded[i].overflowing[j]).len() == (
                if (unpadded->Ok_0)[i].overflowing[j].len() >= target {
                    (unpadded->Ok_0)[i].overflowing[j].len() as int
                } else {
                    target
                })
        }),
{
    let p = t.padding->0;
    let ms = spec_encode_batch_list(t, inputs, add_special_tokens, 0)->Ok_0;
    crate::padding::lemma_batch_longest_equal_lengths(
        ms,
        p.pad_id,
        p.pad_type_id,
        p.pad_token@,
        p.direction,
    );
    crate::padding::lemma_max_len_of_bounds(ms);
    let target = crate::padding::max_len_of(ms);
    let padded = spec_encode_batch(t, inputs, add_special_tokens)->Ok_0;
    assert forall|i: int, j: int|
        0 <= i < padded.len() && 0 <= j < padded[i].overflowing.len() implies
        (#[trigger] padded[i].overflowing[j]).len() == (if ms[i].overflowing[j].len() >= target {
            ms[i].overflowing[j].len() as int
        } else {
            target
        }) by {
        assert(padded[i] == spec_pad_model(
            ms[i],
            target,
            p.pad_id,
            p.pad_type_id,
            p.pad_token@,
            p.direction,
        ));
        assert(padded[i].overflowing[j] == crate::padding::spec_pad_rows(
            ms[i].overflowing[j],
            target,
            p.pad_id,
            p.pad_type_id,
            p.pad_token@,
            p.direction,
        ));
    }
}

/// Adding the same token a second time changes nothing and counts
/// zero new tokens: the second addition leaves the overlay (its
/// entries, their special flags, and its id count) exactly as the
/// first left it. The contents of `st` are unique, as the overlay's
/// invariant keeps them.
pub proof fn lemma_add_token_twice(
    st: crate::added::AvState,
    mv: Map<Seq<char>, u32>,
    base: int,
    t: AddedTokenModel,
)
    requires
        forall|i: int, j: int| 0 <= i < j < st.entries.len() ==> (#[trigger] st.entries[i]).0.content
            != (#[trigger] st.entries[j]).0.content,
    ensures
        ({
            let once = spec_add_all(st, mv, base, seq![t], 0);
            let twice = spec_add_all(once, mv, base, seq![t], 0);
            twice == once
        }),
{
    let c = t.content;
    let once = crate::added::spec_add_one(st, mv, base, t);
    assert(spec_add_all(once, mv, base, seq![t], 1) == once);
    assert(spec_add_all(st, mv, base, seq![t], 0) == once);
    let once2 = crate::added::spec_add_one(once, mv, base, t);
    assert(spec_add_all(once2, mv, base, seq![t], 1) == once2);
    if av_map(st.entries).contains_key(c) {
        if t.special && !av_map(st.entries)[c].1 {
            crate::added::lemma_av_map_contains(st.entries, c);
            let k = choose|k: int| 0 <= k < st.entries.len() && (#[trigger] st.entries[k]).0.content
                == c;
            crate::added::lemma_mark_special_av_map(st.entries, c, k);
            assert(av_map(once.entries).contains_key(c));
            assert(av_map(once.entries)[c].1);
        }
    } else if mv.contains_key(c) {
        assert(once.entries.drop_last() =~= st.entries);
        assert(av_map(once.entries) == av_map(st.entries).insert(c, (mv[c], t.special)));
    } else {
        assert(once.entries.drop_last() =~= st.entries);
        assert(av_map(once.entries) == av_map(st.entries).insert(
            c,
            (((base + st.overlay) as u32), t.special),
        ));
    }
    assert(spec_add_all(once, mv, base, seq![t], 0) == crate::added::spec_add_one(
        once,
        mv,
        base,
        t,
    ));
}

/// Re-registering a token through `add_special_tokens` makes it
/// special: after adding `t` with the special flag forced on, the
/// overlay's map marks its content special, whether the content was
/// fresh, known to the model, or already registered with any flag.
pub proof fn lemma_add_special_flags(
    st: crate::added::AvState,
    mv: Map<Seq<char>, u32>,
    base: int,
    t: AddedTokenModel,
)
    requires
        forall|i: int, j: int| 0 <= i < j < st.entries.len() ==> (#[trigger] st.entries[i]).0.content
            != (#[trigger] st.entries[j]).0.content,
    ensures
        ({
            let after = crate::added::spec_add_one(
                st,
                mv,
                base,
                AddedTokenModel { special: true, ..t },
            );
            av_map(after.entries).contains_key(t.content) && av_map(after.entries)[t.content].1
        }),
{
    let ts = AddedTokenModel { special: true, ..t };
    let c = t.content;
    let after = crate::added::spec_add_one(st, mv, base, ts);
    if av_map(st.entries).contains_key(c) {
        crate::added::lemma_av_map_contains(st.entries, c);
        let k = choose|k: int| 0 <= k < st.entries.len() && (#[trigger] st.entries[k]).0.content
            == c;
        if !av_map(st.entries)[c].1 {
            crate::added::lemma_mark_special_av_map(st.entries, c, k);
        }
    } else if mv.contains_key(c) {
        assert(after.entries.drop_last() =~= st.entries);
        assert(av_map(after.entries) == av_map(st.entries).insert(c, (mv[c], true)));
    } else {
        assert(after.entries.drop_last() =~= st.entries);
        assert(av_map(after.entries) == av_map(st.entries).insert(
            c,
            (((base + st.overlay) as u32), true),
        ));
    }
}

/// Every offset pair is ordered, within the byte length of `s`, and
/// falls on character boundaries of `s`.
pub open spec fn offsets_ok(offsets: Seq<(usize, usize)>, s: Seq<char>) -> bool {
    forall|k: int|
        0 <= k < offsets.len() ==> (#[trigger] offsets[k]).0 <= offsets[k].1 <= byte_len(s)
            && crate::text::is_boundary(s, offsets[k].0 as int) && crate::text::is_boundary(
            s,
            offsets[k].1 as int,
        )
}

/// `offsets_ok` for an encoding's rows and each overflowing sibling.
pub open spec fn enc_offsets_ok(m: EncModel, s: Seq<char>) -> bool {
    &&& offsets_ok(m.rows.offsets, s)
    &&& forall|j: int| 0 <= j < m.overflowing.len() ==> offsets_ok(
        (#[trigger] m.overflowing[j]).offsets,
        s,
    )
}

/// A pre-tokenizer whose pieces are byte sub-ranges of the text: none
/// at all, or the BERT splitter. (The Metaspace splitter's pieces
/// carry replacement characters whose byte length can exceed the span
/// they stand for, and the offsets-within-input property does not
/// hold for it.)
pub open spec fn byte_range_pretok(t: &Tokenizer) -> bool {
    match t.pre_tokenizer {
        None => true,
        Some(PreTokenizerWrapper::BertPreTokenizer(_)) => true,
        Some(_) => false,
    }
}

/// Converting rows whose offsets lie within the chunk's normalized
/// text yields offsets within `s`, on its character boundaries, given
/// that the chunk's original sits in `s` after `pre`.
pub proof fn lemma_convert_rows_ok(
    rows: EncRows,
    ns: crate::normalized::NsModel,
    pre: Seq<char>,
    post: Seq<char>,
    s: Seq<char>,
)
    requires
        crate::normalized::ns_wf(ns),
        forall|k: int| 0 <= k < rows.offsets.len() ==> (#[trigger] rows.offsets[k]).0
            <= rows.offsets[k].1 <= byte_len(ns.normalized),
        s == pre + ns.original + post,
        byte_len(s) <= usize::MAX,
    ensures
        offsets_ok(spec_convert_rows(rows, ns, byte_len(pre) as int).offsets, s),
{
    let off = byte_len(pre) as int;
    let conv = spec_convert_rows(rows, ns, off);
    assert(s =~= pre + (ns.original + post));
    crate::text::lemma_byte_len_concat(pre, ns.original + post);
    crate::text::lemma_byte_len_concat(ns.original, post);
    assert forall|k: int| 0 <= k < conv.offsets.len() implies (#[trigger] conv.offsets[k]).0
        <= conv.offsets[k].1 <= byte_len(s) && crate::text::is_boundary(
        s,
        conv.offsets[k].0 as int,
    ) && crate::text::is_boundary(s, conv.offsets[k].1 as int) by {
        let o = rows.offsets[k];
        lemma_spec_convert_ok(ns, o);
        let ab: (usize, usize) = match crate::normalized::spec_convert(ns, o.0 as int, o.1 as int) {
            Some(ab) => ab,
            None => o,
        };
        assert(conv.offsets[k] == spec_convert_offset(ns, o, off));
        assert(off + ab.0 <= off + ab.1 <= byte_len(s));
        assert(conv.offsets[k].0 == sat_add(ab.0 as int, off) && conv.offsets[k].1 == sat_add(
            ab.1 as int,
            off,
        ));
        crate::text::lemma_boundary_concat_left(ns.original, post, ab.0 as int);
        crate::text::lemma_boundary_concat_left(ns.original, post, ab.1 as int);
        crate::text::lemma_boundary_concat_right(pre, ns.original + post, ab.0 as int);
        crate::text::lemma_boundary_concat_right(pre, ns.original + post, ab.1 as int);
    }
}

/// A conversion under in-range offsets lands on the chunk original's
/// boundaries; the only unconverted case is the empty pair on an
/// empty map, which stays `(0, 0)`.
pub proof fn lemma_spec_convert_ok(ns: crate::normalized::NsModel, o: (usize, usize))
    requires
        crate::normalized::ns_wf(ns),
        o.0 <= o.1 <= byte_len(ns.normalized),
    ensures
        ({
            let ab: (usize, usize) = match crate::normalized::spec_convert(
                ns,
                o.0 as int,
                o.1 as int,
            ) {
                Some(ab) => ab,
                None => o,
            };
            ab.0 <= ab.1 <= byte_len(ns.original) && crate::text::is_boundary(
                ns.original,
                ab.0 as int,
            ) && crate::text::is_boundary(ns.original, ab.1 as int)
        }),
{
    crate::text::lemma_boundary_ends(ns.original);
    match crate::normalized::spec_convert(ns, o.0 as int, o.1 as int) {
        Some(_) => {
            if o.0 == o.1 {
                if (o.0 as int) < ns.alignment.len() as int {
                    assert(ns.alignment[o.0 as int].0 <= ns.alignment[o.0 as int].1
                        <= byte_len(ns.original));
                } else {
                    assert(ns.alignment[o.0 as int - 1].0 <= ns.alignment[o.0 as int - 1].1
                        <= byte_len(ns.original));
                }
            } else {
                assert(ns.alignment[o.0 as int].0 <= ns.alignment[o.1 - 1].0);
                assert(ns.alignment[o.1 - 1].0 <= ns.alignment[o.1 - 1].1);
                assert(ns.alignment[o.0 as int].0 <= ns.alignment[o.0 as int].1
                    <= byte_len(ns.original));
                assert(ns.alignment[o.1 - 1].1 <= byte_len(ns.original));
            }
        },
        None => {
            assert(o.0 == 0 && o.1 == 0);
        },
    }
}

/// The chunk fold keeps every offset within `s`, for byte-sub-range
/// pre-tokenizers.
pub proof fn lemma_encode_chunks_ok(
    t: &Tokenizer,
    chunks: Seq<(crate::normalized::NsModel, Option<(u32, bool)>)>,
    type_id: u32,
    pre_tokenized: bool,
    i: int,
    pre: Seq<char>,
    acc: EncRows,
    s: Seq<char>,
)
    requires
        byte_range_pretok(t),
        0 <= i <= chunks.len(),
        forall|k: int| i <= k < chunks.len() ==> crate::normalized::ns_wf(
            (#[trigger] chunks[k]).0,
        ),
        s == pre + crate::added::cat_origs(chunks.skip(i)),
        byte_len(s) <= usize::MAX,
        offsets_ok(acc.offsets, s),
        acc.offsets.len() == acc.len(),
    ensures
        ({
            match spec_encode_chunks(t, chunks, type_id, pre_tokenized, i, byte_len(pre) as int, acc) {
                Ok(r) => offsets_ok(r.offsets, s) && r.offsets.len() == r.len(),
                Err(_) => true,
            }
        }),
    decreases chunks.len() - i,
{
    if i < chunks.len() {
        let chunk = chunks[i];
        let cs = chunks.skip(i);
        assert(cs.first() == chunk);
        assert(cs.drop_first() =~= chunks.skip(i + 1));
        assert(crate::added::cat_origs(cs) == chunk.0.original + crate::added::cat_origs(
            chunks.skip(i + 1),
        ));
        match spec_chunk_result(t, chunk, type_id, pre_tokenized) {
            Err(_) => {},
            Ok(rows_ns) => {
                let rows = rows_ns.0;
                let ns3 = rows_ns.1;
                assert(ns3 == chunk.0);
                // The chunk's rows stay within its normalized text.
                assert(forall|k: int| 0 <= k < rows.offsets.len() ==> (#[trigger] rows.offsets[k]).0
                    <= rows.offsets[k].1 <= byte_len(ns3.normalized)) by {
                    match chunk.1 {
                        Some(_) => {},
                        None => {
                            let use_ptok = !pre_tokenized && t.pre_tokenizer is Some;
                            let pieces = if use_ptok {
                                crate::pre_tokenizers::spec_pretok_pieces(
                                    t.pre_tokenizer->0,
                                    chunk.0,
                                )
                            } else {
                                seq![
                                    (
                                        chunk.0.normalized,
                                        (0usize, (byte_len(chunk.0.normalized) as usize)),
                                    ),
                                ]
                            };
                            assert(crate::models::pieces_fit(
                                pieces,
                                byte_len(ns3.normalized) as int,
                            )) by {
                                if use_ptok {
                                    crate::pre_tokenizers::lemma_split_on_fit(
                                        chunk.0.normalized,
                                        crate::pre_tokenizers::spec_bert_rule(),
                                        0,
                                        0,
                                    );
                                }
                            }
                            crate::models::lemma_model_tokens_bound(
                                &t.model,
                                pieces,
                                byte_len(ns3.normalized) as int,
                            );
                            match crate::models::spec_model_tokenize(&t.model, pieces) {
                                Err(_) => {},
                                Ok(toks) => {
                                    assert forall|k: int| 0 <= k < rows.offsets.len() implies
                                        (#[trigger] rows.offsets[k]).0 <= rows.offsets[k].1
                                            <= byte_len(ns3.normalized) by {
                                        assert(rows.offsets[k] == toks[k].offsets);
                                    }
                                },
                            }
                        },
                    }
                }
                let post = crate::added::cat_origs(chunks.skip(i + 1));
                assert(s =~= pre + ns3.original + post) by {
                    assert(s == pre + (ns3.original + post));
                    assert(pre + (ns3.original + post) =~= pre + ns3.original + post);
                }
                assert(rows.offsets.len() == rows.ids.len());
                lemma_convert_rows_ok(rows, ns3, pre, post, s);
                let conv = spec_convert_rows(rows, ns3, byte_len(pre) as int);
                let acc2 = crate::encoding::spec_merge_rows(acc, conv, false);
                assert(offsets_ok(acc2.offsets, s)) by {
                    assert forall|k: int| 0 <= k < acc2.offsets.len() implies
                        (#[trigger] acc2.offsets[k]).0 <= acc2.offsets[k].1 <= byte_len(s)
                            && crate::text::is_boundary(s, acc2.offsets[k].0 as int)
                            && crate::text::is_boundary(s, acc2.offsets[k].1 as int) by {
                        if k < acc.offsets.len() {
                            assert(acc2.offsets[k] == acc.offsets[k]);
                        } else {
                            assert(acc2.offsets[k] == crate::encoding::shift_offsets(
                                conv.offsets,
                                0,
                            )[k - acc.offsets.len()]);
                            assert(crate::encoding::shift_offsets(conv.offsets, 0)[k
                                - acc.offsets.len()] == (
                                ((conv.offsets[k - acc.offsets.len()].0 + 0) as usize),
                                ((conv.offsets[k - acc.offsets.len()].1 + 0) as usize),
                            ));
                        }
                    }
                }
                assert(pre + ns3.original + post =~= (pre + ns3.original) + post);
                crate::text::lemma_byte_len_concat(pre, ns3.original);
                lemma_encode_chunks_ok(
                    t,
                    chunks,
                    type_id,
                    pre_tokenized,
                    i + 1,
                    pre + ns3.original,
                    acc2,
                    s,
                );
            },
        }
    }
}

/// Truncation windows keep the offsets they carry.
pub proof fn lemma_windows_ok(rows: EncRows, max_len: int, step: int, start: int, s: Seq<char>)
    requires
        offsets_ok(rows.offsets, s),
        rows.offsets.len() == rows.len(),
    ensures
        forall|j: int|
            0 <= j < crate::truncation::spec_windows(rows, max_len, step, start).len()
                ==> offsets_ok(
                (#[trigger] crate::truncation::spec_windows(rows, max_len, step, start)[j]).offsets,
                s,
            ),
    decreases (if rows.len() >= start { rows.len() - start } else { 0 }),
{
    let ws = crate::truncation::spec_windows(rows, max_len, step, start);
    if !(start >= rows.len() || step < 1 || start < 0 || max_len < 0) {
        let end = if start + max_len <= rows.len() {
            start + max_len
        } else {
            rows.len() as int
        };
        lemma_windows_ok(rows, max_len, step, start + step, s);
        let rest = crate::truncation::spec_windows(rows, max_len, step, start + step);
        assert(ws == seq![rows.slice(start, end)] + rest);
        assert forall|j: int| 0 <= j < ws.len() implies offsets_ok((#[trigger] ws[j]).offsets, s) by {
            if j == 0 {
                assert(ws[0] == rows.slice(start, end));
                assert forall|k: int| 0 <= k < rows.slice(start, end).offsets.len() implies
                    (#[trigger] rows.slice(start, end).offsets[k]).0 <= rows.slice(
                    start,
                    end,
                ).offsets[k].1 <= byte_len(s) && crate::text::is_boundary(
                    s,
                    rows.slice(start, end).offsets[k].0 as int,
                ) && crate::text::is_boundary(s, rows.slice(start, end).offsets[k].1 as int) by {
                    assert(rows.slice(start, end).offsets[k] == rows.offsets[start + k]);
                }
            } else {
                assert(ws[j] == rest[j - 1]);
            }
        }
    }
}

/// Truncation keeps every offset it retains or re-emits.
pub proof fn lemma_truncated_ok(m: EncModel, max_len: int, stride: int, s: Seq<char>)
    requires
        enc_offsets_ok(m, s),
        m.rows.offsets.len() == m.rows.len(),
        0 <= max_len,
    ensures
        enc_offsets_ok(crate::truncation::spec_truncated(m, max_len, stride), s),
{
    let r = crate::truncation::spec_truncated(m, max_len, stride);
    if m.rows.len() <= max_len {
    } else if max_len == 0 {
        assert(r.rows == EncRows::empty());
        assert(r.overflowing == seq![m.rows]);
        assert(r.overflowing[0] == m.rows);
    } else {
        assert(r.rows == m.rows.slice(0, max_len));
        assert(r.rows.offsets == m.rows.offsets.subrange(0, max_len));
        assert forall|k: int| 0 <= k < r.rows.offsets.len() implies (#[trigger] r.rows.offsets[k]).0
            <= r.rows.offsets[k].1 <= byte_len(s) && crate::text::is_boundary(
            s,
            r.rows.offsets[k].0 as int,
        ) && crate::text::is_boundary(s, r.rows.offsets[k].1 as int) by {
            assert(r.rows.offsets[k] == m.rows.offsets[k]);
        }
        lemma_windows_ok(m.rows, max_len, max_len - stride, max_len - stride, s);
    }
}

/// Padding keeps every offset: pad positions carry `(0, 0)`.
pub proof fn lemma_pad_ok(
    m: EncModel,
    target: int,
    pad_id: u32,
    pad_type_id: u32,
    pad_token: Seq<char>,
    direction: crate::padding::PaddingDirection,
    s: Seq<char>,
)
    requires
        enc_offsets_ok(m, s),
    ensures
        enc_offsets_ok(
            spec_pad_model(m, target, pad_id, pad_type_id, pad_token, direction),
            s,
        ),
{
    crate::text::lemma_boundary_ends(s);
    let r = spec_pad_model(m, target, pad_id, pad_type_id, pad_token, direction);
    assert forall|k: int| 0 <= k < r.rows.offsets.len() implies (#[trigger] r.rows.offsets[k]).0
        <= r.rows.offsets[k].1 <= byte_len(s) && crate::text::is_boundary(
        s,
        r.rows.offsets[k].0 as int,
    ) && crate::text::is_boundary(s, r.rows.offsets[k].1 as int) by {
        lemma_pad_rows_entry_ok(m.rows, target, pad_id, pad_type_id, pad_token, direction, s, k);
    }
    assert forall|j: int| 0 <= j < r.overflowing.len() implies offsets_ok(
        (#[trigger] r.overflowing[j]).offsets,
        s,
    ) by {
        assert(r.overflowing[j] == crate::padding::spec_pad_rows(
            m.overflowing[j],
            target,
            pad_id,
            pad_type_id,
            pad_token,
            direction,
        ));
        assert forall|k: int| 0 <= k < r.overflowing[j].offsets.len() implies
            (#[trigger] r.overflowing[j].offsets[k]).0 <= r.overflowing[j].offsets[k].1 <= byte_len(
            s,
        ) && crate::text::is_boundary(s, r.overflowing[j].offsets[k].0 as int)
            && crate::text::is_boundary(s, r.overflowing[j].offsets[k].1 as int) by {
            lemma_pad_rows_entry_ok(
                m.overflowing[j],
                target,
                pad_id,
                pad_type_id,
                pad_token,
                direction,
                s,
                k,
            );
        }
    }
}

/// One entry of padded rows is an old entry or `(0, 0)`.
pub proof fn lemma_pad_rows_entry_ok(
    rows: EncRows,
    target: int,
    pad_id: u32,
    pad_type_id: u32,
    pad_token: Seq<char>,
    direction: crate::padding::PaddingDirection,
    s: Seq<char>,
    k: int,
)
    requires
        offsets_ok(rows.offsets, s),
        0 <= k < crate::padding::spec_pad_rows(
            rows,
            target,
            pad_id,
            pad_type_id,
            pad_token,
            direction,
        ).offsets.len(),
    ensures
        ({
            let o = crate::padding::spec_pad_rows(
                rows,
                target,
                pad_id,
                pad_type_id,
                pad_token,
                direction,
            ).offsets[k];
            o.0 <= o.1 <= byte_len(s) && crate::text::is_boundary(s, o.0 as int)
                && crate::text::is_boundary(s, o.1 as int)
        }),
{
    crate::text::lemma_boundary_ends(s);
    let r = crate::padding::spec_pad_rows(rows, target, pad_id, pad_type_id, pad_token, direction);
    if rows.len() >= target {
    } else {
        let block = crate::padding::spec_pad_block(
            (target - rows.len()) as nat,
            pad_id,
            pad_type_id,
            pad_token,
        );
        match direction {
            crate::padding::PaddingDirection::Right => {
                if k < rows.offsets.len() {
                    assert(r.offsets[k] == rows.offsets[k]);
                } else {
                    assert(r.offsets[k] == crate::encoding::shift_offsets(block.offsets, 0)[k
                        - rows.offsets.len()]);
                }
            },
            crate::padding::PaddingDirection::Left => {
                if k < block.offsets.len() {
                    assert(r.offsets[k] == block.offsets[k]);
                } else {
                    assert(r.offsets[k] == crate::encoding::shift_offsets(rows.offsets, 0)[k
                        - block.offsets.len()]);
                    assert(crate::encoding::shift_offsets(rows.offsets, 0)[k - block.offsets.len()]
                        == (((rows.offsets[k - block.offsets.len()].0 + 0) as usize), ((
                    rows.offsets[k - block.offsets.len()].1 + 0) as usize)));
                }
            },
        }
    }
}

/// Offsets within the input (the spec's invariant on token offsets):
/// for a pipeline whose pre-tokenizer reports byte sub-ranges (none
/// configured, or the BERT splitter), every offset of the encoding of
/// one raw sequence — after truncation, merging and padding, in the
/// rows and in every overflowing sibling — is ordered, at most the
/// input's byte length, and falls on character boundaries of the
/// input, so it addresses a well-formed substring. `encode`'s own
/// ensures pins its result to exactly these spec values.
pub proof fn lemma_encode_offsets_in_input(
    t: &Tokenizer,
    s: Seq<char>,
    type_id: u32,
    add_special_tokens: bool,
)
    requires
        t.wf(),
        byte_range_pretok(t),
        byte_len(s) <= 0x10000000,
    ensures
        ({
            match spec_encode_subseq(t, s, type_id, false) {
                Ok(rows) => offsets_ok(rows.offsets, s) && (match spec_post_process(
                    t,
                    EncModel { rows, overflowing: Seq::empty() },
                    None,
                    add_special_tokens,
                ) {
                    Ok(m) => enc_offsets_ok(m, s),
                    Err(_) => true,
                }),
                Err(_) => true,
            }
        }),
{
    let ev = t.added_vocabulary.spec_entries();
    let chunks = crate::added::spec_extract(ev, t.normalizer, s);
    crate::added::lemma_extract_origs(ev, t.normalizer, s);
    assert forall|k: int| 0 <= k < chunks.len() implies crate::normalized::ns_wf(
        (#[trigger] chunks[k]).0,
    ) by {
        crate::added::lemma_extract_norm(ev, t.normalizer, s, k);
    }
    assert(chunks.skip(0) =~= chunks);
    assert(s =~= Seq::<char>::empty() + crate::added::cat_origs(chunks));
    assert(byte_len(Seq::<char>::empty()) == 0);
    lemma_encode_chunks_ok(
        t,
        chunks,
        type_id,
        false,
        0,
        Seq::empty(),
        EncRows::empty(),
        s,
    );
    match spec_encode_subseq(t, s, type_id, false) {
        Err(_) => {},
        Ok(rows) => {
            let m0 = EncModel { rows, overflowing: Seq::empty() };
            assert(enc_offsets_ok(m0, s));
            match t.truncation {
                Some(tp) => {
                    match spec_truncate_encodings(m0, None, tp) {
                        Err(_) => {},
                        Ok(ab) => {
                            assert(enc_offsets_ok(ab.0, s)) by {
                                lemma_truncate_single_ok(m0, tp, s);
                            }
                            lemma_pad_opt_ok(t, spec_default_process(ab.0, ab.1), s);
                        },
                    }
                },
                None => {
                    lemma_pad_opt_ok(t, spec_default_process(m0, None), s);
                },
            }
        },
    }
}

/// Truncating a single encoding keeps its offsets.
pub proof fn lemma_truncate_single_ok(m: EncModel, tp: TruncationParams, s: Seq<char>)
    requires
        enc_offsets_ok(m, s),
        m.rows.offsets.len() == m.rows.len(),
        spec_truncate_encodings(m, None, tp) is Ok,
    ensures
        enc_offsets_ok((spec_truncate_encodings(m, None, tp)->Ok_0).0, s),
        (spec_truncate_encodings(m, None, tp)->Ok_0).1 is None,
{
    let alen = m.rows.len() as int;
    if alen <= tp.max_length {
    } else if tp.stride != 0 && tp.stride >= tp.max_length {
    } else {
        match tp.strategy {
            crate::truncation::TruncationStrategy::LongestFirst => {
                let tg = crate::truncation::spec_longest_first(alen, 0, tp.max_length as int);
                lemma_longest_first_range(alen, 0, tp.max_length as int);
                lemma_truncated_ok(m, tg.0, tp.stride as int, s);
            },
            crate::truncation::TruncationStrategy::OnlyFirst => {
                lemma_truncated_ok(m, tp.max_length - 0, tp.stride as int, s);
            },
            crate::truncation::TruncationStrategy::OnlySecond => {},
        }
    }
}

/// The `LongestFirst` targets stay within the given lengths.
pub proof fn lemma_longest_first_range(a: int, b: int, max: int)
    requires
        0 <= a,
        0 <= b,
        0 <= max,
    ensures
        0 <= crate::truncation::spec_longest_first(a, b, max).0 <= a,
        0 <= crate::truncation::spec_longest_first(a, b, max).1 <= b,
    decreases a + b,
{
    if !(a < 0 || b < 0 || max < 0 || a + b <= max) {
        if a > b {
            lemma_longest_first_range(a - 1, b, max);
        } else {
            lemma_longest_first_range(a, b - 1, max);
        }
    }
}

/// The optional single-encoding padding keeps offsets.
pub proof fn lemma_pad_opt_ok(t: &Tokenizer, m: EncModel, s: Seq<char>)
    requires
        enc_offsets_ok(m, s),
    ensures
        enc_offsets_ok(spec_pad_opt(t, m), s),
{
    match t.padding {
        Some(p) => {
            lemma_pad_ok(
                m,
                spec_pad_target(seq![m], p.strategy),
                p.pad_id,
                p.pad_type_id,
                p.pad_token@,
                p.direction,
                s,
            );
        },
        None => {},
    }
}

/// The single piece used when no pre-tokenizer applies: the whole
/// normalized text.
fn whole_piece(ns: &NormalizedString) -> (r: Vec<(String, (usize, usize))>)
    requires
        ns.wf(),
    ensures
        crate::pre_tokenizers::pieces_view(r@) == seq![
            (ns@.normalized, (0usize, (byte_len(ns@.normalized) as usize))),
        ],
{
    let text = ns.get();
    let blen = ns.len();
    let mut r: Vec<(String, (usize, usize))> = Vec::new();
    r.push((text, (0, blen)));
    proof {
        assert(crate::pre_tokenizers::pieces_view(r@) =~= seq![
            (ns@.normalized, (0usize, (byte_len(ns@.normalized) as usize))),
        ]);
    }
    r
}

/// Convert every offset of `enc` back to the chunk's original text
/// and shift it to the chunk's position in the input.
fn convert_chunk(enc: Encoding, ns3: &NormalizedString, off: usize) -> (r: Encoding)
    requires
        enc.wf(),
        ns3.wf(),
        enc@.overflowing.len() == 0,
    ensures
        r@.rows == spec_convert_rows(enc@.rows, ns3@, off as int),
        r@.overflowing.len() == 0,
        r.wf(),
{
    let ghost m0 = enc@;
    let Encoding {
        ids,
        type_ids,
        tokens,
        words,
        offsets,
        special_tokens_mask,
        attention_mask,
        overflowing,
    } = enc;
    let n: usize = offsets.len();
    let mut new_offsets: Vec<(usize, usize)> = Vec::new();
    let mut k: usize = 0;
    while k < n
        invariant
            n == offsets@.len(),
            0 <= k <= n,
            new_offsets@ =~= Seq::new(
                k as nat,
                |j: int| spec_convert_offset(ns3@, offsets@[j], off as int),
            ),
            forall|j: int| 0 <= j < k ==> (#[trigger] new_offsets@[j]).0 <= new_offsets@[j].1,
        decreases n - k,
    {
        let (s, e) = offsets[k];
        let converted: (usize, usize) = match ns3.convert_offsets(s, e) {
            Some(ab) => (ab.0.saturating_add(off), ab.1.saturating_add(off)),
            None => (s.saturating_add(off), e.saturating_add(off)),
        };
        new_offsets.push(converted);
        k = k + 1;
        proof {
            assert(new_offsets@ =~= Seq::new(
                k as nat,
                |j: int| spec_convert_offset(ns3@, offsets@[j], off as int),
            ));
        }
    }
    let r = Encoding {
        ids,
        type_ids,
        tokens,
        words,
        offsets: new_offsets,
        special_tokens_mask,
        attention_mask,
        overflowing,
    };
    proof {
        assert(r@.rows =~~= spec_convert_rows(m0.rows, ns3@, off as int));
        assert(r@.overflowing =~= Seq::<EncRows>::empty());
    }
    r
}

} // verus!
