//! The WordPiece model: greedy longest-match subword tokenization.

use vstd::prelude::*;

use crate::error::TokenizerError;
use crate::models::vocab::Vocab;
use crate::normalized::trailing_ws;
use crate::text::{byte_len, byte_len_upto, chars_to_string, str_chars};
use crate::token::{Token, TokenModel};

verus! {

/// The error of this model.
#[derive(Clone, Copy, Debug, PartialEq, Eq, Structural)]
pub enum Error {
    MissingUnkToken,
}

impl Error {
    /// A human-readable description of the error.
    pub fn message(&self) -> (r: String)
        ensures
            r@ == "WordPiece error: Missing [UNK] token from the vocabulary"@,
    {
        String::from_str("WordPiece error: Missing [UNK] token from the vocabulary")
    }
}

/// The string looked up in the vocabulary for the piece
/// `word[start..end]`: the bare piece at the start of the word, the
/// prefixed piece later.
pub open spec fn wp_lookup(prefix: Seq<char>, word: Seq<char>, start: int, end: int) -> Seq<char> {
    if start == 0 {
        word.subrange(0, end)
    } else {
        prefix + word.subrange(start, end)
    }
}

/// The largest `e` with `start < e <= end` whose lookup string is in
/// the vocabulary, or -1 when none is.
pub open spec fn wp_match_end(
    vm: Map<Seq<char>, u32>,
    prefix: Seq<char>,
    word: Seq<char>,
    start: int,
    end: int,
) -> int
    decreases (if end >= 0 { end + 1 } else { 0 }),
{
    if start < 0 || end <= start {
        -1
    } else if vm.contains_key(wp_lookup(prefix, word, start, end)) {
        end
    } else {
        wp_match_end(vm, prefix, word, start, end - 1)
    }
}

pub proof fn lemma_wp_match_end_range(
    vm: Map<Seq<char>, u32>,
    prefix: Seq<char>,
    word: Seq<char>,
    start: int,
    end: int,
)
    ensures
        wp_match_end(vm, prefix, word, start, end) == -1 || start < wp_match_end(
            vm,
            prefix,
            word,
            start,
            end,
        ) <= end,
    decreases (if end >= 0 { end + 1 } else { 0 }),
{
    if !(start < 0 || end <= start) && !vm.contains_key(wp_lookup(prefix, word, start, end)) {
        lemma_wp_match_end_range(vm, prefix, word, start, end - 1);
    }
}

/// The greedy pieces of `word` from character `start` on: each piece
/// is its lookup string with its character range. `None` when some
/// position has no match at all (the word is unknown).
pub open spec fn wp_pieces(
    vm: Map<Seq<char>, u32>,
    prefix: Seq<char>,
    word: Seq<char>,
    start: int,
) -> Option<Seq<(Seq<char>, int, int)>>
    decreases (if start <= word.len() { word.len() - start } else { 0 }),
{
    if start < 0 {
        None
    } else if start >= word.len() {
        Some(Seq::empty())
    } else {
        let e = wp_match_end(vm, prefix, word, start, word.len() as int);
        if e <= start || e > word.len() {
            None
        } else {
            match wp_pieces(vm, prefix, word, e) {
                None => None,
                Some(rest) => Some(seq![(wp_lookup(prefix, word, start, e), start, e)] + rest),
            }
        }
    }
}

/// The token of one greedy piece: its id, its lookup string, byte
/// offsets relative to the pre-token's start, and the pre-token index.
pub open spec fn wp_token_of_piece(
    vm: Map<Seq<char>, u32>,
    piece: (Seq<char>, int, int),
    word: Seq<char>,
    wo0: int,
    idx: u32,
) -> TokenModel {
    TokenModel {
        id: vm[piece.0],
        value: piece.0,
        offsets: (
            ((wo0 + byte_len(word.take(piece.1))) as usize),
            ((wo0 + byte_len(word.take(piece.2))) as usize),
        ),
        word: idx,
    }
}

/// The tokens of one pre-token: greedy pieces when the word is short
/// enough and fully matched; otherwise a single unknown token spanning
/// the whole pre-token, or `MissingUnkToken` when the unknown token is
/// not in the vocabulary.
pub open spec fn spec_wp_word_tokens(
    wp: WordPiece,
    word: Seq<char>,
    wo: (usize, usize),
    idx: u32,
) -> Result<Seq<TokenModel>, TokenizerError> {
    let vm = wp.vocab@;
    let unk = wp.unk_token@;
    let unk_result: Result<Seq<TokenModel>, TokenizerError> = if vm.contains_key(unk) {
        Ok(seq![TokenModel { id: vm[unk], value: unk, offsets: wo, word: idx }])
    } else {
        Err(TokenizerError::MissingUnkToken)
    };
    if word.len() > wp.max_input_chars_per_word {
        unk_result
    } else {
        match wp_pieces(vm, wp.continuing_subword_prefix@, word, 0) {
            None => unk_result,
            Some(ps) => Ok(
                ps.map_values(|p: (Seq<char>, int, int)| wp_token_of_piece(vm, p, word, wo.0 as int, idx)),
            ),
        }
    }
}

/// The tokens of the pre-tokens from position `i` on, failing as soon
/// as one pre-token fails.
pub open spec fn spec_wp_from(
    wp: WordPiece,
    pts: Seq<(Seq<char>, (usize, usize))>,
    i: int,
) -> Result<Seq<TokenModel>, TokenizerError>
    decreases (if i <= pts.len() { pts.len() - i } else { 0 }),
{
    if i < 0 || i >= pts.len() {
        Ok(Seq::empty())
    } else {
        match spec_wp_word_tokens(wp, pts[i].0, pts[i].1, i as u32) {
            Err(e) => Err(e),
            Ok(ts) => match spec_wp_from(wp, pts, i + 1) {
                Err(e) => Err(e),
                Ok(rest) => Ok(ts + rest),
            },
        }
    }
}

/// The WordPiece tokenization of a pre-token list.
pub open spec fn spec_wp_tokenize(wp: WordPiece, pts: Seq<(Seq<char>, (usize, usize))>) -> Result<
    Seq<TokenModel>,
    TokenizerError,
> {
    spec_wp_from(wp, pts, 0)
}

/// Every greedy piece's character range is within the word.
pub proof fn lemma_wp_pieces_range(
    vm: Map<Seq<char>, u32>,
    prefix: Seq<char>,
    word: Seq<char>,
    start: int,
)
    ensures
        ({
            match wp_pieces(vm, prefix, word, start) {
                Some(ps) => forall|k: int|
                    0 <= k < ps.len() ==> 0 <= (#[trigger] ps[k]).1 <= ps[k].2 <= word.len(),
                None => true,
            }
        }),
    decreases (if start <= word.len() { word.len() - start } else { 0 }),
{
    if !(start < 0) && !(start >= word.len()) {
        let e = wp_match_end(vm, prefix, word, start, word.len() as int);
        if !(e <= start || e > word.len()) {
            lemma_wp_pieces_range(vm, prefix, word, e);
            match wp_pieces(vm, prefix, word, e) {
                None => {},
                Some(rest) => {
                    let whole = seq![(wp_lookup(prefix, word, start, e), start, e)] + rest;
                    assert forall|k: int| 0 <= k < whole.len() implies 0 <= (#[trigger] whole[k]).1
                        <= whole[k].2 <= word.len() by {
                        if k > 0 {
                            assert(whole[k] == rest[k - 1]);
                        }
                    }
                },
            }
        }
    }
}

/// The tokens of one pre-token have ordered offsets within `b`, given
/// a fitting pre-token.
pub proof fn lemma_wp_word_tokens_bound(
    wp: WordPiece,
    word: Seq<char>,
    wo: (usize, usize),
    idx: u32,
    b: int,
)
    requires
        wo.0 <= wo.1 <= b,
        wo.0 + byte_len(word) <= b,
        b <= usize::MAX,
    ensures
        ({
            match spec_wp_word_tokens(wp, word, wo, idx) {
                Ok(ts) => forall|k: int|
                    0 <= k < ts.len() ==> (#[trigger] ts[k]).offsets.0 <= ts[k].offsets.1 <= b,
                Err(_) => true,
            }
        }),
{
    let vm = wp.vocab@;
    let prefix = wp.continuing_subword_prefix@;
    if word.len() > wp.max_input_chars_per_word {
    } else {
        match wp_pieces(vm, prefix, word, 0) {
            None => {},
            Some(ps) => {
                lemma_wp_pieces_range(vm, prefix, word, 0);
                let ts = ps.map_values(
                    |p: (Seq<char>, int, int)| wp_token_of_piece(vm, p, word, wo.0 as int, idx),
                );
                assert forall|k: int| 0 <= k < ts.len() implies (#[trigger] ts[k]).offsets.0
                    <= ts[k].offsets.1 <= b by {
                    let p = ps[k];
                    assert(ts[k] == wp_token_of_piece(vm, p, word, wo.0 as int, idx));
                    crate::text::lemma_byte_len_take_mono(word, p.1, p.2);
                    crate::text::lemma_byte_len_take_mono(word, p.2, word.len() as int);
                    assert(word.take(word.len() as int) =~= word);
                    assert(wo.0 + byte_len(word.take(p.2)) <= b);
                    assert(wo.0 + byte_len(word.take(p.1)) <= wo.0 + byte_len(word.take(p.2)));
                }
            },
        }
    }
}

/// Tokens of fitting pieces have ordered offsets within `b`.
pub proof fn lemma_wp_from_bound(
    wp: WordPiece,
    pts: Seq<(Seq<char>, (usize, usize))>,
    i: int,
    b: int,
)
    requires
        crate::models::pieces_fit(pts, b),
        b <= usize::MAX,
    ensures
        ({
            match spec_wp_from(wp, pts, i) {
                Ok(ts) => forall|k: int|
                    0 <= k < ts.len() ==> (#[trigger] ts[k]).offsets.0 <= ts[k].offsets.1 <= b,
                Err(_) => true,
            }
        }),
    decreases (if i <= pts.len() { pts.len() - i } else { 0 }),
{
    if !(i < 0 || i >= pts.len()) {
        lemma_wp_word_tokens_bound(wp, pts[i].0, pts[i].1, i as u32, b);
        lemma_wp_from_bound(wp, pts, i + 1, b);
        match spec_wp_word_tokens(wp, pts[i].0, pts[i].1, i as u32) {
            Err(_) => {},
            Ok(ts) => {
                match spec_wp_from(wp, pts, i + 1) {
                    Err(_) => {},
                    Ok(rest) => {
                        let whole = ts + rest;
                        assert forall|k: int| 0 <= k < whole.len() implies
                            (#[trigger] whole[k]).offsets.0 <= whole[k].offsets.1 <= b by {
                            if k < ts.len() {
                                assert(whole[k] == ts[k]);
                            } else {
                                assert(whole[k] == rest[k - ts.len()]);
                            }
                        }
                    },
                }
            },
        }
    }
}

/// A WordPiece model.
pub struct WordPiece {
    pub vocab: Vocab,
    pub unk_token: String,
    pub continuing_subword_prefix: String,
    pub max_input_chars_per_word: usize,
}

impl WordPiece {
    pub open spec fn wf(&self) -> bool {
        self.vocab.wf()
    }

    /// Get a `WordPieceBuilder`.
    pub fn builder() -> (r: WordPieceBuilder)
        ensures
            r.files is None,
            r.vocab@.len() == 0,
            r.unk_token@ == "[UNK]"@,
            r.continuing_subword_prefix@ == "##"@,
            r.max_input_chars_per_word == 100,
    {
        WordPieceBuilder::new()
    }

    /// Start building a model whose vocabulary file is at `vocab`.
    /// The file itself must be read elsewhere and its lines handed to
    /// `vocab_from_lines`; `build` refuses a builder holding an unread
    /// path.
    pub fn from_files(vocab: &str) -> (r: WordPieceBuilder)
        ensures
            r.files is Some && (r.files->0)@ == vocab@,
            r.vocab@.len() == 0,
    {
        let b = WordPiece::builder();
        b.files(String::from_str(vocab))
    }

    pub fn get_vocab(&self) -> (r: &Vocab)
        ensures
            r == self.vocab,
    {
        &self.vocab
    }

    pub fn get_vocab_size(&self) -> (r: usize)
        requires
            self.wf(),
        ensures
            r == self.vocab.spec_entries().len(),
    {
        self.vocab.size()
    }

    pub fn token_to_id(&self, token: &str) -> (r: Option<u32>)
        ensures
            r is Some <==> self.vocab@.contains_key(token@),
            r is Some ==> r->0 == self.vocab@[token@],
    {
        self.vocab.get(token)
    }

    pub fn id_to_token(&self, id: u32) -> (r: Option<String>)
        requires
            self.wf(),
        ensures
            match r {
                Some(t) => crate::models::vocab::first_token_of(self.vocab.spec_entries(), id, 0)
                    == Some(t@),
                None => crate::models::vocab::first_token_of(self.vocab.spec_entries(), id, 0)
                    is None,
            },
    {
        self.vocab.id_to_token(id)
    }

    /// Tokenize the given pre-tokens by greedy longest-match from the
    /// left, with byte offsets relative to each pre-token's recorded
    /// start.
    pub fn tokenize(&self, sentence: Vec<(String, (usize, usize))>) -> (r: Result<
        Vec<Token>,
        TokenizerError,
    >)
        requires
            self.wf(),
            sentence@.len() <= u32::MAX,
            forall|i: int| 0 <= i < sentence@.len() ==> (#[trigger] sentence@[i]).1.0 + byte_len(
                sentence@[i].0@,
            ) <= usize::MAX,
            forall|i: int| 0 <= i < sentence@.len() ==> (#[trigger] sentence@[i]).1.0
                <= sentence@[i].1.1,
        ensures
            ({
                let spec_r = spec_wp_tokenize(*self, crate::pre_tokenizers::pieces_view(sentence@));
                match r {
                    Ok(ts) => spec_r is Ok && ts.deep_view() == spec_r->Ok_0 && forall|k: int|
                        0 <= k < ts@.len() ==> (#[trigger] ts@[k]).offsets.0 <= ts@[k].offsets.1,
                    Err(e) => spec_r is Err && e == spec_r->Err_0,
                }
            }),
    {
        let ghost pts = crate::pre_tokenizers::pieces_view(sentence@);
        let n: usize = sentence.len();
        let mut out: Vec<Token> = Vec::new();
        let mut i: usize = 0;
        while i < n
            invariant
                n == sentence@.len(),
                pts == crate::pre_tokenizers::pieces_view(sentence@),
                0 <= i <= n,
                spec_wp_from(*self, pts, 0) == (match spec_wp_from(*self, pts, i as int) {
                    Ok(rest) => Ok::<Seq<TokenModel>, TokenizerError>(out.deep_view() + rest),
                    Err(e) => Err::<Seq<TokenModel>, TokenizerError>(e),
                }),
                forall|k: int| 0 <= k < out@.len() ==> (#[trigger] out@[k]).offsets.0
                    <= out@[k].offsets.1,
            decreases n - i,
        {
            let word_string = sentence[i].0.clone();
            let wo = sentence[i].1;
            let ghost wv = pts[i as int].0;
            let chars = str_chars(word_string.as_str());
            let nchars: usize = chars.len();
            let ghost out_pre = out.deep_view();
            match self.word_tokens(&chars, wo, i as u32, Ghost(wv)) {
                Ok(mut ts) => {
                    let ghost ts_view = ts.deep_view();
                    out.append(&mut ts);
                    proof {
                        assert(out.deep_view() =~= out_pre + ts_view) by {
                            assert forall|k: int| 0 <= k < out@.len() implies
                                #[trigger] out.deep_view()[k] == (out_pre + ts_view)[k] by {
                                assert(out.deep_view()[k] == out@[k]@);
                            }
                        }
                    }
                },
                Err(e) => {
                    proof {
                        assert(spec_wp_from(*self, pts, i as int) is Err);
                    }
                    return Err(e);
                },
            }
            i = i + 1;
            proof {
                assert(spec_wp_from(*self, pts, 0) == (match spec_wp_from(*self, pts, i as int) {
                    Ok(rest) => Ok::<Seq<TokenModel>, TokenizerError>(out.deep_view() + rest),
                    Err(e) => Err::<Seq<TokenModel>, TokenizerError>(e),
                })) by {
                    if spec_wp_from(*self, pts, i as int) is Ok {
                        assert(out_pre + (spec_wp_word_tokens(
                            *self,
                            pts[i - 1].0,
                            pts[i - 1].1,
                            (i - 1) as u32,
                        )->Ok_0 + spec_wp_from(*self, pts, i as int)->Ok_0) =~= out.deep_view()
                            + spec_wp_from(*self, pts, i as int)->Ok_0);
                    }
                }
            }
        }
        proof {
            assert(out.deep_view() + Seq::<TokenModel>::empty() =~= out.deep_view());
        }
        Ok(out)
    }

    /// The tokens of one pre-token (see `spec_wp_word_tokens`).
    fn word_tokens(
        &self,
        chars: &Vec<char>,
        wo: (usize, usize),
        idx: u32,
        Ghost(wv): Ghost<Seq<char>>,
    ) -> (r: Result<Vec<Token>, TokenizerError>)
        requires
            self.wf(),
            chars@ == wv,
            wo.0 + byte_len(wv) <= usize::MAX,
            wo.0 <= wo.1,
        ensures
            ({
                let spec_r = spec_wp_word_tokens(*self, wv, wo, idx);
                match r {
                    Ok(ts) => spec_r is Ok && ts.deep_view() == spec_r->Ok_0 && forall|k: int|
                        0 <= k < ts@.len() ==> (#[trigger] ts@[k]).offsets.0 <= ts@[k].offsets.1,
                    Err(e) => spec_r is Err && e == spec_r->Err_0,
                }
            }),
    {
        let ghost vm = self.vocab@;
        let ghost prefix = self.continuing_subword_prefix@;
        let nchars: usize = chars.len();
        if nchars > self.max_input_chars_per_word {
            return self.unk_word(wo, idx);
        }
        let mut word_tokens: Vec<Token> = Vec::new();
        let ghost mut done: Seq<(Seq<char>, int, int)> = Seq::empty();
        let mut start: usize = 0;
        let mut bad: bool = false;
        proof {
            if wp_pieces(vm, prefix, wv, 0) is Some {
                assert(Seq::<(Seq<char>, int, int)>::empty() + wp_pieces(vm, prefix, wv, 0)->0
                    =~= wp_pieces(vm, prefix, wv, 0)->0);
            }
            assert(word_tokens.deep_view() =~= done.map_values(
                |p: (Seq<char>, int, int)| wp_token_of_piece(vm, p, wv, wo.0 as int, idx),
            ));
        }
        while !bad && start < nchars
            invariant
                nchars == wv.len(),
                0 <= start <= nchars,
                wo.0 + byte_len(wv) <= usize::MAX,
                bad ==> wp_pieces(vm, prefix, wv, 0) is None,
                !bad ==> wp_pieces(vm, prefix, wv, 0) == (match wp_pieces(
                    vm,
                    prefix,
                    wv,
                    start as int,
                ) {
                    None => None::<Seq<(Seq<char>, int, int)>>,
                    Some(rest) => Some(done + rest),
                }),
                !bad ==> word_tokens.deep_view() == done.map_values(
                    |p: (Seq<char>, int, int)| wp_token_of_piece(vm, p, wv, wo.0 as int, idx),
                ),
                forall|k: int| 0 <= k < word_tokens@.len() ==> (#[trigger] word_tokens@[k]).offsets.0
                    <= word_tokens@[k].offsets.1,
            decreases (if bad {
                0int
            } else {
                1int
            }), nchars - start,
        {
            let mut e: usize = nchars;
            let mut hit: Option<u32> = None;
            let mut cand_hit: String = String::new();
            let mut hit_end: usize = 0;
            while e > start && hit.is_none()
                invariant
                    start <= e <= nchars,
                    start < nchars,
                    hit is None ==> wp_match_end(vm, prefix, wv, start as int, nchars as int)
                        == wp_match_end(vm, prefix, wv, start as int, e as int),
                    hit is Some ==> {
                        &&& start < hit_end <= nchars
                        &&& hit_end as int == wp_match_end(vm, prefix, wv, start as int, nchars as int)
                        &&& vm.contains_key(wp_lookup(prefix, wv, start as int, hit_end as int))
                        &&& hit->0 == vm[wp_lookup(prefix, wv, start as int, hit_end as int)]
                        &&& cand_hit@ == wp_lookup(prefix, wv, start as int, hit_end as int)
                    },
                decreases (if hit is Some {
                    0int
                } else {
                    1int
                }), e,
            {
                let piece_str = chars_to_string(chars, start, e);
                let cand: String = if start == 0 {
                    piece_str
                } else {
                    self.continuing_subword_prefix.clone().concat(piece_str.as_str())
                };
                proof {
                    assert(cand@ == wp_lookup(prefix, wv, start as int, e as int));
                }
                match self.vocab.get(cand.as_str()) {
                    Some(id) => {
                        hit = Some(id);
                        hit_end = e;
                        cand_hit = cand;
                    },
                    None => {
                        e = e - 1;
                    },
                }
            }
            match hit {
                Some(id) => {
                    let b1: usize = byte_len_upto(chars, start);
                    let b2: usize = byte_len_upto(chars, hit_end);
                    proof {
                        crate::text::lemma_byte_len_take_mono(wv, start as int, hit_end as int);
                        crate::text::lemma_byte_len_take_mono(wv, hit_end as int, wv.len() as int);
                        assert(wv.take(wv.len() as int) =~= wv);
                    }
                    let ghost piece = (
                        wp_lookup(prefix, wv, start as int, hit_end as int),
                        start as int,
                        hit_end as int,
                    );
                    let ghost wt_pre = word_tokens.deep_view();
                    word_tokens.push(
                        Token { id, value: cand_hit, offsets: (wo.0 + b1, wo.0 + b2), word: idx },
                    );
                    proof {
                        let f = |p: (Seq<char>, int, int)| wp_token_of_piece(
                            vm,
                            p,
                            wv,
                            wo.0 as int,
                            idx,
                        );
                        assert(word_tokens.deep_view() =~= wt_pre.push(f(piece))) by {
                            assert forall|k: int| 0 <= k < word_tokens@.len() implies
                                #[trigger] word_tokens.deep_view()[k] == wt_pre.push(f(piece))[k] by {
                                assert(word_tokens.deep_view()[k] == word_tokens@[k]@);
                            }
                        }
                        assert(done.push(piece).map_values(f) =~= done.map_values(f).push(f(piece)));
                        // One unfolding of the greedy recursion at `start`.
                        lemma_wp_match_end_range(vm, prefix, wv, start as int, nchars as int);
                        if wp_pieces(vm, prefix, wv, hit_end as int) is Some {
                            assert(done + (seq![piece] + wp_pieces(vm, prefix, wv, hit_end as int)->0)
                                =~= done.push(piece) + wp_pieces(vm, prefix, wv, hit_end as int)->0);
                        }
                        done = done.push(piece);
                    }
                    start = hit_end;
                },
                None => {
                    proof {
                        assert(wp_match_end(vm, prefix, wv, start as int, start as int) == -1);
                        assert(wp_pieces(vm, prefix, wv, start as int) is None);
                    }
                    bad = true;
                },
            }
        }
        if bad {
            return self.unk_word(wo, idx);
        }
        proof {
            assert(wp_pieces(vm, prefix, wv, start as int) == Some(
                Seq::<(Seq<char>, int, int)>::empty(),
            ));
            assert(done + Seq::<(Seq<char>, int, int)>::empty() =~= done);
        }
        Ok(word_tokens)
    }

    /// A single unknown token spanning one pre-token, or the error when
    /// the unknown token is missing from the vocabulary.
    fn unk_word(&self, wo: (usize, usize), idx: u32) -> (r: Result<Vec<Token>, TokenizerError>)
        requires
            self.wf(),
        ensures
            ({
                let vm = self.vocab@;
                let unk = self.unk_token@;
                match r {
                    Ok(ts) => vm.contains_key(unk) && ts.deep_view() =~= seq![
                        TokenModel { id: vm[unk], value: unk, offsets: wo, word: idx },
                    ] && ts@.len() == 1 && ts@[0].offsets == wo,
                    Err(e) => !vm.contains_key(unk) && e == TokenizerError::MissingUnkToken,
                }
            }),
    {
        match self.vocab.get(self.unk_token.as_str()) {
            Some(id) => {
                let mut ts: Vec<Token> = Vec::new();
                ts.push(
                    Token { id, value: self.unk_token.clone(), offsets: wo, word: idx },
                );
                proof {
                    assert(ts.deep_view() =~= seq![
                        TokenModel {
                            id: self.vocab@[self.unk_token@],
                            value: self.unk_token@,
                            offsets: wo,
                            word: idx,
                        },
                    ]);
                }
                Ok(ts)
            },
            None => Err(TokenizerError::MissingUnkToken),
        }
    }
}

impl WordPiece {
    /// A WordPiece model over a BPE model's vocabulary, taking over
    /// its unknown token and continuing-subword prefix when they are
    /// set.
    pub fn from_bpe(bpe: &crate::models::bpe::BPE) -> (r: WordPiece)
        requires
            bpe.wf(),
        ensures
            r.wf(),
            r.vocab@ == bpe.vocab@,
            bpe.unk_token is Some ==> r.unk_token == bpe.unk_token->0,
            bpe.unk_token is None ==> r.unk_token@ == "[UNK]"@,
            bpe.continuing_subword_prefix is Some ==> r.continuing_subword_prefix
                == bpe.continuing_subword_prefix->0,
            bpe.continuing_subword_prefix is None ==> r.continuing_subword_prefix@ == "##"@,
    {
        let entries = crate::models::vocab::clone_entries(bpe.get_vocab().entries_list());
        let built = WordPiece::builder().vocab(entries).build();
        let mut wp: WordPiece = match built {
            Ok(wp) => wp,
            Err(_) => {
                // The entries of a well-formed vocabulary are unique,
                // so building cannot fail.
                proof {
                    assert(false);
                }
                vstd::pervasive::unreached()
            },
        };
        proof {
            assert(wp.vocab@ =~= bpe.vocab@);
        }
        match bpe.get_unk_token() {
            Some(u) => {
                wp.unk_token = u.clone();
            },
            None => {},
        }
        match bpe.get_continuing_subword_prefix() {
            Some(p) => {
                wp.continuing_subword_prefix = p.clone();
            },
            None => {},
        }
        wp
    }
}

/// The line with its trailing whitespace removed.
pub open spec fn spec_trim_end(s: Seq<char>) -> Seq<char> {
    s.take(s.len() - trailing_ws(s))
}

/// The vocabulary entries described by the lines of a vocabulary file:
/// line `i`, trimmed of trailing whitespace, gets id `i`.
pub fn vocab_from_lines(lines: &Vec<String>) -> (r: Vec<(String, u32)>)
    requires
        lines@.len() <= u32::MAX,
    ensures
        r@.len() == lines@.len(),
        forall|i: int| 0 <= i < r@.len() ==> (#[trigger] r@[i]).0@ == spec_trim_end(lines@[i]@)
            && r@[i].1 == i as u32,
{
    let n: usize = lines.len();
    let mut r: Vec<(String, u32)> = Vec::new();
    let mut i: usize = 0;
    while i < n
        invariant
            n == lines@.len() <= u32::MAX,
            0 <= i <= n,
            r@.len() == i,
            forall|j: int| 0 <= j < i ==> (#[trigger] r@[j]).0@ == spec_trim_end(lines@[j]@)
                && r@[j].1 == j as u32,
        decreases n - i,
    {
        let chars = str_chars(lines[i].as_str());
        let nc: usize = chars.len();
        let mut t: usize = 0;
        while t < nc && chars[nc - 1 - t].is_whitespace()
            invariant
                nc == chars@.len(),
                0 <= t <= nc,
                forall|j: int| nc - t <= j < nc ==> crate::outside::is_uni_whitespace(
                    #[trigger] chars@[j],
                ),
            decreases nc - t,
        {
            t = t + 1;
        }
        proof {
            crate::normalized::lemma_trailing_ws_at(chars@, t as int);
        }
        let trimmed = chars_to_string(&chars, 0, nc - t);
        proof {
            assert(trimmed@ =~= spec_trim_end(lines@[i as int]@));
        }
        r.push((trimmed, i as u32));
        i = i + 1;
    }
    r
}

/// Configuration of a `WordPiece` model under construction.
pub struct WordPieceBuilder {
    pub files: Option<String>,
    pub vocab: Vec<(String, u32)>,
    pub unk_token: String,
    pub continuing_subword_prefix: String,
    pub max_input_chars_per_word: usize,
}

impl WordPieceBuilder {
    /// A builder with the usual defaults: no file, an empty
    /// vocabulary, `[UNK]`, `##`, and at most 100 characters per word.
    pub fn new() -> (r: WordPieceBuilder)
        ensures
            r.files is None,
            r.vocab@.len() == 0,
            r.unk_token@ == "[UNK]"@,
            r.continuing_subword_prefix@ == "##"@,
            r.max_input_chars_per_word == 100,
    {
        WordPieceBuilder {
            files: None,
            vocab: Vec::new(),
            unk_token: String::from_str("[UNK]"),
            continuing_subword_prefix: String::from_str("##"),
            max_input_chars_per_word: 100,
        }
    }

    /// Set the vocabulary file path. `build` refuses a builder whose
    /// path was never turned into entries; read the file elsewhere and
    /// pass its lines through `vocab_from_lines` to `vocab`.
    pub fn files(self, vocab: String) -> (r: WordPieceBuilder)
        ensures
            r == (WordPieceBuilder { files: Some(vocab), ..self }),
    {
        WordPieceBuilder { files: Some(vocab), ..self }
    }

    /// Set the vocabulary (token -> id) entries.
    pub fn vocab(self, vocab: Vec<(String, u32)>) -> (r: WordPieceBuilder)
        ensures
            r == (WordPieceBuilder { vocab, ..self }),
    {
        WordPieceBuilder { vocab, ..self }
    }

    /// Set the unknown token.
    pub fn unk_token(self, unk_token: String) -> (r: WordPieceBuilder)
        ensures
            r == (WordPieceBuilder { unk_token, ..self }),
    {
        WordPieceBuilder { unk_token, ..self }
    }

    /// Set the prefix of continuing subword pieces.
    pub fn continuing_subword_prefix(self, continuing_subword_prefix: String) -> (r:
        WordPieceBuilder)
        ensures
            r == (WordPieceBuilder { continuing_subword_prefix, ..self }),
    {
        WordPieceBuilder { continuing_subword_prefix, ..self }
    }

    /// Set the largest word length (in characters) tokenized piecewise.
    pub fn max_input_chars_per_word(self, max_input_chars_per_word: usize) -> (r: WordPieceBuilder)
        ensures
            r == (WordPieceBuilder { max_input_chars_per_word, ..self }),
    {
        WordPieceBuilder { max_input_chars_per_word, ..self }
    }

    /// Build the model. Fails with `VocabLoad` when an unread
    /// vocabulary file path is still set, or when the entries repeat a
    /// token or an id.
    pub fn build(self) -> (r: Result<WordPiece, TokenizerError>)
        ensures
            match r {
                Ok(wp) => {
                    &&& self.files is None
                    &&& wp.wf()
                    &&& wp.vocab.spec_entries() == crate::models::vocab::entries_view(self.vocab@)
                    &&& wp.vocab@ == crate::models::vocab::entries_map(
                        crate::models::vocab::entries_view(self.vocab@),
                    )
                    &&& wp.unk_token == self.unk_token
                    &&& wp.continuing_subword_prefix == self.continuing_subword_prefix
                    &&& wp.max_input_chars_per_word == self.max_input_chars_per_word
                },
                Err(e) => e == TokenizerError::VocabLoad && (self.files is Some
                    || !crate::models::vocab::entries_unique(
                    crate::models::vocab::entries_view(self.vocab@),
                )),
            },
    {
        if self.files.is_some() {
            return Err(TokenizerError::VocabLoad);
        }
        let vocab = Vocab::from_entries(self.vocab)?;
        Ok(
            WordPiece {
                vocab,
                unk_token: self.unk_token,
                continuing_subword_prefix: self.continuing_subword_prefix,
                max_input_chars_per_word: self.max_input_chars_per_word,
            },
        )
    }
}

} // verus!
