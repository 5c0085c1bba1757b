use tokenizers::added::AddedToken;
use tokenizers::error::TokenizerError;
use tokenizers::models::bpe::BPE;
use tokenizers::models::wordlevel::WordLevel;
use tokenizers::models::wordpiece::{vocab_from_lines, Error, WordPiece, WordPieceBuilder};
use tokenizers::models::ModelWrapper;
use tokenizers::normalizer::{NormalizerWrapper, Strip};
use tokenizers::padding::{PaddingDirection, PaddingParams, PaddingStrategy};
use tokenizers::pre_tokenizers::{BertPreTokenizer, PreTokenizerWrapper};
use tokenizers::tokenizer::{EncodeInput, InputSequence, Tokenizer, TokenizerBuilder};
use tokenizers::truncation::{TruncationParams, TruncationStrategy};

fn wp_vocab() -> Vec<(String, u32)> {
    vec![
        ("un".to_string(), 0),
        ("##aff".to_string(), 1),
        ("##able".to_string(), 2),
        ("[UNK]".to_string(), 3),
    ]
}

fn wordpiece(vocab: Vec<(String, u32)>) -> WordPiece {
    WordPiece::builder().vocab(vocab).build().unwrap()
}

#[test]
fn test_error_display() {
    assert!(Error::MissingUnkToken.message().contains("Missing [UNK] token"));
}

#[test]
fn wordpiece_greedy_pieces() {
    let wp = wordpiece(wp_vocab());
    let tokens = wp.tokenize(vec![("unaffable".to_string(), (0, 9))]).unwrap();
    let got: Vec<(u32, String, (usize, usize))> = tokens
        .iter()
        .map(|t| (t.id, t.value.clone(), t.offsets))
        .collect();
    assert_eq!(
        got,
        vec![
            (0, "un".to_string(), (0, 2)),
            (1, "##aff".to_string(), (2, 5)),
            (2, "##able".to_string(), (5, 9)),
        ]
    );
}

#[test]
fn wordpiece_unknown_word() {
    let wp = wordpiece(wp_vocab());
    let tokens = wp.tokenize(vec![("unknowable".to_string(), (0, 10))]).unwrap();
    let got: Vec<(u32, String, (usize, usize))> = tokens
        .iter()
        .map(|t| (t.id, t.value.clone(), t.offsets))
        .collect();
    assert_eq!(got, vec![(3, "[UNK]".to_string(), (0, 10))]);
}

#[test]
fn wordpiece_missing_unk_errors() {
    let wp = wordpiece(vec![("un".to_string(), 0)]);
    let r = wp.tokenize(vec![("xyz".to_string(), (0, 3))]);
    assert!(matches!(r, Err(TokenizerError::MissingUnkToken)));
}

#[test]
fn wordpiece_builder_rejects_duplicates() {
    let r = WordPieceBuilder::new()
        .vocab(vec![("a".to_string(), 0), ("a".to_string(), 1)])
        .build();
    assert!(matches!(r, Err(TokenizerError::VocabLoad)));
}

#[test]
fn wordpiece_vocab_from_lines() {
    let lines = vec!["hello".to_string(), "world \n".to_string()];
    let entries = vocab_from_lines(&lines);
    assert_eq!(
        entries,
        vec![("hello".to_string(), 0), ("world".to_string(), 1)]
    );
}

fn bpe_low(with_second_merge: bool) -> BPE {
    let vocab = vec![
        ("l".to_string(), 0),
        ("o".to_string(), 1),
        ("w".to_string(), 2),
        ("lo".to_string(), 3),
        ("low".to_string(), 4),
    ];
    let mut merges = vec![("l".to_string(), "o".to_string())];
    if with_second_merge {
        merges.push(("lo".to_string(), "w".to_string()));
    }
    BPE::builder().vocab_and_merges(vocab, merges).build().unwrap()
}

#[test]
fn bpe_deterministic_merges() {
    let bpe = bpe_low(true);
    let tokens = bpe.tokenize(vec![("low".to_string(), (0, 3))]).unwrap();
    let got: Vec<(u32, String)> = tokens.iter().map(|t| (t.id, t.value.clone())).collect();
    assert_eq!(got, vec![(4, "low".to_string())]);
}

#[test]
fn bpe_partial_merges() {
    let bpe = bpe_low(false);
    let tokens = bpe.tokenize(vec![("low".to_string(), (0, 3))]).unwrap();
    let got: Vec<(u32, String, (usize, usize))> = tokens
        .iter()
        .map(|t| (t.id, t.value.clone(), t.offsets))
        .collect();
    assert_eq!(
        got,
        vec![(3, "lo".to_string(), (0, 2)), (2, "w".to_string(), (2, 3))]
    );
}

#[test]
fn bpe_cache_capacity_zero_matches_default() {
    let vocab = vec![
        ("l".to_string(), 0),
        ("o".to_string(), 1),
        ("w".to_string(), 2),
        ("lo".to_string(), 3),
        ("low".to_string(), 4),
    ];
    let merges = vec![("l".to_string(), "o".to_string()), ("lo".to_string(), "w".to_string())];
    let cached = BPE::builder()
        .vocab_and_merges(vocab.clone(), merges.clone())
        .build()
        .unwrap();
    let uncached = BPE::builder()
        .vocab_and_merges(vocab, merges)
        .cache_capacity(0)
        .build()
        .unwrap();
    for _ in 0..3 {
        let a = cached.tokenize(vec![("low".to_string(), (0, 3))]).unwrap();
        let b = uncached.tokenize(vec![("low".to_string(), (0, 3))]).unwrap();
        let pa: Vec<(u32, String, (usize, usize), u32)> = a
            .iter()
            .map(|t| (t.id, t.value.clone(), t.offsets, t.word))
            .collect();
        let pb: Vec<(u32, String, (usize, usize), u32)> = b
            .iter()
            .map(|t| (t.id, t.value.clone(), t.offsets, t.word))
            .collect();
        assert_eq!(pa, pb);
    }
}

#[test]
fn wordpiece_from_bpe_takes_markers() {
    let bpe = BPE::builder()
        .vocab_and_merges(
            vec![("x".to_string(), 0), ("q".to_string(), 1)],
            vec![],
        )
        .unk_token("q".to_string())
        .continuing_subword_prefix("@@".to_string())
        .build()
        .unwrap();
    let wp = WordPiece::from_bpe(&bpe);
    assert_eq!(wp.unk_token, "q");
    assert_eq!(wp.continuing_subword_prefix, "@@");
    assert_eq!(wp.get_vocab_size(), 2);
}

fn bert_tokenizer() -> Tokenizer {
    let wp = wordpiece(vec![
        ("hello".to_string(), 0),
        ("world".to_string(), 1),
        ("[UNK]".to_string(), 2),
    ]);
    let mut t = Tokenizer::new(ModelWrapper::WordPiece(wp));
    t.with_pre_tokenizer(PreTokenizerWrapper::BertPreTokenizer(BertPreTokenizer));
    t
}

#[test]
fn added_special_token_is_atomic() {
    let mut t = bert_tokenizer();
    let added = t.add_special_tokens(&vec![AddedToken::from("[SEP]".to_string(), true)]);
    assert_eq!(added, 1);
    let enc = t
        .encode(
            EncodeInput::Single(InputSequence::Raw("hello[SEP]world".to_string())),
            false,
        )
        .unwrap();
    assert_eq!(
        enc.get_tokens(),
        &vec!["hello".to_string(), "[SEP]".to_string(), "world".to_string()]
    );
    assert_eq!(enc.get_ids(), &vec![0, 3, 1]);
    assert_eq!(enc.get_special_tokens_mask(), &vec![0, 1, 0]);
    assert_eq!(enc.get_offsets(), &vec![(0, 5), (5, 10), (10, 15)]);
    assert_eq!(enc.get_attention_mask(), &vec![1, 1, 1]);
}

#[test]
fn special_token_already_in_model_is_registered() {
    // "world" is in the model's vocabulary: registering it as special
    // keeps the model's id, still matches it atomically with the
    // special-tokens mask set, and decode can skip it.
    let mut t = bert_tokenizer();
    let added = t.add_special_tokens(&vec![AddedToken::from("world".to_string(), true)]);
    assert_eq!(added, 0);
    assert_eq!(t.get_vocab_size(true), 3);
    assert_eq!(t.token_to_id("world"), Some(1));
    let enc = t
        .encode(
            EncodeInput::Single(InputSequence::Raw("hello world".to_string())),
            false,
        )
        .unwrap();
    assert_eq!(
        enc.get_tokens(),
        &vec!["hello".to_string(), "world".to_string()]
    );
    assert_eq!(enc.get_ids(), &vec![0, 1]);
    assert_eq!(enc.get_special_tokens_mask(), &vec![0, 1]);
    let skipped = t.decode(vec![0, 1], true).unwrap();
    assert_eq!(skipped, "hello");
}

#[test]
fn normalize_merges_the_chunks() {
    let mut t = bert_tokenizer();
    t.add_special_tokens(&vec![AddedToken::from("[SEP]".to_string(), true)]);
    let ns = t.normalize("hello[SEP]world").unwrap();
    assert_eq!(ns.get(), "hello[SEP]world");
    assert_eq!(ns.len_original(), 15);
}

#[test]
fn bpe_configuration_round_trips_merge_pairs() {
    let bpe = bpe_low(true);
    assert_eq!(
        bpe.get_merges(),
        &vec![
            ("l".to_string(), "o".to_string()),
            ("lo".to_string(), "w".to_string()),
        ]
    );
}

#[test]
fn add_special_tokens_upgrades_registered_token() {
    // "pin" is first registered as an ordinary user token; re-adding
    // it through add_special_tokens must flag it special without
    // changing its id or the vocabulary size.
    let mut t = bert_tokenizer();
    let first = t.add_tokens(&vec![AddedToken {
        content: "pin".to_string(),
        single_word: false,
        lstrip: false,
        rstrip: false,
        normalized: false,
        special: false,
    }]);
    assert_eq!(first, 1);
    assert_eq!(t.token_to_id("pin"), Some(3));
    let enc = t
        .encode(
            EncodeInput::Single(InputSequence::Raw("hello pin".to_string())),
            false,
        )
        .unwrap();
    assert_eq!(enc.get_special_tokens_mask(), &vec![0, 0]);
    let second = t.add_special_tokens(&vec![AddedToken::from("pin".to_string(), true)]);
    assert_eq!(second, 0);
    assert_eq!(t.get_vocab_size(true), 4);
    assert_eq!(t.token_to_id("pin"), Some(3));
    let enc2 = t
        .encode(
            EncodeInput::Single(InputSequence::Raw("hello pin".to_string())),
            false,
        )
        .unwrap();
    assert_eq!(enc2.get_special_tokens_mask(), &vec![0, 1]);
    assert_eq!(t.decode(vec![0, 3], true).unwrap(), "hello");
    assert_eq!(t.decode(vec![0, 3], false).unwrap(), "hello pin");
}

#[test]
fn line_pieces_feeds_the_trainer_pipeline() {
    let t = wl_tokenizer();
    let pieces = t.line_pieces(&"a longer string!".to_string());
    assert_eq!(
        pieces,
        vec![
            "a".to_string(),
            "longer".to_string(),
            "string".to_string(),
            "!".to_string(),
        ]
    );
}

#[test]
fn with_trained_model_replaces_model_and_registers_specials() {
    let t = wl_tokenizer();
    let new_model = WordLevel::new(
        vec![("x".to_string(), 0), ("<unk>".to_string(), 1)],
        "<unk>".to_string(),
    )
    .unwrap();
    let t2 = t.with_trained_model(
        ModelWrapper::WordLevel(new_model),
        &vec![AddedToken::from("[EOS]".to_string(), true)],
    );
    assert_eq!(t2.get_vocab_size(false), 2);
    assert_eq!(t2.token_to_id("[EOS]"), Some(2));
    assert_eq!(t2.decode(vec![0, 2], true).unwrap(), "x");
}

#[test]
fn encode_offsets_are_bytes_of_the_input() {
    // A two-byte character in the first word: every offset is a byte
    // offset into the original input, on character boundaries.
    let wl = WordLevel::new(
        vec![
            ("caf\u{e9}".to_string(), 0),
            ("bar".to_string(), 1),
            ("<unk>".to_string(), 2),
        ],
        "<unk>".to_string(),
    )
    .unwrap();
    let mut t = Tokenizer::new(ModelWrapper::WordLevel(wl));
    t.with_pre_tokenizer(PreTokenizerWrapper::BertPreTokenizer(BertPreTokenizer));
    let input = "caf\u{e9} bar";
    let enc = t
        .encode(EncodeInput::Single(InputSequence::Raw(input.to_string())), false)
        .unwrap();
    assert_eq!(enc.get_offsets(), &vec![(0, 5), (6, 9)]);
    for (a, b) in enc.get_offsets().iter() {
        assert!(a <= b && *b <= input.len());
        assert!(input.is_char_boundary(*a) && input.is_char_boundary(*b));
    }
}

#[test]
fn adding_same_token_twice_changes_nothing() {
    let mut t = bert_tokenizer();
    let first = t.add_special_tokens(&vec![AddedToken::from("[SEP]".to_string(), true)]);
    let size_after_first = t.get_vocab_size(true);
    let second = t.add_special_tokens(&vec![AddedToken::from("[SEP]".to_string(), true)]);
    assert_eq!(first, 1);
    assert_eq!(second, 0);
    assert_eq!(t.get_vocab_size(true), size_after_first);
}

fn wl_tokenizer() -> Tokenizer {
    let wl = WordLevel::new(
        vec![
            ("a".to_string(), 0),
            ("longer".to_string(), 1),
            ("string".to_string(), 2),
            ("<unk>".to_string(), 3),
        ],
        "<unk>".to_string(),
    )
    .unwrap();
    let mut t = Tokenizer::new(ModelWrapper::WordLevel(wl));
    t.with_pre_tokenizer(PreTokenizerWrapper::BertPreTokenizer(BertPreTokenizer));
    t
}

#[test]
fn batch_longest_pads_to_common_length() {
    let mut t = wl_tokenizer();
    t.with_padding(Some(PaddingParams {
        strategy: PaddingStrategy::BatchLongest,
        direction: PaddingDirection::Right,
        pad_id: 0,
        pad_type_id: 0,
        pad_token: "[PAD]".to_string(),
    }));
    let encodings = t
        .encode_batch(
            vec![
                EncodeInput::Single(InputSequence::Raw("a".to_string())),
                EncodeInput::Single(InputSequence::Raw("a longer string".to_string())),
            ],
            false,
        )
        .unwrap();
    assert_eq!(encodings.len(), 2);
    assert_eq!(encodings[0].len(), 3);
    assert_eq!(encodings[1].len(), 3);
    assert_eq!(encodings[0].get_ids(), &vec![0, 0, 0]);
    assert_eq!(encodings[0].get_attention_mask(), &vec![1, 0, 0]);
    assert_eq!(encodings[0].get_special_tokens_mask(), &vec![0, 1, 1]);
    assert_eq!(encodings[0].get_offsets(), &vec![(0, 1), (0, 0), (0, 0)]);
}

#[test]
fn batch_matches_single_encodes() {
    let t = wl_tokenizer();
    let single = t
        .encode(
            EncodeInput::Single(InputSequence::Raw("a longer string".to_string())),
            false,
        )
        .unwrap();
    let batch = t
        .encode_batch(
            vec![
                EncodeInput::Single(InputSequence::Raw("a".to_string())),
                EncodeInput::Single(InputSequence::Raw("a longer string".to_string())),
            ],
            false,
        )
        .unwrap();
    assert_eq!(batch[1].get_ids(), single.get_ids());
    assert_eq!(batch[1].get_tokens(), single.get_tokens());
    assert_eq!(batch[1].get_offsets(), single.get_offsets());
}

#[test]
fn truncation_longest_first() {
    let mut t = wl_tokenizer();
    t.with_truncation(Some(TruncationParams {
        max_length: 2,
        strategy: TruncationStrategy::LongestFirst,
        stride: 0,
    }));
    let enc = t
        .encode(
            EncodeInput::Single(InputSequence::Raw("a longer string".to_string())),
            false,
        )
        .unwrap();
    assert_eq!(enc.len(), 2);
    assert_eq!(enc.get_tokens(), &vec!["a".to_string(), "longer".to_string()]);
    assert_eq!(enc.get_overflowing().len(), 1);
    assert_eq!(enc.get_overflowing()[0].get_tokens(), &vec!["string".to_string()]);
}

#[test]
fn truncation_only_first_fails_when_pair_is_too_long() {
    let mut t = wl_tokenizer();
    t.with_truncation(Some(TruncationParams {
        max_length: 2,
        strategy: TruncationStrategy::OnlyFirst,
        stride: 0,
    }));
    let r = t.encode(
        EncodeInput::Dual(
            InputSequence::Raw("a".to_string()),
            InputSequence::Raw("a longer string".to_string()),
        ),
        false,
    );
    assert!(matches!(r, Err(TokenizerError::TruncationError)));
}

#[test]
fn truncation_rejects_overlong_stride() {
    let mut t = wl_tokenizer();
    t.with_truncation(Some(TruncationParams {
        max_length: 2,
        strategy: TruncationStrategy::LongestFirst,
        stride: 5,
    }));
    let r = t.encode(
        EncodeInput::Single(InputSequence::Raw("a longer string".to_string())),
        false,
    );
    assert!(matches!(r, Err(TokenizerError::InvalidInput)));
}

#[test]
fn decode_skips_special_tokens() {
    let mut t = wl_tokenizer();
    t.add_special_tokens(&vec![AddedToken::from("[CLS]".to_string(), true)]);
    let with_special = t.decode(vec![4, 0, 1], false).unwrap();
    assert_eq!(with_special, "[CLS] a longer");
    let without = t.decode(vec![4, 0, 1], true).unwrap();
    assert_eq!(without, "a longer");
}

#[test]
fn round_trip_identity_setup() {
    let wl = WordLevel::new(
        vec![("hello".to_string(), 0), ("<unk>".to_string(), 1)],
        "<unk>".to_string(),
    )
    .unwrap();
    let t = Tokenizer::new(ModelWrapper::WordLevel(wl));
    let enc = t
        .encode(
            EncodeInput::Single(InputSequence::Raw("hello".to_string())),
            false,
        )
        .unwrap();
    let ids: Vec<u32> = enc.get_ids().clone();
    let back = t.decode(ids, true).unwrap();
    assert_eq!(back, "hello");
}

#[test]
fn strip_normalizer_runs_in_pipeline() {
    let wl = WordLevel::new(
        vec![("hello".to_string(), 0), ("<unk>".to_string(), 1)],
        "<unk>".to_string(),
    )
    .unwrap();
    let mut t = Tokenizer::new(ModelWrapper::WordLevel(wl));
    t.with_normalizer(NormalizerWrapper::StripNormalizer(Strip::new(true, true)));
    let enc = t
        .encode(
            EncodeInput::Single(InputSequence::Raw("  hello  ".to_string())),
            false,
        )
        .unwrap();
    assert_eq!(enc.get_tokens(), &vec!["hello".to_string()]);
    // The offsets point back into the original, unstripped text.
    assert_eq!(enc.get_offsets(), &vec![(2, 7)]);
}

#[test]
fn pre_tokenized_input_skips_the_pre_tokenizer() {
    let t = wl_tokenizer();
    let enc = t
        .encode(
            EncodeInput::Single(InputSequence::PreTokenized(vec![
                "a".to_string(),
                "longer".to_string(),
            ])),
            false,
        )
        .unwrap();
    assert_eq!(enc.get_ids(), &vec![0, 1]);
    assert_eq!(enc.get_tokens(), &vec!["a".to_string(), "longer".to_string()]);
}

#[test]
fn builder_requires_a_model() {
    let r = TokenizerBuilder::new().build();
    assert!(r.is_err());
    let wl = WordLevel::new(vec![], "<unk>".to_string()).unwrap();
    let t = match TokenizerBuilder::new().with_model(ModelWrapper::WordLevel(wl)).build() {
        Ok(t) => t,
        Err(e) => panic!("{}", e.message()),
    };
    assert_eq!(t.get_vocab_size(false), 0);
}

#[test]
fn token_and_id_lookups_cover_the_overlay() {
    let mut t = wl_tokenizer();
    t.add_special_tokens(&vec![AddedToken::from("[CLS]".to_string(), true)]);
    assert_eq!(t.token_to_id("a"), Some(0));
    assert_eq!(t.token_to_id("[CLS]"), Some(4));
    assert_eq!(t.token_to_id("absent"), None);
    assert_eq!(t.id_to_token(4), Some("[CLS]".to_string()));
    assert_eq!(t.id_to_token(2), Some("string".to_string()));
    assert_eq!(t.id_to_token(99), None);
}
