use tokenizers::normalized::NormalizedString;
use tokenizers::pre_tokenizers::{BertPreTokenizer, CharDelimiterSplit, Metaspace, PreTokenizer};

#[test]
fn basic() {
    let pretok = BertPreTokenizer;
    let mut input = NormalizedString::from_str("Hey friend!     How are you?!?");
    let res = pretok.pre_tokenize(&mut input).unwrap();
    assert_eq!(
        &res,
        &[
            ("Hey".into(), (0, 3)),
            ("friend".into(), (4, 10)),
            ("!".into(), (10, 11)),
            ("How".into(), (16, 19)),
            ("are".into(), (20, 23)),
            ("you".into(), (24, 27)),
            ("?".into(), (27, 28)),
            ("!".into(), (28, 29)),
            ("?".into(), (29, 30)),
        ]
    );
}

#[test]
fn metaspace_basic() {
    let pretok = Metaspace::new('\u{2581}', true);
    let mut input = NormalizedString::from_str("Hey friend!");
    let res = pretok.pre_tokenize(&mut input).unwrap();
    assert_eq!(
        &res,
        &[
            ("\u{2581}Hey".into(), (0, 4)),
            ("\u{2581}friend!".into(), (4, 12)),
        ]
    );
}

#[test]
fn multiple_spaces() {
    let pretok = Metaspace::new('\u{2581}', true);
    let mut input = NormalizedString::from_str("Hey   friend!");
    let res = pretok.pre_tokenize(&mut input).unwrap();
    assert_eq!(
        &res,
        &[
            ("\u{2581}Hey".into(), (0, 4)),
            ("\u{2581}".into(), (4, 5)),
            ("\u{2581}".into(), (5, 6)),
            ("\u{2581}friend!".into(), (6, 14)),
        ]
    );
}

#[test]
fn decode() {
    let decoder = Metaspace::new('\u{2581}', true);
    let res = decoder
        .decode(vec!["\u{2581}Hey".into(), "\u{2581}friend!".into()])
        .unwrap();
    assert_eq!(&res, "Hey friend!")
}

#[test]
fn delimiter_split() {
    let pretok = CharDelimiterSplit::new(' ');
    let mut input = NormalizedString::from_str("the quick  fox");
    let res = pretok.pre_tokenize(&mut input).unwrap();
    assert_eq!(
        &res,
        &[
            ("the".into(), (0, 3)),
            ("quick".into(), (4, 9)),
            ("fox".into(), (11, 14)),
        ]
    );
}

#[test]
fn delimiter_split_offsets_are_bytes() {
    // A two-byte character before the delimiter: the second word
    // starts at byte 3, not at character 2.
    let pretok = CharDelimiterSplit::new(' ');
    let mut input = NormalizedString::from_str("\u{e9} b");
    let res = pretok.pre_tokenize(&mut input).unwrap();
    assert_eq!(&res, &[("\u{e9}".into(), (0, 2)), ("b".into(), (3, 4))]);
}

#[test]
fn metaspace_offsets_are_bytes() {
    // The scanned text carries the prefix space; every offset is a
    // byte offset into it.
    let pretok = Metaspace::new('\u{2581}', true);
    let mut input = NormalizedString::from_str("\u{e9} b");
    let res = pretok.pre_tokenize(&mut input).unwrap();
    assert_eq!(
        &res,
        &[
            ("\u{2581}\u{e9}".into(), (0, 3)),
            ("\u{2581}b".into(), (3, 5)),
        ]
    );
}

#[test]
fn bert_non_ascii_offsets_are_bytes() {
    let pretok = BertPreTokenizer;
    let mut input = NormalizedString::from_str("caf\u{e9} bar");
    let res = pretok.pre_tokenize(&mut input).unwrap();
    assert_eq!(
        &res,
        &[("caf\u{e9}".into(), (0, 5)), ("bar".into(), (6, 9))]
    );
}

#[test]
fn metaspace_decode_without_prefix_space() {
    let decoder = Metaspace::new('\u{2581}', false);
    let res = decoder
        .decode(vec!["\u{2581}Hey".into(), "\u{2581}friend!".into()])
        .unwrap();
    assert_eq!(&res, " Hey friend!")
}

#[test]
fn normalized_string_strip_and_offsets() {
    let mut input = NormalizedString::from_str("  hello  ");
    input.strip(true, true);
    assert_eq!(input.get(), "hello");
    assert_eq!(input.len(), 5);
    assert_eq!(input.len_original(), 9);
    // The normalized range maps back into the middle of the original.
    assert_eq!(input.convert_offsets(0, 5), Some((2, 7)));
}

#[test]
fn normalized_string_prepend() {
    let mut input = NormalizedString::from_str("abc");
    input.prepend(" ");
    assert_eq!(input.get(), " abc");
    assert_eq!(input.len_original(), 3);
    assert_eq!(input.convert_offsets(1, 4), Some((0, 3)));
}
