//! Pre-tokenizers: they cut the normalized text into pieces, each
//! carrying its offsets in the normalized text.

use vstd::prelude::*;

use crate::error::TokenizerError;
use crate::normalized::{NormalizedString, NsModel};
use crate::outside::{char_is_punctuation, is_uni_punctuation, is_uni_whitespace};
use crate::text::{
    utf8_len,
    byte_len, chars_to_string, lemma_byte_len_take_mono, lemma_byte_len_take_succ,
};

verus! {

/// The view of an output piece list: each piece's characters and its
/// offsets.
pub open spec fn pieces_view(v: Seq<(String, (usize, usize))>) -> Seq<(Seq<char>, (usize, usize))> {
    v.map_values(|t: (String, (usize, usize))| (t.0@, t.1))
}

/// The pre-segmentation interface of the pipeline.
pub trait PreTokenizer {
    fn pre_tokenize(&self, normalized: &mut NormalizedString) -> (r: Result<
        Vec<(String, (usize, usize))>,
        TokenizerError,
    >)
        requires
            old(normalized).wf(),
            byte_len(old(normalized)@.normalized) < usize::MAX,
        ensures
            final(normalized).wf(),
    ;
}

/// ASCII punctuation, exactly as std's `char::is_ascii_punctuation`
/// defines it.
pub open spec fn spec_is_ascii_punct(c: char) -> bool {
    ||| (0x21 <= c as u32 && c as u32 <= 0x2F)
    ||| (0x3A <= c as u32 && c as u32 <= 0x40)
    ||| (0x5B <= c as u32 && c as u32 <= 0x60)
    ||| (0x7B <= c as u32 && c as u32 <= 0x7E)
}

/// What the BERT pre-tokenizer treats as punctuation: ASCII
/// punctuation, or any Unicode punctuation category.
pub open spec fn spec_is_bert_punc(c: char) -> bool {
    spec_is_ascii_punct(c) || is_uni_punctuation(c)
}

pub fn is_bert_punc(x: char) -> (r: bool)
    ensures
        r == spec_is_bert_punc(x),
{
    let u: u32 = x as u32;
    let ascii: bool = (0x21 <= u && u <= 0x2F) || (0x3A <= u && u <= 0x40) || (0x5B <= u && u
        <= 0x60) || (0x7B <= u && u <= 0x7E);
    if ascii {
        true
    } else {
        char_is_punctuation(x)
    }
}

/// One output piece: the characters `s[from..to]` with their byte
/// offsets in `s`.
pub open spec fn byte_piece(s: Seq<char>, from: int, to: int) -> (Seq<char>, (usize, usize)) {
    (s.subrange(from, to), (byte_len(s.take(from)) as usize, byte_len(s.take(to)) as usize))
}

/// The pieces produced by scanning `s` from position `i` with a
/// pending word starting at `word_start`, splitting at delimiters
/// (`rule(c).0`) and keeping those delimiters whose `rule(c).1` holds,
/// with byte offsets.
pub open spec fn spec_split_on_from(
    s: Seq<char>,
    rule: spec_fn(char) -> (bool, bool),
    i: int,
    word_start: int,
) -> Seq<(Seq<char>, (usize, usize))>
    decreases (if i <= s.len() { s.len() - i } else { 0 }),
{
    if i < 0 || word_start < 0 || word_start > i {
        Seq::empty()
    } else if i >= s.len() {
        if word_start < s.len() {
            seq![byte_piece(s, word_start, s.len() as int)]
        } else {
            Seq::empty()
        }
    } else if rule(s[i]).0 {
        let word = if word_start < i {
            seq![byte_piece(s, word_start, i)]
        } else {
            Seq::empty()
        };
        let delim = if rule(s[i]).1 {
            seq![byte_piece(s, i, i + 1)]
        } else {
            Seq::empty()
        };
        word + delim + spec_split_on_from(s, rule, i + 1, i + 1)
    } else {
        spec_split_on_from(s, rule, i + 1, word_start)
    }
}

/// The pieces produced by splitting `s` under `rule`.
pub open spec fn spec_split_on(
    s: Seq<char>,
    rule: spec_fn(char) -> (bool, bool),
) -> Seq<(Seq<char>, (usize, usize))> {
    spec_split_on_from(s, rule, 0, 0)
}

/// Split `s` as `should_split` dictates, tracking byte offsets. For a
/// character, `should_split` answers whether to split there and
/// whether the delimiter itself is kept as a piece.
pub fn split_on<F: Fn(char) -> (bool, bool)>(
    s: &Vec<char>,
    should_split: F,
    Ghost(rule): Ghost<spec_fn(char) -> (bool, bool)>,
) -> (r: Vec<(String, (usize, usize))>)
    requires
        byte_len(s@) <= usize::MAX,
        forall|c: char| #[trigger] call_requires(should_split, (c,)),
        forall|c: char, ret: (bool, bool)| call_ensures(should_split, (c,), ret) ==> ret == rule(c),
    ensures
        pieces_view(r@) == spec_split_on(s@, rule),
{
    let n: usize = s.len();
    let mut r: Vec<(String, (usize, usize))> = Vec::new();
    let mut i: usize = 0;
    let mut word_start: usize = 0;
    let mut word_start_byte: usize = 0;
    let mut pos_byte: usize = 0;
    while i < n
        invariant
            0 <= word_start <= i <= n,
            n == s@.len(),
            pos_byte == byte_len(s@.take(i as int)),
            word_start_byte == byte_len(s@.take(word_start as int)),
            spec_split_on(s@, rule) =~= pieces_view(r@) + spec_split_on_from(
                s@,
                rule,
                i as int,
                word_start as int,
            ),
        decreases n - i,
    {
        let c = s[i];
        let (is_delim, keep_delim) = should_split(c);
        proof {
            assert((is_delim, keep_delim) == rule(c));
            lemma_byte_len_take_succ(s@, i as int);
            lemma_byte_len_take_mono(s@, i as int + 1, n as int);
            assert(s@.take(n as int) =~= s@);
        }
        let ghost r_pre = r@;
        let c_bytes = crate::text::char_len(c);
        if is_delim {
            if word_start < i {
                let w = chars_to_string(s, word_start, i);
                r.push((w, (word_start_byte, pos_byte)));
            }
            if keep_delim {
                let d = chars_to_string(s, i, i + 1);
                r.push((d, (pos_byte, pos_byte + c_bytes)));
            }
            word_start = i + 1;
            word_start_byte = pos_byte + c_bytes;
        }
        i = i + 1;
        pos_byte = pos_byte + c_bytes;
        proof {
            assert(pieces_view(r@) =~= pieces_view(r_pre) + pieces_view(
                r@.skip(r_pre.len() as int),
            ));
            assert(spec_split_on(s@, rule) =~= pieces_view(r@) + spec_split_on_from(
                s@,
                rule,
                i as int,
                word_start as int,
            ));
        }
    }
    proof {
        assert(spec_split_on_from(s@, rule, n as int, word_start as int) =~= (
        if word_start < n {
            seq![byte_piece(s@, word_start as int, n as int)]
        } else {
            Seq::empty()
        }));
    }
    if word_start < n {
        let w = chars_to_string(s, word_start, n);
        let ghost r_pre = r@;
        r.push((w, (word_start_byte, pos_byte)));
        proof {
            assert(s@.take(n as int) =~= s@);
            assert(pieces_view(r@) =~= pieces_view(r_pre).push(
                byte_piece(s@, word_start as int, n as int),
            ));
        }
    }
    proof {
        assert(pieces_view(r@) =~= spec_split_on(s@, rule));
    }
    r
}

/// The splitting rule of the BERT pre-tokenizer: split at whitespace
/// (dropped) and at punctuation (kept as its own piece).
pub open spec fn spec_bert_rule() -> spec_fn(char) -> (bool, bool) {
    |c: char|
        if is_uni_whitespace(c) {
            (true, false)
        } else if spec_is_bert_punc(c) {
            (true, true)
        } else {
            (false, false)
        }
}

/// Splits at whitespace and punctuation, the BERT way.
#[derive(Clone, Copy, Debug, PartialEq, Eq, Structural)]
pub struct BertPreTokenizer;

impl BertPreTokenizer {
    /// The pieces of the BERT split of the normalized text. The
    /// normalized text itself is left unchanged.
    pub fn split(&self, normalized: &NormalizedString) -> (r: Vec<(String, (usize, usize))>)
        requires
            normalized.wf(),
        ensures
            pieces_view(r@) == spec_split_on(normalized@.normalized, spec_bert_rule()),
    {
        let rule_fn = |c: char| -> (ret: (bool, bool))
            ensures
                ret == spec_bert_rule()(c),
            {
                if c.is_whitespace() {
                    (true, false)
                } else if is_bert_punc(c) {
                    (true, true)
                } else {
                    (false, false)
                }
            };
        split_on(normalized.get_chars(), rule_fn, Ghost(spec_bert_rule()))
    }
}

impl PreTokenizer for BertPreTokenizer {
    fn pre_tokenize(&self, normalized: &mut NormalizedString) -> (r: Result<
        Vec<(String, (usize, usize))>,
        TokenizerError,
    >) {
        Ok(self.split(normalized))
    }
}

/// The pieces of splitting `s` at the delimiter character, dropping
/// the delimiter, with byte offsets.
pub open spec fn spec_delim_split_from(s: Seq<char>, delim: char, i: int, word_start: int) -> Seq<
    (Seq<char>, (usize, usize)),
>
    decreases (if i <= s.len() { s.len() - i } else { 0 }),
{
    if i < 0 || word_start < 0 || word_start > i {
        Seq::empty()
    } else if i >= s.len() {
        if word_start < s.len() {
            seq![byte_piece(s, word_start, s.len() as int)]
        } else {
            Seq::empty()
        }
    } else if s[i] == delim {
        let word = if word_start < i {
            seq![byte_piece(s, word_start, i)]
        } else {
            Seq::empty()
        };
        word + spec_delim_split_from(s, delim, i + 1, i + 1)
    } else {
        spec_delim_split_from(s, delim, i + 1, word_start)
    }
}

pub open spec fn spec_delim_split(s: Seq<char>, delim: char) -> Seq<(Seq<char>, (usize, usize))> {
    spec_delim_split_from(s, delim, 0, 0)
}

/// Splits at every occurrence of one delimiter character, dropping it.
/// Offsets are byte offsets into the normalized text.
#[derive(Clone, Copy, Debug, PartialEq, Eq, Structural)]
pub struct CharDelimiterSplit {
    pub delimiter: char,
}

impl CharDelimiterSplit {
    pub fn new(delimiter: char) -> (r: CharDelimiterSplit)
        ensures
            r.delimiter == delimiter,
    {
        CharDelimiterSplit { delimiter }
    }

    /// The pieces of the delimiter split of the normalized text.
    pub fn split(&self, normalized: &NormalizedString) -> (r: Vec<(String, (usize, usize))>)
        requires
            normalized.wf(),
        ensures
            pieces_view(r@) == spec_delim_split(normalized@.normalized, self.delimiter),
    {
        let s = normalized.get_chars();
        let n: usize = s.len();
        let mut r: Vec<(String, (usize, usize))> = Vec::new();
        let mut i: usize = 0;
        let mut word_start: usize = 0;
        let mut word_start_byte: usize = 0;
        let mut pos_byte: usize = 0;
        while i < n
            invariant
                0 <= word_start <= i <= n,
                n == s@.len(),
                normalized.wf(),
                s@ == normalized@.normalized,
                pos_byte == byte_len(s@.take(i as int)),
                word_start_byte == byte_len(s@.take(word_start as int)),
                spec_delim_split(s@, self.delimiter) =~= pieces_view(r@) + spec_delim_split_from(
                    s@,
                    self.delimiter,
                    i as int,
                    word_start as int,
                ),
            decreases n - i,
        {
            let ghost r_pre = r@;
            proof {
                lemma_byte_len_take_succ(s@, i as int);
                lemma_byte_len_take_mono(s@, i as int + 1, n as int);
                assert(s@.take(n as int) =~= s@);
            }
            let c_bytes = crate::text::char_len(s[i]);
            if s[i] == self.delimiter {
                if word_start < i {
                    let w = chars_to_string(s, word_start, i);
                    r.push((w, (word_start_byte, pos_byte)));
                }
                word_start = i + 1;
                word_start_byte = pos_byte + c_bytes;
            }
            i = i + 1;
            pos_byte = pos_byte + c_bytes;
            proof {
                assert(pieces_view(r@) =~= pieces_view(r_pre) + pieces_view(
                    r@.skip(r_pre.len() as int),
                ));
                assert(spec_delim_split(s@, self.delimiter) =~= pieces_view(r@)
                    + spec_delim_split_from(s@, self.delimiter, i as int, word_start as int));
            }
        }
        if word_start < n {
            let w = chars_to_string(s, word_start, n);
            let ghost r_pre = r@;
            r.push((w, (word_start_byte, pos_byte)));
            proof {
                assert(s@.take(n as int) =~= s@);
                assert(pieces_view(r@) =~= pieces_view(r_pre).push(
                    byte_piece(s@, word_start as int, n as int),
                ));
            }
        }
        proof {
            assert(pieces_view(r@) =~= spec_delim_split(s@, self.delimiter));
        }
        r
    }
}

impl PreTokenizer for CharDelimiterSplit {
    fn pre_tokenize(&self, normalized: &mut NormalizedString) -> (r: Result<
        Vec<(String, (usize, usize))>,
        TokenizerError,
    >) {
        Ok(self.split(normalized))
    }
}

/// Replaces every whitespace character by the replacement character
/// and splits before each of them. Offsets are byte offsets into the
/// (possibly prepended) normalized text, spanning the characters each
/// piece stands for.
#[derive(Clone, Copy, Debug, PartialEq, Eq, Structural)]
pub struct Metaspace {
    pub replacement: char,
    pub add_prefix_space: bool,
}

impl Metaspace {
    pub fn new(replacement: char, add_prefix_space: bool) -> (r: Metaspace)
        ensures
            r.replacement == replacement,
            r.add_prefix_space == add_prefix_space,
    {
        Metaspace { replacement, add_prefix_space }
    }
}

impl Default for Metaspace {
    /// The scheme's usual configuration: a lower one-eighth block as
    /// the replacement, with a prefix space.
    fn default() -> (r: Metaspace)
        ensures
            r.replacement == '\u{2581}',
            r.add_prefix_space,
    {
        Metaspace { replacement: '\u{2581}', add_prefix_space: true }
    }
}

/// The pieces produced by the Metaspace scan from position `i`, with
/// the pending word `word` (whose characters stand one-for-one for the
/// input characters just before `i`). A piece's offsets are the byte
/// offsets, in the scanned text, of the character span its word stands
/// for.
pub open spec fn spec_ms_from(s: Seq<char>, repl: char, i: int, word: Seq<char>) -> Seq<
    (Seq<char>, (usize, usize)),
>
    decreases (if i <= s.len() { s.len() - i } else { 0 }),
{
    if i < 0 || word.len() > i {
        Seq::empty()
    } else if i >= s.len() {
        if word.len() > 0 {
            seq![
                (
                    word,
                    (
                        (byte_len(s.take(i - word.len())) as usize),
                        (byte_len(s.take(i)) as usize),
                    ),
                ),
            ]
        } else {
            Seq::empty()
        }
    } else if is_uni_whitespace(s[i]) {
        let emitted = if word.len() > 0 {
            seq![
                (
                    word,
                    (
                        (byte_len(s.take(i - word.len())) as usize),
                        (byte_len(s.take(i)) as usize),
                    ),
                ),
            ]
        } else {
            Seq::empty()
        };
        emitted + spec_ms_from(s, repl, i + 1, seq![repl])
    } else {
        spec_ms_from(s, repl, i + 1, word.push(s[i]))
    }
}

/// The pieces of the Metaspace split of `s`.
pub open spec fn spec_metaspace_split(s: Seq<char>, repl: char) -> Seq<(Seq<char>, (usize, usize))> {
    spec_ms_from(s, repl, 0, Seq::empty())
}

/// The normalized text after the Metaspace pre-tokenizer ran: a space
/// is prepended when configured and none is there yet.
pub open spec fn spec_ms_ns(p: Metaspace, m: NsModel) -> NsModel {
    if p.add_prefix_space && !(m.normalized.len() > 0 && m.normalized.first() == ' ') {
        crate::normalized::spec_prepended(m, seq![' '])
    } else {
        m
    }
}

impl Metaspace {
    /// Prepend a space when configured, then split before each
    /// whitespace character, standing a replacement character in for
    /// it.
    #[verifier::rlimit(100)]
    pub fn split(&self, normalized: &mut NormalizedString) -> (r: Vec<(String, (usize, usize))>)
        requires
            old(normalized).wf(),
            byte_len(old(normalized)@.normalized) < usize::MAX,
        ensures
            final(normalized)@ == spec_ms_ns(*self, old(normalized)@),
            final(normalized).wf(),
            pieces_view(r@) == spec_metaspace_split(final(normalized)@.normalized, self.replacement),
    {
        let needs_prefix: bool = if self.add_prefix_space {
            let chars = normalized.get_chars();
            if chars.len() == 0 {
                true
            } else {
                chars[0] != ' '
            }
        } else {
            false
        };
        if needs_prefix {
            proof {
                reveal_strlit(" ");
                assert(" "@ =~= seq![' ']);
                assert(byte_len(seq![' ']) == 1) by {
                    assert(byte_len(Seq::<char>::empty()) == 0);
                    assert(seq![' '].drop_last() =~= Seq::<char>::empty());
                    assert(seq![' '].last() == ' ');
                    assert(' ' as u32 == 32);
                    assert(utf8_len(' ') == 1);
                }
            }
            normalized.prepend(" ");
        }
        let s = normalized.get_chars();
        let ghost sv = s@;
        let n: usize = s.len();
        let mut r: Vec<(String, (usize, usize))> = Vec::new();
        let mut word: Vec<char> = Vec::new();
        let mut i: usize = 0;
        let mut pos_byte: usize = 0;
        let mut word_start_byte: usize = 0;
        while i < n
            invariant
                n == sv.len(),
                s@ == sv,
                normalized.wf(),
                sv == normalized@.normalized,
                0 <= i <= n,
                word@.len() <= i,
                pos_byte == byte_len(sv.take(i as int)),
                word_start_byte == byte_len(sv.take(i - word@.len())),
                spec_metaspace_split(sv, self.replacement) =~= pieces_view(r@) + spec_ms_from(
                    sv,
                    self.replacement,
                    i as int,
                    word@,
                ),
            decreases n - i,
        {
            let c = s[i];
            let ghost r_pre = r@;
            proof {
                lemma_byte_len_take_succ(sv, i as int);
                lemma_byte_len_take_mono(sv, i as int + 1, n as int);
                assert(sv.take(n as int) =~= sv);
            }
            let c_bytes = crate::text::char_len(c);
            if c.is_whitespace() {
                if word.len() > 0 {
                    let wlen: usize = word.len();
                    let w = chars_to_string(&word, 0, wlen);
                    proof {
                        assert(word@.subrange(0, word@.len() as int) =~= word@);
                    }
                    r.push((w, (word_start_byte, pos_byte)));
                    word = Vec::new();
                }
                word.push(self.replacement);
                word_start_byte = pos_byte;
                proof {
                    assert(word@ =~= seq![self.replacement]);
                }
            } else {
                if word.len() == 0 {
                    word_start_byte = pos_byte;
                }
                word.push(c);
            }
            i = i + 1;
            pos_byte = pos_byte + c_bytes;
            proof {
                assert(pieces_view(r@) =~= pieces_view(r_pre) + pieces_view(
                    r@.skip(r_pre.len() as int),
                ));
                assert(spec_metaspace_split(sv, self.replacement) =~= pieces_view(r@)
                    + spec_ms_from(sv, self.replacement, i as int, word@));
            }
        }
        if word.len() > 0 {
            let wlen: usize = word.len();
            let w = chars_to_string(&word, 0, wlen);
            proof {
                assert(word@.subrange(0, word@.len() as int) =~= word@);
                assert(sv.take(n as int) =~= sv);
            }
            let ghost r_pre = r@;
            r.push((w, (word_start_byte, pos_byte)));
            proof {
                assert(pieces_view(r@) =~= pieces_view(r_pre).push(
                    (
                        word@,
                        (
                            (byte_len(sv.take(n - word@.len())) as usize),
                            (byte_len(sv.take(n as int)) as usize),
                        ),
                    ),
                ));
            }
        }
        proof {
            assert(pieces_view(r@) =~= spec_metaspace_split(sv, self.replacement));
        }
        r
    }
}

impl PreTokenizer for Metaspace {
    fn pre_tokenize(&self, normalized: &mut NormalizedString) -> (r: Result<
        Vec<(String, (usize, usize))>,
        TokenizerError,
    >) {
        Ok(self.split(normalized))
    }
}

/// The decoded text of a Metaspace token sequence whose concatenated
/// characters are `all`: replacement characters become spaces, except
/// a leading one that only stands for the prepended prefix space.
pub open spec fn spec_ms_decode(all: Seq<char>, repl: char, add_prefix_space: bool) -> Seq<char> {
    if all.len() == 0 {
        Seq::empty()
    } else {
        let head = if all[0] == repl {
            if add_prefix_space {
                Seq::<char>::empty()
            } else {
                seq![' ']
            }
        } else {
            seq![all[0]]
        };
        head + all.skip(1).map_values(
            |c: char|
                if c == repl {
                    ' '
                } else {
                    c
                },
        )
    }
}

/// The characters of all the strings of `v`, in order.
pub open spec fn concat_chars(v: Seq<Seq<char>>) -> Seq<char>
    decreases v.len(),
{
    if v.len() == 0 {
        Seq::empty()
    } else {
        concat_chars(v.drop_last()) + v.last()
    }
}

impl Metaspace {
    /// Join the given token strings back into text, turning the
    /// replacement character back into spaces.
    pub fn decode(&self, tokens: Vec<String>) -> (r: Result<String, TokenizerError>)
        ensures
            r is Ok,
            (r->Ok_0)@ == spec_ms_decode(
                concat_chars(tokens.deep_view()),
                self.replacement,
                self.add_prefix_space,
            ),
    {
        let mut all: Vec<char> = Vec::new();
        let nt: usize = tokens.len();
        let mut t: usize = 0;
        while t < nt
            invariant
                nt == tokens@.len(),
                0 <= t <= nt,
                all@ =~= concat_chars(tokens.deep_view().take(t as int)),
            decreases nt - t,
        {
            let mut cs = crate::text::str_chars(tokens[t].as_str());
            all.append(&mut cs);
            t = t + 1;
            proof {
                let tv = tokens.deep_view();
                assert(tv.take(t as int).drop_last() =~= tv.take(t as int - 1));
                assert(tv.take(t as int).last() == tv[t as int - 1]);
                assert(tv[t as int - 1] == tokens@[t as int - 1]@);
                assert(all@ =~= concat_chars(tv.take(t as int)));
            }
        }
        proof {
            assert(tokens.deep_view().take(nt as int) =~= tokens.deep_view());
        }
        let ghost av = all@;
        let n: usize = all.len();
        let mut out: Vec<char> = Vec::new();
        let mut i: usize = 0;
        while i < n
            invariant
                n == av.len(),
                all@ == av,
                0 <= i <= n,
                i == 0 ==> out@.len() == 0,
                i > 0 ==> out@ =~= spec_ms_decode(
                    av.take(i as int),
                    self.replacement,
                    self.add_prefix_space,
                ),
            decreases n - i,
        {
            let c = all[i];
            if c == self.replacement {
                if i == 0 && self.add_prefix_space {
                    // The leading replacement only marks the prefix space.
                } else {
                    out.push(' ');
                }
            } else {
                out.push(c);
            }
            i = i + 1;
            proof {
                assert(out@ =~= spec_ms_decode(
                    av.take(i as int),
                    self.replacement,
                    self.add_prefix_space,
                )) by {
                    let tk = av.take(i as int);
                    if i as int == 1 {
                        assert(tk.skip(1) =~= Seq::<char>::empty());
                    } else {
                        assert(tk.skip(1).map_values(
                            |c: char|
                                if c == self.replacement {
                                    ' '
                                } else {
                                    c
                                },
                        ) =~= av.take(i as int - 1).skip(1).map_values(
                            |c: char|
                                if c == self.replacement {
                                    ' '
                                } else {
                                    c
                                },
                        ).push(
                            if av[i as int - 1] == self.replacement {
                                ' '
                            } else {
                                av[i as int - 1]
                            },
                        ));
                    }
                }
            }
        }
        proof {
            assert(av.take(n as int) =~= av);
            if n == 0 {
                assert(out@ =~= spec_ms_decode(av, self.replacement, self.add_prefix_space));
            }
        }
        let outn: usize = out.len();
        let s = chars_to_string(&out, 0, outn);
        proof {
            assert(out@.subrange(0, out@.len() as int) =~= out@);
        }
        Ok(s)
    }
}

/// The set of pre-tokenizers this pipeline ships.
#[derive(Clone, Copy, Debug, PartialEq, Eq, Structural)]
pub enum PreTokenizerWrapper {
    BertPreTokenizer(BertPreTokenizer),
    Delimiter(CharDelimiterSplit),
    Metaspace(Metaspace),
}

/// The normalized text after the given pre-tokenizer ran: only
/// Metaspace may change it (by prepending its prefix space).
pub open spec fn spec_pretok_ns(w: PreTokenizerWrapper, m: NsModel) -> NsModel {
    match w {
        PreTokenizerWrapper::BertPreTokenizer(_) => m,
        PreTokenizerWrapper::Delimiter(_) => m,
        PreTokenizerWrapper::Metaspace(p) => spec_ms_ns(p, m),
    }
}

/// The pieces the given pre-tokenizer cuts `m` into.
pub open spec fn spec_pretok_pieces(w: PreTokenizerWrapper, m: NsModel) -> Seq<
    (Seq<char>, (usize, usize)),
> {
    match w {
        PreTokenizerWrapper::BertPreTokenizer(_) => spec_split_on(m.normalized, spec_bert_rule()),
        PreTokenizerWrapper::Delimiter(d) => spec_delim_split(m.normalized, d.delimiter),
        PreTokenizerWrapper::Metaspace(p) => spec_metaspace_split(
            spec_ms_ns(p, m).normalized,
            p.replacement,
        ),
    }
}

impl PreTokenizerWrapper {
    /// Apply this pre-tokenizer. Never fails.
    pub fn apply(&self, normalized: &mut NormalizedString) -> (r: Vec<(String, (usize, usize))>)
        requires
            old(normalized).wf(),
            byte_len(old(normalized)@.normalized) < usize::MAX,
        ensures
            final(normalized)@ == spec_pretok_ns(*self, old(normalized)@),
            final(normalized).wf(),
            pieces_view(r@) == spec_pretok_pieces(*self, old(normalized)@),
    {
        match self {
            PreTokenizerWrapper::BertPreTokenizer(b) => b.split(normalized),
            PreTokenizerWrapper::Delimiter(d) => d.split(normalized),
            PreTokenizerWrapper::Metaspace(p) => p.split(normalized),
        }
    }
}

/// Every piece of a splitter's output is bounded by the input: at most
/// `2n + 1` pieces, ordered offsets within the input's byte length,
/// and piece strings no longer than four bytes per input character.
pub open spec fn pieces_bounded(ps: Seq<(Seq<char>, (usize, usize))>, s: Seq<char>) -> bool {
    &&& ps.len() <= 2 * s.len() + 1
    &&& forall|k: int| 0 <= k < ps.len() ==> (#[trigger] ps[k]).1.0 <= ps[k].1.1 <= byte_len(s)
    &&& forall|k: int| 0 <= k < ps.len() ==> byte_len((#[trigger] ps[k]).0) <= 4 * byte_len(s)
}

/// Bytes per character are at most four.
pub proof fn lemma_byte_len_le_4len(s: Seq<char>)
    ensures
        s.len() <= byte_len(s) <= 4 * s.len(),
    decreases s.len(),
{
    if s.len() > 0 {
        lemma_byte_len_le_4len(s.drop_last());
    }
}

/// Byte length of any subrange is at most the whole.
pub proof fn lemma_byte_len_subrange_le(s: Seq<char>, a: int, b: int)
    requires
        0 <= a <= b <= s.len(),
    ensures
        byte_len(s.subrange(a, b)) <= byte_len(s),
        byte_len(s.subrange(a, b)) == byte_len(s.take(b)) - byte_len(s.take(a)),
{
    assert(s.take(b) =~= s.take(a) + s.subrange(a, b));
    crate::text::lemma_byte_len_concat(s.take(a), s.subrange(a, b));
    crate::text::lemma_byte_len_take_mono(s, b, s.len() as int);
    assert(s.take(s.len() as int) =~= s);
}

pub proof fn lemma_split_on_bounded(
    s: Seq<char>,
    rule: spec_fn(char) -> (bool, bool),
    i: int,
    word_start: int,
)
    requires
        byte_len(s) <= usize::MAX,
    ensures
        spec_split_on_from(s, rule, i, word_start).len() <= 2 * (if i <= s.len() {
            s.len() - i
        } else {
            0
        }) + 1,
        forall|k: int| 0 <= k < spec_split_on_from(s, rule, i, word_start).len() ==> {
            let p = #[trigger] spec_split_on_from(s, rule, i, word_start)[k];
            p.1.0 <= p.1.1 <= byte_len(s) && byte_len(p.0) <= 4 * byte_len(s)
        },
    decreases (if i <= s.len() { s.len() - i } else { 0 }),
{
    let ps = spec_split_on_from(s, rule, i, word_start);
    if i < 0 || word_start < 0 || word_start > i {
    } else if i >= s.len() {
        if word_start < s.len() {
            lemma_piece_bounded(s, word_start, s.len() as int);
        }
    } else if rule(s[i]).0 {
        lemma_split_on_bounded(s, rule, i + 1, i + 1);
        if word_start < i {
            lemma_piece_bounded(s, word_start, i);
        }
        if rule(s[i]).1 {
            lemma_piece_bounded(s, i, i + 1);
        }
        let rest = spec_split_on_from(s, rule, i + 1, i + 1);
        assert forall|k: int| 0 <= k < ps.len() implies {
            let p = #[trigger] ps[k];
            p.1.0 <= p.1.1 <= byte_len(s) && byte_len(p.0) <= 4 * byte_len(s)
        } by {
            let hl = ps.len() - rest.len();
            if k >= hl {
                assert(ps[k] == rest[k - hl]);
                assert(rest[k - hl].1.0 <= rest[k - hl].1.1 <= byte_len(s) && byte_len(
                    rest[k - hl].0,
                ) <= 4 * byte_len(s));
            }
        }
    } else {
        lemma_split_on_bounded(s, rule, i + 1, word_start);
    }
}

/// One byte-offset piece is bounded.
pub proof fn lemma_piece_bounded(s: Seq<char>, a: int, b: int)
    requires
        0 <= a <= b <= s.len(),
        byte_len(s) <= usize::MAX,
    ensures
        byte_piece(s, a, b).1.0 <= byte_piece(s, a, b).1.1 <= byte_len(s),
        byte_len(byte_piece(s, a, b).0) <= 4 * byte_len(s),
{
    crate::text::lemma_byte_len_take_mono(s, a, b);
    crate::text::lemma_byte_len_take_mono(s, b, s.len() as int);
    assert(s.take(s.len() as int) =~= s);
    lemma_byte_len_subrange_le(s, a, b);
}

pub proof fn lemma_delim_split_bounded(s: Seq<char>, delim: char, i: int, word_start: int)
    requires
        byte_len(s) <= usize::MAX,
    ensures
        spec_delim_split_from(s, delim, i, word_start).len() <= 2 * (if i <= s.len() {
            s.len() - i
        } else {
            0
        }) + 1,
        forall|k: int| 0 <= k < spec_delim_split_from(s, delim, i, word_start).len() ==> {
            let p = #[trigger] spec_delim_split_from(s, delim, i, word_start)[k];
            p.1.0 <= p.1.1 <= byte_len(s) && byte_len(p.0) <= 4 * byte_len(s)
        },
    decreases (if i <= s.len() { s.len() - i } else { 0 }),
{
    lemma_byte_len_le_4len(s);
    let ps = spec_delim_split_from(s, delim, i, word_start);
    if i < 0 || word_start < 0 || word_start > i {
    } else if i >= s.len() {
        if word_start < s.len() {
            lemma_piece_bounded(s, word_start, s.len() as int);
        }
    } else if s[i] == delim {
        lemma_delim_split_bounded(s, delim, i + 1, i + 1);
        if word_start < i {
            lemma_piece_bounded(s, word_start, i);
        }
        let rest = spec_delim_split_from(s, delim, i + 1, i + 1);
        assert forall|k: int| 0 <= k < ps.len() implies {
            let p = #[trigger] ps[k];
            p.1.0 <= p.1.1 <= byte_len(s) && byte_len(p.0) <= 4 * byte_len(s)
        } by {
            let hl = ps.len() - rest.len();
            if k >= hl {
                assert(ps[k] == rest[k - hl]);
                assert(rest[k - hl].1.0 <= rest[k - hl].1.1 <= byte_len(s) && byte_len(
                    rest[k - hl].0,
                ) <= 4 * byte_len(s));
            }
        }
    } else {
        lemma_delim_split_bounded(s, delim, i + 1, word_start);
    }
}

pub proof fn lemma_ms_bounded(s: Seq<char>, repl: char, i: int, word: Seq<char>)
    requires
        word.len() <= i <= s.len(),
        byte_len(s) <= usize::MAX,
    ensures
        spec_ms_from(s, repl, i, word).len() <= (if i <= s.len() {
            s.len() - i
        } else {
            0
        }) + 1,
        forall|k: int| 0 <= k < spec_ms_from(s, repl, i, word).len() ==> {
            let p = #[trigger] spec_ms_from(s, repl, i, word)[k];
            p.1.0 <= p.1.1 <= byte_len(s) && byte_len(p.0) <= 4 * byte_len(s)
        },
    decreases (if i <= s.len() { s.len() - i } else { 0 }),
{
    lemma_byte_len_le_4len(s);
    let ps = spec_ms_from(s, repl, i, word);
    if i < 0 || word.len() > i {
    } else if i >= s.len() {
        if word.len() > 0 {
            lemma_byte_len_le_4len(word);
            lemma_byte_len_take_mono(s, i - word.len(), i);
            lemma_byte_len_take_mono(s, i, s.len() as int);
            assert(s.take(s.len() as int) =~= s);
        }
    } else if is_uni_whitespace(s[i]) {
        if word.len() > 0 {
            lemma_byte_len_le_4len(word);
            lemma_byte_len_take_mono(s, i - word.len(), i);
            lemma_byte_len_take_mono(s, i, s.len() as int);
            assert(s.take(s.len() as int) =~= s);
        }
        lemma_ms_bounded(s, repl, i + 1, seq![repl]);
        let rest = spec_ms_from(s, repl, i + 1, seq![repl]);
        assert forall|k: int| 0 <= k < ps.len() implies {
            let p = #[trigger] ps[k];
            p.1.0 <= p.1.1 <= byte_len(s) && byte_len(p.0) <= 4 * byte_len(s)
        } by {
            let hl = ps.len() - rest.len();
            if k >= hl {
                assert(ps[k] == rest[k - hl]);
                assert(rest[k - hl].1.0 <= rest[k - hl].1.1 <= byte_len(s) && byte_len(
                    rest[k - hl].0,
                ) <= 4 * byte_len(s));
            }
        }
    } else {
        lemma_ms_bounded(s, repl, i + 1, word.push(s[i]));
    }
}

/// Every piece of `split_on` is a byte sub-range of the text: its
/// offsets are ordered within the byte length, and its string's byte
/// length is exactly its span.
pub proof fn lemma_split_on_fit(
    s: Seq<char>,
    rule: spec_fn(char) -> (bool, bool),
    i: int,
    word_start: int,
)
    requires
        byte_len(s) <= usize::MAX,
    ensures
        crate::models::pieces_fit(spec_split_on_from(s, rule, i, word_start), byte_len(s) as int),
    decreases (if i <= s.len() { s.len() - i } else { 0 }),
{
    let ps = spec_split_on_from(s, rule, i, word_start);
    if i < 0 || word_start < 0 || word_start > i {
    } else if i >= s.len() {
        if word_start < s.len() {
            lemma_piece_fit(s, word_start, s.len() as int);
        }
    } else if rule(s[i]).0 {
        lemma_split_on_fit(s, rule, i + 1, i + 1);
        if word_start < i {
            lemma_piece_fit(s, word_start, i);
        }
        if rule(s[i]).1 {
            lemma_piece_fit(s, i, i + 1);
        }
        let rest = spec_split_on_from(s, rule, i + 1, i + 1);
        assert forall|k: int| 0 <= k < ps.len() implies (#[trigger] ps[k]).1.0 <= ps[k].1.1
            <= byte_len(s) && ps[k].1.0 + byte_len(ps[k].0) <= byte_len(s) by {
            let hl = ps.len() - rest.len();
            if k >= hl {
                assert(ps[k] == rest[k - hl]);
                assert(rest[k - hl].1.0 <= rest[k - hl].1.1 <= byte_len(s) && rest[k - hl].1.0
                    + byte_len(rest[k - hl].0) <= byte_len(s));
            }
        }
    } else {
        lemma_split_on_fit(s, rule, i + 1, word_start);
    }
}

/// One byte piece is a sub-range: its start plus its string's byte
/// length is its end.
pub proof fn lemma_piece_fit(s: Seq<char>, a: int, b: int)
    requires
        0 <= a <= b <= s.len(),
        byte_len(s) <= usize::MAX,
    ensures
        byte_piece(s, a, b).1.0 <= byte_piece(s, a, b).1.1 <= byte_len(s),
        byte_piece(s, a, b).1.0 + byte_len(byte_piece(s, a, b).0) <= byte_len(s),
{
    crate::text::lemma_byte_len_take_mono(s, a, b);
    crate::text::lemma_byte_len_take_mono(s, b, s.len() as int);
    assert(s.take(s.len() as int) =~= s);
    lemma_byte_len_subrange_le(s, a, b);
}

/// Every wrapper's output is bounded by the text it split.
pub proof fn lemma_pretok_pieces_bounded(w: PreTokenizerWrapper, m: NsModel)
    requires
        byte_len(m.normalized) < usize::MAX,
    ensures
        pieces_bounded(spec_pretok_pieces(w, m), spec_pretok_ns(w, m).normalized),
{
    match w {
        PreTokenizerWrapper::BertPreTokenizer(_) => {
            lemma_split_on_bounded(m.normalized, spec_bert_rule(), 0, 0);
        },
        PreTokenizerWrapper::Delimiter(d) => {
            lemma_delim_split_bounded(m.normalized, d.delimiter, 0, 0);
        },
        PreTokenizerWrapper::Metaspace(p) => {
            assert(byte_len(spec_ms_ns(p, m).normalized) <= usize::MAX) by {
                if p.add_prefix_space && !(m.normalized.len() > 0 && m.normalized.first() == ' ') {
                    crate::text::lemma_byte_len_concat(seq![' '], m.normalized);
                    assert(byte_len(seq![' ']) == 1) by {
                        assert(seq![' '].drop_last() =~= Seq::<char>::empty());
                        assert(byte_len(Seq::<char>::empty()) == 0);
                        assert(seq![' '].last() == ' ');
                        assert(utf8_len(' ') == 1);
                    }
                }
            }
            lemma_ms_bounded(spec_ms_ns(p, m).normalized, p.replacement, 0, Seq::empty());
        },
    }
}

impl PreTokenizer for PreTokenizerWrapper {
    fn pre_tokenize(&self, normalized: &mut NormalizedString) -> (r: Result<
        Vec<(String, (usize, usize))>,
        TokenizerError,
    >) {
        Ok(self.apply(normalized))
    }
}

} // verus!
