//! Truncation of encodings to a maximum length, with overflowing
//! windows re-emitting the dropped tail.

use vstd::prelude::*;

use crate::encoding::{copy_range, clone_strings_range, EncModel, EncRows, Encoding};
use crate::error::TokenizerError;

verus! {

#[derive(Clone, Copy, Debug, PartialEq, Eq, Structural)]
pub enum TruncationStrategy {
    LongestFirst,
    OnlyFirst,
    OnlySecond,
}

#[derive(Clone, Copy, Debug)]
pub struct TruncationParams {
    pub max_length: usize,
    pub strategy: TruncationStrategy,
    pub stride: usize,
}

/// The overflow windows of `rows`, starting at `start` and sliding by
/// `step`, each of width at most `max_len`.
pub open spec fn spec_windows(rows: EncRows, max_len: int, step: int, start: int) -> Seq<EncRows>
    decreases (if rows.len() >= start { rows.len() - start } else { 0 }),
{
    if start >= rows.len() || step < 1 || start < 0 || max_len < 0 {
        Seq::empty()
    } else {
        let end = if start + max_len <= rows.len() {
            start + max_len
        } else {
            rows.len() as int
        };
        seq![rows.slice(start, end)] + spec_windows(rows, max_len, step, start + step)
    }
}

/// An encoding truncated to `max_len` positions. When it was longer,
/// the previous overflow list is replaced by the sliding windows over
/// the original rows.
pub open spec fn spec_truncated(m: EncModel, max_len: int, stride: int) -> EncModel {
    if m.rows.len() <= max_len {
        m
    } else if max_len == 0 {
        EncModel { rows: EncRows::empty(), overflowing: seq![m.rows] }
    } else {
        EncModel {
            rows: m.rows.slice(0, max_len),
            overflowing: spec_windows(m.rows, max_len, max_len - stride, max_len - stride),
        }
    }
}

/// Target lengths for `LongestFirst`: repeatedly drop one position from
/// the longer side (ties favour dropping from the second) until the
/// total fits.
pub open spec fn spec_longest_first(a: int, b: int, max: int) -> (int, int)
    decreases (if 0 <= a + b { a + b } else { 0 }),
{
    if a < 0 || b < 0 || max < 0 || a + b <= max {
        (a, b)
    } else if a > b {
        spec_longest_first(a - 1, b, max)
    } else {
        spec_longest_first(a, b - 1, max)
    }
}

/// The result of truncating a single encoding or a pair under `p`:
/// `Err` when the pair cannot fit by dropping from the designated side
/// only, or when the stride does not leave the windows a positive step.
pub open spec fn spec_truncate_encodings(
    a: EncModel,
    b: Option<EncModel>,
    p: TruncationParams,
) -> Result<(EncModel, Option<EncModel>), TokenizerError> {
    let alen = a.rows.len() as int;
    let blen = if b is Some {
        b->0.rows.len() as int
    } else {
        0
    };
    if alen + blen <= p.max_length {
        Ok((a, b))
    } else if p.stride != 0 && p.stride >= p.max_length {
        Err(TokenizerError::InvalidInput)
    } else {
        match p.strategy {
            TruncationStrategy::LongestFirst => {
                let t = spec_longest_first(alen, blen, p.max_length as int);
                Ok(
                    (
                        spec_truncated(a, t.0, p.stride as int),
                        match b {
                            Some(bm) => Some(spec_truncated(bm, t.1, p.stride as int)),
                            None => None,
                        },
                    ),
                )
            },
            TruncationStrategy::OnlyFirst => {
                if blen > p.max_length {
                    Err(TokenizerError::TruncationError)
                } else {
                    Ok((spec_truncated(a, p.max_length - blen, p.stride as int), b))
                }
            },
            TruncationStrategy::OnlySecond => {
                match b {
                    Some(bm) => {
                        if alen > p.max_length {
                            Err(TokenizerError::TruncationError)
                        } else {
                            Ok((a, Some(spec_truncated(bm, p.max_length - alen, p.stride as int))))
                        }
                    },
                    None => Err(TokenizerError::TruncationError),
                }
            },
        }
    }
}

impl Encoding {
    /// Truncate to at most `max_len` positions; the dropped tail is
    /// re-emitted as overflowing windows sliding by `max_len - stride`.
    pub fn truncate(&mut self, max_len: usize, stride: usize)
        requires
            old(self).wf(),
        ensures
            final(self)@ == spec_truncated(old(self)@, max_len as int, stride as int),
            final(self).wf(),
    {
        let n: usize = self.ids.len();
        if n <= max_len {
            return ;
        }
        if max_len == 0 {
            let whole = self.window(0, n);
            self.ids.clear();
            self.type_ids.clear();
            self.tokens.clear();
            self.words.clear();
            self.offsets.clear();
            self.special_tokens_mask.clear();
            self.attention_mask.clear();
            let mut over: Vec<Encoding> = Vec::new();
            over.push(whole);
            self.overflowing = over;
            proof {
                assert(self@.rows =~~= EncRows::empty());
                assert(self@.overflowing =~~= seq![old(self)@.rows]);
            }
            return ;
        }
        let ghost rows0 = self@.rows;
        let mut over: Vec<Encoding> = Vec::new();
        if stride >= max_len {
            // No positive step is left for the windows: drop the tail.
            self.ids.truncate(max_len);
            self.type_ids.truncate(max_len);
            self.tokens.truncate(max_len);
            self.words.truncate(max_len);
            self.offsets.truncate(max_len);
            self.special_tokens_mask.truncate(max_len);
            self.attention_mask.truncate(max_len);
            self.overflowing = over;
            proof {
                assert(self.tokens.deep_view() =~= rows0.tokens.subrange(0, max_len as int)) by {
                    assert forall|j: int| 0 <= j < max_len as int implies self.tokens.deep_view()[j]
                        == rows0.tokens.subrange(0, max_len as int)[j] by {
                        assert(self.tokens.deep_view()[j] == self.tokens@[j]@);
                    }
                }
                assert(self@.rows =~~= spec_truncated(old(self)@, max_len as int, stride as int).rows);
                assert(self@.overflowing =~= Seq::<EncRows>::empty());
                assert(spec_windows(rows0, max_len as int, max_len - stride, max_len - stride)
                    =~= Seq::<EncRows>::empty());
                assert(self@.overflowing =~~= spec_truncated(
                    old(self)@,
                    max_len as int,
                    stride as int,
                ).overflowing);
            }
            return ;
        }
        let step: usize = max_len - stride;
        let mut start: usize = step;
        while start < n
            invariant
                n == rows0.len(),
                self@.rows == rows0,
                self.wf(),
                step == max_len - stride,
                1 <= step <= max_len,
                step <= start,
                spec_windows(rows0, max_len as int, step as int, step as int) =~= over@.map_values(
                    |e: Encoding| e.rows_view(),
                ) + spec_windows(rows0, max_len as int, step as int, start as int),
                forall|j: int| 0 <= j < over@.len() ==> (#[trigger] over@[j]).wf(),
                forall|j: int| 0 <= j < over@.len() ==> (#[trigger] over@[j]).overflowing@.len() == 0,
            decreases n - start,
        {
            let end: usize = if max_len < n - start {
                start + max_len
            } else {
                n
            };
            let ghost over_pre = over@;
            let w = self.window(start, end);
            over.push(w);
            proof {
                assert(over@.map_values(|e: Encoding| e.rows_view()) =~= over_pre.map_values(
                    |e: Encoding| e.rows_view(),
                ).push(w.rows_view()));
                assert(spec_windows(rows0, max_len as int, step as int, start as int)
                    == seq![rows0.slice(start as int, end as int)] + spec_windows(
                    rows0,
                    max_len as int,
                    step as int,
                    start + step,
                ));
            }
            let ghost start_pre = start as int;
            if step < n - start {
                start = start + step;
            } else {
                start = n;
            }
            proof {
                assert(spec_windows(rows0, max_len as int, step as int, start_pre + step)
                    =~= spec_windows(rows0, max_len as int, step as int, start as int));
            }
        }
        self.ids.truncate(max_len);
        self.type_ids.truncate(max_len);
        self.tokens.truncate(max_len);
        self.words.truncate(max_len);
        self.offsets.truncate(max_len);
        self.special_tokens_mask.truncate(max_len);
        self.attention_mask.truncate(max_len);
        self.overflowing = over;
        proof {
            assert(spec_windows(rows0, max_len as int, step as int, start as int)
                =~= Seq::<EncRows>::empty());
            assert(self.tokens.deep_view() =~= rows0.tokens.subrange(0, max_len as int)) by {
                assert forall|j: int| 0 <= j < max_len as int implies self.tokens.deep_view()[j]
                    == rows0.tokens.subrange(0, max_len as int)[j] by {
                    assert(self.tokens.deep_view()[j] == self.tokens@[j]@);
                }
            }
            assert(self@.rows =~~= spec_truncated(old(self)@, max_len as int, stride as int).rows);
            assert(self@.overflowing =~~= spec_truncated(
                old(self)@,
                max_len as int,
                stride as int,
            ).overflowing);
        }
    }

    /// A fresh encoding holding a copy of positions `[start, end)` of
    /// this one, with no overflowing of its own.
    fn window(&self, start: usize, end: usize) -> (r: Encoding)
        requires
            self.wf(),
            start <= end <= self@.rows.len(),
        ensures
            r.rows_view() == self@.rows.slice(start as int, end as int),
            r@.overflowing.len() == 0,
            r.wf(),
            r.overflowing@.len() == 0,
    {
        let r = Encoding {
            ids: copy_range(&self.ids, start, end),
            type_ids: copy_range(&self.type_ids, start, end),
            tokens: clone_strings_range(&self.tokens, start, end),
            words: copy_range(&self.words, start, end),
            offsets: copy_range(&self.offsets, start, end),
            special_tokens_mask: copy_range(&self.special_tokens_mask, start, end),
            attention_mask: copy_range(&self.attention_mask, start, end),
            overflowing: Vec::new(),
        };
        proof {
            assert(r.rows_view() =~~= self@.rows.slice(start as int, end as int));
            assert(r@.overflowing =~= Seq::<EncRows>::empty());
        }
        r
    }
}

/// Truncate a single encoding or a pair so that the total length is at
/// most `params.max_length`.
pub fn truncate_encodings(
    encoding: Encoding,
    pair_encoding: Option<Encoding>,
    params: &TruncationParams,
) -> (r: Result<(Encoding, Option<Encoding>), TokenizerError>)
    requires
        encoding.wf(),
        pair_encoding is Some ==> pair_encoding->0.wf(),
    ensures
        ({
            let spec_r = spec_truncate_encodings(
                encoding@,
                match pair_encoding {
                    Some(p) => Some(p@),
                    None => None,
                },
                *params,
            );
            match r {
                Ok((a, b)) => {
                    &&& spec_r is Ok
                    &&& a@ == spec_r->Ok_0.0
                    &&& (match b {
                        Some(be) => spec_r->Ok_0.1 is Some && be@ == spec_r->Ok_0.1->0 && be.wf(),
                        None => spec_r->Ok_0.1 is None,
                    })
                    &&& a.wf()
                },
                Err(e) => spec_r is Err && e == spec_r->Err_0,
            }
        }),
{
    let alen: usize = encoding.len();
    let blen: usize = match &pair_encoding {
        Some(p) => p.len(),
        None => 0,
    };
    if blen <= params.max_length && alen <= params.max_length - blen {
        return Ok((encoding, pair_encoding));
    }
    if params.stride != 0 && params.stride >= params.max_length {
        return Err(TokenizerError::InvalidInput);
    }
    match params.strategy {
        TruncationStrategy::LongestFirst => {
            let mut na: usize = alen;
            let mut nb: usize = blen;
            while !(nb <= params.max_length && na <= params.max_length - nb)
                invariant
                    na <= alen,
                    nb <= blen,
                    spec_longest_first(alen as int, blen as int, params.max_length as int)
                        == spec_longest_first(na as int, nb as int, params.max_length as int),
                decreases na + nb,
            {
                if na > nb {
                    na = na - 1;
                } else {
                    nb = nb - 1;
                }
            }
            let mut encoding = encoding;
            encoding.truncate(na, params.stride);
            match pair_encoding {
                Some(p) => {
                    let mut p = p;
                    p.truncate(nb, params.stride);
                    Ok((encoding, Some(p)))
                },
                None => Ok((encoding, None)),
            }
        },
        TruncationStrategy::OnlyFirst => {
            if blen > params.max_length {
                Err(TokenizerError::TruncationError)
            } else {
                let mut encoding = encoding;
                encoding.truncate(params.max_length - blen, params.stride);
                Ok((encoding, pair_encoding))
            }
        },
        TruncationStrategy::OnlySecond => {
            match pair_encoding {
                Some(p) => {
                    if alen > params.max_length {
                        Err(TokenizerError::TruncationError)
                    } else {
                        let mut p = p;
                        p.truncate(params.max_length - alen, params.stride);
                        Ok((encoding, Some(p)))
                    }
                },
                None => Err(TokenizerError::TruncationError),
            }
        },
    }
}

} // verus!
