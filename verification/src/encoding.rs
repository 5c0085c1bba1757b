//! The output record of the pipeline: parallel vectors of token ids,
//! type ids, token strings, word indices, byte offsets and masks, plus
//! the overflowing siblings produced by truncation.

use vstd::prelude::*;

use crate::token::Token;

verus! {

/// Ghost record of the parallel vectors of one encoding.
#[verifier::ext_equal]
pub struct EncRows {
    pub ids: Seq<u32>,
    pub type_ids: Seq<u32>,
    pub tokens: Seq<Seq<char>>,
    pub words: Seq<Option<u32>>,
    pub offsets: Seq<(usize, usize)>,
    pub special_tokens_mask: Seq<u32>,
    pub attention_mask: Seq<u32>,
}

impl EncRows {
    /// All parallel vectors have the same length, and every offset pair
    /// is ordered.
    pub open spec fn wf(self) -> bool {
        &&& self.type_ids.len() == self.ids.len()
        &&& self.tokens.len() == self.ids.len()
        &&& self.words.len() == self.ids.len()
        &&& self.offsets.len() == self.ids.len()
        &&& self.special_tokens_mask.len() == self.ids.len()
        &&& self.attention_mask.len() == self.ids.len()
        &&& forall|i: int| 0 <= i < self.offsets.len() ==> (#[trigger] self.offsets[i]).0 <= self.offsets[i].1
    }

    pub open spec fn len(self) -> nat {
        self.ids.len()
    }

    pub open spec fn empty() -> EncRows {
        EncRows {
            ids: Seq::empty(),
            type_ids: Seq::empty(),
            tokens: Seq::empty(),
            words: Seq::empty(),
            offsets: Seq::empty(),
            special_tokens_mask: Seq::empty(),
            attention_mask: Seq::empty(),
        }
    }

    /// The rows restricted to positions `[lo, hi)`.
    pub open spec fn slice(self, lo: int, hi: int) -> EncRows {
        EncRows {
            ids: self.ids.subrange(lo, hi),
            type_ids: self.type_ids.subrange(lo, hi),
            tokens: self.tokens.subrange(lo, hi),
            words: self.words.subrange(lo, hi),
            offsets: self.offsets.subrange(lo, hi),
            special_tokens_mask: self.special_tokens_mask.subrange(lo, hi),
            attention_mask: self.attention_mask.subrange(lo, hi),
        }
    }
}

/// Ghost model of a full encoding: its rows and the rows of each
/// overflowing sibling.
#[verifier::ext_equal]
pub struct EncModel {
    pub rows: EncRows,
    pub overflowing: Seq<EncRows>,
}

impl EncModel {
    pub open spec fn wf(self) -> bool {
        &&& self.rows.wf()
        &&& forall|i: int| 0 <= i < self.overflowing.len() ==> (#[trigger] self.overflowing[i]).wf()
    }
}

/// The largest offset end among `offsets` (0 when empty).
pub open spec fn max_end(offsets: Seq<(usize, usize)>) -> nat
    decreases offsets.len(),
{
    if offsets.len() == 0 {
        0
    } else {
        let rest = max_end(offsets.drop_last());
        if offsets.last().1 >= rest {
            offsets.last().1 as nat
        } else {
            rest
        }
    }
}

/// `offsets`, each shifted up by `d` bytes.
pub open spec fn shift_offsets(offsets: Seq<(usize, usize)>, d: nat) -> Seq<(usize, usize)> {
    offsets.map_values(|o: (usize, usize)| (((o.0 + d) as usize), ((o.1 + d) as usize)))
}

/// No shifted offset overflows `usize`.
pub open spec fn shift_fits(offsets: Seq<(usize, usize)>, d: nat) -> bool {
    forall|i: int| 0 <= i < offsets.len() ==> (#[trigger] offsets[i]).1 + d <= usize::MAX
        && offsets[i].0 + d <= usize::MAX
}

/// The rows of two encodings, concatenated; with `growing` the second
/// encoding's offsets continue from the largest offset end of the first.
pub open spec fn spec_merge_rows(a: EncRows, b: EncRows, growing: bool) -> EncRows {
    let d: nat = if growing {
        max_end(a.offsets)
    } else {
        0
    };
    EncRows {
        ids: a.ids + b.ids,
        type_ids: a.type_ids + b.type_ids,
        tokens: a.tokens + b.tokens,
        words: a.words + b.words,
        offsets: a.offsets + shift_offsets(b.offsets, d),
        special_tokens_mask: a.special_tokens_mask + b.special_tokens_mask,
        attention_mask: a.attention_mask + b.attention_mask,
    }
}

/// Merge of two encodings: rows concatenated, overflowing lists
/// concatenated.
pub open spec fn spec_merged(a: EncModel, b: EncModel, growing: bool) -> EncModel {
    EncModel {
        rows: spec_merge_rows(a.rows, b.rows, growing),
        overflowing: a.overflowing + b.overflowing,
    }
}

/// Left fold of `spec_merged` over a list, starting from the empty
/// encoding.
pub open spec fn spec_merge_all(list: Seq<EncModel>, growing: bool) -> EncModel
    decreases list.len(),
{
    if list.len() == 0 {
        EncModel { rows: EncRows::empty(), overflowing: Seq::empty() }
    } else {
        spec_merged(spec_merge_all(list.drop_last(), growing), list.last(), growing)
    }
}

/// The rows built from a token list: one position per token, all with
/// the given type id, with mask values for ordinary (non-special,
/// attended) tokens.
pub open spec fn spec_from_tokens(tokens: Seq<crate::token::TokenModel>, type_id: u32) -> EncRows {
    EncRows {
        ids: tokens.map_values(|t: crate::token::TokenModel| t.id),
        type_ids: Seq::new(tokens.len(), |i: int| type_id),
        tokens: tokens.map_values(|t: crate::token::TokenModel| t.value),
        words: tokens.map_values(|t: crate::token::TokenModel| Some(t.word)),
        offsets: tokens.map_values(|t: crate::token::TokenModel| t.offsets),
        special_tokens_mask: Seq::new(tokens.len(), |i: int| 0u32),
        attention_mask: Seq::new(tokens.len(), |i: int| 1u32),
    }
}

/// An encoding of one sequence: parallel vectors of equal length, plus
/// the overflowing siblings discarded by truncation.
pub struct Encoding {
    pub ids: Vec<u32>,
    pub type_ids: Vec<u32>,
    pub tokens: Vec<String>,
    pub words: Vec<Option<u32>>,
    pub offsets: Vec<(usize, usize)>,
    pub special_tokens_mask: Vec<u32>,
    pub attention_mask: Vec<u32>,
    pub overflowing: Vec<Encoding>,
}

impl Encoding {
    /// The rows of this encoding, ignoring its overflowing list.
    pub open spec fn rows_view(&self) -> EncRows {
        EncRows {
            ids: self.ids@,
            type_ids: self.type_ids@,
            tokens: self.tokens.deep_view(),
            words: self.words@,
            offsets: self.offsets@,
            special_tokens_mask: self.special_tokens_mask@,
            attention_mask: self.attention_mask@,
        }
    }
}

impl View for Encoding {
    type V = EncModel;

    open spec fn view(&self) -> EncModel {
        EncModel {
            rows: self.rows_view(),
            overflowing: self.overflowing@.map_values(|e: Encoding| e.rows_view()),
        }
    }
}

impl Encoding {
    /// Parallel vectors of equal length; overflowing siblings likewise,
    /// and they carry no overflowing of their own.
    pub open spec fn wf(&self) -> bool {
        &&& self@.wf()
        &&& forall|i: int| 0 <= i < self.overflowing@.len() ==> (#[trigger] self.overflowing@[i]).overflowing@.len() == 0
    }

    pub fn new(
        ids: Vec<u32>,
        type_ids: Vec<u32>,
        tokens: Vec<String>,
        words: Vec<Option<u32>>,
        offsets: Vec<(usize, usize)>,
        special_tokens_mask: Vec<u32>,
        attention_mask: Vec<u32>,
        overflowing: Vec<Encoding>,
    ) -> (r: Encoding)
        ensures
            r.ids == ids,
            r.type_ids == type_ids,
            r.tokens == tokens,
            r.words == words,
            r.offsets == offsets,
            r.special_tokens_mask == special_tokens_mask,
            r.attention_mask == attention_mask,
            r.overflowing == overflowing,
    {
        Encoding { ids, type_ids, tokens, words, offsets, special_tokens_mask, attention_mask, overflowing }
    }

    /// The number of positions.
    pub fn len(&self) -> (r: usize)
        ensures
            r == self@.rows.len(),
    {
        self.ids.len()
    }

    pub fn is_empty(&self) -> (r: bool)
        ensures
            r == (self@.rows.len() == 0),
    {
        self.ids.len() == 0
    }

    pub fn get_ids(&self) -> (r: &Vec<u32>)
        ensures
            r@ == self@.rows.ids,
    {
        &self.ids
    }

    pub fn get_type_ids(&self) -> (r: &Vec<u32>)
        ensures
            r@ == self@.rows.type_ids,
    {
        &self.type_ids
    }

    pub fn get_tokens(&self) -> (r: &Vec<String>)
        ensures
            r.deep_view() == self@.rows.tokens,
    {
        &self.tokens
    }

    pub fn get_words(&self) -> (r: &Vec<Option<u32>>)
        ensures
            r@ == self@.rows.words,
    {
        &self.words
    }

    pub fn get_offsets(&self) -> (r: &Vec<(usize, usize)>)
        ensures
            r@ == self@.rows.offsets,
    {
        &self.offsets
    }

    pub fn get_special_tokens_mask(&self) -> (r: &Vec<u32>)
        ensures
            r@ == self@.rows.special_tokens_mask,
    {
        &self.special_tokens_mask
    }

    pub fn get_attention_mask(&self) -> (r: &Vec<u32>)
        ensures
            r@ == self@.rows.attention_mask,
    {
        &self.attention_mask
    }

    pub fn get_overflowing(&self) -> (r: &Vec<Encoding>)
        ensures
            r@.map_values(|e: Encoding| e.rows_view()) == self@.overflowing,
    {
        &self.overflowing
    }

    /// The empty encoding.
    pub fn empty() -> (r: Encoding)
        ensures
            r@.rows == EncRows::empty(),
            r@.overflowing.len() == 0,
            r.wf(),
    {
        let r = Encoding {
            ids: Vec::new(),
            type_ids: Vec::new(),
            tokens: Vec::new(),
            words: Vec::new(),
            offsets: Vec::new(),
            special_tokens_mask: Vec::new(),
            attention_mask: Vec::new(),
            overflowing: Vec::new(),
        };
        proof {
            assert(r@.rows =~= EncRows::empty());
            assert(r@.overflowing =~= Seq::<EncRows>::empty());
        }
        r
    }

    /// Build the encoding of one tokenized chunk.
    pub fn from_tokens(tokens: Vec<Token>, type_id: u32) -> (r: Encoding)
        requires
            forall|i: int| 0 <= i < tokens@.len()
                ==> (#[trigger] tokens@[i]).offsets.0 <= tokens@[i].offsets.1,
        ensures
            r@.rows == spec_from_tokens(tokens.deep_view(), type_id),
            r@.overflowing.len() == 0,
            r.wf(),
    {
        let n: usize = tokens.len();
        let mut ids: Vec<u32> = Vec::new();
        let mut type_ids: Vec<u32> = Vec::new();
        let mut toks: Vec<String> = Vec::new();
        let mut words: Vec<Option<u32>> = Vec::new();
        let mut offsets: Vec<(usize, usize)> = Vec::new();
        let mut special: Vec<u32> = Vec::new();
        let mut attention: Vec<u32> = Vec::new();
        let mut i: usize = 0;
        while i < n
            invariant
                n == tokens@.len(),
                0 <= i <= n,
                ids@ =~= tokens.deep_view().take(i as int).map_values(|t: crate::token::TokenModel| t.id),
                type_ids@ =~= Seq::new(i as nat, |j: int| type_id),
                toks@.len() == i as int,
                forall|j: int| 0 <= j < i as int ==> (#[trigger] toks@[j])@ == tokens@[j].value@,
                words@ =~= tokens.deep_view().take(i as int).map_values(|t: crate::token::TokenModel| Some(t.word)),
                offsets@ =~= tokens.deep_view().take(i as int).map_values(|t: crate::token::TokenModel| t.offsets),
                special@ =~= Seq::new(i as nat, |j: int| 0u32),
                attention@ =~= Seq::new(i as nat, |j: int| 1u32),
            decreases n - i,
        {
            let t = &tokens[i];
            ids.push(t.id);
            type_ids.push(type_id);
            toks.push(t.value.clone());
            words.push(Some(t.word));
            offsets.push(t.offsets);
            special.push(0);
            attention.push(1);
            i = i + 1;
            proof {
                let tv = tokens.deep_view();
                assert(tv.len() == tokens@.len());
                assert(tv.take(i as int) =~= tv.take(i as int - 1).push(tv[i as int - 1]));
                assert(ids@ =~= tv.take(i as int).map_values(|t: crate::token::TokenModel| t.id));
                assert(words@ =~= tv.take(i as int).map_values(|t: crate::token::TokenModel| Some(t.word)));
                assert(offsets@ =~= tv.take(i as int).map_values(|t: crate::token::TokenModel| t.offsets));
                assert(type_ids@ =~= Seq::new(i as nat, |j: int| type_id));
                assert(special@ =~= Seq::new(i as nat, |j: int| 0u32));
                assert(attention@ =~= Seq::new(i as nat, |j: int| 1u32));
            }
        }
        let r = Encoding {
            ids,
            type_ids,
            tokens: toks,
            words,
            offsets,
            special_tokens_mask: special,
            attention_mask: attention,
            overflowing: Vec::new(),
        };
        proof {
            let tv = tokens.deep_view();
            assert(tv.len() == tokens@.len());
            assert(tv.take(n as int) =~= tv);
            let goal = tv.map_values(|t: crate::token::TokenModel| t.value);
            assert forall|j: int| 0 <= j < n as int implies r.tokens.deep_view()[j] == goal[j] by {
                assert(r.tokens.deep_view()[j] == r.tokens@[j]@);
                assert(goal[j] == tv[j].value);
                assert(tv[j] == tokens@[j]@);
            }
            assert(r.tokens.deep_view() =~= goal);
            assert(r@.rows =~~= spec_from_tokens(tokens.deep_view(), type_id));
            assert(r@.overflowing =~= Seq::<EncRows>::empty());
        }
        r
    }

    /// The largest offset end in this encoding's rows.
    pub fn max_offset_end(&self) -> (r: usize)
        ensures
            r == max_end(self@.rows.offsets),
    {
        let mut r: usize = 0;
        let mut i: usize = 0;
        let n: usize = self.offsets.len();
        while i < n
            invariant
                n == self.offsets@.len(),
                0 <= i <= n,
                r == max_end(self.offsets@.take(i as int)),
            decreases n - i,
        {
            let (_, e) = self.offsets[i];
            if e > r {
                r = e;
            }
            i = i + 1;
            proof {
                assert(self.offsets@.take(i as int).drop_last() =~= self.offsets@.take(i as int - 1));
            }
        }
        proof {
            assert(self.offsets@.take(n as int) =~= self.offsets@);
        }
        r
    }

    /// Append `pair` to this encoding. With `growing_offsets`, the
    /// appended offsets continue from this encoding's largest offset end.
    pub fn merge_with(&mut self, pair: Encoding, growing_offsets: bool)
        requires
            old(self).wf(),
            pair.wf(),
            growing_offsets ==> shift_fits(pair@.rows.offsets, max_end(old(self)@.rows.offsets)),
        ensures
            final(self)@ == spec_merged(old(self)@, pair@, growing_offsets),
            final(self).wf(),
    {
        let ghost a = self@;
        let ghost b = pair@;
        let shift: usize = if growing_offsets {
            self.max_offset_end()
        } else {
            0
        };
        let Encoding {
            ids: mut p_ids,
            type_ids: mut p_type_ids,
            tokens: mut p_tokens,
            words: mut p_words,
            offsets: p_offsets,
            special_tokens_mask: mut p_special,
            attention_mask: mut p_attention,
            overflowing: mut p_overflowing,
        } = pair;
        self.ids.append(&mut p_ids);
        self.type_ids.append(&mut p_type_ids);
        self.tokens.append(&mut p_tokens);
        self.words.append(&mut p_words);
        self.special_tokens_mask.append(&mut p_special);
        self.attention_mask.append(&mut p_attention);
        let ghost cat_ids = self.ids@;
        let ghost cat_type_ids = self.type_ids@;
        let ghost cat_tokens = self.tokens@;
        let ghost cat_words = self.words@;
        let ghost cat_special = self.special_tokens_mask@;
        let ghost cat_attention = self.attention_mask@;
        let ghost cat_overflowing = self.overflowing@;
        let n: usize = p_offsets.len();
        let mut i: usize = 0;
        proof {
            assert(p_offsets@.take(0) =~= Seq::<(usize, usize)>::empty());
            assert(self.offsets@ =~= a.rows.offsets + shift_offsets(p_offsets@.take(0), shift as nat));
        }
        while i < n
            invariant
                n == p_offsets@.len(),
                0 <= i <= n,
                !growing_offsets ==> shift == 0,
                shift_fits(p_offsets@, shift as nat),
                self.offsets@ =~= a.rows.offsets + shift_offsets(p_offsets@.take(i as int), shift as nat),
                self.ids@ == cat_ids,
                self.type_ids@ == cat_type_ids,
                self.tokens@ == cat_tokens,
                self.words@ == cat_words,
                self.special_tokens_mask@ == cat_special,
                self.attention_mask@ == cat_attention,
                self.overflowing@ == cat_overflowing,
            decreases n - i,
        {
            let (s, e) = p_offsets[i];
            self.offsets.push((s + shift, e + shift));
            i = i + 1;
            proof {
                assert(p_offsets@.take(i as int) =~= p_offsets@.take(i as int - 1).push(p_offsets@[i as int - 1]));
                assert(self.offsets@ =~= a.rows.offsets + shift_offsets(p_offsets@.take(i as int), shift as nat));
            }
        }
        self.overflowing.append(&mut p_overflowing);
        proof {
            assert(p_offsets@.take(n as int) =~= p_offsets@);
            let merged = spec_merge_rows(a.rows, b.rows, growing_offsets);
            assert forall|j: int| 0 <= j < self.tokens@.len() implies #[trigger] self.tokens.deep_view()[j]
                == (a.rows.tokens + b.rows.tokens)[j] by {
                assert(self.tokens.deep_view()[j] == self.tokens@[j]@);
                if j < a.rows.tokens.len() {
                    assert(self.tokens@[j] == old(self).tokens@[j]);
                    assert(a.rows.tokens[j] == old(self).tokens@[j]@);
                } else {
                    assert(self.tokens@[j] == pair.tokens@[j - a.rows.tokens.len()]);
                    assert(b.rows.tokens[j - a.rows.tokens.len()] == pair.tokens@[j
                        - a.rows.tokens.len()]@);
                }
            }
            assert(self.tokens.deep_view() =~= a.rows.tokens + b.rows.tokens);
            assert(self.offsets@ =~= merged.offsets);
            assert(self@.rows =~~= merged);
            assert forall|j: int| 0 <= j < self.overflowing@.len() implies
                #[trigger] self@.overflowing[j] == (a.overflowing + b.overflowing)[j] by {
                if j < a.overflowing.len() {
                    assert(self.overflowing@[j] == old(self).overflowing@[j]);
                } else {
                    assert(self.overflowing@[j] == pair.overflowing@[j - a.overflowing.len()]);
                }
            }
            assert(self@.overflowing =~~= a.overflowing + b.overflowing);
            assert(self@ =~~= spec_merged(a, b, growing_offsets));
            assert forall|j: int| 0 <= j < merged.offsets.len() implies
                (#[trigger] merged.offsets[j]).0 <= merged.offsets[j].1 by {
                if j >= a.rows.offsets.len() {
                    let k = j - a.rows.offsets.len();
                    assert(merged.offsets[j] == shift_offsets(b.rows.offsets, if growing_offsets {
                        max_end(a.rows.offsets)
                    } else {
                        0
                    })[k]);
                    assert(b.rows.offsets[k].0 <= b.rows.offsets[k].1);
                }
            }
        }
    }

    /// Merge a list of encodings in order, starting from the empty
    /// encoding.
    pub fn merge(list: Vec<Encoding>, growing_offsets: bool) -> (r: Encoding)
        requires
            forall|i: int| 0 <= i < list@.len() ==> (#[trigger] list@[i]).wf(),
            growing_offsets ==> sum_max_ends(list@.map_values(|e: Encoding| e@)) <= usize::MAX,
        ensures
            r@ == spec_merge_all(list@.map_values(|e: Encoding| e@), growing_offsets),
            r.wf(),
    {
        let ghost models = list@.map_values(|e: Encoding| e@);
        let n: usize = list.len();
        let mut r = Encoding::empty();
        proof {
            assert(models.take(0) =~= Seq::<EncModel>::empty());
            assert(models.skip(0) =~= models);
        }
        let mut list = list;
        let mut done: usize = 0;
        while list.len() > 0
            invariant
                models.len() == n,
                list@.len() + done == n,
                forall|j: int| 0 <= j < list@.len() ==> (#[trigger] list@[j])@ == models[done + j],
                forall|j: int| 0 <= j < list@.len() ==> (#[trigger] list@[j]).wf(),
                r@ == spec_merge_all(models.take(done as int), growing_offsets),
                r.wf(),
                growing_offsets ==> max_end(r@.rows.offsets) + sum_max_ends(models.skip(done as int))
                    <= usize::MAX,
            decreases list@.len(),
        {
            let ghost pre = list@;
            let e = list.remove(0);
            proof {
                assert(e@ == models[done as int]);
                assert(forall|j: int| 0 <= j < list@.len() ==> list@[j] == pre[j + 1]);
                if growing_offsets {
                    lemma_sum_max_ends_skip(models, done as int);
                    lemma_max_end_bounds(e@.rows.offsets);
                    assert(shift_fits(e@.rows.offsets, max_end(r@.rows.offsets)));
                }
            }
            let ghost r_pre = r@;
            r.merge_with(e, growing_offsets);
            done = done + 1;
            proof {
                assert(models.take(done as int).drop_last() =~= models.take(done as int - 1));
                assert(models.take(done as int).last() == models[done as int - 1]);
                if growing_offsets {
                    lemma_max_end_merge(r_pre.rows, models[done as int - 1].rows);
                    lemma_sum_max_ends_skip(models, done as int - 1);
                }
            }
        }
        proof {
            assert(models.take(n as int) =~= models);
        }
        r
    }
}

/// A copy of `v[from..to]` for copyable elements.
pub fn copy_range<T: Copy>(v: &Vec<T>, from: usize, to: usize) -> (r: Vec<T>)
    requires
        from <= to <= v@.len(),
    ensures
        r@ == v@.subrange(from as int, to as int),
{
    let mut r: Vec<T> = Vec::new();
    let mut i: usize = from;
    while i < to
        invariant
            from <= i <= to <= v@.len(),
            r@ =~= v@.subrange(from as int, i as int),
        decreases to - i,
    {
        r.push(v[i]);
        i = i + 1;
        proof {
            assert(r@ =~= v@.subrange(from as int, i as int));
        }
    }
    r
}

/// A copy of `v[from..to]` for strings.
pub fn clone_strings_range(v: &Vec<String>, from: usize, to: usize) -> (r: Vec<String>)
    requires
        from <= to <= v@.len(),
    ensures
        r.deep_view() == v.deep_view().subrange(from as int, to as int),
        r@.len() == to - from,
    {
    let mut r: Vec<String> = Vec::new();
    let mut i: usize = from;
    while i < to
        invariant
            from <= i <= to <= v@.len(),
            r@.len() == i - from,
            forall|j: int| 0 <= j < i - from ==> (#[trigger] r@[j])@ == v@[from + j]@,
        decreases to - i,
    {
        r.push(v[i].clone());
        i = i + 1;
    }
    proof {
        assert forall|j: int| 0 <= j < to - from implies r.deep_view()[j]
            == v.deep_view().subrange(from as int, to as int)[j] by {
            assert(r.deep_view()[j] == r@[j]@);
            assert(v.deep_view().subrange(from as int, to as int)[j] == v@[from + j]@);
        }
        assert(r.deep_view() =~= v.deep_view().subrange(from as int, to as int));
    }
    r
}

/// Sum of the largest offset ends of a list of encodings.
pub open spec fn sum_max_ends(list: Seq<EncModel>) -> nat
    decreases list.len(),
{
    if list.len() == 0 {
        0
    } else {
        sum_max_ends(list.drop_last()) + max_end(list.last().rows.offsets)
    }
}

/// Every offset end is at most the maximum offset end; every offset is
/// ordered. (Only the first half is guaranteed here; offsets need not be
/// ordered pairs in general.)
pub proof fn lemma_max_end_bounds(offsets: Seq<(usize, usize)>)
    ensures
        forall|k: int| 0 <= k < offsets.len() ==> (#[trigger] offsets[k]).1 <= max_end(offsets),
    decreases offsets.len(),
{
    if offsets.len() > 0 {
        lemma_max_end_bounds(offsets.drop_last());
        assert(forall|k: int| 0 <= k < offsets.len() - 1 ==> offsets[k] == offsets.drop_last()[k]);
    }
}

/// The largest offset end of merged rows is bounded by the sum of the
/// parts' largest ends.
pub proof fn lemma_max_end_merge(a: EncRows, b: EncRows)
    requires
        shift_fits(b.offsets, max_end(a.offsets)),
    ensures
        max_end(spec_merge_rows(a, b, true).offsets) <= max_end(a.offsets) + max_end(b.offsets),
{
    let d = max_end(a.offsets);
    let merged = a.offsets + shift_offsets(b.offsets, d);
    lemma_max_end_bounds(a.offsets);
    lemma_max_end_bounds(b.offsets);
    assert forall|k: int| 0 <= k < merged.len() implies (#[trigger] merged[k]).1 <= d + max_end(b.offsets) by {
        if k < a.offsets.len() {
            assert(merged[k] == a.offsets[k]);
        } else {
            assert(merged[k] == shift_offsets(b.offsets, d)[k - a.offsets.len()]);
        }
    }
    lemma_max_end_le_any_bound(merged, (d + max_end(b.offsets)) as int);
}

/// If every offset end is at most `bound`, so is the maximum.
pub proof fn lemma_max_end_le_any_bound(offsets: Seq<(usize, usize)>, bound: int)
    requires
        forall|k: int| 0 <= k < offsets.len() ==> (#[trigger] offsets[k]).1 <= bound,
        0 <= bound,
    ensures
        max_end(offsets) <= bound,
    decreases offsets.len(),
{
    if offsets.len() > 0 {
        assert(forall|k: int| 0 <= k < offsets.len() - 1 ==> offsets.drop_last()[k] == offsets[k]);
        lemma_max_end_le_any_bound(offsets.drop_last(), bound);
    }
}

/// `sum_max_ends` splits around position `i`.
pub proof fn lemma_sum_max_ends_skip(list: Seq<EncModel>, i: int)
    requires
        0 <= i < list.len(),
    ensures
        sum_max_ends(list.skip(i)) == max_end(list[i].rows.offsets) + sum_max_ends(list.skip(i + 1)),
{
    let s = list.skip(i);
    assert(s.len() > 0);
    lemma_sum_max_ends_first(s);
    assert(s.drop_first() =~= list.skip(i + 1));
    assert(s.first() == list[i]);
}

/// `sum_max_ends` of a non-empty list splits at the front.
pub proof fn lemma_sum_max_ends_first(list: Seq<EncModel>)
    requires
        list.len() > 0,
    ensures
        sum_max_ends(list) == max_end(list.first().rows.offsets) + sum_max_ends(list.drop_first()),
    decreases list.len(),
{
    if list.len() == 1 {
        assert(list.drop_first() =~= Seq::<EncModel>::empty());
        assert(list.drop_last() =~= Seq::<EncModel>::empty());
    } else {
        lemma_sum_max_ends_first(list.drop_last());
        assert(list.drop_last().first() == list.first());
        assert(list.drop_last().drop_first() =~= list.drop_first().drop_last());
        assert(list.drop_first().last() == list.last());
    }
}

} // verus!
