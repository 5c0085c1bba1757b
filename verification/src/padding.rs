//! Padding of encodings to a common length.

use vstd::prelude::*;

use crate::encoding::{EncModel, EncRows, Encoding};
use crate::error::TokenizerError;

verus! {

#[derive(Clone, Copy, Debug, PartialEq, Eq, Structural)]
pub enum PaddingDirection {
    Left,
    Right,
}

#[derive(Clone, Copy, Debug, PartialEq, Eq, Structural)]
pub enum PaddingStrategy {
    BatchLongest,
    Fixed(usize),
}

#[derive(Clone, Debug)]
pub struct PaddingParams {
    pub strategy: PaddingStrategy,
    pub direction: PaddingDirection,
    pub pad_id: u32,
    pub pad_type_id: u32,
    pub pad_token: String,
}

/// The rows of the padding block of `k` positions.
pub open spec fn spec_pad_block(
    k: nat,
    pad_id: u32,
    pad_type_id: u32,
    pad_token: Seq<char>,
) -> EncRows {
    EncRows {
        ids: Seq::new(k, |i: int| pad_id),
        type_ids: Seq::new(k, |i: int| pad_type_id),
        tokens: Seq::new(k, |i: int| pad_token),
        words: Seq::new(k, |i: int| None),
        offsets: Seq::new(k, |i: int| (0usize, 0usize)),
        special_tokens_mask: Seq::new(k, |i: int| 1u32),
        attention_mask: Seq::new(k, |i: int| 0u32),
    }
}

/// `rows` padded to `target` positions (unchanged when already at least
/// that long). Padded positions carry the pad token with attention 0
/// and special-tokens mask 1, offsets `(0, 0)` and no word.
pub open spec fn spec_pad_rows(
    rows: EncRows,
    target: int,
    pad_id: u32,
    pad_type_id: u32,
    pad_token: Seq<char>,
    direction: PaddingDirection,
) -> EncRows {
    if rows.len() >= target {
        rows
    } else {
        let block = spec_pad_block((target - rows.len()) as nat, pad_id, pad_type_id, pad_token);
        match direction {
            PaddingDirection::Right => crate::encoding::spec_merge_rows(rows, block, false),
            PaddingDirection::Left => crate::encoding::spec_merge_rows(block, rows, false),
        }
    }
}

/// An encoding padded to `target`: its rows and each overflowing
/// sibling's rows.
pub open spec fn spec_pad_model(
    m: EncModel,
    target: int,
    pad_id: u32,
    pad_type_id: u32,
    pad_token: Seq<char>,
    direction: PaddingDirection,
) -> EncModel {
    EncModel {
        rows: spec_pad_rows(m.rows, target, pad_id, pad_type_id, pad_token, direction),
        overflowing: m.overflowing.map_values(
            |r: EncRows| spec_pad_rows(r, target, pad_id, pad_type_id, pad_token, direction),
        ),
    }
}

/// The common target length of a batch under `strategy`: the given
/// fixed length, or the longest encoding in the batch.
pub open spec fn spec_pad_target(models: Seq<EncModel>, strategy: PaddingStrategy) -> int {
    match strategy {
        PaddingStrategy::Fixed(n) => n as int,
        PaddingStrategy::BatchLongest => max_len_of(models),
    }
}

/// The largest row count in a batch (0 when empty).
pub open spec fn max_len_of(models: Seq<EncModel>) -> int
    decreases models.len(),
{
    if models.len() == 0 {
        0
    } else {
        let rest = max_len_of(models.drop_last());
        if models.last().rows.len() >= rest {
            models.last().rows.len() as int
        } else {
            rest
        }
    }
}

/// Pad the rows of `enc` itself (not its overflowing list) to `target`.
fn pad_rows_in_place(
    enc: &mut Encoding,
    target: usize,
    pad_id: u32,
    pad_type_id: u32,
    pad_token: &String,
    direction: PaddingDirection,
)
    requires
        old(enc).wf(),
    ensures
        final(enc).rows_view() == spec_pad_rows(
            old(enc).rows_view(),
            target as int,
            pad_id,
            pad_type_id,
            pad_token@,
            direction,
        ),
        final(enc)@.overflowing == old(enc)@.overflowing,
        final(enc).overflowing@ == old(enc).overflowing@,
        final(enc).wf(),
{
    let n: usize = enc.ids.len();
    if n >= target {
        return ;
    }
    let k: usize = target - n;
    let ghost rows0 = enc.rows_view();
    let ghost block = spec_pad_block(k as nat, pad_id, pad_type_id, pad_token@);
    let mut b_ids: Vec<u32> = Vec::new();
    let mut b_type_ids: Vec<u32> = Vec::new();
    let mut b_tokens: Vec<String> = Vec::new();
    let mut b_words: Vec<Option<u32>> = Vec::new();
    let mut b_offsets: Vec<(usize, usize)> = Vec::new();
    let mut b_special: Vec<u32> = Vec::new();
    let mut b_attention: Vec<u32> = Vec::new();
    let mut i: usize = 0;
    while i < k
        invariant
            0 <= i <= k,
            b_ids@ =~= Seq::new(i as nat, |j: int| pad_id),
            b_type_ids@ =~= Seq::new(i as nat, |j: int| pad_type_id),
            b_tokens@.len() == i,
            forall|j: int| 0 <= j < i ==> (#[trigger] b_tokens@[j])@ == pad_token@,
            b_words@ =~= Seq::new(i as nat, |j: int| None::<u32>),
            b_offsets@ =~= Seq::new(i as nat, |j: int| (0usize, 0usize)),
            b_special@ =~= Seq::new(i as nat, |j: int| 1u32),
            b_attention@ =~= Seq::new(i as nat, |j: int| 0u32),
        decreases k - i,
    {
        b_ids.push(pad_id);
        b_type_ids.push(pad_type_id);
        b_tokens.push(pad_token.clone());
        b_words.push(None);
        b_offsets.push((0, 0));
        b_special.push(1);
        b_attention.push(0);
        i = i + 1;
        proof {
            assert(b_ids@ =~= Seq::new(i as nat, |j: int| pad_id));
            assert(b_type_ids@ =~= Seq::new(i as nat, |j: int| pad_type_id));
            assert(b_words@ =~= Seq::new(i as nat, |j: int| None::<u32>));
            assert(b_offsets@ =~= Seq::new(i as nat, |j: int| (0usize, 0usize)));
            assert(b_special@ =~= Seq::new(i as nat, |j: int| 1u32));
            assert(b_attention@ =~= Seq::new(i as nat, |j: int| 0u32));
        }
    }
    proof {
        assert forall|j: int| 0 <= j < k as int implies b_tokens.deep_view()[j] == block.tokens[j] by {
            assert(b_tokens.deep_view()[j] == b_tokens@[j]@);
        }
        assert(b_tokens.deep_view() =~= block.tokens);
    }
    match direction {
        PaddingDirection::Right => {
            self_append(enc, b_ids, b_type_ids, b_tokens, b_words, b_offsets, b_special, b_attention);
            proof {
                assert(enc.rows_view() =~~= crate::encoding::spec_merge_rows(rows0, block, false));
            }
        },
        PaddingDirection::Left => {
            self_prepend(enc, b_ids, b_type_ids, b_tokens, b_words, b_offsets, b_special, b_attention);
            proof {
                assert(enc.rows_view() =~~= crate::encoding::spec_merge_rows(block, rows0, false));
            }
        },
    }
}

/// Append the given vectors to the rows of `enc`.
fn self_append(
    enc: &mut Encoding,
    mut b_ids: Vec<u32>,
    mut b_type_ids: Vec<u32>,
    mut b_tokens: Vec<String>,
    mut b_words: Vec<Option<u32>>,
    mut b_offsets: Vec<(usize, usize)>,
    mut b_special: Vec<u32>,
    mut b_attention: Vec<u32>,
)
    ensures
        final(enc).ids@ == old(enc).ids@ + b_ids@,
        final(enc).type_ids@ == old(enc).type_ids@ + b_type_ids@,
        final(enc).tokens@ == old(enc).tokens@ + b_tokens@,
        final(enc).tokens.deep_view() == old(enc).tokens.deep_view() + b_tokens.deep_view(),
        final(enc).words@ == old(enc).words@ + b_words@,
        final(enc).offsets@ == old(enc).offsets@ + b_offsets@,
        final(enc).special_tokens_mask@ == old(enc).special_tokens_mask@ + b_special@,
        final(enc).attention_mask@ == old(enc).attention_mask@ + b_attention@,
        final(enc).overflowing@ == old(enc).overflowing@,
        final(enc)@.overflowing == old(enc)@.overflowing,
{
    let ghost bt0 = b_tokens@;
    let ghost btd0 = b_tokens.deep_view();
    enc.ids.append(&mut b_ids);
    enc.type_ids.append(&mut b_type_ids);
    enc.tokens.append(&mut b_tokens);
    enc.words.append(&mut b_words);
    enc.offsets.append(&mut b_offsets);
    enc.special_tokens_mask.append(&mut b_special);
    enc.attention_mask.append(&mut b_attention);
    proof {
        assert(btd0.len() == bt0.len());
        assert forall|j: int| 0 <= j < enc.tokens@.len() implies #[trigger] enc.tokens.deep_view()[j]
            == (old(enc).tokens.deep_view() + btd0)[j] by {
            assert(enc.tokens.deep_view()[j] == enc.tokens@[j]@);
            if j < old(enc).tokens@.len() {
                assert(enc.tokens@[j] == old(enc).tokens@[j]);
                assert(old(enc).tokens.deep_view()[j] == old(enc).tokens@[j]@);
            } else {
                assert(enc.tokens@[j] == bt0[j - old(enc).tokens@.len()]);
                assert(btd0[j - old(enc).tokens@.len()] == bt0[j - old(enc).tokens@.len()]@);
            }
        }
        assert(enc.tokens.deep_view() =~= old(enc).tokens.deep_view() + btd0);
    }
}

/// Prepend the given vectors to the rows of `enc`.
fn self_prepend(
    enc: &mut Encoding,
    mut b_ids: Vec<u32>,
    mut b_type_ids: Vec<u32>,
    mut b_tokens: Vec<String>,
    mut b_words: Vec<Option<u32>>,
    mut b_offsets: Vec<(usize, usize)>,
    mut b_special: Vec<u32>,
    mut b_attention: Vec<u32>,
)
    ensures
        final(enc).ids@ == b_ids@ + old(enc).ids@,
        final(enc).type_ids@ == b_type_ids@ + old(enc).type_ids@,
        final(enc).tokens@ == b_tokens@ + old(enc).tokens@,
        final(enc).tokens.deep_view() == b_tokens.deep_view() + old(enc).tokens.deep_view(),
        final(enc).words@ == b_words@ + old(enc).words@,
        final(enc).offsets@ == b_offsets@ + old(enc).offsets@,
        final(enc).special_tokens_mask@ == b_special@ + old(enc).special_tokens_mask@,
        final(enc).attention_mask@ == b_attention@ + old(enc).attention_mask@,
        final(enc).overflowing@ == old(enc).overflowing@,
        final(enc)@.overflowing == old(enc)@.overflowing,
{
    let ghost bt0 = b_tokens@;
    let ghost btd0 = b_tokens.deep_view();
    core::mem::swap(&mut enc.ids, &mut b_ids);
    enc.ids.append(&mut b_ids);
    core::mem::swap(&mut enc.type_ids, &mut b_type_ids);
    enc.type_ids.append(&mut b_type_ids);
    core::mem::swap(&mut enc.tokens, &mut b_tokens);
    enc.tokens.append(&mut b_tokens);
    core::mem::swap(&mut enc.words, &mut b_words);
    enc.words.append(&mut b_words);
    core::mem::swap(&mut enc.offsets, &mut b_offsets);
    enc.offsets.append(&mut b_offsets);
    core::mem::swap(&mut enc.special_tokens_mask, &mut b_special);
    enc.special_tokens_mask.append(&mut b_special);
    core::mem::swap(&mut enc.attention_mask, &mut b_attention);
    enc.attention_mask.append(&mut b_attention);
    proof {
        assert(btd0.len() == bt0.len());
        assert forall|j: int| 0 <= j < enc.tokens@.len() implies #[trigger] enc.tokens.deep_view()[j]
            == (btd0 + old(enc).tokens.deep_view())[j] by {
            assert(enc.tokens.deep_view()[j] == enc.tokens@[j]@);
            if j < bt0.len() {
                assert(enc.tokens@[j] == bt0[j]);
                assert(btd0[j] == bt0[j]@);
            } else {
                assert(enc.tokens@[j] == old(enc).tokens@[j - bt0.len()]);
                assert(old(enc).tokens.deep_view()[j - bt0.len()] == old(enc).tokens@[j - bt0.len()]@);
            }
        }
        assert(enc.tokens.deep_view() =~= btd0 + old(enc).tokens.deep_view());
    }
}

impl Encoding {
    /// Pad this encoding, and each of its overflowing siblings, to
    /// `target` positions.
    pub fn pad(
        &mut self,
        target: usize,
        pad_id: u32,
        pad_type_id: u32,
        pad_token: &String,
        direction: PaddingDirection,
    )
        requires
            old(self).wf(),
        ensures
            final(self)@ == spec_pad_model(
                old(self)@,
                target as int,
                pad_id,
                pad_type_id,
                pad_token@,
                direction,
            ),
            final(self).wf(),
    {
        let ghost m0 = self@;
        let mut over: Vec<Encoding> = Vec::new();
        core::mem::swap(&mut over, &mut self.overflowing);
        let ghost over0 = over@;
        proof {
            assert forall|j: int| 0 <= j < over0.len() implies (#[trigger] over0[j]).wf()
                && over0[j].overflowing@.len() == 0 by {
                assert(m0.overflowing[j] == over0[j].rows_view());
                assert(over0[j]@.overflowing =~= Seq::<EncRows>::empty());
            }
        }
        pad_rows_in_place(self, target, pad_id, pad_type_id, pad_token, direction);
        let mut done: Vec<Encoding> = Vec::new();
        while over.len() > 0
            invariant
                over0.len() == done@.len() + over@.len(),
                forall|j: int| 0 <= j < over@.len() ==> (#[trigger] over@[j]) == over0[done@.len() + j],
                forall|j: int| 0 <= j < over0.len() ==> (#[trigger] over0[j]).wf()
                    && over0[j].overflowing@.len() == 0,
                forall|j: int| 0 <= j < done@.len() ==> (#[trigger] done@[j]).rows_view()
                    == spec_pad_rows(
                    over0[j].rows_view(),
                    target as int,
                    pad_id,
                    pad_type_id,
                    pad_token@,
                    direction,
                ),
                forall|j: int| 0 <= j < done@.len() ==> (#[trigger] done@[j]).wf()
                    && done@[j].overflowing@.len() == 0,
            decreases over@.len(),
        {
            let mut e = over.remove(0);
            pad_rows_in_place(&mut e, target, pad_id, pad_type_id, pad_token, direction);
            done.push(e);
        }
        self.overflowing = done;
        proof {
            let expected = spec_pad_model(
                m0,
                target as int,
                pad_id,
                pad_type_id,
                pad_token@,
                direction,
            );
            assert(m0.overflowing =~= over0.map_values(|e: Encoding| e.rows_view()));
            assert forall|j: int| 0 <= j < self.overflowing@.len() implies
                #[trigger] self@.overflowing[j] == expected.overflowing[j] by {
                assert(self@.overflowing[j] == self.overflowing@[j].rows_view());
                assert(expected.overflowing[j] == spec_pad_rows(
                    m0.overflowing[j],
                    target as int,
                    pad_id,
                    pad_type_id,
                    pad_token@,
                    direction,
                ));
                assert(m0.overflowing[j] == over0[j].rows_view());
            }
            assert(self@.overflowing =~~= expected.overflowing);
            assert(self@ =~~= expected);
        }
    }
}

/// Pad every encoding of a batch (and each of its overflowing
/// siblings) to a common length: the configured fixed length, or the
/// longest encoding of the batch.
pub fn pad_encodings(encodings: &mut Vec<Encoding>, params: &PaddingParams) -> (r: Result<
    (),
    TokenizerError,
>)
    requires
        forall|i: int| 0 <= i < old(encodings)@.len() ==> (#[trigger] old(encodings)@[i]).wf(),
    ensures
        r is Ok,
        final(encodings)@.len() == old(encodings)@.len(),
        ({
            let models = old(encodings)@.map_values(|e: Encoding| e@);
            let target = spec_pad_target(models, params.strategy);
            forall|i: int| 0 <= i < final(encodings)@.len() ==> (#[trigger] final(encodings)@[i])@
                == spec_pad_model(
                models[i],
                target,
                params.pad_id,
                params.pad_type_id,
                params.pad_token@,
                params.direction,
            ) && final(encodings)@[i].wf()
        }),
{
    let ghost models = encodings@.map_values(|e: Encoding| e@);
    let n: usize = encodings.len();
    let target: usize = match params.strategy {
        PaddingStrategy::Fixed(k) => k,
        PaddingStrategy::BatchLongest => {
            let mut t: usize = 0;
            let mut i: usize = 0;
            while i < n
                invariant
                    n == encodings@.len(),
                    models == encodings@.map_values(|e: Encoding| e@),
                    0 <= i <= n,
                    t == max_len_of(models.take(i as int)),
                decreases n - i,
            {
                let l = encodings[i].len();
                if l > t {
                    t = l;
                }
                i = i + 1;
                proof {
                    assert(models.take(i as int).drop_last() =~= models.take(i as int - 1));
                    assert(models.take(i as int).last() == models[i as int - 1]);
                }
            }
            proof {
                assert(models.take(n as int) =~= models);
            }
            t
        },
    };
    let mut i: usize = 0;
    while i < n
        invariant
            n == encodings@.len(),
            models.len() == n,
            0 <= i <= n,
            target as int == spec_pad_target(models, params.strategy),
            forall|j: int| i <= j < n ==> (#[trigger] encodings@[j])@ == models[j]
                && encodings@[j].wf(),
            forall|j: int| 0 <= j < i ==> (#[trigger] encodings@[j])@ == spec_pad_model(
                models[j],
                target as int,
                params.pad_id,
                params.pad_type_id,
                params.pad_token@,
                params.direction,
            ) && encodings@[j].wf(),
        decreases n - i,
    {
        let mut e = encodings.remove(i);
        e.pad(target, params.pad_id, params.pad_type_id, &params.pad_token, params.direction);
        encodings.insert(i, e);
        i = i + 1;
    }
    Ok(())
}

/// With the `BatchLongest` strategy, padding gives every encoding of
/// the batch exactly the length of its longest member.
pub proof fn lemma_batch_longest_equal_lengths(
    models: Seq<EncModel>,
    pad_id: u32,
    pad_type_id: u32,
    pad_token: Seq<char>,
    direction: PaddingDirection,
)
    ensures
        forall|i: int| 0 <= i < models.len() ==> (#[trigger] spec_pad_model(
            models[i],
            spec_pad_target(models, PaddingStrategy::BatchLongest),
            pad_id,
            pad_type_id,
            pad_token,
            direction,
        )).rows.len() == max_len_of(models),
{
    let target = max_len_of(models);
    lemma_max_len_of_bounds(models);
    assert forall|i: int| 0 <= i < models.len() implies (#[trigger] spec_pad_model(
        models[i],
        target,
        pad_id,
        pad_type_id,
        pad_token,
        direction,
    )).rows.len() == target by {
        assert(models[i].rows.len() <= target);
    }
}

/// Every encoding of a batch is at most the longest one.
pub proof fn lemma_max_len_of_bounds(models: Seq<EncModel>)
    ensures
        forall|i: int| 0 <= i < models.len() ==> (#[trigger] models[i]).rows.len() <= max_len_of(
            models,
        ),
        models.len() > 0 ==> exists|i: int| 0 <= i < models.len() && (#[trigger] models[i]).rows.len()
            == max_len_of(models),
    decreases models.len(),
{
    if models.len() > 0 {
        lemma_max_len_of_bounds(models.drop_last());
        assert(forall|i: int| 0 <= i < models.len() - 1 ==> models.drop_last()[i] == models[i]);
        if models.last().rows.len() >= max_len_of(models.drop_last()) {
            assert(models[models.len() - 1].rows.len() == max_len_of(models));
        } else {
            assert(models.drop_last().len() > 0);
            let k = choose|i: int|
                0 <= i < models.len() - 1 && (#[trigger] models.drop_last()[i]).rows.len()
                    == max_len_of(models.drop_last());
            assert(models[k].rows.len() == max_len_of(models));
        }
    }
}

} // verus!
