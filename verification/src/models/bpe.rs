//! The BPE model: merge-based subword tokenization with a best-effort
//! cache of per-word results.

use vstd::prelude::*;

use crate::error::TokenizerError;
use crate::models::vocab::Vocab;
use crate::text::{byte_len, byte_len_upto, chars_to_string, push_char, str_chars};
use crate::token::{Token, TokenModel};
use vstd::hash_map::HashMapWithView;
use vstd::rwlock::{RwLock, RwLockPredicate};

verus! {

/// The default capacity of a `BPE`'s internal cache.
pub const DEFAULT_CACHE_CAPACITY: usize = 10000;

/// The key under which the merge of ids `(a, b)` is stored.
pub open spec fn spec_pair_key(a: u32, b: u32) -> u64 {
    (a as u64 * 0x1_0000_0000 + b as u64) as u64
}

pub fn pair_key(a: u32, b: u32) -> (r: u64)
    ensures
        r == spec_pair_key(a, b),
{
    a as u64 * 0x1_0000_0000 + b as u64
}

/// One cached token of a word: its id, its string, and its byte
/// offsets within the word.
pub struct CachedToken {
    pub id: u32,
    pub value: String,
    pub offsets: (usize, usize),
}

/// Ghost record of a cached token.
#[verifier::ext_equal]
pub struct CachedTokenModel {
    pub id: u32,
    pub value: Seq<char>,
    pub offsets: (usize, usize),
}

impl View for CachedToken {
    type V = CachedTokenModel;

    open spec fn view(&self) -> CachedTokenModel {
        CachedTokenModel { id: self.id, value: self.value@, offsets: self.offsets }
    }
}

impl DeepView for CachedToken {
    type V = CachedTokenModel;

    open spec fn deep_view(&self) -> CachedTokenModel {
        self.view()
    }
}

/// One working symbol during merging: its id when its string is in
/// the vocabulary, its string, and its character range in the word.
pub struct Symbol {
    pub id: Option<u32>,
    pub value: String,
    pub cs: usize,
    pub ce: usize,
}

/// Ghost record of a working symbol.
#[verifier::ext_equal]
pub struct SymModel {
    pub id: Option<u32>,
    pub value: Seq<char>,
    pub cs: int,
    pub ce: int,
}

impl View for Symbol {
    type V = SymModel;

    open spec fn view(&self) -> SymModel {
        SymModel { id: self.id, value: self.value@, cs: self.cs as int, ce: self.ce as int }
    }
}

impl DeepView for Symbol {
    type V = SymModel;

    open spec fn deep_view(&self) -> SymModel {
        self.view()
    }
}

/// The character sequence of an optional marker string (empty when
/// absent).
pub open spec fn spec_opt_chars(o: Option<String>) -> Seq<char> {
    match o {
        Some(s) => s@,
        None => Seq::empty(),
    }
}

/// The initial symbols of `word`: one per character, with the
/// continuing-subword prefix on all but the first and the end-of-word
/// suffix on the last, each looked up in the vocabulary.
pub open spec fn spec_sym_init(
    vm: Map<Seq<char>, u32>,
    prefix: Seq<char>,
    suffix: Seq<char>,
    word: Seq<char>,
) -> Seq<SymModel> {
    Seq::new(
        word.len(),
        |i: int|
            {
                let v = (if i > 0 {
                    prefix
                } else {
                    Seq::empty()
                }) + seq![word[i]] + (if i == word.len() - 1 {
                    suffix
                } else {
                    Seq::empty()
                });
                SymModel {
                    id: if vm.contains_key(v) {
                        Some(vm[v])
                    } else {
                        None
                    },
                    value: v,
                    cs: i,
                    ce: i + 1,
                }
            },
    )
}

/// The best merge among adjacent pairs from position `i` on: the
/// leftmost pair of lowest rank, as `(index, rank, new_id)`.
pub open spec fn best_from(syms: Seq<SymModel>, mm: Map<u64, (u32, u32)>, i: int) -> Option<
    (int, u32, u32),
>
    decreases (if i <= syms.len() { syms.len() - i } else { 0 }),
{
    if i < 0 || i + 1 >= syms.len() {
        None
    } else {
        let rest = best_from(syms, mm, i + 1);
        let cur: Option<(int, u32, u32)> = if syms[i].id is Some && syms[i + 1].id is Some
            && mm.contains_key(spec_pair_key(syms[i].id->0, syms[i + 1].id->0)) {
            Some(
                (
                    i,
                    mm[spec_pair_key(syms[i].id->0, syms[i + 1].id->0)].0,
                    mm[spec_pair_key(syms[i].id->0, syms[i + 1].id->0)].1,
                ),
            )
        } else {
            None
        };
        match cur {
            None => rest,
            Some(c) => match rest {
                None => Some(c),
                Some(r) => if c.1 <= r.1 {
                    Some(c)
                } else {
                    Some(r)
                },
            },
        }
    }
}

pub proof fn lemma_best_from_range(syms: Seq<SymModel>, mm: Map<u64, (u32, u32)>, i: int)
    ensures
        best_from(syms, mm, i) is Some ==> i <= (best_from(syms, mm, i)->0).0 < syms.len() - 1,
    decreases (if i <= syms.len() { syms.len() - i } else { 0 }),
{
    if !(i < 0 || i + 1 >= syms.len()) {
        lemma_best_from_range(syms, mm, i + 1);
    }
}

/// The symbols after merging the pair at position `i` into one symbol
/// with the given id.
pub open spec fn merge_at(syms: Seq<SymModel>, i: int, new_id: u32) -> Seq<SymModel> {
    syms.take(i) + seq![
        SymModel {
            id: Some(new_id),
            value: syms[i].value + syms[i + 1].value,
            cs: syms[i].cs,
            ce: syms[i + 1].ce,
        },
    ] + syms.skip(i + 2)
}

/// The fixed point of repeatedly applying the best merge.
pub open spec fn merge_loop(syms: Seq<SymModel>, mm: Map<u64, (u32, u32)>) -> Seq<SymModel>
    decreases syms.len(),
{
    match best_from(syms, mm, 0) {
        None => syms,
        Some(b) => {
            if 0 <= b.0 < syms.len() - 1 {
                merge_loop(merge_at(syms, b.0, b.2), mm)
            } else {
                syms
            }
        },
    }
}

/// The cached tokens of the merged symbols from position `j` on: each
/// symbol with an id becomes a token with its byte offsets in the
/// word; a symbol without one becomes the unknown token when it is
/// configured and in the vocabulary, and is dropped otherwise.
pub open spec fn syms_to_cached(
    vm: Map<Seq<char>, u32>,
    unk: Option<Seq<char>>,
    word: Seq<char>,
    syms: Seq<SymModel>,
    j: int,
) -> Seq<CachedTokenModel>
    decreases (if j <= syms.len() { syms.len() - j } else { 0 }),
{
    if j < 0 || j >= syms.len() {
        Seq::empty()
    } else {
        let s = syms[j];
        let offsets = (
            (byte_len(word.take(s.cs)) as usize),
            (byte_len(word.take(s.ce)) as usize),
        );
        let head: Seq<CachedTokenModel> = match s.id {
            Some(id) => seq![CachedTokenModel { id, value: s.value, offsets }],
            None => match unk {
                Some(u) => if vm.contains_key(u) {
                    seq![CachedTokenModel { id: vm[u], value: u, offsets }]
                } else {
                    Seq::empty()
                },
                None => Seq::empty(),
            },
        };
        head + syms_to_cached(vm, unk, word, syms, j + 1)
    }
}

/// The BPE tokens of one word, relative to the word itself.
pub open spec fn spec_word_pieces(
    vm: Map<Seq<char>, u32>,
    mm: Map<u64, (u32, u32)>,
    prefix: Seq<char>,
    suffix: Seq<char>,
    unk: Option<Seq<char>>,
    word: Seq<char>,
) -> Seq<CachedTokenModel> {
    syms_to_cached(vm, unk, word, merge_loop(spec_sym_init(vm, prefix, suffix, word), mm), 0)
}

/// The contents of the cache.
pub struct CacheInner {
    pub entries: Vec<(String, Vec<CachedToken>)>,
}

/// The invariant of the cache: it never exceeds its capacity, and
/// every entry holds exactly the BPE tokens of its word under the
/// model's maps.
pub struct CachePred {
    pub vm: Map<Seq<char>, u32>,
    pub mm: Map<u64, (u32, u32)>,
    pub prefix: Seq<char>,
    pub suffix: Seq<char>,
    pub unk: Option<Seq<char>>,
    pub capacity: int,
}

impl RwLockPredicate<CacheInner> for CachePred {
    open spec fn inv(self, v: CacheInner) -> bool {
        &&& v.entries@.len() <= self.capacity
        &&& forall|i: int| 0 <= i < v.entries@.len() ==> (#[trigger] v.entries@[i]).1.deep_view()
            == spec_word_pieces(
            self.vm,
            self.mm,
            self.prefix,
            self.suffix,
            self.unk,
            v.entries@[i].0@,
        )
    }
}

/// A bounded, best-effort cache of per-word BPE results, shared
/// behind a reader/writer lock. A read may miss; a write may be
/// dropped; neither affects the tokens produced.
pub struct Cache {
    pub lock: RwLock<CacheInner, CachePred>,
    pub capacity: usize,
}

impl Cache {
    pub open spec fn pred(&self) -> CachePred {
        self.lock.pred()
    }

    pub open spec fn wf(&self) -> bool {
        self.pred().capacity == self.capacity as int
    }

    /// An empty cache with the given capacity, for the model described
    /// by `pred`.
    pub fn new(capacity: usize, Ghost(pred): Ghost<CachePred>) -> (r: Cache)
        requires
            pred.capacity == capacity as int,
        ensures
            r.pred() == pred,
            r.wf(),
    {
        let inner = CacheInner { entries: Vec::new() };
        let lock = RwLock::new(inner, Ghost(pred));
        Cache { lock, capacity }
    }

    /// A fresh cache with the same capacity and model.
    pub fn fresh(&self) -> (r: Cache)
        requires
            self.wf(),
        ensures
            r.pred() == self.pred(),
            r.wf(),
    {
        Cache::new(self.capacity, Ghost(self.pred()))
    }

    /// Drop all entries.
    pub fn clear(&self)
        requires
            self.wf(),
    {
        let (_, handle) = self.lock.acquire_write();
        let empty = CacheInner { entries: Vec::new() };
        handle.release_write(empty);
    }

    /// Look every key up. An entry may be missing, but one that is
    /// returned holds exactly the BPE tokens of its word.
    pub fn get_values(&self, keys: &Vec<String>) -> (r: Option<Vec<Option<Vec<CachedToken>>>>)
        requires
            self.wf(),
        ensures
            match r {
                Some(vs) => {
                    &&& vs@.len() == keys@.len()
                    &&& forall|i: int| 0 <= i < vs@.len() ==> (#[trigger] vs@[i]) is Some
                        ==> (vs@[i]->0).deep_view() == spec_word_pieces(
                        self.pred().vm,
                        self.pred().mm,
                        self.pred().prefix,
                        self.pred().suffix,
                        self.pred().unk,
                        keys@[i]@,
                    )
                },
                None => true,
            },
    {
        let read_handle = self.lock.acquire_read();
        let inner = read_handle.borrow();
        let n: usize = keys.len();
        let mut out: Vec<Option<Vec<CachedToken>>> = Vec::new();
        let mut i: usize = 0;
        while i < n
            invariant
                n == keys@.len(),
                0 <= i <= n,
                out@.len() == i,
                self.pred().inv(*inner),
                forall|k: int| 0 <= k < i ==> (#[trigger] out@[k]) is Some ==> (out@[k]->0).deep_view()
                    == spec_word_pieces(
                    self.pred().vm,
                    self.pred().mm,
                    self.pred().prefix,
                    self.pred().suffix,
                    self.pred().unk,
                    keys@[k]@,
                ),
            decreases n - i,
        {
            let hit = lookup_inner(inner, &keys[i], Ghost(self.pred()));
            out.push(hit);
            i = i + 1;
        }
        read_handle.release_read();
        Some(out)
    }

    /// Record the given per-word results. An insertion is dropped
    /// rather than growing the cache past its capacity. Every recorded
    /// value must be the exact BPE tokens of its key.
    pub fn set_values(&self, keys: Vec<String>, values: Vec<Option<Vec<CachedToken>>>)
        requires
            self.wf(),
            keys@.len() == values@.len(),
            forall|i: int| 0 <= i < values@.len() ==> (#[trigger] values@[i]) is Some
                ==> (values@[i]->0).deep_view() == spec_word_pieces(
                self.pred().vm,
                self.pred().mm,
                self.pred().prefix,
                self.pred().suffix,
                self.pred().unk,
                keys@[i]@,
            ),
    {
        let (mut inner, handle) = self.lock.acquire_write();
        let n: usize = keys.len();
        let mut i: usize = 0;
        let mut keys = keys;
        let mut values = values;
        while i < n
            invariant
                n == keys@.len(),
                keys@.len() == values@.len(),
                0 <= i <= n,
                self.pred().inv(inner),
                forall|k: int| 0 <= k < values@.len() ==> (#[trigger] values@[k]) is Some
                    ==> (values@[k]->0).deep_view() == spec_word_pieces(
                    self.pred().vm,
                    self.pred().mm,
                    self.pred().prefix,
                    self.pred().suffix,
                    self.pred().unk,
                    keys@[k]@,
                ),
            decreases n - i,
        {
            let has_value = values[i].is_some();
            if has_value && inner.entries.len() < self.capacity {
                let mut value_opt: Option<Vec<CachedToken>> = None;
                core::mem::swap(&mut value_opt, &mut values[i]);
                match value_opt {
                    Some(v) => {
                        let key = keys[i].clone();
                        inner.entries.push((key, v));
                    },
                    None => {},
                }
            }
            i = i + 1;
        }
        handle.release_write(inner);
    }
}

/// The first cached entry for `key`, cloned.
fn lookup_inner(inner: &CacheInner, key: &String, Ghost(pred): Ghost<CachePred>) -> (r: Option<
    Vec<CachedToken>,
>)
    requires
        pred.inv(*inner),
    ensures
        r is Some ==> (r->0).deep_view() == spec_word_pieces(
            pred.vm,
            pred.mm,
            pred.prefix,
            pred.suffix,
            pred.unk,
            key@,
        ),
{
    let n: usize = inner.entries.len();
    let mut i: usize = 0;
    while i < n
        invariant
            n == inner.entries@.len(),
            0 <= i <= n,
            pred.inv(*inner),
        decreases n - i,
    {
        if inner.entries[i].0.eq(key) {
            let v = clone_cached(&inner.entries[i].1);
            proof {
                assert(inner.entries@[i as int].1.deep_view() == spec_word_pieces(
                    pred.vm,
                    pred.mm,
                    pred.prefix,
                    pred.suffix,
                    pred.unk,
                    key@,
                ));
            }
            return Some(v);
        }
        i = i + 1;
    }
    None
}

/// Symbol ranges are ordered within the word and do not overlap.
pub open spec fn syms_ordered(syms: Seq<SymModel>, wlen: int) -> bool {
    &&& forall|k: int| 0 <= k < syms.len() ==> 0 <= (#[trigger] syms[k]).cs <= syms[k].ce <= wlen
    &&& forall|k: int, l: int| 0 <= k < l < syms.len() ==> (#[trigger] syms[k]).ce
        <= (#[trigger] syms[l]).cs
}

pub proof fn lemma_sym_init_ordered(
    vm: Map<Seq<char>, u32>,
    prefix: Seq<char>,
    suffix: Seq<char>,
    word: Seq<char>,
)
    ensures
        syms_ordered(spec_sym_init(vm, prefix, suffix, word), word.len() as int),
{
}

pub proof fn lemma_merge_loop_ordered(syms: Seq<SymModel>, mm: Map<u64, (u32, u32)>, wlen: int)
    requires
        syms_ordered(syms, wlen),
    ensures
        syms_ordered(merge_loop(syms, mm), wlen),
    decreases syms.len(),
{
    match best_from(syms, mm, 0) {
        None => {},
        Some(b) => {
            lemma_best_from_range(syms, mm, 0);
            if 0 <= b.0 < syms.len() - 1 {
                let merged = merge_at(syms, b.0, b.2);
                assert(syms_ordered(merged, wlen)) by {
                    assert forall|k: int| 0 <= k < merged.len() implies 0 <= (#[trigger] merged[k]).cs
                        <= merged[k].ce <= wlen by {
                        if k < b.0 {
                            assert(merged[k] == syms[k]);
                        } else if k == b.0 {
                            assert(syms[b.0].ce <= syms[b.0 + 1].cs);
                        } else {
                            assert(merged[k] == syms[k + 1]);
                        }
                    }
                    assert forall|k: int, l: int| 0 <= k < l < merged.len() implies
                        (#[trigger] merged[k]).ce <= (#[trigger] merged[l]).cs by {
                        let ks = if k < b.0 { syms[k] } else if k == b.0 {
                            SymModel {
                                id: Some(b.2),
                                value: syms[b.0].value + syms[b.0 + 1].value,
                                cs: syms[b.0].cs,
                                ce: syms[b.0 + 1].ce,
                            }
                        } else { syms[k + 1] };
                        if k < b.0 {
                            assert(merged[k] == syms[k]);
                        } else if k > b.0 {
                            assert(merged[k] == syms[k + 1]);
                        }
                        if l < b.0 {
                            assert(merged[l] == syms[l]);
                        } else if l > b.0 {
                            assert(merged[l] == syms[l + 1]);
                        }
                    }
                }
                lemma_merge_loop_ordered(merged, mm, wlen);
            }
        },
    }
}

/// Every piece's byte offsets are ordered and within the word.
pub proof fn lemma_syms_to_cached_bounds(
    vm: Map<Seq<char>, u32>,
    unk: Option<Seq<char>>,
    word: Seq<char>,
    syms: Seq<SymModel>,
    j: int,
)
    requires
        syms_ordered(syms, word.len() as int),
        byte_len(word) <= usize::MAX,
    ensures
        forall|k: int|
            0 <= k < syms_to_cached(vm, unk, word, syms, j).len() ==> {
                let o = (#[trigger] syms_to_cached(vm, unk, word, syms, j)[k]).offsets;
                o.0 <= o.1 <= byte_len(word)
            },
    decreases (if j <= syms.len() { syms.len() - j } else { 0 }),
{
    if 0 <= j < syms.len() {
        lemma_syms_to_cached_bounds(vm, unk, word, syms, j + 1);
        let s = syms[j];
        crate::text::lemma_byte_len_take_mono(word, s.cs, s.ce);
        crate::text::lemma_byte_len_take_mono(word, s.ce, word.len() as int);
        assert(word.take(word.len() as int) =~= word);
        let whole = syms_to_cached(vm, unk, word, syms, j);
        let rest = syms_to_cached(vm, unk, word, syms, j + 1);
        assert forall|k: int| 0 <= k < whole.len() implies {
            let o = (#[trigger] whole[k]).offsets;
            o.0 <= o.1 <= byte_len(word)
        } by {
            let hl = whole.len() - rest.len();
            if k >= hl {
                assert(whole[k] == rest[k - hl]);
                assert(rest[k - hl].offsets.0 <= rest[k - hl].offsets.1 <= byte_len(word));
            }
        }
    }
}

/// The per-word pieces have ordered offsets within the word.
pub proof fn lemma_word_pieces_bounds(
    vm: Map<Seq<char>, u32>,
    mm: Map<u64, (u32, u32)>,
    prefix: Seq<char>,
    suffix: Seq<char>,
    unk: Option<Seq<char>>,
    word: Seq<char>,
)
    requires
        byte_len(word) <= usize::MAX,
    ensures
        forall|k: int|
            0 <= k < spec_word_pieces(vm, mm, prefix, suffix, unk, word).len() ==> {
                let o = (#[trigger] spec_word_pieces(vm, mm, prefix, suffix, unk, word)[k]).offsets;
                o.0 <= o.1 <= byte_len(word)
            },
{
    lemma_sym_init_ordered(vm, prefix, suffix, word);
    lemma_merge_loop_ordered(spec_sym_init(vm, prefix, suffix, word), mm, word.len() as int);
    lemma_syms_to_cached_bounds(
        vm,
        unk,
        word,
        merge_loop(spec_sym_init(vm, prefix, suffix, word), mm),
        0,
    );
}

/// The view of an optional unknown token.
pub open spec fn spec_opt_unk(o: Option<String>) -> Option<Seq<char>> {
    match o {
        Some(s) => Some(s@),
        None => None,
    }
}

/// A BPE model. Deterministic: merges are applied lowest rank first,
/// the leftmost of equal ranks first. An unknown token that is itself
/// missing from the vocabulary counts as unconfigured: unknown
/// characters are then dropped rather than reported (a configuration
/// choice the pipeline's description leaves open).
pub struct BPE {
    pub vocab: Vocab,
    pub merges: HashMapWithView<u64, (u32, u32)>,
    pub merge_pairs: Vec<(String, String)>,
    pub unk_token: Option<String>,
    pub continuing_subword_prefix: Option<String>,
    pub end_of_word_suffix: Option<String>,
    pub cache: Cache,
}

impl BPE {
    /// The cache's invariant speaks of exactly this model's maps.
    pub open spec fn wf(&self) -> bool {
        &&& self.vocab.wf()
        &&& self.cache.wf()
        &&& self.cache.pred() == (CachePred {
            vm: self.vocab@,
            mm: self.merges@,
            prefix: spec_opt_chars(self.continuing_subword_prefix),
            suffix: spec_opt_chars(self.end_of_word_suffix),
            unk: spec_opt_unk(self.unk_token),
            capacity: self.cache.capacity as int,
        })
    }

    /// The BPE tokens of one word, relative to the word itself.
    pub open spec fn spec_word_tokens(&self, word: Seq<char>) -> Seq<CachedTokenModel> {
        spec_word_pieces(
            self.vocab@,
            self.merges@,
            spec_opt_chars(self.continuing_subword_prefix),
            spec_opt_chars(self.end_of_word_suffix),
            spec_opt_unk(self.unk_token),
            word,
        )
    }

    pub fn builder() -> (r: BpeBuilder)
        ensures
            r.vocab@.len() == 0,
            r.merges@.len() == 0,
            r.cache_capacity == DEFAULT_CACHE_CAPACITY,
            r.unk_token is None,
            r.continuing_subword_prefix is None,
            r.end_of_word_suffix is None,
    {
        BpeBuilder {
            vocab: Vec::new(),
            merges: Vec::new(),
            cache_capacity: DEFAULT_CACHE_CAPACITY,
            unk_token: None,
            continuing_subword_prefix: None,
            end_of_word_suffix: None,
        }
    }

    pub fn get_vocab(&self) -> (r: &Vocab)
        ensures
            r == self.vocab,
    {
        &self.vocab
    }

    pub fn get_vocab_size(&self) -> (r: usize)
        requires
            self.wf(),
        ensures
            r == self.vocab.spec_entries().len(),
    {
        self.vocab.size()
    }

    pub fn get_unk_token(&self) -> (r: &Option<String>)
        ensures
            r == self.unk_token,
    {
        &self.unk_token
    }

    pub fn get_continuing_subword_prefix(&self) -> (r: &Option<String>)
        ensures
            r == self.continuing_subword_prefix,
    {
        &self.continuing_subword_prefix
    }

    /// The textual merge pairs the model was built from, in rank
    /// order.
    pub fn get_merges(&self) -> (r: &Vec<(String, String)>)
        ensures
            r == self.merge_pairs,
    {
        &self.merge_pairs
    }

    pub fn token_to_id(&self, token: &str) -> (r: Option<u32>)
        ensures
            r is Some <==> self.vocab@.contains_key(token@),
            r is Some ==> r->0 == self.vocab@[token@],
    {
        self.vocab.get(token)
    }

    pub fn id_to_token(&self, id: u32) -> (r: Option<String>)
        requires
            self.wf(),
        ensures
            match r {
                Some(t) => crate::models::vocab::first_token_of(self.vocab.spec_entries(), id, 0)
                    == Some(t@),
                None => crate::models::vocab::first_token_of(self.vocab.spec_entries(), id, 0)
                    is None,
            },
    {
        self.vocab.id_to_token(id)
    }
}

/// One cached piece instantiated at a word's position in the input.
pub open spec fn spec_instantiate(cts: Seq<CachedTokenModel>, wo0: int, idx: u32) -> Seq<
    TokenModel,
> {
    cts.map_values(
        |c: CachedTokenModel| TokenModel {
            id: c.id,
            value: c.value,
            offsets: (((wo0 + c.offsets.0) as usize), ((wo0 + c.offsets.1) as usize)),
            word: idx,
        },
    )
}

/// The BPE tokens of the pre-tokens from position `i` on.
pub open spec fn spec_bpe_from(bpe: &BPE, pts: Seq<(Seq<char>, (usize, usize))>, i: int) -> Seq<
    TokenModel,
>
    decreases (if i <= pts.len() { pts.len() - i } else { 0 }),
{
    if i < 0 || i >= pts.len() {
        Seq::empty()
    } else {
        spec_instantiate(bpe.spec_word_tokens(pts[i].0), pts[i].1.0 as int, i as u32)
            + spec_bpe_from(bpe, pts, i + 1)
    }
}

/// The BPE tokenization of a pre-token list. A pure function of the
/// vocabulary, the merges and the words; the cache never changes it.
pub open spec fn spec_bpe_tokenize(bpe: &BPE, pts: Seq<(Seq<char>, (usize, usize))>) -> Seq<
    TokenModel,
> {
    spec_bpe_from(bpe, pts, 0)
}

impl BPE {
    /// Tokenize the given pre-tokens, using the cache where it already
    /// holds a word. Never fails: unknown characters become the
    /// unknown token, or are dropped when none is configured.
    pub fn tokenize(&self, sentence: Vec<(String, (usize, usize))>) -> (r: Result<
        Vec<Token>,
        TokenizerError,
    >)
        requires
            self.wf(),
            sentence@.len() <= u32::MAX,
            forall|i: int| 0 <= i < sentence@.len() ==> (#[trigger] sentence@[i]).1.0 + byte_len(
                sentence@[i].0@,
            ) <= usize::MAX,
        ensures
            r is Ok,
            (r->Ok_0).deep_view() == spec_bpe_tokenize(self, crate::pre_tokenizers::pieces_view(sentence@)),
            forall|k: int| 0 <= k < (r->Ok_0)@.len() ==> (#[trigger] (r->Ok_0)@[k]).offsets.0
                <= (r->Ok_0)@[k].offsets.1,
    {
        let ghost pts = crate::pre_tokenizers::pieces_view(sentence@);
        let n: usize = sentence.len();
        let mut keys: Vec<String> = Vec::new();
        let mut i: usize = 0;
        while i < n
            invariant
                n == sentence@.len(),
                0 <= i <= n,
                keys@.len() == i,
                forall|j: int| 0 <= j < i ==> (#[trigger] keys@[j])@ == sentence@[j].0@,
            decreases n - i,
        {
            keys.push(sentence[i].0.clone());
            i = i + 1;
        }
        let mut hits: Vec<Option<Vec<CachedToken>>> = match self.cache.get_values(&keys) {
            Some(l) => l,
            None => Vec::new(),
        };
        while hits.len() < n
            invariant
                hits@.len() <= n,
                forall|j: int| 0 <= j < hits@.len() && j < n ==> (#[trigger] hits@[j]) is Some
                    ==> (hits@[j]->0).deep_view() == self.spec_word_tokens(sentence@[j].0@),
            decreases n - hits@.len(),
        {
            hits.push(None);
        }
        let mut out: Vec<Token> = Vec::new();
        let mut new_keys: Vec<String> = Vec::new();
        let mut new_vals: Vec<Option<Vec<CachedToken>>> = Vec::new();
        let mut i: usize = 0;
        proof {
            assert(out.deep_view() =~= Seq::<TokenModel>::empty());
        }
        while i < n
            invariant
                n == sentence@.len() <= u32::MAX,
                pts == crate::pre_tokenizers::pieces_view(sentence@),
                self.wf(),
                forall|j: int| 0 <= j < sentence@.len() ==> (#[trigger] sentence@[j]).1.0 + byte_len(
                    sentence@[j].0@,
                ) <= usize::MAX,
                0 <= i <= n,
                hits@.len() == n,
                forall|j: int| 0 <= j < n ==> (#[trigger] hits@[j]) is Some ==> (hits@[j]->0).deep_view()
                    == self.spec_word_tokens(sentence@[j].0@),
                spec_bpe_from(self, pts, 0) == out.deep_view() + spec_bpe_from(self, pts, i as int),
                new_keys@.len() == new_vals@.len(),
                forall|j: int| 0 <= j < new_vals@.len() ==> (#[trigger] new_vals@[j]) is Some
                    ==> (new_vals@[j]->0).deep_view() == spec_word_pieces(
                    self.cache.pred().vm,
                    self.cache.pred().mm,
                    self.cache.pred().prefix,
                    self.cache.pred().suffix,
                    self.cache.pred().unk,
                    new_keys@[j]@,
                ),
                forall|k: int| 0 <= k < out@.len() ==> (#[trigger] out@[k]).offsets.0
                    <= out@[k].offsets.1,
            decreases n - i,
        {
            let wo = sentence[i].1;
            let chars = str_chars(sentence[i].0.as_str());
            let ghost wv = pts[i as int].0;
            proof {
                crate::text::lemma_byte_len_at_least_len(wv);
            }
            let mut hit_opt: Option<Vec<CachedToken>> = None;
            core::mem::swap(&mut hit_opt, &mut hits[i]);
            let cts: Vec<CachedToken> = match hit_opt {
                Some(c) => c,
                None => {
                    let computed = self.compute_word(&chars);
                    let copy = clone_cached(&computed);
                    new_keys.push(sentence[i].0.clone());
                    new_vals.push(Some(copy));
                    computed
                },
            };
            proof {
                assert(cts.deep_view() == self.spec_word_tokens(wv));
                lemma_word_pieces_bounds(
                    self.vocab@,
                    self.merges@,
                    spec_opt_chars(self.continuing_subword_prefix),
                    spec_opt_chars(self.end_of_word_suffix),
                    spec_opt_unk(self.unk_token),
                    wv,
                );
            }
            let ghost out_pre = out.deep_view();
            let m: usize = cts.len();
            let mut k: usize = 0;
            let mut cts = cts;
            while k < m
                invariant
                    m == cts@.len(),
                    0 <= k <= m,
                    i < n,
                    cts.deep_view() == self.spec_word_tokens(wv),
                    wo == sentence@[i as int].1,
                    wo.0 + byte_len(wv) <= usize::MAX,
                    forall|j: int| 0 <= j < m ==> {
                        let o = (#[trigger] cts.deep_view()[j]).offsets;
                        o.0 <= o.1 <= byte_len(wv)
                    },
                    out.deep_view() =~= out_pre + spec_instantiate(
                        self.spec_word_tokens(wv),
                        wo.0 as int,
                        i as u32,
                    ).take(k as int),
                    forall|kk: int| 0 <= kk < out@.len() ==> (#[trigger] out@[kk]).offsets.0
                        <= out@[kk].offsets.1,
                decreases m - k,
            {
                let ghost out_k_pre = out.deep_view();
                let c = &cts[k];
                proof {
                    assert(cts.deep_view()[k as int] == cts@[k as int]@);
                }
                out.push(
                    Token {
                        id: c.id,
                        value: c.value.clone(),
                        offsets: (wo.0 + c.offsets.0, wo.0 + c.offsets.1),
                        word: i as u32,
                    },
                );
                k = k + 1;
                proof {
                    let inst = spec_instantiate(self.spec_word_tokens(wv), wo.0 as int, i as u32);
                    assert(out.deep_view() =~= out_k_pre.push(inst[k as int - 1])) by {
                        assert forall|j: int| 0 <= j < out@.len() implies #[trigger] out.deep_view()[j]
                            == out_k_pre.push(inst[k as int - 1])[j] by {
                            assert(out.deep_view()[j] == out@[j]@);
                        }
                    }
                    assert(out.deep_view() =~= out_pre + inst.take(k as int));
                }
            }
            i = i + 1;
            proof {
                let inst = spec_instantiate(self.spec_word_tokens(wv), wo.0 as int, (i - 1) as u32);
                assert(inst.take(inst.len() as int) =~= inst);
                assert(out_pre + inst + spec_bpe_from(self, pts, i as int) =~= out.deep_view()
                    + spec_bpe_from(self, pts, i as int));
            }
        }
        self.cache.set_values(new_keys, new_vals);
        proof {
            assert(out.deep_view() + Seq::<TokenModel>::empty() =~= out.deep_view());
        }
        Ok(out)
    }

    /// Compute the BPE tokens of one word (no cache involved).
    fn compute_word(&self, chars: &Vec<char>) -> (r: Vec<CachedToken>)
        requires
            self.wf(),
            byte_len(chars@) <= usize::MAX,
        ensures
            r.deep_view() == self.spec_word_tokens(chars@),
    {
        let ghost vm = self.vocab@;
        let ghost mm = self.merges@;
        let ghost prefix = spec_opt_chars(self.continuing_subword_prefix);
        let ghost suffix = spec_opt_chars(self.end_of_word_suffix);
        let nchars: usize = chars.len();
        // Initial symbols, one per character.
        let mut syms: Vec<Symbol> = Vec::new();
        let mut i: usize = 0;
        while i < nchars
            invariant
                nchars == chars@.len(),
                0 <= i <= nchars,
                syms@.len() == i,
                forall|j: int| 0 <= j < i ==> (#[trigger] syms@[j])@ == spec_sym_init(
                    vm,
                    prefix,
                    suffix,
                    chars@,
                )[j],
            decreases nchars - i,
        {
            let mut v: String = String::new();
            if i > 0 {
                match &self.continuing_subword_prefix {
                    Some(p) => {
                        v.append(p.as_str());
                    },
                    None => {},
                }
            }
            push_char(&mut v, chars[i]);
            if i + 1 == nchars {
                match &self.end_of_word_suffix {
                    Some(sfx) => {
                        v.append(sfx.as_str());
                    },
                    None => {},
                }
            }
            proof {
                assert(v@ =~= (if i > 0 {
                    prefix
                } else {
                    Seq::<char>::empty()
                }) + seq![chars@[i as int]] + (if i as int == chars@.len() - 1 {
                    suffix
                } else {
                    Seq::<char>::empty()
                }));
            }
            let id = self.vocab.get(v.as_str());
            syms.push(Symbol { id, value: v, cs: i, ce: i + 1 });
            i = i + 1;
        }
        proof {
            assert(syms.deep_view() =~= spec_sym_init(vm, prefix, suffix, chars@)) by {
                assert forall|j: int| 0 <= j < nchars as int implies #[trigger] syms.deep_view()[j]
                    == spec_sym_init(vm, prefix, suffix, chars@)[j] by {
                    assert(syms.deep_view()[j] == syms@[j]@);
                }
            }
        }
        let ghost orig = syms.deep_view();
        proof {
            lemma_sym_init_ordered(vm, prefix, suffix, chars@);
        }
        // Merge until no mergeable pair is left.
        let mut done: bool = false;
        while !done
            invariant
                merge_loop(syms.deep_view(), mm) == merge_loop(orig, mm),
                syms_ordered(syms.deep_view(), chars@.len() as int),
                done ==> merge_loop(syms.deep_view(), mm) == syms.deep_view(),
            decreases (if done {
                0int
            } else {
                1int
            }), syms@.len(),
        {
            match self.find_best(&syms) {
                Some((bi, _rank, nid)) => {
                    proof {
                        lemma_best_from_range(syms.deep_view(), mm, 0);
                    }
                    let ghost pre = syms.deep_view();
                    syms = merge_symbols(syms, bi, nid);
                    proof {
                        assert(syms_ordered(syms.deep_view(), chars@.len() as int)) by {
                            lemma_merge_step_ordered(pre, bi as int, nid, chars@.len() as int);
                        }
                    }
                },
                None => {
                    done = true;
                },
            }
        }
        // Map the merged symbols to tokens.
        let ghost final_syms = syms.deep_view();
        let mut out: Vec<CachedToken> = Vec::new();
        let mut j: usize = 0;
        let nsyms: usize = syms.len();
        proof {
            assert(syms_to_cached(vm, spec_opt_unk(self.unk_token), chars@, final_syms, 0)
                =~= out.deep_view() + syms_to_cached(
                vm,
                spec_opt_unk(self.unk_token),
                chars@,
                final_syms,
                0,
            ));
        }
        while j < nsyms
            invariant
                nsyms == syms@.len(),
                syms.deep_view() == final_syms,
                syms_ordered(final_syms, chars@.len() as int),
                byte_len(chars@) <= usize::MAX,
                self.wf(),
                vm == self.vocab@,
                0 <= j <= nsyms,
                syms_to_cached(vm, spec_opt_unk(self.unk_token), chars@, final_syms, 0)
                    == out.deep_view() + syms_to_cached(
                    vm,
                    spec_opt_unk(self.unk_token),
                    chars@,
                    final_syms,
                    j as int,
                ),
            decreases nsyms - j,
        {
            let ghost out_pre = out.deep_view();
            let cs: usize = syms[j].cs;
            let ce: usize = syms[j].ce;
            proof {
                assert(0 <= final_syms[j as int].cs <= final_syms[j as int].ce <= chars@.len());
            }
            let b1: usize = byte_len_upto(chars, cs);
            let b2: usize = byte_len_upto(chars, ce);
            let has_id = syms[j].id.is_some();
            if has_id {
                let id = match syms[j].id {
                    Some(id) => id,
                    None => 0,
                };
                let value = syms[j].value.clone();
                out.push(CachedToken { id, value, offsets: (b1, b2) });
            } else {
                match &self.unk_token {
                    Some(u) => {
                        match self.vocab.get(u.as_str()) {
                            Some(uid) => {
                                out.push(
                                    CachedToken { id: uid, value: u.clone(), offsets: (b1, b2) },
                                );
                            },
                            None => {},
                        }
                    },
                    None => {},
                }
            }
            j = j + 1;
            proof {
                let u = spec_opt_unk(self.unk_token);
                let s = final_syms[j as int - 1];
                let offs = (
                    (byte_len(chars@.take(s.cs)) as usize),
                    (byte_len(chars@.take(s.ce)) as usize),
                );
                let head: Seq<CachedTokenModel> = match s.id {
                    Some(id) => seq![CachedTokenModel { id, value: s.value, offsets: offs }],
                    None => match u {
                        Some(uu) => if vm.contains_key(uu) {
                            seq![CachedTokenModel { id: vm[uu], value: uu, offsets: offs }]
                        } else {
                            Seq::empty()
                        },
                        None => Seq::empty(),
                    },
                };
                assert(syms_to_cached(vm, u, chars@, final_syms, j as int - 1) == head
                    + syms_to_cached(vm, u, chars@, final_syms, j as int));
                assert(out.deep_view() =~= out_pre + head) by {
                    assert forall|kk: int| 0 <= kk < out@.len() implies
                        #[trigger] out.deep_view()[kk] == (out_pre + head)[kk] by {
                        assert(out.deep_view()[kk] == out@[kk]@);
                    }
                }
                assert(out_pre + head + syms_to_cached(vm, u, chars@, final_syms, j as int)
                    =~= out.deep_view() + syms_to_cached(vm, u, chars@, final_syms, j as int));
            }
        }
        proof {
            assert(syms_to_cached(vm, spec_opt_unk(self.unk_token), chars@, final_syms, nsyms as int)
                =~= Seq::<CachedTokenModel>::empty());
            assert(out.deep_view() + Seq::<CachedTokenModel>::empty() =~= out.deep_view());
        }
        out
    }

    /// The leftmost lowest-rank mergeable adjacent pair.
    fn find_best(&self, syms: &Vec<Symbol>) -> (r: Option<(usize, u32, u32)>)
        requires
            self.wf(),
        ensures
            match r {
                None => best_from(syms.deep_view(), self.merges@, 0) is None,
                Some(t) => best_from(syms.deep_view(), self.merges@, 0) == Some(
                    (t.0 as int, t.1, t.2),
                ) && t.0 + 1 < syms@.len(),
            },
    {
        let ghost mm = self.merges@;
        let n: usize = syms.len();
        if n < 2 {
            return None;
        }
        let mut i: usize = n - 1;
        let mut best: Option<(usize, u32, u32)> = None;
        while i > 0
            invariant
                n == syms@.len(),
                2 <= n,
                0 <= i <= n - 1,
                match best {
                    None => best_from(syms.deep_view(), mm, i as int) is None,
                    Some(t) => best_from(syms.deep_view(), mm, i as int) == Some(
                        (t.0 as int, t.1, t.2),
                    ) && t.0 + 1 < n,
                },
            decreases i,
        {
            i = i - 1;
            let cur: Option<(usize, u32, u32)> = {
                let a = &syms[i];
                let b = &syms[i + 1];
                match (a.id, b.id) {
                    (Some(ida), Some(idb)) => {
                        let key = pair_key(ida, idb);
                        match self.merges.get(&key) {
                            Some(rn) => Some((i, rn.0, rn.1)),
                            None => None,
                        }
                    },
                    _ => None,
                }
            };
            best = match (cur, best) {
                (None, b) => b,
                (Some(c), None) => Some(c),
                (Some(c), Some(b)) => if c.1 <= b.1 {
                    Some(c)
                } else {
                    Some(b)
                },
            };
        }
        best
    }
}

/// Merging the pair at `bi` keeps the symbol ranges ordered.
pub proof fn lemma_merge_step_ordered(syms: Seq<SymModel>, bi: int, nid: u32, wlen: int)
    requires
        syms_ordered(syms, wlen),
        0 <= bi < syms.len() - 1,
    ensures
        syms_ordered(merge_at(syms, bi, nid), wlen),
{
    let merged = merge_at(syms, bi, nid);
    assert forall|k: int| 0 <= k < merged.len() implies 0 <= (#[trigger] merged[k]).cs
        <= merged[k].ce <= wlen by {
        if k < bi {
            assert(merged[k] == syms[k]);
        } else if k == bi {
            assert(syms[bi].ce <= syms[bi + 1].cs);
        } else {
            assert(merged[k] == syms[k + 1]);
        }
    }
    assert forall|k: int, l: int| 0 <= k < l < merged.len() implies (#[trigger] merged[k]).ce
        <= (#[trigger] merged[l]).cs by {
        if k < bi {
            assert(merged[k] == syms[k]);
        } else if k > bi {
            assert(merged[k] == syms[k + 1]);
        }
        if l < bi {
            assert(merged[l] == syms[l]);
        } else if l > bi {
            assert(merged[l] == syms[l + 1]);
        }
    }
}

/// The symbols with the pair at `bi` merged into one.
fn merge_symbols(syms: Vec<Symbol>, bi: usize, nid: u32) -> (r: Vec<Symbol>)
    requires
        bi + 1 < syms@.len(),
    ensures
        r.deep_view() == merge_at(syms.deep_view(), bi as int, nid),
        r@.len() == syms@.len() - 1,
{
    let n: usize = syms.len();
    let mut r: Vec<Symbol> = Vec::new();
    let mut i: usize = 0;
    while i < bi
        invariant
            bi + 1 < n,
            n == syms@.len(),
            0 <= i <= bi,
            r@.len() == i,
            forall|j: int| 0 <= j < i ==> (#[trigger] r@[j])@ == syms@[j]@,
        decreases bi - i,
    {
        let s = &syms[i];
        r.push(Symbol { id: s.id, value: s.value.clone(), cs: s.cs, ce: s.ce });
        i = i + 1;
    }
    let merged_value = syms[bi].value.clone().concat(syms[bi + 1].value.as_str());
    r.push(Symbol { id: Some(nid), value: merged_value, cs: syms[bi].cs, ce: syms[bi + 1].ce });
    let mut i: usize = bi + 2;
    while i < n
        invariant
            bi + 1 < n,
            n == syms@.len(),
            bi + 2 <= i <= n,
            r@.len() == i - 1,
            forall|j: int| 0 <= j < bi ==> (#[trigger] r@[j])@ == syms@[j]@,
            r@[bi as int]@ == (SymModel {
                id: Some(nid),
                value: syms@[bi as int]@.value + syms@[bi as int + 1]@.value,
                cs: syms@[bi as int]@.cs,
                ce: syms@[bi as int + 1]@.ce,
            }),
            forall|j: int| bi < j < i - 1 ==> (#[trigger] r@[j])@ == syms@[j + 1]@,
        decreases n - i,
    {
        let s = &syms[i];
        r.push(Symbol { id: s.id, value: s.value.clone(), cs: s.cs, ce: s.ce });
        i = i + 1;
    }
    proof {
        assert forall|j: int| 0 <= j < r@.len() implies #[trigger] r.deep_view()[j] == merge_at(
            syms.deep_view(),
            bi as int,
            nid,
        )[j] by {
            assert(r.deep_view()[j] == r@[j]@);
            assert(syms.deep_view()[j] == syms@[j]@);
            if j > bi {
                assert(syms.deep_view()[j + 1] == syms@[j + 1]@);
            }
        }
        assert(r.deep_view() =~= merge_at(syms.deep_view(), bi as int, nid));
    }
    r
}

/// Tokens of fitting pieces have ordered offsets within `b`.
pub proof fn lemma_bpe_from_bound(bpe: &BPE, pts: Seq<(Seq<char>, (usize, usize))>, i: int, b: int)
    requires
        crate::models::pieces_fit(pts, b),
        b <= usize::MAX,
    ensures
        forall|k: int| 0 <= k < spec_bpe_from(bpe, pts, i).len() ==> (#[trigger] spec_bpe_from(
            bpe,
            pts,
            i,
        )[k]).offsets.0 <= spec_bpe_from(bpe, pts, i)[k].offsets.1 <= b,
    decreases (if i <= pts.len() { pts.len() - i } else { 0 }),
{
    if !(i < 0 || i >= pts.len()) {
        lemma_bpe_from_bound(bpe, pts, i + 1, b);
        let word = pts[i].0;
        let wo = pts[i].1;
        lemma_word_pieces_bounds(
            bpe.vocab@,
            bpe.merges@,
            spec_opt_chars(bpe.continuing_subword_prefix),
            spec_opt_chars(bpe.end_of_word_suffix),
            spec_opt_unk(bpe.unk_token),
            word,
        );
        let cts = bpe.spec_word_tokens(word);
        let inst = spec_instantiate(cts, wo.0 as int, i as u32);
        let whole = inst + spec_bpe_from(bpe, pts, i + 1);
        assert forall|k: int| 0 <= k < whole.len() implies (#[trigger] whole[k]).offsets.0
            <= whole[k].offsets.1 <= b by {
            if k < inst.len() {
                assert(whole[k] == inst[k]);
                assert(cts[k].offsets.0 <= cts[k].offsets.1 <= byte_len(word));
            } else {
                assert(whole[k] == spec_bpe_from(bpe, pts, i + 1)[k - inst.len()]);
            }
        }
    }
}

/// The BPE tokenization from position `i` is the same for two models
/// agreeing on vocabulary, merges and markers.
pub proof fn lemma_bpe_from_eq(a: &BPE, b: &BPE, pts: Seq<(Seq<char>, (usize, usize))>, i: int)
    requires
        a.vocab@ == b.vocab@,
        a.merges@ == b.merges@,
        spec_opt_chars(a.continuing_subword_prefix) == spec_opt_chars(b.continuing_subword_prefix),
        spec_opt_chars(a.end_of_word_suffix) == spec_opt_chars(b.end_of_word_suffix),
        spec_opt_unk(a.unk_token) == spec_opt_unk(b.unk_token),
    ensures
        spec_bpe_from(a, pts, i) == spec_bpe_from(b, pts, i),
    decreases (if i <= pts.len() { pts.len() - i } else { 0 }),
{
    if !(i < 0 || i >= pts.len()) {
        assert(a.spec_word_tokens(pts[i].0) == b.spec_word_tokens(pts[i].0));
        lemma_bpe_from_eq(a, b, pts, i + 1);
    }
}

/// Deterministic BPE: the tokenization is a pure function of the
/// vocabulary, the merges and the marker configuration. Two models
/// agreeing on those tokenize every pre-token list identically,
/// whatever their caches hold and whatever capacity (including zero)
/// their caches were given.
pub proof fn lemma_bpe_deterministic(a: &BPE, b: &BPE, pts: Seq<(Seq<char>, (usize, usize))>)
    requires
        a.vocab@ == b.vocab@,
        a.merges@ == b.merges@,
        spec_opt_chars(a.continuing_subword_prefix) == spec_opt_chars(b.continuing_subword_prefix),
        spec_opt_chars(a.end_of_word_suffix) == spec_opt_chars(b.end_of_word_suffix),
        spec_opt_unk(a.unk_token) == spec_opt_unk(b.unk_token),
    ensures
        spec_bpe_tokenize(a, pts) == spec_bpe_tokenize(b, pts),
{
    lemma_bpe_from_eq(a, b, pts, 0);
}

/// The view of a merge pair list.
pub open spec fn merges_view(v: Seq<(String, String)>) -> Seq<(Seq<char>, Seq<char>)> {
    v.map_values(|p: (String, String)| (p.0@, p.1@))
}

/// The merge map described by the first `i` merge pairs: pair `k`
/// maps the ids of its two tokens to rank `k` and the id of their
/// concatenation. `Err` when a token of a pair, or the concatenation,
/// is not in the vocabulary.
pub open spec fn spec_merges_upto(
    vm: Map<Seq<char>, u32>,
    pairs: Seq<(Seq<char>, Seq<char>)>,
    i: int,
) -> Result<Map<u64, (u32, u32)>, TokenizerError>
    decreases (if i >= 0 { i } else { 0 }),
{
    if i <= 0 {
        Ok(Map::empty())
    } else {
        match spec_merges_upto(vm, pairs, i - 1) {
            Err(e) => Err(e),
            Ok(m) => {
                let a = pairs[i - 1].0;
                let b = pairs[i - 1].1;
                if vm.contains_key(a) && vm.contains_key(b) && vm.contains_key(a + b) {
                    Ok(m.insert(spec_pair_key(vm[a], vm[b]), (((i - 1) as u32), vm[a + b])))
                } else {
                    Err(TokenizerError::VocabLoad)
                }
            },
        }
    }
}

/// Configuration of a `BPE` model under construction.
pub struct BpeBuilder {
    pub vocab: Vec<(String, u32)>,
    pub merges: Vec<(String, String)>,
    pub cache_capacity: usize,
    pub unk_token: Option<String>,
    pub continuing_subword_prefix: Option<String>,
    pub end_of_word_suffix: Option<String>,
}

impl BpeBuilder {
    /// Set the vocabulary entries and the merge pairs (in rank order).
    pub fn vocab_and_merges(self, vocab: Vec<(String, u32)>, merges: Vec<(String, String)>) -> (r:
        BpeBuilder)
        ensures
            r == (BpeBuilder { vocab, merges, ..self }),
    {
        BpeBuilder { vocab, merges, ..self }
    }

    /// Set the cache capacity; 0 disables the cache.
    pub fn cache_capacity(self, cache_capacity: usize) -> (r: BpeBuilder)
        ensures
            r == (BpeBuilder { cache_capacity, ..self }),
    {
        BpeBuilder { cache_capacity, ..self }
    }

    /// Set the unknown token.
    pub fn unk_token(self, unk_token: String) -> (r: BpeBuilder)
        ensures
            r == (BpeBuilder { unk_token: Some(unk_token), ..self }),
    {
        BpeBuilder { unk_token: Some(unk_token), ..self }
    }

    /// Set the prefix of continuing subword pieces.
    pub fn continuing_subword_prefix(self, prefix: String) -> (r: BpeBuilder)
        ensures
            r == (BpeBuilder { continuing_subword_prefix: Some(prefix), ..self }),
    {
        BpeBuilder { continuing_subword_prefix: Some(prefix), ..self }
    }

    /// Set the end-of-word suffix.
    pub fn end_of_word_suffix(self, suffix: String) -> (r: BpeBuilder)
        ensures
            r == (BpeBuilder { end_of_word_suffix: Some(suffix), ..self }),
    {
        BpeBuilder { end_of_word_suffix: Some(suffix), ..self }
    }

    /// Build the model. Fails with `VocabLoad` exactly when the
    /// vocabulary repeats a token or an id, or a merge pair names a
    /// token (or concatenation) missing from the vocabulary.
    pub fn build(self) -> (r: Result<BPE, TokenizerError>)
        requires
            self.merges@.len() <= u32::MAX,
        ensures
            match r {
                Ok(bpe) => {
                    &&& bpe.wf()
                    &&& bpe.vocab@ == crate::models::vocab::entries_map(
                        crate::models::vocab::entries_view(self.vocab@),
                    )
                    &&& Ok::<Map<u64, (u32, u32)>, TokenizerError>(bpe.merges@) == spec_merges_upto(
                        bpe.vocab@,
                        merges_view(self.merges@),
                        self.merges@.len() as int,
                    )
                    &&& bpe.merge_pairs == self.merges
                    &&& bpe.unk_token == self.unk_token
                    &&& bpe.continuing_subword_prefix == self.continuing_subword_prefix
                    &&& bpe.end_of_word_suffix == self.end_of_word_suffix
                    &&& bpe.cache.capacity == self.cache_capacity
                },
                Err(e) => e == TokenizerError::VocabLoad,
            },
    {
        let vocab = match Vocab::from_entries(self.vocab) {
            Ok(v) => v,
            Err(e) => {
                return Err(TokenizerError::VocabLoad);
            },
        };
        let ghost vm = vocab@;
        let ghost pv = merges_view(self.merges@);
        let nm: usize = self.merges.len();
        let mut mm: HashMapWithView<u64, (u32, u32)> = HashMapWithView::new();
        let mut i: usize = 0;
        while i < nm
            invariant
                nm == self.merges@.len() <= u32::MAX,
                pv == merges_view(self.merges@),
                vm == vocab@,
                vocab.wf(),
                0 <= i <= nm,
                spec_merges_upto(vm, pv, i as int) == Ok::<Map<u64, (u32, u32)>, TokenizerError>(
                    mm@,
                ),
            decreases nm - i,
        {
            let a = &self.merges[i].0;
            let b = &self.merges[i].1;
            let ida = match vocab.get(a.as_str()) {
                Some(id) => id,
                None => {
                    return Err(TokenizerError::VocabLoad);
                },
            };
            let idb = match vocab.get(b.as_str()) {
                Some(id) => id,
                None => {
                    return Err(TokenizerError::VocabLoad);
                },
            };
            let merged = a.clone().concat(b.as_str());
            let idm = match vocab.get(merged.as_str()) {
                Some(id) => id,
                None => {
                    return Err(TokenizerError::VocabLoad);
                },
            };
            mm.insert(pair_key(ida, idb), (i as u32, idm));
            i = i + 1;
        }
        let ghost pred = CachePred {
            vm,
            mm: mm@,
            prefix: spec_opt_chars(self.continuing_subword_prefix),
            suffix: spec_opt_chars(self.end_of_word_suffix),
            unk: spec_opt_unk(self.unk_token),
            capacity: self.cache_capacity as int,
        };
        let cache = Cache::new(self.cache_capacity, Ghost(pred));
        Ok(
            BPE {
                vocab,
                merges: mm,
                merge_pairs: self.merges,
                unk_token: self.unk_token,
                continuing_subword_prefix: self.continuing_subword_prefix,
                end_of_word_suffix: self.end_of_word_suffix,
                cache,
            },
        )
    }
}

/// A copy of a cached token list.
fn clone_cached(v: &Vec<CachedToken>) -> (r: Vec<CachedToken>)
    ensures
        r.deep_view() == v.deep_view(),
{
    let n: usize = v.len();
    let mut r: Vec<CachedToken> = Vec::new();
    let mut i: usize = 0;
    while i < n
        invariant
            n == v@.len(),
            0 <= i <= n,
            r@.len() == i,
            forall|j: int| 0 <= j < i ==> (#[trigger] r@[j])@ == v@[j]@,
        decreases n - i,
    {
        let c = &v[i];
        r.push(CachedToken { id: c.id, value: c.value.clone(), offsets: c.offsets });
        i = i + 1;
    }
    proof {
        assert forall|j: int| 0 <= j < n as int implies #[trigger] r.deep_view()[j]
            == v.deep_view()[j] by {
            assert(r.deep_view()[j] == r@[j]@);
            assert(v.deep_view()[j] == v@[j]@);
        }
        assert(r.deep_view() =~= v.deep_view());
    }
    r
}

} // verus!
