//! The added-vocabulary overlay: user and special tokens that match
//! before the pipeline and tokenize as single atomic ids.

use vstd::prelude::*;

use crate::models::{spec_model_entries, spec_model_vocab, ModelWrapper};
use crate::normalized::{
    clamp_entry,
    boundary_char_index, char_of_boundary, lemma_char_of_boundary, spec_slice_ns, NormalizedString,
    NsModel, ns_wf,
};
use crate::normalizer::{spec_normalize, NormalizerWrapper};
use crate::outside::is_uni_alphanumeric;
use crate::text::{byte_len, byte_len_upto, lemma_byte_len_take_mono, str_chars};
use vstd::hash_map::StringHashMap;

verus! {

/// Ghost record of an added token.
#[verifier::ext_equal]
pub struct AddedTokenModel {
    pub content: Seq<char>,
    pub single_word: bool,
    pub lstrip: bool,
    pub rstrip: bool,
    pub normalized: bool,
    pub special: bool,
}

/// A token registered with the tokenizer to be emitted atomically.
pub struct AddedToken {
    pub content: String,
    pub single_word: bool,
    pub lstrip: bool,
    pub rstrip: bool,
    pub normalized: bool,
    pub special: bool,
}

impl View for AddedToken {
    type V = AddedTokenModel;

    open spec fn view(&self) -> AddedTokenModel {
        AddedTokenModel {
            content: self.content@,
            single_word: self.single_word,
            lstrip: self.lstrip,
            rstrip: self.rstrip,
            normalized: self.normalized,
            special: self.special,
        }
    }
}

impl AddedToken {
    /// A token with the given content. Special tokens match on the
    /// original surface form; user tokens on the normalized one.
    pub fn from(content: String, special: bool) -> (r: AddedToken)
        ensures
            r@ == (AddedTokenModel {
                content: content@,
                single_word: false,
                lstrip: false,
                rstrip: false,
                normalized: !special,
                special,
            }),
    {
        AddedToken {
            content,
            single_word: false,
            lstrip: false,
            rstrip: false,
            normalized: !special,
            special,
        }
    }

    pub fn clone_token(&self) -> (r: AddedToken)
        ensures
            r@ == self@,
    {
        AddedToken {
            content: self.content.clone(),
            single_word: self.single_word,
            lstrip: self.lstrip,
            rstrip: self.rstrip,
            normalized: self.normalized,
            special: self.special,
        }
    }
}

/// The view of an added-entry list.
pub open spec fn av_view(v: Seq<(AddedToken, u32)>) -> Seq<(AddedTokenModel, u32)> {
    v.map_values(|e: (AddedToken, u32)| (e.0@, e.1))
}

/// The content map described by an entry list: content to id and
/// special flag.
pub open spec fn av_map(s: Seq<(AddedTokenModel, u32)>) -> Map<Seq<char>, (u32, bool)>
    decreases s.len(),
{
    if s.len() == 0 {
        Map::empty()
    } else {
        av_map(s.drop_last()).insert(s.last().0.content, (s.last().1, s.last().0.special))
    }
}

/// A content is in the map exactly when some entry holds it.
pub proof fn lemma_av_map_contains(s: Seq<(AddedTokenModel, u32)>, t: Seq<char>)
    ensures
        av_map(s).contains_key(t) <==> exists|i: int| 0 <= i < s.len() && (#[trigger] s[i]).0.content
            == t,
    decreases s.len(),
{
    if s.len() > 0 {
        lemma_av_map_contains(s.drop_last(), t);
        if av_map(s).contains_key(t) && s.last().0.content != t {
            let i = choose|i: int| 0 <= i < s.len() - 1 && (#[trigger] s.drop_last()[i]).0.content == t;
            assert(s[i].0.content == t);
        }
        if exists|i: int| 0 <= i < s.len() && (#[trigger] s[i]).0.content == t {
            let i = choose|i: int| 0 <= i < s.len() && (#[trigger] s[i]).0.content == t;
            if i < s.len() - 1 {
                assert(s.drop_last()[i].0.content == t);
            }
        }
    }
}

/// Unique contents: the map sends each entry's content to its id and
/// special flag.
pub proof fn lemma_av_map_at(s: Seq<(AddedTokenModel, u32)>, k: int)
    requires
        forall|i: int, j: int| 0 <= i < j < s.len() ==> (#[trigger] s[i]).0.content
            != (#[trigger] s[j]).0.content,
        0 <= k < s.len(),
    ensures
        av_map(s).contains_key(s[k].0.content),
        av_map(s)[s[k].0.content] == (s[k].1, s[k].0.special),
    decreases s.len(),
{
    if k == s.len() - 1 {
    } else {
        assert(forall|i: int, j: int| 0 <= i < j < s.len() - 1 ==> (#[trigger] s.drop_last()[i]).0.content
            != (#[trigger] s.drop_last()[j]).0.content);
        lemma_av_map_at(s.drop_last(), k);
        assert(s.drop_last()[k] == s[k]);
        assert(s[k].0.content != s.last().0.content);
    }
}

/// The entries with the token of the given content flagged special.
pub open spec fn mark_special(s: Seq<(AddedTokenModel, u32)>, content: Seq<char>) -> Seq<
    (AddedTokenModel, u32),
> {
    s.map_values(
        |e: (AddedTokenModel, u32)|
            if e.0.content == content {
                (AddedTokenModel { special: true, ..e.0 }, e.1)
            } else {
                e
            },
    )
}

/// Marking a content no entry holds changes nothing.
pub proof fn lemma_mark_special_absent(s: Seq<(AddedTokenModel, u32)>, content: Seq<char>)
    requires
        forall|i: int| 0 <= i < s.len() ==> (#[trigger] s[i]).0.content != content,
    ensures
        mark_special(s, content) == s,
{
    assert(mark_special(s, content) =~= s);
}

/// Marking the (unique) entry of `content` special updates exactly its
/// map value.
pub proof fn lemma_mark_special_av_map(s: Seq<(AddedTokenModel, u32)>, content: Seq<char>, k: int)
    requires
        forall|i: int, j: int| 0 <= i < j < s.len() ==> (#[trigger] s[i]).0.content
            != (#[trigger] s[j]).0.content,
        0 <= k < s.len(),
        s[k].0.content == content,
    ensures
        av_map(mark_special(s, content)) == av_map(s).insert(content, (s[k].1, true)),
    decreases s.len(),
{
    let m = mark_special(s, content);
    assert(m.drop_last() =~= mark_special(s.drop_last(), content));
    if s.last().0.content == content {
        assert(k == s.len() - 1) by {
            if k < s.len() - 1 {
                assert(s[k].0.content != s[s.len() - 1].0.content);
            }
        }
        assert(forall|i: int| 0 <= i < s.len() - 1 ==> (#[trigger] s.drop_last()[i]).0.content
            != content);
        lemma_mark_special_absent(s.drop_last(), content);
        assert(m.last() == (AddedTokenModel { special: true, ..s.last().0 }, s.last().1));
        assert(av_map(m) =~= av_map(s).insert(content, (s[k].1, true)));
    } else {
        assert(k < s.len() - 1);
        assert(forall|i: int, j: int| 0 <= i < j < s.len() - 1 ==> (#[trigger] s.drop_last()[i]).0.content
            != (#[trigger] s.drop_last()[j]).0.content);
        assert(s.drop_last()[k] == s[k]);
        lemma_mark_special_av_map(s.drop_last(), content, k);
        assert(m.last() == s.last());
        assert(av_map(m) == av_map(s.drop_last()).insert(content, (s[k].1, true)).insert(
            s.last().0.content,
            (s.last().1, s.last().0.special),
        ));
        assert(av_map(m) =~= av_map(s).insert(content, (s[k].1, true)));
    }
}

/// The registered tokens (in registration order, with their effective
/// ids) and how many of them carry overlay-assigned ids.
#[verifier::ext_equal]
pub struct AvState {
    pub entries: Seq<(AddedTokenModel, u32)>,
    pub overlay: int,
}

/// Adding one token. Already-registered content keeps its id; when
/// the incoming token is special and the stored one is not, the
/// stored token is flagged special (a special registration always
/// wins; it is never undone). Content the model already knows is
/// registered under the model's id (so it still matches atomically
/// with its special flag); fresh content gets the next dense overlay
/// id.
pub open spec fn spec_add_one(
    st: AvState,
    mv: Map<Seq<char>, u32>,
    base: int,
    t: AddedTokenModel,
) -> AvState {
    if av_map(st.entries).contains_key(t.content) {
        if t.special && !av_map(st.entries)[t.content].1 {
            AvState { entries: mark_special(st.entries, t.content), overlay: st.overlay }
        } else {
            st
        }
    } else if mv.contains_key(t.content) {
        AvState { entries: st.entries.push((t, mv[t.content])), overlay: st.overlay }
    } else {
        AvState {
            entries: st.entries.push((t, ((base + st.overlay) as u32))),
            overlay: st.overlay + 1,
        }
    }
}

/// Adding a list of tokens, in order.
pub open spec fn spec_add_all(
    st: AvState,
    mv: Map<Seq<char>, u32>,
    base: int,
    toks: Seq<AddedTokenModel>,
    i: int,
) -> AvState
    decreases (if i <= toks.len() { toks.len() - i } else { 0 }),
{
    if i < 0 || i >= toks.len() {
        st
    } else {
        spec_add_all(spec_add_one(st, mv, base, toks[i]), mv, base, toks, i + 1)
    }
}

/// The overlay of added and special tokens, with its compiled match
/// lists (the entries themselves, split by surface form at match
/// time).
pub struct AddedVocabulary {
    pub entries: Vec<(AddedToken, u32)>,
    pub map: StringHashMap<(u32, bool)>,
    pub overlay_len: usize,
}

impl AddedVocabulary {
    pub open spec fn spec_entries(&self) -> Seq<(AddedTokenModel, u32)> {
        av_view(self.entries@)
    }

    pub open spec fn spec_state(&self) -> AvState {
        AvState { entries: self.spec_entries(), overlay: self.overlay_len as int }
    }

    pub open spec fn wf(&self) -> bool {
        &&& self.map@ == av_map(self.spec_entries())
        &&& forall|i: int, j: int| 0 <= i < j < self.spec_entries().len()
            ==> (#[trigger] self.spec_entries()[i]).0.content
            != (#[trigger] self.spec_entries()[j]).0.content
        &&& self.overlay_len <= self.spec_entries().len()
    }

    pub fn new() -> (r: AddedVocabulary)
        ensures
            r.wf(),
            r.spec_entries().len() == 0,
            r.overlay_len == 0,
    {
        let r = AddedVocabulary {
            entries: Vec::new(),
            map: StringHashMap::new(),
            overlay_len: 0,
        };
        proof {
            assert(av_view(r.entries@) =~= Seq::<(AddedTokenModel, u32)>::empty());
        }
        r
    }

    /// The number of overlay ids in use: how many registered tokens
    /// extend the vocabulary past the model's.
    pub fn len(&self) -> (r: usize)
        ensures
            r == self.overlay_len,
    {
        self.overlay_len
    }

    /// The overlay's own entries, in insertion order.
    pub fn get_vocab(&self) -> (r: &Vec<(AddedToken, u32)>)
        ensures
            av_view(r@) == self.spec_entries(),
    {
        &self.entries
    }

    /// Add the given tokens (as they are). Returns how many received a
    /// fresh overlay id; overlay ids are dense, starting right after
    /// the model's vocabulary. A token the model already knows is
    /// still registered (it matches atomically and keeps its special
    /// flag) under the model's own id.
    pub fn add_tokens(
        &mut self,
        tokens: &Vec<AddedToken>,
        model: &ModelWrapper,
        _normalizer: Option<&NormalizerWrapper>,
    ) -> (r: usize)
        requires
            old(self).wf(),
            model.wf(),
            spec_model_entries(model).len() + old(self).overlay_len + tokens@.len() <= u32::MAX,
        ensures
            final(self).wf(),
            final(self).spec_state() == spec_add_all(
                old(self).spec_state(),
                spec_model_vocab(model),
                spec_model_entries(model).len() as int,
                tokens@.map_values(|t: AddedToken| t@),
                0,
            ),
            r == final(self).overlay_len - old(self).overlay_len,
    {
        let ghost mv = spec_model_vocab(model);
        let ghost base = spec_model_entries(model).len() as int;
        let ghost toks = tokens@.map_values(|t: AddedToken| t@);
        let base_size: usize = model.vocab_size();
        let before: usize = self.overlay_len;
        let n: usize = tokens.len();
        let mut i: usize = 0;
        while i < n
            invariant
                n == tokens@.len(),
                toks == tokens@.map_values(|t: AddedToken| t@),
                mv == spec_model_vocab(model),
                base == spec_model_entries(model).len() as int,
                base_size as int == base,
                model.wf(),
                0 <= i <= n,
                before <= self.overlay_len,
                base + before + n <= u32::MAX,
                self.overlay_len <= before + i,
                self.wf(),
                self.spec_state() == spec_add_all_prefix_helper(
                    old(self).spec_state(),
                    mv,
                    base,
                    toks,
                    i as int,
                ),
            decreases n - i,
        {
            let t = tokens[i].clone_token();
            let model_id: Option<u32> = model.token_to_id_model(t.content.as_str());
            let stored: Option<(u32, bool)> = match self.map.get(t.content.as_str()) {
                Some(p) => Some(*p),
                None => None,
            };
            proof {
                lemma_av_map_contains(self.spec_entries(), t.content@);
            }
            let ghost pre = self.spec_state();
            match stored {
                None => {
                    let id: u32 = match model_id {
                        Some(mid) => mid,
                        None => (base_size + self.overlay_len) as u32,
                    };
                    let is_fresh = model_id.is_none();
                    self.map.insert(t.content.clone(), (id, t.special));
                    self.entries.push((t, id));
                    if is_fresh {
                        self.overlay_len = self.overlay_len + 1;
                    }
                    proof {
                        assert(self.spec_entries() =~= pre.entries.push((toks[i as int], id)));
                        assert(self.spec_entries().drop_last() =~= pre.entries);
                        assert(av_map(self.spec_entries()) == av_map(pre.entries).insert(
                            toks[i as int].content,
                            (id, toks[i as int].special),
                        ));
                        assert forall|a: int, b: int|
                            0 <= a < b < self.spec_entries().len() implies (#[trigger] self.spec_entries()[a]).0.content
                            != (#[trigger] self.spec_entries()[b]).0.content by {
                            if b == self.spec_entries().len() - 1 {
                                lemma_av_map_contains(pre.entries, toks[i as int].content);
                            }
                        }
                        assert(self.spec_state() =~~= spec_add_one(pre, mv, base, toks[i as int]));
                    }
                },
                Some((stored_id, stored_special)) => {
                    // Re-registration: a special add upgrades the
                    // stored flag; nothing else changes.
                    if t.special && !stored_special {
                        self.upgrade_to_special(&t.content, stored_id);
                        proof {
                            assert(self.spec_state() =~~= spec_add_one(pre, mv, base, toks[i as int]));
                        }
                    }
                },
            }
            i = i + 1;
            proof {
                assert(self.spec_state() == spec_add_all_prefix_helper(
                    old(self).spec_state(),
                    mv,
                    base,
                    toks,
                    i as int,
                )) by {
                    lemma_add_all_prefix_step(old(self).spec_state(), mv, base, toks, i as int - 1);
                    assert(spec_add_one(pre, mv, base, toks[i as int - 1]) == self.spec_state());
                }
            }
        }
        proof {
            lemma_add_all_prefix_full(old(self).spec_state(), mv, base, toks);
        }
        self.overlay_len - before
    }

    /// Flag the registered token of `content` as special, keeping its
    /// id and everything else.
    fn upgrade_to_special(&mut self, content: &String, stored_id: u32)
        requires
            old(self).wf(),
            av_map(old(self).spec_entries()).contains_key(content@),
            av_map(old(self).spec_entries())[content@] == (stored_id, false),
        ensures
            final(self).wf(),
            final(self).spec_entries() == mark_special(old(self).spec_entries(), content@),
            final(self).overlay_len == old(self).overlay_len,
    {
        let ghost pre = self.spec_entries();
        proof {
            lemma_av_map_contains(pre, content@);
        }
        let n: usize = self.entries.len();
        let mut k: usize = 0;
        let mut idx: usize = 0;
        let mut found = false;
        while k < n
            invariant
                self.spec_entries() == pre,
                self.wf(),
                n == self.entries@.len(),
                0 <= k <= n,
                found ==> idx < n && pre[idx as int].0.content == content@,
                !found ==> forall|j: int| 0 <= j < k ==> (#[trigger] pre[j]).0.content != content@,
            decreases n - k,
        {
            if !found && self.entries[k].0.content.eq(content) {
                found = true;
                idx = k;
            }
            k = k + 1;
        }
        proof {
            if !found {
                assert(false);
            }
            lemma_av_map_at(pre, idx as int);
        }
        let (old_tok, old_id) = self.entries.remove(idx);
        let new_tok = AddedToken { special: true, ..old_tok };
        self.entries.insert(idx, (new_tok, old_id));
        self.map.insert(content.clone(), (stored_id, true));
        proof {
            assert forall|j: int| 0 <= j < self.entries@.len() implies
                #[trigger] self.spec_entries()[j] == mark_special(pre, content@)[j] by {
                if j < idx as int {
                } else if j == idx as int {
                    assert(pre[j].0.content == content@);
                } else {
                    assert(self.entries@[j] == old(self).entries@[j]);
                    assert(pre[j].0.content != content@) by {
                        if pre[j].0.content == content@ {
                            assert(pre[idx as int].0.content == pre[j].0.content);
                        }
                    }
                }
            }
            assert(self.spec_entries() =~= mark_special(pre, content@));
            lemma_mark_special_av_map(pre, content@, idx as int);
            assert(av_map(pre)[content@] == (pre[idx as int].1, pre[idx as int].0.special));
            assert(self.map@ =~= av_map(self.spec_entries()));
            assert forall|a: int, b: int|
                0 <= a < b < self.spec_entries().len() implies (#[trigger] self.spec_entries()[a]).0.content
                != (#[trigger] self.spec_entries()[b]).0.content by {
                assert(self.spec_entries()[a].0.content == pre[a].0.content);
                assert(self.spec_entries()[b].0.content == pre[b].0.content);
            }
        }
    }

    /// Add the given tokens as special tokens.
    pub fn add_special_tokens(
        &mut self,
        tokens: &Vec<AddedToken>,
        model: &ModelWrapper,
        normalizer: Option<&NormalizerWrapper>,
    ) -> (r: usize)
        requires
            old(self).wf(),
            model.wf(),
            spec_model_entries(model).len() + old(self).overlay_len + tokens@.len() <= u32::MAX,
        ensures
            final(self).wf(),
            final(self).spec_state() == spec_add_all(
                old(self).spec_state(),
                spec_model_vocab(model),
                spec_model_entries(model).len() as int,
                tokens@.map_values(
                    |t: AddedToken| AddedTokenModel { special: true, ..t@ },
                ),
                0,
            ),
            r == final(self).overlay_len - old(self).overlay_len,
    {
        let n: usize = tokens.len();
        let mut specials: Vec<AddedToken> = Vec::new();
        let mut i: usize = 0;
        while i < n
            invariant
                n == tokens@.len(),
                0 <= i <= n,
                specials@.len() == i,
                forall|j: int| 0 <= j < i ==> (#[trigger] specials@[j])@ == (AddedTokenModel {
                    special: true,
                    ..tokens@[j]@
                }),
            decreases n - i,
        {
            let mut t = tokens[i].clone_token();
            t.special = true;
            specials.push(t);
            i = i + 1;
        }
        let r = self.add_tokens(&specials, model, normalizer);
        proof {
            assert(specials@.map_values(|t: AddedToken| t@) =~= tokens@.map_values(
                |t: AddedToken| AddedTokenModel { special: true, ..t@ },
            ));
        }
        r
    }

    /// The id of `token`: the overlay's when it holds it, else the
    /// model's.
    pub fn token_to_id(&self, token: &str, model: &ModelWrapper) -> (r: Option<u32>)
        requires
            self.wf(),
        ensures
            ({
                let am = av_map(self.spec_entries());
                if am.contains_key(token@) {
                    r == Some(am[token@].0)
                } else if spec_model_vocab(model).contains_key(token@) {
                    r == Some(spec_model_vocab(model)[token@])
                } else {
                    r is None
                }
            }),
    {
        match self.map.get(token) {
            Some(p) => Some(p.0),
            None => model.token_to_id_model(token),
        }
    }

    /// The token of `id`: the overlay's when some added token has it,
    /// else the model's.
    pub fn id_to_token(&self, id: u32, model: &ModelWrapper) -> (r: Option<String>)
        requires
            self.wf(),
            model.wf(),
        ensures
            match r {
                Some(t) => first_added_content(self.spec_entries(), id, 0) == Some(t@) || (
                first_added_content(self.spec_entries(), id, 0) is None
                    && crate::models::vocab::first_token_of(spec_model_entries(model), id, 0)
                    == Some(t@)),
                None => first_added_content(self.spec_entries(), id, 0) is None
                    && crate::models::vocab::first_token_of(spec_model_entries(model), id, 0)
                    is None,
            },
    {
        let n: usize = self.entries.len();
        let mut i: usize = 0;
        while i < n
            invariant
                n == self.entries@.len(),
                0 <= i <= n,
                first_added_content(self.spec_entries(), id, 0) == first_added_content(
                    self.spec_entries(),
                    id,
                    i as int,
                ),
            decreases n - i,
        {
            if self.entries[i].1 == id {
                let t = self.entries[i].0.content.clone();
                proof {
                    assert(self.spec_entries()[i as int].1 == id);
                    assert(self.spec_entries()[i as int].0.content == t@);
                }
                return Some(t);
            }
            i = i + 1;
        }
        model.id_to_token_model(id)
    }

    /// Whether `token` is a registered special token.
    pub fn is_special_token(&self, token: &str) -> (r: bool)
        requires
            self.wf(),
        ensures
            r == (av_map(self.spec_entries()).contains_key(token@) && av_map(self.spec_entries())[token@].1),
    {
        match self.map.get(token) {
            Some(p) => p.1,
            None => false,
        }
    }
}

/// The content of the first added entry holding `id`, scanning from
/// `i`.
pub open spec fn first_added_content(s: Seq<(AddedTokenModel, u32)>, id: u32, i: int) -> Option<
    Seq<char>,
>
    decreases (if i <= s.len() { s.len() - i } else { 0 }),
{
    if i < 0 || i >= s.len() {
        None
    } else if s[i].1 == id {
        Some(s[i].0.content)
    } else {
        first_added_content(s, id, i + 1)
    }
}

/// A word character, for `single_word` adjacency checks: Unicode
/// alphanumeric, or an underscore.
pub open spec fn spec_word_char(c: char) -> bool {
    is_uni_alphanumeric(c) || c == '_'
}

pub fn word_char(c: char) -> (r: bool)
    ensures
        r == spec_word_char(c),
{
    c.is_alphanumeric() || c == '_'
}

/// ASCII whitespace, for `lstrip`/`rstrip` extension.
pub open spec fn spec_ascii_ws(c: char) -> bool {
    c == ' ' || c == '\t' || c == '\n' || c == '\u{C}' || c == '\r'
}

pub fn is_ascii_ws(c: char) -> (r: bool)
    ensures
        r == spec_ascii_ws(c),
{
    c == ' ' || c == '\t' || c == '\n' || c == '\u{C}' || c == '\r'
}

/// Whether token `t` matches `text` at character position `p`.
pub open spec fn tok_matches_at(t: AddedTokenModel, text: Seq<char>, p: int) -> bool {
    &&& t.content.len() > 0
    &&& 0 <= p
    &&& p + t.content.len() <= text.len()
    &&& text.subrange(p, p + t.content.len()) == t.content
    &&& (t.single_word ==> !(p > 0 && spec_word_char(text[p - 1])))
    &&& (t.single_word ==> !(p + t.content.len() < text.len() && spec_word_char(
        text[p + t.content.len()],
    )))
}

/// The best (longest; leftmost in the entry list on equal length)
/// token of the requested surface form matching at `p`, scanning the
/// entries from index `i` on.
pub open spec fn best_match_at(
    entries: Seq<(AddedTokenModel, u32)>,
    use_norm: bool,
    text: Seq<char>,
    p: int,
    i: int,
) -> Option<(AddedTokenModel, u32)>
    decreases (if i <= entries.len() { entries.len() - i } else { 0 }),
{
    if i < 0 || i >= entries.len() {
        None
    } else {
        let rest = best_match_at(entries, use_norm, text, p, i + 1);
        let cur: Option<(AddedTokenModel, u32)> = if entries[i].0.normalized == use_norm
            && tok_matches_at(entries[i].0, text, p) {
            Some(entries[i])
        } else {
            None
        };
        match cur {
            None => rest,
            Some(c) => match rest {
                None => Some(c),
                Some(r) => if c.0.content.len() >= r.0.content.len() {
                    Some(c)
                } else {
                    Some(r)
                },
            },
        }
    }
}

/// The run of ASCII whitespace immediately left of `p`, not reaching
/// below `bound`.
pub open spec fn ws_run_left(text: Seq<char>, p: int, bound: int) -> int
    decreases (if p >= 0 { p } else { 0 }),
{
    if p <= bound || p <= 0 || p > text.len() || !spec_ascii_ws(text[p - 1]) {
        0
    } else {
        1 + ws_run_left(text, p - 1, bound)
    }
}

/// The run of ASCII whitespace starting at `e`.
pub open spec fn ws_run_right(text: Seq<char>, e: int) -> int
    decreases (if e <= text.len() { text.len() - e } else { 0 }),
{
    if e < 0 || e >= text.len() || !spec_ascii_ws(text[e]) {
        0
    } else {
        1 + ws_run_right(text, e + 1)
    }
}

pub proof fn lemma_ws_run_left_bound(text: Seq<char>, p: int, bound: int)
    requires
        0 <= bound <= p,
    ensures
        0 <= ws_run_left(text, p, bound) <= p - bound,
    decreases p,
{
    if !(p <= bound || p <= 0 || p > text.len() || !spec_ascii_ws(text[p - 1])) {
        lemma_ws_run_left_bound(text, p - 1, bound);
    }
}

pub proof fn lemma_ws_run_right_bound(text: Seq<char>, e: int)
    requires
        0 <= e,
    ensures
        0 <= ws_run_right(text, e),
        e + ws_run_right(text, e) <= (if e <= text.len() {
            text.len() as int
        } else {
            e
        }),
    decreases (if e <= text.len() { text.len() - e } else { 0 }),
{
    if !(e < 0 || e >= text.len() || !spec_ascii_ws(text[e])) {
        lemma_ws_run_right_bound(text, e + 1);
    }
}

/// The original-character cut point for normalized character position
/// `c`: the whole start for 0, the whole end past the normalized text,
/// else the character of the byte where `c`'s alignment begins.
pub open spec fn cut_char(ns: NsModel, c: int) -> int {
    if c <= 0 {
        0
    } else if c >= ns.normalized.len() {
        ns.original.len() as int
    } else {
        char_of_boundary(ns.original, ns.alignment[byte_len(ns.normalized.take(c)) as int].0 as int)
    }
}

pub proof fn lemma_cut_char_range(ns: NsModel, c: int)
    requires
        ns_wf(ns),
    ensures
        0 <= cut_char(ns, c) <= ns.original.len(),
    decreases 0int,
{
    if 0 < c < ns.normalized.len() {
        let b = byte_len(ns.normalized.take(c));
        assert(b < ns.alignment.len()) by {
            crate::normalized::lemma_byte_len_take_strict(ns.normalized, c, ns.normalized.len() as int);
            assert(ns.normalized.take(ns.normalized.len() as int) =~= ns.normalized);
        }
        lemma_char_of_boundary(ns.original, ns.alignment[b as int].0 as int);
    }
}

pub proof fn lemma_cut_char_mono(ns: NsModel, a: int, b: int)
    requires
        ns_wf(ns),
        a <= b,
    ensures
        cut_char(ns, a) <= cut_char(ns, b),
{
    lemma_cut_char_range(ns, a);
    lemma_cut_char_range(ns, b);
    if 0 < a && b < ns.normalized.len() && a < b {
        let ba = byte_len(ns.normalized.take(a));
        let bb = byte_len(ns.normalized.take(b));
        crate::normalized::lemma_byte_len_take_strict(ns.normalized, a, b);
        crate::normalized::lemma_byte_len_take_strict(ns.normalized, b, ns.normalized.len() as int);
        assert(ns.normalized.take(ns.normalized.len() as int) =~= ns.normalized);
        assert(ns.alignment[ba as int].0 <= ns.alignment[bb as int].0);
        lemma_char_of_boundary(ns.original, ns.alignment[ba as int].0 as int);
        lemma_char_of_boundary(ns.original, ns.alignment[bb as int].0 as int);
        let ka = char_of_boundary(ns.original, ns.alignment[ba as int].0 as int);
        let kb = char_of_boundary(ns.original, ns.alignment[bb as int].0 as int);
        if ka > kb {
            crate::normalized::lemma_byte_len_take_strict(ns.original, kb, ka);
        }
    }
}

/// The chunks of `ns` cut at the matches of the given surface form,
/// scanning from `p` with the pending unmatched region starting at
/// `u`. Matched chunks carry their id and special flag.
pub open spec fn spec_split_matches(
    entries: Seq<(AddedTokenModel, u32)>,
    use_norm: bool,
    ns: NsModel,
    p: int,
    u: int,
) -> Seq<(NsModel, Option<(u32, bool)>)>
    decreases (if 0 <= p <= ns.normalized.len() { ns.normalized.len() - p } else { 0 }),
{
    let n = ns.normalized.len() as int;
    if !(0 <= u <= p) {
        Seq::empty()
    } else if p >= n {
        if u < n {
            seq![(spec_slice_ns(ns, u, n, cut_char(ns, u), ns.original.len() as int), None)]
        } else {
            Seq::empty()
        }
    } else {
        match best_match_at(entries, use_norm, ns.normalized, p, 0) {
            None => spec_split_matches(entries, use_norm, ns, p + 1, u),
            Some(t) => {
                let ls = if t.0.lstrip {
                    ws_run_left(ns.normalized, p, u)
                } else {
                    0
                };
                let rs = if t.0.rstrip {
                    ws_run_right(ns.normalized, p + t.0.content.len())
                } else {
                    0
                };
                let ext_s = p - ls;
                let ext_e = p + t.0.content.len() + rs;
                if !(u <= ext_s && p < ext_e <= n) {
                    Seq::empty()
                } else {
                    let head: Seq<(NsModel, Option<(u32, bool)>)> = if u < ext_s {
                        seq![
                            (spec_slice_ns(ns, u, ext_s, cut_char(ns, u), cut_char(ns, ext_s)), None),
                        ]
                    } else {
                        Seq::empty()
                    };
                    head + seq![
                        (
                            spec_slice_ns(ns, ext_s, ext_e, cut_char(ns, ext_s), cut_char(ns, ext_e)),
                            Some((t.1, t.0.special)),
                        ),
                    ] + spec_split_matches(entries, use_norm, ns, ext_e, ext_e)
                }
            },
        }
    }
}

/// A normalizer applied when one is configured.
pub open spec fn apply_opt_normalizer(nrm: Option<NormalizerWrapper>, m: NsModel) -> NsModel {
    match nrm {
        Some(w) => spec_normalize(w, m),
        None => m,
    }
}

/// The expansion of the first-level chunks: matched ones stand as they
/// are; unmatched ones are normalized and cut at the normalized-form
/// matches (kept whole when nothing matches).
pub open spec fn spec_expand(
    entries: Seq<(AddedTokenModel, u32)>,
    nrm: Option<NormalizerWrapper>,
    chunks: Seq<(NsModel, Option<(u32, bool)>)>,
    i: int,
) -> Seq<(NsModel, Option<(u32, bool)>)>
    decreases (if i <= chunks.len() { chunks.len() - i } else { 0 }),
{
    if i < 0 || i >= chunks.len() {
        Seq::empty()
    } else {
        let piece: Seq<(NsModel, Option<(u32, bool)>)> = if chunks[i].1 is Some {
            seq![chunks[i]]
        } else {
            let m2 = apply_opt_normalizer(nrm, chunks[i].0);
            let sub = spec_split_matches(entries, true, m2, 0, 0);
            if sub.len() == 0 {
                seq![(m2, None)]
            } else {
                sub
            }
        };
        piece + spec_expand(entries, nrm, chunks, i + 1)
    }
}

/// The chunks the pipeline runs over: the input is cut at matches of
/// non-normalized tokens on the raw text, then each unmatched piece is
/// normalized and cut at matches of normalized tokens.
pub open spec fn spec_extract(
    entries: Seq<(AddedTokenModel, u32)>,
    nrm: Option<NormalizerWrapper>,
    sentence: Seq<char>,
) -> Seq<(NsModel, Option<(u32, bool)>)> {
    let base = NsModel {
        original: sentence,
        normalized: sentence,
        alignment: crate::normalized::identity_alignment(sentence),
    };
    if sentence.len() == 0 {
        seq![(apply_opt_normalizer(nrm, base), None)]
    } else {
        spec_expand(entries, nrm, spec_split_matches(entries, false, base, 0, 0), 0)
    }
}

/// The view of a chunk list.
pub open spec fn chunks_view(v: Seq<(NormalizedString, Option<(u32, bool)>)>) -> Seq<
    (NsModel, Option<(u32, bool)>),
> {
    v.map_values(|e: (NormalizedString, Option<(u32, bool)>)| (e.0@, e.1))
}

/// A best match is a real match of the requested surface form.
pub proof fn lemma_best_match_props(
    entries: Seq<(AddedTokenModel, u32)>,
    use_norm: bool,
    text: Seq<char>,
    p: int,
    i: int,
)
    ensures
        best_match_at(entries, use_norm, text, p, i) is Some ==> {
            let t = best_match_at(entries, use_norm, text, p, i)->0;
            tok_matches_at(t.0, text, p) && t.0.normalized == use_norm
        },
    decreases (if i <= entries.len() { entries.len() - i } else { 0 }),
{
    if !(i < 0 || i >= entries.len()) {
        lemma_best_match_props(entries, use_norm, text, p, i + 1);
    }
}

/// Whether `t` matches `text` at `p`, checked character by character.
fn tok_match(t: &AddedToken, text: &Vec<char>, p: usize) -> (r: bool)
    requires
        p <= text@.len(),
    ensures
        r == tok_matches_at(t@, text@, p as int),
{
    let tc = str_chars(t.content.as_str());
    let nc: usize = tc.len();
    if nc == 0 {
        return false;
    }
    if nc > text.len() - p {
        return false;
    }
    let mut j: usize = 0;
    while j < nc
        invariant
            nc == tc@.len(),
            tc@ == t.content@,
            0 <= j <= nc,
            p + nc <= text@.len(),
            forall|k: int| 0 <= k < j ==> text@[p + k] == tc@[k],
        decreases nc - j,
    {
        if text[p + j] != tc[j] {
            proof {
                assert(text@.subrange(p as int, p + nc) != t.content@) by {
                    assert(text@.subrange(p as int, p + nc)[j as int] == text@[p + j]);
                }
            }
            return false;
        }
        j = j + 1;
    }
    proof {
        assert(text@.subrange(p as int, p + nc) =~= t.content@);
    }
    if t.single_word {
        if p > 0 && word_char(text[p - 1]) {
            return false;
        }
        if p + nc < text.len() && word_char(text[p + nc]) {
            return false;
        }
    }
    true
}

impl AddedVocabulary {
    /// The best match at `p`: the entry index of the longest matching
    /// token of the requested surface form.
    fn best_match(&self, use_norm: bool, text: &Vec<char>, p: usize) -> (r: Option<usize>)
        requires
            self.wf(),
            p <= text@.len(),
        ensures
            match r {
                None => best_match_at(self.spec_entries(), use_norm, text@, p as int, 0) is None,
                Some(idx) => idx < self.entries@.len() && best_match_at(
                    self.spec_entries(),
                    use_norm,
                    text@,
                    p as int,
                    0,
                ) == Some(self.spec_entries()[idx as int]),
            },
    {
        let ghost ev = self.spec_entries();
        let n: usize = self.entries.len();
        let mut i: usize = n;
        let mut best: Option<usize> = None;
        while i > 0
            invariant
                n == self.entries@.len(),
                0 <= i <= n,
                p <= text@.len(),
                ev == self.spec_entries(),
                match best {
                    None => best_match_at(ev, use_norm, text@, p as int, i as int) is None,
                    Some(idx) => idx < n && best_match_at(ev, use_norm, text@, p as int, i as int)
                        == Some(ev[idx as int]),
                },
            decreases i,
        {
            i = i - 1;
            let cur_matches = self.entries[i].0.normalized == use_norm && tok_match(
                &self.entries[i].0,
                text,
                p,
            );
            if cur_matches {
                best = match best {
                    None => Some(i),
                    Some(bidx) => {
                        let cl = self.entries[i].0.content.as_str().unicode_len();
                        let bl = self.entries[bidx].0.content.as_str().unicode_len();
                        if cl >= bl {
                            Some(i)
                        } else {
                            Some(bidx)
                        }
                    },
                };
            }
        }
        best
    }

    /// Cut `ns` at every match of the requested surface form.
    #[verifier::rlimit(80)]
    fn split_matches(&self, use_norm: bool, ns: &NormalizedString) -> (r: Vec<
        (NormalizedString, Option<(u32, bool)>),
    >)
        requires
            self.wf(),
            ns.wf(),
        ensures
            chunks_view(r@) == spec_split_matches(self.spec_entries(), use_norm, ns@, 0, 0),
            forall|i: int| 0 <= i < r@.len() ==> (#[trigger] r@[i]).0.wf(),
    {
        let ghost ev = self.spec_entries();
        let ghost m = ns@;
        let text = ns.get_chars();
        let n: usize = text.len();
        let mut out: Vec<(NormalizedString, Option<(u32, bool)>)> = Vec::new();
        let mut p: usize = 0;
        let mut u: usize = 0;
        while p < n
            invariant
                n == m.normalized.len(),
                text@ == m.normalized,
                m == ns@,
                ns.wf(),
                self.wf(),
                ev == self.spec_entries(),
                0 <= u <= p <= n,
                spec_split_matches(ev, use_norm, m, 0, 0) =~= chunks_view(out@)
                    + spec_split_matches(ev, use_norm, m, p as int, u as int),
                forall|i: int| 0 <= i < out@.len() ==> (#[trigger] out@[i]).0.wf(),
            decreases n - p,
        {
            match self.best_match(use_norm, text, p) {
                None => {
                    p = p + 1;
                },
                Some(idx) => {
                    let tok = &self.entries[idx].0;
                    let id = self.entries[idx].1;
                    let nc: usize = tok.content.as_str().unicode_len();
                    proof {
                        lemma_best_match_props(ev, use_norm, m.normalized, p as int, 0);
                        assert(tok_matches_at(ev[idx as int].0, m.normalized, p as int));
                    }
                    let mut ls: usize = 0;
                    if tok.lstrip {
                        while p - ls > u && is_ascii_ws(text[p - ls - 1])
                            invariant
                                0 <= ls <= p - u,
                                p <= n,
                                text@ == m.normalized,
                                n == m.normalized.len(),
                                ws_run_left(m.normalized, p as int, u as int) == ls + ws_run_left(
                                    m.normalized,
                                    p as int - ls,
                                    u as int,
                                ),
                            decreases p - ls - u,
                        {
                            ls = ls + 1;
                        }
                        proof {
                            assert(ws_run_left(m.normalized, p as int - ls, u as int) == 0);
                        }
                    }
                    let mut rs: usize = 0;
                    if tok.rstrip {
                        while p + nc + rs < n && is_ascii_ws(text[p + nc + rs])
                            invariant
                                0 <= rs,
                                p + nc + rs <= n,
                                text@ == m.normalized,
                                n == m.normalized.len(),
                                ws_run_right(m.normalized, p as int + nc) == rs + ws_run_right(
                                    m.normalized,
                                    p as int + nc + rs,
                                ),
                            decreases n - p - nc - rs,
                        {
                            rs = rs + 1;
                        }
                        proof {
                            assert(ws_run_right(m.normalized, p as int + nc + rs) == 0);
                        }
                    }
                    let ext_s: usize = p - ls;
                    let ext_e: usize = p + nc + rs;
                    let ghost out_pre = out@;
                    if u < ext_s {
                        let piece = self.slice_chunk(ns, u, ext_s);
                        out.push((piece, None));
                    }
                    let matched = self.slice_chunk(ns, ext_s, ext_e);
                    out.push((matched, Some((id, tok.special))));
                    proof {
                        assert(chunks_view(out@) =~= chunks_view(out_pre) + chunks_view(
                            out@.skip(out_pre.len() as int),
                        ));
                    }
                    p = ext_e;
                    u = ext_e;
                },
            }
        }
        if u < n {
            let ghost out_pre = out@;
            let piece = self.slice_chunk(ns, u, n);
            out.push((piece, None));
            proof {
                assert(chunks_view(out@) =~= chunks_view(out_pre).push((piece@, None)));
            }
        }
        proof {
            assert(chunks_view(out@) =~= spec_split_matches(ev, use_norm, m, 0, 0));
        }
        out
    }

    /// One chunk: normalized characters `[a, b)` with the matching
    /// original cut.
    fn slice_chunk(&self, ns: &NormalizedString, a: usize, b: usize) -> (r: NormalizedString)
        requires
            ns.wf(),
            a <= b <= ns@.normalized.len(),
        ensures
            r@ == spec_slice_ns(ns@, a as int, b as int, cut_char(ns@, a as int), cut_char(ns@, b as int)),
            r.wf(),
    {
        let ca = cut_char_exec(ns, a);
        let cb = cut_char_exec(ns, b);
        proof {
            lemma_cut_char_mono(ns@, a as int, b as int);
            lemma_cut_char_range(ns@, a as int);
            lemma_cut_char_range(ns@, b as int);
        }
        ns.slice_range(a, b, ca, cb)
    }
}

/// The view of an optional normalizer reference.
pub open spec fn opt_norm_view(n: Option<&NormalizerWrapper>) -> Option<NormalizerWrapper> {
    match n {
        Some(w) => Some(*w),
        None => None,
    }
}

impl AddedVocabulary {
    /// Cut the input into matched and unmatched chunks, normalizing
    /// the unmatched ones. Matched chunks carry their id and special
    /// flag; the chunk list is never empty.
    pub fn extract_and_normalize(
        &self,
        normalizer: Option<&NormalizerWrapper>,
        sentence: &str,
    ) -> (r: Vec<(NormalizedString, Option<(u32, bool)>)>)
        requires
            self.wf(),
            byte_len(sentence@) <= usize::MAX,
        ensures
            chunks_view(r@) == spec_extract(
                self.spec_entries(),
                opt_norm_view(normalizer),
                sentence@,
            ),
            forall|i: int| 0 <= i < r@.len() ==> (#[trigger] r@[i]).0.wf(),
    {
        let ghost ev = self.spec_entries();
        let ghost nrm = opt_norm_view(normalizer);
        let base = NormalizedString::from_str(sentence);
        if base.normalized.len() == 0 {
            let mut b = base;
            match normalizer {
                Some(w) => {
                    let _ = w.apply(&mut b);
                },
                None => {},
            }
            let mut out: Vec<(NormalizedString, Option<(u32, bool)>)> = Vec::new();
            out.push((b, None));
            proof {
                assert(chunks_view(out@) =~= spec_extract(ev, nrm, sentence@));
            }
            return out;
        }
        let mut lvl1 = self.split_matches(false, &base);
        let ghost lvl1_model = chunks_view(lvl1@);
        let n1: usize = lvl1.len();
        let mut out: Vec<(NormalizedString, Option<(u32, bool)>)> = Vec::new();
        let mut done: usize = 0;
        proof {
            assert(chunks_view(out@) + spec_expand(ev, nrm, lvl1_model, 0) =~= spec_expand(
                ev,
                nrm,
                lvl1_model,
                0,
            ));
        }
        while lvl1.len() > 0
            invariant
                self.wf(),
                ev == self.spec_entries(),
                lvl1@.len() + done == n1,
                n1 == lvl1_model.len(),
                forall|j: int| 0 <= j < lvl1@.len() ==> chunks_view(lvl1@)[j] == lvl1_model[done
                    + j] && (#[trigger] lvl1@[j]).0.wf(),
                spec_expand(ev, nrm, lvl1_model, 0) =~= chunks_view(out@) + spec_expand(
                    ev,
                    nrm,
                    lvl1_model,
                    done as int,
                ),
                forall|i: int| 0 <= i < out@.len() ==> (#[trigger] out@[i]).0.wf(),
                match normalizer {
                    Some(w) => nrm == Some(*w),
                    None => nrm is None,
                },
            decreases lvl1@.len(),
        {
            let ghost lvl1_pre = lvl1@;
            let (m, id) = lvl1.remove(0);
            proof {
                assert(chunks_view(lvl1_pre)[0] == lvl1_model[done as int]);
                assert(forall|j: int| 0 <= j < lvl1@.len() ==> lvl1@[j] == lvl1_pre[j + 1]);
                assert forall|j: int| 0 <= j < lvl1@.len() implies chunks_view(lvl1@)[j]
                    == lvl1_model[done + 1 + j] by {
                    assert(chunks_view(lvl1_pre)[j + 1] == lvl1_model[done + 1 + j]);
                }
            }
            let ghost out_pre = out@;
            let is_matched = id.is_some();
            if is_matched {
                out.push((m, id));
                proof {
                    assert(chunks_view(out@) =~= chunks_view(out_pre).push((m@, id)));
                }
            } else {
                let mut m2 = m;
                match normalizer {
                    Some(w) => {
                        let _ = w.apply(&mut m2);
                    },
                    None => {},
                }
                proof {
                    assert(m2@ == apply_opt_normalizer(nrm, lvl1_model[done as int].0));
                }
                let sub = self.split_matches(true, &m2);
                if sub.len() == 0 {
                    out.push((m2, None));
                    proof {
                        assert(chunks_view(out@) =~= chunks_view(out_pre).push((m2@, None)));
                    }
                } else {
                    let ghost sub_model = chunks_view(sub@);
                    let mut sub = sub;
                    let mut si: usize = 0;
                    let ghost nsub = sub@.len() as int;
                    while sub.len() > 0
                        invariant
                            sub@.len() + si == nsub,
                            forall|j: int| 0 <= j < sub@.len() ==> chunks_view(sub@)[j] == sub_model[si
                                + j] && (#[trigger] sub@[j]).0.wf(),
                            chunks_view(out@) =~= chunks_view(out_pre) + sub_model.take(si as int),
                            forall|i: int| 0 <= i < out@.len() ==> (#[trigger] out@[i]).0.wf(),
                        decreases sub@.len(),
                    {
                        let ghost sub_pre = sub@;
                        let ghost out_pre2 = out@;
                        let e = sub.remove(0);
                        proof {
                            assert(chunks_view(sub_pre)[0] == sub_model[si as int]);
                            assert(forall|j: int| 0 <= j < sub@.len() ==> sub@[j] == sub_pre[j + 1]);
                            assert forall|j: int| 0 <= j < sub@.len() implies chunks_view(sub@)[j]
                                == sub_model[si + 1 + j] by {
                                assert(chunks_view(sub_pre)[j + 1] == sub_model[si + 1 + j]);
                            }
                        }
                        out.push(e);
                        si = si + 1;
                        proof {
                            assert(chunks_view(out@) =~= chunks_view(out_pre2).push(
                                sub_model[si - 1],
                            ));
                            assert(sub_model.take(si as int) =~= sub_model.take(si as int - 1).push(
                                sub_model[si - 1],
                            ));
                            assert(chunks_view(out@) =~= chunks_view(out_pre) + sub_model.take(
                                si as int,
                            ));
                        }
                    }
                    proof {
                        assert(sub_model.take(nsub) =~= sub_model);
                        assert(chunks_view(out@) =~= chunks_view(out_pre) + sub_model);
                    }
                }
            }
            done = done + 1;
            proof {
                assert(spec_expand(ev, nrm, lvl1_model, 0) =~= chunks_view(out@) + spec_expand(
                    ev,
                    nrm,
                    lvl1_model,
                    done as int,
                ));
            }
        }
        proof {
            assert(spec_expand(ev, nrm, lvl1_model, n1 as int) =~= Seq::<
                (NsModel, Option<(u32, bool)>),
            >::empty());
            assert(chunks_view(out@) =~= spec_expand(ev, nrm, lvl1_model, 0));
            assert(chunks_view(out@) =~= spec_extract(ev, nrm, sentence@));
        }
        out
    }
}

/// The original-character cut point for normalized position `c`.
fn cut_char_exec(ns: &NormalizedString, c: usize) -> (r: usize)
    requires
        ns.wf(),
        c <= ns@.normalized.len(),
    ensures
        r as int == cut_char(ns@, c as int),
{
    if c == 0 {
        return 0;
    }
    if c >= ns.normalized.len() {
        return ns.original.len();
    }
    let b = byte_len_upto(&ns.normalized, c);
    proof {
        crate::normalized::lemma_byte_len_take_strict(ns@.normalized, c as int, ns@.normalized.len() as int);
        assert(ns@.normalized.take(ns@.normalized.len() as int) =~= ns@.normalized);
    }
    let (e0, _) = ns.alignment[b];
    boundary_char_index(&ns.original, e0)
}

/// The concatenation of the chunk originals.
pub open spec fn cat_origs(chunks: Seq<(NsModel, Option<(u32, bool)>)>) -> Seq<char>
    decreases chunks.len(),
{
    if chunks.len() == 0 {
        Seq::empty()
    } else {
        chunks.first().0.original + cat_origs(chunks.drop_first())
    }
}

pub proof fn lemma_cat_origs_concat(
    a: Seq<(NsModel, Option<(u32, bool)>)>,
    b: Seq<(NsModel, Option<(u32, bool)>)>,
)
    ensures
        cat_origs(a + b) == cat_origs(a) + cat_origs(b),
    decreases a.len(),
{
    if a.len() == 0 {
        assert(a + b =~= b);
        assert(cat_origs(a) + cat_origs(b) =~= cat_origs(b));
    } else {
        assert((a + b).drop_first() =~= a.drop_first() + b);
        assert((a + b).first() == a.first());
        lemma_cat_origs_concat(a.drop_first(), b);
        assert(a.first().0.original + (cat_origs(a.drop_first()) + cat_origs(b)) =~= (
        a.first().0.original + cat_origs(a.drop_first())) + cat_origs(b));
    }
}

pub proof fn lemma_cat_singleton(x: (NsModel, Option<(u32, bool)>))
    ensures
        cat_origs(seq![x]) == x.0.original,
{
    assert(seq![x].drop_first() =~= Seq::<(NsModel, Option<(u32, bool)>)>::empty());
    assert(seq![x].first() == x);
    assert(cat_origs(Seq::<(NsModel, Option<(u32, bool)>)>::empty()) =~= Seq::<char>::empty());
    assert(cat_origs(seq![x]) =~= x.0.original);
}

/// The chunks of `spec_split_matches` carry, in order, exactly the
/// original characters from the cut of `u` to the end.
#[verifier::rlimit(100)]
pub proof fn lemma_split_matches_origs(
    entries: Seq<(AddedTokenModel, u32)>,
    use_norm: bool,
    ns: NsModel,
    p: int,
    u: int,
)
    requires
        ns_wf(ns),
        0 <= u <= p,
        ns.normalized.len() > 0 || ns.original.len() == 0,
    ensures
        cat_origs(spec_split_matches(entries, use_norm, ns, p, u)) == ns.original.subrange(
            cut_char(ns, u),
            ns.original.len() as int,
        ),
    decreases (if 0 <= p <= ns.normalized.len() { ns.normalized.len() - p } else { 0 }),
{
    let n = ns.normalized.len() as int;
    lemma_cut_char_range(ns, u);
    let ps = spec_split_matches(entries, use_norm, ns, p, u);
    if p >= n {
        if u < n {
            let c = spec_slice_ns(ns, u, n, cut_char(ns, u), ns.original.len() as int);
            assert(ps =~= seq![(c, None::<(u32, bool)>)]);
            assert(ps.drop_first() =~= Seq::<(NsModel, Option<(u32, bool)>)>::empty());
            assert(ps.first() == (c, None::<(u32, bool)>));
            assert(cat_origs(Seq::<(NsModel, Option<(u32, bool)>)>::empty())
                =~= Seq::<char>::empty());
            assert(cat_origs(ps) =~= c.original);
        } else {
            assert(cut_char(ns, u) == ns.original.len());
            assert(ns.original.subrange(ns.original.len() as int, ns.original.len() as int)
                =~= Seq::<char>::empty());
        }
    } else {
        match best_match_at(entries, use_norm, ns.normalized, p, 0) {
            None => {
                lemma_split_matches_origs(entries, use_norm, ns, p + 1, u);
            },
            Some(t) => {
                let ls = if t.0.lstrip {
                    ws_run_left(ns.normalized, p, u)
                } else {
                    0
                };
                let rs = if t.0.rstrip {
                    ws_run_right(ns.normalized, p + t.0.content.len())
                } else {
                    0
                };
                let ext_s = p - ls;
                let ext_e = p + t.0.content.len() + rs;
                if !(u <= ext_s && p < ext_e <= n) {
                    // A real match always leaves the guard true.
                    lemma_best_match_props(entries, use_norm, ns.normalized, p, 0);
                    lemma_ws_run_left_bound(ns.normalized, p, u);
                    lemma_ws_run_right_bound(ns.normalized, p + t.0.content.len());
                    assert(false);
                } else {
                    lemma_best_match_props(entries, use_norm, ns.normalized, p, 0);
                    lemma_ws_run_left_bound(ns.normalized, p, u);
                    lemma_ws_run_right_bound(ns.normalized, p + t.0.content.len());
                    lemma_split_matches_origs(entries, use_norm, ns, ext_e, ext_e);
                    lemma_cut_char_mono(ns, u, ext_s);
                    lemma_cut_char_mono(ns, ext_s, ext_e);
                    lemma_cut_char_range(ns, ext_s);
                    lemma_cut_char_range(ns, ext_e);
                    let matched = (
                        spec_slice_ns(ns, ext_s, ext_e, cut_char(ns, ext_s), cut_char(ns, ext_e)),
                        Some((t.1, t.0.special)),
                    );
                    let rest = spec_split_matches(entries, use_norm, ns, ext_e, ext_e);
                    if u < ext_s {
                        let head = (
                            spec_slice_ns(ns, u, ext_s, cut_char(ns, u), cut_char(ns, ext_s)),
                            None::<(u32, bool)>,
                        );
                        lemma_cat_origs_concat(seq![head, matched], rest);
                        assert(seq![head] + seq![matched] + rest =~= seq![head, matched] + rest);
                        assert(seq![head, matched] =~= seq![head] + seq![matched]);
                        lemma_cat_origs_concat(seq![head], seq![matched]);
                        lemma_cat_singleton(head);
                        lemma_cat_singleton(matched);
                        assert(cat_origs(ps) =~= ns.original.subrange(
                            cut_char(ns, u),
                            ns.original.len() as int,
                        ));
                    } else {
                        lemma_cat_origs_concat(seq![matched], rest);
                        assert(seq![matched] + rest =~= ps);
                        lemma_cat_singleton(matched);
                        assert(cat_origs(ps) =~= ns.original.subrange(
                            cut_char(ns, u),
                            ns.original.len() as int,
                        ));
                    }
                }
            },
        }
    }
}

/// Expansion keeps, in order, the original characters of the chunks it
/// expands.
pub proof fn lemma_expand_origs(
    entries: Seq<(AddedTokenModel, u32)>,
    nrm: Option<NormalizerWrapper>,
    chunks: Seq<(NsModel, Option<(u32, bool)>)>,
    i: int,
)
    requires
        0 <= i,
        forall|j: int| 0 <= j < chunks.len() ==> ns_wf((#[trigger] chunks[j]).0)
            || !(chunks[j].1 is None),
        forall|j: int| 0 <= j < chunks.len() ==> ns_wf(
            apply_opt_normalizer(nrm, (#[trigger] chunks[j]).0),
        ) || !(chunks[j].1 is None),
    ensures
        cat_origs(spec_expand(entries, nrm, chunks, i)) == cat_origs(chunks.skip(
            (if i <= chunks.len() {
                i
            } else {
                chunks.len() as int
            }),
        )),
    decreases (if i <= chunks.len() { chunks.len() - i } else { 0 }),
{
    if i >= chunks.len() {
        assert(chunks.skip(chunks.len() as int) =~= Seq::<(NsModel, Option<(u32, bool)>)>::empty());
    } else {
        lemma_expand_origs(entries, nrm, chunks, i + 1);
        let piece: Seq<(NsModel, Option<(u32, bool)>)> = if chunks[i].1 is Some {
            seq![chunks[i]]
        } else {
            let m2 = apply_opt_normalizer(nrm, chunks[i].0);
            let sub = spec_split_matches(entries, true, m2, 0, 0);
            if sub.len() == 0 {
                seq![(m2, None)]
            } else {
                sub
            }
        };
        assert(cat_origs(piece) == chunks[i].0.original) by {
            if chunks[i].1 is Some {
                assert(seq![chunks[i]].drop_first() =~= Seq::<
                    (NsModel, Option<(u32, bool)>),
                >::empty());
                assert(seq![chunks[i]].first() == chunks[i]);
                assert(cat_origs(Seq::<(NsModel, Option<(u32, bool)>)>::empty())
                    =~= Seq::<char>::empty());
                assert(cat_origs(seq![chunks[i]]) =~= chunks[i].0.original);
            } else {
                let m2 = apply_opt_normalizer(nrm, chunks[i].0);
                let sub = spec_split_matches(entries, true, m2, 0, 0);
                if sub.len() == 0 {
                    assert(seq![(m2, None::<(u32, bool)>)].drop_first() =~= Seq::<
                        (NsModel, Option<(u32, bool)>),
                    >::empty());
                    assert(seq![(m2, None::<(u32, bool)>)].first() == (m2, None::<(u32, bool)>));
                    assert(cat_origs(Seq::<(NsModel, Option<(u32, bool)>)>::empty())
                        =~= Seq::<char>::empty());
                    assert(cat_origs(seq![(m2, None::<(u32, bool)>)]) =~= m2.original);
                } else {
                    lemma_split_matches_origs(entries, true, m2, 0, 0);
                    assert(cut_char(m2, 0) == 0);
                    assert(m2.original.subrange(0, m2.original.len() as int) =~= m2.original);
                }
            }
        }
        lemma_cat_origs_concat(piece, spec_expand(entries, nrm, chunks, i + 1));
        assert(chunks.skip(i).first() == chunks[i]);
        assert(chunks.skip(i).drop_first() =~= chunks.skip(i + 1));
        assert(cat_origs(chunks.skip(i)) == chunks[i].0.original + cat_origs(chunks.skip(i + 1)));
    }
}

/// The chunks of `spec_extract` carry, in order, exactly the input's
/// characters.
pub proof fn lemma_extract_origs(
    entries: Seq<(AddedTokenModel, u32)>,
    nrm: Option<NormalizerWrapper>,
    sentence: Seq<char>,
)
    requires
        byte_len(sentence) <= usize::MAX,
    ensures
        cat_origs(spec_extract(entries, nrm, sentence)) == sentence,
{
    let base = NsModel {
        original: sentence,
        normalized: sentence,
        alignment: crate::normalized::identity_alignment(sentence),
    };
    crate::normalized::lemma_identity_alignment_wf(sentence);
    if sentence.len() == 0 {
        let m2 = apply_opt_normalizer(nrm, base);
        assert(seq![(m2, None::<(u32, bool)>)].drop_first() =~= Seq::<
            (NsModel, Option<(u32, bool)>),
        >::empty());
        assert(seq![(m2, None::<(u32, bool)>)].first() == (m2, None::<(u32, bool)>));
        assert(cat_origs(Seq::<(NsModel, Option<(u32, bool)>)>::empty()) =~= Seq::<char>::empty());
        assert(m2.original == sentence);
        assert(cat_origs(seq![(m2, None::<(u32, bool)>)]) =~= sentence);
    } else {
        let lvl1 = spec_split_matches(entries, false, base, 0, 0);
        lemma_split_matches_origs(entries, false, base, 0, 0);
        assert(cut_char(base, 0) == 0);
        assert(base.original.subrange(0, base.original.len() as int) =~= sentence);
        assert forall|j: int| 0 <= j < lvl1.len() implies ns_wf((#[trigger] lvl1[j]).0) || !(
        lvl1[j].1 is None) by {
            lemma_split_matches_wf(entries, false, base, 0, 0, j);
        }
        assert forall|j: int| 0 <= j < lvl1.len() implies ns_wf(
            apply_opt_normalizer(nrm, (#[trigger] lvl1[j]).0),
        ) || !(lvl1[j].1 is None) by {
            lemma_split_matches_wf(entries, false, base, 0, 0, j);
            match nrm {
                Some(w) => {
                    lemma_normalize_wf(w, lvl1[j].0);
                },
                None => {},
            }
        }
        lemma_expand_origs(entries, nrm, lvl1, 0);
        assert(lvl1.skip(0) =~= lvl1);
    }
}

/// Every chunk a split produces is well-formed.
pub proof fn lemma_split_matches_wf(
    entries: Seq<(AddedTokenModel, u32)>,
    use_norm: bool,
    ns: NsModel,
    p: int,
    u: int,
    j: int,
)
    requires
        ns_wf(ns),
        0 <= u <= p,
        0 <= j < spec_split_matches(entries, use_norm, ns, p, u).len(),
    ensures
        ns_wf(spec_split_matches(entries, use_norm, ns, p, u)[j].0),
    decreases (if 0 <= p <= ns.normalized.len() { ns.normalized.len() - p } else { 0 }),
{
    let n = ns.normalized.len() as int;
    let ps = spec_split_matches(entries, use_norm, ns, p, u);
    if p >= n {
        lemma_cut_char_range(ns, u);
        lemma_slice_ns_wf(ns, u, n, cut_char(ns, u), ns.original.len() as int);
    } else {
        match best_match_at(entries, use_norm, ns.normalized, p, 0) {
            None => {
                lemma_split_matches_wf(entries, use_norm, ns, p + 1, u, j);
            },
            Some(t) => {
                let ls = if t.0.lstrip {
                    ws_run_left(ns.normalized, p, u)
                } else {
                    0
                };
                let rs = if t.0.rstrip {
                    ws_run_right(ns.normalized, p + t.0.content.len())
                } else {
                    0
                };
                let ext_s = p - ls;
                let ext_e = p + t.0.content.len() + rs;
                if u <= ext_s && p < ext_e <= n {
                    lemma_ws_run_left_bound(ns.normalized, p, u);
                    lemma_best_match_props(entries, use_norm, ns.normalized, p, 0);
                    lemma_cut_char_range(ns, u);
                    lemma_cut_char_range(ns, ext_s);
                    lemma_cut_char_range(ns, ext_e);
                    lemma_cut_char_mono(ns, u, ext_s);
                    lemma_cut_char_mono(ns, ext_s, ext_e);
                    let rest = spec_split_matches(entries, use_norm, ns, ext_e, ext_e);
                    let hl = ps.len() - rest.len();
                    if j >= hl {
                        assert(ps[j] == rest[j - hl]);
                        lemma_split_matches_wf(entries, use_norm, ns, ext_e, ext_e, j - hl);
                    } else {
                        lemma_slice_ns_wf(ns, u, ext_s, cut_char(ns, u), cut_char(ns, ext_s));
                        lemma_slice_ns_wf(ns, ext_s, ext_e, cut_char(ns, ext_s), cut_char(ns, ext_e));
                    }
                }
            },
        }
    }
}

/// A slice of a well-formed `NsModel` is well-formed. (Mirrors the
/// proof inside `slice_range`.)
pub proof fn lemma_clamped_entry_ok(ns: NsModel, occ_from: int, occ_to: int, e: (usize, usize))
    requires
        ns_wf(ns),
        0 <= occ_from <= occ_to <= ns.original.len(),
        e.0 <= e.1 <= byte_len(ns.original),
        crate::text::is_boundary(ns.original, e.0 as int),
        crate::text::is_boundary(ns.original, e.1 as int),
    ensures
        ({
            let lo = byte_len(ns.original.take(occ_from));
            let hi = byte_len(ns.original.take(occ_to));
            let c = clamp_entry(e, lo as int, hi as int);
            c.0 <= c.1 <= byte_len(ns.original.subrange(occ_from, occ_to))
                && crate::text::is_boundary(ns.original.subrange(occ_from, occ_to), c.0 as int)
                && crate::text::is_boundary(ns.original.subrange(occ_from, occ_to), c.1 as int)
        }),
{
    let lo = byte_len(ns.original.take(occ_from));
    let hi = byte_len(ns.original.take(occ_to));
    lemma_byte_len_take_mono(ns.original, occ_from, occ_to);
    lemma_byte_len_take_mono(ns.original, occ_to, ns.original.len() as int);
    assert(ns.original.take(ns.original.len() as int) =~= ns.original);
    assert(ns.original.take(occ_to) =~= ns.original.take(occ_from) + ns.original.subrange(
        occ_from,
        occ_to,
    ));
    crate::text::lemma_byte_len_concat(
        ns.original.take(occ_from),
        ns.original.subrange(occ_from, occ_to),
    );
    let v0 = (if e.0 < lo {
        lo as int
    } else if e.0 > hi {
        hi as int
    } else {
        e.0 as int
    });
    let v1 = (if e.1 < lo {
        lo as int
    } else if e.1 > hi {
        hi as int
    } else {
        e.1 as int
    });
    crate::text::lemma_boundary_ends(ns.original);
    assert(crate::text::is_boundary(ns.original, v0) && lo <= v0 <= hi);
    assert(crate::text::is_boundary(ns.original, v1) && lo <= v1 <= hi);
    crate::normalized::lemma_boundary_in_subrange(ns.original, occ_from, occ_to, v0);
    crate::normalized::lemma_boundary_in_subrange(ns.original, occ_from, occ_to, v1);
}

/// A slice of a well-formed `NsModel` is well-formed. (Mirrors the
/// proof inside `slice_range`.)
#[verifier::rlimit(100)]
#[verifier::spinoff_prover]
pub proof fn lemma_slice_ns_wf(ns: NsModel, c_from: int, c_to: int, occ_from: int, occ_to: int)
    requires
        ns_wf(ns),
        0 <= c_from <= c_to <= ns.normalized.len(),
        0 <= occ_from <= occ_to <= ns.original.len(),
    ensures
        ns_wf(spec_slice_ns(ns, c_from, c_to, occ_from, occ_to)),
{
    let m = ns;
    let b1 = byte_len(m.normalized.take(c_from));
    let b2 = byte_len(m.normalized.take(c_to));
    let lo = byte_len(m.original.take(occ_from));
    let hi = byte_len(m.original.take(occ_to));
    lemma_byte_len_take_mono(m.normalized, c_from, c_to);
    lemma_byte_len_take_mono(m.original, occ_from, occ_to);
    lemma_byte_len_take_mono(m.normalized, c_to, m.normalized.len() as int);
    lemma_byte_len_take_mono(m.original, occ_to, m.original.len() as int);
    assert(m.normalized.take(m.normalized.len() as int) =~= m.normalized);
    assert(m.original.take(m.original.len() as int) =~= m.original);
    let rm = spec_slice_ns(m, c_from, c_to, occ_from, occ_to);
    assert(m.original.take(occ_to) =~= m.original.take(occ_from) + m.original.subrange(
        occ_from,
        occ_to,
    ));
    crate::text::lemma_byte_len_concat(
        m.original.take(occ_from),
        m.original.subrange(occ_from, occ_to),
    );
    assert(m.normalized.take(c_to) =~= m.normalized.take(c_from) + m.normalized.subrange(
        c_from,
        c_to,
    ));
    crate::text::lemma_byte_len_concat(
        m.normalized.take(c_from),
        m.normalized.subrange(c_from, c_to),
    );
    assert forall|k: int| 0 <= k < rm.alignment.len() implies (#[trigger] rm.alignment[k]).0
        <= rm.alignment[k].1 <= byte_len(rm.original) && crate::text::is_boundary(
        rm.original,
        rm.alignment[k].0 as int,
    ) && crate::text::is_boundary(rm.original, rm.alignment[k].1 as int) by {
        let e = m.alignment[b1 + k];
        assert(e.0 <= e.1 <= byte_len(m.original));
        assert(crate::text::is_boundary(m.original, e.0 as int));
        assert(crate::text::is_boundary(m.original, e.1 as int));
        lemma_clamped_entry_ok(m, occ_from, occ_to, e);
        assert(rm.alignment[k] == clamp_entry(e, lo as int, hi as int));
    }
    assert forall|i_: int, j_: int| 0 <= i_ <= j_ < rm.alignment.len() implies
        (#[trigger] rm.alignment[i_]).0 <= (#[trigger] rm.alignment[j_]).0 && rm.alignment[i_].1
            <= rm.alignment[j_].1 by {
        assert(m.alignment[b1 + i_].0 <= m.alignment[b1 + j_].0);
        assert(m.alignment[b1 + i_].1 <= m.alignment[b1 + j_].1);
    }
}

/// A normalizer keeps well-formedness.
pub proof fn lemma_normalize_wf(w: NormalizerWrapper, m: NsModel)
    requires
        ns_wf(m),
    ensures
        ns_wf(spec_normalize(w, m)),
{
    match w {
        NormalizerWrapper::StripNormalizer(st) => {
            lemma_stripped_wf(m, st.strip_left, st.strip_right);
        },
    }
}

/// Stripping keeps well-formedness.
#[verifier::rlimit(60)]
pub proof fn lemma_stripped_wf(m: NsModel, left: bool, right: bool)
    requires
        ns_wf(m),
    ensures
        ns_wf(crate::normalized::spec_stripped(m, left, right)),
{
    let l = if left {
        crate::normalized::leading_ws(m.normalized)
    } else {
        0
    };
    crate::normalized::lemma_leading_ws_bound(m.normalized);
    let t = if right {
        crate::normalized::trailing_ws(m.normalized.skip(l))
    } else {
        0
    };
    crate::normalized::lemma_trailing_ws_bound(m.normalized.skip(l));
    let hi = m.normalized.len() - t;
    lemma_byte_len_take_mono(m.normalized, l, hi);
    lemma_byte_len_take_mono(m.normalized, hi, m.normalized.len() as int);
    assert(m.normalized.take(m.normalized.len() as int) =~= m.normalized);
    assert(m.normalized =~= m.normalized.take(l) + m.normalized.subrange(l, hi)
        + m.normalized.skip(hi));
    crate::text::lemma_byte_len_concat(
        m.normalized.take(l) + m.normalized.subrange(l, hi),
        m.normalized.skip(hi),
    );
    crate::text::lemma_byte_len_concat(m.normalized.take(l), m.normalized.subrange(l, hi));
    assert((m.normalized.take(l) + m.normalized.subrange(l, hi)) =~= m.normalized.take(hi));
}

/// Every chunk's normalized text is at most as long (in bytes) as the
/// text that was split.
pub proof fn lemma_split_matches_norm(
    entries: Seq<(AddedTokenModel, u32)>,
    use_norm: bool,
    ns: NsModel,
    p: int,
    u: int,
    j: int,
)
    requires
        ns_wf(ns),
        0 <= u <= p,
        0 <= j < spec_split_matches(entries, use_norm, ns, p, u).len(),
    ensures
        byte_len(spec_split_matches(entries, use_norm, ns, p, u)[j].0.normalized) <= byte_len(
            ns.normalized,
        ),
    decreases (if 0 <= p <= ns.normalized.len() { ns.normalized.len() - p } else { 0 }),
{
    let n = ns.normalized.len() as int;
    let ps = spec_split_matches(entries, use_norm, ns, p, u);
    if p >= n {
        crate::pre_tokenizers::lemma_byte_len_subrange_le(ns.normalized, u, n);
    } else {
        match best_match_at(entries, use_norm, ns.normalized, p, 0) {
            None => {
                lemma_split_matches_norm(entries, use_norm, ns, p + 1, u, j);
            },
            Some(t) => {
                let ls = if t.0.lstrip {
                    ws_run_left(ns.normalized, p, u)
                } else {
                    0
                };
                let rs = if t.0.rstrip {
                    ws_run_right(ns.normalized, p + t.0.content.len())
                } else {
                    0
                };
                let ext_s = p - ls;
                let ext_e = p + t.0.content.len() + rs;
                if u <= ext_s && p < ext_e <= n {
                    let rest = spec_split_matches(entries, use_norm, ns, ext_e, ext_e);
                    let hl = ps.len() - rest.len();
                    if j >= hl {
                        assert(ps[j] == rest[j - hl]);
                        lemma_split_matches_norm(entries, use_norm, ns, ext_e, ext_e, j - hl);
                    } else {
                        lemma_best_match_props(entries, use_norm, ns.normalized, p, 0);
                        lemma_ws_run_left_bound(ns.normalized, p, u);
                        lemma_ws_run_right_bound(ns.normalized, p + t.0.content.len());
                        crate::pre_tokenizers::lemma_byte_len_subrange_le(ns.normalized, u, ext_s);
                        crate::pre_tokenizers::lemma_byte_len_subrange_le(
                            ns.normalized,
                            ext_s,
                            ext_e,
                        );
                    }
                }
            },
        }
    }
}

/// Stripping never lengthens the normalized text.
pub proof fn lemma_normalize_norm_le(nrm: Option<NormalizerWrapper>, m: NsModel)
    ensures
        byte_len(apply_opt_normalizer(nrm, m).normalized) <= byte_len(m.normalized),
{
    match nrm {
        Some(w) => {
            match w {
                NormalizerWrapper::StripNormalizer(st) => {
                    let mm = crate::normalized::spec_stripped(m, st.strip_left, st.strip_right);
                    let l = if st.strip_left {
                        crate::normalized::leading_ws(m.normalized)
                    } else {
                        0
                    };
                    crate::normalized::lemma_leading_ws_bound(m.normalized);
                    let t = if st.strip_right {
                        crate::normalized::trailing_ws(m.normalized.skip(l))
                    } else {
                        0
                    };
                    crate::normalized::lemma_trailing_ws_bound(m.normalized.skip(l));
                    crate::pre_tokenizers::lemma_byte_len_subrange_le(
                        m.normalized,
                        l,
                        m.normalized.len() - t,
                    );
                },
            }
        },
        None => {},
    }
}

/// Every chunk of `spec_extract` has a normalized text at most as long
/// (in bytes) as the input.
pub proof fn lemma_extract_norm(
    entries: Seq<(AddedTokenModel, u32)>,
    nrm: Option<NormalizerWrapper>,
    sentence: Seq<char>,
    j: int,
)
    requires
        byte_len(sentence) <= usize::MAX,
        0 <= j < spec_extract(entries, nrm, sentence).len(),
    ensures
        byte_len(spec_extract(entries, nrm, sentence)[j].0.normalized) <= byte_len(sentence),
        ns_wf(spec_extract(entries, nrm, sentence)[j].0),
{
    let base = NsModel {
        original: sentence,
        normalized: sentence,
        alignment: crate::normalized::identity_alignment(sentence),
    };
    crate::normalized::lemma_identity_alignment_wf(sentence);
    if sentence.len() == 0 {
        lemma_normalize_norm_le(nrm, base);
        match nrm {
            Some(w) => {
                lemma_normalize_wf(w, base);
            },
            None => {},
        }
    } else {
        let lvl1 = spec_split_matches(entries, false, base, 0, 0);
        assert forall|k: int| 0 <= k < lvl1.len() implies ns_wf((#[trigger] lvl1[k]).0) && byte_len(
            lvl1[k].0.normalized,
        ) <= byte_len(base.normalized) by {
            lemma_split_matches_wf(entries, false, base, 0, 0, k);
            lemma_split_matches_norm(entries, false, base, 0, 0, k);
        }
        lemma_expand_norm(entries, nrm, base, lvl1, 0, j);
    }
}

/// The expansion step keeps the byte bound and well-formedness of
/// every produced chunk, given that its inputs are chunks of a split
/// of `base`.
pub proof fn lemma_expand_norm(
    entries: Seq<(AddedTokenModel, u32)>,
    nrm: Option<NormalizerWrapper>,
    base: NsModel,
    chunks: Seq<(NsModel, Option<(u32, bool)>)>,
    i: int,
    j: int,
)
    requires
        ns_wf(base),
        forall|k: int| 0 <= k < chunks.len() ==> ns_wf((#[trigger] chunks[k]).0) && byte_len(
            chunks[k].0.normalized,
        ) <= byte_len(base.normalized),
        0 <= i,
        0 <= j < spec_expand(entries, nrm, chunks, i).len(),
    ensures
        byte_len(spec_expand(entries, nrm, chunks, i)[j].0.normalized) <= byte_len(
            base.normalized,
        ),
        ns_wf(spec_expand(entries, nrm, chunks, i)[j].0),
    decreases (if i <= chunks.len() { chunks.len() - i } else { 0 }),
{
    if i < chunks.len() {
        let piece: Seq<(NsModel, Option<(u32, bool)>)> = if chunks[i].1 is Some {
            seq![chunks[i]]
        } else {
            let m2 = apply_opt_normalizer(nrm, chunks[i].0);
            let sub = spec_split_matches(entries, true, m2, 0, 0);
            if sub.len() == 0 {
                seq![(m2, None)]
            } else {
                sub
            }
        };
        let rest = spec_expand(entries, nrm, chunks, i + 1);
        if j >= piece.len() {
            assert(spec_expand(entries, nrm, chunks, i)[j] == rest[j - piece.len()]);
            lemma_expand_norm(entries, nrm, base, chunks, i + 1, j - piece.len());
        } else {
            assert(spec_expand(entries, nrm, chunks, i)[j] == piece[j]);
            if chunks[i].1 is Some {
            } else {
                let m2 = apply_opt_normalizer(nrm, chunks[i].0);
                lemma_normalize_norm_le(nrm, chunks[i].0);
                match nrm {
                    Some(w) => {
                        lemma_normalize_wf(w, chunks[i].0);
                    },
                    None => {},
                }
                let sub = spec_split_matches(entries, true, m2, 0, 0);
                if sub.len() == 0 {
                } else {
                    lemma_split_matches_norm(entries, true, m2, 0, 0, j);
                    lemma_split_matches_wf(entries, true, m2, 0, 0, j);
                }
            }
        }
    }
}

/// The full slice of a well-formed `NsModel` is the model itself.
pub proof fn lemma_slice_full_identity(ns: NsModel)
    requires
        ns_wf(ns),
    ensures
        spec_slice_ns(ns, 0, ns.normalized.len() as int, 0, ns.original.len() as int) == ns,
{
    let n = ns.normalized.len() as int;
    let on = ns.original.len() as int;
    let r = spec_slice_ns(ns, 0, n, 0, on);
    assert(ns.normalized.take(0) =~= Seq::<char>::empty());
    assert(ns.original.take(0) =~= Seq::<char>::empty());
    assert(ns.normalized.take(n) =~= ns.normalized);
    assert(ns.original.take(on) =~= ns.original);
    assert(r.normalized =~= ns.normalized);
    assert(r.original =~= ns.original);
    assert(r.alignment =~= ns.alignment) by {
        assert forall|k: int| 0 <= k < ns.alignment.len() implies r.alignment[k]
            == ns.alignment[k] by {
            assert(ns.alignment[k].0 <= ns.alignment[k].1 <= byte_len(ns.original));
        }
    }
    assert(r =~~= ns);
}

/// With no registered tokens, splitting leaves a single unmatched
/// chunk (or none when the scan started past pending text).
pub proof fn lemma_split_no_matches(
    entries: Seq<(AddedTokenModel, u32)>,
    use_norm: bool,
    ns: NsModel,
    p: int,
    u: int,
)
    requires
        ns_wf(ns),
        entries.len() == 0,
        0 <= u <= p,
    ensures
        spec_split_matches(entries, use_norm, ns, p, u) == (if u < ns.normalized.len() {
            seq![
                (
                    spec_slice_ns(
                        ns,
                        u,
                        ns.normalized.len() as int,
                        cut_char(ns, u),
                        ns.original.len() as int,
                    ),
                    None::<(u32, bool)>,
                ),
            ]
        } else {
            Seq::<(NsModel, Option<(u32, bool)>)>::empty()
        }),
    decreases (if 0 <= p <= ns.normalized.len() { ns.normalized.len() - p } else { 0 }),
{
    if p < ns.normalized.len() {
        assert(best_match_at(entries, use_norm, ns.normalized, p, 0) is None);
        lemma_split_no_matches(entries, use_norm, ns, p + 1, u);
    }
}

/// The state after adding the first `i` tokens.
pub open spec fn spec_add_all_prefix_helper(
    st: AvState,
    mv: Map<Seq<char>, u32>,
    base: int,
    toks: Seq<AddedTokenModel>,
    i: int,
) -> AvState
    decreases (if i >= 0 { i } else { 0 }),
{
    if i <= 0 {
        st
    } else {
        spec_add_one(spec_add_all_prefix_helper(st, mv, base, toks, i - 1), mv, base, toks[i - 1])
    }
}

/// Prefix folding steps forward.
pub proof fn lemma_add_all_prefix_step(
    st: AvState,
    mv: Map<Seq<char>, u32>,
    base: int,
    toks: Seq<AddedTokenModel>,
    i: int,
)
    requires
        0 <= i < toks.len(),
    ensures
        spec_add_all_prefix_helper(st, mv, base, toks, i + 1) == spec_add_one(
            spec_add_all_prefix_helper(st, mv, base, toks, i),
            mv,
            base,
            toks[i],
        ),
{
}

/// The prefix fold of all tokens equals the recursive fold.
pub proof fn lemma_add_all_prefix_full(
    st: AvState,
    mv: Map<Seq<char>, u32>,
    base: int,
    toks: Seq<AddedTokenModel>,
)
    ensures
        spec_add_all_prefix_helper(st, mv, base, toks, toks.len() as int) == spec_add_all(
            st,
            mv,
            base,
            toks,
            0,
        ),
{
    lemma_add_all_shift(st, mv, base, toks, 0);
}

/// Folding from the front equals prefix folding.
pub proof fn lemma_add_all_shift(
    st: AvState,
    mv: Map<Seq<char>, u32>,
    base: int,
    toks: Seq<AddedTokenModel>,
    i: int,
)
    requires
        0 <= i <= toks.len(),
    ensures
        spec_add_all(spec_add_all_prefix_helper(st, mv, base, toks, i), mv, base, toks, i)
            == spec_add_all_prefix_helper(st, mv, base, toks, toks.len() as int),
    decreases toks.len() - i,
{
    if i < toks.len() {
        lemma_add_all_prefix_step(st, mv, base, toks, i);
        lemma_add_all_shift(st, mv, base, toks, i + 1);
    }
}

} // verus!
