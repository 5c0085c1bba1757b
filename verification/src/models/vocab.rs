//! The vocabulary of a model: a bijection between token strings and
//! dense ids, held both as an insertion-ordered list and as a hash map
//! index.

use vstd::prelude::*;

use crate::error::TokenizerError;
use vstd::hash_map::StringHashMap;

verus! {

/// The view of an entry list: each token's characters and its id.
pub open spec fn entries_view(v: Seq<(String, u32)>) -> Seq<(Seq<char>, u32)> {
    v.map_values(|e: (String, u32)| (e.0@, e.1))
}

/// The token-to-id map described by an entry list.
pub open spec fn entries_map(s: Seq<(Seq<char>, u32)>) -> Map<Seq<char>, u32>
    decreases s.len(),
{
    if s.len() == 0 {
        Map::empty()
    } else {
        entries_map(s.drop_last()).insert(s.last().0, s.last().1)
    }
}

/// No token occurs twice and no id occurs twice.
pub open spec fn entries_unique(s: Seq<(Seq<char>, u32)>) -> bool {
    forall|i: int, j: int| 0 <= i < j < s.len() ==> (#[trigger] s[i]).0 != (#[trigger] s[j]).0
        && s[i].1 != s[j].1
}

/// A key is in the entry map exactly when some entry holds it.
pub proof fn lemma_entries_map_contains(s: Seq<(Seq<char>, u32)>, t: Seq<char>)
    ensures
        entries_map(s).contains_key(t) <==> exists|i: int| 0 <= i < s.len() && (#[trigger] s[i]).0
            == t,
    decreases s.len(),
{
    if s.len() > 0 {
        lemma_entries_map_contains(s.drop_last(), t);
        if entries_map(s).contains_key(t) {
            if s.last().0 == t {
                assert(s[s.len() - 1].0 == t);
            } else {
                let i = choose|i: int| 0 <= i < s.len() - 1 && (#[trigger] s.drop_last()[i]).0 == t;
                assert(s[i].0 == t);
            }
        }
        if exists|i: int| 0 <= i < s.len() && (#[trigger] s[i]).0 == t {
            let i = choose|i: int| 0 <= i < s.len() && (#[trigger] s[i]).0 == t;
            if i < s.len() - 1 {
                assert(s.drop_last()[i].0 == t);
            }
        }
    }
}

/// With unique tokens, the map sends each entry's token to its id.
pub proof fn lemma_entries_map_at(s: Seq<(Seq<char>, u32)>, i: int)
    requires
        entries_unique(s),
        0 <= i < s.len(),
    ensures
        entries_map(s).contains_key(s[i].0),
        entries_map(s)[s[i].0] == s[i].1,
    decreases s.len(),
{
    if i == s.len() - 1 {
    } else {
        assert(forall|a: int, b: int| 0 <= a < b < s.len() - 1 ==> (#[trigger] s.drop_last()[a]).0
            != (#[trigger] s.drop_last()[b]).0 && s.drop_last()[a].1 != s.drop_last()[b].1);
        lemma_entries_map_at(s.drop_last(), i);
        assert(s[i].0 != s.last().0);
    }
}

/// The first token holding `id` in the entry list, scanning from `i`.
pub open spec fn first_token_of(s: Seq<(Seq<char>, u32)>, id: u32, i: int) -> Option<Seq<char>>
    decreases (if i <= s.len() { s.len() - i } else { 0 }),
{
    if i < 0 || i >= s.len() {
        None
    } else if s[i].1 == id {
        Some(s[i].0)
    } else {
        first_token_of(s, id, i + 1)
    }
}

/// Scanning from `i`, the first entry with `id` is the only one.
pub proof fn lemma_first_token_scan(s: Seq<(Seq<char>, u32)>, id: u32, i0: int, i: int)
    requires
        0 <= i <= i0 < s.len(),
        s[i0].1 == id,
        forall|j: int| i <= j < i0 ==> (#[trigger] s[j]).1 != id,
    ensures
        first_token_of(s, id, i) == Some(s[i0].0),
    decreases i0 - i,
{
    if i < i0 {
        lemma_first_token_scan(s, id, i0, i + 1);
    }
}

/// In a well-formed vocabulary, looking the id of a token back up
/// returns that token: the entry map and the id scan are inverses.
pub proof fn lemma_first_token_inverse(s: Seq<(Seq<char>, u32)>, vm: Map<Seq<char>, u32>, tok: Seq<char>)
    requires
        entries_unique(s),
        vm == entries_map(s),
        vm.contains_key(tok),
    ensures
        first_token_of(s, vm[tok], 0) == Some(tok),
{
    lemma_entries_map_contains(s, tok);
    let i0 = choose|i: int| 0 <= i < s.len() && (#[trigger] s[i]).0 == tok;
    lemma_entries_map_at(s, i0);
    assert(s[i0].1 == vm[tok]);
    assert forall|j: int| 0 <= j < i0 implies (#[trigger] s[j]).1 != vm[tok] by {
        assert(s[j].1 != s[i0].1);
    }
    lemma_first_token_scan(s, vm[tok], i0, 0);
}

/// A vocabulary: token/id pairs in insertion order, with a hash map
/// index from tokens to ids.
pub struct Vocab {
    pub entries: Vec<(String, u32)>,
    pub map: StringHashMap<u32>,
}

impl View for Vocab {
    type V = Map<Seq<char>, u32>;

    open spec fn view(&self) -> Map<Seq<char>, u32> {
        self.map@
    }
}

impl Vocab {
    /// The entry list describes the map, and is a bijection.
    pub open spec fn wf(&self) -> bool {
        &&& self.map@ == entries_map(entries_view(self.entries@))
        &&& entries_unique(entries_view(self.entries@))
    }

    pub open spec fn spec_entries(&self) -> Seq<(Seq<char>, u32)> {
        entries_view(self.entries@)
    }

    /// An empty vocabulary.
    pub fn empty() -> (r: Vocab)
        ensures
            r.wf(),
            r@ == Map::<Seq<char>, u32>::empty(),
            r.spec_entries().len() == 0,
    {
        let r = Vocab { entries: Vec::new(), map: StringHashMap::new() };
        proof {
            assert(entries_view(r.entries@) =~= Seq::<(Seq<char>, u32)>::empty());
        }
        r
    }

    /// Build a vocabulary from token/id pairs. Fails with `VocabLoad`
    /// exactly when a token or an id occurs twice.
    pub fn from_entries(entries: Vec<(String, u32)>) -> (r: Result<Vocab, TokenizerError>)
        ensures
            match r {
                Ok(v) => {
                    &&& v.wf()
                    &&& v.spec_entries() == entries_view(entries@)
                    &&& v@ == entries_map(entries_view(entries@))
                    &&& entries_unique(entries_view(entries@))
                },
                Err(e) => e == TokenizerError::VocabLoad && !entries_unique(entries_view(entries@)),
            },
    {
        let ghost ev = entries_view(entries@);
        let n: usize = entries.len();
        let mut v = Vocab::empty();
        let mut i: usize = 0;
        while i < n
            invariant
                n == entries@.len(),
                ev == entries_view(entries@),
                0 <= i <= n,
                v.entries@.len() == i,
                forall|j: int| 0 <= j < i ==> (#[trigger] v.entries@[j]).0@ == ev[j].0
                    && v.entries@[j].1 == ev[j].1,
                entries_view(v.entries@) =~= ev.take(i as int),
                v.wf(),
            decreases n - i,
        {
            let (tok, id) = {
                let e = &entries[i];
                (e.0.clone(), e.1)
            };
            if v.map.contains_key(tok.as_str()) {
                proof {
                    lemma_entries_map_contains(ev.take(i as int), tok@);
                    let j = choose|j: int| 0 <= j < i && (#[trigger] ev.take(i as int)[j]).0 == tok@;
                    assert(ev[j].0 == ev[i as int].0);
                }
                return Err(TokenizerError::VocabLoad);
            }
            let mut id_dup: bool = false;
            let mut k: usize = 0;
            while k < i
                invariant
                    0 <= k <= i,
                    i <= v.entries@.len(),
                    id_dup <==> exists|j: int| 0 <= j < k && (#[trigger] v.entries@[j]).1 == id,
                decreases i - k,
            {
                if v.entries[k].1 == id {
                    id_dup = true;
                }
                k = k + 1;
            }
            if id_dup {
                proof {
                    let j = choose|j: int| 0 <= j < i && (#[trigger] v.entries@[j]).1 == id;
                    assert(ev[j].1 == ev[i as int].1);
                }
                return Err(TokenizerError::VocabLoad);
            }
            let ghost pre_entries = v.entries@;
            v.map.insert(tok.clone(), id);
            v.entries.push((tok, id));
            i = i + 1;
            proof {
                assert(entries_view(v.entries@) =~= ev.take(i as int)) by {
                    assert(forall|j: int| 0 <= j < i - 1 ==> v.entries@[j] == pre_entries[j]);
                }
                assert(ev.take(i as int).drop_last() =~= ev.take(i as int - 1));
                assert(forall|a: int, b: int| 0 <= a < b < i ==> (#[trigger] ev.take(i as int)[a]).0
                    == ev[a].0 && (#[trigger] ev.take(i as int)[b]).0 == ev[b].0);
                assert(entries_unique(ev.take(i as int))) by {
                    assert forall|a: int, b: int| 0 <= a < b < i implies (#[trigger] ev.take(
                        i as int,
                    )[a]).0 != (#[trigger] ev.take(i as int)[b]).0 && ev.take(i as int)[a].1
                        != ev.take(i as int)[b].1 by {
                        if b == i - 1 {
                            if ev[a].0 == ev[b].0 {
                                lemma_entries_map_contains(ev.take(i as int - 1), ev[b].0);
                            }
                        }
                    }
                }
            }
        }
        proof {
            assert(ev.take(n as int) =~= ev);
        }
        Ok(v)
    }

    /// The id of `token`, when present.
    pub fn get(&self, token: &str) -> (r: Option<u32>)
        ensures
            r is Some <==> self@.contains_key(token@),
            r is Some ==> r->0 == self@[token@],
    {
        match self.map.get(token) {
            Some(id) => Some(*id),
            None => None,
        }
    }

    /// The number of entries.
    pub fn size(&self) -> (r: usize)
        requires
            self.wf(),
        ensures
            r == self.spec_entries().len(),
    {
        self.entries.len()
    }

    /// The token of `id`, when present: the first entry holding it.
    pub fn id_to_token(&self, id: u32) -> (r: Option<String>)
        requires
            self.wf(),
        ensures
            match r {
                Some(t) => first_token_of(self.spec_entries(), id, 0) == Some(t@) && exists|i: int|
                    0 <= i < self.spec_entries().len() && (#[trigger] self.spec_entries()[i]) == (
                    t@,
                    id,
                ),
                None => first_token_of(self.spec_entries(), id, 0) is None && forall|i: int|
                    0 <= i < self.spec_entries().len() ==> (#[trigger] self.spec_entries()[i]).1
                        != id,
            },
    {
        let n: usize = self.entries.len();
        let mut i: usize = 0;
        while i < n
            invariant
                n == self.entries@.len(),
                0 <= i <= n,
                forall|j: int| 0 <= j < i ==> (#[trigger] self.spec_entries()[j]).1 != id,
                first_token_of(self.spec_entries(), id, 0) == first_token_of(
                    self.spec_entries(),
                    id,
                    i as int,
                ),
            decreases n - i,
        {
            if self.entries[i].1 == id {
                let t = self.entries[i].0.clone();
                proof {
                    assert(self.spec_entries()[i as int] == (t@, id));
                }
                return Some(t);
            }
            i = i + 1;
        }
        None
    }

    /// The entries, in insertion order.
    pub fn entries_list(&self) -> (r: &Vec<(String, u32)>)
        ensures
            entries_view(r@) == self.spec_entries(),
    {
        &self.entries
    }
}

/// A copy of an entry list.
pub fn clone_entries(v: &Vec<(String, u32)>) -> (r: Vec<(String, u32)>)
    ensures
        entries_view(r@) == entries_view(v@),
        r@.len() == v@.len(),
{
    let n: usize = v.len();
    let mut r: Vec<(String, u32)> = Vec::new();
    let mut i: usize = 0;
    while i < n
        invariant
            n == v@.len(),
            0 <= i <= n,
            r@.len() == i,
            forall|j: int| 0 <= j < i ==> (#[trigger] r@[j]).0@ == v@[j].0@ && r@[j].1 == v@[j].1,
        decreases n - i,
    {
        let e = &v[i];
        r.push((e.0.clone(), e.1));
        i = i + 1;
    }
    proof {
        assert(entries_view(r@) =~= entries_view(v@));
    }
    r
}

} // verus!
