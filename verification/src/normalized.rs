//! A string being normalized, together with the byte-level alignment
//! from its normalized form back to the original form.

use vstd::prelude::*;

use crate::encoding::copy_range;
use crate::outside::is_uni_whitespace;
use crate::text::{
    byte_len, byte_len_upto, char_len, chars_to_string, is_boundary, lemma_boundary_concat_left,
    lemma_boundary_concat_right, lemma_boundary_ends, lemma_byte_len_concat,
    lemma_byte_len_take_mono, lemma_byte_len_take_succ, str_chars, utf8_len,
};

verus! {

/// Ghost record of a `NormalizedString`.
#[verifier::ext_equal]
pub struct NsModel {
    pub original: Seq<char>,
    pub normalized: Seq<char>,
    pub alignment: Seq<(usize, usize)>,
}

/// Well-formedness of the alignment: one entry per byte of the
/// normalized text; each entry an ordered byte range of the original,
/// falling on character boundaries; entries monotone.
pub open spec fn ns_wf(m: NsModel) -> bool {
    &&& m.alignment.len() == byte_len(m.normalized)
    &&& byte_len(m.normalized) <= usize::MAX
    &&& byte_len(m.original) <= usize::MAX
    &&& forall|i: int| 0 <= i < m.alignment.len() ==> (#[trigger] m.alignment[i]).0
        <= m.alignment[i].1 <= byte_len(m.original)
    &&& forall|i: int, j: int| 0 <= i <= j < m.alignment.len() ==> (#[trigger] m.alignment[i]).0
        <= (#[trigger] m.alignment[j]).0 && m.alignment[i].1 <= m.alignment[j].1
    &&& forall|i: int| 0 <= i < m.alignment.len() ==> is_boundary(
        m.original,
        (#[trigger] m.alignment[i]).0 as int,
    ) && is_boundary(m.original, m.alignment[i].1 as int)
}

/// The identity alignment of `s`: the bytes of each character map to
/// that character's own byte range.
pub open spec fn identity_alignment(s: Seq<char>) -> Seq<(usize, usize)>
    decreases s.len(),
{
    if s.len() == 0 {
        Seq::empty()
    } else {
        let p = byte_len(s.drop_last());
        let u = utf8_len(s.last());
        identity_alignment(s.drop_last()) + Seq::new(u, |i: int| (p as usize, (p + u) as usize))
    }
}

pub proof fn lemma_identity_alignment_wf(s: Seq<char>)
    requires
        byte_len(s) <= usize::MAX,
    ensures
        ns_wf(NsModel { original: s, normalized: s, alignment: identity_alignment(s) }),
        identity_alignment(s).len() == byte_len(s),
    decreases s.len(),
{
    if s.len() == 0 {
    } else {
        let d = s.drop_last();
        let p = byte_len(d);
        let u = utf8_len(s.last());
        assert(s =~= d + seq![s.last()]);
        lemma_byte_len_concat(d, seq![s.last()]);
        assert(byte_len(seq![s.last()]) == u) by {
            assert(seq![s.last()].drop_last() =~= Seq::<char>::empty());
        }
        lemma_identity_alignment_wf(d);
        let al = identity_alignment(s);
        let ald = identity_alignment(d);
        assert(al.len() == byte_len(s));
        // Boundaries of the new block.
        assert(is_boundary(s, p as int)) by {
            assert(s.take(d.len() as int) =~= d);
        }
        assert(is_boundary(s, (p + u) as int)) by {
            assert(s.take(s.len() as int) =~= s);
        }
        // Old entries keep their properties in the longer sequence.
        assert forall|i: int| 0 <= i < ald.len() implies is_boundary(s, (#[trigger] ald[i]).0 as int)
            && is_boundary(s, ald[i].1 as int) by {
            assert(ns_wf(NsModel { original: d, normalized: d, alignment: ald }));
            lemma_boundary_concat_left(d, seq![s.last()], ald[i].0 as int);
            lemma_boundary_concat_left(d, seq![s.last()], ald[i].1 as int);
        }
        assert forall|i: int| 0 <= i < al.len() implies (#[trigger] al[i]).0 <= al[i].1
            <= byte_len(s) by {
            if i < ald.len() {
                assert(al[i] == ald[i]);
            } else {
                assert(al[i] == (p as usize, (p + u) as usize));
            }
        }
        assert forall|i: int, j: int| 0 <= i <= j < al.len() implies (#[trigger] al[i]).0
            <= (#[trigger] al[j]).0 && al[i].1 <= al[j].1 by {
            if j < ald.len() {
            } else if i < ald.len() {
                assert(al[i] == ald[i]);
                assert(al[j] == (p as usize, (p + u) as usize));
                assert(ald[i].0 <= ald[i].1 <= byte_len(d));
            } else {
                assert(al[i] == (p as usize, (p + u) as usize));
                assert(al[j] == (p as usize, (p + u) as usize));
            }
        }
    }
}

/// A mutable string that records, for every byte of its normalized
/// form, the byte range of the original form it came from.
pub struct NormalizedString {
    pub original: Vec<char>,
    pub normalized: Vec<char>,
    pub alignment: Vec<(usize, usize)>,
    pub original_bytes: usize,
}

impl View for NormalizedString {
    type V = NsModel;

    open spec fn view(&self) -> NsModel {
        NsModel {
            original: self.original@,
            normalized: self.normalized@,
            alignment: self.alignment@,
        }
    }
}

impl NormalizedString {
    pub open spec fn wf(&self) -> bool {
        &&& ns_wf(self@)
        &&& self.original_bytes == byte_len(self.original@)
    }

    /// A fresh `NormalizedString` whose normalized and original forms
    /// are both `s`.
    pub fn from_str(s: &str) -> (r: NormalizedString)
        requires
            byte_len(s@) <= usize::MAX,
        ensures
            r@ == (NsModel { original: s@, normalized: s@, alignment: identity_alignment(s@) }),
            r.wf(),
    {
        let chars = str_chars(s);
        let n: usize = chars.len();
        let mut alignment: Vec<(usize, usize)> = Vec::new();
        let mut i: usize = 0;
        proof {
            assert(chars@.take(0) =~= Seq::<char>::empty());
        }
        while i < n
            invariant
                n == chars@.len(),
                chars@ == s@,
                byte_len(s@) <= usize::MAX,
                0 <= i <= n,
                alignment@ =~= identity_alignment(chars@.take(i as int)),
                alignment@.len() == byte_len(chars@.take(i as int)),
            decreases n - i,
        {
            let p: usize = alignment.len();
            let u: usize = char_len(chars[i]);
            proof {
                lemma_byte_len_take_succ(chars@, i as int);
                lemma_byte_len_take_mono(chars@, i as int + 1, n as int);
                assert(chars@.take(n as int) =~= chars@);
            }
            let mut j: usize = 0;
            while j < u
                invariant
                    0 <= j <= u,
                    p + u <= usize::MAX,
                    alignment@ =~= identity_alignment(chars@.take(i as int)) + Seq::new(
                        j as nat,
                        |k: int| (p, (p + u) as usize),
                    ),
                decreases u - j,
            {
                alignment.push((p, p + u));
                j = j + 1;
                proof {
                    assert(alignment@ =~= identity_alignment(chars@.take(i as int)) + Seq::new(
                        j as nat,
                        |k: int| (p, (p + u) as usize),
                    ));
                }
            }
            i = i + 1;
            proof {
                let t = chars@.take(i as int);
                assert(t.drop_last() =~= chars@.take(i as int - 1));
                assert(t.last() == chars@[i as int - 1]);
                assert(Seq::new(u as nat, |k: int| (p, (p + u) as usize)) =~= Seq::new(
                    utf8_len(t.last()),
                    |k: int| (byte_len(t.drop_last()) as usize, (byte_len(t.drop_last())
                        + utf8_len(t.last())) as usize),
                ));
                assert(alignment@ =~= identity_alignment(t));
                lemma_byte_len_take_succ(chars@, i as int - 1);
            }
        }
        let original = copy_range(&chars, 0, n);
        let ghost sview = s@;
        proof {
            assert(chars@.take(n as int) =~= chars@);
            assert(original@ =~= chars@);
            lemma_identity_alignment_wf(sview);
        }
        let original_bytes: usize = alignment.len();
        let r = NormalizedString { original, normalized: chars, alignment, original_bytes };
        r
    }

    /// Number of bytes of the normalized form.
    pub fn len(&self) -> (r: usize)
        requires
            self.wf(),
        ensures
            r == byte_len(self@.normalized),
    {
        self.alignment.len()
    }

    /// Number of bytes of the original form.
    pub fn len_original(&self) -> (r: usize)
        requires
            self.wf(),
        ensures
            r == byte_len(self@.original),
    {
        self.original_bytes
    }

    pub fn is_empty(&self) -> (r: bool)
        requires
            self.wf(),
        ensures
            r == (self@.normalized.len() == 0),
    {
        self.normalized.len() == 0
    }

    /// The normalized form as a `String`.
    pub fn get(&self) -> (r: String)
        ensures
            r@ == self@.normalized,
    {
        let n: usize = self.normalized.len();
        let r = chars_to_string(&self.normalized, 0, n);
        proof {
            assert(self.normalized@.subrange(0, self.normalized@.len() as int)
                =~= self.normalized@);
        }
        r
    }

    /// The characters of the normalized form.
    pub fn get_chars(&self) -> (r: &Vec<char>)
        ensures
            r@ == self@.normalized,
    {
        &self.normalized
    }

    /// The characters of the original form.
    pub fn get_original_chars(&self) -> (r: &Vec<char>)
        ensures
            r@ == self@.original,
    {
        &self.original
    }
}

/// The conversion of a normalized byte range to an original byte
/// range: the union of the per-byte mappings. An empty range anchors at
/// the mapping of the byte it points at; a range past the end of the
/// map converts to nothing.
pub open spec fn spec_convert(m: NsModel, start: int, end: int) -> Option<(usize, usize)> {
    if start > end || end > m.alignment.len() || start < 0 {
        None
    } else if start == end {
        if start < m.alignment.len() {
            Some((m.alignment[start].0, m.alignment[start].0))
        } else if m.alignment.len() == 0 {
            None
        } else {
            Some((m.alignment[start - 1].1, m.alignment[start - 1].1))
        }
    } else {
        Some((m.alignment[start].0, m.alignment[end - 1].1))
    }
}

impl NormalizedString {
    /// Convert the normalized byte range `[start, end)` to the original
    /// byte range it covers.
    pub fn convert_offsets(&self, start: usize, end: usize) -> (r: Option<(usize, usize)>)
        requires
            self.wf(),
        ensures
            r == spec_convert(self@, start as int, end as int),
            r is Some ==> (r->0).0 <= (r->0).1 <= byte_len(self@.original),
            r is Some ==> is_boundary(self@.original, (r->0).0 as int) && is_boundary(
                self@.original,
                (r->0).1 as int,
            ),
    {
        proof {
            lemma_boundary_ends(self@.original);
        }
        if start > end || end > self.alignment.len() {
            return None;
        }
        if start == end {
            if start < self.alignment.len() {
                let (a, _) = self.alignment[start];
                return Some((a, a));
            } else if self.alignment.len() == 0 {
                return None;
            } else {
                let (_, b) = self.alignment[start - 1];
                return Some((b, b));
            }
        }
        let (a, _) = self.alignment[start];
        let (_, b) = self.alignment[end - 1];
        Some((a, b))
    }
}

/// `m` with `s` prepended to the normalized form; the new bytes map to
/// the empty range at the start of the original.
pub open spec fn spec_prepended(m: NsModel, s: Seq<char>) -> NsModel {
    NsModel {
        original: m.original,
        normalized: s + m.normalized,
        alignment: Seq::new(byte_len(s), |i: int| (0usize, 0usize)) + m.alignment,
    }
}

impl NormalizedString {
    /// Prepend `s` to the normalized form, leaving the original as it
    /// is. The prepended bytes map to the empty range at position 0.
    pub fn prepend(&mut self, s: &str)
        requires
            old(self).wf(),
            byte_len(s@) + byte_len(old(self)@.normalized) <= usize::MAX,
        ensures
            final(self)@ == spec_prepended(old(self)@, s@),
            final(self).wf(),
    {
        let mut chars = str_chars(s);
        let n: usize = chars.len();
        let ghost sv = s@;
        // New normalized: s ++ old normalized.
        core::mem::swap(&mut chars, &mut self.normalized);
        self.normalized.append(&mut chars);
        // New alignment: one (0, 0) entry per byte of s, then the old entries.
        let mut zeros: Vec<(usize, usize)> = Vec::new();
        let mut i: usize = 0;
        proof {
            assert(byte_len(sv.take(0)) == 0) by {
                assert(sv.take(0) =~= Seq::<char>::empty());
            }
        }
        while i < n
            invariant
                n == sv.len(),
                0 <= i <= n,
                byte_len(sv) <= usize::MAX,
                zeros@ =~= Seq::new(byte_len(sv.take(i as int)), |k: int| (0usize, 0usize)),
            decreases n - i,
        {
            let u: usize = char_len(self.normalized[i]);
            proof {
                assert(self.normalized@[i as int] == sv[i as int]);
                lemma_byte_len_take_succ(sv, i as int);
                lemma_byte_len_take_mono(sv, i as int + 1, sv.len() as int);
                assert(sv.take(sv.len() as int) =~= sv);
            }
            let mut j: usize = 0;
            while j < u
                invariant
                    0 <= j <= u,
                    byte_len(sv.take(i as int)) + j <= usize::MAX,
                    zeros@ =~= Seq::new(
                        (byte_len(sv.take(i as int)) + j) as nat,
                        |k: int| (0usize, 0usize),
                    ),
                decreases u - j,
            {
                zeros.push((0, 0));
                j = j + 1;
                proof {
                    assert(zeros@ =~= Seq::new(
                        (byte_len(sv.take(i as int)) + j) as nat,
                        |k: int| (0usize, 0usize),
                    ));
                }
            }
            i = i + 1;
            proof {
                lemma_byte_len_take_succ(sv, i as int - 1);
                assert(zeros@ =~= Seq::new(byte_len(sv.take(i as int)), |k: int| (0usize, 0usize)));
            }
        }
        core::mem::swap(&mut zeros, &mut self.alignment);
        self.alignment.append(&mut zeros);
        proof {
            assert(sv.take(n as int) =~= sv);
            assert(self@.normalized =~= sv + old(self)@.normalized);
            assert(self@.alignment =~= Seq::new(byte_len(sv), |i: int| (0usize, 0usize))
                + old(self)@.alignment);
            assert(self@ =~~= spec_prepended(old(self)@, sv));
            lemma_byte_len_concat(sv, old(self)@.normalized);
            lemma_boundary_ends(self@.original);
        }
    }
}

/// The number of leading characters of `s` with the `White_Space`
/// property.
pub open spec fn leading_ws(s: Seq<char>) -> int
    decreases s.len(),
{
    if s.len() == 0 {
        0
    } else if is_uni_whitespace(s.first()) {
        1 + leading_ws(s.drop_first())
    } else {
        0
    }
}

/// The number of trailing characters of `s` with the `White_Space`
/// property.
pub open spec fn trailing_ws(s: Seq<char>) -> int
    decreases s.len(),
{
    if s.len() == 0 {
        0
    } else if is_uni_whitespace(s.last()) {
        1 + trailing_ws(s.drop_last())
    } else {
        0
    }
}

pub proof fn lemma_leading_ws_bound(s: Seq<char>)
    ensures
        0 <= leading_ws(s) <= s.len(),
    decreases s.len(),
{
    if s.len() > 0 && is_uni_whitespace(s.first()) {
        lemma_leading_ws_bound(s.drop_first());
    }
}

pub proof fn lemma_trailing_ws_bound(s: Seq<char>)
    ensures
        0 <= trailing_ws(s) <= s.len(),
    decreases s.len(),
{
    if s.len() > 0 && is_uni_whitespace(s.last()) {
        lemma_trailing_ws_bound(s.drop_last());
    }
}

/// `leading_ws` is the position of the first non-whitespace character.
pub proof fn lemma_leading_ws_at(s: Seq<char>, i: int)
    requires
        0 <= i <= s.len(),
        forall|j: int| 0 <= j < i ==> is_uni_whitespace(#[trigger] s[j]),
        i < s.len() ==> !is_uni_whitespace(s[i]),
    ensures
        leading_ws(s) == i,
    decreases s.len(),
{
    if i == 0 {
    } else {
        assert(is_uni_whitespace(s.first()));
        lemma_leading_ws_at(s.drop_first(), i - 1);
    }
}

/// `trailing_ws` is the distance from the last non-whitespace
/// character to the end.
pub proof fn lemma_trailing_ws_at(s: Seq<char>, i: int)
    requires
        0 <= i <= s.len(),
        forall|j: int| s.len() - i <= j < s.len() ==> is_uni_whitespace(#[trigger] s[j]),
        i < s.len() ==> !is_uni_whitespace(s[s.len() - i - 1]),
    ensures
        trailing_ws(s) == i,
    decreases s.len(),
{
    if i == 0 {
    } else {
        assert(is_uni_whitespace(s.last()));
        lemma_trailing_ws_at(s.drop_last(), i - 1);
    }
}

/// `m` with leading and/or trailing whitespace removed from the
/// normalized form.
pub open spec fn spec_stripped(m: NsModel, left: bool, right: bool) -> NsModel {
    let l = if left {
        leading_ws(m.normalized)
    } else {
        0
    };
    let t = if right {
        trailing_ws(m.normalized.skip(l))
    } else {
        0
    };
    let hi = m.normalized.len() - t;
    NsModel {
        original: m.original,
        normalized: m.normalized.subrange(l, hi),
        alignment: m.alignment.subrange(
            byte_len(m.normalized.take(l)) as int,
            byte_len(m.normalized.take(hi)) as int,
        ),
    }
}

impl NormalizedString {
    /// Remove leading (`left`) and/or trailing (`right`) whitespace
    /// from the normalized form, together with its alignment entries.
    #[verifier::rlimit(60)]
    pub fn strip(&mut self, left: bool, right: bool)
        requires
            old(self).wf(),
        ensures
            final(self)@ == spec_stripped(old(self)@, left, right),
            final(self).wf(),
    {
        let ghost m0 = self@;
        let n: usize = self.normalized.len();
        let mut l: usize = 0;
        if left {
            while l < n && self.normalized[l].is_whitespace()
                invariant
                    self@ == m0,
                    n == self.normalized@.len(),
                    0 <= l <= n,
                    forall|j: int| 0 <= j < l ==> is_uni_whitespace(#[trigger] self.normalized@[j]),
                decreases n - l,
            {
                l = l + 1;
            }
            proof {
                lemma_leading_ws_at(m0.normalized, l as int);
            }
        } else {
            proof {
                lemma_leading_ws_bound(m0.normalized);
            }
        }
        let mut t: usize = 0;
        let ghost rest = m0.normalized.skip(l as int);
        if right {
            while t < n - l && self.normalized[n - 1 - t].is_whitespace()
                invariant
                    self@ == m0,
                    n == self.normalized@.len(),
                    0 <= l <= n,
                    0 <= t <= n - l,
                    rest == m0.normalized.skip(l as int),
                    forall|j: int| rest.len() - t <= j < rest.len() ==> is_uni_whitespace(
                        #[trigger] rest[j],
                    ),
                decreases n - l - t,
            {
                proof {
                    assert(rest[rest.len() - t - 1] == m0.normalized[n - 1 - t]);
                }
                t = t + 1;
            }
            proof {
                if t < n - l {
                    assert(rest[rest.len() - t - 1] == m0.normalized[n - 1 - t]);
                }
                lemma_trailing_ws_at(rest, t as int);
            }
        }
        let hi: usize = n - t;
        let b1: usize = byte_len_upto(&self.normalized, l);
        let b2: usize = byte_len_upto(&self.normalized, hi);
        proof {
            lemma_byte_len_take_mono(m0.normalized, l as int, hi as int);
            lemma_byte_len_take_mono(m0.normalized, hi as int, n as int);
            assert(m0.normalized.take(n as int) =~= m0.normalized);
        }
        let new_norm = copy_range(&self.normalized, l, hi);
        let new_align = copy_range(&self.alignment, b1, b2);
        self.normalized = new_norm;
        self.alignment = new_align;
        proof {
            assert(self@ =~~= spec_stripped(m0, left, right));
            // Well-formedness: the alignment entries are a contiguous
            // slice of the old ones.
            assert(m0.normalized =~= m0.normalized.take(l as int) + m0.normalized.subrange(
                l as int,
                hi as int,
            ) + m0.normalized.skip(hi as int));
            lemma_byte_len_concat(
                m0.normalized.take(l as int) + m0.normalized.subrange(l as int, hi as int),
                m0.normalized.skip(hi as int),
            );
            lemma_byte_len_concat(
                m0.normalized.take(l as int),
                m0.normalized.subrange(l as int, hi as int),
            );
            assert((m0.normalized.take(l as int) + m0.normalized.subrange(l as int, hi as int))
                =~= m0.normalized.take(hi as int));
            assert(self.alignment@.len() == byte_len(self@.normalized));
        }
    }
}

/// Byte lengths of strictly longer character prefixes are strictly
/// larger.
pub proof fn lemma_byte_len_take_strict(s: Seq<char>, i: int, j: int)
    requires
        0 <= i < j <= s.len(),
    ensures
        byte_len(s.take(i)) < byte_len(s.take(j)),
{
    lemma_byte_len_take_succ(s, i);
    crate::text::lemma_byte_len_take_mono(s, i + 1, j);
}

/// The character index of a byte boundary.
pub open spec fn char_of_boundary(s: Seq<char>, b: int) -> int {
    choose|k: int| 0 <= k <= s.len() && byte_len(s.take(k)) == b
}

pub proof fn lemma_char_of_boundary(s: Seq<char>, b: int)
    requires
        is_boundary(s, b),
    ensures
        0 <= char_of_boundary(s, b) <= s.len(),
        byte_len(s.take(char_of_boundary(s, b))) == b,
        forall|k: int| 0 <= k <= s.len() && byte_len(s.take(k)) == b ==> k == char_of_boundary(s, b),
{
    let k0 = choose|k: int| 0 <= k <= s.len() && byte_len(s.take(k)) == b;
    assert forall|k: int| 0 <= k <= s.len() && byte_len(s.take(k)) == b implies k == k0 by {
        if k < k0 {
            lemma_byte_len_take_strict(s, k, k0);
        } else if k > k0 {
            lemma_byte_len_take_strict(s, k0, k);
        }
    }
}

/// The character index of a byte boundary, found by scanning.
pub fn boundary_char_index(v: &Vec<char>, b: usize) -> (r: usize)
    requires
        is_boundary(v@, b as int),
        byte_len(v@) <= usize::MAX,
    ensures
        r <= v@.len(),
        byte_len(v@.take(r as int)) == b,
        r as int == char_of_boundary(v@, b as int),
{
    let n: usize = v.len();
    let mut acc: usize = 0;
    let mut i: usize = 0;
    proof {
        lemma_char_of_boundary(v@, b as int);
    }
    while acc < b
        invariant
            n == v@.len(),
            0 <= i <= n,
            acc == byte_len(v@.take(i as int)),
            acc <= b,
            i <= char_of_boundary(v@, b as int),
        decreases b - acc,
    {
        proof {
            let kb = char_of_boundary(v@, b as int);
            if i >= kb {
                assert(acc == b);
            }
            lemma_byte_len_take_succ(v@, i as int);
            lemma_byte_len_take_mono(v@, i as int + 1, kb);
        }
        acc = acc + crate::text::char_len(v[i]);
        i = i + 1;
    }
    proof {
        let kb = char_of_boundary(v@, b as int);
        if i < kb {
            lemma_byte_len_take_strict(v@, i as int, kb);
        }
        if i > kb {
            lemma_byte_len_take_strict(v@, kb, i as int);
        }
    }
    i
}

/// A boundary of `s` between two boundaries `kf <= k <= kt` (as char
/// indices) is, relative to the byte position of `kf`, a boundary of
/// the subrange `s[kf..kt]`.
pub proof fn lemma_boundary_in_subrange(s: Seq<char>, kf: int, kt: int, b: int)
    requires
        0 <= kf <= kt <= s.len(),
        is_boundary(s, b),
        byte_len(s.take(kf)) <= b <= byte_len(s.take(kt)),
    ensures
        is_boundary(s.subrange(kf, kt), b - byte_len(s.take(kf))),
{
    lemma_char_of_boundary(s, b);
    let k = char_of_boundary(s, b);
    if k < kf {
        lemma_byte_len_take_strict(s, k, kf);
    }
    if k > kt {
        lemma_byte_len_take_strict(s, kt, k);
    }
    assert(kf <= k <= kt);
    assert(s.take(k) =~= s.take(kf) + s.subrange(kf, kt).take(k - kf));
    lemma_byte_len_concat(s.take(kf), s.subrange(kf, kt).take(k - kf));
    assert(byte_len(s.subrange(kf, kt).take(k - kf)) == b - byte_len(s.take(kf)));
}

/// One alignment entry clamped into `[lo, hi]` and rebased at `lo`.
pub open spec fn clamp_entry(e: (usize, usize), lo: int, hi: int) -> (usize, usize) {
    (
        ((if e.0 < lo {
            lo
        } else if e.0 > hi {
            hi
        } else {
            e.0 as int
        }) - lo) as usize,
        ((if e.1 < lo {
            lo
        } else if e.1 > hi {
            hi
        } else {
            e.1 as int
        }) - lo) as usize,
    )
}

/// The sub-`NormalizedString` of normalized characters `[c_from,
/// c_to)`, whose original is cut at the character positions `[occ_from,
/// occ_to)`. Alignment entries are rebased into the cut, clamped where
/// they reach past it.
pub open spec fn spec_slice_ns(ns: NsModel, c_from: int, c_to: int, occ_from: int, occ_to: int) -> NsModel {
    let b1 = byte_len(ns.normalized.take(c_from));
    let b2 = byte_len(ns.normalized.take(c_to));
    let lo = byte_len(ns.original.take(occ_from));
    let hi = byte_len(ns.original.take(occ_to));
    NsModel {
        original: ns.original.subrange(occ_from, occ_to),
        normalized: ns.normalized.subrange(c_from, c_to),
        alignment: Seq::new((b2 - b1) as nat, |i: int| clamp_entry(ns.alignment[b1 + i], lo as int, hi as int)),
    }
}

impl NormalizedString {
    /// Cut out the sub-string of normalized characters `[c_from, c_to)`
    /// together with the original characters `[occ_from, occ_to)`.
    pub fn slice_range(&self, c_from: usize, c_to: usize, occ_from: usize, occ_to: usize) -> (r:
        NormalizedString)
        requires
            self.wf(),
            c_from <= c_to <= self@.normalized.len(),
            occ_from <= occ_to <= self@.original.len(),
        ensures
            r@ == spec_slice_ns(self@, c_from as int, c_to as int, occ_from as int, occ_to as int),
            r.wf(),
    {
        let ghost m = self@;
        let b1: usize = byte_len_upto(&self.normalized, c_from);
        let b2: usize = byte_len_upto(&self.normalized, c_to);
        let lo: usize = byte_len_upto(&self.original, occ_from);
        let hi: usize = byte_len_upto(&self.original, occ_to);
        proof {
            lemma_byte_len_take_mono(m.normalized, c_from as int, c_to as int);
            lemma_byte_len_take_mono(m.original, occ_from as int, occ_to as int);
            lemma_byte_len_take_mono(m.normalized, c_to as int, m.normalized.len() as int);
            assert(m.normalized.take(m.normalized.len() as int) =~= m.normalized);
        }
        let new_norm = copy_range(&self.normalized, c_from, c_to);
        let new_orig = copy_range(&self.original, occ_from, occ_to);
        let mut new_align: Vec<(usize, usize)> = Vec::new();
        let mut i: usize = b1;
        while i < b2
            invariant
                b1 <= i <= b2 <= m.alignment.len(),
                b1 == byte_len(m.normalized.take(c_from as int)),
                b2 == byte_len(m.normalized.take(c_to as int)),
                lo == byte_len(m.original.take(occ_from as int)),
                hi == byte_len(m.original.take(occ_to as int)),
                lo <= hi,
                self@ == m,
                new_align@ =~= Seq::new(
                    (i - b1) as nat,
                    |j: int| clamp_entry(m.alignment[b1 + j], lo as int, hi as int),
                ),
            decreases b2 - i,
        {
            let (s0, s1) = self.alignment[i];
            let c0: usize = if s0 < lo {
                lo
            } else if s0 > hi {
                hi
            } else {
                s0
            };
            let c1: usize = if s1 < lo {
                lo
            } else if s1 > hi {
                hi
            } else {
                s1
            };
            new_align.push((c0 - lo, c1 - lo));
            i = i + 1;
            proof {
                assert(new_align@ =~= Seq::new(
                    (i - b1) as nat,
                    |j: int| clamp_entry(m.alignment[b1 + j], lo as int, hi as int),
                ));
            }
        }
        let r = NormalizedString {
            original: new_orig,
            normalized: new_norm,
            alignment: new_align,
            original_bytes: hi - lo,
        };
        proof {
            let rm = spec_slice_ns(m, c_from as int, c_to as int, occ_from as int, occ_to as int);
            assert(r@ =~~= rm);
            // Well-formedness of the slice.
            assert(m.original.take(occ_to as int).take(occ_from as int) =~= m.original.take(
                occ_from as int,
            ));
            assert(m.original.take(occ_to as int) =~= m.original.take(occ_from as int)
                + m.original.subrange(occ_from as int, occ_to as int));
            lemma_byte_len_concat(
                m.original.take(occ_from as int),
                m.original.subrange(occ_from as int, occ_to as int),
            );
            assert(byte_len(rm.original) == hi - lo);
            assert(m.normalized.take(c_to as int) =~= m.normalized.take(c_from as int)
                + m.normalized.subrange(c_from as int, c_to as int));
            lemma_byte_len_concat(
                m.normalized.take(c_from as int),
                m.normalized.subrange(c_from as int, c_to as int),
            );
            assert(rm.alignment.len() == byte_len(rm.normalized));
            assert forall|k: int| 0 <= k < rm.alignment.len() implies (#[trigger] rm.alignment[k]).0
                <= rm.alignment[k].1 <= byte_len(rm.original) && is_boundary(
                rm.original,
                rm.alignment[k].0 as int,
            ) && is_boundary(rm.original, rm.alignment[k].1 as int) by {
                let e = m.alignment[b1 + k];
                assert(e.0 <= e.1 <= byte_len(m.original));
                let v0 = (if e.0 < lo {
                    lo as int
                } else if e.0 > hi {
                    hi as int
                } else {
                    e.0 as int
                });
                let v1 = (if e.1 < lo {
                    lo as int
                } else if e.1 > hi {
                    hi as int
                } else {
                    e.1 as int
                });
                lemma_boundary_ends(m.original);
                assert(is_boundary(m.original, lo as int)) by {
                    assert(m.original.take(occ_from as int) =~= m.original.take(occ_from as int));
                }
                assert(is_boundary(m.original, hi as int));
                assert(is_boundary(m.original, v0) && lo <= v0 <= hi);
                assert(is_boundary(m.original, v1) && lo <= v1 <= hi);
                lemma_boundary_in_subrange(m.original, occ_from as int, occ_to as int, v0);
                lemma_boundary_in_subrange(m.original, occ_from as int, occ_to as int, v1);
            }
            assert forall|k: int, l: int| 0 <= k <= l < rm.alignment.len() implies
                (#[trigger] rm.alignment[k]).0 <= (#[trigger] rm.alignment[l]).0
                    && rm.alignment[k].1 <= rm.alignment[l].1 by {
                assert(m.alignment[b1 + k].0 <= m.alignment[b1 + l].0);
                assert(m.alignment[b1 + k].1 <= m.alignment[b1 + l].1);
            }
        }
        r
    }
}

/// `a` followed by `b`: originals and normalized forms concatenated,
/// `b`'s alignment entries shifted by the byte length of `a`'s
/// original.
pub open spec fn spec_ns_merged(a: NsModel, b: NsModel) -> NsModel {
    let d = byte_len(a.original);
    NsModel {
        original: a.original + b.original,
        normalized: a.normalized + b.normalized,
        alignment: a.alignment + b.alignment.map_values(
            |o: (usize, usize)| (((o.0 + d) as usize), ((o.1 + d) as usize)),
        ),
    }
}

impl NormalizedString {
    /// Append `other`, shifting its alignment entries past this
    /// original's bytes.
    pub fn merge_with(&mut self, other: &NormalizedString)
        requires
            old(self).wf(),
            other.wf(),
            byte_len(old(self)@.original) + byte_len(other@.original) <= usize::MAX,
        ensures
            final(self)@ == spec_ns_merged(old(self)@, other@),
            final(self).wf(),
    {
        let ghost a = self@;
        let ghost b = other@;
        let d: usize = self.original_bytes;
        let n_orig: usize = other.original.len();
        let mut more_orig = copy_range(&other.original, 0, n_orig);
        self.original.append(&mut more_orig);
        let n_norm: usize = other.normalized.len();
        let mut more_norm = copy_range(&other.normalized, 0, n_norm);
        self.normalized.append(&mut more_norm);
        let n_al: usize = other.alignment.len();
        let mut i: usize = 0;
        while i < n_al
            invariant
                n_al == b.alignment.len(),
                other@ == b,
                0 <= i <= n_al,
                d == byte_len(a.original),
                byte_len(a.original) + byte_len(b.original) <= usize::MAX,
                ns_wf(b),
                self.original@ == a.original + b.original,
                self.normalized@ == a.normalized + b.normalized,
                self.original_bytes == d,
                self.alignment@ =~= a.alignment + b.alignment.take(i as int).map_values(
                    |o: (usize, usize)| (((o.0 + d as nat) as usize), ((o.1 + d as nat) as usize)),
                ),
            decreases n_al - i,
        {
            let (s, e) = other.alignment[i];
            proof {
                assert(b.alignment[i as int].0 <= b.alignment[i as int].1 <= byte_len(b.original));
            }
            self.alignment.push((s + d, e + d));
            i = i + 1;
            proof {
                assert(b.alignment.take(i as int) =~= b.alignment.take(i as int - 1).push(
                    b.alignment[i as int - 1],
                ));
                assert(self.alignment@ =~= a.alignment + b.alignment.take(i as int).map_values(
                    |o: (usize, usize)| (((o.0 + d as nat) as usize), ((o.1 + d as nat) as usize)),
                ));
            }
        }
        self.original_bytes = self.original_bytes + other.original_bytes;
        // The merged alignment is a real vector, so the combined
        // normalized byte length fits in usize.
        let merged_align_len: usize = self.alignment.len();
        proof {
            assert(b.alignment.take(n_al as int) =~= b.alignment);
            assert(self@ =~~= spec_ns_merged(a, b));
            lemma_byte_len_concat(a.original, b.original);
            lemma_byte_len_concat(a.normalized, b.normalized);
            assert(merged_align_len == byte_len(a.normalized) + byte_len(b.normalized));
            let m = spec_ns_merged(a, b);
            assert forall|k: int| 0 <= k < m.alignment.len() implies (#[trigger] m.alignment[k]).0
                <= m.alignment[k].1 <= byte_len(m.original) && is_boundary(
                m.original,
                m.alignment[k].0 as int,
            ) && is_boundary(m.original, m.alignment[k].1 as int) by {
                if k < a.alignment.len() {
                    assert(m.alignment[k] == a.alignment[k]);
                    lemma_boundary_concat_left(a.original, b.original, a.alignment[k].0 as int);
                    lemma_boundary_concat_left(a.original, b.original, a.alignment[k].1 as int);
                } else {
                    let o = b.alignment[k - a.alignment.len()];
                    assert(m.alignment[k] == (((o.0 + d as nat) as usize), ((o.1 + d as nat)
                        as usize)));
                    lemma_boundary_concat_right(a.original, b.original, o.0 as int);
                    lemma_boundary_concat_right(a.original, b.original, o.1 as int);
                }
            }
            assert forall|i_: int, j_: int| 0 <= i_ <= j_ < m.alignment.len() implies
                (#[trigger] m.alignment[i_]).0 <= (#[trigger] m.alignment[j_]).0
                    && m.alignment[i_].1 <= m.alignment[j_].1 by {
                if j_ < a.alignment.len() {
                } else if i_ < a.alignment.len() {
                    let o = b.alignment[j_ - a.alignment.len()];
                    assert(a.alignment[i_].0 <= a.alignment[i_].1 <= byte_len(a.original));
                } else {
                    let oi = b.alignment[i_ - a.alignment.len()];
                    let oj = b.alignment[j_ - a.alignment.len()];
                    assert(oi.0 <= oj.0 && oi.1 <= oj.1);
                }
            }
        }
    }
}

} // verus!
