//! The small value types of the leaderboard API client: display names and
//! their matching, embed parameters, and variable collections.

use crate::key::{lower_of, lowercase};
use crate::textfmt::{join, join_sep, lemma_lex_antisym, lemma_lex_total, lemma_lex_trans, lex_le,
    str_lex_le, strings_view};
use vstd::prelude::*;

verus! {

/// Whether `n` occurs in `h` as a contiguous run.
pub open spec fn contains_seq(h: Seq<char>, n: Seq<char>) -> bool {
    exists|p: int| 0 <= p <= h.len() - n.len() && #[trigger] h.subrange(p, p + n.len()) == n
}

/// Whether `needle` occurs in `hay`.
pub fn contains_str(hay: &str, needle: &str) -> (r: bool)
    ensures
        r == contains_seq(hay@, needle@),
{
    let ghost hv = hay@;
    let ghost nv = needle@;
    let hlen = hay.unicode_len();
    let nlen = needle.unicode_len();
    if nlen > hlen {
        return false;
    }
    let mut p: usize = 0;
    while p <= hlen - nlen
        invariant
            0 <= p <= hlen - nlen + 1,
            nlen <= hlen,
            hlen == hv.len(),
            nlen == nv.len(),
            hay@ == hv,
            needle@ == nv,
            forall|q: int| 0 <= q < p ==> #[trigger] hv.subrange(q, q + nv.len()) != nv,
        decreases hlen - p,
    {
        let mut j: usize = 0;
        let mut hit = true;
        let ghost mut mism: int = 0;
        while hit && j < nlen
            invariant
                0 <= j <= nlen == nv.len(),
                hlen == hv.len(),
                hay@ == hv,
                needle@ == nv,
                0 <= p <= hlen - nlen,
                hit ==> forall|m: int| 0 <= m < j ==> hv[p + m] == nv[m],
                !hit ==> 0 <= mism < nv.len() && hv[p + mism] != nv[mism],
            decreases nlen - j, (if hit { 1int } else { 0int }),
        {
            if hay.get_char(p + j) != needle.get_char(j) {
                proof {
                    mism = j as int;
                }
                hit = false;
            } else {
                j = j + 1;
            }
        }
        if hit {
            proof {
                assert(hv.subrange(p as int, p + nv.len()) =~= nv);
            }
            return true;
        }
        proof {
            assert(hv.subrange(p as int, p + nv.len())[mism] == hv[p + mism]);
            assert(hv.subrange(p as int, p + nv.len()) != nv);
        }
        p = p + 1;
    }
    proof {
        assert forall|q: int| 0 <= q <= hv.len() - nv.len() implies #[trigger] hv.subrange(
            q,
            q + nv.len(),
        ) != nv by {}
    }
    false
}

/// An empty payload.
#[derive(Debug, Clone, Default)]
pub struct Empty {}

/// The names a user or game carries: an international one, and optional
/// Japanese and Twitch forms.
#[derive(Debug, Clone)]
pub struct Names {
    /// The international name.
    pub international: String,
    /// The Japanese name, if any.
    pub japanese: Option<String>,
    /// The Twitch name, if any.
    pub twitch: Option<String>,
}

impl Names {
    /// The printable name: the Japanese one when present, the
    /// international one otherwise.
    pub fn name(&self) -> (r: &str)
        ensures
            match self.japanese {
                Some(j) => r@ == j@,
                None => r@ == self.international@,
            },
    {
        match &self.japanese {
            Some(name) => name.as_str(),
            None => self.international.as_str(),
        }
    }

    /// Whether `pattern` occurs in any of the names once they are
    /// lower-cased.
    pub fn matches(&self, pattern: &str) -> (r: bool)
        ensures
            r == (contains_seq(lower_of(self.international@), pattern@) || (match self.japanese {
                Some(j) => contains_seq(lower_of(j@), pattern@),
                None => false,
            }) || (match self.twitch {
                Some(t) => contains_seq(lower_of(t@), pattern@),
                None => false,
            })),
    {
        if contains_str(lowercase(self.international.as_str()).as_str(), pattern) {
            return true;
        }
        match &self.japanese {
            Some(japanese) => {
                if contains_str(lowercase(japanese.as_str()).as_str(), pattern) {
                    return true;
                }
            },
            None => {},
        }
        match &self.twitch {
            Some(twitch) => {
                if contains_str(lowercase(twitch.as_str()).as_str(), pattern) {
                    return true;
                }
            },
            None => {},
        }
        false
    }
}

/// The shape of a binding list: each entry's key and value.
pub open spec fn kv_view(s: Seq<(String, String)>) -> Seq<(Seq<char>, Seq<char>)> {
    s.map_values(|p: (String, String)| (p.0@, p.1@))
}

/// Whether the bindings ascend strictly by key: sorted, no key twice.
pub open spec fn kv_sorted(s: Seq<(Seq<char>, Seq<char>)>) -> bool {
    forall|i: int, j: int|
        0 <= i < j < s.len() ==> lex_le((#[trigger] s[i]).0, (#[trigger] s[j]).0) && s[i].0
            != s[j].0
}

/// The sorted binding list after binding `k` to `v`: `k` lands before the
/// first key not below it, replacing an entry of the same key.
pub open spec fn kv_insert(
    s: Seq<(Seq<char>, Seq<char>)>,
    k: Seq<char>,
    v: Seq<char>,
) -> Seq<(Seq<char>, Seq<char>)>
    decreases s.len(),
{
    if s.len() == 0 {
        seq![(k, v)]
    } else if s[0].0 == k {
        seq![(k, v)] + s.drop_first()
    } else if lex_le(k, s[0].0) {
        seq![(k, v)] + s
    } else {
        seq![s[0]] + kv_insert(s.drop_first(), k, v)
    }
}

/// The piece of a cache key one binding contributes.
pub open spec fn kv_piece(p: (Seq<char>, Seq<char>)) -> Seq<char> {
    p.0 + ":"@ + p.1
}

/// A collection of variable bindings, keyed by variable name. The bindings
/// are kept strictly ascending by key — sorted and without duplicates — so
/// two collections holding the same bindings are the same collection, and
/// yield the same cache key.
#[derive(Debug, Clone, Default)]
pub struct Variables {
    variables: Vec<(String, String)>,
}

impl View for Variables {
    type V = Seq<(Seq<char>, Seq<char>)>;

    closed spec fn view(&self) -> Seq<(Seq<char>, Seq<char>)> {
        kv_view(self.variables@)
    }
}

impl Variables {
    /// The bindings ascend strictly by key.
    pub closed spec fn wf(&self) -> bool {
        kv_sorted(kv_view(self.variables@))
    }

    /// An empty collection.
    pub fn new() -> (r: Variables)
        ensures
            r@ == Seq::<(Seq<char>, Seq<char>)>::empty(),
            r.wf(),
    {
        Variables { variables: Vec::new() }
    }

    /// Bind `name` to `value`, as `kv_insert` describes it: in key order,
    /// replacing any binding of the same name.
    pub fn insert(&mut self, name: &str, value: &str)
        requires
            old(self).wf(),
        ensures
            final(self).wf(),
            final(self)@ == kv_insert(old(self)@, name@, value@),
    {
        let ghost s0 = kv_view(self.variables@);
        let len = self.variables.len();
        let mut pos: usize = 0;
        while pos < len && !str_lex_le(name, self.variables[pos].0.as_str())
            invariant
                0 <= pos <= len == self.variables@.len(),
                s0 == kv_view(self.variables@),
                forall|m: int| 0 <= m < pos ==> !lex_le(name@, (#[trigger] s0[m]).0),
            decreases len - pos,
        {
            pos = pos + 1;
        }
        let pair = (String::from_str(name), String::from_str(value));
        if pos < len && crate::words::str_eq(self.variables[pos].0.as_str(), name) {
            let ghost mid0 = self.variables@;
            let _ = self.variables.remove(pos);
            self.variables.insert(pos, pair);
            proof {
                mid0.remove_ensures(pos as int);
                mid0.remove(pos as int).insert_ensures(pos as int, pair);
                assert(kv_view(self.variables@) =~= s0.update(pos as int, (name@, value@)));
                lemma_kv_insert_at(s0, name@, value@, pos as int);
                assert forall|i: int, j: int|
                    0 <= i < j < kv_view(self.variables@).len() implies lex_le(
                    (#[trigger] kv_view(self.variables@)[i]).0,
                    (#[trigger] kv_view(self.variables@)[j]).0,
                ) && kv_view(self.variables@)[i].0 != kv_view(self.variables@)[j].0 by {
                    assert(kv_view(self.variables@)[i].0 == s0[i].0);
                    assert(kv_view(self.variables@)[j].0 == s0[j].0);
                }
            }
        } else {
            let ghost mid0 = self.variables@;
            self.variables.insert(pos, pair);
            proof {
                mid0.insert_ensures(pos as int, pair);
                assert(kv_view(self.variables@) =~= s0.insert(pos as int, (name@, value@)));
                lemma_kv_insert_at(s0, name@, value@, pos as int);
                lemma_kv_sorted_after_insert(s0, name@, value@, pos as int);
            }
        }
    }

    /// A cache key naming this collection: each binding as "name:value",
    /// joined by slashes — in ascending key order, by the invariant, so
    /// equal collections give equal keys.
    pub fn cache_key(&self) -> (r: String)
        requires
            self.wf(),
        ensures
            r@ == join_sep(self@.map_values(|p: (Seq<char>, Seq<char>)| kv_piece(p)), "/"@),
    {
        let len = self.variables.len();
        let mut parts: Vec<String> = Vec::new();
        let mut i: usize = 0;
        while i < len
            invariant
                0 <= i <= len == self.variables@.len(),
                parts@.len() == i,
                forall|j: int|
                    0 <= j < i ==> (#[trigger] parts@[j])@ == kv_piece(kv_view(self.variables@)[j]),
            decreases len - i,
        {
            let mut piece = self.variables[i].0.clone();
            piece.append(":");
            piece.append(self.variables[i].1.as_str());
            parts.push(piece);
            i = i + 1;
        }
        proof {
            assert(strings_view(parts@) =~= self@.map_values(
                |p: (Seq<char>, Seq<char>)| kv_piece(p),
            ));
        }
        join(&parts, "/")
    }
}

/// Where the scan stopped is where `kv_insert` lands: before the first key
/// not below `k`, replacing it when equal.
proof fn lemma_kv_insert_at(s: Seq<(Seq<char>, Seq<char>)>, k: Seq<char>, v: Seq<char>, pos: int)
    requires
        kv_sorted(s),
        0 <= pos <= s.len(),
        forall|m: int| 0 <= m < pos ==> !lex_le(k, (#[trigger] s[m]).0),
        pos < s.len() ==> lex_le(k, s[pos].0),
    ensures
        kv_insert(s, k, v) == (if pos < s.len() && s[pos].0 == k {
            s.update(pos, (k, v))
        } else {
            s.insert(pos, (k, v))
        }),
    decreases pos,
{
    if pos == 0 {
        if s.len() == 0 {
            assert(kv_insert(s, k, v) =~= s.insert(0, (k, v)));
        } else if s[0].0 == k {
            assert(kv_insert(s, k, v) =~= s.update(0, (k, v)));
        } else {
            assert(kv_insert(s, k, v) =~= s.insert(0, (k, v)));
        }
    } else {
        lemma_lex_total(k, s[0].0);
        assert(!lex_le(k, s[0].0));
        assert(s[0].0 != k);
        let t = s.drop_first();
        assert(forall|m: int| 0 <= m < pos - 1 ==> !lex_le(k, (#[trigger] t[m]).0)) by {
            assert forall|m: int| 0 <= m < pos - 1 implies !lex_le(k, (#[trigger] t[m]).0) by {
                assert(t[m] == s[m + 1]);
            }
        }
        assert(kv_sorted(t)) by {
            assert forall|i: int, j: int| 0 <= i < j < t.len() implies lex_le(
                (#[trigger] t[i]).0,
                (#[trigger] t[j]).0,
            ) && t[i].0 != t[j].0 by {
                assert(t[i] == s[i + 1]);
                assert(t[j] == s[j + 1]);
            }
        }
        if pos < s.len() {
            assert(t[pos - 1] == s[pos]);
        }
        lemma_kv_insert_at(t, k, v, pos - 1);
        if pos < s.len() && s[pos].0 == k {
            assert(seq![s[0]] + t.update(pos - 1, (k, v)) =~= s.update(pos, (k, v)));
        } else {
            assert(seq![s[0]] + t.insert(pos - 1, (k, v)) =~= s.insert(pos, (k, v)));
        }
    }
}

/// Inserting a fresh key at the found position keeps the bindings strictly
/// ascending.
proof fn lemma_kv_sorted_after_insert(
    s: Seq<(Seq<char>, Seq<char>)>,
    k: Seq<char>,
    v: Seq<char>,
    pos: int,
)
    requires
        kv_sorted(s),
        0 <= pos <= s.len(),
        forall|m: int| 0 <= m < pos ==> !lex_le(k, (#[trigger] s[m]).0),
        pos < s.len() ==> lex_le(k, s[pos].0) && s[pos].0 != k,
    ensures
        kv_sorted(s.insert(pos, (k, v))),
{
    let c = s.insert(pos, (k, v));
    s.insert_ensures(pos, (k, v));
    assert forall|i: int, j: int| 0 <= i < j < c.len() implies lex_le(
        (#[trigger] c[i]).0,
        (#[trigger] c[j]).0,
    ) && c[i].0 != c[j].0 by {
        let i0 = if i < pos {
            i
        } else {
            i - 1
        };
        let j0 = if j < pos {
            j
        } else {
            j - 1
        };
        if i != pos {
            assert(c[i] == s[i0]);
        }
        if j != pos {
            assert(c[j] == s[j0]);
        }
        if i == pos {
            if j0 > pos {
                lemma_lex_trans(k, s[pos].0, s[j0].0);
            }
            assert(lex_le(k, s[j0].0));
            if s[j0].0 == k {
                assert(j0 > pos);
                assert(lex_le(s[pos].0, s[j0].0) && s[pos].0 != s[j0].0);
                lemma_lex_antisym(k, s[pos].0);
            }
        } else if j == pos {
            assert(!lex_le(k, s[i0].0));
            lemma_lex_total(k, s[i0].0);
            if s[i0].0 == k {
                lemma_lex_total(k, k);
            }
        } else if i0 < j0 {
            assert(lex_le(s[i0].0, s[j0].0) && s[i0].0 != s[j0].0);
        } else {
            assert(i < pos && j > pos && i0 == j0);
            assert(!lex_le(k, s[i0].0));
            assert(lex_le(k, s[j0].0));
            assert(false);
        }
    }
}

/// Equal bindings make equal collections: two strictly ascending lists
/// holding the same pairs are the same list, so the cache key depends only
/// on what is bound, never on insertion order.
pub proof fn lemma_kv_canonical(s1: Seq<(Seq<char>, Seq<char>)>, s2: Seq<(Seq<char>, Seq<char>)>)
    requires
        kv_sorted(s1),
        kv_sorted(s2),
        forall|p: (Seq<char>, Seq<char>)| s1.contains(p) == #[trigger] s2.contains(p),
    ensures
        s1 == s2,
    decreases s1.len(),
{
    if s1.len() == 0 {
        if s2.len() > 0 {
            assert(s2.contains(s2[0]));
        }
        assert(s1 =~= s2);
    } else {
        assert(s1.contains(s1[0]));
        assert(s2.contains(s1[0]));
        let i = choose|i: int| 0 <= i < s2.len() && (#[trigger] s2[i]) == s1[0];
        assert(s2.contains(s2[0]));
        assert(s1.contains(s2[0]));
        let j = choose|j: int| 0 <= j < s1.len() && (#[trigger] s1[j]) == s2[0];
        if i > 0 {
            assert(lex_le(s2[0].0, s2[i].0) && s2[0].0 != s2[i].0);
        }
        if j > 0 {
            assert(lex_le(s1[0].0, s1[j].0) && s1[0].0 != s1[j].0);
        }
        if i > 0 && j > 0 {
            assert(lex_le(s2[0].0, s1[0].0) && s2[0].0 != s1[0].0);
            assert(lex_le(s1[0].0, s2[0].0));
            lemma_lex_antisym(s2[0].0, s1[0].0);
            assert(false);
        }
        assert(s1[0] == s2[0]);
        let t1 = s1.drop_first();
        let t2 = s2.drop_first();
        assert(kv_sorted(t1)) by {
            assert forall|a: int, b: int| 0 <= a < b < t1.len() implies lex_le(
                (#[trigger] t1[a]).0,
                (#[trigger] t1[b]).0,
            ) && t1[a].0 != t1[b].0 by {
                assert(t1[a] == s1[a + 1]);
                assert(t1[b] == s1[b + 1]);
            }
        }
        assert(kv_sorted(t2)) by {
            assert forall|a: int, b: int| 0 <= a < b < t2.len() implies lex_le(
                (#[trigger] t2[a]).0,
                (#[trigger] t2[b]).0,
            ) && t2[a].0 != t2[b].0 by {
                assert(t2[a] == s2[a + 1]);
                assert(t2[b] == s2[b + 1]);
            }
        }
        assert forall|p: (Seq<char>, Seq<char>)| t1.contains(p) == #[trigger] t2.contains(p) by {
            if t1.contains(p) {
                let a = choose|a: int| 0 <= a < t1.len() && (#[trigger] t1[a]) == p;
                assert(t1[a] == s1[a + 1]);
                assert(s1.contains(p));
                assert(s2.contains(p));
                let b = choose|b: int| 0 <= b < s2.len() && (#[trigger] s2[b]) == p;
                assert(lex_le(s1[0].0, s1[a + 1].0) && s1[0].0 != s1[a + 1].0);
                assert(b != 0);
                assert(t2[b - 1] == s2[b]);
                assert(t2.contains(p));
            }
            if t2.contains(p) {
                let a = choose|a: int| 0 <= a < t2.len() && (#[trigger] t2[a]) == p;
                assert(t2[a] == s2[a + 1]);
                assert(s2.contains(p));
                assert(s1.contains(p));
                let b = choose|b: int| 0 <= b < s1.len() && (#[trigger] s1[b]) == p;
                assert(lex_le(s2[0].0, s2[a + 1].0) && s2[0].0 != s2[a + 1].0);
                assert(b != 0);
                assert(t1[b - 1] == s1[b]);
                assert(t1.contains(p));
            }
        }
        lemma_kv_canonical(t1, t2);
        assert(s1 =~= seq![s1[0]] + t1);
        assert(s2 =~= seq![s2[0]] + t2);
    }
}

/// What a leaderboard request may embed.
#[derive(Debug, Clone, Copy)]
pub enum Embed {
    /// Embed the players.
    Players,
    /// Embed the variables.
    Variables,
    /// Embed the game.
    Game,
}

/// The wire name of an embed.
pub open spec fn embed_id(e: Embed) -> Seq<char> {
    match e {
        Embed::Players => "players"@,
        Embed::Variables => "variables"@,
        Embed::Game => "game"@,
    }
}

impl Embed {
    /// The wire name of this embed.
    pub fn id(&self) -> (r: &'static str)
        ensures
            r@ == embed_id(*self),
    {
        match *self {
            Embed::Players => "players",
            Embed::Variables => "variables",
            Embed::Game => "game",
        }
    }
}

/// A collection of embed parameters.
#[derive(Debug, Clone, Default)]
pub struct Embeds {
    /// The embeds, in the order they were added.
    pub embeds: Vec<Embed>,
}

impl Embeds {
    /// The embeds as a query value: their wire names joined by commas, or
    /// nothing at all when no embed was added.
    pub fn to_query(&self) -> (r: Option<String>)
        ensures
            match r {
                Some(q) => self.embeds@.len() > 0 && q@ == join_sep(
                    self.embeds@.map_values(|e: Embed| embed_id(e)),
                    ","@,
                ),
                None => self.embeds@.len() == 0,
            },
    {
        let len = self.embeds.len();
        if len == 0 {
            return None;
        }
        let mut parts: Vec<String> = Vec::new();
        let mut i: usize = 0;
        while i < len
            invariant
                0 <= i <= len == self.embeds@.len(),
                parts@.len() == i,
                forall|j: int| 0 <= j < i ==> (#[trigger] parts@[j])@ == embed_id(self.embeds@[j]),
            decreases len - i,
        {
            parts.push(String::from_str(self.embeds[i].id()));
            i = i + 1;
        }
        proof {
            assert(strings_view(parts@) =~= self.embeds@.map_values(|e: Embed| embed_id(e)));
        }
        Some(join(&parts, ","))
    }

    /// Add the given embed parameter.
    pub fn push(&mut self, embed: Embed)
        ensures
            final(self).embeds@ == old(self).embeds@.push(embed),
    {
        self.embeds.push(embed);
    }
}

} // verus!
