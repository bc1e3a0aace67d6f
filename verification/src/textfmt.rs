//! Joining and wording helpers for user-facing text.

use crate::digits::{dec_seq, to_decimal};
use vstd::prelude::*;

verus! {

/// The shapes of a list of strings.
pub open spec fn strings_view(v: Seq<String>) -> Seq<Seq<char>> {
    v.map_values(|s: String| s@)
}

/// `parts` joined by `sep`.
pub open spec fn join_sep(parts: Seq<Seq<char>>, sep: Seq<char>) -> Seq<char>
    decreases parts.len(),
{
    if parts.len() == 0 {
        Seq::empty()
    } else if parts.len() == 1 {
        parts[0]
    } else {
        join_sep(parts.drop_last(), sep) + sep + parts.last()
    }
}

/// Join `parts` with `sep` between them.
pub fn join(parts: &Vec<String>, sep: &str) -> (r: String)
    ensures
        r@ == join_sep(strings_view(parts@), sep@),
{
    let ghost pv = strings_view(parts@);
    let len = parts.len();
    let mut out = String::new();
    let mut i: usize = 0;
    proof {
        assert(pv.take(0) =~= Seq::<Seq<char>>::empty());
    }
    while i < len
        invariant
            0 <= i <= len == parts@.len(),
            pv == strings_view(parts@),
            out@ == join_sep(pv.take(i as int), sep@),
        decreases len - i,
    {
        if i > 0 {
            out.append(sep);
        }
        out.append(parts[i].as_str());
        proof {
            assert(pv.take(i + 1).drop_last() =~= pv.take(i as int));
            assert(pv.take(i + 1).last() == pv[i as int]);
            assert(pv[i as int] == parts@[i as int]@);
            if i == 0 {
                assert(out@ =~= join_sep(pv.take(1), sep@));
            }
        }
        i = i + 1;
    }
    proof {
        assert(pv.take(len as int) =~= pv);
    }
    out
}

/// Whether `a` comes at or before `b` in lexicographic order by character
/// code. Since UTF-8 preserves code point order, this is the order `str`
/// comparison gives.
pub open spec fn lex_le(a: Seq<char>, b: Seq<char>) -> bool
    decreases a.len(),
{
    if a.len() == 0 {
        true
    } else if b.len() == 0 {
        false
    } else if (a[0] as int) < (b[0] as int) {
        true
    } else if (a[0] as int) > (b[0] as int) {
        false
    } else {
        lex_le(a.drop_first(), b.drop_first())
    }
}

/// Whether `v` ascends in lexicographic order.
pub open spec fn sorted_seqs(v: Seq<Seq<char>>) -> bool {
    forall|i: int, j: int| 0 <= i < j < v.len() ==> lex_le(#[trigger] v[i], #[trigger] v[j])
}

/// Whether no two entries of `v` are equal.
pub open spec fn distinct_seqs(v: Seq<Seq<char>>) -> bool {
    forall|i: int, j: int| 0 <= i < j < v.len() ==> #[trigger] v[i] != #[trigger] v[j]
}

/// The lexicographic order is total.
pub proof fn lemma_lex_total(a: Seq<char>, b: Seq<char>)
    ensures
        lex_le(a, b) || lex_le(b, a),
    decreases a.len(),
{
    if a.len() > 0 && b.len() > 0 && a[0] == b[0] {
        lemma_lex_total(a.drop_first(), b.drop_first());
    }
}

/// The lexicographic order is antisymmetric.
pub proof fn lemma_lex_antisym(a: Seq<char>, b: Seq<char>)
    requires
        lex_le(a, b),
        lex_le(b, a),
    ensures
        a == b,
    decreases a.len(),
{
    if a.len() > 0 && b.len() > 0 && a[0] == b[0] {
        lemma_lex_antisym(a.drop_first(), b.drop_first());
        assert(a =~= seq![a[0]] + a.drop_first());
        assert(b =~= seq![b[0]] + b.drop_first());
    } else {
        assert(a.len() == 0 && b.len() == 0);
        assert(a =~= b);
    }
}

/// The lexicographic order is transitive.
pub proof fn lemma_lex_trans(a: Seq<char>, b: Seq<char>, c: Seq<char>)
    requires
        lex_le(a, b),
        lex_le(b, c),
    ensures
        lex_le(a, c),
    decreases a.len(),
{
    if a.len() > 0 && b.len() > 0 && c.len() > 0 && a[0] == b[0] && b[0] == c[0] {
        lemma_lex_trans(a.drop_first(), b.drop_first(), c.drop_first());
    }
}

/// Whether `a` comes at or before `b`, as `lex_le` describes it.
pub fn str_lex_le(a: &str, b: &str) -> (r: bool)
    ensures
        r == lex_le(a@, b@),
{
    let ghost av = a@;
    let ghost bv = b@;
    let alen = a.unicode_len();
    let blen = b.unicode_len();
    let mut i: usize = 0;
    proof {
        assert(av.skip(0) =~= av);
        assert(bv.skip(0) =~= bv);
    }
    while i < alen && i < blen
        invariant
            0 <= i <= alen == av.len(),
            i <= blen == bv.len(),
            a@ == av,
            b@ == bv,
            lex_le(av, bv) == lex_le(av.skip(i as int), bv.skip(i as int)),
        decreases alen - i,
    {
        let ca = a.get_char(i);
        let cb = b.get_char(i);
        proof {
            assert(av.skip(i as int)[0] == av[i as int]);
            assert(bv.skip(i as int)[0] == bv[i as int]);
        }
        if (ca as u32) < (cb as u32) {
            return true;
        }
        if (ca as u32) > (cb as u32) {
            return false;
        }
        proof {
            assert(av.skip(i as int).drop_first() =~= av.skip(i + 1));
            assert(bv.skip(i as int).drop_first() =~= bv.skip(i + 1));
        }
        i = i + 1;
    }
    proof {
        if i >= alen {
            assert(av.skip(i as int).len() == 0);
        } else {
            assert(bv.skip(i as int).len() == 0);
            assert(av.skip(i as int).len() > 0);
        }
    }
    i >= alen
}

/// Sort distinct names ascending. The result is the unique sorted
/// arrangement: ordered, still free of duplicates, and holding exactly the
/// names that came in.
pub fn sort_names(v: Vec<String>) -> (r: Vec<String>)
    requires
        distinct_seqs(strings_view(v@)),
    ensures
        sorted_seqs(strings_view(r@)),
        distinct_seqs(strings_view(r@)),
        forall|x: Seq<char>|
            #[trigger] strings_view(r@).contains(x) == strings_view(v@).contains(x),
{
    let len = v.len();
    let mut out: Vec<String> = Vec::new();
    let mut k: usize = 0;
    while k < len
        invariant
            0 <= k <= len == v@.len(),
            distinct_seqs(strings_view(v@)),
            sorted_seqs(strings_view(out@)),
            distinct_seqs(strings_view(out@)),
            forall|x: Seq<char>|
                #[trigger] strings_view(out@).contains(x) == strings_view(v@.take(k as int)).contains(
                    x,
                ),
        decreases len - k,
    {
        let x = v[k].clone();
        let olen = out.len();
        let mut pos: usize = 0;
        while pos < olen && !str_lex_le(x.as_str(), out[pos].as_str())
            invariant
                0 <= pos <= olen == out@.len(),
                x@ == v@[k as int]@,
                forall|m: int| 0 <= m < pos ==> !lex_le(x@, (#[trigger] out@[m])@),
            decreases olen - pos,
        {
            pos = pos + 1;
        }
        let ghost prevout = out@;
        out.insert(pos, x);
        proof {
            assert(!strings_view(prevout).contains(v@[k as int]@)) by {
                if strings_view(prevout).contains(v@[k as int]@) {
                    let j = choose|j: int|
                        0 <= j < strings_view(v@.take(k as int)).len() && (#[trigger] strings_view(
                            v@.take(k as int),
                        )[j]) == v@[k as int]@;
                    assert(strings_view(v@)[j] == v@[k as int]@);
                    assert(strings_view(v@)[k as int] == v@[k as int]@);
                }
            }
            lemma_sorted_insert(prevout, v@[k as int], pos as int, out@);
            assert(strings_view(v@.take(k + 1)).drop_last() =~= strings_view(v@.take(k as int)));
            assert(strings_view(v@.take(k + 1)).last() == v@[k as int]@);
            assert forall|x2: Seq<char>| #[trigger]
                strings_view(out@).contains(x2) == strings_view(v@.take(k + 1)).contains(x2) by {
                lemma_insert_contains(prevout, v@[k as int], pos as int, out@, x2);
                if strings_view(v@.take(k + 1)).contains(x2) {
                    let j = choose|j: int|
                        0 <= j < strings_view(v@.take(k + 1)).len() && (#[trigger] strings_view(
                            v@.take(k + 1),
                        )[j]) == x2;
                    if j < k {
                        assert(strings_view(v@.take(k as int))[j] == x2);
                    }
                }
                if strings_view(v@.take(k as int)).contains(x2) {
                    let j = choose|j: int|
                        0 <= j < strings_view(v@.take(k as int)).len() && (#[trigger] strings_view(
                            v@.take(k as int),
                        )[j]) == x2;
                    assert(strings_view(v@.take(k + 1))[j] == x2);
                }
                if x2 == v@[k as int]@ {
                    assert(strings_view(v@.take(k + 1))[k as int] == x2);
                }
            }
        }
        k = k + 1;
    }
    proof {
        assert(v@.take(len as int) =~= v@);
    }
    out
}

/// Inserting `x` at the found position keeps the list sorted, distinct and
/// made of the old names plus `x`.
proof fn lemma_sorted_insert(prev: Seq<String>, x: String, pos: int, cur: Seq<String>)
    requires
        sorted_seqs(strings_view(prev)),
        distinct_seqs(strings_view(prev)),
        !strings_view(prev).contains(x@),
        0 <= pos <= prev.len(),
        forall|m: int| 0 <= m < pos ==> !lex_le(x@, (#[trigger] prev[m])@),
        pos < prev.len() ==> lex_le(x@, prev[pos]@),
        cur == prev.insert(pos, x),
    ensures
        sorted_seqs(strings_view(cur)),
        distinct_seqs(strings_view(cur)),
{
    let pv = strings_view(prev);
    let cv = strings_view(cur);
    prev.insert_ensures(pos, x);
    assert(cv.len() == pv.len() + 1);
    assert forall|i: int, j: int| 0 <= i < j < cv.len() implies lex_le(
        #[trigger] cv[i],
        #[trigger] cv[j],
    ) && cv[i] != cv[j] by {
        let i0 = if i < pos {
            i
        } else {
            i - 1
        };
        let j0 = if j < pos {
            j
        } else {
            j - 1
        };
        if i != pos {
            assert(cur[i] == prev[i0]);
        }
        if j != pos {
            assert(cur[j] == prev[j0]);
        }
        if i == pos {
            assert(cv[i] == x@);
            if j0 > pos {
                lemma_lex_trans(x@, pv[pos], pv[j0]);
            }
            assert(lex_le(x@, pv[j0]));
            if pv[j0] == x@ {
                assert(strings_view(prev).contains(x@));
            }
            assert(pv[j0] != x@);
        } else if j == pos {
            assert(cv[j] == x@);
            assert(!lex_le(x@, pv[i0]));
            lemma_lex_total(x@, pv[i0]);
            if pv[i0] == x@ {
                assert(strings_view(prev).contains(x@));
            }
            assert(pv[i0] != x@);
        } else if i0 < j0 {
            assert(lex_le(pv[i0], pv[j0]) && pv[i0] != pv[j0]);
        } else {
            assert(i < pos && j > pos && i0 == j0);
            assert(!lex_le(x@, pv[i0]));
            assert(lex_le(x@, pv[j0]));
            assert(false);
        }
    }
}

/// What the inserted list holds: the old names and `x`, nothing else.
proof fn lemma_insert_contains(prev: Seq<String>, x: String, pos: int, cur: Seq<String>, y: Seq<char>)
    requires
        0 <= pos <= prev.len(),
        cur == prev.insert(pos, x),
    ensures
        strings_view(cur).contains(y) == (strings_view(prev).contains(y) || y == x@),
{
    let pv = strings_view(prev);
    let cv = strings_view(cur);
    prev.insert_ensures(pos, x);
    if cv.contains(y) {
        let i = choose|i: int| 0 <= i < cv.len() && (#[trigger] cv[i]) == y;
        if i == pos {
            assert(cur[i] == x);
        } else {
            let i0 = if i < pos {
                i
            } else {
                i - 1
            };
            assert(cur[i] == prev[i0]);
            assert(pv[i0] == y);
        }
    }
    if pv.contains(y) {
        let i = choose|i: int| 0 <= i < pv.len() && (#[trigger] pv[i]) == y;
        let i1 = if i < pos {
            i
        } else {
            i + 1
        };
        assert(cur[i1] == prev[i]);
        assert(cv[i1] == y);
    }
    if y == x@ {
        assert(cur[pos] == x);
        assert(cv[pos] == y);
    }
}

/// The English wording of `n`: a word for one through nine, digits
/// otherwise.
pub open spec fn english_of(n: nat) -> Seq<char> {
    if n == 1 {
        "one"@
    } else if n == 2 {
        "two"@
    } else if n == 3 {
        "three"@
    } else if n == 4 {
        "four"@
    } else if n == 5 {
        "five"@
    } else if n == 6 {
        "six"@
    } else if n == 7 {
        "seven"@
    } else if n == 8 {
        "eight"@
    } else if n == 9 {
        "nine"@
    } else {
        dec_seq(n)
    }
}

/// Word `n` according to English conventions.
pub fn english_num(n: u64) -> (r: String)
    ensures
        r@ == english_of(n as nat),
{
    if 1 <= n && n <= 9 {
        let w: &str = if n == 1 {
            "one"
        } else if n == 2 {
            "two"
        } else if n == 3 {
            "three"
        } else if n == 4 {
            "four"
        } else if n == 5 {
            "five"
        } else if n == 6 {
            "six"
        } else if n == 7 {
            "seven"
        } else if n == 8 {
            "eight"
        } else {
            "nine"
        };
        String::from_str(w)
    } else {
        to_decimal(n)
    }
}

/// The middle artists, each preceded by a comma and a space.
pub open spec fn mid_join(names: Seq<Seq<char>>, i: int) -> Seq<char>
    decreases names.len() - i
        when 0 <= i <= names.len()
{
    if i >= names.len() {
        Seq::empty()
    } else {
        ", "@ + names[i] + mid_join(names, i + 1)
    }
}

/// A human-readable listing of artists, with an Oxford comma: the first,
/// then each middle one after a comma, then ", and " before the last.
/// `None` when there are no artists at all.
pub open spec fn human_of(names: Seq<Seq<char>>) -> Option<Seq<char>> {
    if names.len() == 0 {
        None
    } else if names.len() == 1 {
        Some(names[0])
    } else {
        Some(names[0] + mid_join(names.drop_last().drop_first(), 0) + ", and "@ + names.last())
    }
}

/// Render artists in a human-readable form, Oxford comma included.
pub fn human_artists(artists: &Vec<String>) -> (r: Option<String>)
    ensures
        match r {
            Some(t) => human_of(strings_view(artists@)) == Some(t@),
            None => artists@.len() == 0,
        },
{
    let ghost names = strings_view(artists@);
    let len = artists.len();
    if len == 0 {
        return None;
    }
    let mut out = String::new();
    out.append(artists[0].as_str());
    if len == 1 {
        return Some(out);
    }
    let ghost mids = names.drop_last().drop_first();
    let mut i: usize = 1;
    proof {
        assert(mid_join(mids, mids.len() as int) =~= Seq::<char>::empty());
        assert(out@ + mid_join(mids, 0) + (", and "@ + names.last()) =~= names[0] + mid_join(
            mids,
            0,
        ) + ", and "@ + names.last());
    }
    while i < len - 1
        invariant
            1 <= i <= len - 1,
            len == artists@.len() >= 2,
            names == strings_view(artists@),
            mids == names.drop_last().drop_first(),
            out@ + mid_join(mids, i - 1) + (", and "@ + names.last()) == names[0] + mid_join(
                mids,
                0,
            ) + ", and "@ + names.last(),
        decreases len - i,
    {
        let ghost prevout = out@;
        out.append(", ");
        out.append(artists[i].as_str());
        proof {
            assert(mids[i - 1] == names[i as int]);
            assert(names[i as int] == artists@[i as int]@);
            assert(out@ =~= prevout + ", "@ + names[i as int]);
            assert(out@ + mid_join(mids, i as int) + (", and "@ + names.last()) =~= prevout
                + mid_join(mids, i - 1) + (", and "@ + names.last()));
        }
        i = i + 1;
    }
    out.append(", and ");
    out.append(artists[len - 1].as_str());
    proof {
        assert(mid_join(mids, mids.len() as int) =~= Seq::<char>::empty());
        assert(names.last() == artists@[len - 1]@);
        assert(out@ =~= names[0] + mid_join(mids, 0) + ", and "@ + names.last());
    }
    Some(out)
}

} // verus!
