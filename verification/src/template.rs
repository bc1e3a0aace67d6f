//! The template boundary: compiling `{{name}}` placeholders out of free
//! text, listing the variables a template references, and rendering it
//! against a set of bindings.

use crate::textfmt::strings_view;
use crate::words::str_eq;
use vstd::prelude::*;

verus! {

/// Why a template failed to compile.
#[derive(Clone, Copy, Debug, PartialEq, Eq, Structural)]
pub enum CompileError {
    /// A `{{` was never closed by `}}`.
    Unclosed,
}

/// A rendering failure: the template referenced a variable the bindings do
/// not supply.
#[derive(Debug, Clone)]
pub struct RenderError {
    /// The variable that was missing.
    pub var: String,
}

/// One compiled piece of a template.
#[derive(Debug, Clone)]
pub enum Segment {
    /// Literal text, emitted as it stands.
    Lit(String),
    /// A variable reference, replaced by its binding.
    Var(String),
}

/// The mathematical shape of one compiled piece.
pub enum SegView {
    /// Literal text.
    Lit(Seq<char>),
    /// A variable reference.
    Var(Seq<char>),
}

/// The shape of a segment.
pub open spec fn seg_view(s: Segment) -> SegView {
    match s {
        Segment::Lit(l) => SegView::Lit(l@),
        Segment::Var(v) => SegView::Var(v@),
    }
}

/// The shape of a segment list.
pub open spec fn segs_view(v: Seq<Segment>) -> Seq<SegView> {
    v.map_values(|s: Segment| seg_view(s))
}

/// Whether `{{` opens at position `p`.
pub open spec fn has_open_at(s: Seq<char>, p: int) -> bool {
    p + 2 <= s.len() && s[p] == '{' && s[p + 1] == '{'
}

/// Whether `}}` closes at position `p`.
pub open spec fn has_close_at(s: Seq<char>, p: int) -> bool {
    p + 2 <= s.len() && s[p] == '}' && s[p + 1] == '}'
}

/// The first position at or after `i` where `{{` opens, or the length of
/// `s` when there is none.
pub open spec fn find_open(s: Seq<char>, i: int) -> int
    decreases s.len() - i
        when 0 <= i <= s.len()
{
    if i + 2 > s.len() {
        s.len() as int
    } else if has_open_at(s, i) {
        i
    } else {
        find_open(s, i + 1)
    }
}

/// The first position at or after `i` where `}}` closes, or the length of
/// `s` when there is none.
pub open spec fn find_close(s: Seq<char>, i: int) -> int
    decreases s.len() - i
        when 0 <= i <= s.len()
{
    if i + 2 > s.len() {
        s.len() as int
    } else if has_close_at(s, i) {
        i
    } else {
        find_close(s, i + 1)
    }
}

/// `find_open` stays within bounds and lands on an opening brace pair when
/// it finds one.
pub proof fn lemma_find_open(s: Seq<char>, i: int)
    requires
        0 <= i <= s.len(),
    ensures
        i <= find_open(s, i) <= s.len(),
        find_open(s, i) < s.len() ==> has_open_at(s, find_open(s, i)),
    decreases s.len() - i,
{
    if i + 2 <= s.len() && !has_open_at(s, i) {
        lemma_find_open(s, i + 1);
    }
}

/// `find_close` stays within bounds and lands on a closing brace pair when
/// it finds one.
pub proof fn lemma_find_close(s: Seq<char>, i: int)
    requires
        0 <= i <= s.len(),
    ensures
        i <= find_close(s, i) <= s.len(),
        find_close(s, i) < s.len() ==> has_close_at(s, find_close(s, i)),
    decreases s.len() - i,
{
    if i + 2 <= s.len() && !has_close_at(s, i) {
        lemma_find_close(s, i + 1);
    }
}

/// The compiled shape of the text `s`: literal runs up to each `{{`, and a
/// variable name between each `{{` and the first `}}` after it. `None`
/// exactly when some `{{` is never closed.
pub open spec fn tpl_parse(s: Seq<char>) -> Option<Seq<SegView>>
    decreases s.len(),
{
    if s.len() == 0 {
        Some(Seq::empty())
    } else if has_open_at(s, 0) {
        let close = find_close(s, 2);
        if close == s.len() {
            None
        } else {
            let name = s.subrange(2, close);
            proof {
                lemma_find_close(s, 2);
            }
            match tpl_parse(s.skip(close + 2)) {
                None => None,
                Some(t) => Some(seq![SegView::Var(name)] + t),
            }
        }
    } else {
        let end = find_open(s, 1);
        proof {
            lemma_find_open(s, 1);
        }
        match tpl_parse(s.skip(end)) {
            None => None,
            Some(t) => Some(seq![SegView::Lit(s.take(end))] + t),
        }
    }
}

/// The variables a segment list references, in order of appearance.
pub open spec fn seg_vars(segs: Seq<SegView>) -> Seq<Seq<char>>
    decreases segs.len(),
{
    if segs.len() == 0 {
        Seq::empty()
    } else {
        match segs[0] {
            SegView::Lit(_) => seg_vars(segs.drop_first()),
            SegView::Var(v) => seq![v] + seg_vars(segs.drop_first()),
        }
    }
}

/// The bindings of a key/value list as a map; an earlier entry wins over a
/// later one of the same key.
pub open spec fn pairs_map(s: Seq<(String, String)>) -> Map<Seq<char>, Seq<char>>
    decreases s.len(),
{
    if s.len() == 0 {
        Map::empty()
    } else {
        pairs_map(s.drop_first()).insert(s[0].0@, s[0].1@)
    }
}

/// The text a segment list renders to under the bindings `m`, or the first
/// missing variable.
pub open spec fn rend(segs: Seq<SegView>, m: Map<Seq<char>, Seq<char>>) -> Result<
    Seq<char>,
    Seq<char>,
>
    decreases segs.len(),
{
    if segs.len() == 0 {
        Ok(Seq::empty())
    } else {
        let rest = rend(segs.drop_first(), m);
        match segs[0] {
            SegView::Lit(l) => match rest {
                Ok(t) => Ok(l + t),
                Err(v) => Err(v),
            },
            SegView::Var(v) => if m.contains_key(v) {
                match rest {
                    Ok(t) => Ok(m[v] + t),
                    Err(e) => Err(e),
                }
            } else {
                Err(v)
            },
        }
    }
}

/// Entries that do not hold `key` do not decide its binding.
proof fn lemma_pairs_map_skip(s: Seq<(String, String)>, i: int, key: Seq<char>)
    requires
        0 <= i <= s.len(),
        forall|j: int| 0 <= j < i ==> (#[trigger] s[j]).0@ != key,
    ensures
        pairs_map(s).contains_key(key) == pairs_map(s.skip(i)).contains_key(key),
        pairs_map(s).contains_key(key) ==> pairs_map(s)[key] == pairs_map(s.skip(i))[key],
    decreases i,
{
    if i > 0 {
        assert(s.skip(0) =~= s);
        assert(s[0].0@ != key);
        lemma_pairs_map_skip(s.drop_first(), i - 1, key);
        assert(s.drop_first().skip(i - 1) =~= s.skip(i));
    } else {
        assert(s.skip(0) =~= s);
    }
}

/// Look `key` up in the bindings; the first entry of that key wins.
fn lookup<'a>(ctx: &'a Vec<(String, String)>, key: &str) -> (r: Option<&'a String>)
    ensures
        match r {
            Some(v) => pairs_map(ctx@).contains_key(key@) && v@ == pairs_map(ctx@)[key@],
            None => !pairs_map(ctx@).contains_key(key@),
        },
{
    let ghost cv = ctx@;
    let len = ctx.len();
    let mut i: usize = 0;
    while i < len
        invariant
            0 <= i <= len == cv.len(),
            ctx@ == cv,
            forall|j: int| 0 <= j < i ==> (#[trigger] cv[j]).0@ != key@,
        decreases len - i,
    {
        if str_eq(ctx[i].0.as_str(), key) {
            proof {
                lemma_pairs_map_skip(cv, i as int, key@);
                let rest = cv.skip(i as int);
                assert(rest[0] == cv[i as int]);
                assert(rest.drop_first() =~= cv.skip(i + 1));
            }
            return Some(&ctx[i].1);
        }
        i = i + 1;
    }
    proof {
        lemma_pairs_map_skip(cv, len as int, key@);
        assert(cv.skip(len as int) =~= Seq::<(String, String)>::empty());
    }
    None
}

/// Whether `{{` opens at position `p`.
fn has_open(s: &str, p: usize) -> (r: bool)
    requires
        p + 2 <= s@.len(),
        s@.len() <= usize::MAX,
    ensures
        r == has_open_at(s@, p as int),
{
    s.get_char(p) == '{' && s.get_char(p + 1) == '{'
}

/// Whether `}}` closes at position `p`.
fn has_close(s: &str, p: usize) -> (r: bool)
    requires
        p + 2 <= s@.len(),
        s@.len() <= usize::MAX,
    ensures
        r == has_close_at(s@, p as int),
{
    s.get_char(p) == '}' && s.get_char(p + 1) == '}'
}

/// A compiled template: the source text and its segments.
#[derive(Debug, Clone)]
pub struct Template {
    /// The text the template was compiled from.
    pub source: String,
    /// The compiled segments; always the parse of `source`.
    pub segments: Vec<Segment>,
}

impl Template {
    /// The segments are exactly what the source compiles to.
    pub open spec fn wf(&self) -> bool {
        tpl_parse(self.source@) == Some(segs_view(self.segments@))
    }

    /// The shape of this template's segments.
    pub open spec fn segs(&self) -> Seq<SegView> {
        segs_view(self.segments@)
    }

    /// Compile `source`. Fails exactly when a `{{` is never closed.
    pub fn compile(source: &str) -> (r: Result<Template, CompileError>)
        ensures
            match r {
                Ok(t) => t.wf() && t.source@ == source@ && tpl_parse(source@) is Some,
                Err(_) => tpl_parse(source@) is None,
            },
    {
        let ghost sv = source@;
        let len = source.unicode_len();
        let mut segments: Vec<Segment> = Vec::new();
        let mut i: usize = 0;
        proof {
            assert(sv.skip(0) =~= sv);
            assert(segs_view(segments@) =~= Seq::<SegView>::empty());
        }
        while i < len
            invariant
                0 <= i <= len == sv.len(),
                source@ == sv,
                match tpl_parse(sv.skip(i as int)) {
                    Some(t) => tpl_parse(sv) == Some(segs_view(segments@) + t),
                    None => tpl_parse(sv) is None,
                },
            decreases len - i,
        {
            let ghost m = sv.skip(i as int);
            assert(m[0] == sv[i as int]);
            if len - i >= 2 && has_open(source, i) {
                let mut j: usize = i + 2;
                while len - j >= 2 && !has_close(source, j)
                    invariant
                        i + 2 <= j <= len == sv.len(),
                        source@ == sv,
                        m == sv.skip(i as int),
                        find_close(m, 2) == find_close(m, j - i),
                    decreases len - j,
                {
                    proof {
                        assert(m[j - i] == sv[j as int]);
                        assert(m[j - i + 1] == sv[j + 1]);
                    }
                    j = j + 1;
                }
                if len - j < 2 {
                    proof {
                        assert(find_close(m, j - i) == m.len());
                        assert(tpl_parse(m) is None);
                    }
                    return Err(CompileError::Unclosed);
                }
                proof {
                    assert(m[j - i] == sv[j as int]);
                    assert(m[j - i + 1] == sv[j + 1]);
                    assert(find_close(m, 2) == j - i);
                }
                let name = String::from_str(source.substring_char(i + 2, j));
                let ghost prev = segments@;
                segments.push(Segment::Var(name));
                proof {
                    assert(name@ =~= m.subrange(2, j - i));
                    assert(m.skip(j - i + 2) =~= sv.skip(j + 2));
                    assert(segs_view(segments@) =~= segs_view(prev).push(
                        SegView::Var(m.subrange(2, j - i)),
                    ));
                    if tpl_parse(sv.skip(j + 2)) is Some {
                        let t = tpl_parse(sv.skip(j + 2))->Some_0;
                        assert(segs_view(prev) + (seq![SegView::Var(m.subrange(2, j - i))] + t)
                            =~= segs_view(segments@) + t);
                    }
                }
                i = j + 2;
            } else {
                let mut j: usize = i + 1;
                while len - j >= 2 && !has_open(source, j)
                    invariant
                        i + 1 <= j <= len == sv.len(),
                        source@ == sv,
                        m == sv.skip(i as int),
                        find_open(m, 1) == find_open(m, j - i),
                    decreases len - j,
                {
                    proof {
                        assert(m[j - i] == sv[j as int]);
                        assert(m[j - i + 1] == sv[j + 1]);
                    }
                    j = j + 1;
                }
                let end: usize = if len - j < 2 {
                    proof {
                        assert(find_open(m, j - i) == m.len());
                    }
                    len
                } else {
                    proof {
                        assert(m[j - i] == sv[j as int]);
                        assert(m[j - i + 1] == sv[j + 1]);
                        assert(find_open(m, j - i) == j - i);
                    }
                    j
                };
                proof {
                    assert(!has_open_at(m, 0));
                    assert(find_open(m, 1) == end - i);
                }
                let lit = String::from_str(source.substring_char(i, end));
                let ghost prev = segments@;
                segments.push(Segment::Lit(lit));
                proof {
                    assert(lit@ =~= m.take(end - i));
                    assert(m.skip(end - i) =~= sv.skip(end as int));
                    assert(segs_view(segments@) =~= segs_view(prev).push(
                        SegView::Lit(m.take(end - i)),
                    ));
                    if tpl_parse(sv.skip(end as int)) is Some {
                        let t = tpl_parse(sv.skip(end as int))->Some_0;
                        assert(segs_view(prev) + (seq![SegView::Lit(m.take(end - i))] + t)
                            =~= segs_view(segments@) + t);
                    }
                }
                i = end;
            }
        }
        proof {
            assert(sv.skip(len as int) =~= Seq::<char>::empty());
            assert(segs_view(segments@) + Seq::<SegView>::empty() =~= segs_view(segments@));
        }
        Ok(Template { source: String::from_str(source), segments })
    }

    /// The source text.
    pub fn source(&self) -> (r: &str)
        ensures
            r@ == self.source@,
    {
        self.source.as_str()
    }

    /// The variables this template references, in order of appearance.
    pub fn vars(&self) -> (r: Vec<String>)
        ensures
            strings_view(r@) == seg_vars(self.segs()),
    {
        let ghost segsv = segs_view(self.segments@);
        let len = self.segments.len();
        let mut out: Vec<String> = Vec::new();
        let mut k: usize = 0;
        proof {
            assert(segsv.skip(0) =~= segsv);
            assert(strings_view(out@) + seg_vars(segsv.skip(0)) =~= seg_vars(segsv));
        }
        while k < len
            invariant
                0 <= k <= len == self.segments@.len(),
                segsv == segs_view(self.segments@),
                seg_vars(segsv) == strings_view(out@) + seg_vars(segsv.skip(k as int)),
            decreases len - k,
        {
            let ghost before = segsv.skip(k as int);
            proof {
                assert(before[0] == segsv[k as int]);
                assert(before.drop_first() =~= segsv.skip(k + 1));
            }
            match &self.segments[k] {
                Segment::Var(v) => {
                    let ghost prevout = out@;
                    out.push(v.clone());
                    proof {
                        assert(strings_view(out@) =~= strings_view(prevout).push(v@));
                        assert(strings_view(out@) + seg_vars(segsv.skip(k + 1)) =~= seg_vars(
                            segsv,
                        ));
                    }
                },
                Segment::Lit(_) => {
                    proof {
                        assert(strings_view(out@) + seg_vars(segsv.skip(k + 1)) =~= seg_vars(
                            segsv,
                        ));
                    }
                },
            }
            k = k + 1;
        }
        proof {
            assert(segsv.skip(len as int) =~= Seq::<SegView>::empty());
            assert(strings_view(out@) =~= seg_vars(segsv));
        }
        out
    }

    /// Whether this template references the variable `var`.
    pub fn has_var(&self, var: &str) -> (r: bool)
        ensures
            r == seg_vars(self.segs()).contains(var@),
    {
        let names = self.vars();
        let len = names.len();
        let mut k: usize = 0;
        while k < len
            invariant
                0 <= k <= len == names@.len(),
                strings_view(names@) == seg_vars(self.segs()),
                forall|j: int| 0 <= j < k ==> (#[trigger] names@[j])@ != var@,
            decreases len - k,
        {
            if str_eq(names[k].as_str(), var) {
                proof {
                    assert(strings_view(names@)[k as int] == var@);
                }
                return true;
            }
            k = k + 1;
        }
        proof {
            assert forall|j: int| 0 <= j < strings_view(names@).len() implies strings_view(
                names@,
            )[j] != var@ by {
                assert(strings_view(names@)[j] == names@[j]@);
            }
        }
        false
    }

    /// Render this template against the bindings `ctx`; an earlier binding
    /// wins over a later one of the same name. Fails exactly on the first
    /// variable the bindings miss.
    pub fn render(&self, ctx: &Vec<(String, String)>) -> (r: Result<String, RenderError>)
        ensures
            match rend(self.segs(), pairs_map(ctx@)) {
                Ok(t) => r matches Ok(out) && out@ == t,
                Err(v) => r matches Err(e) && e.var@ == v,
            },
    {
        let ghost segsv = segs_view(self.segments@);
        let ghost m = pairs_map(ctx@);
        let len = self.segments.len();
        let mut out = String::new();
        let mut k: usize = 0;
        proof {
            assert(segsv.skip(0) =~= segsv);
            if rend(segsv, m) is Ok {
                assert(out@ + rend(segsv, m)->Ok_0 =~= rend(segsv, m)->Ok_0);
            }
        }
        while k < len
            invariant
                0 <= k <= len == self.segments@.len(),
                segsv == segs_view(self.segments@),
                m == pairs_map(ctx@),
                match rend(segsv.skip(k as int), m) {
                    Ok(t) => rend(segsv, m) == Ok::<Seq<char>, Seq<char>>(out@ + t),
                    Err(v) => rend(segsv, m) == Err::<Seq<char>, Seq<char>>(v),
                },
            decreases len - k,
        {
            let ghost before = segsv.skip(k as int);
            proof {
                assert(before[0] == segsv[k as int]);
                assert(before.drop_first() =~= segsv.skip(k + 1));
            }
            match &self.segments[k] {
                Segment::Lit(l) => {
                    out.append(l.as_str());
                    proof {
                        if rend(segsv.skip(k + 1), m) is Ok {
                            assert(out@ + rend(segsv.skip(k + 1), m)->Ok_0 =~= rend(
                                segsv,
                                m,
                            )->Ok_0);
                        }
                    }
                },
                Segment::Var(v) => {
                    match lookup(ctx, v.as_str()) {
                        Some(value) => {
                            out.append(value.as_str());
                            proof {
                                if rend(segsv.skip(k + 1), m) is Ok {
                                    assert(out@ + rend(segsv.skip(k + 1), m)->Ok_0 =~= rend(
                                        segsv,
                                        m,
                                    )->Ok_0);
                                }
                            }
                        },
                        None => {
                            return Err(RenderError { var: v.clone() });
                        },
                    }
                },
            }
            k = k + 1;
        }
        proof {
            assert(segsv.skip(len as int) =~= Seq::<SegView>::empty());
            assert(out@ + Seq::<char>::empty() =~= out@);
        }
        Ok(out)
    }
}

} // verus!
