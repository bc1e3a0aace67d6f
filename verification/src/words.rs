//! Splitting chat input into words: whitespace-separated tokens that honor
//! double-quoted substrings, and runs of purely alphanumeric characters.

use vstd::prelude::*;

verus! {

/// Whether `c` is whitespace the word splitter skips.
pub open spec fn is_space(c: char) -> bool {
    c == ' ' || c == '\t' || c == '\r' || c == '\n'
}

/// Whether `c` is an ASCII letter or digit.
pub open spec fn is_word_char(c: char) -> bool {
    (97 <= c as int <= 122) || (65 <= c as int <= 90) || (48 <= c as int <= 57)
}

/// The first position at or after `i` holding whitespace, or the length of
/// `s` when there is none.
pub open spec fn find_space(s: Seq<char>, i: int) -> int
    decreases s.len() - i
        when 0 <= i <= s.len()
{
    if i >= s.len() {
        s.len() as int
    } else if is_space(s[i]) {
        i
    } else {
        find_space(s, i + 1)
    }
}

/// The first position at or after `i` holding a double quote, or the length
/// of `s` when there is none.
pub open spec fn find_quote(s: Seq<char>, i: int) -> int
    decreases s.len() - i
        when 0 <= i <= s.len()
{
    if i >= s.len() {
        s.len() as int
    } else if s[i] == '"' {
        i
    } else {
        find_quote(s, i + 1)
    }
}

/// The first position at or after `i` holding an alphanumeric character, or
/// the length of `s` when there is none.
pub open spec fn find_word(s: Seq<char>, i: int) -> int
    decreases s.len() - i
        when 0 <= i <= s.len()
{
    if i >= s.len() {
        s.len() as int
    } else if is_word_char(s[i]) {
        i
    } else {
        find_word(s, i + 1)
    }
}

/// The first position at or after `i` holding a non-alphanumeric character,
/// or the length of `s` when there is none.
pub open spec fn find_nonword(s: Seq<char>, i: int) -> int
    decreases s.len() - i
        when 0 <= i <= s.len()
{
    if i >= s.len() {
        s.len() as int
    } else if !is_word_char(s[i]) {
        i
    } else {
        find_nonword(s, i + 1)
    }
}

/// The next word of `s` and what follows it.
///
/// Leading whitespace is skipped. A word opened by a double quote runs to the
/// closing quote (or to the end of the input) and may hold whitespace; the
/// quotes themselves are not part of the word. Any other word runs to the
/// next whitespace, which is left in the remainder. `None` means `s` holds
/// no word at all.
pub open spec fn word_split(s: Seq<char>) -> Option<(Seq<char>, Seq<char>)>
    decreases s.len(),
{
    if s.len() == 0 {
        None
    } else if is_space(s[0]) {
        word_split(s.drop_first())
    } else if s[0] == '"' {
        let rest = s.drop_first();
        let close = find_quote(rest, 0);
        let after = if close < rest.len() {
            rest.skip(close + 1)
        } else {
            rest.skip(close)
        };
        Some((rest.take(close), after))
    } else {
        let end = find_space(s, 0);
        Some((s.take(end), s.skip(end)))
    }
}

/// Skipping a prefix of whitespace does not change the next word.
proof fn lemma_word_split_spaces(s: Seq<char>, i: int)
    requires
        0 <= i <= s.len(),
        forall|j: int| 0 <= j < i ==> is_space(#[trigger] s[j]),
    ensures
        word_split(s) == word_split(s.skip(i)),
    decreases i,
{
    if i > 0 {
        assert(s.skip(0) =~= s);
        assert(s.drop_first() =~= s.skip(1));
        lemma_word_split_spaces(s.skip(1), i - 1);
        assert(s.skip(1).skip(i - 1) =~= s.skip(i));
    } else {
        assert(s.skip(0) =~= s);
    }
}

/// Whether `c` is whitespace.
fn space_char(c: char) -> (r: bool)
    ensures
        r == is_space(c),
{
    c == ' ' || c == '\t' || c == '\r' || c == '\n'
}

/// Whether `c` is an ASCII letter or digit, as the trimming splitter counts
/// them.
pub fn is_not_alphanum(c: char) -> (r: bool)
    ensures
        r == !is_word_char(c),
{
    let v: u32 = c as u32;
    !((97 <= v && v <= 122) || (65 <= v && v <= 90) || (48 <= v && v <= 57))
}

/// A splitter over the words of a chat line, quoted substrings kept whole.
#[derive(Clone, Debug)]
pub struct Words<'a> {
    string: &'a str,
}

impl<'a> View for Words<'a> {
    type V = Seq<char>;

    closed spec fn view(&self) -> Seq<char> {
        self.string@
    }
}

impl<'a> Words<'a> {
    /// Split the given input.
    pub fn new(string: &'a str) -> (r: Words<'a>)
        ensures
            r@ == string@,
    {
        Words { string }
    }

    /// The input not yet consumed.
    pub fn rest(&self) -> (r: &'a str)
        ensures
            r@ == self@,
    {
        self.string
    }

    /// Take the next word, as `word_split` describes it.
    pub fn next(&mut self) -> (r: Option<&'a str>)
        ensures
            match word_split(old(self)@) {
                None => r is None && final(self)@.len() == 0,
                Some(tr) => r matches Some(t) && t@ == tr.0 && final(self)@ == tr.1,
            },
    {
        let s = self.string;
        let ghost sv = s@;
        let len = s.unicode_len();
        let mut i: usize = 0;
        while i < len && space_char(s.get_char(i))
            invariant
                0 <= i <= len == sv.len(),
                s@ == sv,
                forall|j: int| 0 <= j < i ==> is_space(#[trigger] sv[j]),
            decreases len - i,
        {
            i = i + 1;
        }
        proof {
            lemma_word_split_spaces(sv, i as int);
        }
        if i == len {
            proof {
                assert(sv.skip(len as int) =~= Seq::<char>::empty());
            }
            self.string = s.substring_char(len, len);
            return None;
        }
        let ghost m = sv.skip(i as int);
        assert(m[0] == sv[i as int]);
        if s.get_char(i) == '"' {
            let mut j: usize = i + 1;
            let ghost rest = sv.skip(i + 1);
            assert(m.drop_first() =~= rest);
            while j < len && s.get_char(j) != '"'
                invariant
                    i + 1 <= j <= len == sv.len(),
                    s@ == sv,
                    rest == sv.skip(i + 1),
                    find_quote(rest, 0) == find_quote(rest, j - i - 1),
                decreases len - j,
            {
                proof {
                    assert(rest[j - i - 1] == sv[j as int]);
                }
                j = j + 1;
            }
            proof {
                if j < len {
                    assert(rest[j - i - 1] == sv[j as int]);
                }
                assert(find_quote(rest, 0) == j - i - 1);
            }
            let tok = s.substring_char(i + 1, j);
            let after_start: usize = if j < len {
                j + 1
            } else {
                j
            };
            self.string = s.substring_char(after_start, len);
            proof {
                assert(tok@ =~= rest.take(j - i - 1));
                if j < len {
                    assert(self.string@ =~= rest.skip(j - i));
                } else {
                    assert(self.string@ =~= rest.skip(j - i - 1));
                }
            }
            Some(tok)
        } else {
            let mut j: usize = i;
            while j < len && !space_char(s.get_char(j))
                invariant
                    i <= j <= len == sv.len(),
                    s@ == sv,
                    m == sv.skip(i as int),
                    find_space(m, 0) == find_space(m, j - i),
                decreases len - j,
            {
                proof {
                    assert(m[j - i] == sv[j as int]);
                }
                j = j + 1;
            }
            proof {
                if j < len {
                    assert(m[j - i] == sv[j as int]);
                }
                assert(find_space(m, 0) == j - i);
            }
            let tok = s.substring_char(i, j);
            self.string = s.substring_char(j, len);
            proof {
                assert(tok@ =~= m.take(j - i));
                assert(self.string@ =~= m.skip(j - i));
            }
            Some(tok)
        }
    }
}

/// A splitter over the purely alphanumeric runs of a line; everything else
/// separates words and is dropped.
#[derive(Debug)]
pub struct TrimmedWords<'a> {
    string: &'a str,
}

impl<'a> View for TrimmedWords<'a> {
    type V = Seq<char>;

    closed spec fn view(&self) -> Seq<char> {
        self.string@
    }
}

impl<'a> TrimmedWords<'a> {
    /// What remains never starts with a separator.
    pub closed spec fn wf(&self) -> bool {
        self.string@.len() > 0 ==> is_word_char(self.string@[0])
    }

    /// Split the given input, dropping leading separators at once.
    pub fn new(string: &'a str) -> (r: TrimmedWords<'a>)
        ensures
            r@ == string@.skip(find_word(string@, 0)),
            r.wf(),
    {
        let rest = skip_nonword(string, 0);
        TrimmedWords { string: rest }
    }

    /// Take the next alphanumeric word.
    pub fn next(&mut self) -> (r: Option<&'a str>)
        requires
            old(self).wf(),
        ensures
            final(self).wf(),
            old(self)@.len() == 0 ==> r is None && final(self)@ == old(self)@,
            old(self)@.len() > 0 ==> {
                let end = find_nonword(old(self)@, 0);
                r matches Some(t) && t@ == old(self)@.take(end) && final(self)@ == old(
                    self,
                )@.skip(find_word(old(self)@, end))
            },
    {
        let s = self.string;
        let ghost sv = s@;
        let len = s.unicode_len();
        if len == 0 {
            return None;
        }
        let mut j: usize = 0;
        while j < len && !is_not_alphanum(s.get_char(j))
            invariant
                0 <= j <= len == sv.len(),
                s@ == sv,
                find_nonword(sv, 0) == find_nonword(sv, j as int),
            decreases len - j,
        {
            j = j + 1;
        }
        proof {
            assert(find_nonword(sv, 0) == j);
        }
        let tok = s.substring_char(0, j);
        self.string = skip_nonword(s, j);
        proof {
            assert(tok@ =~= sv.take(j as int));
        }
        Some(tok)
    }
}

/// Whether two strings hold the same characters.
pub fn str_eq(a: &str, b: &str) -> (r: bool)
    ensures
        r == (a@ == b@),
{
    let alen = a.unicode_len();
    let blen = b.unicode_len();
    if alen != blen {
        return false;
    }
    let mut i: usize = 0;
    while i < alen
        invariant
            0 <= i <= alen == a@.len(),
            alen == blen == b@.len(),
            forall|j: int| 0 <= j < i ==> a@[j] == b@[j],
        decreases alen - i,
    {
        if a.get_char(i) != b.get_char(i) {
            return false;
        }
        i = i + 1;
    }
    proof {
        assert(a@ =~= b@);
    }
    true
}

/// Drop separators from position `from` up to the next alphanumeric
/// character.
fn skip_nonword<'a>(s: &'a str, from: usize) -> (r: &'a str)
    requires
        from <= s@.len(),
    ensures
        r@ == s@.skip(find_word(s@, from as int)),
        r@.len() > 0 ==> is_word_char(r@[0]),
{
    let ghost sv = s@;
    let len = s.unicode_len();
    let mut k: usize = from;
    while k < len && is_not_alphanum(s.get_char(k))
        invariant
            from <= k <= len == sv.len(),
            s@ == sv,
            find_word(sv, from as int) == find_word(sv, k as int),
        decreases len - k,
    {
        k = k + 1;
    }
    proof {
        assert(find_word(sv, from as int) == k);
    }
    let r = s.substring_char(k, len);
    proof {
        assert(r@ =~= sv.skip(k as int));
    }
    r
}

} // verus!
