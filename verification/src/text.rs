//! Character-sequence helpers shared by the rest of the crate.
//!
//! Strings are handled as vectors of `char`, so that every position is a
//! character position and contracts can speak of `Seq<char>` directly.

use vstd::prelude::*;

verus! {

/// `String::push` appends exactly one character to the end of the string.
pub assume_specification[ std::string::String::push ](s: &mut std::string::String, c: char)
    ensures
        final(s)@ == old(s)@.push(c),
;

/// The characters of `s`, in order.
pub fn to_chars(s: &str) -> (out: Vec<char>)
    ensures
        out@ == s@,
{
    let mut out: Vec<char> = Vec::new();
    for c in it: s.chars()
        invariant
            it.seq() == s@,
            out@ == it.seq().take(it.index() as int),
    {
        out.push(c);
    }
    out
}

/// The string made of the characters of `chars`, in order.
pub fn from_chars(chars: &Vec<char>) -> (out: String)
    ensures
        out@ == chars@,
{
    let mut out = String::new();
    let mut i: usize = 0;
    while i < chars.len()
        invariant
            i <= chars.len(),
            out@ == chars@.take(i as int),
        decreases chars.len() - i,
    {
        out.push(chars[i]);
        i += 1;
    }
    out
}

/// Tests whether `a` and `b` hold the same characters.
pub fn same_text(a: &str, b: &str) -> (same: bool)
    ensures
        same == (a@ == b@),
{
    let x = to_chars(a);
    let y = to_chars(b);
    if x.len() != y.len() {
        return false;
    }
    let mut i: usize = 0;
    while i < x.len()
        invariant
            i <= x.len(),
            x.len() == y.len(),
            x@ == a@,
            y@ == b@,
            forall|k: int| 0 <= k < i ==> x@[k] == y@[k],
        decreases x.len() - i,
    {
        if x[i] != y[i] {
            return false;
        }
        i += 1;
    }
    assert(x@ =~= y@);
    true
}

/// Whether `pat` stands in `text` at character position `i`.
pub open spec fn has_at(text: Seq<char>, i: int, pat: Seq<char>) -> bool {
    &&& 0 <= i
    &&& i + pat.len() <= text.len()
    &&& text.subrange(i, i + pat.len()) == pat
}

/// Whether `pat` stands anywhere in `text`.
pub open spec fn occurs_in(text: Seq<char>, pat: Seq<char>) -> bool {
    exists|i: int| has_at(text, i, pat)
}

/// Tests whether `pat` stands in `text` at position `i`.
pub fn starts_with_at(text: &Vec<char>, i: usize, pat: &Vec<char>) -> (found: bool)
    ensures
        found == has_at(text@, i as int, pat@),
{
    if i > text.len() || pat.len() > text.len() - i {
        return false;
    }
    let mut k: usize = 0;
    while k < pat.len()
        invariant
            k <= pat.len(),
            i + pat.len() <= text.len(),
            forall|j: int| 0 <= j < k ==> text@[i + j] == pat@[j],
        decreases pat.len() - k,
    {
        if text[i + k] != pat[k] {
            proof {
                let window = text@.subrange(i as int, i + pat.len());
                assert(window[k as int] == text@[i + k]);
            }
            return false;
        }
        k += 1;
    }
    proof {
        assert(text@.subrange(i as int, i + pat.len()) =~= pat@);
    }
    true
}

/// Tests whether `pat` stands anywhere in `text`.
pub fn contains(text: &Vec<char>, pat: &Vec<char>) -> (found: bool)
    ensures
        found == occurs_in(text@, pat@),
{
    let mut i: usize = 0;
    while i < text.len()
        invariant
            i <= text.len(),
            forall|j: int| 0 <= j < i ==> !has_at(text@, j, pat@),
        decreases text.len() - i,
    {
        if starts_with_at(text, i, pat) {
            return true;
        }
        i += 1;
    }
    starts_with_at(text, i, pat)
}

/// `text` from position `i` on, with every occurrence of `pat` replaced by
/// `with`. Occurrences are taken from the left and do not overlap; an empty
/// pattern matches nothing.
pub open spec fn replaced_from(text: Seq<char>, i: int, pat: Seq<char>, with: Seq<char>) -> Seq<
    char,
>
    decreases text.len() - i,
{
    if i < 0 || i >= text.len() {
        Seq::empty()
    } else if pat.len() > 0 && has_at(text, i, pat) {
        with + replaced_from(text, i + pat.len(), pat, with)
    } else {
        seq![text[i]] + replaced_from(text, i + 1, pat, with)
    }
}

/// `text` with every occurrence of `pat` replaced by `with`.
pub open spec fn replaced(text: Seq<char>, pat: Seq<char>, with: Seq<char>) -> Seq<char> {
    replaced_from(text, 0, pat, with)
}

/// Replaces every occurrence of `pat` in `text` by `with`, left to right.
pub fn replace_all(text: &Vec<char>, pat: &Vec<char>, with: &Vec<char>) -> (out: Vec<char>)
    ensures
        out@ == replaced(text@, pat@, with@),
{
    let mut out: Vec<char> = Vec::new();
    let mut i: usize = 0;
    while i < text.len()
        invariant
            i <= text.len(),
            replaced(text@, pat@, with@) == out@ + replaced_from(text@, i as int, pat@, with@),
        decreases text.len() - i,
    {
        let ghost before = out@;
        if pat.len() > 0 && starts_with_at(text, i, pat) {
            let mut k: usize = 0;
            while k < with.len()
                invariant
                    k <= with.len(),
                    out@ == before + with@.take(k as int),
                decreases with.len() - k,
            {
                out.push(with[k]);
                k += 1;
            }
            proof {
                assert(with@.take(with.len() as int) =~= with@);
                assert(out@ + replaced_from(text@, i + pat.len(), pat@, with@) =~= before + (with@
                    + replaced_from(text@, i + pat.len(), pat@, with@)));
            }
            i += pat.len();
        } else {
            out.push(text[i]);
            proof {
                assert(out@ + replaced_from(text@, i + 1, pat@, with@) =~= before + (seq![text@[i as int]]
                    + replaced_from(text@, i + 1, pat@, with@)));
            }
            i += 1;
        }
    }
    proof {
        assert(out@ + Seq::<char>::empty() =~= out@);
    }
    out
}

/// Whether `c` is white space: the characters that Unicode gives the
/// property `White_Space`.
pub open spec fn is_space(c: char) -> bool {
    ||| '\u{9}' <= c <= '\u{d}'
    ||| c == ' '
    ||| c == '\u{85}'
    ||| c == '\u{a0}'
    ||| c == '\u{1680}'
    ||| '\u{2000}' <= c <= '\u{200a}'
    ||| c == '\u{2028}'
    ||| c == '\u{2029}'
    ||| c == '\u{202f}'
    ||| c == '\u{205f}'
    ||| c == '\u{3000}'
}

/// Tests whether `c` is white space.
pub fn is_whitespace(c: char) -> (space: bool)
    ensures
        space == is_space(c),
{
    ('\u{9}' <= c && c <= '\u{d}') || c == ' ' || c == '\u{85}' || c == '\u{a0}' || c
        == '\u{1680}' || ('\u{2000}' <= c && c <= '\u{200a}') || c == '\u{2028}' || c == '\u{2029}'
        || c == '\u{202f}' || c == '\u{205f}' || c == '\u{3000}'
}

/// `text` without its leading white space.
pub open spec fn trimmed_front(text: Seq<char>) -> Seq<char>
    decreases text.len(),
{
    if text.len() > 0 && is_space(text[0]) {
        trimmed_front(text.skip(1))
    } else {
        text
    }
}

/// `text` without its trailing white space.
pub open spec fn trimmed_back(text: Seq<char>) -> Seq<char>
    decreases text.len(),
{
    if text.len() > 0 && is_space(text.last()) {
        trimmed_back(text.drop_last())
    } else {
        text
    }
}

/// `text` without leading and trailing white space.
pub open spec fn trimmed(text: Seq<char>) -> Seq<char> {
    trimmed_back(trimmed_front(text))
}

/// Removes leading and trailing white space.
pub fn trim(text: &Vec<char>) -> (out: Vec<char>)
    ensures
        out@ == trimmed(text@),
{
    let mut a: usize = 0;
    proof {
        assert(text@.skip(0) =~= text@);
    }
    while a < text.len() && is_whitespace(text[a])
        invariant
            a <= text.len(),
            trimmed_front(text@) == trimmed_front(text@.skip(a as int)),
        decreases text.len() - a,
    {
        proof {
            assert(text@.skip(a as int).skip(1) =~= text@.skip(a + 1));
        }
        a += 1;
    }
    let mut b: usize = text.len();
    proof {
        assert(text@.skip(a as int) =~= text@.subrange(a as int, b as int));
    }
    while b > a && is_whitespace(text[b - 1])
        invariant
            a <= b <= text.len(),
            trimmed(text@) == trimmed_back(text@.subrange(a as int, b as int)),
        decreases b - a,
    {
        proof {
            assert(text@.subrange(a as int, b as int).drop_last() =~= text@.subrange(
                a as int,
                b - 1,
            ));
        }
        b -= 1;
    }
    let mut out: Vec<char> = Vec::new();
    let mut i: usize = a;
    while i < b
        invariant
            a <= i <= b <= text.len(),
            out@ == text@.subrange(a as int, i as int),
        decreases b - i,
    {
        out.push(text[i]);
        proof {
            assert(out@ =~= text@.subrange(a as int, i + 1));
        }
        i += 1;
    }
    out
}

/// The lines of `text`: the stretches between its line feeds. A text
/// without line feed is one line, and so is the empty text.
pub open spec fn lines_of(text: Seq<char>) -> Seq<Seq<char>>
    decreases text.len(),
{
    if text.len() == 0 {
        seq![Seq::empty()]
    } else {
        let front = lines_of(text.drop_last());
        if text.last() == '\n' {
            front.push(Seq::empty())
        } else {
            front.drop_last().push(front.last().push(text.last()))
        }
    }
}

/// Every text has at least one line.
pub proof fn lemma_lines_not_empty(text: Seq<char>)
    ensures
        lines_of(text).len() >= 1,
    decreases text.len(),
{
    if text.len() > 0 {
        lemma_lines_not_empty(text.drop_last());
    }
}

/// The views of a list of character vectors.
pub open spec fn lines_view(lines: Seq<Vec<char>>) -> Seq<Seq<char>> {
    lines.map_values(|l: Vec<char>| l@)
}

/// Splits `text` at its line feeds.
pub fn split_lines(text: &Vec<char>) -> (lines: Vec<Vec<char>>)
    ensures
        lines_view(lines@) == lines_of(text@),
        lines@.len() >= 1,
{
    let mut lines: Vec<Vec<char>> = Vec::new();
    let mut current: Vec<char> = Vec::new();
    let mut i: usize = 0;
    proof {
        assert(text@.take(0) =~= Seq::<char>::empty());
        assert(lines_view(lines@).push(current@) =~= seq![Seq::<char>::empty()]);
    }
    while i < text.len()
        invariant
            i <= text.len(),
            lines_view(lines@).push(current@) == lines_of(text@.take(i as int)),
        decreases text.len() - i,
    {
        let ghost done = lines_view(lines@);
        let ghost held = current@;
        let ghost front = lines_of(text@.take(i as int));
        proof {
            assert(text@.take(i + 1).drop_last() =~= text@.take(i as int));
            assert(text@.take(i + 1).last() == text@[i as int]);
            assert(front.last() == held);
            assert(front.drop_last() =~= done);
        }
        if text[i] == '\n' {
            let mut line: Vec<char> = Vec::new();
            core::mem::swap(&mut line, &mut current);
            lines.push(line);
            proof {
                assert(lines_view(lines@) =~= done.push(held));
                assert(lines_view(lines@).push(current@) =~= front.push(Seq::<char>::empty()));
            }
        } else {
            current.push(text[i]);
            proof {
                assert(lines_view(lines@).push(current@) =~= front.drop_last().push(
                    front.last().push(text@[i as int]),
                ));
            }
        }
        i += 1;
    }
    let ghost done = lines_view(lines@);
    let ghost held = current@;
    lines.push(current);
    proof {
        assert(text@.take(text.len() as int) =~= text@);
        assert(lines_view(lines@) =~= done.push(held));
    }
    lines
}

/// The last of the first `n` lines in which `pat` stands, or `fallback`
/// where it stands in none of them.
pub open spec fn last_line_with(
    lines: Seq<Seq<char>>,
    n: int,
    pat: Seq<char>,
    fallback: Seq<char>,
) -> Seq<char>
    decreases n,
{
    if n <= 0 || n > lines.len() {
        fallback
    } else if occurs_in(lines[n - 1], pat) {
        lines[n - 1]
    } else {
        last_line_with(lines, n - 1, pat, fallback)
    }
}

} // verus!
