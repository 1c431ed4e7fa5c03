//! Counting the matches of a query in the text of an HTML page.
//!
//! The page is read token by token. Text inside `script` and `style`
//! elements does not count; all other text is gathered, and the query is
//! looked for in it without regard to case.

use crate::text::{has_at, same_text, starts_with_at, to_chars};
use vstd::prelude::*;

verus! {

/// One token of an HTML page, as far as the text of the page depends on it.
#[derive(Debug, Clone, PartialEq, Eq)]
pub enum HtmlToken {
    /// An opening tag with its name.
    StartTag(String),
    /// A closing tag with its name.
    EndTag(String),
    /// A stretch of text.
    Characters(String),
    /// Anything else.
    Other,
}

/// The text gathered so far, and how many elements whose text does not
/// count are open.
#[derive(Debug, Clone, PartialEq, Eq)]
pub struct TextExtractor {
    pub text: String,
    pub in_skip_tag: u32,
}

/// Whether the text inside the element `name` does not count.
pub open spec fn is_skip_tag(name: Seq<char>) -> bool {
    name == "script"@ || name == "style"@
}

/// The number of open elements whose text does not count, after `token`.
/// The number stops at the largest value that fits 32 bits and never falls
/// below zero.
pub open spec fn depth_after(depth: u32, token: HtmlToken) -> u32 {
    match token {
        HtmlToken::StartTag(name) => if is_skip_tag(name@) && depth < u32::MAX {
            (depth + 1) as u32
        } else {
            depth
        },
        HtmlToken::EndTag(name) => if is_skip_tag(name@) && depth > 0 {
            (depth - 1) as u32
        } else {
            depth
        },
        _ => depth,
    }
}

/// The text gathered after `token`: text that counts is added with a space
/// behind it.
pub open spec fn text_after(text: Seq<char>, depth: u32, token: HtmlToken) -> Seq<char> {
    match token {
        HtmlToken::Characters(more) => if depth == 0 {
            text + more@ + " "@
        } else {
            text
        },
        _ => text,
    }
}

impl TextExtractor {
    /// An extractor that has seen nothing.
    pub fn new() -> (extractor: TextExtractor)
        ensures
            extractor.text@ == Seq::<char>::empty(),
            extractor.in_skip_tag == 0,
    {
        TextExtractor { text: String::new(), in_skip_tag: 0 }
    }

    /// Takes in the next token of the page.
    pub fn process_token(&mut self, token: &HtmlToken)
        ensures
            final(self).text@ == text_after(old(self).text@, old(self).in_skip_tag, *token),
            final(self).in_skip_tag == depth_after(old(self).in_skip_tag, *token),
    {
        match token {
            HtmlToken::StartTag(name) => {
                if same_text(name.as_str(), "script") || same_text(name.as_str(), "style") {
                    if self.in_skip_tag < u32::MAX {
                        self.in_skip_tag = self.in_skip_tag + 1;
                    }
                }
            },
            HtmlToken::EndTag(name) => {
                if same_text(name.as_str(), "script") || same_text(name.as_str(), "style") {
                    if self.in_skip_tag > 0 {
                        self.in_skip_tag = self.in_skip_tag - 1;
                    }
                }
            },
            HtmlToken::Characters(more) => {
                if self.in_skip_tag == 0 {
                    self.text.append(more.as_str());
                    self.text.append(" ");
                }
            },
            HtmlToken::Other => {},
        }
    }
}

/// The number of times that the non-empty `pat` stands in `text` from
/// position `i` on, counted from the left without overlap.
pub open spec fn matches_from(text: Seq<char>, i: int, pat: Seq<char>) -> nat
    decreases text.len() - i,
{
    if i < 0 || pat.len() == 0 || i + pat.len() > text.len() {
        0
    } else if has_at(text, i, pat) {
        1 + matches_from(text, i + pat.len(), pat)
    } else {
        matches_from(text, i + 1, pat)
    }
}

/// The number of times that `pat` stands in `text`, counted from the left
/// without overlap. The empty pattern stands before every character and at
/// the end.
pub open spec fn match_count(text: Seq<char>, pat: Seq<char>) -> nat {
    if pat.len() == 0 {
        text.len() + 1
    } else {
        matches_from(text, 0, pat)
    }
}

/// Counts the matches of `pat` in `text`, as a count of 32 bits: of a
/// larger count the low 32 bits.
pub fn count_matches(text: &Vec<char>, pat: &Vec<char>) -> (hits: u32)
    ensures
        hits == match_count(text@, pat@) % 0x1_0000_0000,
{
    if pat.len() == 0 {
        return ((text.len() as u128 + 1) % 0x1_0000_0000) as u32;
    }
    let mut count: u64 = 0;
    let mut i: usize = 0;
    while i < text.len()
        invariant
            i <= text.len(),
            pat@.len() > 0,
            count <= i,
            match_count(text@, pat@) == count + matches_from(text@, i as int, pat@),
        decreases text.len() - i,
    {
        if starts_with_at(text, i, pat) {
            count += 1;
            i += pat.len();
        } else {
            proof {
                if i + pat.len() > text.len() {
                    lemma_no_match_behind(text@, i as int, pat@);
                }
            }
            i += 1;
        }
    }
    (count % 0x1_0000_0000) as u32
}

/// Behind the last position at which the pattern fits nothing matches.
proof fn lemma_no_match_behind(text: Seq<char>, i: int, pat: Seq<char>)
    requires
        0 <= i,
        i + pat.len() > text.len(),
    ensures
        matches_from(text, i, pat) == 0,
        matches_from(text, i + 1, pat) == 0,
{
}

/// `text` in lower case, as Unicode maps each of its characters.
pub uninterp spec fn lowercased(text: Seq<char>) -> Seq<char>;

/// Maps `text` to lower case with `str::to_lowercase`, whose result
/// depends on the text alone.
#[verifier::external_body]
fn lowercase(text: &str) -> (out: String)
    ensures
        out@ == lowercased(text@),
{
    text.to_lowercase()
}

/// The matches of `query` in `text` without regard to case, as a count of
/// 32 bits.
pub open spec fn page_hits(text: Seq<char>, query: Seq<char>) -> nat {
    match_count(lowercased(text), lowercased(query)) % 0x1_0000_0000
}

/// Counts the matches of `query` in the gathered text of a page.
pub fn count_page_hits(text: &str, query: &str) -> (hits: u32)
    ensures
        hits == page_hits(text@, query@),
{
    let wanted = to_chars(lowercase(query).as_str());
    let content = to_chars(lowercase(text).as_str());
    count_matches(&content, &wanted)
}

} // verus!
