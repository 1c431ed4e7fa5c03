//! Splitting highlighted text into spans.
//!
//! The search backend wraps every match in a pair of markers. This module
//! turns such text into an ordered list of spans, each either highlighted or
//! not, and numbers the highlighted ones from the left.

use crate::text::{
    contains, from_chars, has_at, occurs_in, replace_all, replaced, starts_with_at, to_chars, trim,
    trimmed,
};
use vstd::prelude::*;

verus! {

/// One stretch of text of a decomposed snippet.
#[derive(Debug, Clone, PartialEq, Eq)]
pub struct HighlightTextSpan {
    pub text: String,
    pub is_highlighted: bool,
    pub index: u64,
}

/// What a span holds, as plain values.
pub ghost struct SpanModel {
    pub text: Seq<char>,
    pub is_highlighted: bool,
    pub index: nat,
}

impl View for HighlightTextSpan {
    type V = SpanModel;

    open spec fn view(&self) -> SpanModel {
        SpanModel { text: self.text@, is_highlighted: self.is_highlighted, index: self.index as nat }
    }
}

/// The models of a list of spans.
pub open spec fn spans_view(spans: Seq<HighlightTextSpan>) -> Seq<SpanModel> {
    spans.map_values(|s: HighlightTextSpan| s@)
}

/// A maximal stretch of literal characters that share one highlight state.
pub ghost struct Run {
    pub text: Seq<char>,
    pub highlighted: bool,
}

/// The marker that the backend puts before a match.
pub open spec fn open_marker() -> Seq<char> {
    "<hoover4_strong>"@
}

/// The marker that the backend puts after a match.
pub open spec fn close_marker() -> Seq<char> {
    "</hoover4_strong>"@
}

/// Whether the non-empty `marker` stands in `text` at position `i`.
pub open spec fn marker_at(text: Seq<char>, i: int, marker: Seq<char>) -> bool {
    marker.len() > 0 && has_at(text, i, marker)
}

/// Each character of `chars`, paired with the highlight state `highlighted`.
pub open spec fn tagged(chars: Seq<char>, highlighted: bool) -> Seq<(char, bool)> {
    chars.map_values(|c: char| (c, highlighted))
}

/// The literal characters of `text` from position `i` on, each with its
/// highlight state, when `depth` opening markers are still unclosed at `i`.
///
/// A closing marker at depth zero has no opener: its characters are literal
/// text. Where both markers stand at one position the closing one is taken.
pub open spec fn literals_from(
    text: Seq<char>,
    i: int,
    depth: nat,
    open: Seq<char>,
    close: Seq<char>,
) -> Seq<(char, bool)>
    decreases text.len() - i,
{
    if i < 0 || i >= text.len() {
        Seq::empty()
    } else if marker_at(text, i, close) {
        if depth > 0 {
            literals_from(text, i + close.len(), (depth - 1) as nat, open, close)
        } else {
            tagged(close, false) + literals_from(text, i + close.len(), 0, open, close)
        }
    } else if marker_at(text, i, open) {
        literals_from(text, i + open.len(), depth + 1, open, close)
    } else {
        seq![(text[i], depth > 0)] + literals_from(text, i + 1, depth, open, close)
    }
}

/// The literal characters of the whole of `text`.
pub open spec fn literals(text: Seq<char>, open: Seq<char>, close: Seq<char>) -> Seq<(char, bool)> {
    literals_from(text, 0, 0, open, close)
}

/// `runs` after the stretch `chunk` in state `highlighted` is added: an empty
/// stretch changes nothing, one in the state of the last run extends that
/// run, any other starts a new run.
pub open spec fn append_run(runs: Seq<Run>, chunk: Seq<char>, highlighted: bool) -> Seq<Run> {
    if chunk.len() == 0 {
        runs
    } else if runs.len() > 0 && runs.last().highlighted == highlighted {
        runs.drop_last().push(Run { text: runs.last().text + chunk, highlighted })
    } else {
        runs.push(Run { text: chunk, highlighted })
    }
}

/// The runs that a sequence of literal characters falls into.
pub open spec fn runs_of(lits: Seq<(char, bool)>) -> Seq<Run>
    decreases lits.len(),
{
    if lits.len() == 0 {
        Seq::empty()
    } else {
        append_run(runs_of(lits.drop_last()), seq![lits.last().0], lits.last().1)
    }
}

/// The spans of `runs`, none of them numbered.
pub open spec fn plain_spans(runs: Seq<Run>) -> Seq<SpanModel> {
    Seq::new(
        runs.len(),
        |j: int| SpanModel { text: runs[j].text, is_highlighted: runs[j].highlighted, index: 0 },
    )
}

/// The number of highlighted spans among the first `j` of `spans`.
pub open spec fn highlighted_before(spans: Seq<SpanModel>, j: int) -> nat
    decreases j,
{
    if j <= 0 || j > spans.len() {
        0
    } else {
        highlighted_before(spans, j - 1) + if spans[j - 1].is_highlighted {
            1nat
        } else {
            0nat
        }
    }
}

/// `spans` with each highlighted span numbered by how many highlighted spans
/// stand before it; the other spans are kept as they are.
pub open spec fn numbered(spans: Seq<SpanModel>) -> Seq<SpanModel> {
    Seq::new(
        spans.len(),
        |j: int|
            if spans[j].is_highlighted {
                SpanModel {
                    text: spans[j].text,
                    is_highlighted: true,
                    index: highlighted_before(spans, j),
                }
            } else {
                spans[j]
            },
    )
}

/// The replacement character that stands for undecodable input.
pub open spec fn replacement_char() -> char {
    '\u{fffd}'
}

/// `text` made clean for display: runs of three, then of two, replacement
/// characters collapse into one, doubled spaces into one space, and white
/// space at both ends goes.
pub open spec fn sanitized(text: Seq<char>) -> Seq<char> {
    let r = replacement_char();
    let once = replaced(text, seq![r, r, r], seq![r]);
    let twice = replaced(once, seq![r, r], seq![r]);
    trimmed(replaced(twice, seq![' ', ' '], seq![' ']))
}

/// The runs that `text` decomposes into under the markers `open` and `close`.
pub open spec fn decomposed_runs(text: Seq<char>, open: Seq<char>, close: Seq<char>) -> Seq<Run> {
    runs_of(literals(sanitized(text), open, close))
}

/// The spans that `text` decomposes into under the markers `open` and
/// `close`: one span for each run of its cleaned text, the highlighted ones
/// numbered from the left.
pub open spec fn decomposed(text: Seq<char>, open: Seq<char>, close: Seq<char>) -> Seq<SpanModel> {
    numbered(plain_spans(decomposed_runs(text, open, close)))
}

/// A run while it is being built.
struct Chunk {
    text: Vec<char>,
    highlighted: bool,
}

impl View for Chunk {
    type V = Run;

    closed spec fn view(&self) -> Run {
        Run { text: self.text@, highlighted: self.highlighted }
    }
}

/// The runs that a list of chunks stands for.
spec fn chunks_view(chunks: Seq<Chunk>) -> Seq<Run> {
    chunks.map_values(|c: Chunk| c@)
}

/// Adding two stretches of one state in turn is adding their concatenation.
proof fn lemma_append_run_twice(runs: Seq<Run>, a: Seq<char>, b: Seq<char>, highlighted: bool)
    ensures
        append_run(append_run(runs, a, highlighted), b, highlighted) == append_run(
            runs,
            a + b,
            highlighted,
        ),
{
    if a.len() == 0 {
        assert(a + b =~= b);
    } else if b.len() == 0 {
        assert(a + b =~= a);
    } else {
        let mid = append_run(runs, a, highlighted);
        if runs.len() > 0 && runs.last().highlighted == highlighted {
            assert(mid.drop_last() =~= runs.drop_last());
            assert((runs.last().text + a) + b =~= runs.last().text + (a + b));
        } else {
            assert(mid.drop_last() =~= runs);
        }
    }
}

/// The runs of literals that end in a stretch of one state.
proof fn lemma_runs_of_tagged(lits: Seq<(char, bool)>, chunk: Seq<char>, highlighted: bool)
    ensures
        runs_of(lits + tagged(chunk, highlighted)) == append_run(runs_of(lits), chunk, highlighted),
    decreases chunk.len(),
{
    if chunk.len() == 0 {
        assert(lits + tagged(chunk, highlighted) =~= lits);
    } else {
        let all = lits + tagged(chunk, highlighted);
        let front = chunk.drop_last();
        assert(all.drop_last() =~= lits + tagged(front, highlighted));
        assert(all.last() == (chunk.last(), highlighted));
        lemma_runs_of_tagged(lits, front, highlighted);
        lemma_append_run_twice(runs_of(lits), front, seq![chunk.last()], highlighted);
        assert(front + seq![chunk.last()] =~= chunk);
    }
}

/// Moves the buffered text into `runs` as a stretch in state `highlighted`,
/// and leaves the buffer empty.
fn flush_buffer(runs: &mut Vec<Chunk>, buffer: &mut Vec<char>, highlighted: bool)
    ensures
        chunks_view(final(runs)@) == append_run(
            chunks_view(old(runs)@),
            old(buffer)@,
            highlighted,
        ),
        final(buffer)@ == Seq::<char>::empty(),
{
    if buffer.len() == 0 {
        assert(buffer@ =~= Seq::<char>::empty());
        return ;
    }
    let ghost before = chunks_view(runs@);
    let n = runs.len();
    if n > 0 && runs[n - 1].highlighted == highlighted {
        let mut last = runs.pop().unwrap();
        last.text.append(buffer);
        runs.push(last);
        assert(chunks_view(runs@) =~= append_run(before, old(buffer)@, highlighted));
    } else {
        let mut text: Vec<char> = Vec::new();
        core::mem::swap(&mut text, buffer);
        runs.push(Chunk { text, highlighted });
        assert(chunks_view(runs@) =~= append_run(before, old(buffer)@, highlighted));
    }
}

/// Scans `text` once and collects its runs.
fn scan_runs(text: &Vec<char>, open: &Vec<char>, close: &Vec<char>) -> (runs: Vec<Chunk>)
    ensures
        chunks_view(runs@) == runs_of(literals(text@, open@, close@)),
{
    let mut runs: Vec<Chunk> = Vec::new();
    let mut buffer: Vec<char> = Vec::new();
    let mut depth: usize = 0;
    let mut i: usize = 0;
    let ghost mut done: Seq<(char, bool)> = Seq::empty();
    proof {
        assert(done + literals(text@, open@, close@) =~= literals(text@, open@, close@));
        assert(chunks_view(runs@) =~= Seq::<Run>::empty());
    }
    while i < text.len()
        invariant
            i <= text.len(),
            depth <= i,
            literals(text@, open@, close@) == done + literals_from(
                text@,
                i as int,
                depth as nat,
                open@,
                close@,
            ),
            runs_of(done) == append_run(chunks_view(runs@), buffer@, depth > 0),
        decreases text.len() - i,
    {
        let ghost rest = literals_from(text@, i as int, depth as nat, open@, close@);
        if close.len() > 0 && starts_with_at(text, i, close) {
            if depth > 0 {
                flush_buffer(&mut runs, &mut buffer, true);
                depth -= 1;
            } else {
                let ghost held = buffer@;
                let mut k: usize = 0;
                while k < close.len()
                    invariant
                        k <= close.len(),
                        buffer@ == held + close@.take(k as int),
                    decreases close.len() - k,
                {
                    buffer.push(close[k]);
                    proof {
                        assert(close@.take(k + 1) =~= close@.take(k as int).push(close@[k as int]));
                    }
                    k += 1;
                }
                proof {
                    assert(close@.take(close.len() as int) =~= close@);
                    lemma_runs_of_tagged(done, close@, false);
                    lemma_append_run_twice(chunks_view(runs@), held, close@, false);
                    let tail = literals_from(text@, i + close.len(), 0, open@, close@);
                    assert((done + tagged(close@, false)) + tail =~= done + (tagged(close@, false)
                        + tail));
                    done = done + tagged(close@, false);
                }
            }
            i += close.len();
        } else if open.len() > 0 && starts_with_at(text, i, open) {
            flush_buffer(&mut runs, &mut buffer, depth > 0);
            depth += 1;
            i += open.len();
        } else {
            let ghost held = buffer@;
            let c = text[i];
            buffer.push(c);
            proof {
                let lit = (c, depth > 0);
                let tail = literals_from(text@, i + 1, depth as nat, open@, close@);
                assert(rest == seq![lit] + tail);
                assert(done.push(lit) + tail =~= done + (seq![lit] + tail));
                assert(done.push(lit).drop_last() =~= done);
                lemma_append_run_twice(chunks_view(runs@), held, seq![c], depth > 0);
                assert(held + seq![c] =~= buffer@);
                done = done.push(lit);
            }
            i += 1;
        }
    }
    proof {
        assert(done + Seq::<(char, bool)>::empty() =~= done);
    }
    flush_buffer(&mut runs, &mut buffer, depth > 0);
    runs
}

/// Without an opening marker every character of the text is literal and
/// not highlighted, closing markers included.
proof fn lemma_no_opener(text: Seq<char>, i: int, open: Seq<char>, close: Seq<char>)
    requires
        !occurs_in(text, open),
        0 <= i <= text.len(),
    ensures
        literals_from(text, i, 0, open, close) == tagged(text.skip(i), false),
    decreases text.len() - i,
{
    if i >= text.len() {
        assert(tagged(text.skip(i), false) =~= Seq::<(char, bool)>::empty());
    } else if marker_at(text, i, close) {
        let next = i + close.len();
        lemma_no_opener(text, next, open, close);
        assert(text.subrange(i, next) == close);
        assert(tagged(close, false) + tagged(text.skip(next), false) =~= tagged(
            text.skip(i),
            false,
        )) by {
            assert forall|k: int| 0 <= k < close.len() implies close[k] == text.skip(i)[k] by {
                assert(text.subrange(i, next)[k] == text[i + k]);
            }
        }
    } else {
        assert(!has_at(text, i, open));
        lemma_no_opener(text, i + 1, open, close);
        assert(seq![(text[i], false)] + tagged(text.skip(i + 1), false) =~= tagged(
            text.skip(i),
            false,
        ));
    }
}

/// Among the first `j` spans at most `j` are highlighted.
proof fn lemma_highlighted_before_bound(spans: Seq<SpanModel>, j: int)
    ensures
        highlighted_before(spans, j) <= j || j < 0,
    decreases j,
{
    if 0 < j <= spans.len() {
        lemma_highlighted_before_bound(spans, j - 1);
    }
}

/// Cleans `text` for display.
pub fn sanitize(text: &Vec<char>) -> (out: Vec<char>)
    ensures
        out@ == sanitized(text@),
{
    let r = '\u{fffd}';
    let three: Vec<char> = vec![r, r, r];
    let two: Vec<char> = vec![r, r];
    let one: Vec<char> = vec![r];
    let spaces: Vec<char> = vec![' ', ' '];
    let space: Vec<char> = vec![' '];
    proof {
        assert(three@ =~= seq![r, r, r]);
        assert(two@ =~= seq![r, r]);
        assert(one@ =~= seq![r]);
        assert(spaces@ =~= seq![' ', ' ']);
        assert(space@ =~= seq![' ']);
    }
    let once = replace_all(text, &three, &one);
    let twice = replace_all(&once, &two, &one);
    let single = replace_all(&twice, &spaces, &space);
    trim(&single)
}

/// The unnumbered spans of the cleaned text `clean`.
fn spans_of_clean(clean: Vec<char>, open: &Vec<char>, close: &Vec<char>) -> (spans: Vec<
    HighlightTextSpan,
>)
    ensures
        spans_view(spans@) == plain_spans(runs_of(literals(clean@, open@, close@))),
{
    let mut spans: Vec<HighlightTextSpan> = Vec::new();
    if clean.len() == 0 {
        assert(spans_view(spans@) =~= plain_spans(runs_of(literals(clean@, open@, close@))));
        return spans;
    }
    if !contains(&clean, open) {
        spans.push(HighlightTextSpan { text: from_chars(&clean), is_highlighted: false, index: 0 });
        proof {
            let none = Seq::<(char, bool)>::empty();
            lemma_no_opener(clean@, 0, open@, close@);
            assert(clean@.skip(0) =~= clean@);
            lemma_runs_of_tagged(none, clean@, false);
            assert(none + tagged(clean@, false) =~= tagged(clean@, false));
            assert(spans_view(spans@) =~= plain_spans(runs_of(literals(clean@, open@, close@))));
        }
        return spans;
    }
    let chunks = scan_runs(&clean, open, close);
    let ghost runs = chunks_view(chunks@);
    let mut j: usize = 0;
    while j < chunks.len()
        invariant
            j <= chunks.len(),
            runs == chunks_view(chunks@),
            spans@.len() == j,
            spans_view(spans@) == plain_spans(runs).take(j as int),
        decreases chunks.len() - j,
    {
        let ghost held = spans@;
        let text = from_chars(&chunks[j].text);
        spans.push(HighlightTextSpan { text, is_highlighted: chunks[j].highlighted, index: 0 });
        proof {
            assert(runs[j as int] == chunks@[j as int]@);
            assert(spans@[j as int]@ == plain_spans(runs)[j as int]);
            assert forall|k: int| 0 <= k < j implies spans_view(spans@)[k] == plain_spans(
                runs,
            )[k] by {
                assert(spans@[k] == held[k]);
                assert(spans_view(held)[k] == plain_spans(runs).take(j as int)[k]);
            }
            assert(spans_view(spans@) =~= plain_spans(runs).take(j + 1));
        }
        j += 1;
    }
    proof {
        assert(plain_spans(runs).take(chunks.len() as int) =~= plain_spans(runs));
    }
    spans
}

/// Numbers the highlighted spans from the left, starting at zero, and
/// leaves the other spans as they are.
pub fn number_spans(spans: Vec<HighlightTextSpan>) -> (out: Vec<HighlightTextSpan>)
    ensures
        spans_view(out@) == numbered(spans_view(spans@)),
{
    let ghost given = spans_view(spans@);
    let mut out = spans;
    let mut index: u64 = 0;
    let mut j: usize = 0;
    while j < out.len()
        invariant
            j <= out.len(),
            out.len() == given.len(),
            index == highlighted_before(given, j as int),
            forall|k: int| 0 <= k < j ==> out@[k]@ == numbered(given)[k],
            forall|k: int| j <= k < out.len() ==> out@[k]@ == given[k],
        decreases out.len() - j,
    {
        proof {
            lemma_highlighted_before_bound(given, j as int);
        }
        let ghost held = out@;
        if out[j].is_highlighted {
            out[j].index = index;
            index += 1;
        }
        proof {
            assert(out@.len() == held.len());
            assert(forall|k: int| 0 <= k < out.len() && k != j ==> out@[k] == held[k]);
            assert(out@[j as int].text == held[j as int].text);
            assert(out@[j as int].is_highlighted == held[j as int].is_highlighted);
            assert(out@[j as int]@ == numbered(given)[j as int]);
        }
        j += 1;
    }
    proof {
        assert(spans_view(out@) =~= numbered(given));
    }
    out
}

/// Decomposes `text`, whose matches stand between the markers `open` and
/// `close`, into spans. An empty marker matches nowhere.
pub fn decompose_with_markers(text: &str, open: &str, close: &str) -> (spans: Vec<
    HighlightTextSpan,
>)
    ensures
        spans_view(spans@) == decomposed(text@, open@, close@),
{
    let clean = sanitize(&to_chars(text));
    let plain = spans_of_clean(clean, &to_chars(open), &to_chars(close));
    number_spans(plain)
}

/// Decomposes a snippet of the search backend into spans, none of them
/// numbered.
pub fn _do_decompose_text_into_spans(text: String) -> (spans: Vec<HighlightTextSpan>)
    ensures
        spans_view(spans@) == plain_spans(decomposed_runs(text@, open_marker(), close_marker())),
{
    let clean = sanitize(&to_chars(text.as_str()));
    spans_of_clean(clean, &to_chars("<hoover4_strong>"), &to_chars("</hoover4_strong>"))
}

/// Decomposes a snippet of the search backend into spans and numbers the
/// highlighted ones from the left.
pub fn decompose_text_into_spans(text: String) -> (spans: Vec<HighlightTextSpan>)
    ensures
        spans_view(spans@) == decomposed(text@, open_marker(), close_marker()),
{
    number_spans(_do_decompose_text_into_spans(text))
}

/// The texts of `spans`, joined in order.
pub open spec fn joined_text(spans: Seq<SpanModel>) -> Seq<char>
    decreases spans.len(),
{
    if spans.len() == 0 {
        Seq::empty()
    } else {
        joined_text(spans.drop_last()) + spans.last().text
    }
}

/// The literal characters of `text` without their highlight states: `text`
/// with its markers taken out, but for closing markers that have no opener.
pub open spec fn literal_text(text: Seq<char>, open: Seq<char>, close: Seq<char>) -> Seq<char> {
    literals(text, open, close).map_values(|l: (char, bool)| l.0)
}

/// Adding a stretch to a list of runs adds its characters to the joined text.
proof fn lemma_joined_append_run(runs: Seq<Run>, chunk: Seq<char>, highlighted: bool)
    ensures
        joined_text(plain_spans(append_run(runs, chunk, highlighted))) == joined_text(
            plain_spans(runs),
        ) + chunk,
{
    let after = append_run(runs, chunk, highlighted);
    if chunk.len() == 0 {
        assert(joined_text(plain_spans(runs)) + chunk =~= joined_text(plain_spans(runs)));
    } else if runs.len() > 0 && runs.last().highlighted == highlighted {
        assert(plain_spans(after).drop_last() =~= plain_spans(runs).drop_last());
        assert(joined_text(plain_spans(runs).drop_last()) + (runs.last().text + chunk)
            =~= (joined_text(plain_spans(runs).drop_last()) + runs.last().text) + chunk);
    } else {
        assert(plain_spans(after).drop_last() =~= plain_spans(runs));
    }
}

/// The runs of a sequence of literals spell its characters.
proof fn lemma_joined_runs(lits: Seq<(char, bool)>)
    ensures
        joined_text(plain_spans(runs_of(lits))) == lits.map_values(|l: (char, bool)| l.0),
    decreases lits.len(),
{
    let chars = lits.map_values(|l: (char, bool)| l.0);
    if lits.len() == 0 {
        assert(plain_spans(runs_of(lits)) =~= Seq::<SpanModel>::empty());
        assert(chars =~= Seq::<char>::empty());
    } else {
        let front = lits.drop_last();
        lemma_joined_runs(front);
        lemma_joined_append_run(runs_of(front), seq![lits.last().0], lits.last().1);
        assert(front.map_values(|l: (char, bool)| l.0) + seq![lits.last().0] =~= chars);
    }
}

/// Numbering changes no text.
proof fn lemma_joined_numbered(spans: Seq<SpanModel>)
    ensures
        joined_text(numbered(spans)) == joined_text(spans),
    decreases spans.len(),
{
    if spans.len() > 0 {
        lemma_joined_numbered(spans.drop_last());
        assert(numbered(spans).drop_last() =~= numbered(spans.drop_last())) by {
            assert forall|j: int| 0 <= j < spans.len() - 1 implies highlighted_before(spans, j)
                == highlighted_before(spans.drop_last(), j) by {
                lemma_highlighted_before_prefix(spans, spans.drop_last(), j);
            }
        }
    }
}

/// The count of highlighted spans before `j` depends on the spans before `j`
/// alone.
proof fn lemma_highlighted_before_prefix(a: Seq<SpanModel>, b: Seq<SpanModel>, j: int)
    requires
        0 <= j <= a.len(),
        j <= b.len(),
        forall|k: int| 0 <= k < j ==> a[k].is_highlighted == b[k].is_highlighted,
    ensures
        highlighted_before(a, j) == highlighted_before(b, j),
    decreases j,
{
    if j > 0 {
        lemma_highlighted_before_prefix(a, b, j - 1);
    }
}

/// Round trip: the texts of the spans of `text`, joined in order, are the
/// cleaned text with its markers taken out. Nothing is lost and nothing is
/// added; a closing marker without an opener stays as text.
pub proof fn lemma_spans_spell_text(text: Seq<char>, open: Seq<char>, close: Seq<char>)
    ensures
        joined_text(decomposed(text, open, close)) == literal_text(sanitized(text), open, close),
{
    lemma_joined_runs(literals(sanitized(text), open, close));
    lemma_joined_numbered(plain_spans(decomposed_runs(text, open, close)));
}

/// `text` from position `i` on, with every marker taken out.
pub open spec fn stripped_from(text: Seq<char>, i: int, open: Seq<char>, close: Seq<char>) -> Seq<
    char,
>
    decreases text.len() - i,
{
    if i < 0 || i >= text.len() {
        Seq::empty()
    } else if marker_at(text, i, close) {
        stripped_from(text, i + close.len(), open, close)
    } else if marker_at(text, i, open) {
        stripped_from(text, i + open.len(), open, close)
    } else {
        seq![text[i]] + stripped_from(text, i + 1, open, close)
    }
}

/// `text` with every marker taken out.
pub open spec fn stripped(text: Seq<char>, open: Seq<char>, close: Seq<char>) -> Seq<char> {
    stripped_from(text, 0, open, close)
}

/// Whether, from position `i` on and with `depth` opening markers
/// unclosed, `text` holds a closing marker that has no opener.
pub open spec fn stray_closer_from(
    text: Seq<char>,
    i: int,
    depth: nat,
    open: Seq<char>,
    close: Seq<char>,
) -> bool
    decreases text.len() - i,
{
    if i < 0 || i >= text.len() {
        false
    } else if marker_at(text, i, close) {
        depth == 0 || stray_closer_from(text, i + close.len(), (depth - 1) as nat, open, close)
    } else if marker_at(text, i, open) {
        stray_closer_from(text, i + open.len(), depth + 1, open, close)
    } else {
        stray_closer_from(text, i + 1, depth, open, close)
    }
}

/// Whether `text` holds a closing marker that has no opener.
pub open spec fn has_stray_closer(text: Seq<char>, open: Seq<char>, close: Seq<char>) -> bool {
    stray_closer_from(text, 0, 0, open, close)
}

/// Where every closing marker has its opener, the literal characters are
/// the text without its markers.
proof fn lemma_literals_are_stripped(
    text: Seq<char>,
    i: int,
    depth: nat,
    open: Seq<char>,
    close: Seq<char>,
)
    requires
        !stray_closer_from(text, i, depth, open, close),
    ensures
        literals_from(text, i, depth, open, close).map_values(|l: (char, bool)| l.0)
            == stripped_from(text, i, open, close),
    decreases text.len() - i,
{
    let chars = literals_from(text, i, depth, open, close).map_values(|l: (char, bool)| l.0);
    if i < 0 || i >= text.len() {
        assert(chars =~= Seq::<char>::empty());
    } else if marker_at(text, i, close) {
        lemma_literals_are_stripped(text, i + close.len(), (depth - 1) as nat, open, close);
    } else if marker_at(text, i, open) {
        lemma_literals_are_stripped(text, i + open.len(), depth + 1, open, close);
    } else {
        lemma_literals_are_stripped(text, i + 1, depth, open, close);
        let tail = literals_from(text, i + 1, depth, open, close);
        assert(chars =~= seq![text[i]] + tail.map_values(|l: (char, bool)| l.0));
    }
}

/// Round trip: where every closing marker of the cleaned text has its
/// opener, the texts of the spans, joined in order, are the cleaned text
/// with its markers taken out.
pub proof fn lemma_round_trip(text: Seq<char>, open: Seq<char>, close: Seq<char>)
    requires
        !has_stray_closer(sanitized(text), open, close),
    ensures
        joined_text(decomposed(text, open, close)) == stripped(sanitized(text), open, close),
{
    lemma_spans_spell_text(text, open, close);
    lemma_literals_are_stripped(sanitized(text), 0, 0, open, close);
}

/// A text whose cleaned form holds no opening marker decomposes into one
/// span that is not highlighted and holds the whole cleaned text, closing
/// markers included; an empty one decomposes into no span at all.
pub proof fn lemma_no_opener_one_span(text: Seq<char>, open: Seq<char>, close: Seq<char>)
    requires
        !occurs_in(sanitized(text), open),
    ensures
        literal_text(sanitized(text), open, close) == sanitized(text),
        sanitized(text).len() == 0 ==> decomposed(text, open, close) == Seq::<SpanModel>::empty(),
        sanitized(text).len() > 0 ==> decomposed(text, open, close) == seq![
            SpanModel { text: sanitized(text), is_highlighted: false, index: 0 },
        ],
{
    let clean = sanitized(text);
    let none = Seq::<(char, bool)>::empty();
    lemma_no_opener(clean, 0, open, close);
    assert(clean.skip(0) =~= clean);
    assert(literal_text(clean, open, close) =~= clean);
    lemma_runs_of_tagged(none, clean, false);
    assert(none + tagged(clean, false) =~= tagged(clean, false));
    if clean.len() == 0 {
        assert(decomposed(text, open, close) =~= Seq::<SpanModel>::empty());
    } else {
        assert(decomposed(text, open, close) =~= seq![
            SpanModel { text: clean, is_highlighted: false, index: 0 },
        ]);
    }
}

/// The count of highlighted spans grows with the position, and strictly
/// across a highlighted span.
proof fn lemma_highlighted_before_grows(spans: Seq<SpanModel>, i: int, j: int)
    requires
        0 <= i <= j <= spans.len(),
    ensures
        highlighted_before(spans, i) <= highlighted_before(spans, j),
        i < j && spans[i].is_highlighted ==> highlighted_before(spans, i) < highlighted_before(
            spans,
            j,
        ),
    decreases j - i,
{
    if i < j {
        lemma_highlighted_before_grows(spans, i, j - 1);
    }
}

/// A highlighted span that has `n` highlighted spans before it, for any `n`
/// below the count of highlighted spans among the first `j`.
proof fn lemma_span_with_count(spans: Seq<SpanModel>, j: int, n: nat) -> (i: int)
    requires
        0 <= j <= spans.len(),
        n < highlighted_before(spans, j),
    ensures
        0 <= i < j,
        spans[i].is_highlighted,
        highlighted_before(spans, i) == n,
    decreases j,
{
    if spans[j - 1].is_highlighted && highlighted_before(spans, j - 1) == n {
        j - 1
    } else {
        lemma_span_with_count(spans, j - 1, n)
    }
}

/// The number of highlighted spans in `spans`.
pub open spec fn highlighted_count(spans: Seq<SpanModel>) -> nat {
    highlighted_before(spans, spans.len() as int)
}

/// Whether some highlighted span of `spans` carries the index `n`.
pub open spec fn carries_index(spans: Seq<SpanModel>, n: nat) -> bool {
    exists|j: int|
        0 <= j < spans.len() && (#[trigger] spans[j]).is_highlighted && spans[j].index == n
}

/// Numbered spans carry the ordinals of their highlighted spans: with `k`
/// highlighted spans the indices are exactly `0..k`, in order from the left,
/// and every other span is as it was given.
pub proof fn lemma_indices_count_up(spans: Seq<SpanModel>)
    ensures
        numbered(spans).len() == spans.len(),
        forall|j: int|
            0 <= j < spans.len() && !spans[j].is_highlighted ==> #[trigger] numbered(spans)[j]
                == spans[j],
        forall|j: int|
            0 <= j < spans.len() && spans[j].is_highlighted ==> {
                &&& (#[trigger] numbered(spans)[j]).is_highlighted
                &&& numbered(spans)[j].text == spans[j].text
                &&& numbered(spans)[j].index < highlighted_count(spans)
            },
        forall|i: int, j: int|
            0 <= i < j < spans.len() && spans[i].is_highlighted && spans[j].is_highlighted
                ==> (#[trigger] numbered(spans)[i]).index < (#[trigger] numbered(spans)[j]).index,
        forall|n: nat| n < highlighted_count(spans) ==> #[trigger] carries_index(numbered(spans), n),
        highlighted_count(numbered(spans)) == highlighted_count(spans),
{
    let len = spans.len() as int;
    assert forall|j: int| 0 <= j < len && spans[j].is_highlighted implies (#[trigger] numbered(
        spans,
    )[j]).index < highlighted_count(spans) by {
        lemma_highlighted_before_grows(spans, j, len);
    }
    assert forall|i: int, j: int|
        0 <= i < j < len && spans[i].is_highlighted && spans[j].is_highlighted implies (
    #[trigger] numbered(spans)[i]).index < (#[trigger] numbered(spans)[j]).index by {
        lemma_highlighted_before_grows(spans, i, j);
    }
    assert forall|n: nat| n < highlighted_count(spans) implies #[trigger] carries_index(
        numbered(spans),
        n,
    ) by {
        let j = lemma_span_with_count(spans, len, n);
        assert(numbered(spans)[j].is_highlighted && numbered(spans)[j].index == n);
    }
    lemma_highlighted_before_prefix(numbered(spans), spans, len);
}

/// Whether no run of `runs` is empty and no two neighbours share a
/// highlight state.
pub open spec fn well_grouped(runs: Seq<Run>) -> bool {
    &&& forall|j: int| 0 <= j < runs.len() ==> (#[trigger] runs[j]).text.len() > 0
    &&& forall|j: int|
        0 <= j < runs.len() - 1 ==> (#[trigger] runs[j]).highlighted != runs[j + 1].highlighted
}

/// Adding a stretch keeps runs well grouped.
proof fn lemma_append_run_grouped(runs: Seq<Run>, chunk: Seq<char>, highlighted: bool)
    requires
        well_grouped(runs),
    ensures
        well_grouped(append_run(runs, chunk, highlighted)),
{
    let after = append_run(runs, chunk, highlighted);
    assert forall|j: int| 0 <= j < after.len() implies (#[trigger] after[j]).text.len() > 0 by {
        if j < runs.len() - 1 {
            assert(after[j] == runs[j]);
        }
    }
    assert forall|j: int| 0 <= j < after.len() - 1 implies (#[trigger] after[j]).highlighted
        != after[j + 1].highlighted by {
        if j < runs.len() - 1 {
            assert(after[j] == runs[j]);
            assert(after[j + 1].highlighted == runs[j + 1].highlighted);
        }
    }
}

/// Spans are maximal: the runs of any text are never empty, and neighbours
/// always differ in highlight state, so no two spans could be merged.
pub proof fn lemma_runs_are_maximal(lits: Seq<(char, bool)>)
    ensures
        well_grouped(runs_of(lits)),
    decreases lits.len(),
{
    if lits.len() > 0 {
        lemma_runs_are_maximal(lits.drop_last());
        lemma_append_run_grouped(runs_of(lits.drop_last()), seq![lits.last().0], lits.last().1);
    }
}

/// Counts the highlighted spans of `spans`.
pub fn count_highlighted(spans: &Vec<HighlightTextSpan>) -> (count: u64)
    ensures
        count == highlighted_count(spans_view(spans@)),
{
    let ghost given = spans_view(spans@);
    let mut count: u64 = 0;
    let mut j: usize = 0;
    while j < spans.len()
        invariant
            j <= spans.len(),
            given == spans_view(spans@),
            count == highlighted_before(given, j as int),
        decreases spans.len() - j,
    {
        proof {
            lemma_highlighted_before_bound(given, j as int);
            assert(given[j as int] == spans@[j as int]@);
        }
        if spans[j].is_highlighted {
            count += 1;
        }
        j += 1;
    }
    count
}

} // verus!
