//! Splitting Markdown text into heading-delimited fragments.
//!
//! A fragment runs from one ATX heading line to the line before the next one;
//! the text ahead of the first heading forms a fragment of its own. Headings
//! inside fenced code blocks do not count; fences follow CommonMark. Every fragment is trimmed, and a
//! span that holds only whitespace is dropped.
use vstd::prelude::*;
use vstd::string::StrSliceExecFns;
use vstd::string::StringExecFns;

use crate::error::Error;
use crate::text::{
    blank, chars_of, is_blank, lemma_non_blank_concat, lemma_non_blank_trim, lemma_trim_empty,
    lemma_trim_end_shape, lemma_trim_idempotent, lemma_trimmed_starts_non_blank,
    non_blank, trim, trim_end, trim_start,
};

verus! {

/// Number of consecutive `c` characters in `t` from position `i` on.
pub open spec fn run_of(t: Seq<char>, i: int, c: char) -> nat
    decreases t.len() - i,
{
    if 0 <= i < t.len() && t[i] == c {
        1 + run_of(t, i + 1, c)
    } else {
        0
    }
}

/// Whether the rest of the line from position `j` on holds only whitespace.
pub open spec fn line_rest_blank(t: Seq<char>, j: int) -> bool
    decreases t.len() - j,
{
    if j < 0 || j >= t.len() || t[j] == '\n' {
        true
    } else {
        is_blank(t[j]) && line_rest_blank(t, j + 1)
    }
}

/// Whether the line that starts at `i` is an ATX heading: one to six `#`
/// followed by a space or a tab, or by nothing but whitespace up to the end
/// of the line.
pub open spec fn heading_at(t: Seq<char>, i: int) -> bool {
    let k = run_of(t, i, '#');
    &&& 1 <= k <= 6
    &&& ((i + k < t.len() && (t[i + k] == ' ' || t[i + k] == '\t')) || line_rest_blank(t, i + k))
}

/// Whether the rest of the line from position `j` on holds no `c`.
pub open spec fn line_lacks(t: Seq<char>, j: int, c: char) -> bool
    decreases t.len() - j,
{
    if j < 0 || j >= t.len() || t[j] == '\n' {
        true
    } else {
        t[j] != c && line_lacks(t, j + 1, c)
    }
}

/// Whether the rest of the line from position `j` on holds only spaces and tabs.
pub open spec fn line_blank(t: Seq<char>, j: int) -> bool
    decreases t.len() - j,
{
    if j < 0 || j >= t.len() || t[j] == '\n' {
        true
    } else {
        (t[j] == ' ' || t[j] == '\t' || t[j] == '\r') && line_blank(t, j + 1)
    }
}

/// The fence character and length when the line that starts at `i` opens a
/// fenced code block: up to three spaces, then at least three backticks or
/// tildes; after backticks the line holds no further backtick.
pub open spec fn fence_open_at(t: Seq<char>, i: int) -> Option<(char, nat)> {
    let p = i + run_of(t, i, ' ');
    if run_of(t, i, ' ') <= 3 && 0 <= p < t.len() && (t[p] == '`' || t[p] == '~') && run_of(
        t,
        p,
        t[p],
    ) >= 3 && (t[p] == '~' || line_lacks(t, p + run_of(t, p, t[p]), '`')) {
        Some((t[p], run_of(t, p, t[p])))
    } else {
        None
    }
}

/// Whether the line that starts at `i` closes a fenced code block opened with
/// `n` characters `c`: up to three spaces, at least `n` characters `c`, then
/// only spaces and tabs.
pub open spec fn fence_closes_at(t: Seq<char>, i: int, c: char, n: nat) -> bool {
    let p = i + run_of(t, i, ' ');
    &&& run_of(t, i, ' ') <= 3
    &&& run_of(t, p, c) >= n
    &&& line_blank(t, p + run_of(t, p, c))
}

/// Whether position `i` is the start of a line.
pub open spec fn line_start(t: Seq<char>, i: int) -> bool {
    i == 0 || (0 < i <= t.len() && t[i - 1] == '\n')
}

/// The fence state after the line that starts at `i`, given the state before it.
pub open spec fn fence_after(t: Seq<char>, i: int, fence: Option<(char, nat)>) -> Option<
    (char, nat),
> {
    match fence {
        Some((c, n)) => if fence_closes_at(t, i, c, n) {
            None
        } else {
            fence
        },
        None => if heading_at(t, i) {
            None
        } else {
            fence_open_at(t, i)
        },
    }
}

/// Whether the line that starts at `i` begins a new fragment.
pub open spec fn boundary_at(t: Seq<char>, i: int, fence: Option<(char, nat)>) -> bool {
    fence is None && heading_at(t, i)
}

/// What a span contributes to the fragments: itself trimmed, or nothing when
/// it holds only whitespace.
pub open spec fn piece(p: Seq<char>) -> Seq<Seq<char>> {
    if trim(p).len() == 0 {
        seq![]
    } else {
        seq![trim(p)]
    }
}

/// The fragments of `t` from position `i` on, where the current fragment
/// started at `start` and `fence` is the fenced-block state.
pub open spec fn fragments_from(t: Seq<char>, i: int, fence: Option<(char, nat)>, start: int) -> Seq<
    Seq<char>,
>
    decreases t.len() - i,
{
    if i >= t.len() || i < 0 {
        piece(t.subrange(start, t.len() as int))
    } else if !line_start(t, i) {
        fragments_from(t, i + 1, fence, start)
    } else if boundary_at(t, i, fence) {
        piece(t.subrange(start, i)) + fragments_from(t, i + 1, None, i)
    } else {
        fragments_from(t, i + 1, fence_after(t, i, fence), start)
    }
}

/// The fragments of `t`, in order.
pub open spec fn split_text(t: Seq<char>) -> Seq<Seq<char>> {
    fragments_from(t, 0, None, 0)
}

/// The character sequences that a vector of strings holds.
pub open spec fn views(v: Seq<String>) -> Seq<Seq<char>> {
    v.map_values(|s: String| s@)
}

/// The fence state as a mathematical value.
pub open spec fn fence_view(f: Option<(char, usize)>) -> Option<(char, nat)> {
    match f {
        Some((c, n)) => Some((c, n as nat)),
        None => None,
    }
}

/// Number of consecutive `c` characters in `t` from position `i` on.
fn count_run(t: &Vec<char>, i: usize, c: char) -> (r: usize)
    requires
        i <= t.len(),
    ensures
        r == run_of(t@, i as int, c),
        i + r <= t.len(),
{
    let mut j: usize = i;
    while j < t.len() && t[j] == c
        invariant
            i <= j <= t.len(),
            run_of(t@, i as int, c) == (j - i) + run_of(t@, j as int, c),
        decreases t.len() - j,
    {
        j = j + 1;
    }
    j - i
}

/// Whether the rest of the line from position `j` on holds no `c`.
fn lacks_to_line_end(t: &Vec<char>, j: usize, c: char) -> (r: bool)
    requires
        j <= t.len(),
    ensures
        r == line_lacks(t@, j as int, c),
{
    let mut k: usize = j;
    while k < t.len() && t[k] != '\n'
        invariant
            j <= k <= t.len(),
            line_lacks(t@, j as int, c) == line_lacks(t@, k as int, c),
        decreases t.len() - k,
    {
        assert(line_lacks(t@, k as int, c) == (t@[k as int] != c && line_lacks(t@, k + 1, c)));
        if t[k] == c {
            return false;
        }
        k = k + 1;
    }
    assert(line_lacks(t@, k as int, c));
    true
}

/// Whether the rest of the line from position `j` on holds only spaces and tabs.
fn blank_to_line_end(t: &Vec<char>, j: usize) -> (r: bool)
    requires
        j <= t.len(),
    ensures
        r == line_blank(t@, j as int),
{
    let mut k: usize = j;
    while k < t.len() && t[k] != '\n'
        invariant
            j <= k <= t.len(),
            line_blank(t@, j as int) == line_blank(t@, k as int),
        decreases t.len() - k,
    {
        assert(line_blank(t@, k as int) == ((t@[k as int] == ' ' || t@[k as int] == '\t'
            || t@[k as int] == '\r') && line_blank(t@, k + 1)));
        if !(t[k] == ' ' || t[k] == '\t' || t[k] == '\r') {
            return false;
        }
        k = k + 1;
    }
    assert(line_blank(t@, k as int));
    true
}

/// Whether the line that starts at `i` is an ATX heading.
fn is_heading(t: &Vec<char>, i: usize) -> (r: bool)
    requires
        i <= t.len(),
    ensures
        r == heading_at(t@, i as int),
{
    let k = count_run(t, i, '#');
    let j: usize = i + k;
    1 <= k && k <= 6 && ((j < t.len() && (t[j] == ' ' || t[j] == '\t')) || rest_blank_to_line_end(
        t,
        j,
    ))
}

/// Whether the rest of the line from position `j` on holds only whitespace.
fn rest_blank_to_line_end(t: &Vec<char>, j: usize) -> (r: bool)
    requires
        j <= t.len(),
    ensures
        r == line_rest_blank(t@, j as int),
{
    let mut k: usize = j;
    while k < t.len() && t[k] != '\n'
        invariant
            j <= k <= t.len(),
            line_rest_blank(t@, j as int) == line_rest_blank(t@, k as int),
        decreases t.len() - k,
    {
        assert(line_rest_blank(t@, k as int) == (is_blank(t@[k as int]) && line_rest_blank(
            t@,
            k + 1,
        )));
        if !blank(t[k]) {
            return false;
        }
        k = k + 1;
    }
    assert(line_rest_blank(t@, k as int));
    true
}

/// The fence character and length when the line that starts at `i` opens a
/// fenced code block.
fn fence_open(t: &Vec<char>, i: usize) -> (r: Option<(char, usize)>)
    requires
        i <= t.len(),
    ensures
        fence_view(r) == fence_open_at(t@, i as int),
{
    let indent = count_run(t, i, ' ');
    let p: usize = i + indent;
    if indent > 3 || p >= t.len() {
        return None;
    }
    let c = t[p];
    if c != '`' && c != '~' {
        return None;
    }
    let n = count_run(t, p, c);
    if n < 3 {
        return None;
    }
    if c == '`' && !lacks_to_line_end(t, p + n, '`') {
        return None;
    }
    Some((c, n))
}

/// Whether the line that starts at `i` closes a fenced code block opened with
/// `n` characters `c`.
fn fence_closes(t: &Vec<char>, i: usize, c: char, n: usize) -> (r: bool)
    requires
        i <= t.len(),
    ensures
        r == fence_closes_at(t@, i as int, c, n as nat),
{
    let indent = count_run(t, i, ' ');
    let p: usize = i + indent;
    let m = count_run(t, p, c);
    indent <= 3 && m >= n && blank_to_line_end(t, p + m)
}

/// Pushes the trimmed span `text[from..to]` onto `out`, unless it is blank.
fn push_piece(text: &str, t: &Vec<char>, from: usize, to: usize, out: &mut Vec<String>)
    requires
        t@ == text@,
        from <= to <= t.len(),
    ensures
        views(final(out)@) == views(old(out)@) + piece(t@.subrange(from as int, to as int)),
{
    let ghost s = t@.subrange(from as int, to as int);
    let mut lo: usize = from;
    while lo < to && blank(t[lo])
        invariant
            from <= lo <= to <= t.len(),
            trim_start(s) == trim_start(t@.subrange(lo as int, to as int)),
        decreases to - lo,
    {
        assert(t@.subrange(lo as int, to as int).drop_first() =~= t@.subrange(
            lo + 1,
            to as int,
        ));
        lo = lo + 1;
    }
    assert(trim_start(s) == t@.subrange(lo as int, to as int));
    let mut hi: usize = to;
    while hi > lo && blank(t[hi - 1])
        invariant
            from <= lo <= hi <= to <= t.len(),
            trim(s) == trim_end(t@.subrange(lo as int, hi as int)),
        decreases hi - lo,
    {
        assert(t@.subrange(lo as int, hi as int).drop_last() =~= t@.subrange(
            lo as int,
            hi - 1,
        ));
        hi = hi - 1;
    }
    assert(trim(s) == t@.subrange(lo as int, hi as int));
    if lo < hi {
        let f = String::from_str(text.substring_char(lo, hi));
        out.push(f);
        assert(views(out@) =~= views(old(out)@) + piece(s));
    } else {
        assert(views(out@) =~= views(old(out)@) + piece(s));
    }
}

/// Splits `text` into its heading-delimited fragments.
pub fn split(text: &str) -> (r: Result<Vec<String>, Error>)
    ensures
        text@.len() == 0 <==> r is Err,
        r is Err ==> r->Err_0 is EmptyInput,
        r is Ok ==> views(r->Ok_0@) == split_text(text@),
{
    let t = chars_of(text);
    if t.len() == 0 {
        return Err(Error::EmptyInput);
    }
    let mut out: Vec<String> = Vec::new();
    let mut fence: Option<(char, usize)> = None;
    let mut start: usize = 0;
    let mut i: usize = 0;
    while i < t.len()
        invariant
            t@ == text@,
            start <= i <= t.len(),
            views(out@) + fragments_from(t@, i as int, fence_view(fence), start as int)
                == split_text(t@),
        decreases t.len() - i,
    {
        if i == 0 || t[i - 1] == '\n' {
            let heading = is_heading(&t, i);
            match fence {
                Some((c, n)) => {
                    if fence_closes(&t, i, c, n) {
                        fence = None;
                    }
                },
                None => {
                    if heading {
                        let ghost before = views(out@);
                        push_piece(text, &t, start, i, &mut out);
                        assert(views(out@) + fragments_from(t@, i + 1, None, i as int) =~= before
                            + (piece(t@.subrange(start as int, i as int)) + fragments_from(
                            t@,
                            i + 1,
                            None,
                            i as int,
                        )));
                        start = i;
                    } else {
                        fence = fence_open(&t, i);
                    }
                },
            }
        }
        i = i + 1;
    }
    push_piece(text, &t, start, t.len(), &mut out);
    Ok(out)
}

/// Concatenation of sequences distributes over appending lists of them.
proof fn lemma_flatten_concat(a: Seq<Seq<char>>, b: Seq<Seq<char>>)
    ensures
        (a + b).flatten() == a.flatten() + b.flatten(),
    decreases a.len(),
{
    if a.len() == 0 {
        assert(a + b =~= b);
        assert(a.flatten() + b.flatten() =~= b.flatten());
    } else {
        assert((a + b).drop_first() =~= a.drop_first() + b);
        lemma_flatten_concat(a.drop_first(), b);
        assert(a[0] + (a.drop_first().flatten() + b.flatten()) =~= a[0] + a.drop_first().flatten()
            + b.flatten());
    }
}

/// A span's contribution keeps all of its non-whitespace characters.
proof fn lemma_piece_content(p: Seq<char>)
    ensures
        non_blank(piece(p).flatten()) == non_blank(p),
{
    lemma_non_blank_trim(p);
    if trim(p).len() == 0 {
        lemma_trim_empty(p);
        assert(non_blank(p) =~= seq![]);
    } else {
        assert(piece(p).drop_first() =~= Seq::<Seq<char>>::empty());
        assert(piece(p).drop_first().flatten() =~= Seq::<char>::empty());
        assert(piece(p).flatten() =~= trim(p));
    }
}

proof fn lemma_fragments_content(t: Seq<char>, i: int, fence: Option<(char, nat)>, start: int)
    requires
        0 <= start <= i <= t.len(),
    ensures
        non_blank(fragments_from(t, i, fence, start).flatten()) == non_blank(
            t.subrange(start, t.len() as int),
        ),
    decreases t.len() - i,
{
    if i >= t.len() {
        lemma_piece_content(t.subrange(start, t.len() as int));
    } else if !line_start(t, i) {
        lemma_fragments_content(t, i + 1, fence, start);
    } else if boundary_at(t, i, fence) {
        let p = t.subrange(start, i);
        let rest = fragments_from(t, i + 1, None, i);
        lemma_fragments_content(t, i + 1, None, i);
        lemma_flatten_concat(piece(p), rest);
        lemma_non_blank_concat(piece(p).flatten(), rest.flatten());
        lemma_piece_content(p);
        assert(t.subrange(start, t.len() as int) =~= p + t.subrange(i, t.len() as int));
        lemma_non_blank_concat(p, t.subrange(i, t.len() as int));
    } else {
        lemma_fragments_content(t, i + 1, fence_after(t, i, fence), start);
    }
}

/// Splitting loses and repeats nothing: the fragments, put back together,
/// hold every non-whitespace character of the text exactly once and in order.
pub proof fn lemma_split_keeps_content(t: Seq<char>)
    ensures
        non_blank(split_text(t).flatten()) == non_blank(t),
{
    lemma_fragments_content(t, 0, None, 0);
    assert(t.subrange(0, t.len() as int) =~= t);
}

/// Whether no line from position `i` on, but the first line of the text,
/// starts a new fragment.
pub open spec fn no_boundary_from(t: Seq<char>, i: int, fence: Option<(char, nat)>) -> bool
    decreases t.len() - i,
{
    if i >= t.len() || i < 0 {
        true
    } else if !line_start(t, i) {
        no_boundary_from(t, i + 1, fence)
    } else {
        (i == 0 || !boundary_at(t, i, fence)) && no_boundary_from(
            t,
            i + 1,
            fence_after(t, i, fence),
        )
    }
}

proof fn lemma_single_piece(t: Seq<char>, i: int, fence: Option<(char, nat)>, start: int)
    requires
        0 <= start <= i <= t.len(),
        i == 0 ==> start == 0,
        no_boundary_from(t, i, fence),
    ensures
        fragments_from(t, i, fence, start) == piece(t.subrange(start, t.len() as int)),
    decreases t.len() - i,
{
    if i >= t.len() {
    } else if !line_start(t, i) {
        lemma_single_piece(t, i + 1, fence, start);
    } else if boundary_at(t, i, fence) {
        lemma_single_piece(t, i + 1, None, i);
        assert(t.subrange(start, i).len() == 0);
        assert(trim(t.subrange(start, i)).len() == 0);
        assert(piece(t.subrange(start, i)) + piece(t.subrange(i, t.len() as int)) =~= piece(
            t.subrange(start, t.len() as int),
        ));
    } else {
        lemma_single_piece(t, i + 1, fence_after(t, i, fence), start);
    }
}

/// A text in which no line but possibly the first starts a new fragment
/// splits into exactly one fragment, the text trimmed, when it holds anything
/// but whitespace.
pub proof fn lemma_split_single_fragment(t: Seq<char>)
    requires
        no_boundary_from(t, 0, None),
        trim(t).len() > 0,
    ensures
        split_text(t) == seq![trim(t)],
{
    lemma_single_piece(t, 0, None, 0);
    assert(t.subrange(0, t.len() as int) =~= t);
}

/// Whether every element of `s` is non-empty and has no leading or trailing
/// whitespace.
pub open spec fn all_trimmed(s: Seq<Seq<char>>) -> bool {
    forall|i: int| 0 <= i < s.len() ==> (#[trigger] s[i]).len() > 0 && trim(s[i]) == s[i]
}

proof fn lemma_piece_trimmed(p: Seq<char>)
    ensures
        all_trimmed(piece(p)),
{
    lemma_trim_idempotent(p);
}

proof fn lemma_fragments_trimmed(t: Seq<char>, i: int, fence: Option<(char, nat)>, start: int)
    ensures
        all_trimmed(fragments_from(t, i, fence, start)),
    decreases t.len() - i,
{
    if i >= t.len() || i < 0 {
        lemma_piece_trimmed(t.subrange(start, t.len() as int));
    } else if !line_start(t, i) {
        lemma_fragments_trimmed(t, i + 1, fence, start);
    } else if boundary_at(t, i, fence) {
        let a = piece(t.subrange(start, i));
        let b = fragments_from(t, i + 1, None, i);
        lemma_piece_trimmed(t.subrange(start, i));
        lemma_fragments_trimmed(t, i + 1, None, i);
        assert forall|j: int| 0 <= j < (a + b).len() implies (#[trigger] (a + b)[j]).len() > 0
            && trim((a + b)[j]) == (a + b)[j] by {
            if j < a.len() {
                assert((a + b)[j] == a[j]);
            } else {
                assert((a + b)[j] == b[j - a.len()]);
            }
        };
    } else {
        lemma_fragments_trimmed(t, i + 1, fence_after(t, i, fence), start);
    }
}

/// Every fragment is non-empty and trimmed.
pub proof fn lemma_split_fragments_trimmed(t: Seq<char>)
    ensures
        all_trimmed(split_text(t)),
{
    lemma_fragments_trimmed(t, 0, None, 0);
}

/// The fence state that scanning `t` reaches at `i`, having started at the
/// line at `s` with no open fence.
spec fn state_at(t: Seq<char>, s: int, i: int) -> Option<(char, nat)>
    decreases i - s,
{
    if i <= s {
        None
    } else {
        let p = state_at(t, s, i - 1);
        if line_start(t, i - 1) {
            fence_after(t, i - 1, p)
        } else {
            p
        }
    }
}

/// Whether scanning `t` from the line at `s` up to `i` meets no boundary
/// after that first line.
spec fn clear(t: Seq<char>, s: int, i: int) -> bool
    decreases i - s,
{
    if i <= s + 1 {
        true
    } else {
        clear(t, s, i - 1) && !(line_start(t, i - 1) && boundary_at(
            t,
            i - 1,
            state_at(t, s, i - 1),
        ))
    }
}

/// Whether a fence state's character is no line break.
spec fn fence_ok(g: Option<(char, nat)>) -> bool {
    match g {
        Some((c, _)) => c != '\n',
        None => true,
    }
}

proof fn lemma_state_ok(t: Seq<char>, s: int, i: int)
    ensures
        fence_ok(state_at(t, s, i)),
    decreases i - s,
{
    if i > s {
        lemma_state_ok(t, s, i - 1);
    }
}

proof fn lemma_clear_at(t: Seq<char>, s: int, e: int, p: int)
    requires
        clear(t, s, e),
        s < p < e,
    ensures
        !(line_start(t, p) && boundary_at(t, p, state_at(t, s, p))),
    decreases e - p,
{
    if p < e - 1 {
        lemma_clear_at(t, s, e - 1, p);
    }
}

proof fn lemma_run_bound(t: Seq<char>, i: int, c: char)
    requires
        0 <= i <= t.len(),
    ensures
        i + run_of(t, i, c) <= t.len(),
    decreases t.len() - i,
{
    if i < t.len() && t[i] == c {
        lemma_run_bound(t, i + 1, c);
    }
}

proof fn lemma_run_same(t: Seq<char>, s: int, m: int, x: int, q: int, c: char)
    requires
        0 <= s,
        s + m <= t.len(),
        0 <= x <= q < m,
        t[s + q] == '\n',
        c != '\n',
    ensures
        run_of(t.subrange(s, s + m), x, c) == run_of(t, s + x, c),
        x + run_of(t, s + x, c) <= q,
    decreases q - x,
{
    let f = t.subrange(s, s + m);
    assert(f[x] == t[s + x]);
    if t[s + x] == c {
        lemma_run_same(t, s, m, x + 1, q, c);
    }
}

proof fn lemma_line_rest_same(t: Seq<char>, s: int, m: int, x: int, q: int, c: char)
    requires
        0 <= s,
        s + m <= t.len(),
        0 <= x <= q < m,
        t[s + q] == '\n',
    ensures
        line_lacks(t.subrange(s, s + m), x, c) == line_lacks(t, s + x, c),
        line_blank(t.subrange(s, s + m), x) == line_blank(t, s + x),
        line_rest_blank(t.subrange(s, s + m), x) == line_rest_blank(t, s + x),
    decreases q - x,
{
    let f = t.subrange(s, s + m);
    assert(f[x] == t[s + x]);
    if x < q && t[s + x] != '\n' {
        lemma_line_rest_same(t, s, m, x + 1, q, c);
    }
}

/// A line that ends inside the fragment reads the same there as in the text.
proof fn lemma_line_same(t: Seq<char>, s: int, m: int, x: int, q: int, g: Option<(char, nat)>)
    requires
        0 <= s,
        s + m <= t.len(),
        0 <= x <= q < m,
        t[s + q] == '\n',
        fence_ok(g),
    ensures
        heading_at(t.subrange(s, s + m), x) == heading_at(t, s + x),
        fence_after(t.subrange(s, s + m), x, g) == fence_after(t, s + x, g),
{
    let f = t.subrange(s, s + m);
    lemma_run_same(t, s, m, x, q, '#');
    let k = run_of(t, s + x, '#');
    assert(f[x + k] == t[s + x + k]);
    lemma_line_rest_same(t, s, m, x + k, q, '`');
    lemma_run_same(t, s, m, x, q, ' ');
    let p = x + run_of(t, s + x, ' ');
    assert(f[p] == t[s + p]);
    if t[s + p] == '`' || t[s + p] == '~' {
        lemma_run_same(t, s, m, p, q, t[s + p]);
        lemma_line_rest_same(t, s, m, p + run_of(t, s + p, t[s + p]), q, '`');
    }
    match g {
        Some((c, n)) => {
            lemma_run_same(t, s, m, p, q, c);
            lemma_line_rest_same(t, s, m, p + run_of(t, s + p, c), q, '`');
        },
        None => {},
    }
}

proof fn lemma_tail_rest_blank(t: Seq<char>, z: int, e: int)
    requires
        0 <= z <= e <= t.len(),
        forall|k: int| z <= k < e ==> is_blank(#[trigger] t[k]),
        e < t.len() ==> (z < e && t[e - 1] == '\n'),
    ensures
        line_rest_blank(t, z),
    decreases e - z,
{
    if z < e && t[z] != '\n' {
        lemma_tail_rest_blank(t, z + 1, e);
    }
}

proof fn lemma_run_last(t: Seq<char>, s: int, m: int, e: int, y: int)
    requires
        0 <= s,
        0 <= y <= m,
        s + m <= e <= t.len(),
        forall|k: int| s + m <= k < e ==> is_blank(#[trigger] t[k]),
        e < t.len() ==> s + m < e,
    ensures
        run_of(t.subrange(s, s + m), y, '#') == run_of(t, s + y, '#'),
    decreases m - y,
{
    let f = t.subrange(s, s + m);
    if y < m {
        assert(f[y] == t[s + y]);
        if t[s + y] == '#' {
            lemma_run_last(t, s, m, e, y + 1);
        }
    } else if s + m < t.len() {
        assert(is_blank(t[s + m]));
    }
}

proof fn lemma_rest_blank_last(t: Seq<char>, s: int, m: int, e: int, y: int)
    requires
        0 <= s,
        0 <= y <= m,
        s + m <= e <= t.len(),
        forall|k: int| s + m <= k < e ==> is_blank(#[trigger] t[k]),
        e < t.len() ==> (s + m < e && t[e - 1] == '\n'),
        forall|k: int| y <= k < m ==> #[trigger] t[s + k] != '\n',
        line_rest_blank(t.subrange(s, s + m), y),
    ensures
        line_rest_blank(t, s + y),
    decreases m - y,
{
    let f = t.subrange(s, s + m);
    if y < m {
        assert(f[y] == t[s + y]);
        lemma_rest_blank_last(t, s, m, e, y + 1);
    } else {
        lemma_tail_rest_blank(t, s + m, e);
    }
}

/// A heading on the last line of a fragment, which trimming may have cut
/// short, is a heading in the text too.
proof fn lemma_last_line_heading(t: Seq<char>, s: int, m: int, e: int, x: int)
    requires
        0 <= s,
        0 <= x < m,
        s + m <= e <= t.len(),
        forall|k: int| s + m <= k < e ==> is_blank(#[trigger] t[k]),
        e < t.len() ==> (s + m < e && t[e - 1] == '\n'),
        forall|k: int| x <= k < m ==> #[trigger] t[s + k] != '\n',
        heading_at(t.subrange(s, s + m), x),
    ensures
        heading_at(t, s + x),
{
    let f = t.subrange(s, s + m);
    lemma_run_last(t, s, m, e, x);
    lemma_run_bound(f, x, '#');
    let k = run_of(t, s + x, '#');
    if x + k < m && (f[x + k] == ' ' || f[x + k] == '\t') {
        assert(f[x + k] == t[s + x + k]);
    } else {
        lemma_rest_blank_last(t, s, m, e, x + k);
    }
}

proof fn lemma_no_line_start_after(f: Seq<char>, y: int, g: Option<(char, nat)>)
    requires
        1 <= y,
        forall|k: int| y - 1 <= k < f.len() ==> f[k] != '\n',
    ensures
        no_boundary_from(f, y, g),
    decreases f.len() - y,
{
    if y < f.len() {
        lemma_no_line_start_after(f, y + 1, g);
    }
}

proof fn lemma_fragment_clear(t: Seq<char>, s: int, m: int, e: int, j: int)
    requires
        0 <= s,
        1 <= m,
        s + m <= e <= t.len(),
        0 <= j <= m,
        forall|k: int| s + m <= k < e ==> is_blank(#[trigger] t[k]),
        e < t.len() ==> (s + m < e && t[e - 1] == '\n'),
        s == 0 || line_start(t, s),
        clear(t, s, e),
    ensures
        no_boundary_from(t.subrange(s, s + m), j, state_at(t, s, s + j)),
    decreases m - j,
{
    let f = t.subrange(s, s + m);
    let g = state_at(t, s, s + j);
    if j < m {
        if j > 0 {
            assert(f[j - 1] == t[s + j - 1]);
        }
        assert(line_start(f, j) == line_start(t, s + j));
        lemma_fragment_clear(t, s, m, e, j + 1);
        if line_start(f, j) {
            lemma_state_ok(t, s, s + j);
            if j > 0 {
                lemma_clear_at(t, s, e, s + j);
            }
            if exists|q: int| j <= q < m && f[q] == '\n' {
                let q = choose|q: int| j <= q < m && f[q] == '\n';
                assert(t[s + q] == f[q]);
                lemma_line_same(t, s, m, j, q, g);
            } else {
                assert forall|k: int| j <= k < m implies #[trigger] t[s + k] != '\n' by {
                    assert(f[k] == t[s + k]);
                };
                lemma_no_line_start_after(f, j + 1, fence_after(f, j, g));
                if j > 0 && heading_at(f, j) {
                    lemma_last_line_heading(t, s, m, e, j);
                }
            }
        }
    }
}

/// A span between two boundaries, trimmed, has no boundary after its first line.
proof fn lemma_piece_clear(t: Seq<char>, s: int, e: int)
    requires
        0 <= s <= e <= t.len(),
        clear(t, s, e),
        s == 0 || line_start(t, s),
        s < e ==> !is_blank(t[s]),
        e < t.len() ==> (e == s || (0 < e && t[e - 1] == '\n')),
    ensures
        trim(t.subrange(s, e)).len() > 0 ==> no_boundary_from(trim(t.subrange(s, e)), 0, None),
{
    let u = t.subrange(s, e);
    if trim(u).len() > 0 {
        assert(u.len() > 0);
        assert(trim_start(u) == u);
        lemma_trim_end_shape(u);
        let m = trim(u).len() as int;
        assert(trim(u) =~= t.subrange(s, s + m));
        assert forall|k: int| s + m <= k < e implies is_blank(#[trigger] t[k]) by {
            assert(u[k - s] == t[k]);
        };
        if e < t.len() {
            assert(u[e - s - 1] == t[e - 1]);
            assert(trim(u).last() == u[m - 1]);
        }
        lemma_fragment_clear(t, s, m, e, 0);
    }
}

proof fn lemma_fragments_clear(t: Seq<char>, i: int, fence: Option<(char, nat)>, start: int)
    requires
        0 <= start <= i <= t.len(),
        fence == state_at(t, start, i),
        clear(t, start, i),
        start == 0 || line_start(t, start),
        start == 0 ==> (t.len() == 0 || !is_blank(t[0])),
        start > 0 ==> heading_at(t, start),
    ensures
        forall|k: int|
            0 <= k < fragments_from(t, i, fence, start).len() ==> no_boundary_from(
                #[trigger] fragments_from(t, i, fence, start)[k],
                0,
                None,
            ),
    decreases t.len() - i,
{
    if start < t.len() && start > 0 {
        assert(t[start] == '#');
    }
    if i >= t.len() {
        let u = t.subrange(start, t.len() as int);
        lemma_piece_clear(t, start, t.len() as int);
        assert(piece(u).len() > 0 ==> piece(u)[0] == trim(u));
        assert(fragments_from(t, i, fence, start) == piece(u));
        assert forall|k: int| 0 <= k < piece(u).len() implies no_boundary_from(
            #[trigger] piece(u)[k],
            0,
            None,
        ) by {
            assert(k == 0);
        };
    } else if !line_start(t, i) {
        assert(state_at(t, start, i + 1) == fence);
        lemma_fragments_clear(t, i + 1, fence, start);
        assert(fragments_from(t, i, fence, start) == fragments_from(t, i + 1, fence, start));
    } else if boundary_at(t, i, fence) {
        let a = piece(t.subrange(start, i));
        let b = fragments_from(t, i + 1, None, i);
        lemma_piece_clear(t, start, i);
        assert(piece(t.subrange(start, i)).len() > 0 ==> piece(t.subrange(start, i))[0] == trim(
            t.subrange(start, i),
        ));
        if i > 0 {
            assert(t[i] == '#');
        }
        assert(state_at(t, i, i) == None::<(char, nat)>);
        assert(state_at(t, i, i + 1) == fence_after(t, i, None));
        lemma_fragments_clear(t, i + 1, None, i);
        assert(fragments_from(t, i, fence, start) == a + b);
        assert forall|k: int| 0 <= k < (a + b).len() implies no_boundary_from(
            #[trigger] (a + b)[k],
            0,
            None,
        ) by {
            if k < a.len() {
                assert((a + b)[k] == a[k]);
            } else {
                assert((a + b)[k] == b[k - a.len()]);
            }
        };
    } else {
        assert(state_at(t, start, i + 1) == fence_after(t, i, fence));
        lemma_fragments_clear(t, i + 1, fence_after(t, i, fence), start);
        assert(fragments_from(t, i, fence, start) == fragments_from(
            t,
            i + 1,
            fence_after(t, i, fence),
            start,
        ));
    }
}

/// Splitting a fragment again gives it back: for a trimmed text, no line of
/// a fragment after its first starts a new fragment, and each fragment splits
/// into exactly itself.
pub proof fn lemma_fragments_split_to_themselves(t: Seq<char>)
    requires
        trim(t) == t,
    ensures
        forall|k: int|
            0 <= k < split_text(t).len() ==> no_boundary_from(#[trigger] split_text(t)[k], 0, None)
                && split_text(split_text(t)[k]) == seq![split_text(t)[k]],
{
    if t.len() > 0 {
        lemma_trimmed_starts_non_blank(t);
    }
    lemma_fragments_clear(t, 0, None, 0);
    lemma_split_fragments_trimmed(t);
    assert forall|k: int| 0 <= k < split_text(t).len() implies no_boundary_from(
        #[trigger] split_text(t)[k],
        0,
        None,
    ) && split_text(split_text(t)[k]) == seq![split_text(t)[k]] by {
        let f = split_text(t)[k];
        lemma_split_single_fragment(f);
    };
}

} // verus!
