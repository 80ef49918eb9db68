//! Character-level helpers shared by the segmenter and the prompt builder.
use vstd::prelude::*;
use vstd::string::StrSliceExecFns;

verus! {

/// The characters that `char::is_whitespace` accepts, which is what `str::trim` strips.
pub open spec fn is_blank(c: char) -> bool {
    ('\u{9}' <= c && c <= '\u{d}') || c == ' ' || c == '\u{85}' || c == '\u{a0}'
        || c == '\u{1680}' || ('\u{2000}' <= c && c <= '\u{200a}') || c == '\u{2028}'
        || c == '\u{2029}' || c == '\u{202f}' || c == '\u{205f}' || c == '\u{3000}'
}

/// Tells whether `c` is a whitespace character.
pub fn blank(c: char) -> (r: bool)
    ensures
        r == is_blank(c),
{
    ('\u{9}' <= c && c <= '\u{d}') || c == ' ' || c == '\u{85}' || c == '\u{a0}'
        || c == '\u{1680}' || ('\u{2000}' <= c && c <= '\u{200a}') || c == '\u{2028}'
        || c == '\u{2029}' || c == '\u{202f}' || c == '\u{205f}' || c == '\u{3000}'
}

/// The characters of `s` with every whitespace character left out.
pub open spec fn non_blank(s: Seq<char>) -> Seq<char>
    decreases s.len(),
{
    if s.len() == 0 {
        s
    } else if is_blank(s[0]) {
        non_blank(s.drop_first())
    } else {
        seq![s[0]] + non_blank(s.drop_first())
    }
}

/// `s` without its leading whitespace.
pub open spec fn trim_start(s: Seq<char>) -> Seq<char>
    decreases s.len(),
{
    if s.len() > 0 && is_blank(s[0]) {
        trim_start(s.drop_first())
    } else {
        s
    }
}

/// `s` without its trailing whitespace.
pub open spec fn trim_end(s: Seq<char>) -> Seq<char>
    decreases s.len(),
{
    if s.len() > 0 && is_blank(s.last()) {
        trim_end(s.drop_last())
    } else {
        s
    }
}

/// `s` without leading and trailing whitespace, as `str::trim` gives it.
pub open spec fn trim(s: Seq<char>) -> Seq<char> {
    trim_end(trim_start(s))
}

/// Whether `p` occurs in `s` at position `i`.
pub open spec fn occurs_at(s: Seq<char>, p: Seq<char>, i: int) -> bool {
    0 <= i && i + p.len() <= s.len() && s.subrange(i, i + p.len()) == p
}

/// Whether `p` occurs anywhere in `s`.
pub open spec fn contains(s: Seq<char>, p: Seq<char>) -> bool {
    exists|i: int| occurs_at(s, p, i)
}

/// The characters of `s`, one per element.
pub fn chars_of(s: &str) -> (r: Vec<char>)
    ensures
        r@ == s@,
{
    broadcast use vstd::string::group_string_axioms;
    let mut r: Vec<char> = Vec::new();
    for c in it: s.chars()
        invariant
            r@ == it.seq().take(it.index() as int),
            it.seq() == s@,
    {
        r.push(c);
        assert(r@ == it.seq().take(it.index() + 1));
    }
    assert(r@ =~= s@);
    r
}

/// Whether `p` occurs in `s` at position `i`, for `s` and `p` as character vectors.
pub fn matches_at(s: &Vec<char>, p: &Vec<char>, i: usize) -> (r: bool)
    ensures
        r == occurs_at(s@, p@, i as int),
{
    if i > s.len() || p.len() > s.len() - i {
        return false;
    }
    let mut k: usize = 0;
    while k < p.len()
        invariant
            k <= p.len(),
            i + p.len() <= s.len(),
            forall|j: int| 0 <= j < k ==> s@[i + j] == p@[j],
        decreases p.len() - k,
    {
        if s[i + k] != p[k] {
            assert(s@.subrange(i as int, i + p.len())[k as int] != p@[k as int]);
            return false;
        }
        k = k + 1;
    }
    assert(s@.subrange(i as int, i + p.len()) =~= p@);
    true
}

/// Whether `p` occurs anywhere in `s`.
pub fn contains_chars(s: &Vec<char>, p: &Vec<char>) -> (r: bool)
    ensures
        r == contains(s@, p@),
{
    if p.len() == 0 {
        assert(s@.subrange(0, 0) =~= p@);
        assert(occurs_at(s@, p@, 0));
        return true;
    }
    if p.len() > s.len() {
        return false;
    }
    let mut i: usize = 0;
    while i <= s.len() - p.len()
        invariant
            1 <= p.len() <= s.len(),
            forall|j: int| 0 <= j < i ==> !occurs_at(s@, p@, j),
        decreases s.len() + 1 - i,
    {
        if matches_at(s, p, i) {
            return true;
        }
        i = i + 1;
    }
    assert forall|j: int| !occurs_at(s@, p@, j) by {
        if 0 <= j && j < i {
        }
    };
    false
}

/// Dropping whitespace distributes over concatenation.
pub proof fn lemma_non_blank_concat(a: Seq<char>, b: Seq<char>)
    ensures
        non_blank(a + b) == non_blank(a) + non_blank(b),
    decreases a.len(),
{
    if a.len() == 0 {
        assert(a + b =~= b);
        assert(non_blank(a) + non_blank(b) =~= non_blank(b));
    } else {
        assert((a + b).drop_first() =~= a.drop_first() + b);
        lemma_non_blank_concat(a.drop_first(), b);
        if !is_blank(a[0]) {
            assert(seq![a[0]] + non_blank(a.drop_first()) + non_blank(b) =~= seq![a[0]] + (
            non_blank(a.drop_first()) + non_blank(b)));
        }
    }
}

/// Trimming keeps every non-whitespace character.
pub proof fn lemma_non_blank_trim(s: Seq<char>)
    ensures
        non_blank(trim(s)) == non_blank(s),
{
    lemma_non_blank_trim_start(s);
    lemma_non_blank_trim_end(trim_start(s));
}

/// Leading whitespace holds no non-whitespace character.
pub proof fn lemma_non_blank_trim_start(s: Seq<char>)
    ensures
        non_blank(trim_start(s)) == non_blank(s),
    decreases s.len(),
{
    if s.len() > 0 && is_blank(s[0]) {
        lemma_non_blank_trim_start(s.drop_first());
    }
}

/// Trailing whitespace holds no non-whitespace character.
pub proof fn lemma_non_blank_trim_end(s: Seq<char>)
    ensures
        non_blank(trim_end(s)) == non_blank(s),
    decreases s.len(),
{
    if s.len() > 0 && is_blank(s.last()) {
        lemma_non_blank_trim_end(s.drop_last());
        assert(s =~= s.drop_last() + seq![s.last()]);
        lemma_non_blank_concat(s.drop_last(), seq![s.last()]);
        let one = seq![s.last()];
        assert(one.drop_first() =~= Seq::<char>::empty());
        assert(non_blank(one.drop_first()) =~= Seq::<char>::empty());
        assert(non_blank(one) =~= seq![]);
        assert(non_blank(s.drop_last()) + seq![] =~= non_blank(s.drop_last()));
    }
}

/// A sequence that trims to nothing holds no non-whitespace character.
pub proof fn lemma_trim_empty(s: Seq<char>)
    requires
        trim(s).len() == 0,
    ensures
        non_blank(s).len() == 0,
{
    lemma_non_blank_trim(s);
}

/// Trimming the end keeps a prefix, and drops only whitespace after it.
pub proof fn lemma_trim_end_shape(s: Seq<char>)
    ensures
        trim_end(s).len() <= s.len(),
        trim_end(s) == s.take(trim_end(s).len() as int),
        forall|k: int| trim_end(s).len() <= k < s.len() ==> is_blank(#[trigger] s[k]),
        trim_end(s).len() > 0 ==> !is_blank(trim_end(s).last()),
        trim_end(trim_end(s)) == trim_end(s),
    decreases s.len(),
{
    if s.len() > 0 && is_blank(s.last()) {
        lemma_trim_end_shape(s.drop_last());
        assert(s.drop_last().take(trim_end(s).len() as int) =~= s.take(trim_end(s).len() as int));
        assert forall|k: int| trim_end(s).len() <= k < s.len() implies is_blank(#[trigger] s[k]) by {
            if k < s.len() - 1 {
                assert(s.drop_last()[k] == s[k]);
            }
        };
    } else {
        assert(s.take(s.len() as int) =~= s);
    }
}

/// Trimming the start leaves a sequence that does not start with whitespace,
/// and a shorter one when `s` did.
pub proof fn lemma_trim_start_shape(s: Seq<char>)
    ensures
        trim_start(s).len() > 0 ==> !is_blank(trim_start(s)[0]),
        trim_start(s).len() <= s.len(),
        s.len() > 0 && is_blank(s[0]) ==> trim_start(s).len() < s.len(),
    decreases s.len(),
{
    if s.len() > 0 && is_blank(s[0]) {
        lemma_trim_start_shape(s.drop_first());
    }
}

/// A non-empty trimmed sequence does not start with whitespace.
pub proof fn lemma_trimmed_starts_non_blank(s: Seq<char>)
    requires
        trim(s) == s,
        s.len() > 0,
    ensures
        !is_blank(s[0]),
{
    lemma_trim_start_shape(s);
    lemma_trim_end_shape(trim_start(s));
}

/// Trimming twice trims no more than trimming once.
pub proof fn lemma_trim_idempotent(s: Seq<char>)
    ensures
        trim(trim(s)) == trim(s),
{
    let a = trim_start(s);
    let b = trim_end(a);
    lemma_trim_start_shape(s);
    lemma_trim_end_shape(a);
    if b.len() > 0 {
        assert(b[0] == a[0]);
    }
    assert(trim_start(b) == b);
}

} // verus!
