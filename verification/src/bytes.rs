//! Scanning of texts: the run before a stop mark, and the search for a
//! pattern.

use vstd::prelude::*;

verus! {

/// The number of items of `text` before its first `stop`; the length of a
/// text without one.
pub open spec fn span<T>(text: Seq<T>, stop: T) -> nat
    decreases text.len(),
{
    if text.len() == 0 || text[0] == stop {
        0
    } else {
        span(text.drop_first(), stop) + 1
    }
}

/// The span ends at the first stop, or at the end of a text without one.
pub proof fn lemma_span<T>(text: Seq<T>, stop: T, n: int)
    requires
        0 <= n <= text.len(),
        forall|i: int| 0 <= i < n ==> text[i] != stop,
        n == text.len() || text[n] == stop,
    ensures
        span(text, stop) == n,
    decreases text.len(),
{
    if n > 0 {
        let rest = text.drop_first();
        assert(forall|i: int| 0 <= i < rest.len() ==> rest[i] == text[i + 1]);
        lemma_span(rest, stop, n - 1);
    }
}

/// The span lies within the text, holds no stop, and a stop follows it
/// unless the text ends there.
pub proof fn lemma_span_is_first<T>(text: Seq<T>, stop: T)
    ensures
        span(text, stop) <= text.len(),
        forall|i: int| 0 <= i < span(text, stop) ==> text[i] != stop,
        span(text, stop) < text.len() ==> text[span(text, stop) as int] == stop,
    decreases text.len(),
{
    if text.len() > 0 && text[0] != stop {
        let rest = text.drop_first();
        lemma_span_is_first(rest, stop);
        assert forall|i: int| 0 <= i < span(text, stop) implies text[i] != stop by {
            if i > 0 {
                assert(text[i] == rest[i - 1]);
            }
        }
        if span(text, stop) < text.len() {
            assert(text[span(text, stop) as int] == rest[span(rest, stop) as int]);
        }
    }
}

/// Measures the span of the part of `text` that starts at `from`.
pub fn span_from(text: &[u8], from: usize, stop: u8) -> (n: usize)
    requires
        from <= text@.len(),
    ensures
        n == span(text@.skip(from as int), stop),
        from + n <= text@.len(),
{
    let len: usize = text.len();
    let mut n: usize = 0;
    while from + n < len && text[from + n] != stop
        invariant
            len == text@.len(),
            from + n <= text@.len(),
            forall|i: int| from <= i < from + n ==> text@[i] != stop,
        decreases text@.len() - n,
    {
        n += 1;
    }
    proof {
        let rest = text@.skip(from as int);
        assert(forall|i: int| 0 <= i < rest.len() ==> rest[i] == text@[from + i]);
        lemma_span(rest, stop, n as int);
    }
    n
}

/// `pattern` stands in `text` at index `at`.
pub open spec fn occurs_at(text: Seq<u8>, pattern: Seq<u8>, at: int) -> bool {
    &&& 0 <= at
    &&& at + pattern.len() <= text.len()
    &&& text.subrange(at, at + pattern.len()) == pattern
}

/// `pattern` stands somewhere in `text`.
pub open spec fn occurs(text: Seq<u8>, pattern: Seq<u8>) -> bool {
    exists|at: int| occurs_at(text, pattern, at)
}

/// Tells whether `pattern` stands in `text` at index `at`.
fn matches_at(text: &[u8], pattern: &[u8], at: usize) -> (r: bool)
    requires
        at + pattern@.len() <= text@.len(),
    ensures
        r == occurs_at(text@, pattern@, at as int),
{
    let ghost window = text@.subrange(at as int, at + pattern@.len());
    let len: usize = text.len();
    let mut i: usize = 0;
    while i < pattern.len()
        invariant
            len == text@.len(),
            at + pattern@.len() <= text@.len(),
            window == text@.subrange(at as int, at + pattern@.len()),
            i <= pattern@.len(),
            window.take(i as int) == pattern@.take(i as int),
        decreases pattern@.len() - i,
    {
        if text[at + i] != pattern[i] {
            assert(window[i as int] != pattern@[i as int]);
            return false;
        }
        assert(window.take(i + 1) =~= window.take(i as int).push(window[i as int]));
        assert(pattern@.take(i + 1) =~= pattern@.take(i as int).push(pattern@[i as int]));
        i += 1;
    }
    assert(window.take(i as int) =~= window);
    assert(pattern@.take(i as int) =~= pattern@);
    true
}

/// Tells whether `pattern` stands somewhere in `text`.
pub fn contains(text: &[u8], pattern: &[u8]) -> (r: bool)
    ensures
        r == occurs(text@, pattern@),
{
    if pattern.len() > text.len() {
        return false;
    }
    let last: usize = text.len() - pattern.len();
    let mut at: usize = 0;
    loop
        invariant
            last == text@.len() - pattern@.len(),
            at <= last,
            forall|i: int| 0 <= i < at ==> !occurs_at(text@, pattern@, i),
        decreases last - at,
    {
        if matches_at(text, pattern, at) {
            return true;
        }
        if at == last {
            return false;
        }
        at += 1;
    }
}

} // verus!
