//! Binary pattern search with wildcard support.
//!
//! Exact patterns are searched with `memchr::memmem`; wildcard patterns anchor
//! on their first concrete byte with `memchr::memchr_iter` and then check the
//! whole pattern at each candidate.  Every search returns the leftmost,
//! non-overlapping occurrences, as stated by [`greedy_matches`].

use vstd::prelude::*;

verus! {

/// A single element of a byte pattern.
#[derive(Clone, Debug, PartialEq, Eq, Structural)]
pub enum Pattern {
    /// Match this exact byte.
    Byte(u8),
    /// Match any byte (hex `??`).
    Wildcard,
}

impl Pattern {
    /// Whether this pattern element accepts `byte`.
    pub open spec fn accepts(self, byte: u8) -> bool {
        match self {
            Pattern::Byte(b) => b == byte,
            Pattern::Wildcard => true,
        }
    }

    /// The byte of a concrete element (0 for a wildcard, which has none).
    pub open spec fn concrete(self) -> u8 {
        match self {
            Pattern::Byte(b) => b,
            Pattern::Wildcard => 0,
        }
    }

    pub fn matches(&self, byte: &u8) -> (r: bool)
        ensures
            r == self.accepts(*byte),
    {
        match self {
            Pattern::Byte(b) => *b == *byte,
            Pattern::Wildcard => true,
        }
    }

    pub fn has_wildcards(patterns: &[Self]) -> (r: bool)
        ensures
            r == has_wildcard(patterns@),
    {
        let mut i: usize = 0;
        while i < patterns.len()
            invariant
                0 <= i <= patterns.len(),
                forall|j: int| 0 <= j < i ==> !(#[trigger] patterns@[j] is Wildcard),
            decreases patterns.len() - i,
        {
            match &patterns[i] {
                Pattern::Wildcard => {
                    return true;
                },
                Pattern::Byte(_) => {},
            }
            i = i + 1;
        }
        false
    }

    /// Extract raw bytes; a wildcard has no byte to give, so none may occur.
    pub fn as_bytes(patterns: &[Self]) -> (r: Vec<u8>)
        requires
            !has_wildcard(patterns@),
        ensures
            r@ == concrete_bytes(patterns@),
    {
        let mut out: Vec<u8> = Vec::with_capacity(patterns.len());
        let mut i: usize = 0;
        while i < patterns.len()
            invariant
                0 <= i <= patterns.len(),
                !has_wildcard(patterns@),
                out@ =~= concrete_bytes(patterns@).take(i as int),
            decreases patterns.len() - i,
        {
            match &patterns[i] {
                Pattern::Byte(b) => {
                    out.push(*b);
                },
                Pattern::Wildcard => {
                    assert(has_wildcard(patterns@));
                },
            }
            i = i + 1;
            assert(out@ =~= concrete_bytes(patterns@).take(i as int));
        }
        out
    }
}

/// Some element of `ps` is a wildcard.
pub open spec fn has_wildcard(ps: Seq<Pattern>) -> bool {
    exists|i: int| 0 <= i < ps.len() && #[trigger] ps[i] is Wildcard
}

/// Some element of `ps` is a concrete byte.
pub open spec fn has_concrete(ps: Seq<Pattern>) -> bool {
    exists|i: int| 0 <= i < ps.len() && #[trigger] ps[i] is Byte
}

/// The bytes of a pattern, element by element.
pub open spec fn concrete_bytes(ps: Seq<Pattern>) -> Seq<u8> {
    ps.map_values(|p: Pattern| p.concrete())
}

/// `needle` matches `haystack` at offset `p`: the window fits and every
/// element accepts the byte under it.
pub open spec fn matches_at(haystack: Seq<u8>, needle: Seq<Pattern>, p: int) -> bool {
    &&& 0 <= p
    &&& p + needle.len() <= haystack.len()
    &&& forall|i: int| #![trigger needle[i]] 0 <= i < needle.len() ==> needle[i].accepts(haystack[p + i])
}

/// The leftmost non-overlapping matches of `needle` at or after `start`:
/// scan forward, take a match, resume right after it.
pub open spec fn greedy_matches(haystack: Seq<u8>, needle: Seq<Pattern>, start: int) -> Seq<usize>
    decreases haystack.len() - start,
{
    if needle.len() == 0 || start < 0 || start + needle.len() > haystack.len() {
        seq![]
    } else if matches_at(haystack, needle, start) {
        seq![start as usize] + greedy_matches(haystack, needle, start + needle.len())
    } else {
        greedy_matches(haystack, needle, start + 1)
    }
}

/// `n` occurs in `h` at offset `p`.
pub open spec fn occurs_at(h: Seq<u8>, n: Seq<u8>, p: int) -> bool {
    0 <= p && p + n.len() <= h.len() && h.subrange(p, p + n.len()) == n
}

/// The leftmost non-overlapping occurrences of the byte string `n` at or
/// after `start`.
pub open spec fn occurrences(h: Seq<u8>, n: Seq<u8>, start: int) -> Seq<usize>
    decreases h.len() - start,
{
    if n.len() == 0 || start < 0 || start + n.len() > h.len() {
        seq![]
    } else if occurs_at(h, n, start) {
        seq![start as usize] + occurrences(h, n, start + n.len())
    } else {
        occurrences(h, n, start + 1)
    }
}

/// The window of the output that replaces an occurrence at `pos`: with
/// wildcards in `find`, the original byte is kept under each wildcard and the
/// replacement byte is taken elsewhere; without, the whole of `replace`.
pub open spec fn patched_window(
    data: Seq<u8>,
    pos: int,
    find: Seq<Pattern>,
    replace: Seq<u8>,
) -> Seq<u8> {
    if has_wildcard(find) {
        Seq::new(
            find.len(),
            |i: int|
                match find[i] {
                    Pattern::Wildcard => data[pos + i],
                    Pattern::Byte(_) => replace[i],
                },
        )
    } else {
        replace
    }
}

/// The output of rewriting `data` from offset `last` on, at the given
/// positions: a position before `last` (overlapping the previous rewrite) is
/// skipped, any other one copies the bytes up to it and then the patched
/// window.
pub open spec fn rewrite_from(
    data: Seq<u8>,
    positions: Seq<usize>,
    find: Seq<Pattern>,
    replace: Seq<u8>,
    last: int,
) -> Seq<u8>
    decreases positions.len(),
{
    if positions.len() == 0 {
        data.subrange(last, data.len() as int)
    } else if positions[0] < last {
        rewrite_from(data, positions.drop_first(), find, replace, last)
    } else {
        data.subrange(last, positions[0] as int) + patched_window(
            data,
            positions[0] as int,
            find,
            replace,
        ) + rewrite_from(data, positions.drop_first(), find, replace, positions[0] + find.len())
    }
}

/// Every position that the rewrite does not skip leaves room for the whole
/// window (a later window would run past the end of the data).
pub open spec fn positions_fit(positions: Seq<usize>, n: int, len: int, last: int) -> bool
    decreases positions.len(),
{
    if positions.len() == 0 {
        true
    } else if positions[0] < last {
        positions_fit(positions.drop_first(), n, len, last)
    } else {
        positions[0] + n <= len && positions_fit(positions.drop_first(), n, len, positions[0] + n)
    }
}

/// Each concrete element of `find` has a replacement byte at its index.
pub open spec fn replace_covers(find: Seq<Pattern>, replace: Seq<u8>) -> bool {
    forall|i: int| 0 <= i < find.len() && (#[trigger] find[i] is Byte) ==> i < replace.len()
}

/// The result of [`replace_all`]: the data rewritten at the greedy matches.
pub open spec fn replace_all_spec(data: Seq<u8>, find: Seq<Pattern>, replace: Seq<u8>) -> Seq<u8> {
    rewrite_from(data, greedy_matches(data, find, 0), find, replace, 0)
}

// ---------------------------------------------------------------------------
// Calls into memchr
// ---------------------------------------------------------------------------

/// `memchr::memmem::find_iter`, collected.  Trusted: the iterator yields the
/// leftmost occurrence of `needle` at or after its position and resumes
/// `needle.len()` bytes later, so for a non-empty needle it yields exactly
/// [`occurrences`] from 0.
#[verifier::external_body]
fn memmem_find_all(haystack: &[u8], needle: &[u8]) -> (r: Vec<usize>)
    requires
        needle@.len() > 0,
    ensures
        r@ == occurrences(haystack@, needle@, 0),
{
    memchr::memmem::find_iter(haystack, needle).collect()
}

/// `memchr::memchr_iter`, collected.  Trusted: the forward iterator yields
/// every index at which `haystack` holds `needle`, in increasing order.
#[verifier::external_body]
fn memchr_all(needle: u8, haystack: &[u8]) -> (r: Vec<usize>)
    ensures
        forall|i: int|
            0 <= i < r@.len() ==> #[trigger] r@[i] < haystack@.len() && haystack@[r@[i] as int]
                == needle,
        forall|i: int, j: int| 0 <= i < j < r@.len() ==> #[trigger] r@[i] < #[trigger] r@[j],
        forall|k: int| 0 <= k < haystack@.len() && #[trigger] haystack@[k] == needle ==> r@.contains(
            k as usize,
        ),
{
    memchr::memchr_iter(needle, haystack).collect()
}

// ---------------------------------------------------------------------------
// Lemmas
// ---------------------------------------------------------------------------

/// With no match in `[a, b)`, the greedy scan from `a` is the scan from `b`.
pub proof fn lemma_skip_unmatched(h: Seq<u8>, nd: Seq<Pattern>, a: int, b: int)
    requires
        0 <= a <= b,
        nd.len() > 0,
        forall|p: int| a <= p < b ==> !matches_at(h, nd, p),
    ensures
        greedy_matches(h, nd, a) == greedy_matches(h, nd, b),
    decreases b - a,
{
    if a < b {
        if a + nd.len() <= h.len() {
            assert(!matches_at(h, nd, a));
            lemma_skip_unmatched(h, nd, a + 1, b);
        } else {
            lemma_no_more_matches(h, nd, b);
        }
    }
}

/// With no match at or after `a`, the greedy scan from `a` finds nothing.
pub proof fn lemma_no_more_matches(h: Seq<u8>, nd: Seq<Pattern>, a: int)
    requires
        0 <= a,
        forall|p: int| a <= p ==> !matches_at(h, nd, p),
    ensures
        greedy_matches(h, nd, a) == Seq::<usize>::empty(),
    decreases h.len() - a,
{
    if nd.len() > 0 && a + nd.len() <= h.len() {
        assert(!matches_at(h, nd, a));
        lemma_no_more_matches(h, nd, a + 1);
    }
}

/// For a pattern without wildcards, matching is occurrence of its bytes.
proof fn lemma_exact_matches_at(h: Seq<u8>, nd: Seq<Pattern>, p: int)
    requires
        !has_wildcard(nd),
    ensures
        matches_at(h, nd, p) == occurs_at(h, concrete_bytes(nd), p),
{
    let bs = concrete_bytes(nd);
    if 0 <= p && p + nd.len() <= h.len() {
        if matches_at(h, nd, p) {
            assert forall|i: int| 0 <= i < nd.len() implies h.subrange(p, p + nd.len())[i] == bs[i] by {
                assert(nd[i].accepts(h[p + i]));
                assert(!(nd[i] is Wildcard));
            }
            assert(h.subrange(p, p + nd.len()) =~= bs);
        }
        if occurs_at(h, bs, p) {
            assert forall|i: int| #![trigger nd[i]] 0 <= i < nd.len() implies nd[i].accepts(
                h[p + i],
            ) by {
                assert(h.subrange(p, p + nd.len())[i] == bs[i]);
                assert(!(nd[i] is Wildcard));
            }
        }
    }
}

/// For a pattern without wildcards, the greedy matches are the occurrences
/// of its bytes.
proof fn lemma_exact_greedy(h: Seq<u8>, nd: Seq<Pattern>, start: int)
    requires
        !has_wildcard(nd),
        0 <= start,
    ensures
        greedy_matches(h, nd, start) == occurrences(h, concrete_bytes(nd), start),
    decreases h.len() - start,
{
    if nd.len() > 0 && start + nd.len() <= h.len() {
        lemma_exact_matches_at(h, nd, start);
        lemma_exact_greedy(h, nd, start + nd.len());
        lemma_exact_greedy(h, nd, start + 1);
    }
}

/// Law of [`find_all`]: the greedy scan reports matches only, at or after
/// `start`, in increasing order and without overlap (each one starts at least
/// a needle length after the one before).
pub proof fn lemma_greedy_sound(h: Seq<u8>, nd: Seq<Pattern>, start: int)
    requires
        0 <= start,
        h.len() <= usize::MAX,
    ensures
        forall|i: int|
            0 <= i < greedy_matches(h, nd, start).len() ==> start <= #[trigger] greedy_matches(
                h,
                nd,
                start,
            )[i] && matches_at(h, nd, greedy_matches(h, nd, start)[i] as int),
        forall|i: int, j: int|
            0 <= i < j < greedy_matches(h, nd, start).len() ==> #[trigger] greedy_matches(
                h,
                nd,
                start,
            )[i] + nd.len() <= #[trigger] greedy_matches(h, nd, start)[j],
    decreases h.len() - start,
{
    let g = greedy_matches(h, nd, start);
    if nd.len() == 0 || start + nd.len() > h.len() {
    } else if matches_at(h, nd, start) {
        let rest = greedy_matches(h, nd, start + nd.len());
        lemma_greedy_sound(h, nd, start + nd.len());
        assert(g == seq![start as usize] + rest);
        assert forall|i: int| 0 <= i < g.len() implies start <= #[trigger] g[i] && matches_at(
            h,
            nd,
            g[i] as int,
        ) by {
            if i > 0 {
                assert(g[i] == rest[i - 1]);
            }
        }
        assert forall|i: int, j: int| 0 <= i < j < g.len() implies #[trigger] g[i] + nd.len()
            <= #[trigger] g[j] by {
            assert(g[j] == rest[j - 1]);
            if i > 0 {
                assert(g[i] == rest[i - 1]);
            }
        }
    } else {
        lemma_greedy_sound(h, nd, start + 1);
        assert(g == greedy_matches(h, nd, start + 1));
    }
}

/// Offset `p` lies inside one of the windows of length `n` starting at `ps`.
pub open spec fn covered(ps: Seq<usize>, n: int, p: int) -> bool {
    exists|i: int| 0 <= i < ps.len() && #[trigger] ps[i] <= p < ps[i] + n
}

/// Law of [`find_all`]: the scan is leftmost and misses nothing.  Every match
/// at or after `start` lies inside a reported occurrence (is reported, or
/// overlaps one), and each reported occurrence is the first match at or after
/// the end of the one before (or `start`).
pub proof fn lemma_greedy_complete(h: Seq<u8>, nd: Seq<Pattern>, start: int)
    requires
        0 <= start,
        nd.len() > 0,
        h.len() <= usize::MAX,
    ensures
        forall|p: int|
            start <= p && #[trigger] matches_at(h, nd, p) ==> covered(
                greedy_matches(h, nd, start),
                nd.len() as int,
                p,
            ),
        forall|i: int, p: int|
            0 <= i < greedy_matches(h, nd, start).len() && (if i == 0 {
                start
            } else {
                greedy_matches(h, nd, start)[i - 1] + nd.len()
            }) <= p < #[trigger] greedy_matches(h, nd, start)[i] ==> !#[trigger] matches_at(
                h,
                nd,
                p,
            ),
    decreases h.len() - start,
{
    let g = greedy_matches(h, nd, start);
    if nd.len() == 0 || start + nd.len() > h.len() {
        assert forall|p: int| start <= p && #[trigger] matches_at(h, nd, p) implies covered(
            g,
            nd.len() as int,
            p,
        ) by {
            assert(p + nd.len() <= h.len());
        }
    } else if matches_at(h, nd, start) {
        let rest = greedy_matches(h, nd, start + nd.len());
        lemma_greedy_complete(h, nd, start + nd.len());
        lemma_greedy_sound(h, nd, start + nd.len());
        assert(g == seq![start as usize] + rest);
        assert forall|p: int| start <= p && #[trigger] matches_at(h, nd, p) implies covered(
            g,
            nd.len() as int,
            p,
        ) by {
            if p < start + nd.len() {
                assert(g[0] <= p < g[0] + nd.len());
            } else {
                let i = choose|i: int| 0 <= i < rest.len() && #[trigger] rest[i] <= p < rest[i] + nd.len();
                assert(g[i + 1] == rest[i]);
            }
        }
        assert forall|i: int, p: int|
            0 <= i < g.len() && (if i == 0 {
                start
            } else {
                g[i - 1] + nd.len()
            }) <= p < #[trigger] g[i] implies !#[trigger] matches_at(h, nd, p) by {
            if i > 0 {
                assert(g[i] == rest[i - 1]);
                if i > 1 {
                    assert(g[i - 1] == rest[i - 2]);
                }
            }
        }
    } else {
        let rest = greedy_matches(h, nd, start + 1);
        lemma_greedy_complete(h, nd, start + 1);
        assert(g == rest);
        assert forall|p: int| start <= p && #[trigger] matches_at(h, nd, p) implies covered(
            g,
            nd.len() as int,
            p,
        ) by {
            if p == start {
                assert(false);
            }
        }
    }
}

/// Law of the rewrite: at increasing, non-overlapping positions that all fit
/// and start at or after `last`, with a replacement as long as the pattern,
/// the output is the input from `last` on with the patched window laid over
/// each position and every other byte unchanged.
pub proof fn lemma_rewrite_overlay(
    data: Seq<u8>,
    positions: Seq<usize>,
    find: Seq<Pattern>,
    replace: Seq<u8>,
    last: int,
)
    requires
        0 <= last <= data.len(),
        replace.len() == find.len(),
        forall|i: int|
            0 <= i < positions.len() ==> last <= #[trigger] positions[i] && positions[i]
                + find.len() <= data.len(),
        forall|i: int, j: int|
            0 <= i < j < positions.len() ==> #[trigger] positions[i] + find.len()
                <= #[trigger] positions[j],
    ensures
        rewrite_from(data, positions, find, replace, last).len() == data.len() - last,
        forall|i: int, q: int|
            0 <= i < positions.len() && #[trigger] positions[i] <= q < positions[i] + find.len()
                ==> #[trigger] rewrite_from(data, positions, find, replace, last)[q - last]
                == patched_window(data, positions[i] as int, find, replace)[q - positions[i]],
        forall|q: int|
            last <= q < data.len() && !covered(positions, find.len() as int, q) ==> #[trigger] rewrite_from(
                data,
                positions,
                find,
                replace,
                last,
            )[q - last] == data[q],
    decreases positions.len(),
{
    let out = rewrite_from(data, positions, find, replace, last);
    let n = find.len() as int;
    if positions.len() == 0 {
        assert forall|q: int| last <= q < data.len() && !covered(positions, n, q) implies #[trigger] out[q - last]
            == data[q] by {}
    } else {
        let p0 = positions[0] as int;
        let tail = positions.drop_first();
        assert forall|i: int| 0 <= i < tail.len() implies p0 + n <= #[trigger] tail[i] && tail[i] + n
            <= data.len() by {
            assert(tail[i] == positions[i + 1]);
        }
        assert forall|i: int, j: int| 0 <= i < j < tail.len() implies #[trigger] tail[i] + n
            <= #[trigger] tail[j] by {
            assert(tail[i] == positions[i + 1]);
            assert(tail[j] == positions[j + 1]);
        }
        lemma_rewrite_overlay(data, tail, find, replace, p0 + n);
        let pre = data.subrange(last, p0);
        let w = patched_window(data, p0, find, replace);
        let rest = rewrite_from(data, tail, find, replace, p0 + n);
        assert(w.len() == n);
        assert(out == pre + w + rest);
        assert forall|i: int, q: int|
            0 <= i < positions.len() && #[trigger] positions[i] <= q < positions[i] + n implies #[trigger] out[q
            - last] == patched_window(data, positions[i] as int, find, replace)[q - positions[i]] by {
            if i == 0 {
                assert(out[q - last] == w[q - p0]);
            } else {
                assert(positions[i] == tail[i - 1]);
                assert(out[q - last] == rest[q - (p0 + n)]);
            }
        }
        assert forall|q: int| last <= q < data.len() && !covered(positions, n, q) implies #[trigger] out[q - last]
            == data[q] by {
            if q < p0 {
                assert(out[q - last] == pre[q - last]);
            } else if q < p0 + n {
                assert(positions[0] <= q < positions[0] + n);
            } else {
                assert(out[q - last] == rest[q - (p0 + n)]);
                if covered(tail, n, q) {
                    let i = choose|i: int| 0 <= i < tail.len() && #[trigger] tail[i] <= q < tail[i] + n;
                    assert(positions[i + 1] == tail[i]);
                }
            }
        }
    }
}

/// Law of [`replace_all`]: with a replacement as long as the pattern, the
/// output has the length of the input, holds the patched window over each
/// reported match (the replacement bytes, and the original byte under each
/// wildcard), and every byte outside the matches unchanged.
pub proof fn lemma_replace_all_overlay(data: Seq<u8>, find: Seq<Pattern>, replace: Seq<u8>)
    requires
        replace.len() == find.len(),
        data.len() <= usize::MAX,
    ensures
        replace_all_spec(data, find, replace).len() == data.len(),
        forall|i: int, q: int|
            0 <= i < greedy_matches(data, find, 0).len() && #[trigger] greedy_matches(data, find, 0)[i]
                <= q < greedy_matches(data, find, 0)[i] + find.len() ==> #[trigger] replace_all_spec(
                data,
                find,
                replace,
            )[q] == patched_window(data, greedy_matches(data, find, 0)[i] as int, find, replace)[q
                - greedy_matches(data, find, 0)[i]],
        forall|q: int|
            0 <= q < data.len() && !covered(greedy_matches(data, find, 0), find.len() as int, q)
                ==> #[trigger] replace_all_spec(data, find, replace)[q] == data[q],
{
    let g = greedy_matches(data, find, 0);
    lemma_greedy_sound(data, find, 0);
    assert forall|i: int| 0 <= i < g.len() implies 0 <= #[trigger] g[i] && g[i] + find.len()
        <= data.len() by {
        assert(matches_at(data, find, g[i] as int));
    }
    lemma_rewrite_overlay(data, g, find, replace, 0);
    let out = replace_all_spec(data, find, replace);
    assert forall|i: int, q: int|
        0 <= i < g.len() && #[trigger] g[i] <= q < g[i] + find.len() implies #[trigger] out[q]
        == patched_window(data, g[i] as int, find, replace)[q - g[i]] by {
        assert(out[q - 0] == patched_window(data, g[i] as int, find, replace)[q - g[i]]);
    }
    assert forall|q: int| 0 <= q < data.len() && !covered(g, find.len() as int, q) implies #[trigger] out[q]
        == data[q] by {
        assert(out[q - 0] == data[q]);
    }
}

/// Law: replacing at the positions that [`find_all`] reports is what
/// [`replace_all`] does.
pub proof fn lemma_replace_all_is_replace_at_found(data: Seq<u8>, find: Seq<Pattern>, replace: Seq<u8>)
    ensures
        replace_all_spec(data, find, replace) == rewrite_from(
            data,
            greedy_matches(data, find, 0),
            find,
            replace,
            0,
        ),
{
}

/// The window starts `start`, `start + n`, ... whose windows fit in `len`.
pub open spec fn windows_from(start: int, n: int, len: int) -> Seq<usize>
    decreases len - start,
{
    if n <= 0 || start < 0 || start + n > len {
        seq![]
    } else {
        seq![start as usize] + windows_from(start + n, n, len)
    }
}

proof fn lemma_wildcard_greedy(h: Seq<u8>, nd: Seq<Pattern>, start: int)
    requires
        nd.len() > 0,
        0 <= start,
        forall|j: int| 0 <= j < nd.len() ==> #[trigger] nd[j] is Wildcard,
    ensures
        greedy_matches(h, nd, start) == windows_from(start, nd.len() as int, h.len() as int),
    decreases h.len() - start,
{
    if start + nd.len() <= h.len() {
        assert forall|i: int| #![trigger nd[i]] 0 <= i < nd.len() implies nd[i].accepts(h[start + i]) by {
            assert(nd[i] is Wildcard);
        }
        assert(matches_at(h, nd, start));
        lemma_wildcard_greedy(h, nd, start + nd.len());
    }
}

proof fn lemma_windows_from(start: int, n: int, len: int)
    requires
        n > 0,
        0 <= start <= len,
        len <= usize::MAX,
    ensures
        forall|k: int|
            0 <= k < windows_from(start, n, len).len() ==> #[trigger] windows_from(start, n, len)[k]
                == start + k * n,
        windows_from(start, n, len).len() * n <= len - start,
        len - start < (windows_from(start, n, len).len() + 1) * n,
    decreases len - start,
{
    let w = windows_from(start, n, len);
    if start + n <= len {
        lemma_windows_from(start + n, n, len);
        let w2 = windows_from(start + n, n, len);
        assert(w == seq![start as usize] + w2);
        assert forall|k: int| 0 <= k < w.len() implies #[trigger] w[k] == start + k * n by {
            if k > 0 {
                assert(w[k] == w2[k - 1]);
                assert((k - 1) * n + n == k * n) by (nonlinear_arith);
            } else {
                assert(0 * n == 0) by (nonlinear_arith);
            }
        }
        let m = w2.len() as int;
        assert((m + 1) * n == m * n + n) by (nonlinear_arith);
        assert((m + 2) * n == m * n + 2 * n) by (nonlinear_arith);
    } else {
        assert(w.len() == 0);
        assert((0 + 1) * n == n) by (nonlinear_arith);
        assert(0 * n == 0) by (nonlinear_arith);
    }
}

/// Law of [`find_all`]: a needle of `n` wildcards matches every window, so
/// its matches are the windows at 0, n, 2n, ...: `len / n` of them.
pub proof fn lemma_all_wildcard_find(h: Seq<u8>, nd: Seq<Pattern>)
    requires
        nd.len() > 0,
        h.len() <= usize::MAX,
        forall|j: int| 0 <= j < nd.len() ==> #[trigger] nd[j] is Wildcard,
    ensures
        greedy_matches(h, nd, 0).len() == h.len() / nd.len(),
        forall|k: int|
            0 <= k < greedy_matches(h, nd, 0).len() ==> #[trigger] greedy_matches(h, nd, 0)[k] == k
                * nd.len(),
{
    let n = nd.len() as int;
    lemma_wildcard_greedy(h, nd, 0);
    lemma_windows_from(0, n, h.len() as int);
    let c = greedy_matches(h, nd, 0).len() as int;
    let l = h.len() as int;
    assert(c == l / n) by (nonlinear_arith)
        requires
            n > 0,
            c >= 0,
            c * n <= l,
            l < (c + 1) * n,
    {
        vstd::arithmetic::div_mod::lemma_fundamental_div_mod(l, n);
    }
}

/// Law of [`replace_all`]: a pattern of wildcards only keeps every byte it
/// matches, so the data comes back unchanged.
pub proof fn lemma_all_wildcard_replace(data: Seq<u8>, find: Seq<Pattern>, replace: Seq<u8>)
    requires
        replace.len() == find.len(),
        data.len() <= usize::MAX,
        forall|j: int| 0 <= j < find.len() ==> #[trigger] find[j] is Wildcard,
    ensures
        replace_all_spec(data, find, replace) == data,
{
    let out = replace_all_spec(data, find, replace);
    let g = greedy_matches(data, find, 0);
    lemma_replace_all_overlay(data, find, replace);
    if find.len() == 0 {
        assert(g =~= Seq::<usize>::empty());
        assert(data.subrange(0, data.len() as int) =~= data);
    } else {
        assert(find[0] is Wildcard);
        assert(has_wildcard(find));
        lemma_greedy_sound(data, find, 0);
        assert forall|q: int| 0 <= q < data.len() implies #[trigger] out[q] == data[q] by {
            if covered(g, find.len() as int, q) {
                let i = choose|i: int| 0 <= i < g.len() && #[trigger] g[i] <= q < g[i] + find.len();
                let pw = patched_window(data, g[i] as int, find, replace);
                assert(out[q] == pw[q - g[i]]);
                assert(find[q - g[i]] is Wildcard);
            }
        }
        assert(out =~= data);
    }
}

// ---------------------------------------------------------------------------
// Public API
// ---------------------------------------------------------------------------

/// Find all **non-overlapping** occurrences of `needle` in `haystack`.
pub fn find_all(haystack: &[u8], needle: &[Pattern]) -> (r: Vec<usize>)
    ensures
        r@ == greedy_matches(haystack@, needle@, 0),
{
    if needle.len() == 0 || haystack.len() < needle.len() {
        return Vec::new();
    }
    if Pattern::has_wildcards(needle) {
        find_wildcard(haystack, needle)
    } else {
        find_exact(haystack, needle)
    }
}

/// Replace every non-overlapping match of `find` with `replace`.
///
/// `find` and `replace` must have the same length.
/// At wildcard positions the original byte is preserved.
pub fn replace_all(data: &[u8], find: &[Pattern], replace: &[u8]) -> (r: Vec<u8>)
    requires
        find@.len() == replace@.len(),
    ensures
        r@ == replace_all_spec(data@, find@, replace@),
{
    if find.len() == 0 || data.len() < find.len() {
        assert(greedy_matches(data@, find@, 0) =~= Seq::<usize>::empty());
        assert(data@.subrange(0, data@.len() as int) =~= data@);
        return copy_bytes(data);
    }
    if !Pattern::has_wildcards(find) {
        return replace_exact_streaming(data, find, replace);
    }
    let positions = find_all(data, find);
    proof {
        lemma_greedy_fit(data@, find@, 0, 0);
    }
    replace_at_positions(data, &positions, find, replace)
}

/// Replace at pre-computed positions (useful when you already called
/// [`find_all`]).  A position that overlaps the previous replacement is
/// skipped.
pub fn replace_at_positions(
    data: &[u8],
    positions: &[usize],
    find: &[Pattern],
    replace: &[u8],
) -> (r: Vec<u8>)
    requires
        positions_fit(positions@, find@.len() as int, data@.len() as int, 0),
        positions@.len() > 0 && has_wildcard(find@) ==> replace_covers(find@, replace@),
    ensures
        r@ == rewrite_from(data@, positions@, find@, replace@, 0),
{
    if positions.len() == 0 {
        assert(data@.subrange(0, data@.len() as int) =~= data@);
        return copy_bytes(data);
    }
    let needle_len = find.len();
    let has_wc = Pattern::has_wildcards(find);
    let mut out: Vec<u8> = Vec::with_capacity(data.len());
    let mut last: usize = 0;
    let mut k: usize = 0;
    let dlen = data.len();
    assert(positions@.skip(0) =~= positions@);
    while k < positions.len()
        invariant
            0 <= k <= positions@.len(),
            dlen == data@.len(),
            last <= data@.len(),
            needle_len == find@.len(),
            has_wc == has_wildcard(find@),
            has_wc ==> replace_covers(find@, replace@),
            positions_fit(positions@.skip(k as int), needle_len as int, data@.len() as int, last as int),
            out@ + rewrite_from(data@, positions@.skip(k as int), find@, replace@, last as int)
                == rewrite_from(data@, positions@, find@, replace@, 0),
        decreases positions@.len() - k,
    {
        let ghost rest = positions@.skip(k as int);
        let pos = positions[k];
        assert(rest[0] == pos);
        assert(rest.drop_first() =~= positions@.skip(k + 1));
        if pos < last {
            k = k + 1;
            continue;
        }
        let ghost last0 = last as int;
        assert(pos + needle_len <= data@.len());
        let ghost before = out@;
        let seg = &data[last..pos];
        out.extend_from_slice(seg);
        assert(out@ =~= before + data@.subrange(last as int, pos as int));
        let ghost mid = out@;
        if has_wc {
            let mut i: usize = 0;
            while i < needle_len
                invariant
                    0 <= i <= needle_len,
                    dlen == data@.len(),
                    needle_len == find@.len(),
                    pos + needle_len <= data@.len(),
                    replace_covers(find@, replace@),
                    has_wildcard(find@),
                    out@ =~= mid + patched_window(data@, pos as int, find@, replace@).take(i as int),
                decreases needle_len - i,
            {
                match &find[i] {
                    Pattern::Wildcard => {
                        out.push(data[pos + i]);
                    },
                    Pattern::Byte(_) => {
                        assert(find@[i as int] is Byte);
                        out.push(replace[i]);
                    },
                }
                i = i + 1;
                assert(out@ =~= mid + patched_window(data@, pos as int, find@, replace@).take(
                    i as int,
                ));
            }
            assert(patched_window(data@, pos as int, find@, replace@).take(needle_len as int)
                =~= patched_window(data@, pos as int, find@, replace@));
        } else {
            out.extend_from_slice(replace);
            assert(out@ =~= mid + replace@);
        }
        last = pos + needle_len;
        k = k + 1;
        assert(out@ =~= before + data@.subrange(last0, pos as int) + patched_window(
            data@,
            pos as int,
            find@,
            replace@,
        ));
    }
    let ghost before = out@;
    out.extend_from_slice(&data[last..data.len()]);
    assert(positions@.skip(k as int) =~= Seq::<usize>::empty());
    assert(out@ =~= before + data@.subrange(last as int, data@.len() as int));
    out
}

// ---------------------------------------------------------------------------
// Internals
// ---------------------------------------------------------------------------

/// A fresh vector holding the bytes of `data`.
fn copy_bytes(data: &[u8]) -> (r: Vec<u8>)
    ensures
        r@ == data@,
{
    let mut out: Vec<u8> = Vec::with_capacity(data.len());
    out.extend_from_slice(data);
    assert(out@ =~= data@);
    out
}

/// The greedy matches always fit where they stand, so the rewrite can take
/// them as they come.
pub proof fn lemma_greedy_fit(h: Seq<u8>, nd: Seq<Pattern>, start: int, last: int)
    requires
        0 <= last <= start,
        h.len() <= usize::MAX,
    ensures
        positions_fit(greedy_matches(h, nd, start), nd.len() as int, h.len() as int, last),
    decreases h.len() - start,
{
    let g = greedy_matches(h, nd, start);
    if nd.len() == 0 || start < 0 || start + nd.len() > h.len() {
    } else if matches_at(h, nd, start) {
        lemma_greedy_fit(h, nd, start + nd.len(), start + nd.len());
        assert(g == seq![start as usize] + greedy_matches(h, nd, start + nd.len()));
        assert(g[0] == start);
        assert(g.drop_first() =~= greedy_matches(h, nd, start + nd.len()));
    } else {
        lemma_greedy_fit(h, nd, start + 1, last);
    }
}

/// Whether `needle` matches `haystack` at `start`.
fn window_matches(haystack: &[u8], needle: &[Pattern], start: usize) -> (r: bool)
    requires
        start + needle@.len() <= haystack@.len(),
    ensures
        r == matches_at(haystack@, needle@, start as int),
{
    let hlen = haystack.len();
    let mut i: usize = 0;
    while i < needle.len()
        invariant
            0 <= i <= needle@.len(),
            hlen == haystack@.len(),
            start + needle@.len() <= haystack@.len(),
            forall|j: int| #![trigger needle@[j]] 0 <= j < i ==> needle@[j].accepts(haystack@[start + j]),
        decreases needle@.len() - i,
    {
        assert(start + i < haystack@.len());
        if !needle[i].matches(&haystack[start + i]) {
            return false;
        }
        i = i + 1;
    }
    true
}

/// The windows at 0, n, 2n, ... that fit in the haystack, for a needle of
/// wildcards only.
fn every_window(haystack: &[u8], needle: &[Pattern]) -> (r: Vec<usize>)
    requires
        needle@.len() > 0,
        forall|j: int| 0 <= j < needle@.len() ==> #[trigger] needle@[j] is Wildcard,
    ensures
        r@ == greedy_matches(haystack@, needle@, 0),
{
    let ghost h = haystack@;
    let ghost nd = needle@;
    let n = needle.len();
    let mut results: Vec<usize> = Vec::new();
    let mut pos: usize = 0;
    while n <= haystack.len() && pos <= haystack.len() - n
        invariant
            h == haystack@,
            nd == needle@,
            n == nd.len(),
            n > 0,
            pos <= h.len(),
            forall|j: int| 0 <= j < nd.len() ==> #[trigger] nd[j] is Wildcard,
            results@ + greedy_matches(h, nd, pos as int) == greedy_matches(h, nd, 0),
        decreases h.len() - pos,
    {
        assert(matches_at(h, nd, pos as int)) by {
            assert forall|i: int| #![trigger nd[i]] 0 <= i < nd.len() implies nd[i].accepts(
                h[pos + i],
            ) by {
                assert(nd[i] is Wildcard);
            }
        }
        let ghost before = results@;
        results.push(pos);
        assert(results@ =~= before + seq![pos]);
        assert(before + (seq![pos] + greedy_matches(h, nd, pos + n)) =~= results@ + greedy_matches(
            h,
            nd,
            pos + n,
        ));
        pos = pos + n;
    }
    assert(results@ + Seq::<usize>::empty() =~= results@);
    results
}

/// Exact search via `memchr::memmem` (SIMD Two-Way).
pub fn find_exact(haystack: &[u8], needle: &[Pattern]) -> (r: Vec<usize>)
    requires
        needle@.len() > 0,
        !has_wildcard(needle@),
    ensures
        r@ == greedy_matches(haystack@, needle@, 0),
{
    let bytes = Pattern::as_bytes(needle);
    proof {
        lemma_exact_greedy(haystack@, needle@, 0);
    }
    memmem_find_all(haystack, bytes.as_slice())
}

/// Wildcard search: anchor on the first concrete byte, verify the rest.  A
/// needle of wildcards only matches every window, so its matches are the
/// windows at 0, n, 2n, ...
pub fn find_wildcard(haystack: &[u8], needle: &[Pattern]) -> (r: Vec<usize>)
    requires
        needle@.len() > 0,
        haystack@.len() >= needle@.len(),
    ensures
        r@ == greedy_matches(haystack@, needle@, 0),
{
    let needle_len = needle.len();
    let ghost h = haystack@;
    let ghost nd = needle@;

    // Anchor on the first non-wildcard byte.
    let mut anchor_off: usize = 0;
    let mut anchor_byte: u8 = 0;
    let mut found = false;
    while anchor_off < needle_len && !found
        invariant
            0 <= anchor_off <= needle_len,
            needle_len == nd.len(),
            nd == needle@,
            found ==> anchor_off < needle_len && nd[anchor_off as int] == Pattern::Byte(anchor_byte),
            !found ==> forall|j: int| 0 <= j < anchor_off ==> #[trigger] nd[j] is Wildcard,
        decreases needle_len - anchor_off + (if found { 0int } else { 1int }),
    {
        match &needle[anchor_off] {
            Pattern::Byte(b) => {
                anchor_byte = *b;
                found = true;
            },
            Pattern::Wildcard => {
                anchor_off = anchor_off + 1;
            },
        }
    }
    if !found {
        return every_window(haystack, needle);
    }

    // Restrict search range so every candidate fits.
    let search_end = haystack.len() - needle_len + anchor_off + 1;
    if anchor_off >= search_end {
        return Vec::new();
    }

    let mut results: Vec<usize> = Vec::new();
    let mut min_next: usize = 0;
    assert(h.len() == haystack.len());
    let window = &haystack[anchor_off..search_end];
    let candidates = memchr_all(anchor_byte, window);
    let ghost cands = candidates@;
    let ghost wlen = (search_end - anchor_off) as int;

    // Every match lands on a candidate.
    assert forall|p: int| matches_at(h, nd, p) implies cands.contains(p as usize) by {
        assert(nd[anchor_off as int].accepts(h[p + anchor_off]));
        assert(window@[p] == h[p + anchor_off]);
    }

    let ghost mut cur: int = 0;
    let mut k: usize = 0;
    while k < candidates.len()
        invariant
            0 <= k <= cands.len(),
            cands == candidates@,
            h == haystack@,
            nd == needle@,
            needle_len == nd.len(),
            needle_len > 0,
            h.len() <= usize::MAX,
            wlen == h.len() - needle_len + 1,
            forall|i: int| 0 <= i < cands.len() ==> #[trigger] cands[i] < wlen,
            forall|i: int, j: int| 0 <= i < j < cands.len() ==> #[trigger] cands[i] < #[trigger] cands[j],
            forall|p: int| matches_at(h, nd, p) ==> cands.contains(p as usize),
            results@ + greedy_matches(h, nd, cur) == greedy_matches(h, nd, 0),
            0 <= min_next <= cur,
            min_next <= h.len(),
            k > 0 ==> cur > cands[k - 1],
            cur == min_next || (k > 0 && cur == cands[k - 1] + 1),
        decreases cands.len() - k,
    {
        let start = candidates[k];
        assert(start == cands[k as int]);
        assert(start < wlen);
        if start < min_next {
            k = k + 1;
            continue;
        }
        proof {
            assert(start >= cur);
            assert forall|p: int| cur <= p < start implies !matches_at(h, nd, p) by {
                if matches_at(h, nd, p) {
                    let j = choose|j: int| 0 <= j < cands.len() && cands[j] == p as usize;
                    if j < k {
                        if k > 0 {
                            assert(cands[j] <= cands[k - 1]);
                        }
                    } else if j > k {
                        assert(cands[k as int] < cands[j]);
                    }
                }
            }
            lemma_skip_unmatched(h, nd, cur, start as int);
        }
        if window_matches(haystack, needle, start) {
            results.push(start);
            min_next = start + needle_len;
            proof {
                cur = start + needle_len;
            }
        } else {
            proof {
                cur = start + 1;
            }
        }
        k = k + 1;
    }
    proof {
        assert forall|p: int| cur <= p implies !matches_at(h, nd, p) by {
            if matches_at(h, nd, p) {
                let j = choose|j: int| 0 <= j < cands.len() && cands[j] == p as usize;
                assert(cands[j] <= cands[k - 1]);
            }
        }
        lemma_no_more_matches(h, nd, cur);
        assert(results@ + Seq::<usize>::empty() =~= results@);
    }
    results
}

/// Single-pass exact replace: copy up to each occurrence, then the
/// replacement.  Its result is that of [`replace_at_positions`] at the
/// positions [`find_exact`] reports.
pub fn replace_exact_streaming(data: &[u8], find: &[Pattern], replace: &[u8]) -> (r: Vec<u8>)
    requires
        find@.len() > 0,
        !has_wildcard(find@),
    ensures
        r@ == replace_all_spec(data@, find@, replace@),
{
    let find_bytes = Pattern::as_bytes(find);
    let positions = memmem_find_all(data, find_bytes.as_slice());
    let dlen = data.len();
    proof {
        lemma_exact_greedy(data@, find@, 0);
        lemma_greedy_fit(data@, find@, 0, 0);
        lemma_greedy_sound(data@, find@, 0);
    }
    let mut out: Vec<u8> = Vec::with_capacity(data.len());
    let mut last: usize = 0;
    let mut k: usize = 0;
    assert(positions@.skip(0) =~= positions@);
    while k < positions.len()
        invariant
            0 <= k <= positions@.len(),
            dlen == data@.len(),
            last <= data@.len(),
            find_bytes@.len() == find@.len(),
            !has_wildcard(find@),
            positions@ == greedy_matches(data@, find@, 0),
            forall|j: int| 0 <= j < positions@.len() ==> 0 <= #[trigger] positions@[j],
            forall|i: int, j: int|
                0 <= i < j < positions@.len() ==> #[trigger] positions@[i] + find@.len()
                    <= #[trigger] positions@[j],
            k > 0 ==> last == positions@[k - 1] + find@.len(),
            k == 0 ==> last == 0,
            positions_fit(positions@.skip(k as int), find@.len() as int, data@.len() as int, last as int),
            out@ + rewrite_from(data@, positions@.skip(k as int), find@, replace@, last as int)
                == rewrite_from(data@, positions@, find@, replace@, 0),
        decreases positions@.len() - k,
    {
        let ghost rest = positions@.skip(k as int);
        let pos = positions[k];
        assert(rest[0] == pos);
        assert(rest.drop_first() =~= positions@.skip(k + 1));
        assert(pos >= last) by {
            if k > 0 {
                assert(positions@[k - 1] + find@.len() <= positions@[k as int]);
            }
        }
        assert(pos + find@.len() <= data@.len());
        let ghost before = out@;
        out.extend_from_slice(&data[last..pos]);
        out.extend_from_slice(replace);
        assert(out@ =~= before + data@.subrange(last as int, pos as int) + replace@);
        last = pos + find_bytes.len();
        k = k + 1;
    }
    let ghost before = out@;
    out.extend_from_slice(&data[last..data.len()]);
    assert(positions@.skip(k as int) =~= Seq::<usize>::empty());
    assert(out@ =~= before + data@.subrange(last as int, data@.len() as int));
    out
}

} // verus!
