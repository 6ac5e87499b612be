//! The chunker: recursively splits a text and greedily merges the resulting
//! sub-spans into maximal chunks whose token count stays within the budget,
//! finding each merge boundary with an adaptive, ratio-guided binary search
//! that keeps the number of token-counter calls logarithmic.

use vstd::prelude::*;

use vstd::slice::{slice_index_get, slice_subrange};

use crate::counter::TokenCounter;
use crate::splitter::{lemma_first_punct_empty, spec_pieces, spec_sep_is_ws, spec_separator, Splitter};
use crate::text::{
    concat_all, is_space_class, join, lemma_concat_add, lemma_concat_push, lemma_join_push,
    lemma_ws_embeds_all_space, lemma_ws_embeds_concat, lemma_ws_embeds_refl, ws_embeds,
};

verus! {

/// Token count of the first `k` pieces joined with the separator.
pub open spec fn prefix_count<C: TokenCounter>(
    counter: &C,
    ps: Seq<Seq<char>>,
    sep: Seq<char>,
    k: int,
) -> usize {
    counter.spec_count(join(ps.take(k), sep))
}

/// The largest prefix length at most `n` whose joined token count stays
/// within the budget, or 0 when none does: exactly the length an exhaustive
/// probe of every prefix length would select.
pub open spec fn max_fit<C: TokenCounter>(
    counter: &C,
    ps: Seq<Seq<char>>,
    sep: Seq<char>,
    cap: usize,
    n: int,
) -> int
    decreases n,
{
    if n <= 0 {
        0
    } else if prefix_count(counter, ps, sep, n) <= cap {
        n
    } else {
        max_fit(counter, ps, sep, cap, n - 1)
    }
}

/// The token counts of the joined prefixes grow strictly with every piece.
pub open spec fn prefix_counts_strict<C: TokenCounter>(
    counter: &C,
    ps: Seq<Seq<char>>,
    sep: Seq<char>,
) -> bool {
    forall|k: int|
        1 <= k < ps.len() ==> #[trigger] prefix_count(counter, ps, sep, k) < prefix_count(
            counter,
            ps,
            sep,
            k + 1,
        )
}

proof fn lemma_max_fit_le<C: TokenCounter>(
    counter: &C,
    ps: Seq<Seq<char>>,
    sep: Seq<char>,
    cap: usize,
    n: int,
)
    requires
        n >= 0,
    ensures
        0 <= max_fit(counter, ps, sep, cap, n) <= n,
    decreases n,
{
    if n > 0 && prefix_count(counter, ps, sep, n) > cap {
        lemma_max_fit_le(counter, ps, sep, cap, n - 1);
    }
}

proof fn lemma_max_fit_lower<C: TokenCounter>(
    counter: &C,
    ps: Seq<Seq<char>>,
    sep: Seq<char>,
    cap: usize,
    k: int,
    n: int,
)
    requires
        0 <= k <= n,
        prefix_count(counter, ps, sep, k) <= cap,
    ensures
        max_fit(counter, ps, sep, cap, n) >= k,
    decreases n,
{
    if n > k && prefix_count(counter, ps, sep, n) > cap {
        lemma_max_fit_lower(counter, ps, sep, cap, k, n - 1);
    }
}

proof fn lemma_max_fit_upper<C: TokenCounter>(
    counter: &C,
    ps: Seq<Seq<char>>,
    sep: Seq<char>,
    cap: usize,
    m: int,
    n: int,
)
    requires
        1 <= m <= n,
        forall|j: int| m <= j <= n ==> #[trigger] prefix_count(counter, ps, sep, j) > cap,
    ensures
        max_fit(counter, ps, sep, cap, n) <= m - 1,
    decreases n,
{
    if n == m {
        lemma_max_fit_le(counter, ps, sep, cap, n - 1);
    } else {
        lemma_max_fit_upper(counter, ps, sep, cap, m, n - 1);
    }
}

/// Strictly growing prefix counts are in particular non-decreasing.
proof fn lemma_strict_counts_mono<C: TokenCounter>(
    counter: &C,
    ps: Seq<Seq<char>>,
    sep: Seq<char>,
    a: int,
    b: int,
)
    requires
        prefix_counts_strict(counter, ps, sep),
        1 <= a <= b <= ps.len(),
    ensures
        prefix_count(counter, ps, sep, a) <= prefix_count(counter, ps, sep, b),
    decreases b - a,
{
    if a < b {
        lemma_strict_counts_mono(counter, ps, sep, a, b - 1);
        assert(prefix_count(counter, ps, sep, b - 1) < prefix_count(counter, ps, sep, b));
    }
}

/// Every chunk's token count stays within the budget, except a chunk that is
/// a single indivisible character, which has nothing smaller to fall back to.
pub open spec fn chunks_ok<C: TokenCounter>(counter: &C, cap: usize, dv: Seq<Seq<char>>) -> bool {
    forall|k: int|
        0 <= k < dv.len() ==> counter.spec_count(#[trigger] dv[k]) <= cap || dv[k].len() == 1
}

/// No chunk is the empty string.
pub open spec fn all_nonempty(dv: Seq<Seq<char>>) -> bool {
    forall|k: int| 0 <= k < dv.len() ==> #[trigger] dv[k].len() > 0
}

proof fn lemma_ok_push<C: TokenCounter>(counter: &C, cap: usize, dv: Seq<Seq<char>>, x: Seq<char>)
    requires
        chunks_ok(counter, cap, dv),
        counter.spec_count(x) <= cap || x.len() == 1,
    ensures
        chunks_ok(counter, cap, dv.push(x)),
{
    assert forall|k: int| 0 <= k < dv.push(x).len() implies counter.spec_count(
        #[trigger] dv.push(x)[k],
    ) <= cap || dv.push(x)[k].len() == 1 by {
        if k < dv.len() {
            assert(dv.push(x)[k] == dv[k]);
        } else {
            assert(dv.push(x)[k] == x);
        }
    }
}

proof fn lemma_ok_add<C: TokenCounter>(
    counter: &C,
    cap: usize,
    a: Seq<Seq<char>>,
    b: Seq<Seq<char>>,
)
    requires
        chunks_ok(counter, cap, a),
        chunks_ok(counter, cap, b),
    ensures
        chunks_ok(counter, cap, a + b),
{
    assert forall|k: int| 0 <= k < (a + b).len() implies counter.spec_count(
        #[trigger] (a + b)[k],
    ) <= cap || (a + b)[k].len() == 1 by {
        if k < a.len() {
            assert((a + b)[k] == a[k]);
        } else {
            assert((a + b)[k] == b[k - a.len()]);
        }
    }
}

proof fn lemma_ok_update<C: TokenCounter>(
    counter: &C,
    cap: usize,
    dv: Seq<Seq<char>>,
    li: int,
    x: Seq<char>,
)
    requires
        chunks_ok(counter, cap, dv),
        counter.spec_count(x) <= cap || x.len() == 1,
        0 <= li < dv.len(),
    ensures
        chunks_ok(counter, cap, dv.update(li, x)),
{
    assert forall|k: int| 0 <= k < dv.update(li, x).len() implies counter.spec_count(
        #[trigger] dv.update(li, x)[k],
    ) <= cap || dv.update(li, x)[k].len() == 1 by {
        if k != li {
            assert(dv.update(li, x)[k] == dv[k]);
        }
    }
}

/// The text the first `i` pieces stand for, the boundary separator after
/// them included while pieces remain.
spec fn joined_prefix(ps: Seq<Seq<char>>, sep: Seq<char>, i: int) -> Seq<char> {
    if i <= 0 {
        Seq::empty()
    } else if i < ps.len() {
        join(ps.take(i), sep) + sep
    } else {
        join(ps, sep)
    }
}

/// Joining a prefix then a following stretch of pieces joins the longer
/// prefix.
proof fn lemma_join_decompose(ps: Seq<Seq<char>>, sep: Seq<char>, i: int, j: int)
    requires
        0 <= i < j <= ps.len(),
    ensures
        join(ps.take(j), sep) == if i == 0 {
            join(ps.subrange(i, j), sep)
        } else {
            join(ps.take(i), sep) + sep + join(ps.subrange(i, j), sep)
        },
    decreases j - i,
{
    if i == 0 {
        assert(ps.take(j) =~= ps.subrange(0, j));
    } else if j == i + 1 {
        assert(ps.subrange(i, j) =~= seq![ps[i]]);
        assert(join(seq![ps[i]], sep) == ps[i]);
        assert(ps.take(j) =~= ps.take(i).push(ps[i]));
        lemma_join_push(ps.take(i), sep, ps[i]);
    } else {
        lemma_join_decompose(ps, sep, i, j - 1);
        assert(ps.take(j) =~= ps.take(j - 1).push(ps[j - 1]));
        lemma_join_push(ps.take(j - 1), sep, ps[j - 1]);
        assert(ps.subrange(i, j) =~= ps.subrange(i, j - 1).push(ps[j - 1]));
        lemma_join_push(ps.subrange(i, j - 1), sep, ps[j - 1]);
        assert(join(ps.take(i), sep) + sep + (join(ps.subrange(i, j - 1), sep) + sep + ps[j - 1])
            =~= (join(ps.take(i), sep) + sep + join(ps.subrange(i, j - 1), sep)) + sep + ps[j
            - 1]);
    }
}

/// What the separator re-attachment does to the chunks gathered so far: the
/// boundary separator is appended to the last chunk when that stays within
/// budget, and becomes a chunk of its own otherwise.
pub open spec fn spec_attach<C: TokenCounter>(
    counter: &C,
    cap: usize,
    out: Seq<Seq<char>>,
    sep: Seq<char>,
) -> Seq<Seq<char>> {
    if out.len() == 0 {
        out.push(sep)
    } else if counter.spec_count(out.last() + sep) <= cap {
        out.update(out.len() - 1, out.last() + sep)
    } else {
        out.push(sep)
    }
}

/// The chunks with the empty ones removed, order kept.
pub open spec fn keep_nonempty(cs: Seq<Seq<char>>) -> Seq<Seq<char>>
    decreases cs.len(),
{
    if cs.len() == 0 {
        Seq::empty()
    } else if cs.last().len() > 0 {
        keep_nonempty(cs.drop_last()).push(cs.last())
    } else {
        keep_nonempty(cs.drop_last())
    }
}

/// The chunker's output as a mathematical function of the budget, the
/// counter and the text. It is defined whenever every merge the algorithm
/// performs meets the strictly-growing prefix-count condition that pins the
/// merge result to `max_fit`; the re-attachment and recursion decisions are
/// deterministic in any case. Empty chunks are dropped below the top level
/// only.
pub open spec fn spec_chunks<C: TokenCounter>(
    counter: &C,
    cap: usize,
    s: Seq<char>,
    recursion_depth: int,
) -> Option<Seq<Seq<char>>>
    decreases s.len(), spec_pieces(s).len() + 1,
{
    match spec_chunks_loop(
        counter,
        cap,
        s,
        spec_pieces(s),
        spec_separator(s),
        spec_sep_is_ws(s),
        0,
        Seq::empty(),
    ) {
        Option::Some(out) => Option::Some(
            if recursion_depth > 0 {
                keep_nonempty(out)
            } else {
                out
            },
        ),
        Option::None => Option::None,
    }
}

/// One walk over the pieces, from position `i` on, with the chunks gathered
/// so far in `out`: an over-budget piece is chunked recursively when it is
/// smaller than the whole span and emitted alone when it is not; a piece
/// within budget starts a maximal merge; a non-whitespace boundary separator
/// is re-attached while pieces remain.
pub open spec fn spec_chunks_loop<C: TokenCounter>(
    counter: &C,
    cap: usize,
    s: Seq<char>,
    ps: Seq<Seq<char>>,
    sep: Seq<char>,
    is_ws: bool,
    i: int,
    out: Seq<Seq<char>>,
) -> Option<Seq<Seq<char>>>
    decreases s.len(), ps.len() - i,
    via spec_chunks_loop_decreases::<C>
{
    if i < 0 || i >= ps.len() {
        Option::Some(out)
    } else {
        let stepped: Option<(int, Seq<Seq<char>>)> = if counter.spec_count(ps[i]) > cap {
            if ps[i].len() < s.len() {
                match spec_chunks(counter, cap, ps[i], 1) {
                    Option::Some(sub) => Option::Some((i + 1, out + sub)),
                    Option::None => Option::None,
                }
            } else {
                Option::Some((i + 1, out.push(ps[i])))
            }
        } else {
            let tail = ps.subrange(i, ps.len() as int);
            if prefix_counts_strict(counter, tail, sep) {
                let k0 = max_fit(counter, tail, sep, cap, ps.len() - i);
                let k = if k0 < 1 {
                    1
                } else {
                    k0
                };
                Option::Some((i + k, out.push(join(ps.subrange(i, i + k), sep))))
            } else {
                Option::None
            }
        };
        match stepped {
            Option::Some(st) => {
                let out2 = if !is_ws && st.0 < ps.len() {
                    spec_attach(counter, cap, st.1, sep)
                } else {
                    st.1
                };
                spec_chunks_loop(counter, cap, s, ps, sep, is_ws, st.0, out2)
            },
            Option::None => Option::None,
        }
    }
}

#[via_fn]
proof fn spec_chunks_loop_decreases<C: TokenCounter>(
    counter: &C,
    cap: usize,
    s: Seq<char>,
    ps: Seq<Seq<char>>,
    sep: Seq<char>,
    is_ws: bool,
    i: int,
    out: Seq<Seq<char>>,
) {
    if 0 <= i < ps.len() {
        if counter.spec_count(ps[i]) <= cap {
            let tail = ps.subrange(i, ps.len() as int);
            lemma_max_fit_le(counter, tail, sep, cap, ps.len() - i);
        }
    }
}

/// Relies on `bisection::bisect_left`: on a slice sorted in non-decreasing
/// order it returns the leftmost index where `x` could be inserted while
/// keeping the order, so everything before that index is strictly below `x`
/// and everything from it on is at least `x`.
#[verifier::external_body]
fn bisect_left_u64(a: &[u64], x: u64) -> (r: usize)
    requires
        forall|i: int, j: int| 0 <= i <= j < a@.len() ==> a@[i] <= a@[j],
    ensures
        r <= a@.len(),
        forall|j: int| 0 <= j < r ==> a@[j] < x,
        forall|j: int| r <= j < a@.len() ==> a@[j] >= x,
{
    bisection::bisect_left(a, &x)
}

/// The first `k` pieces joined with the separator.
fn join_prefix(splits: &[&str], k: usize, sep: &str) -> (r: String)
    requires
        k <= splits@.len(),
    ensures
        r@ == join(splits.deep_view().take(k as int), sep@),
{
    let mut r = String::new();
    proof {
        assert(join(splits.deep_view().take(0), sep@) =~= Seq::<char>::empty());
    }
    let mut i: usize = 0;
    while i < k
        invariant
            i <= k <= splits@.len(),
            r@ == join(splits.deep_view().take(i as int), sep@),
        decreases k - i,
    {
        if i > 0 {
            r.append(sep);
        }
        let piece: &str = *slice_index_get(splits, i);
        r.append(piece);
        proof {
            let dv = splits.deep_view();
            assert(dv[i as int] == splits@[i as int]@);
            assert(dv.take(i + 1) =~= dv.take(i as int).push(dv[i as int]));
            lemma_join_push(dv.take(i as int), sep@, dv[i as int]);
        }
        i = i + 1;
    }
    r
}

/// Chunks texts into segments of at most `chunk_size` tokens, as measured by
/// the token counter, splitting on the most desirable separators first.
pub struct Chunker<C: TokenCounter> {
    /// The maximum number of tokens allowed in a chunk.
    pub chunk_size: usize,
    /// The capability that counts the tokens of a candidate chunk.
    pub token_counter: C,
    /// The splitting policy.
    pub splitter: Splitter,
}

impl<C: TokenCounter> Chunker<C> {
    /// Creates a new chunker with the default splitter. The budget must allow
    /// at least one token per chunk.
    pub fn new(chunk_size: usize, token_counter: C) -> (r: Self)
        requires
            chunk_size >= 1,
        ensures
            r.chunk_size == chunk_size,
            r.token_counter == token_counter,
            r.splitter == (Splitter {  }),
    {
        Chunker { chunk_size, token_counter, splitter: Splitter::default() }
    }

    /// Replaces the splitter.
    pub fn splitter(self, splitter: Splitter) -> (r: Self)
        ensures
            r.chunk_size == self.chunk_size,
            r.token_counter == self.token_counter,
            r.splitter == splitter,
    {
        Chunker { splitter, ..self }
    }

    /// Merges the longest prefix of the splits whose join stays within the
    /// token budget into one chunk.
    ///
    /// Returns how many splits were consumed and their join. The consumed
    /// count never exceeds the number of splits, at least one split is
    /// consumed when any are given, and the returned chunk's token count is
    /// within the budget. When the prefix token counts grow strictly, the
    /// consumed count is exactly the one an exhaustive probe of every prefix
    /// length would select, whatever the internal ratio estimate did: the
    /// estimate only steers how many token counts are taken.
    pub fn merge_splits(&self, splits: &[&str], separator: &str) -> (r: (usize, String))
        requires
            splits@.len() > 0 ==> self.token_counter.spec_count(splits.deep_view()[0])
                <= self.chunk_size,
        ensures
            r.0 <= splits@.len(),
            splits@.len() > 0 ==> 1 <= r.0,
            r.1@ == join(splits.deep_view().take(r.0 as int), separator@),
            splits@.len() > 0 ==> self.token_counter.spec_count(r.1@) <= self.chunk_size,
            splits@.len() > 0 ==> r.0 == splits@.len() || prefix_count(
                &self.token_counter,
                splits.deep_view(),
                separator@,
                r.0 + 1,
            ) > self.chunk_size || prefix_count(
                &self.token_counter,
                splits.deep_view(),
                separator@,
                r.0 as int,
            ) == self.chunk_size,
            prefix_counts_strict(&self.token_counter, splits.deep_view(), separator@) ==> r.0
                == max_fit(
                &self.token_counter,
                splits.deep_view(),
                separator@,
                self.chunk_size,
                splits@.len() as int,
            ),
    {
        let n = splits.len();
        let ghost dv = splits.deep_view();
        let ghost sep = separator@;
        let ghost counter = &self.token_counter;
        let ghost cap = self.chunk_size;
        if n == 0 {
            let empty = String::new();
            proof {
                assert(join(dv.take(0), sep) =~= Seq::<char>::empty());
            }
            return (0, empty);
        }
        // Cumulative byte lengths of the splits, saturating: they only steer
        // the search estimate.
        let mut cum: Vec<u64> = Vec::new();
        let mut idx: usize = 0;
        while idx < n
            invariant
                idx <= n == splits@.len(),
                cum@.len() == idx,
                forall|i: int, j: int| 0 <= i <= j < idx ==> cum@[i] <= cum@[j],
            decreases n - idx,
        {
            let piece: &str = *slice_index_get(splits, idx);
            let l: u64 = piece.len() as u64;
            let prev: u64 = if idx == 0 {
                0
            } else {
                cum[idx - 1]
            };
            let next: u64 = if prev <= u64::MAX - l {
                prev + l
            } else {
                u64::MAX
            };
            cum.push(next);
            idx = idx + 1;
        }
        let mut lo: usize = 1;
        let mut hi: usize = n;
        let mut exact: bool = false;
        // Running conversion-ratio estimate as a rational, primed at five
        // until the first real measurement refines it; it only steers where
        // the next probe lands, never the outcome.
        let mut num: u64 = 5;
        let mut den: u64 = 1;
        proof {
            assert(dv.take(1) =~= Seq::<Seq<char>>::empty().push(dv[0]));
            lemma_join_push(Seq::<Seq<char>>::empty(), sep, dv[0]);
            assert(prefix_count(counter, dv, sep, 1) == counter.spec_count(dv[0]));
            lemma_max_fit_lower(counter, dv, sep, cap, 1, n as int);
            lemma_max_fit_le(counter, dv, sep, cap, n as int);
        }
        while lo < hi && !exact
            invariant
                n == splits@.len(),
                dv == splits.deep_view(),
                sep == separator@,
                counter == &self.token_counter,
                cap == self.chunk_size,
                cum@.len() == n,
                forall|i: int, j: int| 0 <= i <= j < n ==> cum@[i] <= cum@[j],
                1 <= lo <= hi <= n,
                den >= 1,
                prefix_count(counter, dv, sep, lo as int) <= cap,
                exact ==> prefix_count(counter, dv, sep, lo as int) == cap,
                !exact ==> hi == n || prefix_count(counter, dv, sep, hi + 1) > cap,
                !exact && prefix_counts_strict(counter, dv, sep) ==> lo <= max_fit(
                    counter,
                    dv,
                    sep,
                    cap,
                    n as int,
                ) <= hi,
                exact && prefix_counts_strict(counter, dv, sep) ==> max_fit(
                    counter,
                    dv,
                    sep,
                    cap,
                    n as int,
                ) == lo,
            decreases hi - lo,
        {
            let cs64: u64 = self.chunk_size as u64;
            let target: u64 = match cs64.checked_mul(num) {
                Option::Some(p) => p / den,
                Option::None => u64::MAX,
            };
            let window = slice_subrange(cum.as_slice(), lo, hi);
            let inc = bisect_left_u64(window, target);
            let est_idx: usize = if lo + inc > hi - 1 {
                hi - 1
            } else {
                lo + inc
            };
            let mid = est_idx + 1;
            let cand = join_prefix(splits, mid, separator);
            let t = self.token_counter.count(cand.as_str());
            proof {
                assert(t == prefix_count(counter, dv, sep, mid as int));
            }
            if t > self.chunk_size {
                proof {
                    if prefix_counts_strict(counter, dv, sep) {
                        assert forall|j: int| mid <= j <= n implies #[trigger] prefix_count(
                            counter,
                            dv,
                            sep,
                            j,
                        ) > cap by {
                            lemma_strict_counts_mono(counter, dv, sep, mid as int, j);
                        }
                        lemma_max_fit_upper(counter, dv, sep, cap, mid as int, n as int);
                    }
                }
                hi = mid - 1;
            } else if t == self.chunk_size {
                proof {
                    if prefix_counts_strict(counter, dv, sep) {
                        lemma_max_fit_lower(counter, dv, sep, cap, mid as int, n as int);
                        if mid < n {
                            assert forall|j: int| mid + 1 <= j <= n implies #[trigger] prefix_count(
                                counter,
                                dv,
                                sep,
                                j,
                            ) > cap by {
                                assert(prefix_count(counter, dv, sep, mid as int) < prefix_count(
                                    counter,
                                    dv,
                                    sep,
                                    mid + 1,
                                ));
                                lemma_strict_counts_mono(counter, dv, sep, mid + 1, j);
                            }
                            lemma_max_fit_upper(counter, dv, sep, cap, mid + 1, n as int);
                        } else {
                            lemma_max_fit_le(counter, dv, sep, cap, n as int);
                        }
                    }
                }
                lo = mid;
                exact = true;
            } else {
                proof {
                    lemma_max_fit_lower(counter, dv, sep, cap, mid as int, n as int);
                }
                lo = mid;
            }
            let cm = cum[est_idx];
            if t > 0 && cm > 0 {
                num = t as u64;
                den = cm;
            }
        }
        let merged = join_prefix(splits, lo, separator);
        (lo, merged)
    }

    /// Recursively chunks the text. Every chunk stays within the token budget
    /// unless it is a single indivisible character; concatenating the chunks
    /// restores the text up to whitespace separators dropped at chunk
    /// boundaries; below the top level no empty chunk is returned, while at
    /// the top level empty boundary fragments are retained; and whenever the
    /// mathematical model `spec_chunks` is defined the result is exactly its
    /// value, so the output is a function of the budget, the counter and the
    /// text alone.
    #[verifier::rlimit(60)]
    pub fn _chunk(&self, text: &str, recursion_depth: usize) -> (chunks: Vec<String>)
        ensures
            chunks_ok(&self.token_counter, self.chunk_size, chunks.deep_view()),
            ws_embeds(concat_all(chunks.deep_view()), text@),
            recursion_depth > 0 ==> all_nonempty(chunks.deep_view()),
            text@.len() == 0 ==> chunks@.len() == 0,
            spec_chunks(&self.token_counter, self.chunk_size, text@, recursion_depth as int)
                is Some ==> chunks.deep_view() == spec_chunks(
                &self.token_counter,
                self.chunk_size,
                text@,
                recursion_depth as int,
            ).unwrap(),
        decreases text@.len(),
    {
        let (separator, separator_is_whitespace, text_splits) = self.splitter.split_text(text);
        let ghost pieces = text_splits.deep_view();
        let ghost sep = separator@;
        let ghost counter = &self.token_counter;
        let ghost cap = self.chunk_size;
        let n_text = text.unicode_len();
        let next_depth: usize = if recursion_depth < usize::MAX {
            recursion_depth + 1
        } else {
            recursion_depth
        };

        let mut chunks: Vec<String> = Vec::new();
        let mut i: usize = 0;
        let ns = text_splits.len();
        let ghost full = spec_chunks_loop(
            counter,
            cap,
            text@,
            pieces,
            sep,
            separator_is_whitespace,
            0,
            Seq::<Seq<char>>::empty(),
        );
        proof {
            assert(chunks.deep_view() =~= Seq::<Seq<char>>::empty());
            assert(concat_all(chunks.deep_view()) =~= Seq::<char>::empty());
            assert(ws_embeds(concat_all(chunks.deep_view()), joined_prefix(pieces, sep, 0)));
            if text@.len() == 0 {
                lemma_first_punct_empty(text@, 0);
                assert(spec_separator(text@) == Seq::<char>::empty());
                assert(spec_pieces(text@) =~= Seq::<Seq<char>>::empty());
                assert(pieces.len() == 0);
            }
        }
        while i < ns
            invariant
                ns == pieces.len(),
                pieces == text_splits.deep_view(),
                sep == separator@,
                n_text == text@.len(),
                join(pieces, sep) == text@,
                sep.len() == 0 ==> forall|k: int|
                    0 <= k < pieces.len() ==> #[trigger] pieces[k].len() == 1,
                sep.len() >= 1 ==> forall|k: int|
                    0 <= k < pieces.len() ==> #[trigger] pieces[k].len() + sep.len() <= text@.len(),
                separator_is_whitespace ==> forall|j: int|
                    0 <= j < sep.len() ==> is_space_class(#[trigger] sep[j]),
                !separator_is_whitespace ==> sep.len() == 1,
                i <= ns,
                next_depth >= 1,
                counter == &self.token_counter,
                cap == self.chunk_size,
                full == spec_chunks_loop(
                    counter,
                    cap,
                    text@,
                    pieces,
                    sep,
                    separator_is_whitespace,
                    0,
                    Seq::<Seq<char>>::empty(),
                ),
                full is Some ==> spec_chunks_loop(
                    counter,
                    cap,
                    text@,
                    pieces,
                    sep,
                    separator_is_whitespace,
                    i as int,
                    chunks.deep_view(),
                ) == full,
                chunks_ok(&self.token_counter, self.chunk_size, chunks.deep_view()),
                ws_embeds(concat_all(chunks.deep_view()), joined_prefix(pieces, sep, i as int)),
            decreases ns - i,
        {
            let ghost entry_dv = chunks.deep_view();
            let ghost i0 = i as int;
            let piece: &str = text_splits[i];
            proof {
                assert(piece@ == pieces[i0]);
            }
            let cnt = self.token_counter.count(piece);
            if cnt > self.chunk_size {
                let piece_len = piece.unicode_len();
                if piece_len < n_text {
                    let sub_chunks = self._chunk(piece, next_depth);
                    let ghost sub_dv = sub_chunks.deep_view();
                    let mut q: usize = 0;
                    let nq = sub_chunks.len();
                    while q < nq
                        invariant
                            q <= nq == sub_dv.len(),
                            sub_dv == sub_chunks.deep_view(),
                            chunks.deep_view() == entry_dv + sub_dv.take(q as int),
                            chunks_ok(&self.token_counter, self.chunk_size, entry_dv),
                            chunks_ok(&self.token_counter, self.chunk_size, sub_dv),
                        decreases nq - q,
                    {
                        let c: String = sub_chunks[q].clone();
                        let ghost before = chunks.deep_view();
                        chunks.push(c);
                        proof {
                            assert(chunks.deep_view() =~= before.push(sub_dv[q as int]));
                            assert(entry_dv + sub_dv.take(q + 1) =~= (entry_dv + sub_dv.take(
                                q as int,
                            )).push(sub_dv[q as int]));
                        }
                        q = q + 1;
                    }
                    proof {
                        assert(sub_dv.take(nq as int) =~= sub_dv);
                        assert(chunks.deep_view() == entry_dv + sub_dv);
                        lemma_ok_add(&self.token_counter, self.chunk_size, entry_dv, sub_dv);
                        lemma_concat_add(entry_dv, sub_dv);
                        lemma_ws_embeds_concat(
                            concat_all(entry_dv),
                            joined_prefix(pieces, sep, i0),
                            concat_all(sub_dv),
                            pieces[i0],
                        );
                        assert(pieces.subrange(i0, i0 + 1) =~= seq![pieces[i0]]);
                        assert(join(seq![pieces[i0]], sep) == pieces[i0]);
                        lemma_join_decompose(pieces, sep, i0, i0 + 1);
                        if i0 == 0 {
                            assert(joined_prefix(pieces, sep, i0) + pieces[i0] =~= join(
                                pieces.take(i0 + 1),
                                sep,
                            ));
                        } else {
                            assert(joined_prefix(pieces, sep, i0) + pieces[i0] =~= join(
                                pieces.take(i0),
                                sep,
                            ) + sep + join(pieces.subrange(i0, i0 + 1), sep));
                        }
                        assert(ws_embeds(
                            concat_all(chunks.deep_view()),
                            join(pieces.take(i0 + 1), sep),
                        ));
                        if full is Some {
                            if spec_chunks(counter, cap, pieces[i0], 1) is None {
                                assert(spec_chunks_loop(
                                    counter,
                                    cap,
                                    text@,
                                    pieces,
                                    sep,
                                    separator_is_whitespace,
                                    i0,
                                    entry_dv,
                                ) is None);
                                assert(false);
                            }
                            assert(next_depth >= 1);
                            assert(spec_chunks(counter, cap, pieces[i0], next_depth as int)
                                == spec_chunks(counter, cap, pieces[i0], 1));
                            assert(sub_dv == spec_chunks(counter, cap, pieces[i0], 1).unwrap());
                            assert(chunks.deep_view() == entry_dv + spec_chunks(
                                counter,
                                cap,
                                pieces[i0],
                                1,
                            ).unwrap());
                        }
                    }
                    i = i + 1;
                } else {
                    // A split on a real separator always leaves strictly
                    // shorter pieces, so only the character-by-character
                    // split reaches here: the piece is one character that
                    // exceeds the budget on its own and has nothing smaller
                    // to fall back to.
                    proof {
                        if sep.len() >= 1 {
                            assert(pieces[i0].len() + sep.len() <= text@.len());
                            assert(false);
                        }
                        assert(pieces[i0].len() == 1);
                    }
                    let owned = piece.to_owned();
                    let ghost before = chunks.deep_view();
                    chunks.push(owned);
                    proof {
                        assert(chunks.deep_view() =~= before.push(pieces[i0]));
                        lemma_ok_push(
                            &self.token_counter,
                            self.chunk_size,
                            before,
                            pieces[i0],
                        );
                        lemma_concat_push(before, pieces[i0]);
                        lemma_ws_embeds_refl(pieces[i0]);
                        lemma_ws_embeds_concat(
                            concat_all(before),
                            joined_prefix(pieces, sep, i0),
                            pieces[i0],
                            pieces[i0],
                        );
                        assert(pieces.subrange(i0, i0 + 1) =~= seq![pieces[i0]]);
                        assert(join(seq![pieces[i0]], sep) == pieces[i0]);
                        lemma_join_decompose(pieces, sep, i0, i0 + 1);
                        if i0 == 0 {
                            assert(joined_prefix(pieces, sep, i0) + pieces[i0] =~= join(
                                pieces.take(i0 + 1),
                                sep,
                            ));
                        } else {
                            assert(joined_prefix(pieces, sep, i0) + pieces[i0] =~= join(
                                pieces.take(i0),
                                sep,
                            ) + sep + join(pieces.subrange(i0, i0 + 1), sep));
                        }
                        assert(ws_embeds(
                            concat_all(chunks.deep_view()),
                            join(pieces.take(i0 + 1), sep),
                        ));
                    }
                    i = i + 1;
                }
            } else {
                let rest = slice_subrange(text_splits.as_slice(), i, ns);
                proof {
                    assert forall|d: int| 0 <= d < rest.deep_view().len() implies rest.deep_view()[d]
                        == pieces.subrange(i0, ns as int)[d] by {
                        assert(rest@[d] == text_splits@[i0 + d]);
                    }
                    assert(rest.deep_view() =~= pieces.subrange(i0, ns as int));
                    assert(rest.deep_view()[0] == pieces[i0]);
                }
                let (split_idx, merged_chunk) = self.merge_splits(rest, separator);
                let ghost mc = merged_chunk@;
                let ghost before = chunks.deep_view();
                proof {
                    assert(rest.deep_view().take(split_idx as int) =~= pieces.subrange(
                        i0,
                        i0 + split_idx,
                    ));
                }
                chunks.push(merged_chunk);
                proof {
                    assert(chunks.deep_view() =~= before.push(mc));
                    lemma_ok_push(&self.token_counter, self.chunk_size, before, mc);
                    lemma_concat_push(before, mc);
                    lemma_ws_embeds_refl(mc);
                    lemma_ws_embeds_concat(
                        concat_all(before),
                        joined_prefix(pieces, sep, i0),
                        mc,
                        mc,
                    );
                    lemma_join_decompose(pieces, sep, i0, i0 + split_idx);
                    if i0 == 0 {
                        assert(joined_prefix(pieces, sep, i0) + mc =~= join(
                            pieces.take(i0 + split_idx),
                            sep,
                        ));
                    } else {
                        assert(joined_prefix(pieces, sep, i0) + mc =~= join(pieces.take(i0), sep)
                            + sep + join(pieces.subrange(i0, i0 + split_idx), sep));
                    }
                    assert(ws_embeds(
                        concat_all(chunks.deep_view()),
                        join(pieces.take(i0 + split_idx), sep),
                    ));
                    if full is Some {
                        let tail = pieces.subrange(i0, ns as int);
                        if !prefix_counts_strict(counter, tail, sep) {
                            assert(spec_chunks_loop(
                                counter,
                                cap,
                                text@,
                                pieces,
                                sep,
                                separator_is_whitespace,
                                i0,
                                entry_dv,
                            ) is None);
                            assert(false);
                        }
                        assert(split_idx == max_fit(counter, tail, sep, cap, ns - i0));
                        assert(split_idx >= 1);
                        assert(mc == join(pieces.subrange(i0, i0 + split_idx), sep));
                    }
                }
                i = i + split_idx;
            }
            // The main step left the chunks standing for the first `i` pieces
            // without their trailing boundary separator.
            let ghost inew = i as int;
            let ghost mid_dv = chunks.deep_view();
            let ghost out2 = if !separator_is_whitespace && inew < ns as int {
                spec_attach(counter, cap, mid_dv, sep)
            } else {
                mid_dv
            };
            proof {
                assert(ws_embeds(concat_all(chunks.deep_view()), join(pieces.take(inew), sep)));
                if full is Some {
                    assert(spec_chunks_loop(
                        counter,
                        cap,
                        text@,
                        pieces,
                        sep,
                        separator_is_whitespace,
                        i0,
                        entry_dv,
                    ) == spec_chunks_loop(
                        counter,
                        cap,
                        text@,
                        pieces,
                        sep,
                        separator_is_whitespace,
                        inew,
                        out2,
                    ));
                }
            }
            if !separator_is_whitespace && i < ns {
                // A non-whitespace separator is kept: appended to the last
                // chunk when that stays within budget, emitted alone else.
                let mut attach_done = false;
                if chunks.len() > 0 {
                    let last_idx = chunks.len() - 1;
                    let cand = chunks[last_idx].clone().concat(separator);
                    let ghost cv = cand@;
                    let tc = self.token_counter.count(cand.as_str());
                    proof {
                        assert(mid_dv[last_idx as int] == chunks@[last_idx as int]@);
                        assert(cv == mid_dv.last() + sep);
                    }
                    if tc <= self.chunk_size {
                        let ghost before = chunks.deep_view();
                        chunks[last_idx] = cand;
                        proof {
                            let li = last_idx as int;
                            assert(chunks.deep_view() =~= before.update(li, cv));
                            lemma_ok_update(&self.token_counter, self.chunk_size, before, li, cv);
                            let front = before.take(li);
                            assert(before =~= front.push(before[li]));
                            lemma_concat_push(front, before[li]);
                            assert(before.update(li, cv) =~= front.push(cv));
                            lemma_concat_push(front, cv);
                            assert(concat_all(chunks.deep_view()) =~= concat_all(before) + sep);
                            lemma_ws_embeds_refl(sep);
                            lemma_ws_embeds_concat(
                                concat_all(before),
                                join(pieces.take(inew), sep),
                                sep,
                                sep,
                            );
                            assert(before == mid_dv);
                            assert(chunks.deep_view() == spec_attach(counter, cap, mid_dv, sep));
                        }
                        attach_done = true;
                    } else {
                        proof {
                            assert(counter.spec_count(mid_dv.last() + sep) > cap);
                        }
                    }
                }
                if !attach_done {
                    let ghost before = chunks.deep_view();
                    let sep_owned = separator.to_owned();
                    chunks.push(sep_owned);
                    proof {
                        assert(chunks.deep_view() =~= before.push(sep));
                        lemma_ok_push(&self.token_counter, self.chunk_size, before, sep);
                        lemma_concat_push(before, sep);
                        lemma_ws_embeds_refl(sep);
                        lemma_ws_embeds_concat(
                            concat_all(before),
                            join(pieces.take(inew), sep),
                            sep,
                            sep,
                        );
                        assert(before == mid_dv);
                        assert(chunks.deep_view() == spec_attach(counter, cap, mid_dv, sep));
                    }
                }
                proof {
                    assert(joined_prefix(pieces, sep, inew) == join(pieces.take(inew), sep) + sep);
                    if full is Some {
                        assert(chunks.deep_view() == out2);
                        assert(spec_chunks_loop(
                            counter,
                            cap,
                            text@,
                            pieces,
                            sep,
                            separator_is_whitespace,
                            inew,
                            chunks.deep_view(),
                        ) == full);
                    }
                }
            } else {
                proof {
                    if i < ns {
                        lemma_ws_embeds_all_space(sep);
                        lemma_ws_embeds_concat(
                            concat_all(chunks.deep_view()),
                            join(pieces.take(inew), sep),
                            Seq::<char>::empty(),
                            sep,
                        );
                        assert(concat_all(chunks.deep_view()) + Seq::<char>::empty()
                            =~= concat_all(chunks.deep_view()));
                    } else {
                        assert(pieces.take(inew) =~= pieces);
                    }
                    if full is Some {
                        assert(chunks.deep_view() == out2);
                        assert(spec_chunks_loop(
                            counter,
                            cap,
                            text@,
                            pieces,
                            sep,
                            separator_is_whitespace,
                            inew,
                            chunks.deep_view(),
                        ) == full);
                    }
                }
            }
        }
        proof {
            assert(pieces.take(ns as int) =~= pieces);
            assert(ws_embeds(concat_all(chunks.deep_view()), text@));
            if full is Some {
                assert(full == Option::Some(chunks.deep_view()));
            }
            if text@.len() == 0 {
                assert(full == Option::Some(Seq::<Seq<char>>::empty()));
                assert(chunks.deep_view().len() == 0);
                assert(chunks@.len() == 0);
            }
        }
        if recursion_depth > 0 {
            let ghost full_dv = chunks.deep_view();
            let mut kept: Vec<String> = Vec::new();
            let mut q: usize = 0;
            let nq = chunks.len();
            proof {
                assert(kept.deep_view() =~= Seq::<Seq<char>>::empty());
                assert(concat_all(kept.deep_view()) =~= concat_all(full_dv.take(0)));
                assert(kept.deep_view() == keep_nonempty(full_dv.take(0)));
            }
            while q < nq
                invariant
                    q <= nq == full_dv.len(),
                    full_dv == chunks.deep_view(),
                    chunks_ok(&self.token_counter, self.chunk_size, full_dv),
                    chunks_ok(&self.token_counter, self.chunk_size, kept.deep_view()),
                    all_nonempty(kept.deep_view()),
                    concat_all(kept.deep_view()) == concat_all(full_dv.take(q as int)),
                    kept.deep_view() == keep_nonempty(full_dv.take(q as int)),
                decreases nq - q,
            {
                let ghost q0 = q as int;
                proof {
                    assert(full_dv.take(q0 + 1) =~= full_dv.take(q0).push(full_dv[q0]));
                    lemma_concat_push(full_dv.take(q0), full_dv[q0]);
                    assert(full_dv.take(q0 + 1).drop_last() =~= full_dv.take(q0));
                    assert(full_dv.take(q0 + 1).last() == full_dv[q0]);
                }
                let c: String = chunks[q].clone();
                if c.as_str().unicode_len() > 0 {
                    let ghost before = kept.deep_view();
                    kept.push(c);
                    proof {
                        assert(kept.deep_view() =~= before.push(full_dv[q0]));
                        lemma_ok_push(&self.token_counter, self.chunk_size, before, full_dv[q0]);
                        lemma_concat_push(before, full_dv[q0]);
                    }
                } else {
                    proof {
                        assert(full_dv[q0].len() == 0);
                        assert(concat_all(full_dv.take(q0)) + full_dv[q0] =~= concat_all(
                            full_dv.take(q0),
                        ));
                    }
                }
                q = q + 1;
            }
            proof {
                assert(full_dv.take(nq as int) =~= full_dv);
                assert(kept.deep_view() == keep_nonempty(full_dv));
                if spec_chunks(counter, cap, text@, recursion_depth as int) is Some {
                    assert(full is Some);
                    assert(spec_chunks(counter, cap, text@, recursion_depth as int)
                        == Option::Some(keep_nonempty(full_dv)));
                }
                if text@.len() == 0 {
                    assert(keep_nonempty(full_dv) =~= Seq::<Seq<char>>::empty());
                    assert(kept@.len() == 0);
                }
            }
            return kept;
        }
        proof {
            if spec_chunks(counter, cap, text@, recursion_depth as int) is Some {
                assert(full is Some);
                assert(spec_chunks(counter, cap, text@, recursion_depth as int) == Option::Some(
                    chunks.deep_view(),
                ));
            }
        }
        chunks
    }

    /// Chunks the text into segments of at most `chunk_size` tokens, except
    /// that a single indivisible character may stand alone over budget.
    /// Concatenating the returned chunks restores the text up to whitespace
    /// separators dropped at chunk boundaries. Whenever the mathematical
    /// model `spec_chunks` is defined — every merge the run performs meets
    /// the strictly-growing prefix-count condition — the result equals the
    /// model's value at top level, empty boundary fragments retained, so
    /// equal inputs give equal outputs.
    pub fn chunk(&self, text: &str) -> (chunks: Vec<String>)
        ensures
            chunks_ok(&self.token_counter, self.chunk_size, chunks.deep_view()),
            ws_embeds(concat_all(chunks.deep_view()), text@),
            text@.len() == 0 ==> chunks@.len() == 0,
            spec_chunks(&self.token_counter, self.chunk_size, text@, 0) is Some ==> chunks.deep_view()
                == spec_chunks(&self.token_counter, self.chunk_size, text@, 0).unwrap(),
    {
        self._chunk(text, 0)
    }
}

} // verus!
