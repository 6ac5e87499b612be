//! Mathematical model of the text operations the chunker relies on:
//! character classes, maximal runs, literal splitting and joining, and a
//! "whitespace embedding" relation used to state the reconstruction property.

use vstd::prelude::*;

verus! {

/// The three whitespace separator classes, in falling priority.
#[derive(Clone, Copy, PartialEq, Eq, Structural)]
pub enum CharClass {
    LineBreak,
    Tab,
    Space,
}

/// Newline or carriage return.
pub open spec fn is_line_break(c: char) -> bool {
    c as u32 == 0x0A || c as u32 == 0x0D
}

/// Horizontal tab.
pub open spec fn is_tab_char(c: char) -> bool {
    c as u32 == 0x09
}

/// Unicode whitespace: the character class a whitespace pattern matches.
pub open spec fn is_space_class(c: char) -> bool {
    let u = c as u32;
    u == 0x20 || u == 0x09 || u == 0x0A || u == 0x0B || u == 0x0C || u == 0x0D || u == 0x85
        || u == 0xA0 || u == 0x1680 || (0x2000 <= u && u <= 0x200A) || u == 0x2028 || u == 0x2029
        || u == 0x202F || u == 0x205F || u == 0x3000
}

pub open spec fn in_class(cls: CharClass, c: char) -> bool {
    match cls {
        CharClass::LineBreak => is_line_break(c),
        CharClass::Tab => is_tab_char(c),
        CharClass::Space => is_space_class(c),
    }
}

/// Every character of every separator class is whitespace.
pub proof fn lemma_class_chars_are_space(cls: CharClass, c: char)
    ensures
        in_class(cls, c) ==> is_space_class(c),
{
}

pub open spec fn contains_class(s: Seq<char>, cls: CharClass) -> bool {
    exists|i: int| 0 <= i < s.len() && in_class(cls, s[i])
}

/// Length of the run of class characters beginning at position `i`.
pub open spec fn run_len_at(s: Seq<char>, cls: CharClass, i: int) -> nat
    decreases s.len() - i when 0 <= i <= s.len()
{
    if 0 <= i < s.len() && in_class(cls, s[i]) {
        1 + run_len_at(s, cls, i + 1)
    } else {
        0
    }
}

/// A maximal run of class characters begins at position `i`.
pub open spec fn starts_run(s: Seq<char>, cls: CharClass, i: int) -> bool {
    0 <= i < s.len() && in_class(cls, s[i]) && (i == 0 || !in_class(cls, s[i - 1]))
}

/// Prefer the earlier run on equal lengths, the longer run otherwise.
pub open spec fn combine_runs(a: Option<(int, int)>, b: Option<(int, int)>) -> Option<(int, int)> {
    match (a, b) {
        (Option::None, _) => b,
        (Option::Some(x), Option::None) => a,
        (Option::Some(x), Option::Some(y)) => if x.1 >= y.1 {
            a
        } else {
            b
        },
    }
}

/// The leftmost-longest maximal run of class characters at or after `i`:
/// its start and its length.
pub open spec fn best_run_from(s: Seq<char>, cls: CharClass, i: int) -> Option<(int, int)>
    decreases s.len() - i when 0 <= i
    via best_run_from_decreases
{
    if i >= s.len() {
        Option::None
    } else if starts_run(s, cls, i) {
        combine_runs(
            Option::Some((i, run_len_at(s, cls, i) as int)),
            best_run_from(s, cls, i + run_len_at(s, cls, i)),
        )
    } else {
        best_run_from(s, cls, i + 1)
    }
}

#[via_fn]
proof fn best_run_from_decreases(s: Seq<char>, cls: CharClass, i: int) {
    if 0 <= i < s.len() && starts_run(s, cls, i) {
        assert(run_len_at(s, cls, i) >= 1);
        lemma_run_len_within(s, cls, i);
    }
}

/// The run found by `best_run_from` is a well-formed run inside `s`.
pub proof fn lemma_best_run_valid(s: Seq<char>, cls: CharClass, i: int)
    requires
        0 <= i,
        best_run_from(s, cls, i).is_some(),
    ensures
        ({
            let (st, l) = best_run_from(s, cls, i).unwrap();
            &&& i <= st
            &&& starts_run(s, cls, st)
            &&& l == run_len_at(s, cls, st)
            &&& 1 <= l
            &&& st + l <= s.len()
        }),
    decreases s.len() - i,
{
    if i >= s.len() {
    } else if starts_run(s, cls, i) {
        lemma_run_len_within(s, cls, i);
        let rest = best_run_from(s, cls, i + run_len_at(s, cls, i));
        if rest.is_some() {
            lemma_best_run_valid(s, cls, i + run_len_at(s, cls, i) as int);
        }
    } else {
        lemma_best_run_valid(s, cls, i + 1);
    }
}

/// A run starting inside `s` ends inside `s`, and its characters are all
/// class characters.
pub proof fn lemma_run_len_within(s: Seq<char>, cls: CharClass, i: int)
    requires
        0 <= i <= s.len(),
    ensures
        i + run_len_at(s, cls, i) <= s.len(),
        forall|d: int|
            0 <= d < run_len_at(s, cls, i) ==> in_class(cls, #[trigger] s[i + d]),
        i + run_len_at(s, cls, i) < s.len() ==> !in_class(cls, s[i + run_len_at(s, cls, i)]),
    decreases s.len() - i,
{
    if 0 <= i < s.len() && in_class(cls, s[i]) {
        lemma_run_len_within(s, cls, i + 1);
        assert forall|d: int| 0 <= d < run_len_at(s, cls, i) implies in_class(
            cls,
            #[trigger] s[i + d],
        ) by {
            if d > 0 {
                assert(in_class(cls, s[(i + 1) + (d - 1)]));
            }
        }
    }
}

/// If a maximal run starts at or after `i`, the search from `i` finds one.
pub proof fn lemma_best_run_exists(s: Seq<char>, cls: CharClass, i: int)
    requires
        0 <= i,
        exists|p: int| i <= p < s.len() && starts_run(s, cls, p),
    ensures
        best_run_from(s, cls, i).is_some(),
    decreases s.len() - i,
{
    let p = choose|p: int| i <= p < s.len() && starts_run(s, cls, p);
    if starts_run(s, cls, i) {
    } else {
        assert(i + 1 <= p);
        lemma_best_run_exists(s, cls, i + 1);
    }
}

/// A class character somewhere in `s` means some maximal run starts in `s`.
pub proof fn lemma_some_run_starts(s: Seq<char>, cls: CharClass, p: int)
    requires
        0 <= p < s.len(),
        in_class(cls, s[p]),
    ensures
        exists|q: int| 0 <= q <= p && starts_run(s, cls, q),
    decreases p,
{
    if p == 0 {
        assert(starts_run(s, cls, 0));
    } else if in_class(cls, s[p - 1]) {
        lemma_some_run_starts(s, cls, p - 1);
    } else {
        assert(starts_run(s, cls, p));
    }
}

/// The separator occurs literally at position `i` of `s`.
pub open spec fn matches_at(s: Seq<char>, sep: Seq<char>, i: int) -> bool {
    0 <= i && i + sep.len() <= s.len() && s.subrange(i, i + sep.len()) == sep
}

/// The first position at or after `from` where the separator occurs.
pub open spec fn first_match_from(s: Seq<char>, sep: Seq<char>, from: int) -> Option<int>
    decreases s.len() - from when 0 <= from && sep.len() >= 1
{
    if from + sep.len() > s.len() {
        Option::None
    } else if matches_at(s, sep, from) {
        Option::Some(from)
    } else {
        first_match_from(s, sep, from + 1)
    }
}

pub proof fn lemma_first_match_bounds(s: Seq<char>, sep: Seq<char>, from: int)
    requires
        0 <= from,
        sep.len() >= 1,
        first_match_from(s, sep, from).is_some(),
    ensures
        ({
            let i = first_match_from(s, sep, from).unwrap();
            from <= i && matches_at(s, sep, i)
        }),
    decreases s.len() - from,
{
    if from + sep.len() > s.len() {
    } else if matches_at(s, sep, from) {
    } else {
        lemma_first_match_bounds(s, sep, from + 1);
    }
}

/// If the separator occurs at or after `from`, a first occurrence exists.
pub proof fn lemma_first_match_exists(s: Seq<char>, sep: Seq<char>, from: int, at: int)
    requires
        0 <= from <= at,
        sep.len() >= 1,
        matches_at(s, sep, at),
    ensures
        first_match_from(s, sep, from).is_some(),
        first_match_from(s, sep, from).unwrap() <= at,
    decreases s.len() - from,
{
    if from + sep.len() > s.len() {
        assert(false);
    } else if matches_at(s, sep, from) {
    } else {
        lemma_first_match_exists(s, sep, from + 1, at);
    }
}

/// Split on every occurrence of a non-empty separator, keeping empty pieces.
pub open spec fn split_by(s: Seq<char>, sep: Seq<char>) -> Seq<Seq<char>>
    decreases s.len() when sep.len() >= 1
    via split_by_decreases
{
    if sep.len() == 0 {
        seq![s]
    } else {
        match first_match_from(s, sep, 0) {
            Option::None => seq![s],
            Option::Some(i) => seq![s.subrange(0, i)] + split_by(
                s.subrange(i + sep.len(), s.len() as int),
                sep,
            ),
        }
    }
}

#[via_fn]
proof fn split_by_decreases(s: Seq<char>, sep: Seq<char>) {
    if sep.len() >= 1 {
        if first_match_from(s, sep, 0).is_some() {
            lemma_first_match_bounds(s, sep, 0);
        }
    }
}

/// One piece per character.
pub open spec fn chars_of(s: Seq<char>) -> Seq<Seq<char>>
    decreases s.len(),
{
    if s.len() == 0 {
        Seq::empty()
    } else {
        seq![s.subrange(0, 1)] + chars_of(s.drop_first())
    }
}

/// The pieces joined with the separator between them.
pub open spec fn join(ps: Seq<Seq<char>>, sep: Seq<char>) -> Seq<char>
    decreases ps.len(),
{
    if ps.len() == 0 {
        Seq::empty()
    } else if ps.len() == 1 {
        ps[0]
    } else {
        ps[0] + sep + join(ps.drop_first(), sep)
    }
}

/// Joining after appending one piece appends the separator and the piece.
pub proof fn lemma_join_push(ps: Seq<Seq<char>>, sep: Seq<char>, x: Seq<char>)
    ensures
        ps.len() == 0 ==> join(ps.push(x), sep) == x,
        ps.len() >= 1 ==> join(ps.push(x), sep) == join(ps, sep) + sep + x,
    decreases ps.len(),
{
    let q = ps.push(x);
    if ps.len() == 0 {
        assert(q.len() == 1);
        assert(q[0] == x);
    } else if ps.len() == 1 {
        assert(q.len() == 2);
        assert(q.drop_first() =~= seq![x]);
        assert(join(q.drop_first(), sep) == x);
        assert(q[0] == ps[0]);
        assert(join(ps, sep) == ps[0]);
    } else {
        lemma_join_push(ps.drop_first(), sep, x);
        assert(q.drop_first() =~= ps.drop_first().push(x));
        assert(join(ps.drop_first().push(x), sep) == join(ps.drop_first(), sep) + sep + x);
        assert(join(q, sep) == q[0] + sep + join(q.drop_first(), sep));
        assert(join(ps, sep) == ps[0] + sep + join(ps.drop_first(), sep));
        assert(join(ps, sep) + sep + x =~= ps[0] + sep + (join(ps.drop_first(), sep) + sep + x));
    }
}

/// Joining the split pieces with the separator restores the text.
pub proof fn lemma_join_split(s: Seq<char>, sep: Seq<char>)
    requires
        sep.len() >= 1,
    ensures
        join(split_by(s, sep), sep) == s,
    decreases s.len(),
{
    match first_match_from(s, sep, 0) {
        Option::None => {
            assert(split_by(s, sep) == seq![s]);
            assert(join(seq![s], sep) == s);
        },
        Option::Some(i) => {
            lemma_first_match_bounds(s, sep, 0);
            let tail = s.subrange(i + sep.len(), s.len() as int);
            lemma_join_split(tail, sep);
            let rest = split_by(tail, sep);
            assert(rest.len() >= 1);
            let ps = split_by(s, sep);
            assert(ps == seq![s.subrange(0, i)] + rest);
            assert(ps.len() >= 2);
            assert(ps[0] == s.subrange(0, i));
            assert(ps.drop_first() =~= rest);
            assert(join(ps, sep) == s.subrange(0, i) + sep + tail);
            assert(s.subrange(i, i + sep.len()) == sep);
            assert(s.subrange(0, i) + sep + tail =~= s);
        },
    }
}

/// Joining the single characters of `s` with an empty separator restores `s`.
pub proof fn lemma_join_chars(s: Seq<char>)
    ensures
        join(chars_of(s), Seq::<char>::empty()) == s,
    decreases s.len(),
{
    if s.len() == 0 {
        assert(join(chars_of(s), Seq::<char>::empty()) =~= s);
    } else {
        lemma_join_chars(s.drop_first());
        let ps = chars_of(s);
        let rest = chars_of(s.drop_first());
        assert(ps == seq![s.subrange(0, 1)] + rest);
        assert(ps[0] == s.subrange(0, 1));
        if rest.len() == 0 {
            assert(s.drop_first().len() == 0);
            assert(ps.len() == 1);
            assert(s.subrange(0, 1) =~= s);
        } else {
            assert(ps.drop_first() =~= rest);
            assert(join(ps, Seq::<char>::empty()) == s.subrange(0, 1) + Seq::<char>::empty()
                + s.drop_first());
            assert(s.subrange(0, 1) + Seq::<char>::empty() + s.drop_first() =~= s);
        }
    }
}

/// Every piece of `chars_of` has exactly one character.
pub proof fn lemma_chars_of_pieces(s: Seq<char>)
    ensures
        chars_of(s).len() == s.len(),
        forall|k: int| 0 <= k < s.len() ==> #[trigger] chars_of(s)[k] == s.subrange(k, k + 1),
    decreases s.len(),
{
    if s.len() > 0 {
        lemma_chars_of_pieces(s.drop_first());
        assert forall|k: int| 0 <= k < s.len() implies #[trigger] chars_of(s)[k] == s.subrange(
            k,
            k + 1,
        ) by {
            if k > 0 {
                assert(chars_of(s)[k] == chars_of(s.drop_first())[k - 1]);
                assert(chars_of(s.drop_first())[k - 1] == s.drop_first().subrange(k - 1, k));
                assert(s.drop_first().subrange(k - 1, k) =~= s.subrange(k, k + 1));
            }
        }
    }
}

/// When the separator occurs, the split has at least two pieces, and each
/// piece is shorter than the text by at least the separator's length.
pub proof fn lemma_split_piece_len(s: Seq<char>, sep: Seq<char>)
    requires
        sep.len() >= 1,
        first_match_from(s, sep, 0).is_some(),
    ensures
        split_by(s, sep).len() >= 2,
        forall|k: int|
            0 <= k < split_by(s, sep).len() ==> #[trigger] split_by(s, sep)[k].len() + sep.len()
                <= s.len(),
    decreases s.len(),
{
    lemma_first_match_bounds(s, sep, 0);
    let i = first_match_from(s, sep, 0).unwrap();
    let tail = s.subrange(i + sep.len(), s.len() as int);
    let rest = split_by(tail, sep);
    let ps = split_by(s, sep);
    assert(ps == seq![s.subrange(0, i)] + rest);
    assert(rest.len() >= 1);
    assert forall|k: int| 0 <= k < ps.len() implies #[trigger] ps[k].len() + sep.len()
        <= s.len() by {
        if k == 0 {
            assert(ps[0] == s.subrange(0, i));
        } else {
            assert(ps[k] == rest[k - 1]);
            if first_match_from(tail, sep, 0).is_some() {
                lemma_split_piece_len(tail, sep);
                assert(rest[k - 1].len() + sep.len() <= tail.len());
            } else {
                assert(rest =~= seq![tail]);
                assert(rest[k - 1] == tail);
            }
        }
    }
}

/// Concatenation of a sequence of texts.
pub open spec fn concat_all(cs: Seq<Seq<char>>) -> Seq<char>
    decreases cs.len(),
{
    if cs.len() == 0 {
        Seq::empty()
    } else {
        cs[0] + concat_all(cs.drop_first())
    }
}

pub proof fn lemma_concat_push(cs: Seq<Seq<char>>, x: Seq<char>)
    ensures
        concat_all(cs.push(x)) == concat_all(cs) + x,
    decreases cs.len(),
{
    if cs.len() == 0 {
        let q = cs.push(x);
        assert(q.drop_first() =~= Seq::<Seq<char>>::empty());
        assert(concat_all(q.drop_first()) == Seq::<char>::empty());
        assert(concat_all(q) == q[0] + concat_all(q.drop_first()));
        assert(q[0] == x);
        assert(concat_all(q) =~= x);
        assert(concat_all(cs) + x =~= x);
    } else {
        lemma_concat_push(cs.drop_first(), x);
        assert(cs.push(x).drop_first() =~= cs.drop_first().push(x));
        assert(concat_all(cs.push(x)) == cs[0] + (concat_all(cs.drop_first()) + x));
        assert(cs[0] + (concat_all(cs.drop_first()) + x) =~= concat_all(cs) + x);
    }
}

pub proof fn lemma_concat_add(a: Seq<Seq<char>>, b: Seq<Seq<char>>)
    ensures
        concat_all(a + b) == concat_all(a) + concat_all(b),
    decreases a.len(),
{
    if a.len() == 0 {
        assert(a + b =~= b);
        assert(concat_all(a) + concat_all(b) =~= concat_all(b));
    } else {
        lemma_concat_add(a.drop_first(), b);
        assert((a + b).drop_first() =~= a.drop_first() + b);
        assert((a + b)[0] == a[0]);
        assert(concat_all(a + b) == a[0] + (concat_all(a.drop_first()) + concat_all(b)));
        assert(a[0] + (concat_all(a.drop_first()) + concat_all(b)) =~= concat_all(a) + concat_all(
            b,
        ));
    }
}

/// `s` is `t` with some whitespace characters deleted.
pub open spec fn ws_embeds(s: Seq<char>, t: Seq<char>) -> bool
    decreases t.len(),
{
    if t.len() == 0 {
        s.len() == 0
    } else {
        (s.len() > 0 && s[0] == t[0] && ws_embeds(s.drop_first(), t.drop_first())) || (
        is_space_class(t[0]) && ws_embeds(s, t.drop_first()))
    }
}

/// Every text embeds into itself: deleting nothing is allowed.
pub proof fn lemma_ws_embeds_refl(t: Seq<char>)
    ensures
        ws_embeds(t, t),
    decreases t.len(),
{
    if t.len() > 0 {
        lemma_ws_embeds_refl(t.drop_first());
    }
}

/// The empty text embeds into any all-whitespace text.
pub proof fn lemma_ws_embeds_all_space(t: Seq<char>)
    requires
        forall|i: int| 0 <= i < t.len() ==> is_space_class(t[i]),
    ensures
        ws_embeds(Seq::<char>::empty(), t),
    decreases t.len(),
{
    if t.len() > 0 {
        assert(is_space_class(t[0]));
        lemma_ws_embeds_all_space(t.drop_first());
    }
}

/// A whitespace embedding can only delete whitespace, so into a text that
/// holds no whitespace at all it deletes nothing: whenever the chunks of a
/// whitespace-free text are concatenated, the text comes back exactly.
pub proof fn lemma_ws_embeds_exact(s: Seq<char>, t: Seq<char>)
    requires
        ws_embeds(s, t),
        forall|i: int| 0 <= i < t.len() ==> !is_space_class(#[trigger] t[i]),
    ensures
        s == t,
    decreases t.len(),
{
    if t.len() == 0 {
        assert(s =~= t);
    } else {
        assert(!is_space_class(t[0]));
        assert forall|i: int| 0 <= i < t.drop_first().len() implies !is_space_class(
            #[trigger] t.drop_first()[i],
        ) by {
            assert(t.drop_first()[i] == t[i + 1]);
        }
        lemma_ws_embeds_exact(s.drop_first(), t.drop_first());
        assert(s.len() == t.len());
        assert forall|i: int| 0 <= i < s.len() implies s[i] == t[i] by {
            if i > 0 {
                assert(s[i] == s.drop_first()[i - 1]);
                assert(t[i] == t.drop_first()[i - 1]);
            }
        }
        assert(s =~= t);
    }
}

/// Embeddings concatenate.
pub proof fn lemma_ws_embeds_concat(s1: Seq<char>, t1: Seq<char>, s2: Seq<char>, t2: Seq<char>)
    requires
        ws_embeds(s1, t1),
        ws_embeds(s2, t2),
    ensures
        ws_embeds(s1 + s2, t1 + t2),
    decreases t1.len(),
{
    if t1.len() == 0 {
        assert(s1.len() == 0);
        assert(s1 + s2 =~= s2);
        assert(t1 + t2 =~= t2);
    } else {
        let t = t1 + t2;
        assert(t.len() > 0);
        assert(t[0] == t1[0]);
        assert(t.drop_first() =~= t1.drop_first() + t2);
        if s1.len() > 0 && s1[0] == t1[0] && ws_embeds(s1.drop_first(), t1.drop_first()) {
            lemma_ws_embeds_concat(s1.drop_first(), t1.drop_first(), s2, t2);
            let s = s1 + s2;
            assert(s.len() > 0);
            assert(s[0] == s1[0]);
            assert(s.drop_first() =~= s1.drop_first() + s2);
        } else {
            assert(is_space_class(t1[0]) && ws_embeds(s1, t1.drop_first()));
            lemma_ws_embeds_concat(s1, t1.drop_first(), s2, t2);
        }
    }
}

} // verus!
