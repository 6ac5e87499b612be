//! Separator selection and splitting: picks the most semantically meaningful
//! separator present in a text and divides the text on it.

use vstd::prelude::*;

use crate::text::{
    best_run_from, chars_of, combine_runs, contains_class, first_match_from, in_class,
    is_space_class, join, lemma_best_run_exists, lemma_best_run_valid, lemma_chars_of_pieces,
    lemma_class_chars_are_space, lemma_first_match_exists, lemma_join_chars, lemma_join_split,
    lemma_run_len_within, lemma_some_run_starts, lemma_split_piece_len, matches_at, run_len_at,
    split_by, starts_run, CharClass,
};

verus! {

/// The non-whitespace separators, in falling priority: sentence terminators,
/// clause separators, sentence interrupters, then word joiners.
pub open spec fn punct_at(k: int) -> char {
    if k == 0 {
        '.'
    } else if k == 1 {
        '?'
    } else if k == 2 {
        '!'
    } else if k == 3 {
        '*'
    } else if k == 4 {
        ';'
    } else if k == 5 {
        ','
    } else if k == 6 {
        '('
    } else if k == 7 {
        ')'
    } else if k == 8 {
        '['
    } else if k == 9 {
        ']'
    } else if k == 10 {
        '“'
    } else if k == 11 {
        '”'
    } else if k == 12 {
        '‘'
    } else if k == 13 {
        '’'
    } else if k == 14 {
        '\''
    } else if k == 15 {
        '"'
    } else if k == 16 {
        '`'
    } else if k == 17 {
        ':'
    } else if k == 18 {
        '—'
    } else if k == 19 {
        '…'
    } else if k == 20 {
        '/'
    } else if k == 21 {
        '\\'
    } else if k == 22 {
        '–'
    } else if k == 23 {
        '&'
    } else {
        '-'
    }
}

/// The highest-priority punctuation separator, from list position `k` on,
/// that occurs in `s`.
pub open spec fn first_punct_from(s: Seq<char>, k: int) -> Option<char>
    decreases 25 - k,
{
    if k < 0 || k >= 25 {
        Option::None
    } else if s.contains(punct_at(k)) {
        Option::Some(punct_at(k))
    } else {
        first_punct_from(s, k + 1)
    }
}

pub open spec fn first_punct(s: Seq<char>) -> Option<char> {
    first_punct_from(s, 0)
}

/// The empty text holds no punctuation separator.
pub proof fn lemma_first_punct_empty(s: Seq<char>, k: int)
    requires
        s.len() == 0,
    ensures
        first_punct_from(s, k) is None,
    decreases 25 - k,
{
    if 0 <= k < 25 {
        assert(!s.contains(punct_at(k)));
        lemma_first_punct_empty(s, k + 1);
    }
}

/// The whitespace class the separator is drawn from: line breaks beat tabs,
/// tabs beat general whitespace.
pub open spec fn chosen_class(s: Seq<char>) -> Option<CharClass> {
    if contains_class(s, CharClass::LineBreak) {
        Option::Some(CharClass::LineBreak)
    } else if contains_class(s, CharClass::Tab) {
        Option::Some(CharClass::Tab)
    } else if contains_class(s, CharClass::Space) {
        Option::Some(CharClass::Space)
    } else {
        Option::None
    }
}

/// The separator the splitter chooses for `s`: the leftmost-longest run of
/// the best whitespace class present; otherwise the highest-priority
/// punctuation character present; otherwise empty.
pub open spec fn spec_separator(s: Seq<char>) -> Seq<char> {
    match chosen_class(s) {
        Option::Some(cls) => {
            let (st, l) = best_run_from(s, cls, 0).unwrap();
            s.subrange(st, st + l)
        },
        Option::None => match first_punct(s) {
            Option::Some(c) => seq![c],
            Option::None => Seq::empty(),
        },
    }
}

/// Whether the chosen separator counts as whitespace. The degenerate empty
/// separator counts as whitespace.
pub open spec fn spec_sep_is_ws(s: Seq<char>) -> bool {
    !(chosen_class(s) is None && first_punct(s) is Some)
}

/// The sub-spans the splitter produces: the literal split on the separator,
/// or one piece per character when no separator exists.
pub open spec fn spec_pieces(s: Seq<char>) -> Seq<Seq<char>> {
    if spec_separator(s).len() == 0 {
        chars_of(s)
    } else {
        split_by(s, spec_separator(s))
    }
}

fn char_in_class(cls: CharClass, c: char) -> (r: bool)
    ensures
        r == in_class(cls, c),
{
    let u = c as u32;
    match cls {
        CharClass::LineBreak => u == 0x0A || u == 0x0D,
        CharClass::Tab => u == 0x09,
        CharClass::Space => u == 0x20 || u == 0x09 || u == 0x0A || u == 0x0B || u == 0x0C || u
            == 0x0D || u == 0x85 || u == 0xA0 || u == 0x1680 || (0x2000 <= u && u <= 0x200A) || u
            == 0x2028 || u == 0x2029 || u == 0x202F || u == 0x205F || u == 0x3000,
    }
}

fn contains_class_exec(text: &str, cls: CharClass) -> (r: bool)
    ensures
        r == contains_class(text@, cls),
{
    let n = text.unicode_len();
    let mut i: usize = 0;
    while i < n
        invariant
            0 <= i <= n,
            n == text@.len(),
            forall|d: int| 0 <= d < i ==> !in_class(cls, #[trigger] text@[d]),
        decreases n - i,
    {
        if char_in_class(cls, text.get_char(i)) {
            return true;
        }
        i = i + 1;
    }
    false
}

/// A run of class characters fills exactly `[i, j)`, so the run length at `i`
/// is `j - i`.
proof fn lemma_run_len_eq(s: Seq<char>, cls: CharClass, i: int, j: int)
    requires
        0 <= i <= j <= s.len(),
        forall|d: int| i <= d < j ==> in_class(cls, #[trigger] s[d]),
        j == s.len() || !in_class(cls, s[j]),
    ensures
        run_len_at(s, cls, i) == j - i,
    decreases j - i,
{
    if i < j {
        lemma_run_len_eq(s, cls, i + 1, j);
    }
}

proof fn lemma_combine_assoc(a: Option<(int, int)>, b: Option<(int, int)>, c: Option<(int, int)>)
    ensures
        combine_runs(a, combine_runs(b, c)) == combine_runs(combine_runs(a, b), c),
{
}

/// The leftmost-longest maximal run of class characters in the text.
fn find_best_run(text: &str, cls: CharClass) -> (r: (usize, usize))
    requires
        contains_class(text@, cls),
    ensures
        best_run_from(text@, cls, 0) == Option::Some((r.0 as int, r.1 as int)),
{
    let n = text.unicode_len();
    let mut i: usize = 0;
    let mut best_start: usize = 0;
    let mut best_len: usize = 0;
    proof {
        let p = choose|p: int| 0 <= p < text@.len() && in_class(cls, text@[p]);
        lemma_some_run_starts(text@, cls, p);
        lemma_best_run_exists(text@, cls, 0);
    }
    while i < n
        invariant
            0 <= i <= n,
            n == text@.len(),
            best_len == 0 ==> combine_runs(
                Option::None,
                best_run_from(text@, cls, i as int),
            ) == best_run_from(text@, cls, 0),
            best_len > 0 ==> combine_runs(
                Option::Some((best_start as int, best_len as int)),
                best_run_from(text@, cls, i as int),
            ) == best_run_from(text@, cls, 0),
            i == n || i == 0 || !in_class(cls, text@[i - 1]) || !in_class(cls, text@[i as int]),
        decreases n - i,
    {
        if char_in_class(cls, text.get_char(i)) {
            let ghost cur: Option<(int, int)> = if best_len == 0 {
                Option::None
            } else {
                Option::Some((best_start as int, best_len as int))
            };
            proof {
                assert(starts_run(text@, cls, i as int));
            }
            let mut j: usize = i;
            while j < n && char_in_class(cls, text.get_char(j))
                invariant
                    i <= j <= n,
                    n == text@.len(),
                    forall|d: int| i <= d < j ==> in_class(cls, #[trigger] text@[d]),
                decreases n - j,
            {
                j = j + 1;
            }
            proof {
                lemma_run_len_eq(text@, cls, i as int, j as int);
                assert(best_run_from(text@, cls, i as int) == combine_runs(
                    Option::Some((i as int, (j - i) as int)),
                    best_run_from(text@, cls, j as int),
                ));
                lemma_combine_assoc(
                    cur,
                    Option::Some((i as int, (j - i) as int)),
                    best_run_from(text@, cls, j as int),
                );
            }
            if j - i > best_len {
                best_start = i;
                best_len = j - i;
            }
            proof {
                assert(combine_runs(cur, Option::Some((i as int, (j - i) as int)))
                    == Option::Some((best_start as int, best_len as int)));
            }
            i = j;
        } else {
            i = i + 1;
        }
    }
    proof {
        assert(best_run_from(text@, cls, n as int) is None);
        assert(best_run_from(text@, cls, 0).is_some());
    }
    (best_start, best_len)
}

/// One of the 25 punctuation separators, by priority rank.
fn punct_char(k: usize) -> (c: char)
    requires
        k < 25,
    ensures
        c == punct_at(k as int),
{
    match k {
        0 => '.',
        1 => '?',
        2 => '!',
        3 => '*',
        4 => ';',
        5 => ',',
        6 => '(',
        7 => ')',
        8 => '[',
        9 => ']',
        10 => '“',
        11 => '”',
        12 => '‘',
        13 => '’',
        14 => '\'',
        15 => '"',
        16 => '`',
        17 => ':',
        18 => '—',
        19 => '…',
        20 => '/',
        21 => '\\',
        22 => '–',
        23 => '&',
        _ => '-',
    }
}

/// The first position where `c` occurs in the text, if any.
fn find_char(text: &str, c: char) -> (r: Option<usize>)
    ensures
        match r {
            Option::Some(p) => p < text@.len() && text@[p as int] == c,
            Option::None => !text@.contains(c),
        },
{
    let n = text.unicode_len();
    let mut i: usize = 0;
    while i < n
        invariant
            0 <= i <= n,
            n == text@.len(),
            forall|d: int| 0 <= d < i ==> #[trigger] text@[d] != c,
        decreases n - i,
    {
        if text.get_char(i) == c {
            return Option::Some(i);
        }
        i = i + 1;
    }
    Option::None
}

/// The highest-priority punctuation separator present in the text, with a
/// position where it occurs.
fn find_punct(text: &str) -> (r: Option<(char, usize)>)
    ensures
        match r {
            Option::Some(cp) => first_punct(text@) == Option::Some(cp.0) && cp.1 < text@.len()
                && text@[cp.1 as int] == cp.0,
            Option::None => first_punct(text@) is None,
        },
{
    let mut k: usize = 0;
    while k < 25
        invariant
            0 <= k <= 25,
            first_punct_from(text@, 0) == first_punct_from(text@, k as int),
        decreases 25 - k,
    {
        let c = punct_char(k);
        match find_char(text, c) {
            Option::Some(p) => {
                proof {
                    assert(text@.contains(c));
                }
                return Option::Some((c, p));
            },
            Option::None => {
                proof {
                    assert(first_punct_from(text@, k as int) == first_punct_from(
                        text@,
                        k as int + 1,
                    ));
                }
            },
        }
        k = k + 1;
    }
    Option::None
}

/// The pieces of the text split on every occurrence of a non-empty separator,
/// empty pieces included.
fn split_on_separator<'a>(text: &'a str, sep: &str) -> (pieces: Vec<&'a str>)
    requires
        sep@.len() >= 1,
    ensures
        pieces.deep_view() == split_by(text@, sep@),
{
    let n = text.unicode_len();
    let m = sep.unicode_len();
    let mut pieces: Vec<&'a str> = Vec::new();
    if m > n {
        let whole = text.substring_char(0, n);
        pieces.push(whole);
        proof {
            assert(whole@ =~= text@);
            assert(first_match_from(text@, sep@, 0) is None);
            assert(pieces.deep_view() =~= split_by(text@, sep@));
        }
        return pieces;
    }
    let mut seg_start: usize = 0;
    let mut pos: usize = 0;
    proof {
        assert(text@.subrange(0, n as int) =~= text@);
        assert(pieces.deep_view() =~= Seq::<Seq<char>>::empty());
        assert(pieces.deep_view() + split_by(text@, sep@) =~= split_by(text@, sep@));
    }
    while pos <= n - m
        invariant
            n == text@.len(),
            m == sep@.len(),
            1 <= m <= n,
            seg_start <= pos <= n,
            split_by(text@, sep@) =~= pieces.deep_view() + split_by(
                text@.subrange(seg_start as int, n as int),
                sep@,
            ),
            first_match_from(text@.subrange(seg_start as int, n as int), sep@, 0)
                == first_match_from(
                text@.subrange(seg_start as int, n as int),
                sep@,
                pos - seg_start,
            ),
        decreases n - pos,
    {
        let ghost suffix = text@.subrange(seg_start as int, n as int);
        let hit = match_at_exec(text, sep, pos, n, m);
        proof {
            assert(suffix.subrange(pos - seg_start, pos - seg_start + m) =~= text@.subrange(
                pos as int,
                pos + m,
            ));
            assert(matches_at(suffix, sep@, pos - seg_start) == matches_at(
                text@,
                sep@,
                pos as int,
            ));
        }
        if hit {
            let piece = text.substring_char(seg_start, pos);
            proof {
                assert(first_match_from(suffix, sep@, pos - seg_start) == Option::Some(
                    pos - seg_start,
                ));
                let tail = suffix.subrange(pos - seg_start + m, suffix.len() as int);
                assert(split_by(suffix, sep@) == seq![suffix.subrange(0, pos - seg_start)]
                    + split_by(tail, sep@));
                assert(piece@ =~= suffix.subrange(0, pos - seg_start));
                assert(tail =~= text@.subrange(pos + m, n as int));
            }
            let ghost old_dv = pieces.deep_view();
            pieces.push(piece);
            proof {
                assert(pieces.deep_view() =~= old_dv.push(piece@));
                assert(old_dv + (seq![piece@] + split_by(
                    text@.subrange(pos + m, n as int),
                    sep@,
                )) =~= pieces.deep_view() + split_by(text@.subrange(pos + m, n as int), sep@));
            }
            seg_start = pos + m;
            pos = pos + m;
        } else {
            proof {
                assert(first_match_from(suffix, sep@, pos - seg_start) == first_match_from(
                    suffix,
                    sep@,
                    pos - seg_start + 1,
                ));
            }
            pos = pos + 1;
        }
    }
    let last = text.substring_char(seg_start, n);
    let ghost old_dv = pieces.deep_view();
    pieces.push(last);
    proof {
        let suffix = text@.subrange(seg_start as int, n as int);
        assert(last@ =~= suffix);
        assert(first_match_from(suffix, sep@, pos - seg_start) is None);
        assert(first_match_from(suffix, sep@, 0) is None);
        assert(split_by(suffix, sep@) == seq![suffix]);
        assert(pieces.deep_view() =~= old_dv.push(last@));
        assert(old_dv + seq![suffix] =~= pieces.deep_view());
    }
    pieces
}

/// Whether the separator occurs at character position `pos` of the text.
fn match_at_exec(text: &str, sep: &str, pos: usize, n: usize, m: usize) -> (r: bool)
    requires
        n == text@.len(),
        m == sep@.len(),
        pos + m <= n,
    ensures
        r == matches_at(text@, sep@, pos as int),
{
    let mut k: usize = 0;
    while k < m
        invariant
            0 <= k <= m,
            n == text@.len(),
            m == sep@.len(),
            pos + m <= n,
            forall|d: int| 0 <= d < k ==> text@[pos + d] == #[trigger] sep@[d],
        decreases m - k,
    {
        if text.get_char(pos + k) != sep.get_char(k) {
            proof {
                assert(text@.subrange(pos as int, pos + m) != sep@) by {
                    assert(text@.subrange(pos as int, pos + m)[k as int] == text@[pos + k]);
                }
            }
            return false;
        }
        k = k + 1;
    }
    proof {
        assert(text@.subrange(pos as int, pos + m) =~= sep@);
    }
    true
}

/// One piece per character of the text.
fn split_chars<'a>(text: &'a str) -> (pieces: Vec<&'a str>)
    ensures
        pieces.deep_view() == chars_of(text@),
{
    let n = text.unicode_len();
    let mut pieces: Vec<&'a str> = Vec::new();
    let mut i: usize = 0;
    while i < n
        invariant
            0 <= i <= n,
            n == text@.len(),
            pieces.deep_view().len() == i,
            forall|d: int|
                0 <= d < i ==> #[trigger] pieces.deep_view()[d] == text@.subrange(d, d + 1),
        decreases n - i,
    {
        let piece = text.substring_char(i, i + 1);
        let ghost old_dv = pieces.deep_view();
        pieces.push(piece);
        proof {
            assert(pieces.deep_view() =~= old_dv.push(piece@));
        }
        i = i + 1;
    }
    proof {
        lemma_chars_of_pieces(text@);
        assert(pieces.deep_view() =~= chars_of(text@));
    }
    pieces
}

/// Splits texts into segments on the most desirable separator present.
pub struct Splitter {}

impl Default for Splitter {
    fn default() -> (r: Self)
        ensures
            r == (Splitter {  }),
    {
        Splitter {  }
    }
}

impl Splitter {
    /// Splits the given text into segments on the most desirable separator
    /// found, in falling priority: the longest run of newlines and carriage
    /// returns, the longest run of tabs, the longest run of whitespace, the
    /// highest-priority punctuation character present, and finally, when no
    /// separator exists at all, one segment per character with an empty
    /// separator.
    ///
    /// Returns the separator, whether it is whitespace, and the segments,
    /// which joined with the separator restore the text exactly.
    pub fn split_text<'a>(&self, text: &'a str) -> (r: (&'a str, bool, Vec<&'a str>))
        ensures
            r.0@ == spec_separator(text@),
            r.1 == spec_sep_is_ws(text@),
            r.2.deep_view() == spec_pieces(text@),
            join(r.2.deep_view(), r.0@) == text@,
            r.0@.len() == 0 ==> forall|k: int|
                0 <= k < r.2.deep_view().len() ==> #[trigger] r.2.deep_view()[k].len() == 1,
            r.0@.len() >= 1 ==> r.2.deep_view().len() >= 2 && forall|k: int|
                0 <= k < r.2.deep_view().len() ==> #[trigger] r.2.deep_view()[k].len()
                    + r.0@.len() <= text@.len(),
            r.1 ==> forall|j: int| 0 <= j < r.0@.len() ==> is_space_class(#[trigger] r.0@[j]),
            !r.1 ==> r.0@.len() == 1,
    {
        let n = text.unicode_len();
        let cls_opt: Option<CharClass> = if contains_class_exec(text, CharClass::LineBreak) {
            Option::Some(CharClass::LineBreak)
        } else if contains_class_exec(text, CharClass::Tab) {
            Option::Some(CharClass::Tab)
        } else if contains_class_exec(text, CharClass::Space) {
            Option::Some(CharClass::Space)
        } else {
            Option::None
        };
        match cls_opt {
            Option::Some(cls) => {
                let (st, l) = find_best_run(text, cls);
                proof {
                    lemma_best_run_valid(text@, cls, 0);
                }
                let sep = text.substring_char(st, st + l);
                proof {
                    assert(chosen_class(text@) == Option::Some(cls));
                    assert(sep@ == spec_separator(text@));
                    assert(matches_at(text@, sep@, st as int));
                    lemma_first_match_exists(text@, sep@, 0, st as int);
                    lemma_split_piece_len(text@, sep@);
                    lemma_join_split(text@, sep@);
                    lemma_run_len_within(text@, cls, st as int);
                    assert forall|j: int| 0 <= j < sep@.len() implies is_space_class(
                        #[trigger] sep@[j],
                    ) by {
                        assert(in_class(cls, text@[st + j]));
                        lemma_class_chars_are_space(cls, text@[st + j]);
                    }
                }
                let pieces = split_on_separator(text, sep);
                (sep, true, pieces)
            },
            Option::None => {
                match find_punct(text) {
                    Option::Some((c, p)) => {
                        let sep = text.substring_char(p, p + 1);
                        proof {
                            assert(chosen_class(text@) is None);
                            assert(sep@ =~= seq![c]);
                            assert(sep@ == spec_separator(text@));
                            assert(text@.subrange(p as int, p + 1) =~= sep@);
                            assert(matches_at(text@, sep@, p as int));
                            lemma_first_match_exists(text@, sep@, 0, p as int);
                            lemma_split_piece_len(text@, sep@);
                            lemma_join_split(text@, sep@);
                        }
                        let pieces = split_on_separator(text, sep);
                        (sep, false, pieces)
                    },
                    Option::None => {
                        let sep = text.substring_char(0, 0);
                        let pieces = split_chars(text);
                        proof {
                            assert(chosen_class(text@) is None);
                            assert(sep@ =~= Seq::<char>::empty());
                            assert(sep@ == spec_separator(text@));
                            lemma_join_chars(text@);
                            assert(join(pieces.deep_view(), sep@) == text@);
                            lemma_chars_of_pieces(text@);
                        }
                        (sep, true, pieces)
                    },
                }
            },
        }
    }
}

} // verus!
