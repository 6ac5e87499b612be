//! The token-counting capability: a deterministic function from text to a
//! non-negative count, supplied by the caller and treated as expensive.

use vstd::prelude::*;

verus! {

/// A token counter: the chunker's one external collaborator. The executable
/// `count` must return exactly the mathematical `spec_count` of the text, so
/// the same text always counts the same.
pub trait TokenCounter {
    /// The mathematical meaning of this counter.
    spec fn spec_count(&self, s: Seq<char>) -> usize;

    /// Count the tokens of `s`.
    fn count(&self, s: &str) -> (r: usize)
        ensures
            r == self.spec_count(s@),
    ;
}

/// Number of space characters in `s`.
pub open spec fn n_spaces(s: Seq<char>) -> nat
    decreases s.len(),
{
    if s.len() == 0 {
        0
    } else {
        n_spaces(s.drop_last()) + if s.last() == ' ' {
            1nat
        } else {
            0nat
        }
    }
}

/// A simple counter that treats every maximal space-free region as one token:
/// it returns one more than the number of space characters, saturating at
/// `usize::MAX`.
pub struct SpaceTokenCounter;

impl TokenCounter for SpaceTokenCounter {
    open spec fn spec_count(&self, s: Seq<char>) -> usize {
        if n_spaces(s) + 1 <= usize::MAX {
            (n_spaces(s) + 1) as usize
        } else {
            usize::MAX
        }
    }

    fn count(&self, s: &str) -> (r: usize) {
        let n = s.unicode_len();
        let mut i: usize = 0;
        let mut acc: usize = 1;
        while i < n
            invariant
                0 <= i <= n,
                n == s@.len(),
                acc == if n_spaces(s@.take(i as int)) + 1 <= usize::MAX {
                    (n_spaces(s@.take(i as int)) + 1) as usize
                } else {
                    usize::MAX
                },
            decreases n - i,
        {
            let c = s.get_char(i);
            proof {
                assert(s@.take(i + 1).drop_last() =~= s@.take(i as int));
                assert(s@.take(i + 1).last() == s@[i as int]);
            }
            if c == ' ' && acc < usize::MAX {
                acc = acc + 1;
            }
            i = i + 1;
        }
        proof {
            assert(s@.take(n as int) =~= s@);
        }
        acc
    }
}

/// A counter that treats every character as one token, saturating at
/// `usize::MAX`.
pub struct CharTokenCounter;

impl TokenCounter for CharTokenCounter {
    open spec fn spec_count(&self, s: Seq<char>) -> usize {
        if s.len() <= usize::MAX {
            s.len() as usize
        } else {
            usize::MAX
        }
    }

    fn count(&self, s: &str) -> (r: usize) {
        s.unicode_len()
    }
}

} // verus!
