//! Three-way comparison results and lexicographic comparison of character
//! sequences, shared by the path ordering and the natural title ordering.

use vstd::prelude::*;

verus! {

/// Result of a three-way comparison.
#[derive(Clone, Copy, Debug, PartialEq, Eq, Structural)]
pub enum Rank {
    Less,
    Equal,
    Greater,
}

impl Rank {
    /// The comparison seen from the other side.
    pub open spec fn flip(self) -> Rank {
        match self {
            Rank::Less => Rank::Greater,
            Rank::Equal => Rank::Equal,
            Rank::Greater => Rank::Less,
        }
    }
}

/// Lexicographic three-way comparison of character sequences by code point,
/// which for UTF-8 strings agrees with the byte-wise comparison `str::cmp` does.
pub open spec fn chars_rank(a: Seq<char>, b: Seq<char>) -> Rank
    decreases a.len(),
{
    if a.len() == 0 && b.len() == 0 {
        Rank::Equal
    } else if a.len() == 0 {
        Rank::Less
    } else if b.len() == 0 {
        Rank::Greater
    } else if (a[0] as u32) < (b[0] as u32) {
        Rank::Less
    } else if (a[0] as u32) > (b[0] as u32) {
        Rank::Greater
    } else {
        chars_rank(a.drop_first(), b.drop_first())
    }
}

/// Comparing in the other direction flips the result.
pub proof fn lemma_chars_rank_flip(a: Seq<char>, b: Seq<char>)
    ensures
        chars_rank(b, a) == chars_rank(a, b).flip(),
    decreases a.len(),
{
    if a.len() > 0 && b.len() > 0 && (a[0] as u32) == (b[0] as u32) {
        lemma_chars_rank_flip(a.drop_first(), b.drop_first());
    }
}

/// Lexicographic comparison of two character vectors.
pub fn chars_compare(a: &Vec<char>, b: &Vec<char>) -> (r: Rank)
    ensures
        r == chars_rank(a@, b@),
{
    let mut i: usize = 0;
    proof {
        assert(a@.skip(0) =~= a@);
        assert(b@.skip(0) =~= b@);
    }
    loop
        invariant
            i <= a@.len(),
            i <= b@.len(),
            chars_rank(a@, b@) == chars_rank(a@.skip(i as int), b@.skip(i as int)),
        decreases a@.len() - i,
    {
        let ghost ra = a@.skip(i as int);
        let ghost rb = b@.skip(i as int);
        if i >= a.len() && i >= b.len() {
            proof {
                assert(ra =~= Seq::<char>::empty());
                assert(rb =~= Seq::<char>::empty());
            }
            return Rank::Equal;
        }
        if i >= a.len() {
            proof {
                assert(ra =~= Seq::<char>::empty());
                assert(rb.len() > 0);
            }
            return Rank::Less;
        }
        if i >= b.len() {
            proof {
                assert(rb =~= Seq::<char>::empty());
                assert(ra.len() > 0);
            }
            return Rank::Greater;
        }
        let ca: u32 = a[i] as u32;
        let cb: u32 = b[i] as u32;
        proof {
            assert(ra[0] == a@[i as int]);
            assert(rb[0] == b@[i as int]);
        }
        if ca < cb {
            return Rank::Less;
        }
        if ca > cb {
            return Rank::Greater;
        }
        proof {
            assert(ra.drop_first() =~= a@.skip(i + 1 as int));
            assert(rb.drop_first() =~= b@.skip(i + 1 as int));
        }
        i = i + 1;
    }
}

} // verus!
