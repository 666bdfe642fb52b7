//! The natural (digit-aware) ordering of titles used to sort children: a
//! title is cut at every non-digit character, corresponding digit runs are
//! compared as numbers where both fit, as text otherwise, and full-text
//! comparison breaks ties.

use vstd::prelude::*;

use crate::chars::{all_digits, chars_to_u32, dec_val, is_digit_char};
use crate::order::{chars_compare, chars_rank, lemma_chars_rank_flip, Rank};
use crate::path::TreePath;

verus! {

/// Index of the first non-digit character, or `-1`.
pub open spec fn find_sep(s: Seq<char>) -> int
    decreases s.len(),
{
    if s.len() == 0 {
        -1
    } else if !is_digit_char(s[0]) {
        0
    } else {
        let r = find_sep(s.drop_first());
        if r == -1 {
            -1
        } else {
            1 + r
        }
    }
}

proof fn lemma_find_sep(s: Seq<char>)
    ensures
        find_sep(s) == -1 ==> forall|i: int| 0 <= i < s.len() ==> is_digit_char(#[trigger] s[i]),
        find_sep(s) != -1 ==> {
            &&& 0 <= find_sep(s) < s.len()
            &&& !is_digit_char(s[find_sep(s)])
            &&& forall|i: int| 0 <= i < find_sep(s) ==> is_digit_char(#[trigger] s[i])
        },
    decreases s.len(),
{
    if s.len() == 0 {
    } else if !is_digit_char(s[0]) {
    } else {
        lemma_find_sep(s.drop_first());
        let r = find_sep(s.drop_first());
        if r == -1 {
            assert forall|i: int| 0 <= i < s.len() implies is_digit_char(#[trigger] s[i]) by {
                if i > 0 {
                    assert(is_digit_char(s.drop_first()[i - 1]));
                }
            }
        } else {
            assert(s[1 + r] == s.drop_first()[r]);
            assert forall|i: int| 0 <= i < 1 + r implies is_digit_char(#[trigger] s[i]) by {
                if i > 0 {
                    assert(is_digit_char(s.drop_first()[i - 1]));
                }
            }
        }
    }
}

/// The maximal digit runs of `s`, split at every non-digit character; empty
/// runs between adjacent separators are kept.
pub open spec fn nat_parts(s: Seq<char>) -> Seq<Seq<char>>
    decreases s.len(),
    via nat_parts_decreases
{
    let i = find_sep(s);
    if i == -1 {
        seq![s]
    } else {
        seq![s.take(i)] + nat_parts(s.skip(i + 1))
    }
}

#[via_fn]
proof fn nat_parts_decreases(s: Seq<char>) {
    lemma_find_sep(s);
}

/// The numeric value of a part, where it is a non-empty digit run fitting a
/// `u32`.
pub open spec fn part_val(p: Seq<char>) -> Option<int> {
    if p.len() >= 1 && all_digits(p) && dec_val(p) <= u32::MAX {
        Some(dec_val(p))
    } else {
        None
    }
}

/// Comparison of two part lists: parts are compared pairwise — numerically
/// where both have numeric values, as text otherwise — and the first
/// difference decides; running out of parts on either side decides nothing.
pub open spec fn nat_rank_parts(pa: Seq<Seq<char>>, pb: Seq<Seq<char>>) -> Rank
    decreases pa.len(),
{
    if pa.len() == 0 || pb.len() == 0 {
        Rank::Equal
    } else {
        let r = match (part_val(pa[0]), part_val(pb[0])) {
            (Some(x), Some(y)) => if x < y {
                Rank::Less
            } else if x > y {
                Rank::Greater
            } else {
                Rank::Equal
            },
            _ => chars_rank(pa[0], pb[0]),
        };
        if r == Rank::Equal {
            nat_rank_parts(pa.drop_first(), pb.drop_first())
        } else {
            r
        }
    }
}

/// The natural order of two titles: by their digit-run parts first, by full
/// text where all compared parts tie.
pub open spec fn nat_rank(a: Seq<char>, b: Seq<char>) -> Rank {
    let r = nat_rank_parts(nat_parts(a), nat_parts(b));
    if r == Rank::Equal {
        chars_rank(a, b)
    } else {
        r
    }
}

/// Comparing in the other direction flips the result.
pub proof fn lemma_nat_rank_flip(a: Seq<char>, b: Seq<char>)
    ensures
        nat_rank(b, a) == nat_rank(a, b).flip(),
{
    lemma_nat_rank_parts_flip(nat_parts(a), nat_parts(b));
    lemma_chars_rank_flip(a, b);
}

proof fn lemma_nat_rank_parts_flip(pa: Seq<Seq<char>>, pb: Seq<Seq<char>>)
    ensures
        nat_rank_parts(pb, pa) == nat_rank_parts(pa, pb).flip(),
    decreases pa.len(),
{
    if pa.len() == 0 || pb.len() == 0 {
    } else {
        lemma_chars_rank_flip(pa[0], pb[0]);
        lemma_nat_rank_parts_flip(pa.drop_first(), pb.drop_first());
    }
}

/// The digit runs of `s`, as vectors.
fn nat_parts_exec(s: &Vec<char>) -> (r: Vec<Vec<char>>)
    ensures
        r.deep_view() == nat_parts(s@),
{
    let mut r: Vec<Vec<char>> = Vec::new();
    let mut start: usize = 0;
    let mut i: usize = 0;
    let n: usize = s.len();
    proof {
        assert(s@.skip(0) =~= s@);
        assert(r.deep_view() + nat_parts(s@.skip(0)) =~~= nat_parts(s@));
    }
    while i < n
        invariant
            start <= i <= n,
            n == s@.len(),
            forall|j: int| start <= j < i ==> is_digit_char(#[trigger] s@[j]),
            nat_parts(s@) == r.deep_view() + nat_parts(s@.skip(start as int)),
        decreases n - i,
    {
        let c = s[i];
        let cu: u32 = c as u32;
        if cu < 48 || cu > 57 {
            let piece = crate::chars::chars_range(s, start, i);
            proof {
                let rem = s@.skip(start as int);
                lemma_find_sep(rem);
                assert(rem[i - start] == s@[i as int]);
                assert(forall|j: int| 0 <= j < i - start ==> rem[j] == s@[j + start]);
                assert(find_sep(rem) == i - start);
                assert(rem.take(i - start) =~= s@.subrange(start as int, i as int));
                assert(rem.skip(i - start + 1) =~= s@.skip(i + 1 as int));
            }
            let ghost old_deep = r.deep_view();
            r.push(piece);
            proof {
                assert(r.deep_view() =~~= old_deep + seq![s@.subrange(start as int, i as int)]);
                assert(r.deep_view() + nat_parts(s@.skip(i + 1 as int)) =~~= old_deep + nat_parts(
                    s@.skip(start as int),
                ));
                assert(nat_parts(s@) == r.deep_view() + nat_parts(s@.skip(i + 1 as int)));
            }
            start = i + 1;
        }
        i = i + 1;
    }
    let piece = crate::chars::chars_range(s, start, n);
    proof {
        let rem = s@.skip(start as int);
        lemma_find_sep(rem);
        if find_sep(rem) != -1 {
            assert(!is_digit_char(rem[find_sep(rem)]));
            assert(rem[find_sep(rem)] == s@[find_sep(rem) + start]);
        }
        assert(find_sep(rem) == -1);
        assert(piece@ =~= rem);
    }
    let ghost old_deep = r.deep_view();
    r.push(piece);
    proof {
        assert(r.deep_view() =~~= old_deep + seq![s@.skip(start as int)]);
        assert(nat_parts(s@.skip(start as int)) == seq![s@.skip(start as int)]);
        assert(r.deep_view() =~~= nat_parts(s@));
    }
    r
}

/// The natural order of two titles.
pub fn nat_compare(a: &Vec<char>, b: &Vec<char>) -> (r: Rank)
    ensures
        r == nat_rank(a@, b@),
{
    let pa = nat_parts_exec(a);
    let pb = nat_parts_exec(b);
    let ghost ga = pa.deep_view();
    let ghost gb = pb.deep_view();
    let mut i: usize = 0;
    proof {
        assert(ga.skip(0) =~= ga);
        assert(gb.skip(0) =~= gb);
    }
    loop
        invariant
            i <= ga.len(),
            i <= gb.len(),
            ga == pa.deep_view(),
            gb == pb.deep_view(),
            ga == nat_parts(a@),
            gb == nat_parts(b@),
            nat_rank_parts(ga, gb) == nat_rank_parts(ga.skip(i as int), gb.skip(i as int)),
        decreases ga.len() - i,
    {
        let ghost ra = ga.skip(i as int);
        let ghost rb = gb.skip(i as int);
        if i >= pa.len() || i >= pb.len() {
            proof {
                assert(ra.len() == 0 || rb.len() == 0);
                assert(nat_rank_parts(ra, rb) == Rank::Equal);
            }
            return chars_compare(a, b);
        }
        proof {
            assert(ra[0] =~= pa@[i as int]@);
            assert(rb[0] =~= pb@[i as int]@);
            assert(ra.drop_first() =~= ga.skip(i + 1 as int));
            assert(rb.drop_first() =~= gb.skip(i + 1 as int));
        }
        let va = chars_to_u32(&pa[i]);
        let vb = chars_to_u32(&pb[i]);
        let step: Rank = match (va, vb) {
            (Some(x), Some(y)) => {
                proof {
                    assert(part_val(ra[0]) == Some(x as int));
                    assert(part_val(rb[0]) == Some(y as int));
                }
                if x < y {
                    Rank::Less
                } else if x > y {
                    Rank::Greater
                } else {
                    Rank::Equal
                }
            },
            _ => {
                proof {
                    match (va, vb) {
                        (Some(_), Some(_)) => {
                            assert(false);
                        },
                        _ => {
                            assert(!(part_val(ra[0]) is Some && part_val(rb[0]) is Some));
                        },
                    }
                }
                chars_compare(&pa[i], &pb[i])
            },
        };
        if !matches!(step, Rank::Equal) {
            return step;
        }
        i = i + 1;
    }
}


/// The mathematical content of a title/path pair list.
pub open spec fn pair_views(s: Seq<(Vec<char>, TreePath)>) -> Seq<(Seq<char>, Seq<u32>)> {
    Seq::new(s.len(), |i: int| (s[i].0@, s[i].1@))
}

/// `perm` maps positions of `rv` to positions of `iv` holding the same
/// element, one-to-one: `rv` is a permutation of `iv`.
pub open spec fn valid_perm(
    perm: Seq<int>,
    rv: Seq<(Seq<char>, Seq<u32>)>,
    iv: Seq<(Seq<char>, Seq<u32>)>,
) -> bool {
    &&& perm.len() == rv.len()
    &&& rv.len() == iv.len()
    &&& forall|t: int|
        0 <= t < perm.len() ==> 0 <= #[trigger] perm[t] < iv.len() && rv[t] == iv[perm[t]]
    &&& forall|t1: int, t2: int|
        0 <= t1 < perm.len() && 0 <= t2 < perm.len() && t1 != t2 ==> #[trigger] perm[t1] != (
        #[trigger] perm[t2])
}

/// Stable insertion sort of title/path pairs in the natural title order:
/// the result holds exactly the given pairs, rearranged so that every
/// adjacent pair is in order.
#[verifier::rlimit(100)]
pub fn sort_by_title(items: Vec<(Vec<char>, TreePath)>) -> (r: Vec<(Vec<char>, TreePath)>)
    ensures
        r@.len() == items@.len(),
        exists|perm: Seq<int>|
            #[trigger] valid_perm(perm, pair_views(r@), pair_views(items@)),
        forall|t1: int, t2: int|
            #![trigger pair_views(r@)[t1], pair_views(r@)[t2]]
            0 <= t1 < r@.len() && t2 == t1 + 1 && t2 < r@.len() ==> nat_rank(
                pair_views(r@)[t1].0,
                pair_views(r@)[t2].0,
            ) != Rank::Greater,
{
    let ghost ivs = pair_views(items@);
    let mut rest = items;
    let mut out: Vec<(Vec<char>, TreePath)> = Vec::new();
    let ghost mut perm = Seq::<int>::empty();
    let ghost mut ovs = Seq::<(Seq<char>, Seq<u32>)>::empty();
    proof {
        assert(pair_views(rest@) =~= ivs.skip(0));
        assert(ovs =~= pair_views(out@));
    }
    while rest.len() > 0
        invariant
            perm.len() == ovs.len(),
            ovs == pair_views(out@),
            ovs.len() == out@.len(),
            out@.len() + rest@.len() == ivs.len(),
            pair_views(rest@) == ivs.skip(out@.len() as int),
            forall|t: int|
                0 <= t < perm.len() ==> 0 <= #[trigger] perm[t] < ovs.len() && ovs[t]
                    == ivs[perm[t]],
            forall|t1: int, t2: int|
                0 <= t1 < perm.len() && 0 <= t2 < perm.len() && t1 != t2 ==> #[trigger] perm[t1]
                    != (#[trigger] perm[t2]),
            forall|t1: int, t2: int|
                #![trigger ovs[t1], ovs[t2]]
                0 <= t1 < ovs.len() && t2 == t1 + 1 && t2 < ovs.len() ==> nat_rank(
                    ovs[t1].0,
                    ovs[t2].0,
                ) != Rank::Greater,
        decreases rest@.len(),
    {
        let ghost rest0 = rest@;
        let ghost k = out@.len() as int;
        let x = rest.remove(0);
        let ghost xv = (x.0@, x.1@);
        proof {
            assert(pair_views(rest0)[0] == xv);
            assert(xv == ivs[k]);
            assert(pair_views(rest@) =~= pair_views(rest0).remove(0));
            assert(pair_views(rest@) =~= ivs.skip(k + 1));
        }
        let mut pos: usize = 0;
        let ghost out0 = out@;
        while pos < out.len() && !matches!(nat_compare(&out[pos].0, &x.0), Rank::Greater)
            invariant
                pos <= out@.len(),
                out@ == out0,
                ovs == pair_views(out@),
                ovs.len() == out@.len(),
                forall|u: int| 0 <= u < pos ==> nat_rank((#[trigger] ovs[u]).0, xv.0) != Rank::Greater,
                xv == (x.0@, x.1@),
            decreases out@.len() - pos,
        {
            proof {
                assert(ovs[pos as int].0 == out@[pos as int].0@);
            }
            pos = pos + 1;
        }
        proof {
            if pos < out@.len() {
                assert(ovs[pos as int].0 == out@[pos as int].0@);
                assert(nat_rank(ovs[pos as int].0, xv.0) == Rank::Greater);
                lemma_nat_rank_flip(ovs[pos as int].0, xv.0);
                assert(nat_rank(xv.0, ovs[pos as int].0) == Rank::Less);
            }
        }
        out.insert(pos, x);
        proof {
            let ov0 = ovs;
            let perm0 = perm;
            ovs = ovs.insert(pos as int, xv);
            perm = perm.insert(pos as int, k);
            assert(out@ =~= out0.insert(pos as int, x));
            assert(ovs =~= pair_views(out@)) by {
                assert forall|z: int| 0 <= z < ovs.len() implies ovs[z] == pair_views(
                    out@,
                )[z] by {
                    assert(pair_views(out@)[z] == (out@[z].0@, out@[z].1@));
                    if z < pos {
                        assert(out@[z] == out0[z]);
                        assert(ovs[z] == ov0[z]);
                        assert(ov0[z] == (out0[z].0@, out0[z].1@));
                    } else if z == pos {
                        assert(out@[z] == x);
                        assert(ovs[z] == xv);
                    } else {
                        assert(out@[z] == out0[z - 1]);
                        assert(ovs[z] == ov0[z - 1]);
                        assert(ov0[z - 1] == (out0[z - 1].0@, out0[z - 1].1@));
                    }
                }
            }
            assert forall|t: int|
                0 <= t < perm.len() implies 0 <= #[trigger] perm[t] < ovs.len() && ovs[t]
                == ivs[perm[t]] by {
                if t < pos {
                    assert(perm[t] == perm0[t] && ovs[t] == ov0[t]);
                } else if t == pos {
                    assert(perm[t] == k && ovs[t] == xv);
                } else {
                    assert(perm[t] == perm0[t - 1] && ovs[t] == ov0[t - 1]);
                }
            }
            assert forall|t1: int, t2: int|
                0 <= t1 < perm.len() && 0 <= t2 < perm.len() && t1 != t2 implies #[trigger] perm[
                t1] != (#[trigger] perm[t2]) by {
                let u1: int = if t1 < pos {
                    perm0[t1]
                } else if t1 == pos {
                    k
                } else {
                    perm0[t1 - 1]
                };
                let u2: int = if t2 < pos {
                    perm0[t2]
                } else if t2 == pos {
                    k
                } else {
                    perm0[t2 - 1]
                };
                assert(perm[t1] == u1 && perm[t2] == u2);
                if t1 == pos && t2 != pos {
                    assert(u2 < k);
                } else if t2 == pos && t1 != pos {
                    assert(u1 < k);
                }
            }
            assert forall|t1: int, t2: int|
                #![trigger ovs[t1], ovs[t2]]
                0 <= t1 < ovs.len() && t2 == t1 + 1 && t2 < ovs.len() implies nat_rank(
                ovs[t1].0,
                ovs[t2].0,
            ) != Rank::Greater by {
                let t = t1;
                if t + 1 < pos {
                    assert(ovs[t] == ov0[t] && ovs[t + 1] == ov0[t + 1]);
                } else if t + 1 == pos {
                    assert(ovs[t] == ov0[t] && ovs[t + 1] == xv);
                } else if t == pos {
                    assert(ovs[t] == xv && ovs[t + 1] == ov0[t]);
                    assert(nat_rank(xv.0, ov0[pos as int].0) == Rank::Less);
                } else {
                    assert(ovs[t] == ov0[t - 1] && ovs[t + 1] == ov0[t]);
                }
            }
        }
    }
    proof {
        assert(out@.len() == ivs.len());
        assert(valid_perm(perm, pair_views(out@), ivs));
        assert forall|t1: int, t2: int|
            #![trigger pair_views(out@)[t1], pair_views(out@)[t2]]
            0 <= t1 < out@.len() && t2 == t1 + 1 && t2 < out@.len() implies nat_rank(
            pair_views(out@)[t1].0,
            pair_views(out@)[t2].0,
        ) != Rank::Greater by {
            assert(pair_views(out@)[t1] == ovs[t1]);
            assert(pair_views(out@)[t2] == ovs[t2]);
        }
    }
    out
}

} // verus!