//! The search integration, seen from the library's side: the raw hits that
//! the external line-matching tool prints are annotated with each node's
//! title, breadcrumb titles, and tags.  Running the search itself is the
//! surrounding application's work.

use vstd::prelude::*;

use crate::chars::{
    chars_eq, chars_range, chars_to_string, chars_to_u32, all_digits, dec_val, find_char,
    find_sub, split_on, split_on_char, split_sub, split_sub_chars, str_to_chars, trim_range,
    trim_spec,
};
use crate::index::{contains_path, node_at, placeholder_title, NodeIndex};
use crate::order::{chars_compare, chars_rank, lemma_chars_rank_flip, Rank};
use crate::node::{find_char_vec, tags_of, Node, NodeView};
use crate::path::{human_of, parse_dir_path, TreePath};

verus! {

/// One annotated search hit: the node's human path, its title, the titles
/// of its ancestors from the nearest up, the matching lines with their line
/// numbers, and the node's tags.
#[derive(Debug)]
pub struct RipgrepResult {
    pub path: String,
    pub title: String,
    pub parent_titles: Vec<String>,
    pub lines: Vec<(u32, String)>,
    pub tags: Vec<String>,
}

/// The mathematical content of an annotated hit.
pub struct RipgrepResultView {
    pub path: Seq<char>,
    pub title: Seq<char>,
    pub parent_titles: Seq<Seq<char>>,
    pub lines: Seq<(u32, Seq<char>)>,
    pub tags: Seq<Seq<char>>,
}

impl View for RipgrepResult {
    type V = RipgrepResultView;

    open spec fn view(&self) -> RipgrepResultView {
        RipgrepResultView {
            path: self.path@,
            title: self.title@,
            parent_titles: self.parent_titles.deep_view(),
            lines: Seq::new(self.lines@.len(), |i: int| (self.lines@[i].0, self.lines@[i].1@)),
            tags: self.tags.deep_view(),
        }
    }
}

impl DeepView for RipgrepResult {
    type V = RipgrepResultView;

    open spec fn deep_view(&self) -> RipgrepResultView {
        self@
    }
}

/// `s` with every trailing occurrence of `suf` removed.
pub open spec fn strip_suffix_all(s: Seq<char>, suf: Seq<char>) -> Seq<char>
    decreases s.len(),
{
    if suf.len() >= 1 && s.len() >= suf.len() && s.skip(s.len() - suf.len()) == suf {
        strip_suffix_all(s.take(s.len() - suf.len()), suf)
    } else {
        s
    }
}

/// The line number and text of one hit line, split at the first colon;
/// lines without a colon carry no hit, and a line-number prefix that is not
/// a plain decimal number counts as zero.
pub open spec fn hit_of(line: Seq<char>) -> Option<(u32, Seq<char>)> {
    let i = find_char(line, ':');
    if i == -1 {
        None
    } else {
        let num = line.take(i);
        let v: u32 = if num.len() >= 1 && all_digits(num) && dec_val(num) <= u32::MAX {
            dec_val(num) as u32
        } else {
            0
        };
        Some((v, line.skip(i + 1)))
    }
}

/// The hits of a list of lines, in order.
pub open spec fn hits_of(lines: Seq<Seq<char>>) -> Seq<(u32, Seq<char>)>
    decreases lines.len(),
{
    if lines.len() == 0 {
        Seq::<(u32, Seq<char>)>::empty()
    } else {
        match hit_of(lines[0]) {
            Some(h) => seq![h] + hits_of(lines.drop_first()),
            None => hits_of(lines.drop_first()),
        }
    }
}

/// The title shown for the path `p`: the node's title, or the placeholder
/// title where no node exists.
pub open spec fn title_at(s: Seq<NodeView>, p: Seq<u32>) -> Seq<char> {
    if contains_path(s, p) {
        node_at(s, p).title
    } else {
        placeholder_title()
    }
}

/// The annotated result of one output block, if any: the first line names
/// the hit file relative to the search root; temp files, unparseable
/// paths, and blank blocks yield nothing.
pub open spec fn block_result(s: Seq<NodeView>, q: Seq<u32>, b: Seq<char>) -> Option<
    RipgrepResultView,
> {
    if trim_spec(b).len() == 0 {
        None
    } else {
        let lines = split_on(b, '\n');
        let fname = lines[0];
        if find_sub(fname, seq!['.', 't', 'e', 'm', 'p', '.']) != -1 {
            None
        } else {
            match parse_dir_path(strip_suffix_all(fname, "node.adoc"@)) {
                None => None,
                Some(p) => {
                    let full = q + p;
                    Some(
                        RipgrepResultView {
                            path: human_of(full),
                            title: title_at(s, full),
                            parent_titles: Seq::new(
                                full.len(),
                                |k: int| title_at(s, full.take(full.len() - 1 - k)),
                            ),
                            lines: hits_of(lines.drop_first()),
                            tags: if contains_path(s, full) {
                                tags_of(node_at(s, full).raw)
                            } else {
                                Seq::<Seq<char>>::empty()
                            },
                        },
                    )
                },
            }
        }
    }
}

/// The results of a list of blocks, in order.
pub open spec fn results_of(s: Seq<NodeView>, q: Seq<u32>, bs: Seq<Seq<char>>) -> Seq<
    RipgrepResultView,
>
    decreases bs.len(),
{
    if bs.len() == 0 {
        Seq::<RipgrepResultView>::empty()
    } else {
        match block_result(s, q, bs[0]) {
            Some(r) => seq![r] + results_of(s, q, bs.drop_first()),
            None => results_of(s, q, bs.drop_first()),
        }
    }
}

/// The annotated results of the whole search output: one result per
/// blank-line separated block that names an indexed location.
pub open spec fn search_results_of(s: Seq<NodeView>, q: Seq<u32>, out: Seq<char>) -> Seq<
    RipgrepResultView,
> {
    results_of(s, q, split_sub(out, seq!['\n', '\n']))
}

/// `perm` maps positions of `rv` to positions of `iv` holding the same
/// result, one-to-one: `rv` is a permutation of `iv`.
pub open spec fn result_perm(
    perm: Seq<int>,
    rv: Seq<RipgrepResultView>,
    iv: Seq<RipgrepResultView>,
) -> bool {
    &&& perm.len() == rv.len()
    &&& rv.len() == iv.len()
    &&& forall|t: int|
        0 <= t < perm.len() ==> 0 <= #[trigger] perm[t] < iv.len() && rv[t] == iv[perm[t]]
    &&& forall|t1: int, t2: int|
        #![trigger perm[t1], perm[t2]]
        0 <= t1 < perm.len() && 0 <= t2 < perm.len() && t1 != t2 ==> perm[t1] != perm[t2]
}

/// Stable insertion sort of results by their human path, in the code-point
/// order that byte-wise string comparison gives.
#[verifier::rlimit(100)]
fn sort_results(items: Vec<RipgrepResult>) -> (r: Vec<RipgrepResult>)
    ensures
        r@.len() == items@.len(),
        exists|perm: Seq<int>| #[trigger] result_perm(perm, r.deep_view(), items.deep_view()),
        forall|t1: int, t2: int|
            #![trigger r.deep_view()[t1], r.deep_view()[t2]]
            0 <= t1 < r@.len() && t2 == t1 + 1 && t2 < r@.len() ==> chars_rank(
                r.deep_view()[t1].path,
                r.deep_view()[t2].path,
            ) != Rank::Greater,
{
    let ghost ivs = items.deep_view();
    let mut rest = items;
    let mut out: Vec<RipgrepResult> = Vec::new();
    let ghost mut perm = Seq::<int>::empty();
    let ghost mut ovs = Seq::<RipgrepResultView>::empty();
    proof {
        assert(rest.deep_view() =~~= ivs.skip(0));
        assert(ovs =~~= out.deep_view());
    }
    while rest.len() > 0
        invariant
            perm.len() == ovs.len(),
            ovs == out.deep_view(),
            ovs.len() == out@.len(),
            out@.len() + rest@.len() == ivs.len(),
            rest.deep_view() == ivs.skip(out@.len() as int),
            forall|t: int|
                0 <= t < perm.len() ==> 0 <= #[trigger] perm[t] < ovs.len() && ovs[t]
                    == ivs[perm[t]],
            forall|t1: int, t2: int|
                #![trigger perm[t1], perm[t2]]
                0 <= t1 < perm.len() && 0 <= t2 < perm.len() && t1 != t2 ==> perm[t1] != perm[t2],
            forall|t1: int, t2: int|
                #![trigger ovs[t1], ovs[t2]]
                0 <= t1 < ovs.len() && t2 == t1 + 1 && t2 < ovs.len() ==> chars_rank(
                    ovs[t1].path,
                    ovs[t2].path,
                ) != Rank::Greater,
        decreases rest@.len(),
    {
        let ghost rest0 = rest.deep_view();
        let ghost k = out@.len() as int;
        let x = rest.remove(0);
        let ghost xv = x@;
        proof {
            assert(rest0[0] == xv);
            assert(xv == ivs[k]);
            assert(rest.deep_view() =~~= rest0.remove(0));
            assert(rest.deep_view() =~~= ivs.skip(k + 1));
        }
        let xk = str_to_chars(x.path.as_str());
        let mut pos: usize = 0;
        let ghost out0 = out@;
        while pos < out.len() && !matches!(
            chars_compare(&str_to_chars(out[pos].path.as_str()), &xk),
            Rank::Greater,
        )
            invariant
                pos <= out@.len(),
                out@ == out0,
                ovs == out.deep_view(),
                ovs.len() == out@.len(),
                xk@ == xv.path,
                forall|u: int|
                    0 <= u < pos ==> chars_rank((#[trigger] ovs[u]).path, xv.path)
                        != Rank::Greater,
            decreases out@.len() - pos,
        {
            proof {
                assert(ovs[pos as int].path == out@[pos as int].path@);
            }
            pos = pos + 1;
        }
        proof {
            if pos < out@.len() {
                assert(ovs[pos as int].path == out@[pos as int].path@);
                assert(chars_rank(ovs[pos as int].path, xv.path) == Rank::Greater);
                lemma_chars_rank_flip(ovs[pos as int].path, xv.path);
                assert(chars_rank(xv.path, ovs[pos as int].path) == Rank::Less);
            }
        }
        out.insert(pos, x);
        proof {
            let ov0 = ovs;
            let perm0 = perm;
            ovs = ovs.insert(pos as int, xv);
            perm = perm.insert(pos as int, k);
            assert(out@ =~= out0.insert(pos as int, x));
            assert(ovs =~~= out.deep_view()) by {
                assert forall|z: int| 0 <= z < ovs.len() implies ovs[z] =~~= out.deep_view()[
                z] by {
                    assert(out.deep_view()[z] == out@[z]@);
                    if z < pos {
                        assert(out@[z] == out0[z]);
                        assert(ovs[z] == ov0[z]);
                        assert(ov0[z] == out0[z]@);
                    } else if z == pos {
                        assert(out@[z] == x);
                        assert(ovs[z] == xv);
                    } else {
                        assert(out@[z] == out0[z - 1]);
                        assert(ovs[z] == ov0[z - 1]);
                        assert(ov0[z - 1] == out0[z - 1]@);
                    }
                }
            }
            assert forall|t: int|
                0 <= t < perm.len() implies 0 <= #[trigger] perm[t] < ovs.len() && ovs[t]
                == ivs[perm[t]] by {
                if t < pos {
                    assert(perm[t] == perm0[t] && ovs[t] == ov0[t]);
                } else if t == pos {
                    assert(perm[t] == k && ovs[t] == xv);
                } else {
                    assert(perm[t] == perm0[t - 1] && ovs[t] == ov0[t - 1]);
                }
            }
            assert forall|t1: int, t2: int|
                #![trigger perm[t1], perm[t2]]
                0 <= t1 < perm.len() && 0 <= t2 < perm.len() && t1 != t2 implies perm[t1]
                != perm[t2] by {
                let u1: int = if t1 < pos {
                    perm0[t1]
                } else if t1 == pos {
                    k
                } else {
                    perm0[t1 - 1]
                };
                let u2: int = if t2 < pos {
                    perm0[t2]
                } else if t2 == pos {
                    k
                } else {
                    perm0[t2 - 1]
                };
                assert(perm[t1] == u1 && perm[t2] == u2);
                if t1 == pos && t2 != pos {
                    assert(u2 < k);
                } else if t2 == pos && t1 != pos {
                    assert(u1 < k);
                }
            }
            assert forall|t1: int, t2: int|
                #![trigger ovs[t1], ovs[t2]]
                0 <= t1 < ovs.len() && t2 == t1 + 1 && t2 < ovs.len() implies chars_rank(
                ovs[t1].path,
                ovs[t2].path,
            ) != Rank::Greater by {
                let t = t1;
                if t + 1 < pos {
                    assert(ovs[t] == ov0[t] && ovs[t + 1] == ov0[t + 1]);
                } else if t + 1 == pos {
                    assert(ovs[t] == ov0[t] && ovs[t + 1] == xv);
                } else if t == pos {
                    assert(ovs[t] == xv && ovs[t + 1] == ov0[t]);
                    assert(chars_rank(xv.path, ov0[pos as int].path) == Rank::Less);
                } else {
                    assert(ovs[t] == ov0[t - 1] && ovs[t + 1] == ov0[t]);
                }
            }
        }
    }
    proof {
        assert(out@.len() == ivs.len());
        assert(result_perm(perm, out.deep_view(), ivs));
        assert forall|t1: int, t2: int|
            #![trigger out.deep_view()[t1], out.deep_view()[t2]]
            0 <= t1 < out@.len() && t2 == t1 + 1 && t2 < out@.len() implies chars_rank(
            out.deep_view()[t1].path,
            out.deep_view()[t2].path,
        ) != Rank::Greater by {
            assert(out.deep_view()[t1] == ovs[t1]);
            assert(out.deep_view()[t2] == ovs[t2]);
        }
    }
    out
}

proof fn lemma_results_concat(s: Seq<NodeView>, q: Seq<u32>, a: Seq<Seq<char>>, b: Seq<Seq<char>>)
    ensures
        results_of(s, q, a + b) == results_of(s, q, a) + results_of(s, q, b),
    decreases a.len(),
{
    if a.len() == 0 {
        assert(a + b =~= b);
        assert(results_of(s, q, a) + results_of(s, q, b) =~= results_of(s, q, b));
    } else {
        assert((a + b).drop_first() =~= a.drop_first() + b);
        assert((a + b)[0] == a[0]);
        lemma_results_concat(s, q, a.drop_first(), b);
        match block_result(s, q, a[0]) {
            Some(r) => {
                assert(results_of(s, q, a + b) =~= results_of(s, q, a) + results_of(s, q, b));
            },
            None => {
                assert(results_of(s, q, a + b) =~= results_of(s, q, a) + results_of(s, q, b));
            },
        }
    }
}

/// `s` with every trailing occurrence of `suf` removed.
fn strip_suffix_all_exec(s: Vec<char>, suf: &Vec<char>) -> (r: Vec<char>)
    requires
        suf@.len() >= 1,
    ensures
        r@ == strip_suffix_all(s@, suf@),
    decreases s@.len(),
{
    let n: usize = s.len();
    let m: usize = suf.len();
    if n >= m {
        let tail = chars_range(&s, n - m, n);
        proof {
            assert(tail@ =~= s@.skip(s@.len() - suf@.len()));
        }
        if chars_eq(&tail, suf) {
            let head = chars_range(&s, 0, n - m);
            proof {
                assert(head@ =~= s@.take(s@.len() - suf@.len()));
            }
            return strip_suffix_all_exec(head, suf);
        }
    }
    s
}

/// The hits among `lines` after the first, in order.
fn collect_hits(lines: &Vec<Vec<char>>) -> (r: Vec<(u32, String)>)
    requires
        lines@.len() >= 1,
    ensures
        Seq::new(r@.len(), |i: int| ((#[trigger] r@[i]).0, r@[i].1@)) == hits_of(
            lines.deep_view().drop_first(),
        ),
{
    let ghost rest = lines.deep_view().drop_first();
    let mut r: Vec<(u32, String)> = Vec::new();
    let mut i: usize = 1;
    proof {
        assert(rest.skip(0) =~= rest);
        assert(Seq::new(r@.len(), |t: int| ((r@[t]).0, r@[t].1@)) =~= Seq::<
            (u32, Seq<char>),
        >::empty());
        assert(Seq::<(u32, Seq<char>)>::empty() + hits_of(rest.skip(0)) =~= hits_of(rest));
    }
    while i < lines.len()
        invariant
            1 <= i <= lines@.len(),
            rest == lines.deep_view().drop_first(),
            hits_of(rest) == Seq::new(r@.len(), |t: int| ((#[trigger] r@[t]).0, r@[t].1@))
                + hits_of(rest.skip(i - 1)),
        decreases lines@.len() - i,
    {
        let line = &lines[i];
        let ghost lv = rest[i - 1];
        proof {
            assert(lv =~= lines@[i as int]@);
            assert(rest.skip(i - 1)[0] == lv);
            assert(rest.skip(i - 1).drop_first() =~= rest.skip(i as int));
        }
        match find_char_vec(line, ':') {
            None => {
                proof {
                    assert(hit_of(lv) is None);
                }
            },
            Some(c) => {
                let ln: usize = line.len();
                proof {
                    crate::chars::lemma_find_char(lv, ':');
                    assert(c < ln);
                }
                let num = chars_range(line, 0, c);
                proof {
                    assert(num@ =~= lv.take(c as int));
                }
                let v: u32 = match chars_to_u32(&num) {
                    Some(v) => v,
                    None => 0,
                };
                let text = chars_range(line, c + 1, ln);
                proof {
                    assert(text@ =~= lv.skip(c + 1));
                    assert(hit_of(lv) == Some((v, text@)));
                }
                let ghost r0 = r@;
                r.push((v, chars_to_string(&text)));
                proof {
                    assert forall|t: int|
                        0 <= t < r@.len() implies ((#[trigger] r@[t]).0, r@[t].1@) == (Seq::new(
                        r0.len(),
                        |t2: int| ((r0[t2]).0, r0[t2].1@),
                    ).push((v, text@)))[t] by {
                        if t < r0.len() {
                            assert(r@[t] == r0[t]);
                        }
                    }
                    assert(Seq::new(r@.len(), |t: int| ((r@[t]).0, r@[t].1@)) =~= Seq::new(
                        r0.len(),
                        |t2: int| ((r0[t2]).0, r0[t2].1@),
                    ).push((v, text@)));
                    assert(hits_of(rest.skip(i - 1)) == seq![(v, text@)] + hits_of(
                        rest.skip(i as int),
                    ));
                    assert(Seq::new(r0.len(), |t2: int| ((r0[t2]).0, r0[t2].1@)).push((v, text@))
                        + hits_of(rest.skip(i as int)) =~= Seq::new(
                        r0.len(),
                        |t2: int| ((r0[t2]).0, r0[t2].1@),
                    ) + hits_of(rest.skip(i - 1)));
                }
            },
        }
        i = i + 1;
    }
    proof {
        assert(rest.skip(lines@.len() - 1) =~= Seq::<Seq<char>>::empty());
        assert(hits_of(Seq::<Seq<char>>::empty()) =~= Seq::<(u32, Seq<char>)>::empty());
        assert(hits_of(rest) =~= Seq::new(r@.len(), |t: int| ((r@[t]).0, r@[t].1@)));
    }
    r
}

impl NodeIndex {
    /// The titles of the ancestors of `full`, nearest first, with the
    /// placeholder title where no node exists.
    fn breadcrumbs(&self, full: &TreePath) -> (r: Vec<String>)
        requires
            self.wf(),
        ensures
            r.deep_view() == Seq::new(
                full@.len() as nat,
                |k: int| title_at(self@, full@.take(full@.len() - 1 - k)),
            ),
    {
        let mut r: Vec<String> = Vec::new();
        let mut cpath = full.duplicate();
        let mut k: usize = 0;
        let n: usize = full.len();
        while k < n
            invariant
                k <= n,
                n == full@.len(),
                self.wf(),
                cpath@ == full@.take(n - k),
                r.deep_view().len() == k,
                forall|t: int|
                    0 <= t < k ==> #[trigger] r.deep_view()[t] == title_at(
                        self@,
                        full@.take(n - 1 - t),
                    ),
            decreases n - k,
        {
            cpath.pop();
            proof {
                assert(cpath@ =~= full@.take(n - k - 1));
            }
            let title: String = match self.get_node(&cpath) {
                Some(node) => node.header.title.clone(),
                None => String::from_str("(empty node)"),
            };
            let ghost r0 = r.deep_view();
            proof {
                assert(title@ == title_at(self@, full@.take(n - 1 - k)));
            }
            r.push(title);
            proof {
                assert forall|t: int|
                    0 <= t < k + 1 implies #[trigger] r.deep_view()[t] == title_at(
                    self@,
                    full@.take(n - 1 - t),
                ) by {
                    if t < k {
                        assert(r.deep_view()[t] == r0[t]);
                    }
                }
            }
            k = k + 1;
        }
        proof {
            assert(r.deep_view() =~~= Seq::new(
                full@.len() as nat,
                |k2: int| title_at(self@, full@.take(full@.len() - 1 - k2)),
            ));
        }
        r
    }

    /// Annotates the external search tool's output below `query_path`: one
    /// result per block, carrying the node's human path, title, breadcrumb
    /// titles, matching lines, and tags, sorted by human path.
    pub fn annotate_search_results(&self, query_path: &TreePath, stdout: &str) -> (r: Vec<
        RipgrepResult,
    >)
        requires
            self.wf(),
        ensures
            r@.len() == search_results_of(self@, query_path@, stdout@).len(),
            exists|perm: Seq<int>|
                #[trigger] result_perm(
                    perm,
                    r.deep_view(),
                    search_results_of(self@, query_path@, stdout@),
                ),
            forall|t1: int, t2: int|
                #![trigger r.deep_view()[t1], r.deep_view()[t2]]
                0 <= t1 < r@.len() && t2 == t1 + 1 && t2 < r@.len() ==> chars_rank(
                    r.deep_view()[t1].path,
                    r.deep_view()[t2].path,
                ) != Rank::Greater,
    {
        let cv = str_to_chars(stdout);
        let mut sep: Vec<char> = Vec::new();
        sep.push('\n');
        sep.push('\n');
        proof {
            assert(sep@ =~= seq!['\n', '\n']);
        }
        let blocks = split_sub_chars(&cv, &sep);
        let ghost bd = blocks.deep_view();
        let mut r: Vec<RipgrepResult> = Vec::new();
        let mut i: usize = 0;
        proof {
            assert(bd.take(0) =~= Seq::<Seq<char>>::empty());
            assert(r.deep_view() =~~= results_of(self@, query_path@, bd.take(0)));
        }
        while i < blocks.len()
            invariant
                i <= bd.len(),
                bd == blocks.deep_view(),
                self.wf(),
                r.deep_view() == results_of(self@, query_path@, bd.take(i as int)),
            decreases bd.len() - i,
        {
            let b = &blocks[i];
            proof {
                assert(bd[i as int] =~= b@);
                assert(bd.take(i + 1 as int) =~= bd.take(i as int) + seq![bd[i as int]]);
                lemma_results_concat(self@, query_path@, bd.take(i as int), seq![bd[i as int]]);
                assert(seq![bd[i as int]][0] == bd[i as int]);
                assert(seq![bd[i as int]].drop_first() =~= Seq::<Seq<char>>::empty());
                assert(results_of(self@, query_path@, Seq::<Seq<char>>::empty()) =~= Seq::<
                    RipgrepResultView,
                >::empty());
            }
            let added = self.block_to_result(query_path, b);
            let ghost old_deep = r.deep_view();
            match added {
                Some(res) => {
                    let ghost rv = res@;
                    proof {
                        assert(block_result(self@, query_path@, bd[i as int]) == Some(rv));
                        assert(results_of(self@, query_path@, seq![bd[i as int]]) =~= seq![rv]);
                    }
                    r.push(res);
                    proof {
                        assert(r.deep_view() =~~= old_deep.push(rv));
                        assert(r.deep_view() =~~= results_of(
                            self@,
                            query_path@,
                            bd.take(i + 1 as int),
                        ));
                    }
                },
                None => {
                    proof {
                        assert(block_result(self@, query_path@, bd[i as int]) is None);
                        assert(results_of(self@, query_path@, seq![bd[i as int]]) =~= Seq::<
                            RipgrepResultView,
                        >::empty());
                        assert(old_deep + results_of(self@, query_path@, seq![bd[i as int]])
                            =~~= old_deep);
                        assert(r.deep_view() =~~= results_of(
                            self@,
                            query_path@,
                            bd.take(i + 1 as int),
                        ));
                    }
                },
            }
            i = i + 1;
        }
        proof {
            assert(bd.take(bd.len() as int) =~= bd);
        }
        let sorted = sort_results(r);
        sorted
    }

    /// The annotated result of one output block, if it names an indexed
    /// location.
    fn block_to_result(&self, query_path: &TreePath, b: &Vec<char>) -> (r: Option<RipgrepResult>)
        requires
            self.wf(),
        ensures
            match r {
                Some(res) => block_result(self@, query_path@, b@) == Some(res@),
                None => block_result(self@, query_path@, b@) is None,
            },
    {
        let t = trim_range(b, 0, b.len());
        proof {
            assert(b@.subrange(0, b@.len() as int) =~= b@);
        }
        if t.len() == 0 {
            return None;
        }
        let lines = split_on_char(b, '\n');
        proof {
            assert(lines.deep_view() == split_on(b@, '\n'));
            crate::chars::lemma_split_on_pieces(b@, '\n');
            assert(lines.deep_view().len() >= 1);
            assert(lines.deep_view()[0] =~= lines@[0]@);
        }
        let fname = &lines[0];
        let mut temp_pat: Vec<char> = Vec::new();
        temp_pat.push('.');
        temp_pat.push('t');
        temp_pat.push('e');
        temp_pat.push('m');
        temp_pat.push('p');
        temp_pat.push('.');
        proof {
            assert(temp_pat@ =~= seq!['.', 't', 'e', 'm', 'p', '.']);
        }
        if crate::chars::find_sub_chars(fname, &temp_pat).is_some() {
            return None;
        }
        let mut suf: Vec<char> = Vec::new();
        suf.push('n');
        suf.push('o');
        suf.push('d');
        suf.push('e');
        suf.push('.');
        suf.push('a');
        suf.push('d');
        suf.push('o');
        suf.push('c');
        proof {
            reveal_strlit("node.adoc");
            assert(suf@ =~= "node.adoc"@);
        }
        let stripped = strip_suffix_all_exec(chars_range(fname, 0, fname.len()), &suf);
        proof {
            assert(fname@.subrange(0, fname@.len() as int) =~= fname@);
        }
        let stripped_s = chars_to_string(&stripped);
        match TreePath::from_file_path(stripped_s.as_str()) {
            Err(_) => None,
            Ok(p) => {
                let full = query_path.concat(&p);
                let (title, tags): (String, Vec<String>) = match self.get_node(&full) {
                    Some(node) => (node.header.title.clone(), node.get_tags()),
                    None => (String::from_str("(empty node)"), Vec::new()),
                };
                let parent_titles = self.breadcrumbs(&full);
                let hits = collect_hits(&lines);
                let shown = full.to_human();
                let res = RipgrepResult {
                    path: shown,
                    title,
                    parent_titles,
                    lines: hits,
                    tags,
                };
                proof {
                    let fname_spec = split_on(b@, '\n')[0];
                    assert(fname_spec =~= lines.deep_view()[0]);
                    assert(stripped_s@ == strip_suffix_all(fname_spec, "node.adoc"@));
                    assert(full@ == query_path@ + p@);
                    assert(res@.path == human_of(full@));
                    assert(res@.title == title_at(self@, full@));
                    assert(res@.parent_titles =~~= Seq::new(
                        full@.len() as nat,
                        |k: int| title_at(self@, full@.take(full@.len() - 1 - k)),
                    ));
                    assert(res@.lines =~= hits_of(split_on(b@, '\n').drop_first())) by {
                        assert(lines.deep_view().drop_first() =~~= split_on(
                            b@,
                            '\n',
                        ).drop_first());
                    }
                    assert(res@.tags =~~= (if contains_path(self@, full@) {
                        tags_of(node_at(self@, full@).raw)
                    } else {
                        Seq::<Seq<char>>::empty()
                    }));
                    match block_result(self@, query_path@, b@) {
                        Some(x) => {
                            assert(x.path == res@.path);
                            assert(x.title == res@.title);
                            assert(x.parent_titles == res@.parent_titles);
                            assert(x.lines == res@.lines);
                            assert(x.tags == res@.tags);
                            assert(x == res@);
                        },
                        None => {
                            assert(false);
                        },
                    }
                }
                Some(res)
            },
        }
    }
}

} // verus!
