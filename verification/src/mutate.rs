//! Mutation planning and application.  Every mutation is split in two: a
//! `plan_*` function validates against the in-memory index and describes the
//! filesystem work and the commit message, and an `apply_*` function updates
//! the in-memory index after the surrounding application has performed that
//! work.  On a filesystem failure partway through, the application reloads
//! the index from disk instead of applying.

use vstd::prelude::*;

use crate::errors::StoreError;
use crate::index::{
    contains_path, lemma_node_at, lemma_sorted_unique, node_at, path_index, sorted_by_path,
    NodeIndex,
};
use crate::node::{Node, NodeView};
use crate::path::{display_of, is_prefix_of, path_lt, TreePath};

verus! {

/// The view of a rename list: pairs of old and new path.
pub open spec fn mapping_views(m: Seq<(TreePath, TreePath)>) -> Seq<(Seq<u32>, Seq<u32>)> {
    Seq::new(m.len(), |i: int| (m[i].0@, m[i].1@))
}

/// The first pair whose old path is an ancestor-or-self of `q`, or `-1`.
pub open spec fn first_match(mv: Seq<(Seq<u32>, Seq<u32>)>, q: Seq<u32>) -> int
    decreases mv.len(),
{
    if mv.len() == 0 {
        -1
    } else if is_prefix_of(mv[0].0, q) {
        0
    } else {
        let r = first_match(mv.drop_first(), q);
        if r == -1 {
            -1
        } else {
            1 + r
        }
    }
}

/// Where `q` ends up under the rename list `mv`: the first pair whose old
/// path covers `q` replaces that prefix by its new path; otherwise `q` stays.
pub open spec fn remap_rewrite(mv: Seq<(Seq<u32>, Seq<u32>)>, q: Seq<u32>) -> Seq<u32> {
    let t = first_match(mv, q);
    if t == -1 {
        q
    } else {
        mv[t].1 + q.skip(mv[t].0.len() as int)
    }
}

/// `first_match` is the least matching position, or `-1` without a match.
pub proof fn lemma_first_match(mv: Seq<(Seq<u32>, Seq<u32>)>, q: Seq<u32>)
    ensures
        first_match(mv, q) == -1 ==> forall|t: int|
            0 <= t < mv.len() ==> !is_prefix_of((#[trigger] mv[t]).0, q),
        first_match(mv, q) != -1 ==> {
            &&& 0 <= first_match(mv, q) < mv.len()
            &&& is_prefix_of(mv[first_match(mv, q)].0, q)
            &&& forall|t: int|
                0 <= t < first_match(mv, q) ==> !is_prefix_of((#[trigger] mv[t]).0, q)
        },
    decreases mv.len(),
{
    if mv.len() == 0 {
    } else if is_prefix_of(mv[0].0, q) {
    } else {
        lemma_first_match(mv.drop_first(), q);
        let r = first_match(mv.drop_first(), q);
        if r == -1 {
            assert forall|t: int| 0 <= t < mv.len() implies !is_prefix_of(
                (#[trigger] mv[t]).0,
                q,
            ) by {
                if t > 0 {
                    assert(mv.drop_first()[t - 1] == mv[t]);
                }
            }
        } else {
            assert(mv[1 + r] == mv.drop_first()[r]);
            assert forall|t: int| 0 <= t < 1 + r implies !is_prefix_of(
                (#[trigger] mv[t]).0,
                q,
            ) by {
                if t > 0 {
                    assert(mv.drop_first()[t - 1] == mv[t]);
                }
            }
        }
    }
}

/// The conditions under which a rename list can be applied to the index
/// `old` without two nodes ever claiming one path: every old path names a
/// node, no new path is an ancestor-or-self of another, and any node under
/// some new path is also under some old path.
pub open spec fn remap_ok(old: Seq<NodeView>, mv: Seq<(Seq<u32>, Seq<u32>)>) -> bool {
    &&& forall|t: int| 0 <= t < mv.len() ==> contains_path(old, (#[trigger] mv[t]).0)
    &&& forall|t: int, u: int|
        0 <= t < mv.len() && 0 <= u < mv.len() && t != u ==> !is_prefix_of(
            (#[trigger] mv[t]).1,
            (#[trigger] mv[u]).1,
        )
    &&& forall|q: Seq<u32>, t: int|
        #[trigger] contains_path(old, q) && 0 <= t < mv.len() && is_prefix_of(
            (#[trigger] mv[t]).1,
            q,
        ) ==> first_match(mv, q) != -1
}

/// The index `new` holds exactly the nodes of `old`, each at its rewritten
/// path.
pub open spec fn rekeyed(
    old: Seq<NodeView>,
    new: Seq<NodeView>,
    mv: Seq<(Seq<u32>, Seq<u32>)>,
) -> bool {
    &&& forall|q: Seq<u32>|
        #[trigger] contains_path(old, q) ==> contains_path(new, remap_rewrite(mv, q)) && node_at(
            new,
            remap_rewrite(mv, q),
        ) == node_at(old, q).with_path(remap_rewrite(mv, q))
    &&& forall|q: Seq<u32>|
        #[trigger] contains_path(new, q) ==> exists|q0: Seq<u32>|
            #[trigger] contains_path(old, q0) && q == remap_rewrite(mv, q0)
}

/// Under `remap_ok`, the rewrite maps distinct paths of the index to
/// distinct paths.
proof fn lemma_rewrite_injective(
    old: Seq<NodeView>,
    mv: Seq<(Seq<u32>, Seq<u32>)>,
    q1: Seq<u32>,
    q2: Seq<u32>,
)
    requires
        remap_ok(old, mv),
        contains_path(old, q1),
        contains_path(old, q2),
        remap_rewrite(mv, q1) == remap_rewrite(mv, q2),
    ensures
        q1 == q2,
{
    lemma_first_match(mv, q1);
    lemma_first_match(mv, q2);
    let t1 = first_match(mv, q1);
    let t2 = first_match(mv, q2);
    if t1 == -1 && t2 == -1 {
    } else if t1 != -1 && t2 == -1 {
        // q2 equals a rewritten path, so it lies under a new path
        assert(q2 == mv[t1].1 + q1.skip(mv[t1].0.len() as int));
        assert(is_prefix_of(mv[t1].1, q2)) by {
            assert(q2.subrange(0, mv[t1].1.len() as int) =~= mv[t1].1);
        }
        assert(first_match(mv, q2) != -1);
    } else if t1 == -1 && t2 != -1 {
        assert(q1 == mv[t2].1 + q2.skip(mv[t2].0.len() as int));
        assert(is_prefix_of(mv[t2].1, q1)) by {
            assert(q1.subrange(0, mv[t2].1.len() as int) =~= mv[t2].1);
        }
        assert(first_match(mv, q1) != -1);
    } else {
        let n1 = mv[t1].1;
        let n2 = mv[t2].1;
        let s1 = q1.skip(mv[t1].0.len() as int);
        let s2 = q2.skip(mv[t2].0.len() as int);
        if t1 == t2 {
            assert(n1 + s1 == n2 + s2);
            assert((n1 + s1).len() == (n2 + s2).len());
            assert(s1.len() == s2.len());
            assert(s1 =~= s2) by {
                assert forall|z: int| 0 <= z < s1.len() implies s1[z] == s2[z] by {
                    assert((n1 + s1)[n1.len() + z] == s1[z]);
                    assert((n2 + s2)[n2.len() + z] == s2[z]);
                }
            }
            assert(q1 =~= mv[t1].0 + s1) by {
                assert(q1.subrange(0, mv[t1].0.len() as int) == mv[t1].0);
            }
            assert(q2 =~= mv[t2].0 + s2) by {
                assert(q2.subrange(0, mv[t2].0.len() as int) == mv[t2].0);
            }
        } else {
            // the shorter new path would be an ancestor of the other
            if n1.len() <= n2.len() {
                assert(is_prefix_of(n1, n2)) by {
                    assert forall|z: int| 0 <= z < n1.len() implies n2.subrange(
                        0,
                        n1.len() as int,
                    )[z] == n1[z] by {
                        assert((n1 + s1)[z] == n1[z]);
                        assert((n2 + s2)[z] == n2[z]);
                    }
                    assert(n2.subrange(0, n1.len() as int) =~= n1);
                }
                assert(false);
            } else {
                assert(is_prefix_of(n2, n1)) by {
                    assert forall|z: int| 0 <= z < n2.len() implies n1.subrange(
                        0,
                        n2.len() as int,
                    )[z] == n2[z] by {
                        assert((n1 + s1)[z] == n1[z]);
                        assert((n2 + s2)[z] == n2[z]);
                    }
                    assert(n1.subrange(0, n2.len() as int) =~= n2);
                }
                assert(false);
            }
        }
    }
}

/// Whether the old path of some pair is an ancestor-or-self of `q`, and the
/// first such position.
fn first_match_exec(mapping: &Vec<(TreePath, TreePath)>, q: &TreePath) -> (r: Option<usize>)
    ensures
        match r {
            Some(t) => first_match(mapping_views(mapping@), q@) == t as int,
            None => first_match(mapping_views(mapping@), q@) == -1,
        },
{
    let ghost mv = mapping_views(mapping@);
    proof {
        lemma_first_match(mv, q@);
    }
    let mut t: usize = 0;
    while t < mapping.len()
        invariant
            t <= mapping@.len(),
            mv == mapping_views(mapping@),
            forall|u: int| 0 <= u < t ==> !is_prefix_of((#[trigger] mv[u]).0, q@),
        decreases mapping@.len() - t,
    {
        if q.starts_with(&mapping[t].0) {
            proof {
                lemma_first_match(mv, q@);
                assert(mv[t as int].0 == mapping@[t as int].0@);
                if first_match(mv, q@) == -1 {
                    assert(!is_prefix_of(mv[t as int].0, q@));
                }
                if first_match(mv, q@) > t {
                    assert(!is_prefix_of(mv[t as int].0, q@));
                }
                if 0 <= first_match(mv, q@) < t {
                    assert(!is_prefix_of(mv[first_match(mv, q@)].0, q@));
                }
            }
            return Some(t);
        }
        proof {
            assert(mv[t as int].0 == mapping@[t as int].0@);
        }
        t = t + 1;
    }
    proof {
        lemma_first_match(mv, q@);
        if first_match(mv, q@) != -1 {
            assert(!is_prefix_of(mv[first_match(mv, q@)].0, q@));
        }
    }
    None
}

/// `to` with the components of `q` after the first `n` appended.
fn rewrite_path(q: &TreePath, n: usize, to: &TreePath) -> (r: TreePath)
    requires
        n <= q@.len(),
    ensures
        r@ == to@ + q@.skip(n as int),
{
    let mut r = to.duplicate();
    let comps = q.iter();
    let mut k: usize = n;
    while k < comps.len()
        invariant
            n <= k <= q@.len(),
            comps@ == q@,
            r@ == to@ + q@.subrange(n as int, k as int),
        decreases q@.len() - k,
    {
        r.push(comps[k]);
        proof {
            assert(r@ =~= to@ + q@.subrange(n as int, k + 1 as int));
        }
        k = k + 1;
    }
    proof {
        assert(q@.subrange(n as int, q@.len() as int) =~= q@.skip(n as int));
    }
    r
}

impl NodeIndex {
    /// Applies a rename list to the in-memory index: each node whose path
    /// lies under some pair's old path moves to the corresponding new path,
    /// everything else stays.  Fails with `Conflict`, leaving the index
    /// untouched, exactly when the list cannot be applied without collisions.
    pub fn apply_remap(&mut self, mapping: &Vec<(TreePath, TreePath)>) -> (r: Result<
        (),
        StoreError,
    >)
        requires
            old(self).wf(),
        ensures
            match r {
                Ok(()) => {
                    &&& remap_ok(old(self)@, mapping_views(mapping@))
                    &&& final(self).wf()
                    &&& final(self)@.len() == old(self)@.len()
                    &&& rekeyed(old(self)@, final(self)@, mapping_views(mapping@))
                },
                Err(e) => {
                    &&& e == StoreError::Conflict
                    &&& final(self)@ == old(self)@
                    &&& !remap_ok(old(self)@, mapping_views(mapping@))
                },
            },
    {
        let ghost mv = mapping_views(mapping@);
        let ghost s0 = self@;
        // every old path must name a node
        let mut t: usize = 0;
        while t < mapping.len()
            invariant
                t <= mapping@.len(),
                mv == mapping_views(mapping@),
                self@ == s0,
                self.wf(),
                forall|u: int| 0 <= u < t ==> contains_path(s0, (#[trigger] mv[u]).0),
            decreases mapping@.len() - t,
        {
            proof {
                assert(mv[t as int].0 == mapping@[t as int].0@);
            }
            if self.get_node(&mapping[t].0).is_none() {
                proof {
                    assert(!contains_path(s0, mv[t as int].0));
                }
                return Err(StoreError::Conflict);
            }
            t = t + 1;
        }
        // no new path may cover another
        let mut t2: usize = 0;
        while t2 < mapping.len()
            invariant
                t2 <= mapping@.len(),
                mv == mapping_views(mapping@),
                self@ == s0,
                self.wf(),
                forall|u: int| 0 <= u < mv.len() ==> contains_path(s0, (#[trigger] mv[u]).0),
                forall|a: int, b: int|
                    0 <= a < t2 && 0 <= b < mv.len() && a != b ==> !is_prefix_of(
                        (#[trigger] mv[a]).1,
                        (#[trigger] mv[b]).1,
                    ),
            decreases mapping@.len() - t2,
        {
            let mut u: usize = 0;
            while u < mapping.len()
                invariant
                    t2 < mapping@.len(),
                    u <= mapping@.len(),
                    mv == mapping_views(mapping@),
                    self@ == s0,
                    self.wf(),
                    forall|b: int|
                        0 <= b < u && t2 != b ==> !is_prefix_of(
                            (#[trigger] mv[t2 as int]).1,
                            (#[trigger] mv[b]).1,
                        ),
                decreases mapping@.len() - u,
            {
                proof {
                    assert(mv[t2 as int].1 == mapping@[t2 as int].1@);
                    assert(mv[u as int].1 == mapping@[u as int].1@);
                }
                if u != t2 && mapping[u].1.starts_with(&mapping[t2].1) {
                    proof {
                        assert(is_prefix_of(mv[t2 as int].1, mv[u as int].1));
                    }
                    return Err(StoreError::Conflict);
                }
                u = u + 1;
            }
            t2 = t2 + 1;
        }
        // every node under a new path must also lie under an old path
        let mut i: usize = 0;
        while i < self.len()
            invariant
                i <= self@.len(),
                mv == mapping_views(mapping@),
                self@ == s0,
                self.wf(),
                forall|u: int| 0 <= u < mv.len() ==> contains_path(s0, (#[trigger] mv[u]).0),
                forall|a: int, b: int|
                    0 <= a < mv.len() && 0 <= b < mv.len() && a != b ==> !is_prefix_of(
                        (#[trigger] mv[a]).1,
                        (#[trigger] mv[b]).1,
                    ),
                forall|j: int, u: int|
                    #![trigger s0[j], mv[u]]
                    0 <= j < i && 0 <= u < mv.len() && is_prefix_of(mv[u].1, s0[j].path)
                        ==> first_match(mv, s0[j].path) != -1,
            decreases self@.len() - i,
        {
            let mut u: usize = 0;
            while u < mapping.len()
                invariant
                    i < self@.len(),
                    u <= mapping@.len(),
                    mv == mapping_views(mapping@),
                    self@ == s0,
                    self.wf(),
                    forall|b: int|
                        0 <= b < u && is_prefix_of((#[trigger] mv[b]).1, s0[i as int].path)
                            ==> first_match(mv, s0[i as int].path) != -1,
                decreases mapping@.len() - u,
            {
                proof {
                    assert(mv[u as int].1 == mapping@[u as int].1@);
                }
                if self.at(i).path.starts_with(&mapping[u].1) {
                    match first_match_exec(mapping, &self.at(i).path) {
                        Some(_) => {},
                        None => {
                            proof {
                                assert(is_prefix_of(mv[u as int].1, s0[i as int].path));
                                assert(contains_path(s0, s0[i as int].path)) by {
                                    assert(s0[i as int].path == s0[i as int].path);
                                }
                                assert(!remap_ok(s0, mv));
                            }
                            return Err(StoreError::Conflict);
                        },
                    }
                }
                u = u + 1;
            }
            i = i + 1;
        }
        proof {
            assert(remap_ok(s0, mv)) by {
                assert forall|q: Seq<u32>, u: int|
                    #[trigger] contains_path(s0, q) && 0 <= u < mv.len() && is_prefix_of(
                        (#[trigger] mv[u]).1,
                        q,
                    ) implies first_match(mv, q) != -1 by {
                    let j = path_index(s0, q);
                    assert(s0[j].path == q);
                }
            }
        }
        // rewrite every node's path
        let mut rewritten: Vec<Node> = Vec::new();
        let mut i2: usize = 0;
        while i2 < self.len()
            invariant
                i2 <= self@.len(),
                mv == mapping_views(mapping@),
                self@ == s0,
                self.wf(),
                rewritten.deep_view().len() == i2,
                forall|j: int|
                    0 <= j < i2 ==> (#[trigger] rewritten.deep_view()[j]) == s0[j].with_path(
                        remap_rewrite(mv, s0[j].path),
                    ),
            decreases self@.len() - i2,
        {
            let node = self.at(i2);
            let ghost nv = s0[i2 as int];
            proof {
                assert(node@ == nv);
            }
            let new_node: Node = match first_match_exec(mapping, &node.path) {
                Some(t3) => {
                    proof {
                        lemma_first_match(mv, node@.path);
                        assert(mv[t3 as int].0 == mapping@[t3 as int].0@);
                        assert(mv[t3 as int].1 == mapping@[t3 as int].1@);
                    }
                    let np = rewrite_path(&node.path, mapping[t3].0.len(), &mapping[t3].1);
                    proof {
                        assert(np@ == remap_rewrite(mv, nv.path));
                    }
                    Node { path: np, header: node.header.duplicate(), raw: node.raw.clone() }
                },
                None => {
                    proof {
                        assert(remap_rewrite(mv, nv.path) == nv.path);
                    }
                    node.duplicate()
                },
            };
            proof {
                assert(new_node@ == nv.with_path(remap_rewrite(mv, nv.path)));
            }
            let ghost old_rw = rewritten.deep_view();
            rewritten.push(new_node);
            proof {
                assert(rewritten.deep_view() =~= old_rw.push(new_node@));
                assert(rewritten.deep_view()[i2 as int] == new_node@);
            }
            i2 = i2 + 1;
        }
        let ghost rwd = rewritten.deep_view();
        proof {
            lemma_sorted_unique(s0);
            assert forall|a: int, b: int|
                0 <= a < rwd.len() && 0 <= b < rwd.len() && a != b implies (
            #[trigger] rwd[a]).path != (#[trigger] rwd[b]).path by {
                if rwd[a].path == rwd[b].path {
                    assert(contains_path(s0, s0[a].path)) by {
                        assert(s0[a].path == s0[a].path);
                    }
                    assert(contains_path(s0, s0[b].path)) by {
                        assert(s0[b].path == s0[b].path);
                    }
                    lemma_rewrite_injective(s0, mv, s0[a].path, s0[b].path);
                }
            }
        }
        // rebuild the sorted index
        let mut index = NodeIndex::empty();
        let mut w: usize = 0;
        while w < rewritten.len()
            invariant
                w <= rwd.len(),
                rwd == rewritten.deep_view(),
                index.wf(),
                index@.len() == w,
                forall|p: Seq<u32>|
                    #[trigger] contains_path(index@, p) <==> exists|j: int|
                        0 <= j < w && (#[trigger] rwd[j]).path == p,
                forall|j: int| 0 <= j < w ==> node_at(index@, (#[trigger] rwd[j]).path) == rwd[j],
                forall|a: int, b: int|
                    0 <= a < rwd.len() && 0 <= b < rwd.len() && a != b ==> (
                    #[trigger] rwd[a]).path != (#[trigger] rwd[b]).path,
            decreases rwd.len() - w,
        {
            let ghost pre = index@;
            proof {
                if contains_path(pre, rwd[w as int].path) {
                    let j = choose|j: int|
                        0 <= j < w && (#[trigger] rwd[j]).path == rwd[w as int].path;
                    assert(rwd[j].path != rwd[w as int].path);
                }
            }
            index.insert_node(rewritten[w].duplicate());
            proof {
                assert(rewritten@[w as int]@ == rwd[w as int]);
                assert forall|p: Seq<u32>|
                    #[trigger] contains_path(index@, p) <==> exists|j: int|
                        0 <= j < w + 1 && (#[trigger] rwd[j]).path == p by {
                    if contains_path(index@, p) {
                        if p == rwd[w as int].path {
                            assert(rwd[w as int].path == p);
                        } else {
                            assert(contains_path(pre, p));
                        }
                    }
                }
                assert forall|j: int|
                    0 <= j < w + 1 implies node_at(index@, (#[trigger] rwd[j]).path) == rwd[j] by {
                    if j < w {
                        assert(rwd[j].path != rwd[w as int].path);
                    }
                }
            }
            w = w + 1;
        }
        *self = index;
        proof {
            let fin = self@;
            assert forall|q: Seq<u32>| #[trigger] contains_path(s0, q) implies contains_path(
                fin,
                remap_rewrite(mv, q),
            ) && node_at(fin, remap_rewrite(mv, q)) == node_at(s0, q).with_path(
                remap_rewrite(mv, q),
            ) by {
                let j = path_index(s0, q);
                assert(s0[j].path == q);
                lemma_node_at(s0, q, j);
                assert(rwd[j] == s0[j].with_path(remap_rewrite(mv, q)));
                assert(rwd[j].path == remap_rewrite(mv, q));
                assert(node_at(fin, rwd[j].path) == rwd[j]);
            }
            assert forall|q: Seq<u32>| #[trigger] contains_path(fin, q) implies exists|
                q0: Seq<u32>,
            |
                #[trigger] contains_path(s0, q0) && q == remap_rewrite(mv, q0) by {
                let j = choose|j: int| 0 <= j < rwd.len() && (#[trigger] rwd[j]).path == q;
                assert(rwd[j] == s0[j].with_path(remap_rewrite(mv, s0[j].path)));
                assert(contains_path(s0, s0[j].path)) by {
                    assert(s0[j].path == s0[j].path);
                }
                assert(q == remap_rewrite(mv, s0[j].path));
            }
        }
        Ok(())
    }
}


/// The commit message for replacing a node: "Changed" when a real prior file
/// existed, "Added" otherwise.
pub open spec fn replace_message(nv: NodeView, prior: Option<Seq<char>>) -> Seq<char> {
    match prior {
        Some(s) => if s != "(placeholder)"@ {
            "Changed node "@ + display_of(nv.path) + " '"@ + nv.title + "'"@
        } else {
            "Added node "@ + display_of(nv.path) + " '"@ + nv.title + "'"@
        },
        None => "Added node "@ + display_of(nv.path) + " '"@ + nv.title + "'"@,
    }
}

/// Three strings, concatenated.
pub fn concat3(a: &str, b: &str, c: &str) -> (r: String)
    ensures
        r@ == a@ + b@ + c@,
{
    let mut r = String::from_str(a);
    r.append(b);
    r.append(c);
    proof {
        assert(r@ =~= a@ + b@ + c@);
    }
    r
}

/// Five strings, concatenated.
pub fn concat5(a: &str, b: &str, c: &str, d: &str, e: &str) -> (r: String)
    ensures
        r@ == a@ + b@ + c@ + d@ + e@,
{
    let mut r = String::from_str(a);
    r.append(b);
    r.append(c);
    r.append(d);
    r.append(e);
    proof {
        assert(r@ =~= a@ + b@ + c@ + d@ + e@);
    }
    r
}

/// The description of a node save: where the node's directory lies, the
/// trimmed text to write into its content file, and the commit message.
#[derive(Debug)]
pub struct ReplacePlan {
    pub path: TreePath,
    pub content: String,
    pub message: String,
}

/// The description of a subtree removal.
#[derive(Debug)]
pub struct DeletePlan {
    pub path: TreePath,
    pub message: String,
}

/// The description of a directory rename.
#[derive(Debug)]
pub struct MovePlan {
    pub from: TreePath,
    pub to: TreePath,
    pub message: String,
}

/// The description of a sibling swap: the three renames through the sentinel
/// path, in order, and the in-memory exchange pair.
#[derive(Debug)]
pub struct SwapPlan {
    pub renames: Vec<(TreePath, TreePath)>,
    pub sibling: TreePath,
    pub message: String,
}

impl NodeIndex {
    /// Describes saving `node`: the directory to create, the trimmed text to
    /// write, and the commit message, worded by whether a prior file other
    /// than the internal placeholder marker existed.
    pub fn plan_replace(&self, node: &Node, prior_file: Option<&String>) -> (r: ReplacePlan)
        ensures
            r.path@ == node@.path,
            r.content@ == crate::chars::trim_spec(node@.raw),
            r.message@ == replace_message(
                node@,
                match prior_file {
                    Some(s) => Some(s@),
                    None => None,
                },
            ),
    {
        let cv = crate::chars::str_to_chars(node.raw.as_str());
        let trimmed = crate::chars::trim_range(&cv, 0, cv.len());
        proof {
            assert(cv@.subrange(0, cv@.len() as int) =~= cv@);
        }
        let content = crate::chars::chars_to_string(&trimmed);
        let existed: bool = match prior_file {
            Some(s) => {
                let sc = crate::chars::str_to_chars(s.as_str());
                let marker = crate::chars::str_to_chars("(placeholder)");
                !crate::chars::chars_eq(&sc, &marker)
            },
            None => false,
        };
        let shown = node.path.display();
        let message = if existed {
            concat5("Changed node ", shown.as_str(), " '", node.header.title.as_str(), "'")
        } else {
            concat5("Added node ", shown.as_str(), " '", node.header.title.as_str(), "'")
        };
        ReplacePlan { path: node.path.duplicate(), content, message }
    }

    /// Inserts `node` into the index, replacing any node at its path; the
    /// in-memory half of a save.
    pub fn apply_replace(&mut self, node: Node)
        requires
            old(self).wf(),
        ensures
            final(self).wf(),
            contains_path(final(self)@, node@.path),
            node_at(final(self)@, node@.path) == node@,
            final(self)@.len() == old(self)@.len() + (if contains_path(old(self)@, node@.path) {
                0int
            } else {
                1int
            }),
            forall|q: Seq<u32>|
                q != node@.path ==> (contains_path(final(self)@, q) <==> contains_path(
                    old(self)@,
                    q,
                )),
            forall|q: Seq<u32>|
                q != node@.path && contains_path(old(self)@, q) ==> node_at(final(self)@, q)
                    == node_at(old(self)@, q),
    {
        self.insert_node(node);
    }

    /// Validates deleting the subtree at `path`: fails with `NotFound` when
    /// no node sits there, else names the directory to remove and the commit
    /// message.
    pub fn plan_delete(&self, path: &TreePath) -> (r: Result<DeletePlan, StoreError>)
        requires
            self.wf(),
        ensures
            match r {
                Ok(plan) => {
                    &&& contains_path(self@, path@)
                    &&& plan.path@ == path@
                    &&& plan.message@ == "Deleted node "@ + display_of(path@) + " and children"@
                },
                Err(e) => e == StoreError::NotFound && !contains_path(self@, path@),
            },
    {
        if self.get_node(path).is_none() {
            return Err(StoreError::NotFound);
        }
        let shown = path.display();
        let message = concat3("Deleted node ", shown.as_str(), " and children");
        Ok(DeletePlan { path: path.duplicate(), message })
    }

    /// Removes every node whose path starts with `path` from the index; the
    /// in-memory half of a delete.
    pub fn apply_delete(&mut self, path: &TreePath)
        requires
            old(self).wf(),
        ensures
            final(self).wf(),
            !contains_path(final(self)@, path@),
            forall|q: Seq<u32>|
                #[trigger] contains_path(final(self)@, q) <==> (contains_path(old(self)@, q)
                    && !is_prefix_of(path@, q)),
            forall|q: Seq<u32>|
                contains_path(final(self)@, q) ==> node_at(final(self)@, q) == node_at(
                    old(self)@,
                    q,
                ),
    {
        let ghost s0 = self@;
        proof {
            lemma_sorted_unique(s0);
            assert(path@.subrange(0, path@.len() as int) =~= path@);
        }
        let mut index = NodeIndex::empty();
        let mut i: usize = 0;
        while i < self.len()
            invariant
                i <= s0.len(),
                self@ == s0,
                self.wf(),
                index.wf(),
                is_prefix_of(path@, path@),
                forall|q: Seq<u32>|
                    #[trigger] contains_path(index@, q) <==> exists|j: int|
                        0 <= j < i && (#[trigger] s0[j]).path == q && !is_prefix_of(
                            path@,
                            s0[j].path,
                        ),
                forall|j: int|
                    0 <= j < i && !is_prefix_of(path@, (#[trigger] s0[j]).path) ==> node_at(
                        index@,
                        s0[j].path,
                    ) == s0[j],
                forall|a: int, b: int|
                    0 <= a < s0.len() && 0 <= b < s0.len() && a != b ==> (#[trigger] s0[a]).path
                        != (#[trigger] s0[b]).path,
            decreases s0.len() - i,
        {
            let node = self.at(i);
            let ghost pre = index@;
            if !node.path.starts_with(path) {
                index.insert_node(node.duplicate());
                proof {
                    assert forall|q: Seq<u32>|
                        #[trigger] contains_path(index@, q) <==> exists|j: int|
                            0 <= j < i + 1 && (#[trigger] s0[j]).path == q && !is_prefix_of(
                                path@,
                                s0[j].path,
                            ) by {
                        if contains_path(index@, q) {
                            if q == s0[i as int].path {
                                assert(s0[i as int].path == q && !is_prefix_of(
                                    path@,
                                    s0[i as int].path,
                                ));
                            } else {
                                assert(contains_path(pre, q));
                            }
                        }
                    }
                    assert forall|j: int|
                        0 <= j < i + 1 && !is_prefix_of(path@, (#[trigger] s0[j]).path) implies
                        node_at(index@, s0[j].path) == s0[j] by {
                        if j < i {
                            assert(s0[j].path != s0[i as int].path);
                        }
                    }
                }
            } else {
                proof {
                    assert forall|q: Seq<u32>|
                        #[trigger] contains_path(index@, q) <==> exists|j: int|
                            0 <= j < i + 1 && (#[trigger] s0[j]).path == q && !is_prefix_of(
                                path@,
                                s0[j].path,
                            ) by {}
                }
            }
            i = i + 1;
        }
        *self = index;
        proof {
            assert forall|q: Seq<u32>|
                #[trigger] contains_path(self@, q) <==> (contains_path(s0, q) && !is_prefix_of(
                    path@,
                    q,
                )) by {
                if contains_path(s0, q) && !is_prefix_of(path@, q) {
                    let j = path_index(s0, q);
                    assert(s0[j].path == q);
                }
            }
            assert forall|q: Seq<u32>| contains_path(self@, q) implies node_at(self@, q)
                == node_at(s0, q) by {
                let j = choose|j: int|
                    0 <= j < s0.len() && (#[trigger] s0[j]).path == q && !is_prefix_of(
                        path@,
                        s0[j].path,
                    );
                lemma_node_at(s0, q, j);
            }
        }
    }

    /// Removes the node at `path` and everything under it from the index,
    /// without a commit message: the on-disk action behind it deletes the
    /// node's whole directory, and directory deletion is node-plus-descendants
    /// deletion.
    pub fn remove_node(&mut self, path: &TreePath)
        requires
            old(self).wf(),
        ensures
            final(self).wf(),
            !contains_path(final(self)@, path@),
            forall|q: Seq<u32>|
                #[trigger] contains_path(final(self)@, q) <==> (contains_path(old(self)@, q)
                    && !is_prefix_of(path@, q)),
            forall|q: Seq<u32>|
                contains_path(final(self)@, q) ==> node_at(final(self)@, q) == node_at(
                    old(self)@,
                    q,
                ),
    {
        self.apply_delete(path);
    }

    /// Validates moving the subtree at `from` to `to`: fails with
    /// `AlreadyExists` exactly when a node already sits at `to`, with
    /// `NotFound` when no node sits at `from` either; else names the rename
    /// and the commit message.
    pub fn plan_move(&self, from: &TreePath, to: &TreePath) -> (r: Result<MovePlan, StoreError>)
        requires
            self.wf(),
        ensures
            match r {
                Ok(plan) => {
                    &&& !contains_path(self@, to@)
                    &&& contains_path(self@, from@)
                    &&& plan.from@ == from@
                    &&& plan.to@ == to@
                    &&& plan.message@ == "moved node "@ + display_of(from@) + " to "@ + display_of(
                        to@,
                    )
                },
                Err(e) => (e == StoreError::AlreadyExists && contains_path(self@, to@)) || (e
                    == StoreError::NotFound && !contains_path(self@, to@) && !contains_path(
                    self@,
                    from@,
                )),
            },
    {
        if self.get_node(to).is_some() {
            return Err(StoreError::AlreadyExists);
        }
        if self.get_node(from).is_none() {
            return Err(StoreError::NotFound);
        }
        let sf = from.display();
        let st = to.display();
        let message = concat5("moved node ", sf.as_str(), " to ", st.as_str(), "");
        proof {
            reveal_strlit("");
            assert(""@ =~= Seq::<char>::empty());
            assert("moved node "@ + sf@ + " to "@ + st@ + ""@ =~= "moved node "@ + sf@ + " to "@
                + st@);
        }
        Ok(MovePlan { from: from.duplicate(), to: to.duplicate(), message })
    }

    /// Rewrites the path of every node under `from` to sit under `to`; the
    /// in-memory half of a move.  Fails with `Conflict`, leaving the index
    /// untouched, when a node under `to` is not under `from`.
    pub fn apply_move(&mut self, from: &TreePath, to: &TreePath) -> (r: Result<(), StoreError>)
        requires
            old(self).wf(),
        ensures
            match r {
                Ok(()) => {
                    &&& remap_ok(old(self)@, seq![(from@, to@)])
                    &&& final(self).wf()
                    &&& final(self)@.len() == old(self)@.len()
                    &&& rekeyed(old(self)@, final(self)@, seq![(from@, to@)])
                },
                Err(e) => {
                    &&& e == StoreError::Conflict
                    &&& final(self)@ == old(self)@
                    &&& !remap_ok(old(self)@, seq![(from@, to@)])
                },
            },
    {
        let mut mapping: Vec<(TreePath, TreePath)> = Vec::new();
        mapping.push((from.duplicate(), to.duplicate()));
        proof {
            assert(mapping_views(mapping@) =~= seq![(from@, to@)]);
        }
        self.apply_remap(&mapping)
    }

    /// Exchanges the subtrees at `a` and `b`; the in-memory half of a
    /// sibling swap.
    pub fn apply_swap(&mut self, a: &TreePath, b: &TreePath) -> (r: Result<(), StoreError>)
        requires
            old(self).wf(),
        ensures
            match r {
                Ok(()) => {
                    &&& remap_ok(old(self)@, seq![(a@, b@), (b@, a@)])
                    &&& final(self).wf()
                    &&& final(self)@.len() == old(self)@.len()
                    &&& rekeyed(old(self)@, final(self)@, seq![(a@, b@), (b@, a@)])
                },
                Err(e) => {
                    &&& e == StoreError::Conflict
                    &&& final(self)@ == old(self)@
                    &&& !remap_ok(old(self)@, seq![(a@, b@), (b@, a@)])
                },
            },
    {
        let mut mapping: Vec<(TreePath, TreePath)> = Vec::new();
        mapping.push((a.duplicate(), b.duplicate()));
        mapping.push((b.duplicate(), a.duplicate()));
        proof {
            assert(mapping_views(mapping@) =~= seq![(a@, b@), (b@, a@)]);
        }
        self.apply_remap(&mapping)
    }
}


/// The children of one parent, as `children_for` returns them: each path is
/// the parent extended by one component, and the final components ascend.
proof fn lemma_child_list(cd: Seq<NodeView>, parent: Seq<u32>)
    requires
        sorted_by_path(cd),
        forall|t: int|
            0 <= t < cd.len() ==> crate::index::is_child_of(#[trigger] cd[t], parent),
    ensures
        forall|t: int|
            0 <= t < cd.len() ==> (#[trigger] cd[t]).path == parent.push(cd[t].path.last()),
        forall|a: int, b: int|
            0 <= a < b < cd.len() ==> (#[trigger] cd[a]).path.last() < (
            #[trigger] cd[b]).path.last(),
{
    assert forall|t: int|
        0 <= t < cd.len() implies (#[trigger] cd[t]).path == parent.push(cd[t].path.last()) by {
        assert(cd[t].path.subrange(0, parent.len() as int) == parent);
        assert(cd[t].path =~= parent.push(cd[t].path.last()));
    }
    assert forall|a: int, b: int|
        0 <= a < b < cd.len() implies (#[trigger] cd[a]).path.last() < (
    #[trigger] cd[b]).path.last() by {
        assert(path_lt(cd[a].path, cd[b].path));
        crate::path::lemma_push_lt(parent, cd[a].path.last(), cd[b].path.last());
    }
}

impl NodeIndex {
    /// The path of the sibling immediately before `path`: the greatest
    /// occupied slot of the same parent below `path`'s final component.
    pub fn find_previous_sibling(&self, path: &TreePath) -> (r: Option<TreePath>)
        requires
            self.wf(),
        ensures
            match r {
                Some(sib) => {
                    &&& contains_path(self@, path@)
                    &&& path@.len() > 0
                    &&& contains_path(self@, sib@)
                    &&& sib@ == path@.drop_last().push(sib@.last())
                    &&& sib@.last() < path@.last()
                    &&& forall|j: u32|
                        sib@.last() < j < path@.last() ==> !contains_path(
                            self@,
                            path@.drop_last().push(j),
                        )
                },
                None => path@.len() == 0 || !contains_path(self@, path@) || (forall|j: u32|
                    j < path@.last() ==> !contains_path(self@, path@.drop_last().push(j))),
            },
    {
        if path.is_empty() {
            return None;
        }
        if self.get_node(path).is_none() {
            return None;
        }
        let parent = path.parent();
        let children = self.children_for(&parent);
        let ghost cd = children.deep_view();
        proof {
            lemma_child_list(cd, parent@);
        }
        let mut t: usize = 0;
        while t < children.len() && !children[t].path.eq(path)
            invariant
                t <= cd.len(),
                cd == children.deep_view(),
                forall|u: int| 0 <= u < t ==> (#[trigger] cd[u]).path != path@,
            decreases cd.len() - t,
        {
            proof {
                assert(cd[t as int].path == children@[t as int].path@);
            }
            t = t + 1;
        }
        if t >= children.len() {
            // unreachable: the node at `path` is itself a child of its parent
            proof {
                let w = path_index(self@, path@);
                assert(self@[w].path == path@);
                assert(crate::index::is_child_of(self@[w], parent@)) by {
                    assert(path@.subrange(0, parent@.len() as int) =~= parent@);
                }
                assert(cd.contains(self@[w]));
                let u = choose|u: int| 0 <= u < cd.len() && cd[u] == self@[w];
                assert(cd[u].path != path@);
            }
            return None;
        }
        proof {
            assert(cd[t as int].path == children@[t as int].path@);
            assert(cd[t as int].path == path@);
        }
        if t == 0 {
            proof {
                assert forall|j: u32| j < path@.last() implies !contains_path(
                    self@,
                    path@.drop_last().push(j),
                ) by {
                    if contains_path(self@, path@.drop_last().push(j)) {
                        let w = path_index(self@, path@.drop_last().push(j));
                        assert(self@[w].path == path@.drop_last().push(j));
                        assert(crate::index::is_child_of(self@[w], parent@)) by {
                            assert(path@.drop_last().push(j).subrange(0, parent@.len() as int)
                                =~= parent@);
                        }
                        assert(cd.contains(self@[w]));
                        let u = choose|u: int| 0 <= u < cd.len() && cd[u] == self@[w];
                        assert(cd[u].path.last() == j);
                        assert(cd[u].path == parent@.push(j));
                        if u > 0 {
                            assert(cd[0].path.last() < cd[u].path.last());
                        }
                        if u == 0 {
                            assert(cd[0].path == path@);
                            assert(path@.last() == j);
                        } else {
                            assert(cd[0].path.last() == path@.last());
                            assert(j > path@.last());
                        }
                    }
                }
            }
            return None;
        }
        let sib = children[t - 1].path.duplicate();
        proof {
            assert(cd[t - 1].path == children@[t - 1].path@);
            assert(sib@ == cd[t - 1].path);
            assert(contains_path(self@, sib@));
            assert(cd[t - 1].path.last() < cd[t as int].path.last());
            assert(path@.drop_last() =~= parent@);
            assert(path@.last() == cd[t as int].path.last()) by {
                assert(cd[t as int].path == parent@.push(cd[t as int].path.last()));
            }
            assert forall|j: u32|
                sib@.last() < j < path@.last() implies !contains_path(
                self@,
                path@.drop_last().push(j),
            ) by {
                if contains_path(self@, path@.drop_last().push(j)) {
                    let w = path_index(self@, path@.drop_last().push(j));
                    assert(self@[w].path == path@.drop_last().push(j));
                    assert(crate::index::is_child_of(self@[w], parent@)) by {
                        assert(path@.drop_last().push(j).subrange(0, parent@.len() as int)
                            =~= parent@);
                    }
                    assert(cd.contains(self@[w]));
                    let u = choose|u: int| 0 <= u < cd.len() && cd[u] == self@[w];
                    assert(cd[u].path.last() == j);
                    if u < t - 1 {
                        assert(cd[u].path.last() < cd[t - 1].path.last());
                    }
                    if u == t - 1 {
                        assert(j == sib@.last());
                    }
                    if u == t {
                        assert(j == path@.last());
                    }
                    if u > t {
                        assert(cd[t as int].path.last() < cd[u].path.last());
                    }
                }
            }
        }
        Some(sib)
    }

    /// The path of the sibling immediately after `path`: the least occupied
    /// slot of the same parent above `path`'s final component.
    pub fn find_next_sibling(&self, path: &TreePath) -> (r: Option<TreePath>)
        requires
            self.wf(),
        ensures
            match r {
                Some(sib) => {
                    &&& contains_path(self@, path@)
                    &&& path@.len() > 0
                    &&& contains_path(self@, sib@)
                    &&& sib@ == path@.drop_last().push(sib@.last())
                    &&& sib@.last() > path@.last()
                    &&& forall|j: u32|
                        path@.last() < j < sib@.last() ==> !contains_path(
                            self@,
                            path@.drop_last().push(j),
                        )
                },
                None => path@.len() == 0 || !contains_path(self@, path@) || (forall|j: u32|
                    j > path@.last() ==> !contains_path(self@, path@.drop_last().push(j))),
            },
    {
        if path.is_empty() {
            return None;
        }
        if self.get_node(path).is_none() {
            return None;
        }
        let parent = path.parent();
        let children = self.children_for(&parent);
        let ghost cd = children.deep_view();
        proof {
            lemma_child_list(cd, parent@);
        }
        let mut t: usize = 0;
        while t < children.len() && !children[t].path.eq(path)
            invariant
                t <= cd.len(),
                cd == children.deep_view(),
                forall|u: int| 0 <= u < t ==> (#[trigger] cd[u]).path != path@,
            decreases cd.len() - t,
        {
            proof {
                assert(cd[t as int].path == children@[t as int].path@);
            }
            t = t + 1;
        }
        if t >= children.len() {
            proof {
                let w = path_index(self@, path@);
                assert(self@[w].path == path@);
                assert(crate::index::is_child_of(self@[w], parent@)) by {
                    assert(path@.subrange(0, parent@.len() as int) =~= parent@);
                }
                assert(cd.contains(self@[w]));
                let u = choose|u: int| 0 <= u < cd.len() && cd[u] == self@[w];
                assert(cd[u].path != path@);
            }
            return None;
        }
        proof {
            assert(cd[t as int].path == children@[t as int].path@);
            assert(cd[t as int].path == path@);
            assert(path@.drop_last() =~= parent@);
            assert(path@.last() == cd[t as int].path.last()) by {
                assert(cd[t as int].path == parent@.push(cd[t as int].path.last()));
            }
        }
        if t + 1 >= children.len() {
            proof {
                assert forall|j: u32| j > path@.last() implies !contains_path(
                    self@,
                    path@.drop_last().push(j),
                ) by {
                    if contains_path(self@, path@.drop_last().push(j)) {
                        let w = path_index(self@, path@.drop_last().push(j));
                        assert(self@[w].path == path@.drop_last().push(j));
                        assert(crate::index::is_child_of(self@[w], parent@)) by {
                            assert(path@.drop_last().push(j).subrange(0, parent@.len() as int)
                                =~= parent@);
                        }
                        assert(cd.contains(self@[w]));
                        let u = choose|u: int| 0 <= u < cd.len() && cd[u] == self@[w];
                        assert(cd[u].path.last() == j);
                        if u < t {
                            assert(cd[u].path.last() < cd[t as int].path.last());
                        }
                        if u == t {
                            assert(j == path@.last());
                        }
                    }
                }
            }
            return None;
        }
        let sib = children[t + 1].path.duplicate();
        proof {
            assert(cd[t + 1].path == children@[t + 1].path@);
            assert(sib@ == cd[t + 1].path);
            assert(contains_path(self@, sib@));
            assert(cd[t as int].path.last() < cd[t + 1].path.last());
            assert forall|j: u32|
                path@.last() < j < sib@.last() implies !contains_path(
                self@,
                path@.drop_last().push(j),
            ) by {
                if contains_path(self@, path@.drop_last().push(j)) {
                    let w = path_index(self@, path@.drop_last().push(j));
                    assert(self@[w].path == path@.drop_last().push(j));
                    assert(crate::index::is_child_of(self@[w], parent@)) by {
                        assert(path@.drop_last().push(j).subrange(0, parent@.len() as int)
                            =~= parent@);
                    }
                    assert(cd.contains(self@[w]));
                    let u = choose|u: int| 0 <= u < cd.len() && cd[u] == self@[w];
                    assert(cd[u].path.last() == j);
                    if u < t {
                        assert(cd[u].path.last() < cd[t as int].path.last());
                    }
                    if u == t {
                        assert(j == path@.last());
                    }
                    if u == t + 1 {
                        assert(j == sib@.last());
                    }
                    if u > t + 1 {
                        assert(cd[t + 1].path.last() < cd[u].path.last());
                    }
                }
            }
        }
        Some(sib)
    }
}


impl NodeIndex {
    /// Validates swapping `path` with its previous sibling.  Fails with
    /// `Conflict` when `path` is first among its siblings (or absent), or
    /// when the sentinel path is already occupied.  On success the plan
    /// gives the three renames through the sentinel, and the exchange pair.
    pub fn plan_swap_with_previous(&self, path: &TreePath) -> (r: Result<SwapPlan, StoreError>)
        requires
            self.wf(),
        ensures
            match r {
                Ok(plan) => {
                    &&& contains_path(self@, path@)
                    &&& path@.len() > 0
                    &&& path@.last() != 0
                    &&& !contains_path(self@, seq![u32::MAX])
                    &&& contains_path(self@, plan.sibling@)
                    &&& plan.sibling@ == path@.drop_last().push(plan.sibling@.last())
                    &&& plan.sibling@.last() < path@.last()
                    &&& forall|j: u32|
                        plan.sibling@.last() < j < path@.last() ==> !contains_path(
                            self@,
                            path@.drop_last().push(j),
                        )
                    &&& mapping_views(plan.renames@) == seq![
                        (plan.sibling@, seq![u32::MAX]),
                        (path@, plan.sibling@),
                        (seq![u32::MAX], path@),
                    ]
                    &&& plan.message@ == "Swapped nodes up: "@ + display_of(path@) + " and "@
                        + display_of(plan.sibling@)
                },
                Err(e) => {
                    &&& e == StoreError::Conflict
                    &&& ((path@.len() > 0 && path@.last() == 0) || contains_path(
                        self@,
                        seq![u32::MAX],
                    ) || path@.len() == 0 || !contains_path(self@, path@) || (forall|j: u32|
                        j < path@.last() ==> !contains_path(self@, path@.drop_last().push(j))))
                },
            },
    {
        let mut zero = TreePath::new();
        zero.push(0);
        proof {
            assert(zero@ =~= seq![0u32]);
        }
        if path.ends_with(&zero) {
            proof {
                assert(path@.subrange(path@.len() - 1, path@.len() as int)[0] == 0u32);
                assert(path@.last() == 0);
            }
            return Err(StoreError::Conflict);
        }
        let temp = TreePath::temp_path();
        if self.get_node(&temp).is_some() {
            return Err(StoreError::Conflict);
        }
        match self.find_previous_sibling(path) {
            None => Err(StoreError::Conflict),
            Some(sib) => {
                proof {
                    if path@.last() == 0 {
                        assert(path@.subrange(path@.len() - 1, path@.len() as int) =~= seq![
                            0u32,
                        ]);
                    }
                }
                let mut renames: Vec<(TreePath, TreePath)> = Vec::new();
                renames.push((sib.duplicate(), TreePath::temp_path()));
                renames.push((path.duplicate(), sib.duplicate()));
                renames.push((TreePath::temp_path(), path.duplicate()));
                proof {
                    assert(mapping_views(renames@) =~= seq![
                        (sib@, seq![u32::MAX]),
                        (path@, sib@),
                        (seq![u32::MAX], path@),
                    ]);
                }
                let sp = path.display();
                let ss = sib.display();
                let message = concat5("Swapped nodes up: ", sp.as_str(), " and ", ss.as_str(), "");
                proof {
                    reveal_strlit("");
                    assert(""@ =~= Seq::<char>::empty());
                    assert("Swapped nodes up: "@ + sp@ + " and "@ + ss@ + ""@
                        =~= "Swapped nodes up: "@ + sp@ + " and "@ + ss@);
                }
                Ok(SwapPlan { renames, sibling: sib, message })
            },
        }
    }

    /// Validates swapping `path` with its next sibling, as
    /// `plan_swap_with_previous` does in the other direction.
    pub fn plan_swap_with_next(&self, path: &TreePath) -> (r: Result<SwapPlan, StoreError>)
        requires
            self.wf(),
        ensures
            match r {
                Ok(plan) => {
                    &&& contains_path(self@, path@)
                    &&& path@.len() > 0
                    &&& !contains_path(self@, seq![u32::MAX])
                    &&& contains_path(self@, plan.sibling@)
                    &&& plan.sibling@ == path@.drop_last().push(plan.sibling@.last())
                    &&& plan.sibling@.last() > path@.last()
                    &&& forall|j: u32|
                        path@.last() < j < plan.sibling@.last() ==> !contains_path(
                            self@,
                            path@.drop_last().push(j),
                        )
                    &&& mapping_views(plan.renames@) == seq![
                        (plan.sibling@, seq![u32::MAX]),
                        (path@, plan.sibling@),
                        (seq![u32::MAX], path@),
                    ]
                    &&& plan.message@ == "Swapped nodes down: "@ + display_of(path@) + " and "@
                        + display_of(plan.sibling@)
                },
                Err(e) => {
                    &&& e == StoreError::Conflict
                    &&& (contains_path(self@, seq![u32::MAX]) || path@.len() == 0
                        || !contains_path(self@, path@) || (forall|j: u32|
                        j > path@.last() ==> !contains_path(self@, path@.drop_last().push(j))))
                },
            },
    {
        let temp = TreePath::temp_path();
        if self.get_node(&temp).is_some() {
            return Err(StoreError::Conflict);
        }
        match self.find_next_sibling(path) {
            None => Err(StoreError::Conflict),
            Some(sib) => {
                let mut renames: Vec<(TreePath, TreePath)> = Vec::new();
                renames.push((sib.duplicate(), TreePath::temp_path()));
                renames.push((path.duplicate(), sib.duplicate()));
                renames.push((TreePath::temp_path(), path.duplicate()));
                proof {
                    assert(mapping_views(renames@) =~= seq![
                        (sib@, seq![u32::MAX]),
                        (path@, sib@),
                        (seq![u32::MAX], path@),
                    ]);
                }
                let sp = path.display();
                let ss = sib.display();
                let message = concat5(
                    "Swapped nodes down: ",
                    sp.as_str(),
                    " and ",
                    ss.as_str(),
                    "",
                );
                proof {
                    reveal_strlit("");
                    assert(""@ =~= Seq::<char>::empty());
                    assert("Swapped nodes down: "@ + sp@ + " and "@ + ss@ + ""@
                        =~= "Swapped nodes down: "@ + sp@ + " and "@ + ss@);
                }
                Ok(SwapPlan { renames, sibling: sib, message })
            },
        }
    }
}

impl NodeIndex {
    /// Whether the node at `path` is a transient placeholder that can go:
    /// it holds exactly the internal placeholder marker, and — as the
    /// surrounding application reports — no other file or directory remains
    /// under its directory.  Yields the path to remove.
    pub fn plan_remove_placeholder(&self, path: &TreePath, dir_has_other_entries: bool) -> (r:
        Option<TreePath>)
        requires
            self.wf(),
        ensures
            match r {
                Some(p) => {
                    &&& p@ == path@
                    &&& contains_path(self@, path@)
                    &&& node_at(self@, path@).raw == "(placeholder)"@
                    &&& !dir_has_other_entries
                },
                None => !contains_path(self@, path@) || node_at(self@, path@).raw
                    != "(placeholder)"@ || dir_has_other_entries,
            },
    {
        if dir_has_other_entries {
            return None;
        }
        match self.get_node(path) {
            None => None,
            Some(n) => {
                let rc = crate::chars::str_to_chars(n.raw.as_str());
                let marker = crate::chars::str_to_chars("(placeholder)");
                if crate::chars::chars_eq(&rc, &marker) {
                    Some(path.duplicate())
                } else {
                    None
                }
            },
        }
    }
}

/// A node view keeps its identity when re-addressed to its own path.
proof fn lemma_with_path_self(nv: NodeView)
    ensures
        nv.with_path(nv.path) == nv,
{
}

/// What the singleton rename list does to a path: replaces the `from`
/// prefix, or leaves the path alone.
proof fn lemma_single_rewrite(from: Seq<u32>, to: Seq<u32>, q: Seq<u32>)
    ensures
        is_prefix_of(from, q) ==> remap_rewrite(seq![(from, to)], q) == to + q.skip(
            from.len() as int,
        ),
        !is_prefix_of(from, q) ==> remap_rewrite(seq![(from, to)], q) == q,
{
    let mv = seq![(from, to)];
    assert(mv[0] == (from, to));
    if is_prefix_of(from, q) {
        assert(first_match(mv, q) == 0);
    } else {
        assert(mv.drop_first() =~= Seq::<(Seq<u32>, Seq<u32>)>::empty());
        assert(first_match(Seq::<(Seq<u32>, Seq<u32>)>::empty(), q) == -1);
        assert(first_match(mv, q) == -1);
    }
}

/// Move safety, the success half: after a successful move between two
/// unrelated paths, every node that sat under `from` now sits at the same
/// position under `to`, no node remains under `from`, and every other node
/// is untouched.  (That a move plan fails with `AlreadyExists` exactly when
/// a node occupies the target is an ensures of `plan_move`.)
pub proof fn lemma_move_safety(
    old: Seq<NodeView>,
    new: Seq<NodeView>,
    from: Seq<u32>,
    to: Seq<u32>,
)
    requires
        rekeyed(old, new, seq![(from, to)]),
        !is_prefix_of(from, to),
        !is_prefix_of(to, from),
    ensures
        forall|q: Seq<u32>|
            #[trigger] contains_path(old, q) && is_prefix_of(from, q) ==> contains_path(
                new,
                to + q.skip(from.len() as int),
            ) && node_at(new, to + q.skip(from.len() as int)) == node_at(old, q).with_path(
                to + q.skip(from.len() as int),
            ),
        forall|q: Seq<u32>| #[trigger] contains_path(new, q) ==> !is_prefix_of(from, q),
        forall|q: Seq<u32>|
            #[trigger] contains_path(old, q) && !is_prefix_of(from, q) ==> contains_path(new, q)
                && node_at(new, q) == node_at(old, q),
{
    let mv = seq![(from, to)];
    assert forall|q: Seq<u32>|
        #[trigger] contains_path(old, q) && is_prefix_of(from, q) implies contains_path(
        new,
        to + q.skip(from.len() as int),
    ) && node_at(new, to + q.skip(from.len() as int)) == node_at(old, q).with_path(
        to + q.skip(from.len() as int),
    ) by {
        lemma_single_rewrite(from, to, q);
    }
    assert forall|q: Seq<u32>| #[trigger] contains_path(new, q) implies !is_prefix_of(
        from,
        q,
    ) by {
        let q0 = choose|q0: Seq<u32>|
            #[trigger] contains_path(old, q0) && q == remap_rewrite(mv, q0);
        lemma_single_rewrite(from, to, q0);
        if is_prefix_of(from, q0) {
            let s = q0.skip(from.len() as int);
            assert(q == to + s);
            if is_prefix_of(from, q) {
                if from.len() <= to.len() {
                    assert(is_prefix_of(from, to)) by {
                        assert forall|z: int| 0 <= z < from.len() implies to.subrange(
                            0,
                            from.len() as int,
                        )[z] == from[z] by {
                            assert(q.subrange(0, from.len() as int)[z] == from[z]);
                            assert(q[z] == (to + s)[z]);
                        }
                        assert(to.subrange(0, from.len() as int) =~= from);
                    }
                } else {
                    assert(is_prefix_of(to, from)) by {
                        assert forall|z: int| 0 <= z < to.len() implies from.subrange(
                            0,
                            to.len() as int,
                        )[z] == to[z] by {
                            assert(q.subrange(0, from.len() as int)[z] == from[z]);
                            assert(q[z] == (to + s)[z]);
                        }
                        assert(from.subrange(0, to.len() as int) =~= to);
                    }
                }
            }
        }
    }
    assert forall|q: Seq<u32>|
        #[trigger] contains_path(old, q) && !is_prefix_of(from, q) implies contains_path(new, q)
        && node_at(new, q) == node_at(old, q) by {
        lemma_single_rewrite(from, to, q);
        let j = crate::index::path_index(old, q);
        assert(old[j].path == q);
        assert(node_at(old, q).path == q);
        lemma_with_path_self(node_at(old, q));
    }
}


/// Two unrelated paths cannot both cover `q`.
proof fn lemma_prefix_exclusive(a: Seq<u32>, b: Seq<u32>, q: Seq<u32>)
    requires
        !is_prefix_of(a, b),
        !is_prefix_of(b, a),
    ensures
        !(is_prefix_of(a, q) && is_prefix_of(b, q)),
{
    if is_prefix_of(a, q) && is_prefix_of(b, q) {
        if a.len() <= b.len() {
            assert(is_prefix_of(a, b)) by {
                assert forall|z: int| 0 <= z < a.len() implies b.subrange(
                    0,
                    a.len() as int,
                )[z] == a[z] by {
                    assert(q.subrange(0, a.len() as int)[z] == a[z]);
                    assert(q.subrange(0, b.len() as int)[z] == b[z]);
                }
                assert(b.subrange(0, a.len() as int) =~= a);
            }
        } else {
            assert(is_prefix_of(b, a)) by {
                assert forall|z: int| 0 <= z < b.len() implies a.subrange(
                    0,
                    b.len() as int,
                )[z] == b[z] by {
                    assert(q.subrange(0, a.len() as int)[z] == a[z]);
                    assert(q.subrange(0, b.len() as int)[z] == b[z]);
                }
                assert(a.subrange(0, b.len() as int) =~= b);
            }
        }
    }
}

/// What the exchange rename list does to a path: the `a` prefix becomes
/// `b`, the `b` prefix becomes `a`, anything else stays — whichever order
/// the two pairs are listed in.
proof fn lemma_swap_rewrite(a: Seq<u32>, b: Seq<u32>, q: Seq<u32>)
    requires
        !is_prefix_of(a, b),
        !is_prefix_of(b, a),
    ensures
        remap_rewrite(seq![(a, b), (b, a)], q) == (if is_prefix_of(a, q) {
            b + q.skip(a.len() as int)
        } else if is_prefix_of(b, q) {
            a + q.skip(b.len() as int)
        } else {
            q
        }),
        remap_rewrite(seq![(b, a), (a, b)], q) == (if is_prefix_of(a, q) {
            b + q.skip(a.len() as int)
        } else if is_prefix_of(b, q) {
            a + q.skip(b.len() as int)
        } else {
            q
        }),
{
    lemma_prefix_exclusive(a, b, q);
    let mv1 = seq![(a, b), (b, a)];
    let mv2 = seq![(b, a), (a, b)];
    assert(mv1[0] == (a, b) && mv1[1] == (b, a));
    assert(mv2[0] == (b, a) && mv2[1] == (a, b));
    assert(mv1.drop_first() =~= seq![(b, a)]);
    assert(mv2.drop_first() =~= seq![(a, b)]);
    assert(seq![(b, a)][0] == (b, a));
    assert(seq![(a, b)][0] == (a, b));
    assert(seq![(b, a)].drop_first() =~= Seq::<(Seq<u32>, Seq<u32>)>::empty());
    assert(seq![(a, b)].drop_first() =~= Seq::<(Seq<u32>, Seq<u32>)>::empty());
    assert(first_match(Seq::<(Seq<u32>, Seq<u32>)>::empty(), q) == -1);
    if is_prefix_of(a, q) {
        assert(first_match(mv1, q) == 0);
        assert(first_match(seq![(a, b)], q) == 0);
        assert(first_match(mv2, q) == 1);
    } else if is_prefix_of(b, q) {
        assert(first_match(seq![(b, a)], q) == 0);
        assert(first_match(mv1, q) == 1);
        assert(first_match(mv2, q) == 0);
    } else {
        assert(first_match(seq![(b, a)], q) == -1);
        assert(first_match(seq![(a, b)], q) == -1);
        assert(first_match(mv1, q) == -1);
        assert(first_match(mv2, q) == -1);
    }
}

/// Exchanging the same two subtrees twice brings every path back.
proof fn lemma_swap_involution(a: Seq<u32>, b: Seq<u32>, q: Seq<u32>)
    requires
        !is_prefix_of(a, b),
        !is_prefix_of(b, a),
    ensures
        remap_rewrite(seq![(b, a), (a, b)], remap_rewrite(seq![(a, b), (b, a)], q)) == q,
{
    lemma_swap_rewrite(a, b, q);
    let m = remap_rewrite(seq![(a, b), (b, a)], q);
    lemma_swap_rewrite(a, b, m);
    if is_prefix_of(a, q) {
        let s = q.skip(a.len() as int);
        assert(m == b + s);
        assert(is_prefix_of(b, m)) by {
            assert(m.subrange(0, b.len() as int) =~= b);
        }
        lemma_prefix_exclusive(a, b, m);
        assert(!is_prefix_of(a, m));
        assert(m.skip(b.len() as int) =~= s);
        assert(a + s =~= q) by {
            assert(q.subrange(0, a.len() as int) == a);
        }
    } else if is_prefix_of(b, q) {
        let s = q.skip(b.len() as int);
        assert(m == a + s);
        assert(is_prefix_of(a, m)) by {
            assert(m.subrange(0, a.len() as int) =~= a);
        }
        assert(m.skip(a.len() as int) =~= s);
        assert(b + s =~= q) by {
            assert(q.subrange(0, b.len() as int) == b);
        }
    } else {
        assert(m == q);
    }
}

/// Swap idempotence of intent: swapping a node with a sibling and then
/// swapping the pair back restores the index contents exactly — every path
/// holds the node it held before, and no other paths exist.
pub proof fn lemma_swap_round_trip(
    s0: Seq<NodeView>,
    s1: Seq<NodeView>,
    s2: Seq<NodeView>,
    a: Seq<u32>,
    b: Seq<u32>,
)
    requires
        !is_prefix_of(a, b),
        !is_prefix_of(b, a),
        rekeyed(s0, s1, seq![(a, b), (b, a)]),
        rekeyed(s1, s2, seq![(b, a), (a, b)]),
    ensures
        forall|q: Seq<u32>|
            #[trigger] contains_path(s2, q) <==> #[trigger] contains_path(s0, q),
        forall|q: Seq<u32>|
            #[trigger] contains_path(s0, q) ==> node_at(s2, q) == node_at(s0, q),
{
    let mv1 = seq![(a, b), (b, a)];
    let mv2 = seq![(b, a), (a, b)];
    assert forall|q: Seq<u32>| #[trigger] contains_path(s0, q) implies contains_path(s2, q)
        && node_at(s2, q) == node_at(s0, q) by {
        let m = remap_rewrite(mv1, q);
        assert(contains_path(s1, m));
        assert(node_at(s1, m) == node_at(s0, q).with_path(m));
        assert(contains_path(s2, remap_rewrite(mv2, m)));
        lemma_swap_involution(a, b, q);
        assert(remap_rewrite(mv2, m) == q);
        assert(node_at(s2, q) == node_at(s1, m).with_path(q));
        assert(node_at(s0, q).path == q) by {
            let i = crate::index::path_index(s0, q);
            assert(s0[i].path == q);
        }
        lemma_with_path_self(node_at(s0, q));
        assert(node_at(s0, q).with_path(m).with_path(q) == node_at(s0, q));
    }
    assert forall|q: Seq<u32>| #[trigger] contains_path(s2, q) implies contains_path(
        s0,
        q,
    ) by {
        let q1 = choose|q1: Seq<u32>|
            #[trigger] contains_path(s1, q1) && q == remap_rewrite(mv2, q1);
        let q0 = choose|q0: Seq<u32>|
            #[trigger] contains_path(s0, q0) && q1 == remap_rewrite(mv1, q0);
        lemma_swap_involution(a, b, q0);
        assert(q == q0);
    }
}


/// The description of a children reorder: stage every child into the
/// per-parent scratch area, then move each into its new slot; the `mapping`
/// is the net old-to-new assignment for the in-memory index.
#[derive(Debug)]
pub struct SortPlan {
    pub staging: TreePath,
    pub stage: Vec<(TreePath, TreePath)>,
    pub unstage: Vec<(TreePath, TreePath)>,
    pub mapping: Vec<(TreePath, TreePath)>,
    pub message: String,
}

impl NodeIndex {
    /// Computes the reorder of `parent`'s children into the natural order of
    /// their titles: the mapping pairs each child, in sorted position `i`,
    /// with the slot `parent` extended by `i`.
    #[verifier::rlimit(60)]
    pub fn plan_sort_children(&self, parent: &TreePath) -> (r: SortPlan)
        requires
            self.wf(),
            self@.len() <= u32::MAX,
        ensures
            ({
                let mv = mapping_views(r.mapping@);
                let cd = self@.filter(
                    |n: NodeView| crate::index::is_child_of(n, parent@),
                );
                &&& r.staging@ == parent@.push(u32::MAX)
                &&& mv.len() == cd.len()
                &&& forall|i: int|
                    0 <= i < mv.len() ==> (#[trigger] mv[i]).1 == parent@.push(i as u32)
                &&& forall|i: int|
                    0 <= i < mv.len() ==> contains_path(self@, (#[trigger] mv[i]).0)
                        && crate::index::is_child_of(node_at(self@, mv[i].0), parent@)
                &&& forall|i: int, j: int|
                    0 <= i < mv.len() && 0 <= j < mv.len() && i != j ==> (#[trigger] mv[i]).0
                        != (#[trigger] mv[j]).0
                &&& forall|i1: int, i2: int|
                    #![trigger mv[i1], mv[i2]]
                    0 <= i1 < mv.len() && i2 == i1 + 1 && i2 < mv.len()
                        ==> crate::natural::nat_rank(
                        node_at(self@, mv[i1].0).title,
                        node_at(self@, mv[i2].0).title,
                    ) != crate::order::Rank::Greater
                &&& mapping_views(r.stage@).len() == mv.len()
                &&& mapping_views(r.unstage@).len() == mv.len()
                &&& forall|i: int|
                    0 <= i < mv.len() ==> (#[trigger] mapping_views(r.stage@)[i]) == (
                        mv[i].0,
                        parent@.push(u32::MAX).push(mv[i].0.last()),
                    )
                &&& forall|i: int|
                    0 <= i < mv.len() ==> (#[trigger] mapping_views(r.unstage@)[i]) == (
                        parent@.push(u32::MAX).push(mv[i].0.last()),
                        mv[i].1,
                    )
                &&& r.message@ == "Sorted children of "@ + display_of(parent@)
            }),
    {
        let children = self.children_for(parent);
        let ghost cd = children.deep_view();
        let ghost pred = |n: NodeView| crate::index::is_child_of(n, parent@);
        let mut items: Vec<(Vec<char>, TreePath)> = Vec::new();
        let mut t: usize = 0;
        while t < children.len()
            invariant
                t <= cd.len(),
                cd == children.deep_view(),
                items@.len() == t,
                forall|u: int|
                    0 <= u < t ==> #[trigger] crate::natural::pair_views(items@)[u] == (
                        cd[u].title,
                        cd[u].path,
                    ),
            decreases cd.len() - t,
        {
            let title = crate::chars::str_to_chars(children[t].header.title.as_str());
            let p = children[t].path.duplicate();
            proof {
                assert(cd[t as int] =~= children@[t as int]@);
            }
            let ghost items0 = items@;
            let ghost tv = title@;
            let ghost pv = p@;
            items.push((title, p));
            proof {
                assert forall|u: int|
                    0 <= u < t + 1 implies #[trigger] crate::natural::pair_views(items@)[u] == (
                    cd[u].title,
                    cd[u].path,
                ) by {
                    assert(crate::natural::pair_views(items@)[u] == (items@[u].0@, items@[u].1@));
                    if u < t {
                        assert(items@[u] == items0[u]);
                        assert(crate::natural::pair_views(items0)[u] == (
                            items0[u].0@,
                            items0[u].1@,
                        ));
                    } else {
                        assert(items@[u].0@ == tv && items@[u].1@ == pv);
                    }
                }
            }
            t = t + 1;
        }
        let ghost ivs = crate::natural::pair_views(items@);
        let sorted = crate::natural::sort_by_title(items);
        let ghost svs = crate::natural::pair_views(sorted@);
        let ghost perm = choose|perm: Seq<int>| crate::natural::valid_perm(perm, svs, ivs);
        proof {
            assert(sorted_by_path(cd));
            crate::index::lemma_sorted_unique(cd);
        }
        let staging = parent.append(u32::MAX);
        let mut mapping: Vec<(TreePath, TreePath)> = Vec::new();
        let mut stage: Vec<(TreePath, TreePath)> = Vec::new();
        let mut unstage: Vec<(TreePath, TreePath)> = Vec::new();
        let mut i: usize = 0;
        while i < sorted.len()
            invariant
                i <= sorted@.len(),
                self.wf(),
                self@.len() <= u32::MAX,
                svs == crate::natural::pair_views(sorted@),
                crate::natural::valid_perm(perm, svs, ivs),
                cd == self@.filter(|n: NodeView| crate::index::is_child_of(n, parent@)),
                ivs.len() == cd.len(),
                forall|u: int| 0 <= u < ivs.len() ==> #[trigger] ivs[u] == (cd[u].title, cd[u].path),
                forall|u: int|
                    0 <= u < cd.len() ==> contains_path(self@, (#[trigger] cd[u]).path)
                        && node_at(self@, cd[u].path) == cd[u] && crate::index::is_child_of(
                        cd[u],
                        parent@,
                    ),
                forall|a: int, b: int|
                    0 <= a < cd.len() && 0 <= b < cd.len() && a != b ==> (#[trigger] cd[a]).path
                        != (#[trigger] cd[b]).path,
                forall|t1: int, t2: int|
                    #![trigger svs[t1], svs[t2]]
                    0 <= t1 < svs.len() && t2 == t1 + 1 && t2 < svs.len()
                        ==> crate::natural::nat_rank(svs[t1].0, svs[t2].0)
                        != crate::order::Rank::Greater,
                staging@ == parent@.push(u32::MAX),
                mapping@.len() == i && stage@.len() == i && unstage@.len() == i,
                forall|u: int|
                    0 <= u < i ==> (#[trigger] mapping_views(mapping@)[u]) == (
                        svs[u].1,
                        parent@.push(u as u32),
                    ),
                forall|u: int|
                    0 <= u < i ==> (#[trigger] mapping_views(stage@)[u]) == (
                        svs[u].1,
                        parent@.push(u32::MAX).push(svs[u].1.last()),
                    ),
                forall|u: int|
                    0 <= u < i ==> (#[trigger] mapping_views(unstage@)[u]) == (
                        parent@.push(u32::MAX).push(svs[u].1.last()),
                        parent@.push(u as u32),
                    ),
            decreases sorted@.len() - i,
        {
            let old_path = sorted[i].1.duplicate();
            proof {
                assert(svs[i as int] == (sorted@[i as int].0@, sorted@[i as int].1@));
                assert(svs[i as int] == ivs[perm[i as int]]);
                assert(old_path@ == cd[perm[i as int]].path);
                assert(cd[perm[i as int]].path.len() > 0);
            }
            let new_path = parent.append(i as u32);
            let temp_slot = staging.append(crate::index::path_last(&old_path));
            let ghost m0 = mapping@;
            let ghost st0 = stage@;
            let ghost un0 = unstage@;
            let ghost opv = old_path@;
            let ghost npv = new_path@;
            let ghost tsv = temp_slot@;
            mapping.push((old_path.duplicate(), new_path.duplicate()));
            stage.push((old_path.duplicate(), temp_slot.duplicate()));
            unstage.push((temp_slot, new_path));
            proof {
                assert forall|u: int|
                    0 <= u < i + 1 implies (#[trigger] mapping_views(mapping@)[u]) == (
                    svs[u].1,
                    parent@.push(u as u32),
                ) by {
                    assert(mapping_views(mapping@)[u] == (mapping@[u].0@, mapping@[u].1@));
                    if u < i {
                        assert(mapping@[u] == m0[u]);
                        assert(mapping_views(m0)[u] == (m0[u].0@, m0[u].1@));
                    } else {
                        assert(mapping@[u].0@ == opv && mapping@[u].1@ == npv);
                    }
                }
                assert forall|u: int|
                    0 <= u < i + 1 implies (#[trigger] mapping_views(stage@)[u]) == (
                    svs[u].1,
                    parent@.push(u32::MAX).push(svs[u].1.last()),
                ) by {
                    assert(mapping_views(stage@)[u] == (stage@[u].0@, stage@[u].1@));
                    if u < i {
                        assert(stage@[u] == st0[u]);
                        assert(mapping_views(st0)[u] == (st0[u].0@, st0[u].1@));
                    } else {
                        assert(stage@[u].0@ == opv && stage@[u].1@ == tsv);
                        assert(tsv == parent@.push(u32::MAX).push(opv.last()));
                    }
                }
                assert forall|u: int|
                    0 <= u < i + 1 implies (#[trigger] mapping_views(unstage@)[u]) == (
                    parent@.push(u32::MAX).push(svs[u].1.last()),
                    parent@.push(u as u32),
                ) by {
                    assert(mapping_views(unstage@)[u] == (unstage@[u].0@, unstage@[u].1@));
                    if u < i {
                        assert(unstage@[u] == un0[u]);
                        assert(mapping_views(un0)[u] == (un0[u].0@, un0[u].1@));
                    } else {
                        assert(unstage@[u].0@ == tsv && unstage@[u].1@ == npv);
                        assert(tsv == parent@.push(u32::MAX).push(opv.last()));
                    }
                }
            }
            i = i + 1;
        }
        let shown = parent.display();
        let message = concat3("Sorted children of ", shown.as_str(), "");
        proof {
            reveal_strlit("");
            assert(""@ =~= Seq::<char>::empty());
            assert("Sorted children of "@ + shown@ + ""@ =~= "Sorted children of "@ + shown@);
        }
        let r = SortPlan { staging, stage, unstage, mapping, message };
        proof {
            let mv = mapping_views(r.mapping@);
            assert forall|u: int|
                0 <= u < mv.len() implies contains_path(self@, (#[trigger] mv[u]).0)
                && crate::index::is_child_of(node_at(self@, mv[u].0), parent@) && node_at(
                self@,
                mv[u].0,
            ).title == svs[u].0 by {
                assert(mv[u].0 == svs[u].1);
                assert(svs[u] == ivs[perm[u]]);
                assert(mv[u].0 == cd[perm[u]].path);
                assert(node_at(self@, cd[perm[u]].path) == cd[perm[u]]);
            }
            assert forall|u: int, v: int|
                0 <= u < mv.len() && 0 <= v < mv.len() && u != v implies (#[trigger] mv[u]).0
                != (#[trigger] mv[v]).0 by {
                assert(mv[u].0 == cd[perm[u]].path);
                assert(mv[v].0 == cd[perm[v]].path);
                assert(perm[u] != perm[v]);
            }
            assert forall|i1: int, i2: int|
                #![trigger mv[i1], mv[i2]]
                0 <= i1 < mv.len() && i2 == i1 + 1 && i2 < mv.len()
                    implies crate::natural::nat_rank(
                node_at(self@, mv[i1].0).title,
                node_at(self@, mv[i2].0).title,
            ) != crate::order::Rank::Greater by {
                assert(node_at(self@, mv[i1].0).title == svs[i1].0);
                assert(node_at(self@, mv[i2].0).title == svs[i2].0);
            }
        }
        r
    }

    /// Computes the compaction of `parent`'s children onto the contiguous
    /// slots `0..N`, keeping their current relative order.
    pub fn plan_compact_children(&self, parent: &TreePath) -> (r: SortPlan)
        requires
            self.wf(),
            self@.len() <= u32::MAX,
        ensures
            ({
                let mv = mapping_views(r.mapping@);
                let cd = self@.filter(
                    |n: NodeView| crate::index::is_child_of(n, parent@),
                );
                &&& r.staging@ == parent@.push(u32::MAX)
                &&& mv.len() == cd.len()
                &&& forall|i: int|
                    0 <= i < mv.len() ==> (#[trigger] mv[i]) == (
                        cd[i].path,
                        parent@.push(i as u32),
                    )
                &&& forall|i: int|
                    0 <= i < mv.len() ==> (#[trigger] mapping_views(r.stage@)[i]) == (
                        cd[i].path,
                        parent@.push(u32::MAX).push(cd[i].path.last()),
                    )
                &&& forall|i: int|
                    0 <= i < mv.len() ==> (#[trigger] mapping_views(r.unstage@)[i]) == (
                        parent@.push(u32::MAX).push(cd[i].path.last()),
                        parent@.push(i as u32),
                    )
                &&& r.message@ == Seq::<char>::empty()
            }),
    {
        let children = self.children_for(parent);
        let ghost cd = children.deep_view();
        let staging = parent.append(u32::MAX);
        let mut mapping: Vec<(TreePath, TreePath)> = Vec::new();
        let mut stage: Vec<(TreePath, TreePath)> = Vec::new();
        let mut unstage: Vec<(TreePath, TreePath)> = Vec::new();
        let mut i: usize = 0;
        proof {
            crate::chars::lemma_dec_round_trip(0);
            Seq::lemma_filter_len(self@, |n: NodeView| crate::index::is_child_of(n, parent@));
        }
        while i < children.len()
            invariant
                i <= cd.len(),
                cd == children.deep_view(),
                cd.len() <= self@.len() <= u32::MAX,
                staging@ == parent@.push(u32::MAX),
                forall|u: int|
                    0 <= u < cd.len() ==> crate::index::is_child_of(#[trigger] cd[u], parent@),
                mapping@.len() == i && stage@.len() == i && unstage@.len() == i,
                forall|u: int|
                    0 <= u < i ==> (#[trigger] mapping_views(mapping@)[u]) == (
                        cd[u].path,
                        parent@.push(u as u32),
                    ),
                forall|u: int|
                    0 <= u < i ==> (#[trigger] mapping_views(stage@)[u]) == (
                        cd[u].path,
                        parent@.push(u32::MAX).push(cd[u].path.last()),
                    ),
                forall|u: int|
                    0 <= u < i ==> (#[trigger] mapping_views(unstage@)[u]) == (
                        parent@.push(u32::MAX).push(cd[u].path.last()),
                        parent@.push(u as u32),
                    ),
            decreases cd.len() - i,
        {
            let old_path = children[i].path.duplicate();
            proof {
                assert(cd[i as int] =~= children@[i as int]@);
                assert(old_path@ == cd[i as int].path);
                assert(cd[i as int].path.len() > 0);
            }
            let new_path = parent.append(i as u32);
            let temp_slot = staging.append(crate::index::path_last(&old_path));
            let ghost m0 = mapping@;
            let ghost st0 = stage@;
            let ghost un0 = unstage@;
            let ghost opv = old_path@;
            let ghost npv = new_path@;
            let ghost tsv = temp_slot@;
            mapping.push((old_path.duplicate(), new_path.duplicate()));
            stage.push((old_path.duplicate(), temp_slot.duplicate()));
            unstage.push((temp_slot, new_path));
            proof {
                assert forall|u: int|
                    0 <= u < i + 1 implies (#[trigger] mapping_views(mapping@)[u]) == (
                    cd[u].path,
                    parent@.push(u as u32),
                ) by {
                    assert(mapping_views(mapping@)[u] == (mapping@[u].0@, mapping@[u].1@));
                    if u < i {
                        assert(mapping@[u] == m0[u]);
                        assert(mapping_views(m0)[u] == (m0[u].0@, m0[u].1@));
                    } else {
                        assert(mapping@[u].0@ == opv && mapping@[u].1@ == npv);
                    }
                }
                assert forall|u: int|
                    0 <= u < i + 1 implies (#[trigger] mapping_views(stage@)[u]) == (
                    cd[u].path,
                    parent@.push(u32::MAX).push(cd[u].path.last()),
                ) by {
                    assert(mapping_views(stage@)[u] == (stage@[u].0@, stage@[u].1@));
                    if u < i {
                        assert(stage@[u] == st0[u]);
                        assert(mapping_views(st0)[u] == (st0[u].0@, st0[u].1@));
                    } else {
                        assert(stage@[u].0@ == opv && stage@[u].1@ == tsv);
                        assert(tsv == parent@.push(u32::MAX).push(opv.last()));
                    }
                }
                assert forall|u: int|
                    0 <= u < i + 1 implies (#[trigger] mapping_views(unstage@)[u]) == (
                    parent@.push(u32::MAX).push(cd[u].path.last()),
                    parent@.push(u as u32),
                ) by {
                    assert(mapping_views(unstage@)[u] == (unstage@[u].0@, unstage@[u].1@));
                    if u < i {
                        assert(unstage@[u] == un0[u]);
                        assert(mapping_views(un0)[u] == (un0[u].0@, un0[u].1@));
                    } else {
                        assert(unstage@[u].0@ == tsv && unstage@[u].1@ == npv);
                        assert(tsv == parent@.push(u32::MAX).push(opv.last()));
                    }
                }
            }
            i = i + 1;
        }
        SortPlan { staging, stage, unstage, mapping, message: String::new() }
    }
}

} // verus!
