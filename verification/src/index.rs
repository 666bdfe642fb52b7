//! The in-memory node index: a path-sorted collection of all nodes, with the
//! lookups and children/ancestor queries, rebuilt from the directory tree by
//! `load` and kept sorted by every mutation.

use vstd::prelude::*;

use crate::chars::{chars_to_string, dec_str, push_u32_decimal};
use crate::node::{first_para_of, has_more_of, title_of, Header, Node, NodeView};
use crate::order::Rank;
use crate::path::{is_prefix_of, parse_dir_path, path_lt, TreePath};

verus! {

/// The title that a synthesized ancestor carries.
pub open spec fn placeholder_title() -> Seq<char> {
    "(empty node)"@
}

/// The entry a placeholder ancestor contributes at path `p`: the fixed title,
/// no text.
pub open spec fn placeholder_view(p: Seq<u32>) -> NodeView {
    NodeView {
        path: p,
        title: placeholder_title(),
        first_paragraph: Seq::<char>::empty(),
        has_more_content: false,
        raw: Seq::<char>::empty(),
    }
}

/// The sequence is strictly ordered by path.
pub open spec fn sorted_by_path(s: Seq<NodeView>) -> bool {
    forall|i: int, j: int|
        0 <= i < j < s.len() ==> path_lt(#[trigger] s[i].path, #[trigger] s[j].path)
}

/// Some node in `s` sits at path `p`.
pub open spec fn contains_path(s: Seq<NodeView>, p: Seq<u32>) -> bool {
    exists|i: int| 0 <= i < s.len() && #[trigger] s[i].path == p
}

/// The index of the node at path `p`.
pub open spec fn path_index(s: Seq<NodeView>, p: Seq<u32>) -> int {
    choose|i: int| 0 <= i < s.len() && #[trigger] s[i].path == p
}

/// The node at path `p`.
pub open spec fn node_at(s: Seq<NodeView>, p: Seq<u32>) -> NodeView {
    s[path_index(s, p)]
}

/// In a path-sorted sequence no two entries share a path.
pub proof fn lemma_sorted_unique(s: Seq<NodeView>)
    requires
        sorted_by_path(s),
    ensures
        forall|i: int, j: int|
            0 <= i < s.len() && 0 <= j < s.len() && i != j ==> (#[trigger] s[i].path) != (
            #[trigger] s[j].path),
{
    assert forall|i: int, j: int|
        0 <= i < s.len() && 0 <= j < s.len() && i != j implies (#[trigger] s[i].path) != (
    #[trigger] s[j].path) by {
        if i < j {
            crate::path::lemma_path_lt_trichotomy(s[i].path, s[j].path);
        } else {
            crate::path::lemma_path_lt_trichotomy(s[j].path, s[i].path);
        }
    }
}

/// Whatever index holds path `p` in a sorted sequence, it is `path_index`.
pub proof fn lemma_node_at(s: Seq<NodeView>, p: Seq<u32>, i: int)
    requires
        sorted_by_path(s),
        0 <= i < s.len(),
        s[i].path == p,
    ensures
        path_index(s, p) == i,
        node_at(s, p) == s[i],
        contains_path(s, p),
{
    lemma_sorted_unique(s);
    assert(contains_path(s, p));
    let j = path_index(s, p);
    assert(0 <= j < s.len() && s[j].path == p);
    if i != j {
        assert(s[i].path != s[j].path);
    }
}

/// For every node at a non-root path, a node (real or placeholder) sits at
/// the parent path.
pub open spec fn ancestor_closed(s: Seq<NodeView>) -> bool {
    forall|i: int|
        0 <= i < s.len() && (#[trigger] s[i].path).len() > 0 ==> contains_path(
            s,
            s[i].path.drop_last(),
        )
}

/// One file found on disk: its directory path relative to the data root, and
/// its content.
#[derive(Debug)]
pub struct LoadEntry {
    pub dir: String,
    pub raw: String,
}

/// The mathematical content of a load entry.
pub struct LoadEntryView {
    pub dir: Seq<char>,
    pub raw: Seq<char>,
}

impl View for LoadEntry {
    type V = LoadEntryView;

    open spec fn view(&self) -> LoadEntryView {
        LoadEntryView { dir: self.dir@, raw: self.raw@ }
    }
}

/// The tree path that entry `e` addresses, if its directory parses.
pub open spec fn entry_path(e: LoadEntryView) -> Option<Seq<u32>> {
    parse_dir_path(e.dir)
}

/// Some entry of `es` addresses path `p`.
pub open spec fn loaded_contains(es: Seq<LoadEntryView>, p: Seq<u32>) -> bool {
    exists|i: int| 0 <= i < es.len() && #[trigger] entry_path(es[i]) == Some(p)
}

/// The position of the first entry addressing `p`.
pub open spec fn first_with(es: Seq<LoadEntryView>, p: Seq<u32>) -> int
    decreases es.len(),
{
    if es.len() == 0 {
        0
    } else if entry_path(es[0]) == Some(p) {
        0
    } else {
        1 + first_with(es.drop_first(), p)
    }
}

/// `first_with` is the least position addressing `p`.
pub proof fn lemma_first_with(es: Seq<LoadEntryView>, p: Seq<u32>, i: int)
    requires
        0 <= i < es.len(),
        entry_path(es[i]) == Some(p),
        forall|j: int| 0 <= j < i ==> #[trigger] entry_path(es[j]) != Some(p),
    ensures
        first_with(es, p) == i,
    decreases es.len(),
{
    if entry_path(es[0]) == Some(p) {
    } else {
        assert forall|j: int| 0 <= j < i - 1 implies #[trigger] entry_path(
            es.drop_first()[j],
        ) != Some(p) by {
            assert(es.drop_first()[j] == es[j + 1]);
        }
        assert(es.drop_first()[i - 1] == es[i as int]);
        lemma_first_with(es.drop_first(), p, i - 1);
    }
}

/// The in-memory, path-sorted collection of all nodes.
#[derive(Debug)]
pub struct NodeIndex {
    nodes: Vec<Node>,
}

impl View for NodeIndex {
    type V = Seq<NodeView>;

    closed spec fn view(&self) -> Seq<NodeView> {
        Seq::new(self.nodes@.len(), |i: int| self.nodes@[i]@)
    }
}

impl NodeIndex {
    /// The index invariant: nodes strictly sorted by path, hence one node
    /// per path.
    pub open spec fn wf(self) -> bool {
        sorted_by_path(self@)
    }

    /// An empty index.
    pub fn empty() -> (r: NodeIndex)
        ensures
            r@ == Seq::<NodeView>::empty(),
            r.wf(),
    {
        let r = NodeIndex { nodes: Vec::new() };
        proof {
            assert(r@ =~= Seq::<NodeView>::empty());
        }
        r
    }

    /// Number of nodes.
    pub fn len(&self) -> (r: usize)
        ensures
            r == self@.len(),
    {
        self.nodes.len()
    }

    /// The node at position `i` in path order.
    pub fn at(&self, i: usize) -> (r: &Node)
        requires
            i < self@.len(),
        ensures
            r@ == self@[i as int],
    {
        &self.nodes[i]
    }

    /// The node at `path`, if one exists.
    pub fn get_node(&self, path: &TreePath) -> (r: Option<&Node>)
        requires
            self.wf(),
        ensures
            match r {
                Some(n) => contains_path(self@, path@) && n@ == node_at(self@, path@),
                None => !contains_path(self@, path@),
            },
    {
        let mut i: usize = 0;
        while i < self.nodes.len()
            invariant
                i <= self@.len(),
                self.wf(),
                self@.len() == self.nodes@.len(),
                forall|j: int| 0 <= j < i ==> (#[trigger] self@[j].path) != path@,
            decreases self@.len() - i,
        {
            proof {
                assert(self@[i as int] == self.nodes@[i as int]@);
            }
            if self.nodes[i].path.eq(path) {
                proof {
                    lemma_node_at(self@, path@, i as int);
                }
                return Some(&self.nodes[i]);
            }
            i = i + 1;
        }
        proof {
            if contains_path(self@, path@) {
                let j = path_index(self@, path@);
                assert(self@[j].path == path@);
            }
        }
        None
    }

    /// Inserts `node`, replacing any node already at its path; the index
    /// stays sorted and otherwise unchanged.
    pub(crate) fn insert_node(&mut self, node: Node)
        requires
            old(self).wf(),
        ensures
            final(self).wf(),
            contains_path(final(self)@, node@.path),
            node_at(final(self)@, node@.path) == node@,
            final(self)@.len() == old(self)@.len() + (if contains_path(old(self)@, node@.path) {
                0int
            } else {
                1int
            }),
            forall|q: Seq<u32>|
                q != node@.path ==> (contains_path(final(self)@, q) <==> contains_path(
                    old(self)@,
                    q,
                )),
            forall|q: Seq<u32>|
                q != node@.path && contains_path(old(self)@, q) ==> node_at(final(self)@, q)
                    == node_at(old(self)@, q),
    {
        proof {
            lemma_sorted_unique(self@);
        }
        let ghost s0 = self@;
        let mut pos: usize = 0;
        while pos < self.nodes.len() && matches!(self.nodes[pos].path.compare(&node.path), Rank::Less)
            invariant
                pos <= self@.len(),
                self@ == s0,
                self.wf(),
                self@.len() == self.nodes@.len(),
                forall|j: int| 0 <= j < pos ==> path_lt(#[trigger] self@[j].path, node@.path),
            decreases self@.len() - pos,
        {
            proof {
                assert(self@[pos as int] == self.nodes@[pos as int]@);
            }
            pos = pos + 1;
        }
        proof {
            assert(pos < self.nodes@.len() ==> self@[pos as int] == self.nodes@[pos as int]@);
        }
        if pos < self.nodes.len() && matches!(self.nodes[pos].path.compare(&node.path), Rank::Equal)
        {
            // replace in place
            let ghost nv = node@;
            self.nodes[pos] = node;
            proof {
                let s1 = self@;
                assert(s1 =~= s0.update(pos as int, nv));
                assert(s1[pos as int].path == nv.path);
                assert(contains_path(s0, nv.path)) by {
                    assert(s0[pos as int].path == nv.path);
                }
                assert forall|i: int, j: int| 0 <= i < j < s1.len() implies path_lt(
                    #[trigger] s1[i].path,
                    #[trigger] s1[j].path,
                ) by {
                    if i != pos && j != pos {
                        assert(s1[i] == s0[i] && s1[j] == s0[j]);
                    } else if i == pos {
                        assert(s0[pos as int].path == nv.path);
                        assert(s1[j] == s0[j]);
                    } else {
                        assert(s0[pos as int].path == nv.path);
                        assert(s1[i] == s0[i]);
                    }
                }
                lemma_node_at(s1, nv.path, pos as int);
                assert forall|q: Seq<u32>| q != nv.path implies (contains_path(s1, q)
                    <==> contains_path(s0, q)) by {
                    if contains_path(s1, q) {
                        let w = path_index(s1, q);
                        assert(s1[w].path == q);
                        assert(w != pos);
                        assert(s0[w].path == q);
                    }
                    if contains_path(s0, q) {
                        let w = choose|w: int| 0 <= w < s0.len() && #[trigger] s0[w].path == q;
                        assert(s0[pos as int].path == nv.path);
                        assert(w != pos);
                        assert(s1[w].path == q);
                    }
                }
                assert forall|q: Seq<u32>|
                    q != nv.path && contains_path(s0, q) implies node_at(s1, q) == node_at(
                    s0,
                    q,
                ) by {
                    let w = choose|w: int| 0 <= w < s0.len() && #[trigger] s0[w].path == q;
                    assert(w != pos);
                    assert(s1[w].path == q);
                    lemma_node_at(s1, q, w);
                    lemma_node_at(s0, q, w);
                }
            }
        } else {
            let ghost nv = node@;
            proof {
                if pos < self.nodes@.len() {
                    crate::path::lemma_path_lt_trichotomy(s0[pos as int].path, nv.path);
                }
            }
            self.nodes.insert(pos, node);
            proof {
                let s1 = self@;
                assert(s1 =~= s0.insert(pos as int, nv));
                assert(s1[pos as int] == nv);
                assert(!contains_path(s0, nv.path)) by {
                    if contains_path(s0, nv.path) {
                        let w = choose|w: int|
                            0 <= w < s0.len() && #[trigger] s0[w].path == nv.path;
                        if w < pos {
                            crate::path::lemma_path_lt_trichotomy(s0[w].path, nv.path);
                        } else if w == pos {
                            crate::path::lemma_path_lt_trichotomy(nv.path, s0[pos as int].path);
                        } else {
                            crate::path::lemma_path_lt_trans(
                                nv.path,
                                s0[pos as int].path,
                                s0[w].path,
                            );
                            crate::path::lemma_path_lt_trichotomy(nv.path, s0[w].path);
                        }
                    }
                }
                assert(forall|i: int| 0 <= i < pos ==> s1[i] == s0[i]);
                assert(forall|i: int| pos < i < s1.len() ==> s1[i] == s0[i - 1]);
                assert forall|i: int, j: int| 0 <= i < j < s1.len() implies path_lt(
                    #[trigger] s1[i].path,
                    #[trigger] s1[j].path,
                ) by {
                    if i < pos && j < pos {
                    } else if i < pos && j == pos {
                        assert(path_lt(s0[i].path, nv.path));
                    } else if i < pos && j > pos {
                        assert(s1[j] == s0[j - 1]);
                    } else if i == pos && j > pos {
                        assert(s1[j] == s0[j - 1]);
                        if pos < s0.len() {
                            if j - 1 == pos {
                                assert(path_lt(nv.path, s0[pos as int].path));
                            } else {
                                assert(path_lt(nv.path, s0[pos as int].path));
                                assert(path_lt(s0[pos as int].path, s0[j - 1].path));
                                crate::path::lemma_path_lt_trans(
                                    nv.path,
                                    s0[pos as int].path,
                                    s0[j - 1].path,
                                );
                            }
                        }
                    } else {
                        assert(s1[i] == s0[i - 1] && s1[j] == s0[j - 1]);
                    }
                }
                lemma_node_at(s1, nv.path, pos as int);
                assert forall|q: Seq<u32>| q != nv.path implies (contains_path(s1, q)
                    <==> contains_path(s0, q)) by {
                    if contains_path(s1, q) {
                        let w = path_index(s1, q);
                        assert(s1[w].path == q);
                        assert(w != pos);
                        if w < pos {
                            assert(s0[w].path == q);
                        } else {
                            assert(s0[w - 1].path == q);
                        }
                    }
                    if contains_path(s0, q) {
                        let w = choose|w: int| 0 <= w < s0.len() && #[trigger] s0[w].path == q;
                        if w < pos {
                            assert(s1[w].path == q);
                        } else {
                            assert(s1[w + 1].path == q);
                        }
                    }
                }
                assert forall|q: Seq<u32>|
                    q != nv.path && contains_path(s0, q) implies node_at(s1, q) == node_at(
                    s0,
                    q,
                ) by {
                    let w = choose|w: int| 0 <= w < s0.len() && #[trigger] s0[w].path == q;
                    lemma_node_at(s0, q, w);
                    if w < pos {
                        assert(s1[w].path == q);
                        lemma_node_at(s1, q, w);
                    } else {
                        assert(s1[w + 1].path == q);
                        lemma_node_at(s1, q, w + 1);
                    }
                }
            }
        }
    }
}

impl DeepView for LoadEntry {
    type V = LoadEntryView;

    open spec fn deep_view(&self) -> LoadEntryView {
        self@
    }
}

/// `p` is a strict ancestor of some loaded path.
pub open spec fn missing_ancestor_of(es: Seq<LoadEntryView>, p: Seq<u32>) -> bool {
    exists|q: Seq<u32>|
        #[trigger] loaded_contains(es, q) && is_prefix_of(p, q) && p.len() < q.len()
}

/// Appending one entry adds exactly its path to the loaded set.
proof fn lemma_loaded_push(es: Seq<LoadEntryView>, i: int)
    requires
        0 <= i < es.len(),
    ensures
        forall|p: Seq<u32>|
            #[trigger] loaded_contains(es.take(i + 1), p) <==> (loaded_contains(es.take(i), p)
                || entry_path(es[i]) == Some(p)),
{
    assert forall|p: Seq<u32>|
        #[trigger] loaded_contains(es.take(i + 1), p) <==> (loaded_contains(es.take(i), p)
            || entry_path(es[i]) == Some(p)) by {
        if loaded_contains(es.take(i + 1), p) {
            let j = choose|j: int|
                0 <= j < es.take(i + 1).len() && #[trigger] entry_path(es.take(i + 1)[j])
                    == Some(p);
            assert(es.take(i + 1)[j] == es[j]);
            if j < i {
                assert(es.take(i)[j] == es[j]);
                assert(loaded_contains(es.take(i), p));
            } else {
                assert(entry_path(es[i]) == Some(p));
            }
        }
        if loaded_contains(es.take(i), p) {
            let j = choose|j: int|
                0 <= j < es.take(i).len() && #[trigger] entry_path(es.take(i)[j]) == Some(p);
            assert(es.take(i + 1)[j] == es[j]);
            assert(entry_path(es.take(i + 1)[j]) == Some(p));
        }
        if entry_path(es[i]) == Some(p) {
            assert(es.take(i + 1)[i] == es[i]);
            assert(entry_path(es.take(i + 1)[i]) == Some(p));
        }
    }
}

/// A placeholder node for a missing ancestor at `p`.
fn make_placeholder(p: TreePath) -> (r: Node)
    ensures
        r@ == placeholder_view(p@),
{
    Node {
        path: p,
        header: Header {
            title: String::from_str("(empty node)"),
            first_paragraph: String::new(),
            has_more_content: false,
        },
        raw: String::new(),
    }
}

/// Whether some node of `v` sits at path `p`.
fn vec_has_path(v: &Vec<Node>, p: &TreePath) -> (r: bool)
    ensures
        r == contains_path(v.deep_view(), p@),
{
    let mut i: usize = 0;
    while i < v.len()
        invariant
            i <= v@.len(),
            forall|j: int| 0 <= j < i ==> (#[trigger] v.deep_view()[j]).path != p@,
        decreases v@.len() - i,
    {
        if v[i].path.eq(p) {
            proof {
                assert(v.deep_view()[i as int].path == p@);
            }
            return true;
        }
        proof {
            assert(v.deep_view()[i as int].path == v@[i as int].path@);
        }
        i = i + 1;
    }
    proof {
        if contains_path(v.deep_view(), p@) {
            let w = choose|w: int|
                0 <= w < v.deep_view().len() && #[trigger] v.deep_view()[w].path == p@;
            assert(v.deep_view()[w].path != p@);
        }
    }
    false
}

impl NodeIndex {
    /// Builds the index from the files found on disk: parses each entry's
    /// directory path, keeps the first entry per path, synthesizes a
    /// placeholder ancestor wherever a node lacks one, and sorts by path.
    /// Entries whose directory does not parse, or whose path repeats an
    /// earlier entry's, are skipped and their directories reported.
    pub fn load(entries: &Vec<LoadEntry>) -> (r: (NodeIndex, Vec<String>))
        ensures
            r.0.wf(),
            ancestor_closed(r.0@),
            forall|p: Seq<u32>|
                contains_path(r.0@, p) <==> (#[trigger] loaded_contains(entries.deep_view(), p)
                    || missing_ancestor_of(entries.deep_view(), p)),
            forall|p: Seq<u32>|
                #[trigger] loaded_contains(entries.deep_view(), p) ==> {
                    let nv = node_at(r.0@, p);
                    &&& nv.path == p
                    &&& nv.raw == entries.deep_view()[first_with(entries.deep_view(), p)].raw
                    &&& nv.wf()
                },
            forall|p: Seq<u32>|
                contains_path(r.0@, p) && !(#[trigger] loaded_contains(entries.deep_view(), p))
                    ==> node_at(r.0@, p) == placeholder_view(p),
            forall|k: int|
                0 <= k < r.1@.len() ==> exists|j: int|
                    0 <= j < entries.deep_view().len() && (#[trigger] r.1@[k])@
                        == entries.deep_view()[j].dir,
    {
        let ghost ev = entries.deep_view();
        let mut acc: Vec<Node> = Vec::new();
        let mut skipped: Vec<String> = Vec::new();
        let mut i: usize = 0;
        proof {
            assert(ev.take(0) =~= Seq::<LoadEntryView>::empty());
        }
        while i < entries.len()
            invariant
                i <= ev.len(),
                ev == entries.deep_view(),
                forall|p: Seq<u32>|
                    #[trigger] contains_path(acc.deep_view(), p) <==> loaded_contains(
                        ev.take(i as int),
                        p,
                    ),
                forall|t: int|
                    0 <= t < acc.deep_view().len() ==> {
                        let nv = #[trigger] acc.deep_view()[t];
                        &&& loaded_contains(ev.take(i as int), nv.path)
                        &&& nv.raw == ev[first_with(ev, nv.path)].raw
                        &&& nv.wf()
                    },
                forall|t: int, u: int|
                    0 <= t < acc.deep_view().len() && 0 <= u < acc.deep_view().len() && t != u
                        ==> (#[trigger] acc.deep_view()[t]).path != (
                    #[trigger] acc.deep_view()[u]).path,
                forall|k: int|
                    0 <= k < skipped@.len() ==> exists|j: int|
                        0 <= j < ev.len() && (#[trigger] skipped@[k])@ == ev[j].dir,
            decreases ev.len() - i,
        {
            let ghost old_acc = acc.deep_view();
            proof {
                assert(entries@[i as int]@ == ev[i as int]);
                lemma_loaded_push(ev, i as int);
            }
            match TreePath::from_file_path(entries[i].dir.as_str()) {
                Err(_) => {
                    skipped.push(entries[i].dir.clone());
                    proof {
                        assert(skipped@.last()@ == ev[i as int].dir);
                        assert(entry_path(ev[i as int]) is None);
                        assert forall|p: Seq<u32>|
                            #[trigger] contains_path(acc.deep_view(), p) <==> loaded_contains(
                                ev.take(i + 1 as int),
                                p,
                            ) by {}
                    }
                },
                Ok(p) => {
                    proof {
                        assert(entry_path(ev[i as int]) == Some(p@));
                    }
                    if vec_has_path(&acc, &p) {
                        skipped.push(entries[i].dir.clone());
                        proof {
                            assert(skipped@.last()@ == ev[i as int].dir);
                        }
                    } else {
                        let node = Node::new(&p, entries[i].raw.as_str());
                        proof {
                            // `i` is the first entry addressing `p`
                            assert forall|j: int| 0 <= j < i implies #[trigger] entry_path(
                                ev[j],
                            ) != Some(p@) by {
                                if entry_path(ev[j]) == Some(p@) {
                                    assert(ev.take(i as int)[j] == ev[j]);
                                    assert(loaded_contains(ev.take(i as int), p@));
                                }
                            }
                            lemma_first_with(ev, p@, i as int);
                        }
                        acc.push(node);
                        proof {
                            assert(acc.deep_view() =~= old_acc.push(node@));
                            assert forall|p2: Seq<u32>|
                                #[trigger] contains_path(acc.deep_view(), p2) <==> loaded_contains(
                                    ev.take(i + 1 as int),
                                    p2,
                                ) by {
                                if contains_path(acc.deep_view(), p2) {
                                    let w = choose|w: int|
                                        0 <= w < acc.deep_view().len()
                                            && #[trigger] acc.deep_view()[w].path == p2;
                                    if w < old_acc.len() {
                                        assert(acc.deep_view()[w] == old_acc[w]);
                                        assert(contains_path(old_acc, p2)) by {
                                            assert(old_acc[w].path == p2);
                                        }
                                        assert(loaded_contains(ev.take(i as int), p2));
                                        assert(loaded_contains(ev.take(i + 1 as int), p2));
                                    } else {
                                        assert(acc.deep_view()[w] == node@);
                                        assert(p2 == p@);
                                        assert(loaded_contains(ev.take(i + 1 as int), p2));
                                    }
                                }
                                if loaded_contains(ev.take(i + 1 as int), p2) {
                                    if loaded_contains(ev.take(i as int), p2) {
                                        assert(contains_path(old_acc, p2));
                                        let w = choose|w: int|
                                            0 <= w < old_acc.len() && #[trigger] old_acc[w].path
                                                == p2;
                                        assert(acc.deep_view()[w] == old_acc[w]);
                                        assert(contains_path(acc.deep_view(), p2)) by {
                                            assert(acc.deep_view()[w].path == p2);
                                        }
                                    } else {
                                        assert(entry_path(ev[i as int]) == Some(p2));
                                        assert(p2 == p@);
                                        assert(acc.deep_view()[old_acc.len() as int] == node@);
                                        assert(contains_path(acc.deep_view(), p2)) by {
                                            assert(acc.deep_view()[old_acc.len() as int].path
                                                == p2);
                                        }
                                    }
                                }
                            }
                            assert forall|t: int, u: int|
                                0 <= t < acc.deep_view().len() && 0 <= u < acc.deep_view().len()
                                    && t != u implies (#[trigger] acc.deep_view()[t]).path != (
                            #[trigger] acc.deep_view()[u]).path by {
                                if t < old_acc.len() && u == old_acc.len() {
                                    if old_acc[t].path == p@ {
                                        assert(contains_path(old_acc, p@));
                                    }
                                } else if u < old_acc.len() && t == old_acc.len() {
                                    if old_acc[u].path == p@ {
                                        assert(contains_path(old_acc, p@));
                                    }
                                }
                            }
                        }
                    }
                },
            }
            i = i + 1;
        }
        proof {
            assert(ev.take(ev.len() as int) =~= ev);
        }
        let ghost accd = acc.deep_view();
        // synthesize the missing ancestors
        let mut extras: Vec<Node> = Vec::new();
        let mut a: usize = 0;
        while a < acc.len()
            invariant
                a <= accd.len(),
                accd == acc.deep_view(),
                forall|t: int|
                    0 <= t < extras.deep_view().len() ==> {
                        let x = #[trigger] extras.deep_view()[t];
                        &&& x == placeholder_view(x.path)
                        &&& !contains_path(accd, x.path)
                        &&& exists|a2: int|
                            0 <= a2 < accd.len() && is_prefix_of(
                                x.path,
                                (#[trigger] accd[a2]).path,
                            ) && x.path.len() < accd[a2].path.len()
                    },
                forall|t: int, u: int|
                    0 <= t < extras.deep_view().len() && 0 <= u < extras.deep_view().len() && t
                        != u ==> (#[trigger] extras.deep_view()[t]).path != (
                    #[trigger] extras.deep_view()[u]).path,
                forall|a2: int, k: int|
                    #![trigger accd[a2].path.take(k)]
                    0 <= a2 < a && 0 <= k < accd[a2].path.len() ==> covered(
                        accd,
                        extras.deep_view(),
                        accd[a2].path.take(k),
                    ),
            decreases accd.len() - a,
        {
            let mut prefix = TreePath::new();
            let mut k: usize = 0;
            let plen: usize = acc[a].path.len();
            proof {
                assert(acc.deep_view()[a as int] == acc@[a as int]@);
                assert(prefix@ =~= accd[a as int].path.take(0));
            }
            while k < plen
                invariant
                    k <= plen,
                    a < accd.len(),
                    accd == acc.deep_view(),
                    plen == accd[a as int].path.len(),
                    prefix@ == accd[a as int].path.take(k as int),
                    forall|t: int|
                        0 <= t < extras.deep_view().len() ==> {
                            let x = #[trigger] extras.deep_view()[t];
                            &&& x == placeholder_view(x.path)
                            &&& !contains_path(accd, x.path)
                            &&& exists|a2: int|
                                0 <= a2 < accd.len() && is_prefix_of(
                                    x.path,
                                    (#[trigger] accd[a2]).path,
                                ) && x.path.len() < accd[a2].path.len()
                        },
                    forall|t: int, u: int|
                        0 <= t < extras.deep_view().len() && 0 <= u < extras.deep_view().len()
                            && t != u ==> (#[trigger] extras.deep_view()[t]).path != (
                        #[trigger] extras.deep_view()[u]).path,
                    forall|a2: int, k2: int|
                        #![trigger accd[a2].path.take(k2)]
                        0 <= a2 < a && 0 <= k2 < accd[a2].path.len() ==> covered(
                            accd,
                            extras.deep_view(),
                            accd[a2].path.take(k2),
                        ),
                    forall|k2: int|
                        0 <= k2 < k ==> covered(
                            accd,
                            extras.deep_view(),
                            accd[a as int].path.take(k2),
                        ),
                decreases plen - k,
            {
                let ghost old_ex = extras.deep_view();
                let in_acc = vec_has_path(&acc, &prefix);
                let in_extras = vec_has_path(&extras, &prefix);
                if !in_acc && !in_extras {
                    let ph = make_placeholder(prefix.duplicate());
                    extras.push(ph);
                    proof {
                        assert(extras.deep_view() =~= old_ex.push(placeholder_view(prefix@)));
                        assert(extras.deep_view().last().path == prefix@);
                        assert(is_prefix_of(prefix@, accd[a as int].path)) by {
                            assert(accd[a as int].path.take(k as int).len() == k);
                            assert(accd[a as int].path.subrange(0, k as int) =~= accd[
                                a as int].path.take(k as int));
                        }
                        assert(covered(accd, extras.deep_view(), prefix@)) by {
                            assert(contains_path(extras.deep_view(), prefix@)) by {
                                assert(extras.deep_view()[old_ex.len() as int].path == prefix@);
                            }
                        }
                        assert forall|t: int, u: int|
                            0 <= t < extras.deep_view().len() && 0 <= u
                                < extras.deep_view().len() && t != u implies (
                        #[trigger] extras.deep_view()[t]).path != (
                        #[trigger] extras.deep_view()[u]).path by {
                            if t < old_ex.len() && u == old_ex.len() {
                                if old_ex[t].path == prefix@ {
                                    assert(contains_path(old_ex, prefix@)) by {
                                        assert(old_ex[t].path == prefix@);
                                    }
                                }
                            } else if u < old_ex.len() && t == old_ex.len() {
                                if old_ex[u].path == prefix@ {
                                    assert(contains_path(old_ex, prefix@)) by {
                                        assert(old_ex[u].path == prefix@);
                                    }
                                }
                            }
                        }
                    }
                } else {
                    proof {
                        assert(covered(accd, extras.deep_view(), prefix@));
                    }
                }
                let c: u32 = component_at(&acc[a].path, k);
                prefix.push(c);
                proof {
                    assert(prefix@ =~= accd[a as int].path.take(k + 1 as int));
                    assert(forall|t: int|
                        0 <= t < old_ex.len() ==> extras.deep_view()[t] == old_ex[t]);
                    assert forall|k2: int|
                        0 <= k2 < k + 1 implies covered(
                        accd,
                        extras.deep_view(),
                        accd[a as int].path.take(k2),
                    ) by {
                        if k2 < k {
                            assert(covered(accd, old_ex, accd[a as int].path.take(k2)));
                            lemma_covered_grows(accd, old_ex, extras.deep_view(), accd[
                                a as int].path.take(k2));
                        }
                    }
                    assert forall|a2: int, k2: int|
                        #![trigger accd[a2].path.take(k2)]
                        0 <= a2 < a && 0 <= k2 < accd[a2].path.len() implies covered(
                        accd,
                        extras.deep_view(),
                        accd[a2].path.take(k2),
                    ) by {
                        assert(covered(accd, old_ex, accd[a2].path.take(k2)));
                        lemma_covered_grows(accd, old_ex, extras.deep_view(), accd[a2].path.take(
                            k2,
                        ));
                    }
                }
                k = k + 1;
            }
            proof {
                assert forall|a2: int, k2: int|
                    #![trigger accd[a2].path.take(k2)]
                    0 <= a2 < a + 1 && 0 <= k2 < accd[a2].path.len() implies covered(
                    accd,
                    extras.deep_view(),
                    accd[a2].path.take(k2),
                ) by {
                    if a2 == a as int {
                        assert(covered(accd, extras.deep_view(), accd[a as int].path.take(k2)));
                    } else {
                        assert(covered(accd, extras.deep_view(), accd[a2].path.take(k2)));
                    }
                }
            }
            a = a + 1;
        }
        // combine and sort
        let ghost exd = extras.deep_view();
        let mut index = NodeIndex::empty();
        let mut t: usize = 0;
        while t < acc.len()
            invariant
                t <= accd.len(),
                accd == acc.deep_view(),
                index.wf(),
                forall|p: Seq<u32>|
                    #[trigger] contains_path(index@, p) <==> exists|w: int|
                        0 <= w < t && (#[trigger] accd[w]).path == p,
                forall|w: int|
                    0 <= w < t ==> node_at(index@, (#[trigger] accd[w]).path) == accd[w],
                forall|t2: int, u: int|
                    0 <= t2 < accd.len() && 0 <= u < accd.len() && t2 != u ==> (
                    #[trigger] accd[t2]).path != (#[trigger] accd[u]).path,
            decreases accd.len() - t,
        {
            let ghost pre = index@;
            index.insert_node(acc[t].duplicate());
            proof {
                assert(acc@[t as int]@ == accd[t as int]);
                assert forall|p: Seq<u32>|
                    #[trigger] contains_path(index@, p) <==> exists|w: int|
                        0 <= w < t + 1 && (#[trigger] accd[w]).path == p by {
                    if contains_path(index@, p) {
                        if p == accd[t as int].path {
                            assert(accd[t as int].path == p);
                        } else {
                            assert(contains_path(pre, p));
                        }
                    }
                }
                assert forall|w: int|
                    0 <= w < t + 1 implies node_at(index@, (#[trigger] accd[w]).path) == accd[
                    w] by {
                    if w < t {
                        assert(accd[w].path != accd[t as int].path);
                    }
                }
            }
            t = t + 1;
        }
        let mut u: usize = 0;
        while u < extras.len()
            invariant
                u <= exd.len(),
                exd == extras.deep_view(),
                index.wf(),
                forall|p: Seq<u32>|
                    #[trigger] contains_path(index@, p) <==> (exists|w: int|
                        0 <= w < accd.len() && (#[trigger] accd[w]).path == p) || (exists|w: int|
                        0 <= w < u && (#[trigger] exd[w]).path == p),
                forall|w: int|
                    0 <= w < accd.len() ==> node_at(index@, (#[trigger] accd[w]).path) == accd[w],
                forall|w: int| 0 <= w < u ==> node_at(index@, (#[trigger] exd[w]).path) == exd[w],
                forall|t2: int, u2: int|
                    0 <= t2 < exd.len() && 0 <= u2 < exd.len() && t2 != u2 ==> (
                    #[trigger] exd[t2]).path != (#[trigger] exd[u2]).path,
                forall|t2: int|
                    0 <= t2 < exd.len() ==> !contains_path(accd, (#[trigger] exd[t2]).path),
            decreases exd.len() - u,
        {
            let ghost pre = index@;
            index.insert_node(extras[u].duplicate());
            proof {
                assert(extras@[u as int]@ == exd[u as int]);
                assert forall|p: Seq<u32>|
                    #[trigger] contains_path(index@, p) <==> ((exists|w: int|
                        0 <= w < accd.len() && (#[trigger] accd[w]).path == p) || (exists|w: int|
                        0 <= w < u + 1 && (#[trigger] exd[w]).path == p)) by {
                    if contains_path(index@, p) {
                        if p == exd[u as int].path {
                        } else {
                            assert(contains_path(pre, p));
                        }
                    }
                }
                assert forall|w: int|
                    0 <= w < accd.len() implies node_at(index@, (#[trigger] accd[w]).path)
                        == accd[w] by {
                    if accd[w].path == exd[u as int].path {
                        assert(contains_path(accd, exd[u as int].path)) by {
                            assert(accd[w].path == exd[u as int].path);
                        }
                    }
                    assert(accd[w].path != exd[u as int].path);
                }
                assert forall|w: int|
                    0 <= w < u + 1 implies node_at(index@, (#[trigger] exd[w]).path) == exd[
                    w] by {
                    if w < u {
                        assert(exd[w].path != exd[u as int].path);
                    }
                }
            }
            u = u + 1;
        }
        // the final shape
        proof {
            let fin = index@;
            assert forall|p: Seq<u32>|
                contains_path(fin, p) <==> (#[trigger] loaded_contains(ev, p)
                    || missing_ancestor_of(ev, p)) by {
                if contains_path(fin, p) {
                    if exists|w: int| 0 <= w < accd.len() && (#[trigger] accd[w]).path == p {
                        let w = choose|w: int|
                            0 <= w < accd.len() && (#[trigger] accd[w]).path == p;
                        assert(contains_path(accd, p)) by {
                            assert(accd[w].path == p);
                        }
                        assert(loaded_contains(ev, p));
                    } else {
                        let w = choose|w: int|
                            0 <= w < exd.len() && (#[trigger] exd[w]).path == p;
                        let a2 = choose|a2: int|
                            0 <= a2 < accd.len() && is_prefix_of(
                                exd[w].path,
                                (#[trigger] accd[a2]).path,
                            ) && exd[w].path.len() < accd[a2].path.len();
                        assert(contains_path(accd, accd[a2].path)) by {
                            assert(accd[a2].path == accd[a2].path);
                        }
                        assert(loaded_contains(ev, accd[a2].path));
                        assert(missing_ancestor_of(ev, p));
                    }
                }
                if loaded_contains(ev, p) {
                    assert(contains_path(accd, p));
                    let w = choose|w: int| 0 <= w < accd.len() && #[trigger] accd[w].path == p;
                    assert(contains_path(fin, p));
                }
                if missing_ancestor_of(ev, p) && !loaded_contains(ev, p) {
                    let q = choose|q: Seq<u32>|
                        #[trigger] loaded_contains(ev, q) && is_prefix_of(p, q) && p.len()
                            < q.len();
                    assert(contains_path(accd, q));
                    let w = choose|w: int| 0 <= w < accd.len() && #[trigger] accd[w].path == q;
                    assert(covered(accd, exd, accd[w].path.take(p.len() as int)));
                    assert(accd[w].path.take(p.len() as int) =~= p) by {
                        assert(q.subrange(0, p.len() as int) == p);
                    }
                    if contains_path(accd, p) {
                        assert(loaded_contains(ev, p));
                    }
                    assert(contains_path(exd, p));
                    let w2 = choose|w2: int| 0 <= w2 < exd.len() && #[trigger] exd[w2].path == p;
                    assert(contains_path(fin, p));
                }
            }
            assert forall|p: Seq<u32>| #[trigger] loaded_contains(ev, p) implies {
                let nv = node_at(fin, p);
                &&& nv.path == p
                &&& nv.raw == ev[first_with(ev, p)].raw
                &&& nv.wf()
            } by {
                assert(contains_path(accd, p));
                let w = choose|w: int| 0 <= w < accd.len() && #[trigger] accd[w].path == p;
                assert(node_at(fin, accd[w].path) == accd[w]);
            }
            assert forall|p: Seq<u32>|
                contains_path(fin, p) && !(#[trigger] loaded_contains(ev, p)) implies node_at(
                fin,
                p,
            ) == placeholder_view(p) by {
                if contains_path(accd, p) {
                    assert(loaded_contains(ev, p));
                }
                let w2 = choose|w2: int| 0 <= w2 < exd.len() && #[trigger] exd[w2].path == p;
                assert(node_at(fin, exd[w2].path) == exd[w2]);
                assert(exd[w2] == placeholder_view(p));
            }
            // ancestor closure
            assert forall|i2: int|
                0 <= i2 < fin.len() && (#[trigger] fin[i2].path).len() > 0 implies contains_path(
                fin,
                fin[i2].path.drop_last(),
            ) by {
                let p = fin[i2].path;
                lemma_node_at(fin, p, i2);
                assert(contains_path(fin, p));
                let parent = p.drop_last();
                if loaded_contains(ev, p) {
                    assert(contains_path(accd, p));
                    let w = choose|w: int| 0 <= w < accd.len() && #[trigger] accd[w].path == p;
                    assert(covered(accd, exd, accd[w].path.take(p.len() - 1)));
                    assert(accd[w].path.take(p.len() - 1) =~= parent);
                    lemma_covered_contains(accd, exd, parent, fin);
                } else {
                    let q = choose|q: Seq<u32>|
                        #[trigger] loaded_contains(ev, q) && is_prefix_of(p, q) && p.len()
                            < q.len();
                    assert(contains_path(accd, q));
                    let w = choose|w: int| 0 <= w < accd.len() && #[trigger] accd[w].path == q;
                    assert(covered(accd, exd, accd[w].path.take(p.len() - 1)));
                    assert(accd[w].path.take(p.len() - 1) =~= parent) by {
                        assert(q.subrange(0, p.len() as int) == p);
                        assert forall|z: int| 0 <= z < p.len() - 1 implies q[z] == p[z] by {
                            assert(q.subrange(0, p.len() as int)[z] == q[z]);
                        }
                    }
                    lemma_covered_contains(accd, exd, parent, fin);
                }
            }
        }
        (index, skipped)
    }

    /// Rebuilds this index from scratch out of `entries`, atomically
    /// replacing its contents, and reports the skipped directories.
    pub fn reload(&mut self, entries: &Vec<LoadEntry>) -> (skipped: Vec<String>)
        ensures
            final(self).wf(),
            ancestor_closed(final(self)@),
            forall|p: Seq<u32>|
                contains_path(final(self)@, p) <==> (#[trigger] loaded_contains(
                    entries.deep_view(),
                    p,
                ) || missing_ancestor_of(entries.deep_view(), p)),
            forall|p: Seq<u32>|
                #[trigger] loaded_contains(entries.deep_view(), p) ==> {
                    let nv = node_at(final(self)@, p);
                    &&& nv.path == p
                    &&& nv.raw == entries.deep_view()[first_with(entries.deep_view(), p)].raw
                    &&& nv.wf()
                },
            forall|p: Seq<u32>|
                contains_path(final(self)@, p) && !(#[trigger] loaded_contains(
                    entries.deep_view(),
                    p,
                )) ==> node_at(final(self)@, p) == placeholder_view(p),
    {
        let (index, skipped) = NodeIndex::load(entries);
        *self = index;
        skipped
    }
}

/// `q` has a node in one of the two collections.
pub open spec fn covered(accd: Seq<NodeView>, exd: Seq<NodeView>, q: Seq<u32>) -> bool {
    contains_path(accd, q) || contains_path(exd, q)
}

/// Covering carries over to any sequence holding both collections' paths.
proof fn lemma_covered_contains(
    accd: Seq<NodeView>,
    exd: Seq<NodeView>,
    q: Seq<u32>,
    fin: Seq<NodeView>,
)
    requires
        covered(accd, exd, q),
        forall|w: int| 0 <= w < accd.len() ==> contains_path(fin, (#[trigger] accd[w]).path),
        forall|w: int| 0 <= w < exd.len() ==> contains_path(fin, (#[trigger] exd[w]).path),
    ensures
        contains_path(fin, q),
{
    if contains_path(accd, q) {
        let w = choose|w: int| 0 <= w < accd.len() && #[trigger] accd[w].path == q;
        assert(contains_path(fin, accd[w].path));
    } else {
        let w = choose|w: int| 0 <= w < exd.len() && #[trigger] exd[w].path == q;
        assert(contains_path(fin, exd[w].path));
    }
}

/// Adding entries never uncovers a path.
proof fn lemma_covered_grows(
    accd: Seq<NodeView>,
    old_ex: Seq<NodeView>,
    new_ex: Seq<NodeView>,
    q: Seq<u32>,
)
    requires
        covered(accd, old_ex, q),
        forall|t: int| 0 <= t < old_ex.len() ==> new_ex[t] == old_ex[t],
        new_ex.len() >= old_ex.len(),
    ensures
        covered(accd, new_ex, q),
{
    if contains_path(old_ex, q) {
        let w = choose|w: int| 0 <= w < old_ex.len() && #[trigger] old_ex[w].path == q;
        assert(new_ex[w].path == q);
    }
}

/// The component at position `k`.
fn component_at(p: &TreePath, k: usize) -> (r: u32)
    requires
        k < p@.len(),
    ensures
        r == p@[k as int],
{
    let comps = p.iter();
    comps[k]
}

impl NodeIndex {
    /// The node at `path`, or the placeholder that stands for a missing
    /// node there: an entry titled `(empty node)` with no text.
    pub fn get_node_or_placeholder(&self, path: &TreePath) -> (r: Node)
        requires
            self.wf(),
        ensures
            contains_path(self@, path@) ==> r@ == node_at(self@, path@),
            !contains_path(self@, path@) ==> r@ == placeholder_view(path@),
    {
        match self.get_node(path) {
            Some(n) => n.duplicate(),
            None => make_placeholder(path.duplicate()),
        }
    }
}

/// `n` is a direct child of the path `p`.
pub open spec fn is_child_of(n: NodeView, p: Seq<u32>) -> bool {
    n.path.len() == p.len() + 1 && is_prefix_of(p, n.path)
}

impl NodeIndex {
    /// All direct children of `path`, in ascending order of their final
    /// component.
    pub fn children_for(&self, path: &TreePath) -> (r: Vec<Node>)
        requires
            self.wf(),
        ensures
            r.deep_view() == self@.filter(|n: NodeView| is_child_of(n, path@)),
            sorted_by_path(r.deep_view()),
            forall|t: int|
                0 <= t < r.deep_view().len() ==> {
                    let n = #[trigger] r.deep_view()[t];
                    &&& is_child_of(n, path@)
                    &&& contains_path(self@, n.path)
                    &&& node_at(self@, n.path) == n
                },
            forall|i: int|
                0 <= i < self@.len() && is_child_of(#[trigger] self@[i], path@)
                    ==> r.deep_view().contains(self@[i]),
    {
        let ghost pred = |n: NodeView| is_child_of(n, path@);
        let mut r: Vec<Node> = Vec::new();
        let mut i: usize = 0;
        proof {
            reveal(Seq::filter);
            assert(self@.take(0) =~= Seq::<NodeView>::empty());
            assert(r.deep_view() =~= self@.take(0).filter(pred));
        }
        while i < self.nodes.len()
            invariant
                i <= self@.len(),
                self.wf(),
                self@.len() == self.nodes@.len(),
                pred == (|n: NodeView| is_child_of(n, path@)),
                r.deep_view() == self@.take(i as int).filter(pred),
                forall|t: int|
                    0 <= t < r.deep_view().len() ==> exists|j: int|
                        0 <= j < i && #[trigger] r.deep_view()[t] == self@[j],
            decreases self@.len() - i,
        {
            let ghost prev = r.deep_view();
            let n = &self.nodes[i];
            proof {
                assert(self@[i as int] == self.nodes@[i as int]@);
            }
            let nl: usize = n.path.len();
            let is_child: bool = nl > 0 && nl - 1 == path.len() && n.path.starts_with(path);
            proof {
                assert(is_child == pred(self@[i as int]));
                assert(self@.take(i + 1 as int).drop_last() =~= self@.take(i as int));
                assert(self@.take(i + 1 as int).last() == self@[i as int]);
            }
            if is_child {
                r.push(n.duplicate());
                proof {
                    reveal(Seq::filter);
                    assert(r.deep_view() =~= prev.push(self@[i as int]));
                    assert(self@.take(i + 1 as int).filter(pred) == self@.take(
                        i as int,
                    ).filter(pred).push(self@[i as int]));
                    assert forall|t: int| 0 <= t < r.deep_view().len() implies exists|j: int|
                        0 <= j < i + 1 && #[trigger] r.deep_view()[t] == self@[j] by {
                        if t < prev.len() {
                            assert(r.deep_view()[t] == prev[t]);
                            let j = choose|j: int| 0 <= j < i && prev[t] == self@[j];
                            assert(r.deep_view()[t] == self@[j]);
                        } else {
                            assert(r.deep_view()[t] == self@[i as int]);
                        }
                    }
                }
            } else {
                proof {
                    reveal(Seq::filter);
                    assert(self@.take(i + 1 as int).filter(pred) == self@.take(i as int).filter(
                        pred,
                    ));
                }
            }
            i = i + 1;
        }
        proof {
            assert(self@.take(self@.len() as int) =~= self@);
            let rd = r.deep_view();
            lemma_sorted_unique(self@);
            assert forall|a: int, b: int| 0 <= a < b < rd.len() implies path_lt(
                #[trigger] rd[a].path,
                #[trigger] rd[b].path,
            ) by {
                lemma_filter_in_order(self@, pred, a, b);
            }
            assert forall|t: int| 0 <= t < rd.len() implies {
                let n = #[trigger] rd[t];
                &&& is_child_of(n, path@)
                &&& contains_path(self@, n.path)
                &&& node_at(self@, n.path) == n
            } by {
                Seq::lemma_filter_pred(self@, pred, t);
                let j = choose|j: int| 0 <= j < self@.len() && rd[t] == self@[j];
                lemma_node_at(self@, rd[t].path, j);
            }
            assert forall|i2: int|
                0 <= i2 < self@.len() && is_child_of(#[trigger] self@[i2], path@) implies rd
                .contains(self@[i2]) by {
                Seq::lemma_filter_contains(self@, pred, i2);
            }
        }
        r
    }

    /// The breadcrumb from the root to `path`: for each tree level, the
    /// decimal rendering of that level's component and the title of the node
    /// there, or the empty string where no node exists.
    pub fn levels(&self, path: &TreePath) -> (r: Vec<(String, String)>)
        requires
            self.wf(),
        ensures
            r@.len() == path@.len(),
            forall|k: int|
                0 <= k < path@.len() ==> {
                    &&& (#[trigger] r@[k]).0@ == dec_str(path@[k] as int)
                    &&& r@[k].1@ == if contains_path(self@, path@.take(k + 1)) {
                        node_at(self@, path@.take(k + 1)).title
                    } else {
                        Seq::<char>::empty()
                    }
                },
    {
        let mut r: Vec<(String, String)> = Vec::new();
        let mut prefix = TreePath::new();
        let mut k: usize = 0;
        let comps = path.iter();
        while k < comps.len()
            invariant
                k <= path@.len(),
                comps@ == path@,
                self.wf(),
                prefix@ == path@.take(k as int),
                r@.len() == k,
                forall|t: int|
                    0 <= t < k ==> {
                        &&& (#[trigger] r@[t]).0@ == dec_str(path@[t] as int)
                        &&& r@[t].1@ == if contains_path(self@, path@.take(t + 1)) {
                            node_at(self@, path@.take(t + 1)).title
                        } else {
                            Seq::<char>::empty()
                        }
                    },
            decreases path@.len() - k,
        {
            let c: u32 = comps[k];
            prefix.push(c);
            proof {
                assert(prefix@ =~= path@.take(k + 1 as int));
            }
            let title: String = match self.get_node(&prefix) {
                Some(n) => n.header.title.clone(),
                None => String::new(),
            };
            let shown = crate::chars::u32_to_string(c);
            r.push((shown, title));
            k = k + 1;
        }
        proof {
            assert(r@.len() == path@.len());
        }
        r
    }

    /// The child slot of `path` with the smallest unused component: the
    /// direct children occupy exactly the components below the result's
    /// final component.
    pub fn find_next_empty_child(&self, path: &TreePath) -> (r: TreePath)
        requires
            self.wf(),
            self@.len() < u32::MAX,
        ensures
            r@ == path@.push(r@.last()),
            !contains_path(self@, r@),
            forall|j: u32| j < r@.last() ==> contains_path(self@, path@.push(j)),
    {
        let children = self.children_for(path);
        let ghost cd = children.deep_view();
        proof {
            broadcast use vstd::seq_lib::group_seq_properties;

            Seq::lemma_filter_len(self@, |n: NodeView| is_child_of(n, path@));
            assert(cd.len() <= self@.len());
            assert forall|t: int| 0 <= t < cd.len() implies (#[trigger] cd[t]).path
                =~= path@.push(cd[t].path.last()) by {
                assert(is_child_of(cd[t], path@));
                assert(cd[t].path.subrange(0, path@.len() as int) == path@);
            }
            assert forall|a: int, b: int| 0 <= a < b < cd.len() implies cd[a].path.last()
                < cd[b].path.last() by {
                assert(path_lt(cd[a].path, cd[b].path));
                crate::path::lemma_push_lt(path@, cd[a].path.last(), cd[b].path.last());
                assert(path_lt(
                    path@.push(cd[a].path.last()),
                    path@.push(cd[b].path.last()),
                ));
            }
        }
        let mut expected: u32 = 0;
        let mut i: usize = 0;
        while i < children.len() && last_component(&children[i].path) == expected
            invariant
                cd == children.deep_view(),
                i <= cd.len(),
                cd.len() <= self@.len() < u32::MAX,
                expected == i,
                self.wf(),
                forall|t: int| 0 <= t < cd.len() ==> (#[trigger] cd[t]).path == path@.push(
                    cd[t].path.last(),
                ),
                forall|a: int, b: int|
                    0 <= a < b < cd.len() ==> (#[trigger] cd[a].path.last()) < (
                    #[trigger] cd[b].path.last()),
                forall|t: int|
                    0 <= t < cd.len() ==> contains_path(self@, (#[trigger] cd[t]).path),
                forall|t: int| 0 <= t < i ==> (#[trigger] cd[t]).path.last() == t,
            decreases cd.len() - i,
        {
            proof {
                assert(cd[i as int].path.last() == expected);
            }
            expected = expected + 1;
            i = i + 1;
        }
        let r = path.append(expected);
        proof {
            assert(r@ == path@.push(expected));
            assert(r@.last() == expected);
            assert forall|j: u32| j < expected implies contains_path(self@, path@.push(j)) by {
                assert(cd[j as int].path.last() == j);
                assert(cd[j as int].path == path@.push(j));
            }
            if contains_path(self@, r@) {
                let w = path_index(self@, r@);
                assert(self@[w].path == r@);
                assert(is_child_of(self@[w], path@)) by {
                    assert(r@.len() == path@.len() + 1);
                    assert(r@.subrange(0, path@.len() as int) =~= path@);
                }
                assert(cd.contains(self@[w]));
                let t = choose|t: int| 0 <= t < cd.len() && cd[t] == self@[w];
                assert(cd[t].path.last() == expected);
                if t < i {
                    assert(cd[t].path.last() == t);
                    assert(t < expected);
                } else {
                    assert(i < cd.len());
                    if i < t {
                        assert(cd[i as int].path.last() < cd[t].path.last());
                    }
                    if i > 0 {
                        assert(cd[i - 1].path.last() < cd[i as int].path.last());
                        assert(cd[i - 1].path.last() == i - 1);
                    }
                    assert(cd[i as int].path.last() != expected);
                    assert(cd[i as int].path.last() >= expected) by {
                        if i > 0 {
                        }
                    }
                    assert(false);
                }
            }
        }
        r
    }
}

/// In a sorted sequence, the filtered subsequence keeps the order.
proof fn lemma_filter_in_order(s: Seq<NodeView>, pred: spec_fn(NodeView) -> bool, a: int, b: int)
    requires
        sorted_by_path(s),
        0 <= a < b < s.filter(pred).len(),
    ensures
        path_lt(s.filter(pred)[a].path, s.filter(pred)[b].path),
    decreases s.len(),
{
    reveal(Seq::filter);
    if s.len() > 0 {
        let f = s.filter(pred);
        let ff = s.drop_last().filter(pred);
        assert(sorted_by_path(s.drop_last())) by {
            assert(forall|i: int|
                0 <= i < s.drop_last().len() ==> #[trigger] s.drop_last()[i] == s[i]);
        }
        if pred(s.last()) {
            assert(f == ff.push(s.last()));
            if b < f.len() - 1 {
                lemma_filter_in_order(s.drop_last(), pred, a, b);
            } else {
                // b is the appended last element
                assert(f[b] == s.last());
                assert(f[a] == ff[a]);
                lemma_filter_element_of(s.drop_last(), pred, a);
                let j = choose|j: int|
                    0 <= j < s.drop_last().len() && #[trigger] s.drop_last()[j] == ff[a];
                assert(s[j] == ff[a]);
                assert(path_lt(s[j].path, s[s.len() - 1].path));
            }
        } else {
            lemma_filter_in_order(s.drop_last(), pred, a, b);
        }
    }
}

/// Every element of the filtered sequence occurs in the sequence it was
/// filtered from.
proof fn lemma_filter_element_of(s: Seq<NodeView>, pred: spec_fn(NodeView) -> bool, t: int)
    requires
        0 <= t < s.filter(pred).len(),
    ensures
        exists|j: int| 0 <= j < s.len() && #[trigger] s[j] == s.filter(pred)[t],
    decreases s.len(),
{
    reveal(Seq::filter);
    if s.len() > 0 {
        let f = s.filter(pred);
        let ff = s.drop_last().filter(pred);
        if pred(s.last()) && t == f.len() - 1 {
            assert(s[s.len() - 1] == f[t]);
        } else {
            lemma_filter_element_of(s.drop_last(), pred, t);
            let j = choose|j: int|
                0 <= j < s.drop_last().len() && #[trigger] s.drop_last()[j] == ff[t];
            assert(s[j] == f[t]);
        }
    }
}

/// The final component of a non-root path.
pub fn path_last(p: &TreePath) -> (r: u32)
    requires
        p@.len() > 0,
    ensures
        r == p@.last(),
{
    let comps = p.iter();
    comps[comps.len() - 1]
}

/// The final component of a path, or zero at the root.
fn last_component(p: &TreePath) -> (r: u32)
    ensures
        p@.len() > 0 ==> r == p@.last(),
        p@.len() == 0 ==> r == 0,
{
    let comps = p.iter();
    if comps.len() == 0 {
        0
    } else {
        comps[comps.len() - 1]
    }
}

} // verus!
