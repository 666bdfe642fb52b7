//! Nodes: one content unit per tree path, together with the header that is
//! derived from the raw text — the title line, the first paragraph, and
//! whether more content follows — and the `#tag` extraction.

use vstd::prelude::*;

use crate::chars::{
    chars_eq, chars_range, chars_to_string, drop_leading, find_char, find_sub, is_digit_char,
    is_space, is_unicode_space, is_upper_char, lemma_drop_leading_skip, lemma_find_char,
    lemma_find_sub, str_to_chars, trim_range, trim_spec, trim_start_spec,
};
use crate::path::{dir_of_spec, display_of, TreePath};

verus! {

/// The two-newline separator that ends a paragraph.
pub open spec fn para_sep() -> Seq<char> {
    seq!['\n', '\n']
}

/// The first line of `s`: everything before the first newline, or all of `s`.
pub open spec fn untrimmed_title_of(s: Seq<char>) -> Seq<char> {
    let i = find_char(s, '\n');
    if i == -1 {
        s
    } else {
        s.take(i)
    }
}

/// The title: the first line with leading `=` markers and the whitespace
/// after them stripped.
pub open spec fn title_of(s: Seq<char>) -> Seq<char> {
    trim_start_spec(drop_leading(untrimmed_title_of(s), |c: char| c == '='))
}

/// The first paragraph: when a blank line exists, the trimmed text between
/// the title line and the blank line, or — when the title line itself ends
/// the first chunk — the trimmed chunk after the blank line; with no blank
/// line at all, the whole text.
pub open spec fn first_para_of(s: Seq<char>) -> Seq<char> {
    let j = find_sub(s, para_sep());
    if j == -1 {
        s
    } else {
        let first_chunk = s.take(j);
        if find_char(first_chunk, '\n') != -1 {
            trim_spec(first_chunk.skip(untrimmed_title_of(s).len() as int))
        } else {
            let rest = s.skip(j + 2);
            let j2 = find_sub(rest, para_sep());
            if j2 == -1 {
                trim_spec(rest)
            } else {
                trim_spec(rest.take(j2))
            }
        }
    }
}

/// Whether text beyond the first chunk exists: set exactly when no blank
/// line occurs, mirroring how the header derivation stores it.
pub open spec fn has_more_of(s: Seq<char>) -> bool {
    find_sub(s, para_sep()) == -1
}

/// The derived header of a node: title, first paragraph, and the
/// more-content flag, all computed from the raw text alone.
#[derive(Debug)]
pub struct Header {
    pub title: String,
    pub first_paragraph: String,
    pub has_more_content: bool,
}

impl Header {
    /// The header fields are exactly those derived from `raw`.
    pub open spec fn derived_from(self, raw: Seq<char>) -> bool {
        &&& self.title@ == title_of(raw)
        &&& self.first_paragraph@ == first_para_of(raw)
        &&& self.has_more_content == has_more_of(raw)
    }

    /// An owned copy.
    pub fn duplicate(&self) -> (r: Header)
        ensures
            r == *self,
    {
        Header {
            title: self.title.clone(),
            first_paragraph: self.first_paragraph.clone(),
            has_more_content: self.has_more_content,
        }
    }
}

/// A content unit stored at one tree path.
#[derive(Debug)]
pub struct Node {
    pub path: TreePath,
    pub header: Header,
    pub raw: String,
}

/// The mathematical content of a node: its address and its texts.
pub struct NodeView {
    pub path: Seq<u32>,
    pub title: Seq<char>,
    pub first_paragraph: Seq<char>,
    pub has_more_content: bool,
    pub raw: Seq<char>,
}

impl View for Node {
    type V = NodeView;

    open spec fn view(&self) -> NodeView {
        NodeView {
            path: self.path@,
            title: self.header.title@,
            first_paragraph: self.header.first_paragraph@,
            has_more_content: self.header.has_more_content,
            raw: self.raw@,
        }
    }
}

impl DeepView for Node {
    type V = NodeView;

    open spec fn deep_view(&self) -> NodeView {
        self@
    }
}

impl NodeView {
    /// The header fields are those derived from the raw text.
    pub open spec fn wf(self) -> bool {
        &&& self.title == title_of(self.raw)
        &&& self.first_paragraph == first_para_of(self.raw)
        &&& self.has_more_content == has_more_of(self.raw)
    }

    /// The same node at another address.
    pub open spec fn with_path(self, path: Seq<u32>) -> NodeView {
        NodeView { path, ..self }
    }
}

/// Index of the first occurrence of `c`, as an option.
pub fn find_char_vec(s: &Vec<char>, c: char) -> (r: Option<usize>)
    ensures
        match r {
            Some(i) => find_char(s@, c) == i as int,
            None => find_char(s@, c) == -1,
        },
{
    proof {
        lemma_find_char(s@, c);
    }
    let mut i: usize = 0;
    while i < s.len()
        invariant
            i <= s@.len(),
            forall|j: int| 0 <= j < i ==> s@[j] != c,
        decreases s@.len() - i,
    {
        if s[i] == c {
            proof {
                lemma_find_char(s@, c);
                if find_char(s@, c) == -1 {
                    assert(s@[i as int] != c);
                }
                if find_char(s@, c) > i {
                    assert(s@[i as int] != c);
                }
                if 0 <= find_char(s@, c) < i {
                    assert(s@[find_char(s@, c)] != c);
                }
            }
            return Some(i);
        }
        i = i + 1;
    }
    proof {
        lemma_find_char(s@, c);
        if find_char(s@, c) != -1 {
            assert(s@[find_char(s@, c)] == c);
        }
    }
    None
}

/// Derives the header of `contents`: the title from the first line, the
/// first paragraph around the first blank line, and the more-content flag.
#[verifier::rlimit(60)]
pub fn extract_header(contents: &str) -> (h: Header)
    ensures
        h.derived_from(contents@),
{
    let cv = str_to_chars(contents);
    let n: usize = cv.len();
    let nl = find_char_vec(&cv, '\n');
    let t_end: usize = match nl {
        Some(i) => i,
        None => n,
    };
    proof {
        lemma_find_char(cv@, '\n');
        assert(untrimmed_title_of(cv@) =~= cv@.take(t_end as int));
    }
    // strip the `=` markers, then the whitespace after them
    let mut a: usize = 0;
    while a < t_end && cv[a] == '='
        invariant
            a <= t_end <= cv@.len(),
            forall|j: int| 0 <= j < a ==> cv@[j] == '=',
        decreases t_end - a,
    {
        a = a + 1;
    }
    let mut b: usize = a;
    while b < t_end && is_space(cv[b])
        invariant
            a <= b <= t_end <= cv@.len(),
            forall|j: int| a <= j < b ==> is_unicode_space(#[trigger] cv@[j]),
        decreases t_end - b,
    {
        b = b + 1;
    }
    let title_chars = chars_range(&cv, b, t_end);
    proof {
        let ut = cv@.take(t_end as int);
        assert forall|j: int| 0 <= j < a implies (|c: char| c == '=')(#[trigger] ut[j]) by {
            assert(ut[j] == cv@[j]);
        }
        if a < t_end {
            assert(ut[a as int] == cv@[a as int]);
        }
        lemma_drop_leading_skip(ut, |c: char| c == '=', a as int);
        let mid = ut.skip(a as int);
        assert forall|j: int| 0 <= j < b - a implies (|c: char| is_unicode_space(c))(
            #[trigger] mid[j],
        ) by {
            assert(mid[j] == cv@[a + j]);
        }
        if b < t_end {
            assert(mid[b - a] == cv@[b as int]);
        }
        lemma_drop_leading_skip(mid, |c: char| is_unicode_space(c), b - a);
        assert(mid.skip(b - a) =~= cv@.subrange(b as int, t_end as int));
        assert(title_chars@ == title_of(cv@));
    }
    // locate the first blank line
    let mut sep: Vec<char> = Vec::new();
    sep.push('\n');
    sep.push('\n');
    proof {
        assert(sep@ =~= para_sep());
    }
    let (first_paragraph, has_more_content): (String, bool) = match find_sub_nn(&cv, &sep) {
        None => (chars_to_string(&cv), true),
        Some(j) => {
            let contains_nl: bool = match nl {
                Some(i) => i < j,
                None => false,
            };
            proof {
                let first_chunk = cv@.take(j as int);
                lemma_find_char(cv@, '\n');
                lemma_find_char(first_chunk, '\n');
                if contains_nl {
                    assert(first_chunk[find_char(cv@, '\n')] == '\n');
                    if find_char(first_chunk, '\n') == -1 {
                        assert(first_chunk[find_char(cv@, '\n')] != '\n');
                    }
                } else {
                    if find_char(first_chunk, '\n') != -1 {
                        let r = find_char(first_chunk, '\n');
                        assert(first_chunk[r] == '\n');
                        assert(cv@[r] == '\n');
                        if find_char(cv@, '\n') == -1 {
                            assert(cv@[r] != '\n');
                        } else {
                            assert(r < find_char(cv@, '\n'));
                            assert(cv@[r] != '\n');
                        }
                    }
                }
            }
            if contains_nl {
                let p = trim_range(&cv, t_end, j);
                proof {
                    assert(cv@.take(j as int).skip(t_end as int) =~= cv@.subrange(
                        t_end as int,
                        j as int,
                    ));
                }
                (chars_to_string(&p), false)
            } else {
                let rest = chars_range(&cv, j + 2, n);
                proof {
                    assert(rest@ =~= cv@.skip(j + 2));
                }
                match find_sub_nn(&rest, &sep) {
                    None => {
                        let p = trim_range(&rest, 0, rest.len());
                        proof {
                            assert(rest@.subrange(0, rest@.len() as int) =~= rest@);
                        }
                        (chars_to_string(&p), false)
                    },
                    Some(j2) => {
                        let p = trim_range(&rest, 0, j2);
                        proof {
                            assert(rest@.subrange(0, j2 as int) =~= rest@.take(j2 as int));
                        }
                        (chars_to_string(&p), false)
                    },
                }
            }
        },
    };
    Header { title: chars_to_string(&title_chars), first_paragraph, has_more_content }
}

/// Position of the first blank-line separator, with its bound carried along.
fn find_sub_nn(s: &Vec<char>, sep: &Vec<char>) -> (r: Option<usize>)
    requires
        sep@.len() >= 1,
    ensures
        match r {
            Some(i) => find_sub(s@, sep@) == i as int && i + sep@.len() <= s@.len(),
            None => find_sub(s@, sep@) == -1,
        },
{
    let r = crate::chars::find_sub_chars(s, sep);
    proof {
        lemma_find_sub(s@, sep@);
    }
    r
}

impl Node {
    /// The header carried by this node is the one derived from its text.
    pub open spec fn wf(self) -> bool {
        self@.wf()
    }

    /// A node at `path` holding `raw`, with its header derived from `raw`.
    pub fn new(path: &TreePath, raw: &str) -> (r: Node)
        ensures
            r@.path == path@,
            r@.raw == raw@,
            r.wf(),
    {
        let header = extract_header(raw);
        Node { path: path.duplicate(), header, raw: String::from_str(raw) }
    }

    /// An owned copy with the same view.
    pub fn duplicate(&self) -> (r: Node)
        ensures
            r@ == self@,
    {
        Node {
            path: self.path.duplicate(),
            header: self.header.duplicate(),
            raw: self.raw.clone(),
        }
    }

    /// The raw text.
    pub fn content(&self) -> (r: &str)
        ensures
            r@ == self.raw@,
    {
        self.raw.as_str()
    }

    /// The on-disk directory of the node at `path` under `data_path`: one
    /// nested directory per component, named by its decimal value.
    pub fn dirname_from_path(data_path: &str, path: &TreePath) -> (r: String)
        ensures
            r@ == dir_of_spec(data_path@, path@),
    {
        if path.is_empty() {
            String::from_str(data_path)
        } else {
            let mut out = String::from_str(data_path);
            out.append("/");
            let shown = path.display();
            out.append(shown.as_str());
            proof {
                reveal_strlit("/");
                assert("/"@ =~= seq!['/']);
                assert(out@ =~= dir_of_spec(data_path@, path@));
            }
            out
        }
    }

    /// The on-disk directory of this node under `data_path`.
    pub fn dirname(&self, data_path: &str) -> (r: String)
        ensures
            r@ == dir_of_spec(data_path@, self.path@),
    {
        Node::dirname_from_path(data_path, &self.path)
    }

    /// The distinct `#tag` occurrences in this node's text, in order of
    /// first occurrence.
    pub fn get_tags(&self) -> (r: Vec<String>)
        ensures
            r.deep_view() == tags_of(self.raw@),
    {
        Node::extract_tags(self.content())
    }

    /// The distinct `#tag` occurrences in `text`, in order of first
    /// occurrence: a `#`, a letter, then at least one more letter or digit.
    pub fn extract_tags(text: &str) -> (r: Vec<String>)
        ensures
            r.deep_view() == tags_of(text@),
    {
        let cv = str_to_chars(text);
        let n: usize = cv.len();
        let mut raw: Vec<Vec<char>> = Vec::new();
        let mut i: usize = 0;
        proof {
            assert(cv@.skip(0) =~= cv@);
            assert(raw.deep_view() + raw_tags(cv@) =~~= raw_tags(cv@));
        }
        while i < n
            invariant
                i <= n,
                n == cv@.len(),
                raw_tags(cv@) == raw.deep_view() + raw_tags(cv@.skip(i as int)),
            decreases n - i,
        {
            let ghost rem = cv@.skip(i as int);
            proof {
                assert(rem[0] == cv@[i as int]);
            }
            let starts: bool = cv[i] == '#' && n - i > 2 && is_alpha_exec(cv[i + 1])
                && is_alnum_exec(cv[i + 2]);
            if starts {
                proof {
                    assert(rem.len() >= 3);
                    assert(rem[1] == cv@[i + 1]);
                    assert(rem[2] == cv@[i + 2]);
                }
                let e: usize = alnum_run_end(&cv, i + 1);
                let tag = chars_range(&cv, i, e);
                proof {
                    let run = cv@.subrange(i + 1, e as int);
                    assert(all_alnum(run));
                    assert(rem.skip(1) =~= run + cv@.skip(e as int));
                    if e < n {
                        assert(cv@.skip(e as int)[0] == cv@[e as int]);
                    } else {
                        assert(cv@.skip(e as int) =~= Seq::<char>::empty());
                    }
                    lemma_alnum_run_concat(run, cv@.skip(e as int));
                    assert(alnum_run_len(rem.skip(1)) == e - (i + 1));
                    let m = 1 + alnum_run_len(rem.skip(1));
                    assert(m == e - i);
                    assert(rem.take(m) =~= cv@.subrange(i as int, e as int));
                    assert(rem.skip(m) =~= cv@.skip(e as int));
                    assert(raw_tags(rem) == seq![rem.take(m)] + raw_tags(rem.skip(m)));
                }
                let ghost old_deep = raw.deep_view();
                raw.push(tag);
                proof {
                    assert(raw.deep_view() =~~= old_deep + seq![cv@.subrange(i as int, e as int)]);
                    assert(raw.deep_view() + raw_tags(cv@.skip(e as int)) =~~= old_deep + raw_tags(
                        cv@.skip(i as int),
                    ));
                }
                i = e;
            } else {
                proof {
                    assert(raw_tags(rem) == raw_tags(rem.drop_first()));
                    assert(rem.drop_first() =~= cv@.skip(i + 1 as int));
                }
                i = i + 1;
            }
        }
        proof {
            assert(cv@.skip(n as int) =~= Seq::<char>::empty());
            assert(raw.deep_view() =~~= raw_tags(cv@));
        }
        // keep the first occurrence of each tag
        let mut out: Vec<String> = Vec::new();
        let ghost all = raw.deep_view();
        let mut k: usize = 0;
        proof {
            assert(all.skip(0) =~= all);
            assert(out.deep_view() =~~= Seq::<Seq<char>>::empty());
            assert(dedup_acc(all, Seq::<Seq<char>>::empty()) == dedup_acc(
                all.skip(0),
                out.deep_view(),
            ));
        }
        while k < raw.len()
            invariant
                k <= raw@.len(),
                all == raw.deep_view(),
                tags_of(cv@) == dedup_acc(all.skip(k as int), out.deep_view()),
                forall|t: int|
                    0 <= t < out@.len() ==> #[trigger] out.deep_view()[t] == out@[t]@,
            decreases raw@.len() - k,
        {
            let ghost rem = all.skip(k as int);
            proof {
                assert(rem[0] =~= raw@[k as int]@);
                assert(rem.drop_first() =~= all.skip(k + 1 as int));
            }
            let mut seen = false;
            let mut t: usize = 0;
            while t < out.len() && !seen
                invariant
                    t <= out@.len(),
                    k < raw@.len(),
                    forall|u: int|
                        0 <= u < out@.len() ==> #[trigger] out.deep_view()[u] == out@[u]@,
                    seen ==> out.deep_view().contains(raw@[k as int]@),
                    !seen ==> forall|u: int| 0 <= u < t ==> out.deep_view()[u] != raw@[k as int]@,
                decreases 2 * (out@.len() - t) + (if seen { 0int } else { 1int }),
            {
                let oc = str_to_chars(out[t].as_str());
                let rc = &raw[k];
                if chars_eq(&oc, rc) {
                    seen = true;
                    proof {
                        assert(out.deep_view()[t as int] == raw@[k as int]@);
                    }
                } else {
                    proof {
                        assert(out.deep_view()[t as int] != raw@[k as int]@);
                    }
                    t = t + 1;
                }
            }
            if !seen {
                let ghost old_deep = out.deep_view();
                proof {
                    assert(rem[0] =~= raw@[k as int]@);
                    if old_deep.contains(rem[0]) {
                        let w = choose|w: int|
                            0 <= w < old_deep.len() && old_deep[w] == rem[0];
                        assert(old_deep[w] == rem[0]);
                        assert(old_deep[w] != raw@[k as int]@);
                        assert(rem[0] == raw@[k as int]@);
                    }
                    assert(!old_deep.contains(rem[0]));
                }
                out.push(chars_to_string(&raw[k]));
                proof {
                    assert(out.deep_view() =~~= old_deep.push(rem[0]));
                    assert(dedup_acc(rem, old_deep) == dedup_acc(
                        rem.drop_first(),
                        old_deep.push(rem[0]),
                    ));
                }
            } else {
                proof {
                    assert(out.deep_view().contains(rem[0]));
                    assert(dedup_acc(rem, out.deep_view()) == dedup_acc(
                        rem.drop_first(),
                        out.deep_view(),
                    ));
                }
            }
            k = k + 1;
        }
        proof {
            assert(all.skip(raw@.len() as int) =~= Seq::<Seq<char>>::empty());
        }
        out
    }
}

/// `c` is an ASCII letter.
pub open spec fn is_alpha_char(c: char) -> bool {
    is_upper_char(c) || (97 <= c as u32 <= 122)
}

/// `c` is an ASCII letter or digit.
pub open spec fn is_alnum_char(c: char) -> bool {
    is_alpha_char(c) || is_digit_char(c)
}

/// Every character of `s` is an ASCII letter or digit.
pub open spec fn all_alnum(s: Seq<char>) -> bool {
    forall|i: int| 0 <= i < s.len() ==> is_alnum_char(#[trigger] s[i])
}

/// Length of the longest letter-or-digit prefix of `s`.
pub open spec fn alnum_run_len(s: Seq<char>) -> int
    decreases s.len(),
{
    if s.len() == 0 {
        0
    } else if !is_alnum_char(s[0]) {
        0
    } else {
        1 + alnum_run_len(s.drop_first())
    }
}

proof fn lemma_alnum_run_len_bounds(s: Seq<char>)
    ensures
        0 <= alnum_run_len(s) <= s.len(),
        s.len() > 0 && is_alnum_char(s[0]) ==> alnum_run_len(s) >= 1,
    decreases s.len(),
{
    if s.len() > 0 && is_alnum_char(s[0]) {
        lemma_alnum_run_len_bounds(s.drop_first());
    }
}

proof fn lemma_alnum_run_concat(a: Seq<char>, b: Seq<char>)
    requires
        all_alnum(a),
        b.len() == 0 || !is_alnum_char(b[0]),
    ensures
        alnum_run_len(a + b) == a.len(),
    decreases a.len(),
{
    if a.len() == 0 {
        assert(a + b =~= b);
    } else {
        assert((a + b)[0] == a[0]);
        assert((a + b).drop_first() =~= a.drop_first() + b);
        lemma_alnum_run_concat(a.drop_first(), b);
    }
}

fn is_alpha_exec(c: char) -> (r: bool)
    ensures
        r == is_alpha_char(c),
{
    let u: u32 = c as u32;
    (65 <= u && u <= 90) || (97 <= u && u <= 122)
}

fn is_alnum_exec(c: char) -> (r: bool)
    ensures
        r == is_alnum_char(c),
{
    let u: u32 = c as u32;
    (65 <= u && u <= 90) || (97 <= u && u <= 122) || (48 <= u && u <= 57)
}

/// The end of the letter-or-digit run beginning at `start`.
fn alnum_run_end(cv: &Vec<char>, start: usize) -> (e: usize)
    requires
        start <= cv@.len(),
    ensures
        start <= e <= cv@.len(),
        forall|l: int| start <= l < e ==> is_alnum_char(#[trigger] cv@[l]),
        e < cv@.len() ==> !is_alnum_char(cv@[e as int]),
{
    let mut e: usize = start;
    while e < cv.len() && is_alnum_exec(cv[e])
        invariant
            start <= e <= cv@.len(),
            forall|l: int| start <= l < e ==> is_alnum_char(#[trigger] cv@[l]),
        decreases cv@.len() - e,
    {
        e = e + 1;
    }
    e
}

/// The `#tag` matches of `s` in order: at each position, a `#` followed by a
/// letter and at least one more letter or digit starts a match covering the
/// whole letter-or-digit run; matches do not overlap.
pub open spec fn raw_tags(s: Seq<char>) -> Seq<Seq<char>>
    decreases s.len(),
    via raw_tags_decreases
{
    if s.len() == 0 {
        Seq::<Seq<char>>::empty()
    } else if s[0] == '#' && s.len() >= 3 && is_alpha_char(s[1]) && is_alnum_char(s[2]) {
        let m = 1 + alnum_run_len(s.skip(1));
        seq![s.take(m)] + raw_tags(s.skip(m))
    } else {
        raw_tags(s.drop_first())
    }
}

#[via_fn]
proof fn raw_tags_decreases(s: Seq<char>) {
    if s.len() > 0 {
        lemma_alnum_run_len_bounds(s.skip(1));
        if s.len() >= 3 && is_alpha_char(s[1]) && is_alnum_char(s[2]) {
            assert(s.skip(1)[0] == s[1]);
            assert(alnum_run_len(s.skip(1)) >= 1);
        }
    }
}

/// Keeps the first occurrence of each element, in order, given the
/// already-kept prefix `acc`.
pub open spec fn dedup_acc(l: Seq<Seq<char>>, acc: Seq<Seq<char>>) -> Seq<Seq<char>>
    decreases l.len(),
{
    if l.len() == 0 {
        acc
    } else if acc.contains(l[0]) {
        dedup_acc(l.drop_first(), acc)
    } else {
        dedup_acc(l.drop_first(), acc.push(l[0]))
    }
}

/// The distinct `#tag` matches of `s`, first occurrences first.
pub open spec fn tags_of(s: Seq<char>) -> Seq<Seq<char>> {
    dedup_acc(raw_tags(s), Seq::<Seq<char>>::empty())
}

/// A mail account as the surrounding application reads it from settings.
#[derive(Debug)]
pub struct MailAccount {
    pub sender: String,
    pub addresses: Vec<String>,
}

} // verus!
