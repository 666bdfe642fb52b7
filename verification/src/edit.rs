//! The compute half of the external-editor integration: extracting the
//! node text out of an edited temp file, and building the temp file's
//! breadcrumb preamble.  Spawning the editor and watching the file belong
//! to the surrounding application.

use vstd::prelude::*;

use crate::chars::{
    chars_range, chars_to_string, dec_str, find_sub, letter_char, str_to_chars, trim_range,
    trim_spec,
};
use crate::index::{contains_path, node_at, NodeIndex};
use crate::node::NodeView;
use crate::path::TreePath;

verus! {

/// The separator line between an edited file's preamble and its content.
pub open spec fn content_sep() -> Seq<char> {
    seq!['\n', '-', '-', '\n']
}

/// The node text inside an edited temp file: everything after the first
/// `--` separator line, trimmed; the whole text where no separator occurs.
pub open spec fn raw_content_of(s: Seq<char>) -> Seq<char> {
    let j = find_sub(s, content_sep());
    if j == -1 {
        s
    } else {
        trim_spec(s.skip(j + 4))
    }
}

/// Extracts the node text out of an edited temp file.
pub fn parse_raw_content(raw_content: &str) -> (r: String)
    ensures
        r@ == raw_content_of(raw_content@),
{
    let cv = str_to_chars(raw_content);
    let mut sep: Vec<char> = Vec::new();
    sep.push('\n');
    sep.push('-');
    sep.push('-');
    sep.push('\n');
    proof {
        assert(sep@ =~= content_sep());
    }
    match crate::chars::find_sub_chars(&cv, &sep) {
        None => chars_to_string(&cv),
        Some(j) => {
            let n: usize = cv.len();
            proof {
                crate::chars::lemma_find_sub(cv@, sep@);
                assert(crate::chars::is_match_at(cv@, sep@, j as int));
                assert(j + 4 <= n);
            }
            let t = trim_range(&cv, j + 4, n);
            proof {
                assert(cv@.subrange(j + 4, cv@.len() as int) =~= cv@.skip(j + 4));
            }
            chars_to_string(&t)
        },
    }
}

/// The text a component shows in the breadcrumb: its letter where it has
/// one, else its decimal value.
pub open spec fn level_mark(c: u32) -> Seq<char> {
    if c < 26 {
        seq![letter_char(c as int)]
    } else {
        dec_str(c as int)
    }
}

/// A run of `n` spaces.
pub open spec fn spaces(n: int) -> Seq<char> {
    Seq::new(if n >= 0 {
        n as nat
    } else {
        0
    }, |i: int| ' ')
}

/// The breadcrumb line for tree level `ii` of `path`: the level's mark, a
/// space, indentation, and the title of the node above that level.
pub open spec fn preamble_line(s: Seq<NodeView>, path: Seq<u32>, ii: int) -> Seq<char> {
    level_mark(path[ii]) + seq![' '] + spaces(ii) + (if contains_path(s, path.take(ii)) {
        node_at(s, path.take(ii)).title
    } else {
        Seq::<char>::empty()
    }) + seq!['\n']
}

/// The breadcrumb lines for the levels of `path` from `ii` on.
pub open spec fn preamble_rec(s: Seq<NodeView>, path: Seq<u32>, ii: int) -> Seq<char>
    decreases path.len() - ii,
{
    if ii < 0 || ii >= path.len() {
        Seq::<char>::empty()
    } else {
        preamble_line(s, path, ii) + preamble_rec(s, path, ii + 1)
    }
}

/// The preamble of an edit buffer for the node at `path`: one breadcrumb
/// line per tree level, or a root marker, and the number of lines the
/// editor should skip to reach the content.
pub open spec fn preamble_of(s: Seq<NodeView>, path: Seq<u32>) -> Seq<char> {
    if path.len() == 0 {
        "(root)\n"@
    } else {
        preamble_rec(s, path, 0)
    }
}

impl NodeIndex {
    /// Builds the edit buffer preamble for the node at `path`, and the line
    /// count the editor skips past it.
    pub fn editor_preamble(&self, path: &TreePath) -> (r: (String, usize))
        requires
            self.wf(),
            path@.len() + 5 <= usize::MAX,
        ensures
            r.0@ == preamble_of(self@, path@),
            path@.len() == 0 ==> r.1 == 3,
            path@.len() > 0 ==> r.1 == path@.len() + 4,
    {
        if path.is_empty() {
            return (String::from_str("(root)\n"), 3);
        }
        let comps = path.iter();
        let mut out: Vec<char> = Vec::new();
        let mut so_far = TreePath::new();
        let mut ii: usize = 0;
        proof {
            assert(so_far@ =~= path@.take(0));
            assert(out@ + preamble_rec(self@, path@, 0) =~= preamble_rec(self@, path@, 0));
        }
        while ii < comps.len()
            invariant
                ii <= path@.len(),
                comps@ == path@,
                self.wf(),
                so_far@ == path@.take(ii as int),
                preamble_rec(self@, path@, 0) == out@ + preamble_rec(self@, path@, ii as int),
            decreases path@.len() - ii,
        {
            let c: u32 = comps[ii];
            let ghost pre = out@;
            if c < 26 {
                let ch: char = (65u8 + c as u8) as char;
                proof {
                    assert(ch == letter_char(c as int));
                }
                out.push(ch);
                proof {
                    assert(out@ =~= pre + level_mark(c));
                }
            } else {
                crate::chars::push_u32_decimal(&mut out, c);
                proof {
                    assert(out@ =~= pre + level_mark(c));
                }
            }
            out.push(' ');
            let mut sp: usize = 0;
            while sp < ii
                invariant
                    sp <= ii,
                    out@ == pre + level_mark(path@[ii as int]) + seq![' '] + spaces(sp as int),
                    ii < path@.len(),
                    comps@ == path@,
                    c == path@[ii as int],
                decreases ii - sp,
            {
                out.push(' ');
                proof {
                    assert(out@ =~= pre + level_mark(path@[ii as int]) + seq![' '] + spaces(
                        sp + 1 as int,
                    ));
                }
                sp = sp + 1;
            }
            let title: Option<String> = match self.get_node(&so_far) {
                Some(n) => Some(n.header.title.clone()),
                None => None,
            };
            match title {
                Some(t) => {
                    let tc = str_to_chars(t.as_str());
                    let mut k: usize = 0;
                    let ghost mid = out@;
                    while k < tc.len()
                        invariant
                            k <= tc@.len(),
                            out@ == mid + tc@.subrange(0, k as int),
                        decreases tc@.len() - k,
                    {
                        out.push(tc[k]);
                        proof {
                            assert(out@ =~= mid + tc@.subrange(0, k + 1 as int));
                        }
                        k = k + 1;
                    }
                    proof {
                        assert(tc@.subrange(0, tc@.len() as int) =~= tc@);
                    }
                },
                None => {},
            }
            out.push('\n');
            proof {
                let line = preamble_line(self@, path@, ii as int);
                assert(out@ =~= pre + line);
                assert(preamble_rec(self@, path@, ii as int) == line + preamble_rec(
                    self@,
                    path@,
                    ii + 1,
                ));
                assert(pre + (line + preamble_rec(self@, path@, ii + 1)) =~= out@ + preamble_rec(
                    self@,
                    path@,
                    ii + 1,
                ));
            }
            so_far.push(c);
            proof {
                assert(so_far@ =~= path@.take(ii + 1 as int));
            }
            ii = ii + 1;
        }
        proof {
            assert(preamble_rec(self@, path@, path@.len() as int) =~= Seq::<char>::empty());
            assert(out@ =~= preamble_of(self@, path@));
        }
        (chars_to_string(&out), path.len() + 4)
    }
}

} // verus!
