//! The versioning bridge, seen from the library's side: parsing the commit
//! listing that the external version-control tool prints, the wording of the
//! undo commit, and the JSON encoding of the plain string histories kept
//! under the data root.  Invoking the tool itself is the surrounding
//! application's work.

use vstd::prelude::*;

use crate::chars::{chars_to_string, split_on, split_sub, split_sub_chars, str_to_chars, trim_range,
    trim_spec, split_on_char};
use crate::errors::StoreError;
use crate::mutate::concat3;

verus! {

/// One commit of the external history: its hash, date, and subject line.
#[derive(Debug)]
pub struct GitHistoryEntry {
    pub hash: String,
    pub date: String,
    pub message: String,
}

/// The mathematical content of a history entry.
pub struct GitHistoryView {
    pub hash: Seq<char>,
    pub date: Seq<char>,
    pub message: Seq<char>,
}

impl View for GitHistoryEntry {
    type V = GitHistoryView;

    open spec fn view(&self) -> GitHistoryView {
        GitHistoryView { hash: self.hash@, date: self.date@, message: self.message@ }
    }
}

impl DeepView for GitHistoryEntry {
    type V = GitHistoryView;

    open spec fn deep_view(&self) -> GitHistoryView {
        self@
    }
}

/// The entry a log block yields: its trimmed text must hold at least three
/// lines — the date, the hash, and the subject.
pub open spec fn block_entry(b: Seq<char>) -> Option<GitHistoryView> {
    let t = trim_spec(b);
    if t.len() == 0 {
        None
    } else {
        let lines = split_on(t, '\n');
        if lines.len() >= 3 {
            Some(GitHistoryView { hash: lines[1], date: lines[0], message: lines[2] })
        } else {
            None
        }
    }
}

/// The entries of a list of blocks, in order, skipping the blocks that
/// yield none.
pub open spec fn entries_of_blocks(bs: Seq<Seq<char>>) -> Seq<GitHistoryView>
    decreases bs.len(),
{
    if bs.len() == 0 {
        Seq::<GitHistoryView>::empty()
    } else {
        match block_entry(bs[0]) {
            Some(e) => seq![e] + entries_of_blocks(bs.drop_first()),
            None => entries_of_blocks(bs.drop_first()),
        }
    }
}

/// The commits listed in the log output `s`: one entry per blank-line
/// separated block of three or more lines.
pub open spec fn history_of(s: Seq<char>) -> Seq<GitHistoryView> {
    entries_of_blocks(split_sub(s, seq!['\n', '\n']))
}

proof fn lemma_entries_concat(a: Seq<Seq<char>>, b: Seq<Seq<char>>)
    ensures
        entries_of_blocks(a + b) == entries_of_blocks(a) + entries_of_blocks(b),
    decreases a.len(),
{
    if a.len() == 0 {
        assert(a + b =~= b);
        assert(entries_of_blocks(a) + entries_of_blocks(b) =~= entries_of_blocks(b));
    } else {
        assert((a + b).drop_first() =~= a.drop_first() + b);
        assert((a + b)[0] == a[0]);
        lemma_entries_concat(a.drop_first(), b);
        match block_entry(a[0]) {
            Some(e) => {
                assert(entries_of_blocks(a + b) =~= entries_of_blocks(a) + entries_of_blocks(b));
            },
            None => {
                assert(entries_of_blocks(a + b) =~= entries_of_blocks(a) + entries_of_blocks(b));
            },
        }
    }
}

/// Parses the output of the external tool's commit listing: blocks are
/// separated by blank lines; a block's first three lines are the date, the
/// hash, and the subject; shorter or empty blocks are skipped.
pub fn parse_git_history(raw: &str) -> (r: Vec<GitHistoryEntry>)
    ensures
        r.deep_view() == history_of(raw@),
{
    let cv = str_to_chars(raw);
    let mut sep: Vec<char> = Vec::new();
    sep.push('\n');
    sep.push('\n');
    proof {
        assert(sep@ =~= seq!['\n', '\n']);
    }
    let blocks = split_sub_chars(&cv, &sep);
    let ghost bd = blocks.deep_view();
    let mut r: Vec<GitHistoryEntry> = Vec::new();
    let mut i: usize = 0;
    proof {
        assert(bd.take(0) =~= Seq::<Seq<char>>::empty());
        assert(r.deep_view() =~~= entries_of_blocks(bd.take(0)));
        assert(history_of(raw@) == entries_of_blocks(bd));
    }
    while i < blocks.len()
        invariant
            i <= bd.len(),
            bd == blocks.deep_view(),
            r.deep_view() == entries_of_blocks(bd.take(i as int)),
        decreases bd.len() - i,
    {
        let b = &blocks[i];
        let t = trim_range(b, 0, b.len());
        proof {
            assert(bd[i as int] =~= b@);
            assert(b@.subrange(0, b@.len() as int) =~= b@);
            assert(bd.take(i + 1 as int) =~= bd.take(i as int) + seq![bd[i as int]]);
            lemma_entries_concat(bd.take(i as int), seq![bd[i as int]]);
            assert(seq![bd[i as int]].drop_first() =~= Seq::<Seq<char>>::empty());
        }
        if t.len() > 0 {
            let lines = split_on_char(&t, '\n');
            proof {
                assert(lines.deep_view() == split_on(trim_spec(bd[i as int]), '\n'));
            }
            if lines.len() >= 3 {
                let entry = GitHistoryEntry {
                    hash: chars_to_string(&lines[1]),
                    date: chars_to_string(&lines[0]),
                    message: chars_to_string(&lines[2]),
                };
                let ghost old_deep = r.deep_view();
                let ghost ev = entry@;
                proof {
                    assert(lines.deep_view()[0] =~= lines@[0]@);
                    assert(lines.deep_view()[1] =~= lines@[1]@);
                    assert(lines.deep_view()[2] =~= lines@[2]@);
                    assert(block_entry(bd[i as int]) == Some(ev));
                }
                r.push(entry);
                proof {
                    assert(seq![bd[i as int]][0] == bd[i as int]);
                    assert(entries_of_blocks(Seq::<Seq<char>>::empty()) =~= Seq::<
                        GitHistoryView,
                    >::empty());
                    assert(entries_of_blocks(seq![bd[i as int]]) =~= seq![ev]);
                    assert(r.deep_view() =~= old_deep.push(ev));
                    assert(r.deep_view() =~= entries_of_blocks(bd.take(i as int))
                        + entries_of_blocks(seq![bd[i as int]]));
                    assert(r.deep_view() =~= entries_of_blocks(bd.take(i + 1 as int)));
                }
            } else {
                proof {
                    assert(seq![bd[i as int]][0] == bd[i as int]);
                    assert(block_entry(bd[i as int]) is None);
                    assert(entries_of_blocks(Seq::<Seq<char>>::empty()) =~= Seq::<
                        GitHistoryView,
                    >::empty());
                    assert(entries_of_blocks(seq![bd[i as int]]) =~= Seq::<
                        GitHistoryView,
                    >::empty());
                    assert(entries_of_blocks(bd.take(i as int)) + entries_of_blocks(
                        seq![bd[i as int]],
                    ) =~= entries_of_blocks(bd.take(i as int)));
                    assert(r.deep_view() =~= entries_of_blocks(bd.take(i + 1 as int)));
                }
            }
        } else {
            proof {
                assert(seq![bd[i as int]][0] == bd[i as int]);
                assert(block_entry(bd[i as int]) is None);
                assert(entries_of_blocks(Seq::<Seq<char>>::empty()) =~= Seq::<
                    GitHistoryView,
                >::empty());
                assert(entries_of_blocks(seq![bd[i as int]]) =~= Seq::<GitHistoryView>::empty());
                assert(entries_of_blocks(bd.take(i as int)) + entries_of_blocks(
                    seq![bd[i as int]],
                ) =~= entries_of_blocks(bd.take(i as int)));
                assert(r.deep_view() =~= entries_of_blocks(bd.take(i + 1 as int)));
            }
        }
        i = i + 1;
    }
    proof {
        assert(bd.take(bd.len() as int) =~= bd);
    }
    r
}

/// The commit message that records an undo to the state of `hash`.
pub fn undo_message(hash: &str) -> (r: String)
    ensures
        r@ == "Undo to state of "@ + hash@,
{
    let m = concat3("Undo to state of ", hash, "");
    proof {
        reveal_strlit("");
        assert(""@ =~= Seq::<char>::empty());
        assert("Undo to state of "@ + hash@ + ""@ =~= "Undo to state of "@ + hash@);
    }
    m
}

/// The JSON rendering of a list of strings, as the JSON encoder produces
/// it: a function of the list alone.
pub uninterp spec fn json_of_string_list(v: Seq<Seq<char>>) -> Seq<char>;

/// What the JSON parser accepts as a list of strings: the decoded list, or
/// nothing for any other input.  A function of the input alone.
pub uninterp spec fn string_list_of_json(s: Seq<char>) -> Option<Seq<Seq<char>>>;

/// Relies on `serde_json::to_string`: encoding a list of strings as JSON,
/// which cannot fail for this type — serialization fails only when a
/// `Serialize` implementation fails or a map has non-string keys, and a
/// string list has neither — and whose output `serde_json::from_str`
/// parses back to an equal list.
#[verifier::external_body]
fn encode_string_list(entries: &Vec<String>) -> (r: Option<String>)
    ensures
        r is Some,
        r matches Some(s) ==> s@ == json_of_string_list(entries.deep_view())
            && string_list_of_json(s@) == Some(entries.deep_view()),
{
    serde_json::to_string(entries).ok()
}

/// Relies on `serde_json::from_str`: decodes a JSON list of strings.
#[verifier::external_body]
fn decode_string_list(raw: &str) -> (r: Option<Vec<String>>)
    ensures
        r is Some <==> string_list_of_json(raw@) is Some,
        r matches Some(v) ==> string_list_of_json(raw@) == Some(v.deep_view()),
{
    serde_json::from_str::<Vec<String>>(raw).ok()
}

/// The file content that stores a plain string history (search inputs and
/// the like) under the data root's history directory; reading it back with
/// `history_get` yields the same entries.
pub fn history_store(entries: &Vec<String>) -> (r: Result<String, StoreError>)
    ensures
        r is Ok,
        r matches Ok(s) ==> s@ == json_of_string_list(entries.deep_view())
            && string_list_of_json(s@) == Some(entries.deep_view()),
{
    match encode_string_list(entries) {
        Some(s) => Ok(s),
        None => {
            proof {
                assert(false);
            }
            Err(StoreError::IoFailure)
        },
    }
}

/// The entries of a stored string history; `ParseError` exactly when the
/// file does not decode as a JSON list of strings.
pub fn history_get(raw: &str) -> (r: Result<Vec<String>, StoreError>)
    ensures
        match r {
            Ok(v) => string_list_of_json(raw@) == Some(v.deep_view()),
            Err(e) => e == StoreError::ParseError && string_list_of_json(raw@) is None,
        },
{
    match decode_string_list(raw) {
        Some(v) => Ok(v),
        None => Err(StoreError::ParseError),
    }
}

} // verus!
