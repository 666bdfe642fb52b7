//! Tree paths: ordered sequences of unsigned 32-bit components addressing a
//! node's position in the tree, with the compact human-readable encoding
//! (letters for components below 26, decimal digit runs above) and the
//! decimal directory-segment encoding used on disk.

use vstd::prelude::*;

use crate::chars::{
    all_digits, chars_eq, chars_range, chars_to_string, chars_to_u32, dec_str, dec_val, digit_val,
    find_char, is_digit_char, is_upper_char, letter_char, push_u32_decimal, split_on,
    split_on_char, str_to_chars,
};
use crate::errors::StoreError;
use crate::order::Rank;

verus! {

/// The address of a node in the tree: one component per tree level.
#[derive(Debug)]
pub struct TreePath {
    components: Vec<u32>,
}

impl View for TreePath {
    type V = Seq<u32>;

    closed spec fn view(&self) -> Seq<u32> {
        self.components@
    }
}

impl PartialEq for TreePath {
    fn eq(&self, other: &Self) -> (r: bool) {
        let mut i: usize = 0;
        if self.components.len() != other.components.len() {
            return false;
        }
        while i < self.components.len()
            invariant
                i <= self@.len(),
                self@.len() == other@.len(),
                forall|j: int| 0 <= j < i ==> self@[j] == other@[j],
            decreases self@.len() - i,
        {
            if self.components[i] != other.components[i] {
                return false;
            }
            i = i + 1;
        }
        proof {
            assert(self@ =~= other@);
        }
        true
    }
}

impl vstd::std_specs::cmp::PartialEqSpecImpl for TreePath {
    open spec fn obeys_eq_spec() -> bool {
        true
    }

    open spec fn eq_spec(&self, other: &TreePath) -> bool {
        self@ == other@
    }
}

impl Eq for TreePath {}

/// Strict lexicographic order on component sequences: a shorter path comes
/// before every path it is a prefix of.
pub open spec fn path_lt(a: Seq<u32>, b: Seq<u32>) -> bool
    decreases a.len(),
{
    if b.len() == 0 {
        false
    } else if a.len() == 0 {
        true
    } else if a[0] < b[0] {
        true
    } else if a[0] > b[0] {
        false
    } else {
        path_lt(a.drop_first(), b.drop_first())
    }
}

/// `a` is an ancestor of `b`, or `b` itself.
pub open spec fn is_prefix_of(a: Seq<u32>, b: Seq<u32>) -> bool {
    a.len() <= b.len() && b.subrange(0, a.len() as int) == a
}

/// Exactly one of `path_lt(a, b)`, `a == b`, `path_lt(b, a)` holds.
pub proof fn lemma_path_lt_trichotomy(a: Seq<u32>, b: Seq<u32>)
    ensures
        path_lt(a, b) || path_lt(b, a) || a == b,
        path_lt(a, b) ==> !path_lt(b, a) && a != b,
        path_lt(b, a) ==> !path_lt(a, b) && a != b,
    decreases a.len(),
{
    if a.len() > 0 && b.len() > 0 && a[0] == b[0] {
        lemma_path_lt_trichotomy(a.drop_first(), b.drop_first());
        if !path_lt(a, b) && !path_lt(b, a) {
            assert(a.drop_first() == b.drop_first());
            assert forall|i: int| 0 <= i < a.len() implies a[i] == b[i] by {
                if i > 0 {
                    assert(a[i] == a.drop_first()[i - 1]);
                    assert(b[i] == b.drop_first()[i - 1]);
                }
            }
            assert(a.len() == b.len());
            assert(a =~= b);
        }
        if a == b {
            assert(a.drop_first() =~= b.drop_first());
        }
    } else {
        if !path_lt(a, b) && !path_lt(b, a) {
            assert(a =~= b);
        }
    }
}

/// The path order is transitive.
pub proof fn lemma_path_lt_trans(a: Seq<u32>, b: Seq<u32>, c: Seq<u32>)
    requires
        path_lt(a, b),
        path_lt(b, c),
    ensures
        path_lt(a, c),
    decreases a.len(),
{
    if a.len() > 0 && b.len() > 0 && c.len() > 0 {
        if a[0] == b[0] && b[0] == c[0] {
            lemma_path_lt_trans(a.drop_first(), b.drop_first(), c.drop_first());
        }
    }
}

/// A strict ancestor comes before each of its descendants in the path order.
pub proof fn lemma_ancestor_lt(a: Seq<u32>, b: Seq<u32>)
    requires
        is_prefix_of(a, b),
        a.len() < b.len(),
    ensures
        path_lt(a, b),
    decreases a.len(),
{
    if a.len() > 0 {
        assert(a[0] == b.subrange(0, a.len() as int)[0]);
        assert(a[0] == b[0]);
        assert(b.subrange(0, a.len() as int).drop_first() =~= b.drop_first().subrange(
            0,
            a.drop_first().len() as int,
        ));
        lemma_ancestor_lt(a.drop_first(), b.drop_first());
    }
}

/// Extending a common prefix orders by the appended component.
pub proof fn lemma_push_lt(p: Seq<u32>, a: u32, b: u32)
    ensures
        path_lt(p.push(a), p.push(b)) <==> a < b,
    decreases p.len(),
{
    if p.len() == 0 {
        assert(p.push(a) =~= seq![a]);
        assert(p.push(b) =~= seq![b]);
        assert(seq![a].drop_first() =~= Seq::<u32>::empty());
        assert(seq![b].drop_first() =~= Seq::<u32>::empty());
        assert(seq![a].len() == 1 && seq![b].len() == 1);
        assert(seq![a][0] == a && seq![b][0] == b);
        assert(!path_lt(Seq::<u32>::empty(), Seq::<u32>::empty()));
        if a < b {
            assert(path_lt(seq![a], seq![b]));
        } else if a > b {
            assert(!path_lt(seq![a], seq![b]));
        } else {
            assert(!path_lt(seq![a], seq![b]));
        }
    } else {
        assert(p.push(a)[0] == p[0]);
        assert(p.push(b)[0] == p[0]);
        assert(p.push(a).drop_first() =~= p.drop_first().push(a));
        assert(p.push(b).drop_first() =~= p.drop_first().push(b));
        lemma_push_lt(p.drop_first(), a, b);
    }
}

/// The human rendering of the components `p`, where `last_num` says whether a
/// digit run directly precedes (and thus a `/` separator is owed before
/// another digit run).
pub open spec fn human_rec(p: Seq<u32>, last_num: bool) -> Seq<char>
    decreases p.len(),
{
    if p.len() == 0 {
        Seq::<char>::empty()
    } else if p[0] < 26 {
        seq![letter_char(p[0] as int)] + human_rec(p.drop_first(), false)
    } else if last_num {
        seq!['/'] + dec_str(p[0] as int) + human_rec(p.drop_first(), true)
    } else {
        dec_str(p[0] as int) + human_rec(p.drop_first(), true)
    }
}

/// The human rendering of a whole path.
pub open spec fn human_of(p: Seq<u32>) -> Seq<char> {
    human_rec(p, false)
}

/// Length of the longest digit-run prefix of `s`.
pub open spec fn digit_run_len(s: Seq<char>) -> int
    decreases s.len(),
{
    if s.len() == 0 {
        0
    } else if !is_digit_char(s[0]) {
        0
    } else {
        1 + digit_run_len(s.drop_first())
    }
}

pub proof fn lemma_digit_run_len_bounds(s: Seq<char>)
    ensures
        0 <= digit_run_len(s) <= s.len(),
        s.len() > 0 && is_digit_char(s[0]) ==> digit_run_len(s) >= 1,
        forall|i: int| 0 <= i < digit_run_len(s) ==> is_digit_char(#[trigger] s[i]),
        digit_run_len(s) < s.len() ==> !is_digit_char(s[digit_run_len(s)]),
    decreases s.len(),
{
    if s.len() > 0 && is_digit_char(s[0]) {
        lemma_digit_run_len_bounds(s.drop_first());
        assert forall|i: int| 0 <= i < digit_run_len(s) implies is_digit_char(
            #[trigger] s[i],
        ) by {
            if i > 0 {
                assert(is_digit_char(s.drop_first()[i - 1]));
            }
        }
        if digit_run_len(s) < s.len() {
            assert(s[digit_run_len(s)] == s.drop_first()[digit_run_len(s.drop_first())]);
        }
    }
}

/// The digit run of a digit sequence followed by a non-digit (or nothing) is
/// the digit sequence itself.
pub proof fn lemma_digit_run_concat(a: Seq<char>, b: Seq<char>)
    requires
        all_digits(a),
        b.len() == 0 || !is_digit_char(b[0]),
    ensures
        digit_run_len(a + b) == a.len(),
    decreases a.len(),
{
    if a.len() == 0 {
        assert(a + b =~= b);
    } else {
        assert((a + b)[0] == a[0]);
        assert((a + b).drop_first() =~= a.drop_first() + b);
        lemma_digit_run_concat(a.drop_first(), b);
    }
}

/// Tokenizing a human path string: a single uppercase letter stands for its
/// alphabet position, a digit run for its decimal value, and a `/` merely
/// separates two adjacent digit runs.  `None` on any other character, or on a
/// digit run whose value does not fit a `u32`.
pub open spec fn parse_human(s: Seq<char>) -> Option<Seq<u32>>
    decreases s.len(),
    via parse_human_decreases
{
    if s.len() == 0 {
        Some(Seq::<u32>::empty())
    } else if is_upper_char(s[0]) {
        match parse_human(s.drop_first()) {
            Some(rest) => Some(seq![(s[0] as u32 - 65) as u32] + rest),
            None => None,
        }
    } else if is_digit_char(s[0]) {
        let k = digit_run_len(s);
        let v = dec_val(s.take(k));
        if v > u32::MAX {
            None
        } else {
            match parse_human(s.skip(k)) {
                Some(rest) => Some(seq![v as u32] + rest),
                None => None,
            }
        }
    } else if s[0] == '/' && s.len() >= 2 && is_digit_char(s[1]) {
        let t = s.drop_first();
        let k = digit_run_len(t);
        let v = dec_val(t.take(k));
        if v > u32::MAX {
            None
        } else {
            match parse_human(t.skip(k)) {
                Some(rest) => Some(seq![v as u32] + rest),
                None => None,
            }
        }
    } else {
        None
    }
}

#[via_fn]
proof fn parse_human_decreases(s: Seq<char>) {
    lemma_digit_run_len_bounds(s);
    if s.len() > 0 {
        lemma_digit_run_len_bounds(s.drop_first());
    }
}

/// Decoding inverts encoding: the human rendering of any path parses back to
/// exactly that path.
pub proof fn lemma_human_round_trip(p: Seq<u32>)
    ensures
        parse_human(human_of(p)) == Some(p),
{
    lemma_human_round_trip_rec(p, false);
}

proof fn lemma_human_round_trip_rec(p: Seq<u32>, last_num: bool)
    ensures
        parse_human(human_rec(p, last_num)) == Some(p),
    decreases p.len(),
{
    if p.len() == 0 {
        assert(parse_human(human_rec(p, last_num)) == Some(Seq::<u32>::empty()));
        assert(Seq::<u32>::empty() =~= p);
    } else if p[0] < 26 {
        let s = human_rec(p, last_num);
        let rest_s = human_rec(p.drop_first(), false);
        lemma_human_round_trip_rec(p.drop_first(), false);
        assert(s[0] == letter_char(p[0] as int));
        assert(is_upper_char(s[0]));
        assert(s.drop_first() =~= rest_s);
        assert((s[0] as u32 - 65) as u32 == p[0]);
        assert(parse_human(s) == Some(seq![p[0]] + p.drop_first()));
        assert(seq![p[0]] + p.drop_first() =~= p);
    } else {
        let d = dec_str(p[0] as int);
        let tail = human_rec(p.drop_first(), true);
        crate::chars::lemma_dec_round_trip(p[0] as int);
        lemma_human_round_trip_rec(p.drop_first(), true);
        // the tail never starts with a digit
        assert(tail.len() > 0 ==> !is_digit_char(tail[0])) by {
            if p.drop_first().len() > 0 {
                let q = p.drop_first();
                if q[0] < 26 {
                    assert(tail[0] == letter_char(q[0] as int));
                } else {
                    assert(tail[0] == '/');
                }
            }
        }
        lemma_digit_run_concat(d, tail);
        if last_num {
            let s = human_rec(p, last_num);
            assert(s =~= seq!['/'] + (d + tail));
            assert(!is_upper_char(s[0]) && !is_digit_char(s[0]));
            assert(s[0] == '/');
            let t = s.drop_first();
            assert(t =~= d + tail);
            assert(s.len() >= 2 && is_digit_char(s[1])) by {
                assert(t[0] == d[0]);
            }
            let k = digit_run_len(t);
            assert(k == d.len());
            assert(t.take(k) =~= d);
            assert(t.skip(k) =~= tail);
            assert(dec_val(t.take(k)) == p[0] as int);
            assert(parse_human(s) == Some(seq![p[0]] + p.drop_first()));
            assert(seq![p[0]] + p.drop_first() =~= p);
        } else {
            let s = human_rec(p, last_num);
            assert(s =~= d + tail);
            assert(s[0] == d[0]);
            assert(is_digit_char(s[0]));
            assert(!is_upper_char(s[0]));
            let k = digit_run_len(s);
            assert(k == d.len());
            assert(s.take(k) =~= d);
            assert(s.skip(k) =~= tail);
            assert(dec_val(s.take(k)) == p[0] as int);
            assert(parse_human(s) == Some(seq![p[0]] + p.drop_first()));
            assert(seq![p[0]] + p.drop_first() =~= p);
        }
    }
}

/// Prepends `pre` to a parse result, keeping failure as failure.
pub open spec fn opt_prepend(pre: Seq<u32>, o: Option<Seq<u32>>) -> Option<Seq<u32>> {
    match o {
        Some(r) => Some(pre + r),
        None => None,
    }
}

/// A directory path: decimal segments separated by `/`, empty segments
/// ignored.  `None` if any non-empty segment is not a decimal number fitting
/// a `u32`.
pub open spec fn parse_dir_path(s: Seq<char>) -> Option<Seq<u32>> {
    let pieces = split_on(s, '/');
    if forall|k: int| 0 <= k < pieces.len() ==> dir_seg_ok(#[trigger] pieces[k]) {
        Some(seg_values(pieces))
    } else {
        None
    }
}

/// An acceptable directory segment: empty, or all digits with a value that
/// fits a `u32`.
pub open spec fn dir_seg_ok(p: Seq<char>) -> bool {
    p.len() == 0 || (all_digits(p) && dec_val(p) <= u32::MAX)
}

/// The values of the non-empty segments, in order.
pub open spec fn seg_values(pieces: Seq<Seq<char>>) -> Seq<u32>
    decreases pieces.len(),
{
    if pieces.len() == 0 {
        Seq::<u32>::empty()
    } else if pieces[0].len() == 0 {
        seg_values(pieces.drop_first())
    } else {
        seq![dec_val(pieces[0]) as u32] + seg_values(pieces.drop_first())
    }
}

proof fn lemma_seg_values_concat(a: Seq<Seq<char>>, b: Seq<Seq<char>>)
    ensures
        seg_values(a + b) == seg_values(a) + seg_values(b),
    decreases a.len(),
{
    if a.len() == 0 {
        assert(a + b =~= b);
        assert(seg_values(a) + seg_values(b) =~= seg_values(b));
    } else {
        assert((a + b).drop_first() =~= a.drop_first() + b);
        assert((a + b)[0] == a[0]);
        lemma_seg_values_concat(a.drop_first(), b);
        if a[0].len() == 0 {
            assert(seg_values(a + b) =~= seg_values(a) + seg_values(b));
        } else {
            assert(seg_values(a + b) =~= seg_values(a) + seg_values(b));
        }
    }
}

/// Whether `c` is an ASCII digit.
fn is_digit(c: char) -> (r: bool)
    ensures
        r == is_digit_char(c),
{
    let u: u32 = c as u32;
    48 <= u && u <= 57
}

/// The end of the digit run beginning at `start`: the first index at or
/// after `start` holding a non-digit, or the length of `cv`.
fn digit_run_end(cv: &Vec<char>, start: usize) -> (j: usize)
    requires
        start <= cv@.len(),
    ensures
        start <= j <= cv@.len(),
        forall|l: int| start <= l < j ==> is_digit_char(#[trigger] cv@[l]),
        j < cv@.len() ==> !is_digit_char(cv@[j as int]),
{
    let mut j: usize = start;
    while j < cv.len() && is_digit(cv[j])
        invariant
            start <= j <= cv@.len(),
            forall|l: int| start <= l < j ==> is_digit_char(#[trigger] cv@[l]),
        decreases cv@.len() - j,
    {
        j = j + 1;
    }
    j
}

impl TreePath {
    /// The empty path: the root of the tree.
    pub fn new() -> (r: TreePath)
        ensures
            r@ == Seq::<u32>::empty(),
    {
        TreePath { components: Vec::new() }
    }

    /// A path from a ready component vector.
    pub fn from_components(components: Vec<u32>) -> (r: TreePath)
        ensures
            r@ == components@,
    {
        TreePath { components }
    }

    /// The reserved sentinel path used as a temporary parking spot while
    /// reordering: a single component that ordinary nodes never use.
    pub fn temp_path() -> (r: TreePath)
        ensures
            r@ == seq![u32::MAX],
    {
        let mut components: Vec<u32> = Vec::new();
        components.push(u32::MAX);
        proof {
            assert(components@ =~= seq![u32::MAX]);
        }
        TreePath { components }
    }

    /// Number of components.
    pub fn len(&self) -> (r: usize)
        ensures
            r == self@.len(),
    {
        self.components.len()
    }

    /// Whether this is the root path.
    pub fn is_empty(&self) -> (r: bool)
        ensures
            r == (self@.len() == 0),
    {
        self.components.is_empty()
    }

    /// The components, for read access.
    pub fn iter(&self) -> (r: &Vec<u32>)
        ensures
            r@ == self@,
    {
        &self.components
    }

    /// An owned copy of this path.
    pub fn duplicate(&self) -> (r: TreePath)
        ensures
            r@ == self@,
    {
        let mut components: Vec<u32> = Vec::new();
        let mut i: usize = 0;
        while i < self.components.len()
            invariant
                i <= self@.len(),
                components@ == self@.subrange(0, i as int),
            decreases self@.len() - i,
        {
            components.push(self.components[i]);
            assert(components@ =~= self@.subrange(0, i + 1 as int));
            i = i + 1;
        }
        assert(components@ =~= self@);
        TreePath { components }
    }

    /// This path followed by all components of `other`.
    pub fn concat(&self, other: &TreePath) -> (r: TreePath)
        ensures
            r@ == self@ + other@,
    {
        let mut r = self.duplicate();
        let mut i: usize = 0;
        while i < other.components.len()
            invariant
                i <= other@.len(),
                r@ == self@ + other@.subrange(0, i as int),
            decreases other@.len() - i,
        {
            r.components.push(other.components[i]);
            assert(r@ =~= self@ + other@.subrange(0, i + 1 as int));
            i = i + 1;
        }
        assert(r@ =~= self@ + other@);
        r
    }

    /// Appends one component in place.
    pub fn push(&mut self, other: u32)
        ensures
            final(self)@ == old(self)@.push(other),
    {
        self.components.push(other);
    }

    /// Removes and returns the last component, if any.
    pub fn pop(&mut self) -> (r: Option<u32>)
        ensures
            old(self)@.len() == 0 ==> r is None && final(self)@ == old(self)@,
            old(self)@.len() > 0 ==> r == Some(old(self)@.last()) && final(self)@ == old(
                self,
            )@.drop_last(),
    {
        self.components.pop()
    }

    /// This path extended by one more component.
    pub fn append(&self, other: u32) -> (r: TreePath)
        ensures
            r@ == self@.push(other),
    {
        let mut r = self.duplicate();
        r.components.push(other);
        r
    }

    /// The path one level up; the root is its own parent.
    pub fn parent(&self) -> (r: TreePath)
        ensures
            self@.len() == 0 ==> r@ == self@,
            self@.len() > 0 ==> r@ == self@.drop_last(),
    {
        let mut r = self.duplicate();
        r.components.pop();
        r
    }

    /// Whether `other` is an ancestor of this path, or this path itself.
    pub fn starts_with(&self, other: &TreePath) -> (r: bool)
        ensures
            r == is_prefix_of(other@, self@),
    {
        if other.components.len() > self.components.len() {
            proof {
                assert(!is_prefix_of(other@, self@));
            }
            return false;
        }
        let mut i: usize = 0;
        while i < other.components.len()
            invariant
                i <= other@.len() <= self@.len(),
                forall|j: int| 0 <= j < i ==> self@[j] == other@[j],
            decreases other@.len() - i,
        {
            if self.components[i] != other.components[i] {
                proof {
                    assert(self@.subrange(0, other@.len() as int)[i as int] != other@[i as int]);
                }
                return false;
            }
            i = i + 1;
        }
        proof {
            assert(self@.subrange(0, other@.len() as int) =~= other@);
        }
        true
    }

    /// Whether this path ends in the components of `other`.
    pub fn ends_with(&self, other: &TreePath) -> (r: bool)
        ensures
            r == (other@.len() <= self@.len() && self@.subrange(
                self@.len() - other@.len(),
                self@.len() as int,
            ) == other@),
    {
        if other.components.len() > self.components.len() {
            return false;
        }
        let off: usize = self.components.len() - other.components.len();
        let mut i: usize = 0;
        while i < other.components.len()
            invariant
                i <= other@.len(),
                off == self@.len() - other@.len(),
                other@.len() <= self@.len(),
                self@.len() <= usize::MAX,
                forall|j: int| 0 <= j < i ==> self@[off + j] == other@[j],
            decreases other@.len() - i,
        {
            if self.components[off + i] != other.components[i] {
                proof {
                    assert(self@.subrange(off as int, self@.len() as int)[i as int] != other@[i as int]);
                }
                return false;
            }
            i = i + 1;
        }
        proof {
            assert(self@.subrange(off as int, self@.len() as int) =~= other@);
        }
        true
    }

    /// Three-way comparison in the path order.
    pub fn compare(&self, other: &TreePath) -> (r: Rank)
        ensures
            r == Rank::Less <==> path_lt(self@, other@),
            r == Rank::Greater <==> path_lt(other@, self@),
            r == Rank::Equal <==> self@ == other@,
    {
        proof {
            lemma_path_lt_trichotomy(self@, other@);
            assert(self@.skip(0) =~= self@);
            assert(other@.skip(0) =~= other@);
        }
        let mut i: usize = 0;
        loop
            invariant
                i <= self@.len(),
                i <= other@.len(),
                path_lt(self@, other@) == path_lt(self@.skip(i as int), other@.skip(i as int)),
                path_lt(other@, self@) == path_lt(other@.skip(i as int), self@.skip(i as int)),
                forall|j: int| 0 <= j < i ==> self@[j] == other@[j],
            decreases self@.len() - i,
        {
            let ghost ra = self@.skip(i as int);
            let ghost rb = other@.skip(i as int);
            if i >= self.components.len() && i >= other.components.len() {
                proof {
                    assert(ra =~= Seq::<u32>::empty());
                    assert(rb =~= Seq::<u32>::empty());
                    assert(self@ =~= other@);
                }
                return Rank::Equal;
            }
            if i >= self.components.len() {
                proof {
                    assert(ra =~= Seq::<u32>::empty());
                    assert(rb.len() > 0);
                    lemma_path_lt_trichotomy(self@, other@);
                }
                return Rank::Less;
            }
            if i >= other.components.len() {
                proof {
                    assert(rb =~= Seq::<u32>::empty());
                    assert(ra.len() > 0);
                    lemma_path_lt_trichotomy(self@, other@);
                }
                return Rank::Greater;
            }
            let ca: u32 = self.components[i];
            let cb: u32 = other.components[i];
            proof {
                assert(ra[0] == self@[i as int]);
                assert(rb[0] == other@[i as int]);
            }
            if ca < cb {
                proof {
                    lemma_path_lt_trichotomy(self@, other@);
                }
                return Rank::Less;
            }
            if ca > cb {
                proof {
                    lemma_path_lt_trichotomy(self@, other@);
                }
                return Rank::Greater;
            }
            proof {
                assert(ra.drop_first() =~= self@.skip(i + 1 as int));
                assert(rb.drop_first() =~= other@.skip(i + 1 as int));
            }
            i = i + 1;
        }
    }

    /// The compact human-readable rendering of this path.
    pub fn to_human(&self) -> (r: String)
        ensures
            r@ == human_of(self@),
    {
        let mut out: Vec<char> = Vec::new();
        let mut last_was_number = false;
        let mut i: usize = 0;
        proof {
            assert(self@.skip(0) =~= self@);
        }
        while i < self.components.len()
            invariant
                i <= self@.len(),
                human_of(self@) == out@ + human_rec(self@.skip(i as int), last_was_number),
                i == 0 ==> !last_was_number,
            decreases self@.len() - i,
        {
            let c = self.components[i];
            let ghost rem = self@.skip(i as int);
            proof {
                assert(rem[0] == self@[i as int]);
                assert(rem.drop_first() =~= self@.skip(i + 1 as int));
            }
            if c < 26 {
                let ch: char = (65u8 + c as u8) as char;
                proof {
                    assert(ch == letter_char(c as int));
                }
                let ghost prev = out@;
                out.push(ch);
                proof {
                    assert(human_rec(rem, last_was_number) =~= seq![ch] + human_rec(
                        self@.skip(i + 1 as int),
                        false,
                    ));
                    assert(prev + human_rec(rem, last_was_number) =~= out@ + human_rec(
                        self@.skip(i + 1 as int),
                        false,
                    ));
                }
                last_was_number = false;
            } else {
                if last_was_number {
                    out.push('/');
                }
                let ghost mid = out@;
                push_u32_decimal(&mut out, c);
                proof {
                    if last_was_number {
                        assert(human_rec(rem, true) =~= seq!['/'] + dec_str(c as int) + human_rec(
                            self@.skip(i + 1 as int),
                            true,
                        ));
                        assert(out@ =~= mid + dec_str(c as int));
                        assert(human_of(self@) == out@ + human_rec(self@.skip(i + 1 as int), true));
                    } else {
                        assert(human_rec(rem, false) =~= dec_str(c as int) + human_rec(
                            self@.skip(i + 1 as int),
                            true,
                        ));
                        assert(human_of(self@) == out@ + human_rec(self@.skip(i + 1 as int), true));
                    }
                }
                last_was_number = true;
            }
            i = i + 1;
        }
        proof {
            assert(self@.skip(self@.len() as int) =~= Seq::<u32>::empty());
            assert(human_rec(Seq::<u32>::empty(), last_was_number) =~= Seq::<char>::empty());
            assert(out@ =~= human_of(self@));
        }
        chars_to_string(&out)
    }

    /// Decodes a human path rendering; the exact inverse of `to_human`.
    pub fn from_human(path: &str) -> (r: Result<TreePath, StoreError>)
        ensures
            match r {
                Ok(p) => parse_human(path@) == Some(p@),
                Err(e) => parse_human(path@) is None && e == StoreError::ParseError,
            },
    {
        let cv = str_to_chars(path);
        let n: usize = cv.len();
        let mut res: Vec<u32> = Vec::new();
        let mut i: usize = 0;
        proof {
            assert(cv@.skip(0) =~= cv@);
            match parse_human(cv@) {
                Some(r) => {
                    assert(Seq::<u32>::empty() + r =~= r);
                },
                None => {},
            }
        }
        while i < n
            invariant
                i <= n,
                n == cv@.len(),
                cv@ == path@,
                parse_human(cv@) == opt_prepend(res@, parse_human(cv@.skip(i as int))),
            decreases n - i,
        {
            let c = cv[i];
            let cu: u32 = c as u32;
            let ghost rem = cv@.skip(i as int);
            proof {
                assert(rem[0] == cv@[i as int]);
                assert(rem.drop_first() =~= cv@.skip(i + 1 as int));
            }
            if 65 <= cu && cu <= 90 {
                let v: u32 = cu - 65;
                let ghost old_res = res@;
                res.push(v);
                proof {
                    lemma_opt_prepend_step(old_res, v, parse_human(cv@.skip(i + 1 as int)));
                    assert(parse_human(rem) == opt_prepend(
                        seq![v],
                        parse_human(cv@.skip(i + 1 as int)),
                    ));
                }
                i = i + 1;
            } else if 48 <= cu && cu <= 57 {
                let j: usize = digit_run_end(&cv, i);
                let run = chars_range(&cv, i, j);
                proof {
                    assert(all_digits(run@));
                    assert(rem =~= run@ + cv@.skip(j as int));
                    if j < n {
                        assert(cv@.skip(j as int)[0] == cv@[j as int]);
                        assert(!is_digit_char(cv@.skip(j as int)[0]));
                    } else {
                        assert(cv@.skip(j as int) =~= Seq::<char>::empty());
                    }
                    lemma_digit_run_concat(run@, cv@.skip(j as int));
                    assert(digit_run_len(rem) == j - i);
                    assert(rem.take(j - i) =~= run@);
                    assert(rem.skip(j - i) =~= cv@.skip(j as int));
                }
                match chars_to_u32(&run) {
                    Some(v) => {
                        let ghost old_res = res@;
                        res.push(v);
                        proof {
                            lemma_opt_prepend_step(old_res, v, parse_human(cv@.skip(j as int)));
                        }
                        i = j;
                    },
                    None => {
                        proof {
                            assert(run@.len() >= 1);
                            assert(dec_val(run@) > u32::MAX);
                            assert(parse_human(rem) is None);
                        }
                        return Err(StoreError::ParseError);
                    },
                }
            } else if c == '/' && i + 1 < n && is_digit(cv[i + 1]) {
                let j: usize = digit_run_end(&cv, i + 1);
                let run = chars_range(&cv, i + 1, j);
                let ghost t = rem.drop_first();
                proof {
                    assert(!is_upper_char(rem[0]) && !is_digit_char(rem[0]));
                    assert(rem.len() >= 2 && rem[1] == cv@[i + 1]);
                    assert(is_digit_char(rem[1]));
                    assert(all_digits(run@));
                    assert(t =~= run@ + cv@.skip(j as int));
                    if j < n {
                        assert(cv@.skip(j as int)[0] == cv@[j as int]);
                        assert(!is_digit_char(cv@.skip(j as int)[0]));
                    } else {
                        assert(cv@.skip(j as int) =~= Seq::<char>::empty());
                    }
                    lemma_digit_run_concat(run@, cv@.skip(j as int));
                    assert(digit_run_len(t) == j - (i + 1));
                    assert(t.take(j - (i + 1)) =~= run@);
                    assert(t.skip(j - (i + 1)) =~= cv@.skip(j as int));
                }
                match chars_to_u32(&run) {
                    Some(v) => {
                        let ghost old_res = res@;
                        res.push(v);
                        proof {
                            lemma_opt_prepend_step(old_res, v, parse_human(cv@.skip(j as int)));
                        }
                        i = j;
                    },
                    None => {
                        proof {
                            assert(run@.len() >= 1);
                            assert(dec_val(run@) > u32::MAX);
                            assert(parse_human(rem) is None);
                        }
                        return Err(StoreError::ParseError);
                    },
                }
            } else {
                proof {
                    assert(parse_human(rem) is None);
                }
                return Err(StoreError::ParseError);
            }
        }
        proof {
            assert(cv@.skip(n as int) =~= Seq::<char>::empty());
            assert(parse_human(cv@) == Some(res@ + Seq::<u32>::empty()));
            assert(res@ + Seq::<u32>::empty() =~= res@);
        }
        Ok(TreePath { components: res })
    }

    /// Parses a relative directory path whose segments are the decimal
    /// component values; empty segments are ignored.
    pub fn from_file_path(file_path: &str) -> (r: Result<TreePath, StoreError>)
        ensures
            match r {
                Ok(p) => parse_dir_path(file_path@) == Some(p@),
                Err(e) => parse_dir_path(file_path@) is None && e == StoreError::ParseError,
            },
    {
        let cv = str_to_chars(file_path);
        let pieces = split_on_char(&cv, '/');
        let mut res: Vec<u32> = Vec::new();
        let mut i: usize = 0;
        proof {
            assert(pieces.deep_view().take(0) =~= Seq::<Seq<char>>::empty());
            assert(res@ =~= seg_values(pieces.deep_view().take(0)));
        }
        while i < pieces.len()
            invariant
                i <= pieces@.len(),
                pieces.deep_view() == split_on(cv@, '/'),
                cv@ == file_path@,
                forall|k: int| 0 <= k < i ==> dir_seg_ok(#[trigger] pieces.deep_view()[k]),
                res@ == seg_values(pieces.deep_view().take(i as int)),
            decreases pieces@.len() - i,
        {
            let ghost dv = pieces.deep_view();
            let piece = &pieces[i];
            proof {
                assert(dv[i as int] =~= pieces@[i as int]@);
                assert(dv.take(i + 1 as int).drop_last() =~= dv.take(i as int));
                assert(dv.take(i + 1 as int) =~= dv.take(i as int) + seq![dv[i as int]]);
                lemma_seg_values_concat(dv.take(i as int), seq![dv[i as int]]);
            }
            if piece.len() == 0 {
                proof {
                    assert(dv[i as int] =~= piece@);
                    assert(seq![dv[i as int]].drop_first() =~= Seq::<Seq<char>>::empty());
                    assert(seg_values(Seq::<Seq<char>>::empty()) =~= Seq::<u32>::empty());
                    assert(seg_values(seq![dv[i as int]]) =~= Seq::<u32>::empty());
                    assert(res@ + Seq::<u32>::empty() =~= res@);
                    assert(res@ =~= seg_values(dv.take(i + 1 as int)));
                }
            } else {
                match chars_to_u32(piece) {
                    Some(v) => {
                        res.push(v);
                        proof {
                            assert(dv[i as int] =~= piece@);
                            assert(seq![dv[i as int]].drop_first() =~= Seq::<Seq<char>>::empty());
                            assert(seg_values(Seq::<Seq<char>>::empty()) =~= Seq::<u32>::empty());
                            assert(seg_values(seq![dv[i as int]]) =~= seq![v]);
                            assert(res@ =~= seg_values(dv.take(i + 1 as int)));
                        }
                    },
                    None => {
                        proof {
                            assert(!dir_seg_ok(dv[i as int]));
                        }
                        return Err(StoreError::ParseError);
                    },
                }
            }
            i = i + 1;
        }
        proof {
            assert(pieces.deep_view().take(pieces@.len() as int) =~= pieces.deep_view());
        }
        Ok(TreePath { components: res })
    }

    /// Parses a `/`-separated decimal component list; every segment must be a
    /// decimal number, and empty segments are malformed.
    pub fn from_str(input: &str) -> (r: Result<TreePath, StoreError>)
        ensures
            match r {
                Ok(p) => parse_slash_path(input@) == Some(p@),
                Err(e) => parse_slash_path(input@) is None && e == StoreError::ParseError,
            },
    {
        let cv = str_to_chars(input);
        let pieces = split_on_char(&cv, '/');
        let mut res: Vec<u32> = Vec::new();
        let mut i: usize = 0;
        proof {
            assert(pieces.deep_view().take(0) =~= Seq::<Seq<char>>::empty());
            assert(res@ =~= strict_seg_values(pieces.deep_view().take(0)));
        }
        while i < pieces.len()
            invariant
                i <= pieces@.len(),
                pieces.deep_view() == split_on(cv@, '/'),
                cv@ == input@,
                forall|k: int|
                    0 <= k < i ==> {
                        let p = #[trigger] pieces.deep_view()[k];
                        p.len() >= 1 && all_digits(p) && dec_val(p) <= u32::MAX
                    },
                res@ == strict_seg_values(pieces.deep_view().take(i as int)),
            decreases pieces@.len() - i,
        {
            let ghost dv = pieces.deep_view();
            let piece = &pieces[i];
            proof {
                assert(dv[i as int] =~= pieces@[i as int]@);
                assert(dv.take(i + 1 as int) =~= dv.take(i as int) + seq![dv[i as int]]);
                lemma_strict_seg_values_concat(dv.take(i as int), seq![dv[i as int]]);
            }
            match chars_to_u32(piece) {
                Some(v) => {
                    res.push(v);
                    proof {
                        assert(dv[i as int] =~= piece@);
                        assert(seq![dv[i as int]].drop_first() =~= Seq::<Seq<char>>::empty());
                        assert(strict_seg_values(Seq::<Seq<char>>::empty()) =~= Seq::<u32>::empty());
                        assert(strict_seg_values(seq![dv[i as int]]) =~= seq![v]);
                        assert(res@ =~= strict_seg_values(dv.take(i + 1 as int)));
                    }
                },
                None => {
                    return Err(StoreError::ParseError);
                },
            }
            i = i + 1;
        }
        proof {
            assert(pieces.deep_view().take(pieces@.len() as int) =~= pieces.deep_view());
        }
        Ok(TreePath { components: res })
    }

    /// The decimal rendering of the components joined by `/`, as the
    /// commit messages and directory layout use it.
    pub fn display(&self) -> (r: String)
        ensures
            r@ == display_of(self@),
    {
        let mut out: Vec<char> = Vec::new();
        let mut i: usize = 0;
        proof {
            assert(self@.skip(0) =~= self@);
        }
        while i < self.components.len()
            invariant
                i <= self@.len(),
                display_of(self@) == out@ + display_rec(self@.skip(i as int), i > 0),
            decreases self@.len() - i,
        {
            let ghost rem = self@.skip(i as int);
            proof {
                assert(rem[0] == self@[i as int]);
                assert(rem.drop_first() =~= self@.skip(i + 1 as int));
            }
            if i > 0 {
                out.push('/');
            }
            push_u32_decimal(&mut out, self.components[i]);
            proof {
                assert(display_of(self@) == out@ + display_rec(self@.skip(i + 1 as int), true));
            }
            i = i + 1;
        }
        proof {
            assert(self@.skip(self@.len() as int) =~= Seq::<u32>::empty());
            assert(out@ =~= display_of(self@));
        }
        chars_to_string(&out)
    }
}

proof fn lemma_opt_prepend_step(pre: Seq<u32>, v: u32, o: Option<Seq<u32>>)
    ensures
        opt_prepend(pre, opt_prepend(seq![v], o)) == opt_prepend(pre.push(v), o),
{
    match o {
        Some(r) => {
            assert(pre + (seq![v] + r) =~= pre.push(v) + r);
        },
        None => {},
    }
}

/// A `/`-separated strict segment list: every segment must be a non-empty
/// digit run fitting a `u32`.
pub open spec fn parse_slash_path(s: Seq<char>) -> Option<Seq<u32>> {
    let pieces = split_on(s, '/');
    if forall|k: int|
        0 <= k < pieces.len() ==> {
            let p = #[trigger] pieces[k];
            p.len() >= 1 && all_digits(p) && dec_val(p) <= u32::MAX
        } {
        Some(strict_seg_values(pieces))
    } else {
        None
    }
}

/// The values of all segments, in order.
pub open spec fn strict_seg_values(pieces: Seq<Seq<char>>) -> Seq<u32>
    decreases pieces.len(),
{
    if pieces.len() == 0 {
        Seq::<u32>::empty()
    } else {
        seq![dec_val(pieces[0]) as u32] + strict_seg_values(pieces.drop_first())
    }
}

proof fn lemma_strict_seg_values_concat(a: Seq<Seq<char>>, b: Seq<Seq<char>>)
    ensures
        strict_seg_values(a + b) == strict_seg_values(a) + strict_seg_values(b),
    decreases a.len(),
{
    if a.len() == 0 {
        assert(a + b =~= b);
        assert(strict_seg_values(a) + strict_seg_values(b) =~= strict_seg_values(b));
    } else {
        assert((a + b).drop_first() =~= a.drop_first() + b);
        assert((a + b)[0] == a[0]);
        lemma_strict_seg_values_concat(a.drop_first(), b);
        assert(strict_seg_values(a + b) =~= strict_seg_values(a) + strict_seg_values(b));
    }
}

/// The components rendered in decimal and joined by `/`.
pub open spec fn display_of(p: Seq<u32>) -> Seq<char> {
    display_rec(p, false)
}

/// The on-disk directory for the node at `p` under the base directory: the
/// base itself for the root, else the base joined with each component's
/// decimal name.
pub open spec fn dir_of_spec(base: Seq<char>, p: Seq<u32>) -> Seq<char> {
    if p.len() == 0 {
        base
    } else {
        base + seq!['/'] + display_of(p)
    }
}

/// The join, tracking whether a separator is owed before the next component.
pub open spec fn display_rec(p: Seq<u32>, sep_before: bool) -> Seq<char>
    decreases p.len(),
{
    if p.len() == 0 {
        Seq::<char>::empty()
    } else if sep_before {
        seq!['/'] + dec_str(p[0] as int) + display_rec(p.drop_first(), true)
    } else {
        dec_str(p[0] as int) + display_rec(p.drop_first(), true)
    }
}

} // verus!
