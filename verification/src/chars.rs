//! Character-level helpers shared by the path codec and the text parsing
//! routines: classification of digits and letters, the decimal rendering of
//! integers, and conversions between `String` and `Vec<char>`.

use vstd::prelude::*;

verus! {

/// `c` is an ASCII decimal digit.
pub open spec fn is_digit_char(c: char) -> bool {
    48 <= c as u32 <= 57
}

/// `c` is an ASCII uppercase letter.
pub open spec fn is_upper_char(c: char) -> bool {
    65 <= c as u32 <= 90
}

/// Numeric value of an ASCII digit.
pub open spec fn digit_val(c: char) -> int {
    c as u32 - 48
}

/// The digit character for a value in `[0, 10)`.
pub open spec fn digit_char(d: int) -> char {
    ((48 + d) as u32) as char
}

/// The uppercase letter for a value in `[0, 26)`.
pub open spec fn letter_char(v: int) -> char {
    ((65 + v) as u32) as char
}

/// Decimal rendering of a non-negative integer, without leading zeros.
pub open spec fn dec_str(n: int) -> Seq<char>
    decreases n,
{
    if n < 10 {
        seq![digit_char(n)]
    } else {
        dec_str(n / 10) + seq![digit_char(n % 10)]
    }
}

/// Value of a digit sequence read as a decimal number.
pub open spec fn dec_val(s: Seq<char>) -> int
    decreases s.len(),
{
    if s.len() == 0 {
        0
    } else {
        dec_val(s.drop_last()) * 10 + digit_val(s.last())
    }
}

/// Characters with equal code points are equal characters.
pub proof fn lemma_char_code_eq(c1: char, c2: char)
    requires
        c1 as u32 == c2 as u32,
    ensures
        c1 == c2,
{
    vstd::utf8::char_u32_cast(c1, c1 as u32);
    vstd::utf8::char_u32_cast(c2, c2 as u32);
}

/// Every character of `s` is an ASCII digit.
pub open spec fn all_digits(s: Seq<char>) -> bool {
    forall|i: int| 0 <= i < s.len() ==> is_digit_char(#[trigger] s[i])
}

proof fn lemma_dec_str_digits(n: int)
    requires
        n >= 0,
    ensures
        dec_str(n).len() >= 1,
        all_digits(dec_str(n)),
    decreases n,
{
    if n < 10 {
        assert(is_digit_char(digit_char(n)));
    } else {
        lemma_dec_str_digits(n / 10);
        assert(is_digit_char(digit_char(n % 10)));
        assert forall|i: int| 0 <= i < dec_str(n).len() implies is_digit_char(
            #[trigger] dec_str(n)[i],
        ) by {
            if i < dec_str(n / 10).len() {
                assert(dec_str(n)[i] == dec_str(n / 10)[i]);
            }
        }
    }
}

/// Reading back the decimal rendering of `n` gives `n` again.
pub proof fn lemma_dec_round_trip(n: int)
    requires
        n >= 0,
    ensures
        dec_val(dec_str(n)) == n,
        dec_str(n).len() >= 1,
        all_digits(dec_str(n)),
    decreases n,
{
    lemma_dec_str_digits(n);
    if n < 10 {
        assert(dec_str(n) =~= seq![digit_char(n)]);
        assert(dec_str(n).drop_last() =~= Seq::<char>::empty());
        assert(dec_str(n).last() == digit_char(n));
        assert(dec_val(Seq::<char>::empty()) == 0);
        assert(dec_val(dec_str(n)) == dec_val(dec_str(n).drop_last()) * 10 + digit_val(
            dec_str(n).last(),
        ));
        assert(dec_val(dec_str(n)) == digit_val(digit_char(n)));
    } else {
        lemma_dec_round_trip(n / 10);
        assert(dec_str(n).drop_last() =~= dec_str(n / 10));
        assert(dec_str(n).last() == digit_char(n % 10));
        assert(digit_val(digit_char(n % 10)) == n % 10);
    }
}

/// Relies on `String::push`: appends one character at the end.
#[verifier::external_body]
pub fn push_char(s: &mut String, c: char)
    ensures
        final(s)@ == old(s)@.push(c),
{
    s.push(c);
}

/// The characters of `s`, as a vector.
pub fn str_to_chars(s: &str) -> (r: Vec<char>)
    ensures
        r@ == s@,
{
    let n: usize = s.unicode_len();
    let mut r: Vec<char> = Vec::new();
    let mut i: usize = 0;
    while i < n
        invariant
            n == s@.len(),
            i <= n,
            r@ == s@.subrange(0, i as int),
        decreases n - i,
    {
        r.push(s.get_char(i));
        assert(r@ =~= s@.subrange(0, i + 1 as int));
        i = i + 1;
    }
    assert(r@ =~= s@);
    r
}

/// A `String` holding exactly the characters of `v`.
pub fn chars_to_string(v: &Vec<char>) -> (r: String)
    ensures
        r@ == v@,
{
    let mut r = String::new();
    let mut i: usize = 0;
    while i < v.len()
        invariant
            i <= v.len(),
            r@ == v@.subrange(0, i as int),
        decreases v.len() - i,
    {
        push_char(&mut r, v[i]);
        assert(r@ =~= v@.subrange(0, i + 1 as int));
        i = i + 1;
    }
    assert(r@ =~= v@);
    r
}

/// Appends the decimal rendering of `n` to `out`.
pub fn push_u32_decimal(out: &mut Vec<char>, n: u32)
    ensures
        final(out)@ == old(out)@ + dec_str(n as int),
    decreases n,
{
    if n >= 10 {
        push_u32_decimal(out, n / 10);
    }
    let c: char = (48u8 + (n % 10) as u8) as char;
    proof {
        assert(c == digit_char(n as int % 10));
    }
    out.push(c);
    proof {
        if n < 10 {
            assert(dec_str(n as int) =~= seq![digit_char(n as int)]);
            assert(out@ =~= old(out)@ + dec_str(n as int));
        } else {
            assert(dec_str(n as int) =~= dec_str(n as int / 10) + seq![
                digit_char(n as int % 10),
            ]);
            assert(out@ =~= old(out)@ + dec_str(n as int));
        }
    }
}

/// The decimal rendering of `n`, as a `String`.
pub fn u32_to_string(n: u32) -> (r: String)
    ensures
        r@ == dec_str(n as int),
{
    let mut buf: Vec<char> = Vec::new();
    push_u32_decimal(&mut buf, n);
    chars_to_string(&buf)
}

/// Decimal rendering of an integer, with a sign for negative values.
pub open spec fn int_str(n: int) -> Seq<char> {
    if n < 0 {
        seq!['-'] + dec_str(-n)
    } else {
        dec_str(n)
    }
}

/// Appends the signed decimal rendering of `n` to `out`.
pub fn push_i32_decimal(out: &mut Vec<char>, n: i32)
    ensures
        final(out)@ == old(out)@ + int_str(n as int),
{
    if n < 0 {
        out.push('-');
        let m: u32 = (-(n as i64)) as u32;
        proof {
            assert(m as int == -(n as int));
        }
        push_u32_decimal(out, m);
        proof {
            assert(out@ =~= old(out)@ + int_str(n as int));
        }
    } else {
        push_u32_decimal(out, n as u32);
    }
}

/// Index of the first occurrence of `c` in `s`, or `-1` if there is none.
pub open spec fn find_char(s: Seq<char>, c: char) -> int
    decreases s.len(),
{
    if s.len() == 0 {
        -1
    } else if s[0] == c {
        0
    } else {
        let r = find_char(s.drop_first(), c);
        if r == -1 {
            -1
        } else {
            1 + r
        }
    }
}

/// `find_char` returns the least index holding `c`, or `-1` when `c` does not occur.
pub proof fn lemma_find_char(s: Seq<char>, c: char)
    ensures
        find_char(s, c) == -1 ==> forall|i: int| 0 <= i < s.len() ==> s[i] != c,
        find_char(s, c) != -1 ==> {
            &&& 0 <= find_char(s, c) < s.len()
            &&& s[find_char(s, c)] == c
            &&& forall|i: int| 0 <= i < find_char(s, c) ==> s[i] != c
        },
    decreases s.len(),
{
    if s.len() == 0 {
    } else if s[0] == c {
    } else {
        lemma_find_char(s.drop_first(), c);
        let r = find_char(s.drop_first(), c);
        if r == -1 {
            assert forall|i: int| 0 <= i < s.len() implies s[i] != c by {
                if i > 0 {
                    assert(s.drop_first()[i - 1] != c);
                }
            }
        } else {
            assert(s[1 + r] == s.drop_first()[r]);
            assert forall|i: int| 0 <= i < 1 + r implies s[i] != c by {
                if i > 0 {
                    assert(s.drop_first()[i - 1] != c);
                }
            }
        }
    }
}

/// The pieces of `s` between occurrences of the separator `sep`; empty pieces
/// are kept, as `str::split` keeps them.
pub open spec fn split_on(s: Seq<char>, sep: char) -> Seq<Seq<char>>
    decreases s.len(),
    via split_on_decreases
{
    let i = find_char(s, sep);
    if i == -1 {
        seq![s]
    } else {
        seq![s.take(i)] + split_on(s.skip(i + 1), sep)
    }
}

#[via_fn]
proof fn split_on_decreases(s: Seq<char>, sep: char) {
    lemma_find_char(s, sep);
}

/// Splitting on `sep` and re-joining with `sep` is the identity; in particular
/// the pieces carry every character of `s` except the separators.
pub proof fn lemma_split_on_pieces(s: Seq<char>, sep: char)
    ensures
        split_on(s, sep).len() >= 1,
        forall|k: int| #![trigger split_on(s, sep)[k]]
            0 <= k < split_on(s, sep).len() ==> find_char(split_on(s, sep)[k], sep) == -1,
    decreases s.len(),
{
    lemma_find_char(s, sep);
    let i = find_char(s, sep);
    if i == -1 {
    } else {
        lemma_split_on_pieces(s.skip(i + 1), sep);
        lemma_find_char(s.take(i), sep);
        let p = s.take(i);
        if find_char(p, sep) != -1 {
            assert(p[find_char(p, sep)] == sep);
            assert(s[find_char(p, sep)] == sep);
        }
        assert forall|k: int| #![trigger split_on(s, sep)[k]]
            0 <= k < split_on(s, sep).len() implies find_char(split_on(s, sep)[k], sep)
            == -1 by {
            if k > 0 {
                assert(split_on(s, sep)[k] == split_on(s.skip(i + 1), sep)[k - 1]);
            }
        }
    }
}

/// The pieces of `s` between occurrences of `sep`, as vectors.
pub fn split_on_char(s: &Vec<char>, sep: char) -> (r: Vec<Vec<char>>)
    ensures
        r.deep_view() == split_on(s@, sep),
{
    let mut r: Vec<Vec<char>> = Vec::new();
    let mut start: usize = 0;
    let mut i: usize = 0;
    let n: usize = s.len();
    proof {
        assert(s@.skip(0) =~= s@);
        assert(r.deep_view() + split_on(s@.skip(0), sep) =~~= split_on(s@, sep));
    }
    while i < n
        invariant
            start <= i <= n,
            n == s@.len(),
            forall|j: int| start <= j < i ==> s@[j] != sep,
            split_on(s@, sep) == r.deep_view() + split_on(s@.skip(start as int), sep),
        decreases n - i,
    {
        if s[i] == sep {
            let mut piece: Vec<char> = Vec::new();
            let mut k: usize = start;
            while k < i
                invariant
                    start <= k <= i <= n,
                    n == s@.len(),
                    piece@ == s@.subrange(start as int, k as int),
                decreases i - k,
            {
                piece.push(s[k]);
                assert(piece@ =~= s@.subrange(start as int, k + 1 as int));
                k = k + 1;
            }
            proof {
                let rem = s@.skip(start as int);
                lemma_find_char(rem, sep);
                assert(rem[i - start] == sep);
                assert(forall|j: int| 0 <= j < i - start ==> rem[j] == s@[j + start] && rem[j]
                    != sep);
                assert(find_char(rem, sep) == i - start);
                assert(rem.take(i - start) =~= s@.subrange(start as int, i as int));
                assert(rem.skip(i - start + 1) =~= s@.skip(i + 1 as int));
                assert(split_on(rem, sep) == seq![s@.subrange(start as int, i as int)] + split_on(
                    s@.skip(i + 1 as int),
                    sep,
                ));
            }
            let ghost old_deep = r.deep_view();
            r.push(piece);
            proof {
                assert(r.deep_view() =~~= old_deep + seq![s@.subrange(start as int, i as int)]);
                assert(r.deep_view() + split_on(s@.skip(i + 1 as int), sep) =~~= old_deep
                    + split_on(s@.skip(start as int), sep));
                assert(split_on(s@, sep) == r.deep_view() + split_on(s@.skip(i + 1 as int), sep));
            }
            start = i + 1;
        }
        i = i + 1;
    }
    // last piece: no separator from `start` on
    let mut piece: Vec<char> = Vec::new();
    let mut k: usize = start;
    while k < n
        invariant
            start <= k <= n,
            n == s@.len(),
            piece@ == s@.subrange(start as int, k as int),
        decreases n - k,
    {
        piece.push(s[k]);
        assert(piece@ =~= s@.subrange(start as int, k + 1 as int));
        k = k + 1;
    }
    proof {
        let rem = s@.skip(start as int);
        lemma_find_char(rem, sep);
        if find_char(rem, sep) != -1 {
            assert(rem[find_char(rem, sep)] == sep);
            assert(s@[find_char(rem, sep) + start] == sep);
        }
        assert(find_char(rem, sep) == -1);
        assert(piece@ =~= rem);
    }
    let ghost old_deep = r.deep_view();
    r.push(piece);
    proof {
        assert(r.deep_view() =~~= old_deep + seq![s@.skip(start as int)]);
        assert(split_on(s@.skip(start as int), sep) == seq![s@.skip(start as int)]);
        assert(r.deep_view() =~~= split_on(s@, sep));
    }
    r
}

/// The decimal value of `s`, if `s` is a non-empty run of digits whose value
/// fits in a `u32`; `None` otherwise.
pub fn chars_to_u32(s: &Vec<char>) -> (r: Option<u32>)
    ensures
        match r {
            Some(v) => s@.len() >= 1 && all_digits(s@) && dec_val(s@) == v as int,
            None => s@.len() == 0 || !all_digits(s@) || dec_val(s@) > u32::MAX,
        },
{
    if s.len() == 0 {
        return None;
    }
    let mut acc: u64 = 0;
    let mut i: usize = 0;
    let bound: u64 = 4294967296u64;
    while i < s.len()
        invariant
            i <= s@.len(),
            forall|j: int| 0 <= j < i ==> is_digit_char(#[trigger] s@[j]),
            acc <= bound,
            bound == 0x1_0000_0000u64,
            acc as int == if dec_val(s@.subrange(0, i as int)) <= u32::MAX {
                dec_val(s@.subrange(0, i as int))
            } else {
                bound as int
            },
            dec_val(s@.subrange(0, i as int)) >= 0,
        decreases s@.len() - i,
    {
        let c = s[i];
        let cu: u32 = c as u32;
        if cu < 48 || cu > 57 {
            return None;
        }
        let d: u64 = (cu - 48) as u64;
        let ghost pre = s@.subrange(0, i as int);
        let ghost cur = s@.subrange(0, i + 1 as int);
        proof {
            assert(cur.drop_last() =~= pre);
            assert(cur.last() == c);
            assert(dec_val(cur) == dec_val(pre) * 10 + digit_val(c));
        }
        let next: u64 = acc * 10 + d;
        acc = if next > bound {
            bound
        } else {
            next
        };
        i = i + 1;
    }
    proof {
        assert(s@.subrange(0, s@.len() as int) =~= s@);
    }
    if acc > u32::MAX as u64 {
        None
    } else {
        Some(acc as u32)
    }
}

/// Copy of the characters of `s` in positions `[from, to)`.
pub fn chars_range(s: &Vec<char>, from: usize, to: usize) -> (r: Vec<char>)
    requires
        from <= to <= s@.len(),
    ensures
        r@ == s@.subrange(from as int, to as int),
{
    let mut r: Vec<char> = Vec::new();
    let mut k: usize = from;
    while k < to
        invariant
            from <= k <= to <= s@.len(),
            r@ == s@.subrange(from as int, k as int),
        decreases to - k,
    {
        r.push(s[k]);
        assert(r@ =~= s@.subrange(from as int, k + 1 as int));
        k = k + 1;
    }
    r
}

/// The Unicode `White_Space` property, as `char::is_whitespace` decides it.
pub uninterp spec fn is_unicode_space(c: char) -> bool;

/// Relies on `char::is_whitespace`: whether `c` has the Unicode
/// `White_Space` property, a function of the character alone.
pub assume_specification[ char::is_whitespace ](c: char) -> (r: bool)
    ensures
        r == is_unicode_space(c),
;

/// `s` without its longest prefix of characters satisfying `p`.
pub open spec fn drop_leading(s: Seq<char>, p: spec_fn(char) -> bool) -> Seq<char>
    decreases s.len(),
{
    if s.len() > 0 && p(s[0]) {
        drop_leading(s.drop_first(), p)
    } else {
        s
    }
}

/// `s` without its longest suffix of characters satisfying `p`.
pub open spec fn drop_trailing(s: Seq<char>, p: spec_fn(char) -> bool) -> Seq<char>
    decreases s.len(),
{
    if s.len() > 0 && p(s.last()) {
        drop_trailing(s.drop_last(), p)
    } else {
        s
    }
}

/// `s` with leading and trailing whitespace removed, as `str::trim` does.
pub open spec fn trim_spec(s: Seq<char>) -> Seq<char> {
    drop_trailing(drop_leading(s, |c: char| is_unicode_space(c)), |c: char| is_unicode_space(c))
}

/// `s` with leading whitespace removed, as `str::trim_start` does.
pub open spec fn trim_start_spec(s: Seq<char>) -> Seq<char> {
    drop_leading(s, |c: char| is_unicode_space(c))
}

/// Dropping a counted prefix: if the first `a` characters satisfy `p` and the
/// one after them (if any) does not, the drop keeps exactly `s.skip(a)`.
pub proof fn lemma_drop_leading_skip(s: Seq<char>, p: spec_fn(char) -> bool, a: int)
    requires
        0 <= a <= s.len(),
        forall|j: int| 0 <= j < a ==> p(#[trigger] s[j]),
        a == s.len() || !p(s[a]),
    ensures
        drop_leading(s, p) == s.skip(a),
    decreases a,
{
    if a == 0 {
        assert(s.skip(0) =~= s);
    } else {
        assert(p(s[0]));
        assert forall|j: int| 0 <= j < a - 1 implies p(#[trigger] s.drop_first()[j]) by {
            assert(s.drop_first()[j] == s[j + 1]);
        }
        if a - 1 < s.drop_first().len() {
            assert(s.drop_first()[a - 1] == s[a]);
        }
        lemma_drop_leading_skip(s.drop_first(), p, a - 1);
        assert(s.drop_first().skip(a - 1) =~= s.skip(a));
    }
}

/// The mirror image for a counted suffix.
pub proof fn lemma_drop_trailing_take(s: Seq<char>, p: spec_fn(char) -> bool, b: int)
    requires
        0 <= b <= s.len(),
        forall|j: int| b <= j < s.len() ==> p(#[trigger] s[j]),
        b == 0 || !p(s[b - 1]),
    ensures
        drop_trailing(s, p) == s.take(b),
    decreases s.len() - b,
{
    if b == s.len() {
        assert(s.take(b) =~= s);
    } else {
        assert(p(s.last()));
        assert forall|j: int| b <= j < s.drop_last().len() implies p(
            #[trigger] s.drop_last()[j],
        ) by {
            assert(s.drop_last()[j] == s[j]);
        }
        if b > 0 {
            assert(s.drop_last()[b - 1] == s[b - 1]);
        }
        lemma_drop_trailing_take(s.drop_last(), p, b);
        assert(s.drop_last().take(b) =~= s.take(b));
    }
}

/// Whether `c` has the Unicode `White_Space` property.
pub fn is_space(c: char) -> (r: bool)
    ensures
        r == is_unicode_space(c),
{
    c.is_whitespace()
}

/// The characters of `s` in positions `[from, to)` with surrounding
/// whitespace removed, as `str::trim` leaves them.
pub fn trim_range(s: &Vec<char>, from: usize, to: usize) -> (r: Vec<char>)
    requires
        from <= to <= s@.len(),
    ensures
        r@ == trim_spec(s@.subrange(from as int, to as int)),
{
    let ghost w = s@.subrange(from as int, to as int);
    let mut a: usize = from;
    while a < to && is_space(s[a])
        invariant
            from <= a <= to <= s@.len(),
            forall|j: int| from <= j < a ==> is_unicode_space(#[trigger] s@[j]),
        decreases to - a,
    {
        a = a + 1;
    }
    proof {
        assert forall|j: int| 0 <= j < a - from implies is_unicode_space(#[trigger] w[j]) by {
            assert(w[j] == s@[from + j]);
        }
        if a < to {
            assert(w[a - from] == s@[a as int]);
        }
        lemma_drop_leading_skip(w, |c: char| is_unicode_space(c), a - from);
    }
    let ghost mid = w.skip(a - from);
    let mut b: usize = to;
    while b > a && is_space(s[b - 1])
        invariant
            a <= b <= to <= s@.len(),
            a >= from,
            forall|j: int| b <= j < to ==> is_unicode_space(#[trigger] s@[j]),
        decreases b - a,
    {
        b = b - 1;
    }
    proof {
        assert(mid.len() == to - a);
        assert forall|j: int| b - a <= j < mid.len() implies is_unicode_space(
            #[trigger] mid[j],
        ) by {
            assert(mid[j] == s@[a + j]);
        }
        if b > a {
            assert(mid[b - a - 1] == s@[b - 1]);
        }
        lemma_drop_trailing_take(mid, |c: char| is_unicode_space(c), b - a);
        assert(mid.take(b - a) =~= s@.subrange(a as int, b as int));
    }
    chars_range(s, a, b)
}

/// Index of the first occurrence of `pat` as a contiguous subsequence of
/// `s`, or `-1` if there is none.
pub open spec fn find_sub(s: Seq<char>, pat: Seq<char>) -> int
    decreases s.len(),
{
    if s.len() < pat.len() {
        -1
    } else if s.take(pat.len() as int) == pat {
        0
    } else if s.len() == 0 {
        -1
    } else {
        let r = find_sub(s.drop_first(), pat);
        if r == -1 {
            -1
        } else {
            1 + r
        }
    }
}

/// `pat` occurs in `s` at position `i`.
pub open spec fn is_match_at(s: Seq<char>, pat: Seq<char>, i: int) -> bool {
    0 <= i && i + pat.len() <= s.len() && s.subrange(i, i + pat.len()) == pat
}

/// `find_sub` returns the least match position, or `-1` when there is none.
pub proof fn lemma_find_sub(s: Seq<char>, pat: Seq<char>)
    ensures
        find_sub(s, pat) == -1 ==> forall|i: int| !is_match_at(s, pat, i),
        find_sub(s, pat) != -1 ==> {
            &&& is_match_at(s, pat, find_sub(s, pat))
            &&& forall|i: int| 0 <= i < find_sub(s, pat) ==> !is_match_at(s, pat, i)
        },
    decreases s.len(),
{
    if s.len() < pat.len() {
        assert forall|i: int| !is_match_at(s, pat, i) by {}
    } else if s.take(pat.len() as int) == pat {
        assert(s.subrange(0, pat.len() as int) =~= s.take(pat.len() as int));
        assert(is_match_at(s, pat, 0));
    } else if s.len() == 0 {
        assert(pat.len() == 0);
        assert(s.take(0) =~= pat);
    } else {
        lemma_find_sub(s.drop_first(), pat);
        let r = find_sub(s.drop_first(), pat);
        assert(!is_match_at(s, pat, 0)) by {
            if is_match_at(s, pat, 0) {
                assert(s.subrange(0, pat.len() as int) =~= s.take(pat.len() as int));
            }
        }
        assert forall|i: int| 1 <= i && is_match_at(s, pat, i) implies is_match_at(
            s.drop_first(),
            pat,
            i - 1,
        ) by {
            assert(s.drop_first().subrange(i - 1, i - 1 + pat.len()) =~= s.subrange(
                i,
                i + pat.len(),
            ));
        }
        assert forall|i: int| 0 <= i && is_match_at(s.drop_first(), pat, i) implies is_match_at(
            s,
            pat,
            i + 1,
        ) by {
            assert(s.subrange(i + 1, i + 1 + pat.len()) =~= s.drop_first().subrange(
                i,
                i + pat.len(),
            ));
        }
        if r == -1 {
            assert forall|i: int| !is_match_at(s, pat, i) by {
                if is_match_at(s, pat, i) && i >= 1 {
                    assert(is_match_at(s.drop_first(), pat, i - 1));
                }
            }
        } else {
            assert(is_match_at(s, pat, 1 + r));
            assert forall|i: int| 0 <= i < 1 + r implies !is_match_at(s, pat, i) by {
                if is_match_at(s, pat, i) && i >= 1 {
                    assert(is_match_at(s.drop_first(), pat, i - 1));
                }
            }
        }
    }
}

/// Whether `pat` occurs at position `i` of `s`.
fn matches_at(s: &Vec<char>, pat: &Vec<char>, i: usize) -> (r: bool)
    requires
        i + pat@.len() <= s@.len(),
    ensures
        r == is_match_at(s@, pat@, i as int),
{
    let n: usize = s.len();
    let mut k: usize = 0;
    while k < pat.len()
        invariant
            k <= pat@.len(),
            i + pat@.len() <= s@.len(),
            s@.len() <= usize::MAX,
            forall|j: int| 0 <= j < k ==> s@[i + j] == pat@[j],
        decreases pat@.len() - k,
    {
        if s[i + k] != pat[k] {
            proof {
                assert(s@.subrange(i as int, i + pat@.len())[k as int] != pat@[k as int]);
            }
            return false;
        }
        k = k + 1;
    }
    proof {
        assert(s@.subrange(i as int, i + pat@.len()) =~= pat@);
    }
    true
}

/// Position of the first occurrence of `pat` in `s` at or after `from`,
/// where no occurrence starts before `from`.
pub fn find_sub_chars(s: &Vec<char>, pat: &Vec<char>) -> (r: Option<usize>)
    requires
        pat@.len() >= 1,
    ensures
        match r {
            Some(i) => find_sub(s@, pat@) == i as int,
            None => find_sub(s@, pat@) == -1,
        },
{
    proof {
        lemma_find_sub(s@, pat@);
    }
    if s.len() < pat.len() {
        return None;
    }
    let last_start: usize = s.len() - pat.len();
    let mut i: usize = 0;
    while i <= last_start
        invariant
            last_start == s@.len() - pat@.len(),
            pat@.len() >= 1,
            s@.len() <= usize::MAX,
            i <= last_start + 1,
            forall|j: int| 0 <= j < i ==> !is_match_at(s@, pat@, j),
        decreases last_start + 1 - i,
    {
        if matches_at(s, pat, i) {
            proof {
                lemma_find_sub(s@, pat@);
                if find_sub(s@, pat@) == -1 {
                    assert(!is_match_at(s@, pat@, i as int));
                }
                if find_sub(s@, pat@) < i {
                    assert(!is_match_at(s@, pat@, find_sub(s@, pat@)));
                }
                if find_sub(s@, pat@) > i {
                    assert(!is_match_at(s@, pat@, i as int));
                }
            }
            return Some(i);
        }
        i = i + 1;
    }
    proof {
        lemma_find_sub(s@, pat@);
        if find_sub(s@, pat@) != -1 {
            let m = find_sub(s@, pat@);
            assert(is_match_at(s@, pat@, m));
            assert(m + pat@.len() <= s@.len());
            assert(0 <= m < i);
        }
    }
    None
}

/// A match of `pat` in a suffix is a match in the whole, shifted.
pub proof fn lemma_match_shift(s: Seq<char>, pat: Seq<char>, start: int, j: int)
    requires
        0 <= start <= s.len(),
        0 <= j,
    ensures
        is_match_at(s.skip(start), pat, j) <==> is_match_at(s, pat, start + j),
{
    if j + pat.len() <= s.len() - start {
        assert(s.skip(start).subrange(j, j + pat.len()) =~= s.subrange(
            start + j,
            start + j + pat.len(),
        ));
    }
}

/// The pieces of `s` between non-overlapping occurrences of `pat`, searched
/// left to right, as `str::split` yields them.
pub open spec fn split_sub(s: Seq<char>, pat: Seq<char>) -> Seq<Seq<char>>
    decreases s.len(),
    via split_sub_decreases
{
    if pat.len() == 0 {
        seq![s]
    } else {
        let i = find_sub(s, pat);
        if i == -1 {
            seq![s]
        } else {
            seq![s.take(i)] + split_sub(s.skip(i + pat.len()), pat)
        }
    }
}

#[via_fn]
proof fn split_sub_decreases(s: Seq<char>, pat: Seq<char>) {
    lemma_find_sub(s, pat);
}

/// The pieces of `s` between occurrences of `pat`, as vectors.
pub fn split_sub_chars(s: &Vec<char>, pat: &Vec<char>) -> (r: Vec<Vec<char>>)
    requires
        pat@.len() >= 1,
    ensures
        r.deep_view() == split_sub(s@, pat@),
{
    let n: usize = s.len();
    let m: usize = pat.len();
    let mut r: Vec<Vec<char>> = Vec::new();
    let mut start: usize = 0;
    let mut i: usize = 0;
    proof {
        assert(s@.skip(0) =~= s@);
        assert(r.deep_view() + split_sub(s@.skip(0), pat@) =~~= split_sub(s@, pat@));
    }
    while i < n
        invariant
            start <= i <= n,
            n == s@.len(),
            m == pat@.len() >= 1,
            forall|j: int| start <= j < i ==> !is_match_at(s@, pat@, j),
            split_sub(s@, pat@) == r.deep_view() + split_sub(s@.skip(start as int), pat@),
        decreases n - i,
    {
        let is_m: bool = n - i >= m && matches_at(s, pat, i);
        proof {
            if n - i < m {
                assert(!is_match_at(s@, pat@, i as int));
            }
        }
        if is_m {
            let piece = chars_range(s, start, i);
            proof {
                let rem = s@.skip(start as int);
                lemma_find_sub(rem, pat@);
                lemma_match_shift(s@, pat@, start as int, i - start);
                assert(is_match_at(rem, pat@, i - start));
                assert forall|j: int| 0 <= j < i - start implies !is_match_at(rem, pat@, j) by {
                    lemma_match_shift(s@, pat@, start as int, j);
                }
                if find_sub(rem, pat@) == -1 {
                    assert(!is_match_at(rem, pat@, i - start));
                }
                if 0 <= find_sub(rem, pat@) < i - start {
                    assert(!is_match_at(rem, pat@, find_sub(rem, pat@)));
                }
                if find_sub(rem, pat@) > i - start {
                    assert(!is_match_at(rem, pat@, i - start));
                }
                assert(find_sub(rem, pat@) == i - start);
                assert(rem.take(i - start) =~= s@.subrange(start as int, i as int));
                assert(rem.skip(i - start + m) =~= s@.skip(i + m));
            }
            let ghost old_deep = r.deep_view();
            r.push(piece);
            proof {
                assert(r.deep_view() =~~= old_deep + seq![s@.subrange(start as int, i as int)]);
                assert(r.deep_view() + split_sub(s@.skip(i + m), pat@) =~~= old_deep + split_sub(
                    s@.skip(start as int),
                    pat@,
                ));
            }
            start = i + m;
            i = i + m;
        } else {
            i = i + 1;
        }
    }
    let piece = chars_range(s, start, n);
    proof {
        let rem = s@.skip(start as int);
        lemma_find_sub(rem, pat@);
        if find_sub(rem, pat@) != -1 {
            let f = find_sub(rem, pat@);
            assert(is_match_at(rem, pat@, f));
            lemma_match_shift(s@, pat@, start as int, f);
            assert(is_match_at(s@, pat@, start + f));
            assert(start + f < n);
            assert(!is_match_at(s@, pat@, start + f));
        }
        assert(find_sub(rem, pat@) == -1);
        assert(piece@ =~= rem);
    }
    let ghost old_deep = r.deep_view();
    r.push(piece);
    proof {
        assert(r.deep_view() =~~= old_deep + seq![s@.skip(start as int)]);
        assert(split_sub(s@.skip(start as int), pat@) == seq![s@.skip(start as int)]);
        assert(r.deep_view() =~~= split_sub(s@, pat@));
    }
    r
}

/// `true` exactly when `a` and `b` hold the same characters.
pub fn chars_eq(a: &Vec<char>, b: &Vec<char>) -> (r: bool)
    ensures
        r <==> a@ == b@,
{
    if a.len() != b.len() {
        return false;
    }
    let mut i: usize = 0;
    while i < a.len()
        invariant
            i <= a@.len(),
            a@.len() == b@.len(),
            forall|j: int| 0 <= j < i ==> a@[j] == b@[j],
        decreases a@.len() - i,
    {
        if a[i] != b[i] {
            return false;
        }
        i = i + 1;
    }
    proof {
        assert(a@ =~= b@);
    }
    true
}

} // verus!
