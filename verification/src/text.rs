//! Verified text utilities: substring search, splitting on a separator,
//! joining with a separator, lexicographic order on character sequences,
//! and decimal rendering of small integers.

use vstd::prelude::*;

verus! {

use vstd::string::StrSliceExecFns;
use vstd::string::StringExecFns;

/// True when `needle` occurs in `hay` starting at index `i`.
pub open spec fn occurs_at(hay: Seq<char>, needle: Seq<char>, i: int) -> bool {
    &&& 0 <= i
    &&& i + needle.len() <= hay.len()
    &&& hay.subrange(i, i + needle.len() as int) == needle
}

/// Index of the first occurrence of a non-empty `needle` in `hay` at or after
/// `i`, if any. An empty needle is treated as never occurring.
pub open spec fn find_from(hay: Seq<char>, needle: Seq<char>, i: int) -> Option<int>
    decreases hay.len() - i,
{
    if needle.len() == 0 || i < 0 || i + needle.len() > hay.len() {
        None
    } else if occurs_at(hay, needle, i) {
        Some(i)
    } else {
        find_from(hay, needle, i + 1)
    }
}

/// Index of the first occurrence of a non-empty `needle` in `hay`, if any.
pub open spec fn find_first(hay: Seq<char>, needle: Seq<char>) -> Option<int> {
    find_from(hay, needle, 0)
}

pub proof fn lemma_find_from_props(hay: Seq<char>, needle: Seq<char>, i: int)
    requires
        needle.len() >= 1,
        0 <= i,
    ensures
        match find_from(hay, needle, i) {
            Some(j) => i <= j && occurs_at(hay, needle, j) && (forall|k: int|
                i <= k < j ==> !occurs_at(hay, needle, k)),
            None => forall|k: int| i <= k ==> !occurs_at(hay, needle, k),
        },
    decreases hay.len() - i,
{
    if i + needle.len() > hay.len() {
        assert forall|k: int| i <= k implies !occurs_at(hay, needle, k) by {}
    } else if occurs_at(hay, needle, i) {
    } else {
        lemma_find_from_props(hay, needle, i + 1);
        match find_from(hay, needle, i) {
            Some(j) => {
                assert forall|k: int| i <= k < j implies !occurs_at(hay, needle, k) by {
                    if k == i {
                    }
                }
            },
            None => {
                assert forall|k: int| i <= k implies !occurs_at(hay, needle, k) by {
                    if k == i {
                    }
                }
            },
        }
    }
}

/// True when `needle` occurs in `hay` starting at exec index `i`.
fn matches_at(hay: &str, needle: &str, i: usize) -> (r: bool)
    requires
        i + needle@.len() <= hay@.len(),
    ensures
        r == occurs_at(hay@, needle@, i as int),
{
    let n = needle.unicode_len();
    let hn = hay.unicode_len();
    let mut j: usize = 0;
    while j < n
        invariant
            j <= n,
            n == needle@.len(),
            hn == hay@.len(),
            i + n <= hn,
            forall|k: int| 0 <= k < j ==> hay@[i + k] == needle@[k],
        decreases n - j,
    {
        let ca = hay.get_char(i + j);
        let cb = needle.get_char(j);
        if ca != cb {
            proof {
                let sub = hay@.subrange(i as int, i + n as int);
                assert(sub[j as int] == hay@[i + j]);
                assert(sub != needle@);
            }
            return false;
        }
        j += 1;
    }
    proof {
        assert(hay@.subrange(i as int, i + n as int) =~= needle@);
    }
    true
}

/// First occurrence of `needle` in `hay`, as an index, if any.
pub fn find_str(hay: &str, needle: &str) -> (r: Option<usize>)
    requires
        needle@.len() >= 1,
    ensures
        match r {
            Some(i) => find_first(hay@, needle@) == Some(i as int),
            None => find_first(hay@, needle@) is None,
        },
{
    let hn = hay.unicode_len();
    let nn = needle.unicode_len();
    if nn > hn {
        return None;
    }
    let mut i: usize = 0;
    while i <= hn - nn
        invariant
            nn <= hn,
            nn >= 1,
            i <= hn - nn + 1,
            hn == hay@.len(),
            nn == needle@.len(),
            find_first(hay@, needle@) == find_from(hay@, needle@, i as int),
        decreases hn - i,
    {
        if matches_at(hay, needle, i) {
            return Some(i);
        }
        i += 1;
    }
    None
}

/// The pieces of `hay` between the non-overlapping occurrences of `needle`,
/// scanned from the left; `hay` itself when `needle` does not occur.
pub open spec fn split_text(hay: Seq<char>, needle: Seq<char>) -> Seq<Seq<char>>
    decreases hay.len(),
{
    match find_first(hay, needle) {
        None => seq![hay],
        Some(i) => {
            if needle.len() >= 1 && 0 <= i && i + needle.len() <= hay.len() {
                seq![hay.subrange(0, i)] + split_text(
                    hay.subrange(i + needle.len(), hay.len() as int),
                    needle,
                )
            } else {
                seq![hay]
            }
        },
    }
}

/// The parts joined with `sep` between consecutive parts.
pub open spec fn joined(parts: Seq<Seq<char>>, sep: Seq<char>) -> Seq<char>
    decreases parts.len(),
{
    if parts.len() == 0 {
        Seq::empty()
    } else if parts.len() == 1 {
        parts[0]
    } else {
        parts[0] + sep + joined(parts.drop_first(), sep)
    }
}

pub proof fn lemma_joined_cons(x: Seq<char>, parts: Seq<Seq<char>>, sep: Seq<char>)
    requires
        parts.len() >= 1,
    ensures
        joined(seq![x] + parts, sep) == x + sep + joined(parts, sep),
{
    let whole = seq![x] + parts;
    assert(whole.drop_first() =~= parts);
    assert(whole[0] == x);
}

pub proof fn lemma_joined_push(parts: Seq<Seq<char>>, sep: Seq<char>, x: Seq<char>)
    ensures
        parts.len() == 0 ==> joined(parts.push(x), sep) == x,
        parts.len() >= 1 ==> joined(parts.push(x), sep) == joined(parts, sep) + sep + x,
    decreases parts.len(),
{
    if parts.len() == 0 {
        assert(parts.push(x)[0] == x);
    } else if parts.len() == 1 {
        assert(parts.push(x).drop_first() =~= seq![x]);
        assert(parts.push(x)[0] == parts[0]);
        assert(joined(seq![x], sep) == x);
        assert(joined(parts, sep) == parts[0]);
        assert(joined(parts.push(x), sep) == parts[0] + sep + x);
    } else {
        lemma_joined_push(parts.drop_first(), sep, x);
        assert(parts.push(x).drop_first() =~= parts.drop_first().push(x));
        assert(parts.push(x)[0] == parts[0]);
        assert(joined(parts.push(x), sep) == parts[0] + sep + joined(
            parts.drop_first().push(x),
            sep,
        ));
        assert(joined(parts, sep) == parts[0] + sep + joined(parts.drop_first(), sep));
        assert(parts[0] + sep + (joined(parts.drop_first(), sep) + sep + x) =~= (parts[0] + sep
            + joined(parts.drop_first(), sep)) + sep + x);
        assert(joined(parts.push(x), sep) == joined(parts, sep) + sep + x);
    }
}

/// Splitting on a separator and joining with the same separator gives the
/// original text back.
pub proof fn lemma_joined_split(hay: Seq<char>, needle: Seq<char>)
    requires
        needle.len() >= 1,
    ensures
        split_text(hay, needle).len() >= 1,
        joined(split_text(hay, needle), needle) == hay,
    decreases hay.len(),
{
    lemma_find_from_props(hay, needle, 0);
    match find_first(hay, needle) {
        None => {},
        Some(i) => {
            let nl = needle.len() as int;
            let pre = hay.subrange(0, i);
            let rest = hay.subrange(i + nl, hay.len() as int);
            lemma_joined_split(rest, needle);
            assert(hay =~= pre + needle + rest);
            lemma_joined_cons(pre, split_text(rest, needle), needle);
            assert(pre + needle + joined(split_text(rest, needle), needle) =~= pre + needle
                + rest);
        },
    }
}

/// The split of `hay` on a non-empty `needle`, scanned from the left.
pub fn split_components(hay: &str, needle: &str) -> (r: Vec<String>)
    requires
        needle@.len() >= 1,
    ensures
        r.deep_view() == split_text(hay@, needle@),
    decreases hay@.len(),
{
    match find_str(hay, needle) {
        None => {
            let mut r: Vec<String> = Vec::new();
            r.push(hay.to_owned());
            proof {
                assert(r.deep_view() =~= seq![hay@]);
            }
            r
        },
        Some(i) => {
            let hn = hay.unicode_len();
            let nn = needle.unicode_len();
            proof {
                lemma_find_from_props(hay@, needle@, 0);
            }
            let pre = hay.substring_char(0, i);
            let rest = hay.substring_char(i + nn, hn);
            let mut r = split_components(rest, needle);
            r.insert(0, pre.to_owned());
            proof {
                assert(r.deep_view() =~= seq![pre@] + split_text(rest@, needle@));
            }
            r
        },
    }
}

/// First occurrence split of `hay` around a non-empty `needle`: the text
/// before and the text after, when the needle occurs at all.
pub fn split_once_str(hay: &str, needle: &str) -> (r: Option<(String, String)>)
    requires
        needle@.len() >= 1,
    ensures
        match r {
            Some(parts) => find_first(hay@, needle@) matches Some(i) && parts.0@ == hay@.subrange(
                0,
                i,
            ) && parts.1@ == hay@.subrange(i + needle@.len(), hay@.len() as int),
            None => find_first(hay@, needle@) is None,
        },
{
    match find_str(hay, needle) {
        None => None,
        Some(i) => {
            let hn = hay.unicode_len();
            let nn = needle.unicode_len();
            proof {
                lemma_find_from_props(hay@, needle@, 0);
            }
            let pre = hay.substring_char(0, i);
            let suf = hay.substring_char(i + nn, hn);
            Some((pre.to_owned(), suf.to_owned()))
        },
    }
}

/// Strict lexicographic order on character sequences, by code point, with a
/// proper prefix ordered before its extensions.
pub open spec fn chars_lt(a: Seq<char>, b: Seq<char>) -> bool
    decreases a.len(),
{
    if b.len() == 0 {
        false
    } else if a.len() == 0 {
        true
    } else if a[0] != b[0] {
        a[0] < b[0]
    } else {
        chars_lt(a.drop_first(), b.drop_first())
    }
}

pub proof fn lemma_chars_lt_connected(a: Seq<char>, b: Seq<char>)
    ensures
        a == b || chars_lt(a, b) || chars_lt(b, a),
    decreases a.len(),
{
    if b.len() == 0 {
        if a.len() == 0 {
            assert(a =~= b);
        }
    } else if a.len() == 0 {
    } else if a[0] != b[0] {
    } else {
        lemma_chars_lt_connected(a.drop_first(), b.drop_first());
        if a.drop_first() == b.drop_first() {
            assert(a.drop_first().len() == b.drop_first().len());
            assert(a.len() == b.len());
            assert forall|i: int| 0 <= i < a.len() implies a[i] == b[i] by {
                if i > 0 {
                    assert(a[i] == a.drop_first()[i - 1]);
                    assert(b[i] == b.drop_first()[i - 1]);
                }
            }
            assert(a =~= b);
        }
    }
}

pub proof fn lemma_chars_lt_trans(a: Seq<char>, b: Seq<char>, c: Seq<char>)
    requires
        chars_lt(a, b),
        chars_lt(b, c),
    ensures
        chars_lt(a, c),
    decreases a.len(),
{
    if a.len() == 0 {
    } else {
        if a[0] == b[0] && b[0] == c[0] {
            lemma_chars_lt_trans(a.drop_first(), b.drop_first(), c.drop_first());
        }
    }
}

/// Strict lexicographic comparison of two pieces of text.
pub fn chars_lt_exec(a: &str, b: &str) -> (r: bool)
    ensures
        r == chars_lt(a@, b@),
{
    let an = a.unicode_len();
    let bn = b.unicode_len();
    proof {
        assert(a@.skip(0) =~= a@);
        assert(b@.skip(0) =~= b@);
    }
    let mut i: usize = 0;
    while i < an && i < bn
        invariant
            i <= an,
            i <= bn,
            an == a@.len(),
            bn == b@.len(),
            chars_lt(a@, b@) == chars_lt(a@.skip(i as int), b@.skip(i as int)),
        decreases an - i,
    {
        let ca = a.get_char(i);
        let cb = b.get_char(i);
        proof {
            assert(a@.skip(i as int)[0] == ca);
            assert(b@.skip(i as int)[0] == cb);
            assert(a@.skip(i as int).drop_first() =~= a@.skip(i as int + 1));
            assert(b@.skip(i as int).drop_first() =~= b@.skip(i as int + 1));
        }
        if ca != cb {
            return ca < cb;
        }
        i += 1;
    }
    proof {
        assert(a@.skip(i as int).len() == an - i);
        assert(b@.skip(i as int).len() == bn - i);
    }
    an < bn
}

/// The digit character for one decimal digit.
pub open spec fn digit_char(d: int) -> char {
    if d == 0 {
        '0'
    } else if d == 1 {
        '1'
    } else if d == 2 {
        '2'
    } else if d == 3 {
        '3'
    } else if d == 4 {
        '4'
    } else if d == 5 {
        '5'
    } else if d == 6 {
        '6'
    } else if d == 7 {
        '7'
    } else if d == 8 {
        '8'
    } else {
        '9'
    }
}

/// Decimal digit string of `n`, most significant digit first, no leading
/// zeros (a single `0` for zero).
pub open spec fn dec_rep(n: nat) -> Seq<char>
    decreases n,
{
    if n < 10 {
        seq![digit_char(n as int)]
    } else {
        dec_rep(n / 10).push(digit_char((n % 10) as int))
    }
}

fn push_digit(out: &mut String, d: u16)
    requires
        d < 10,
    ensures
        final(out)@ == old(out)@ + seq![digit_char(d as int)],
{
    if d == 0 {
        proof {
            reveal_strlit("0");
            assert("0"@ =~= seq![digit_char(0)]);
        }
        out.append("0");
    } else if d == 1 {
        proof {
            reveal_strlit("1");
            assert("1"@ =~= seq![digit_char(1)]);
        }
        out.append("1");
    } else if d == 2 {
        proof {
            reveal_strlit("2");
            assert("2"@ =~= seq![digit_char(2)]);
        }
        out.append("2");
    } else if d == 3 {
        proof {
            reveal_strlit("3");
            assert("3"@ =~= seq![digit_char(3)]);
        }
        out.append("3");
    } else if d == 4 {
        proof {
            reveal_strlit("4");
            assert("4"@ =~= seq![digit_char(4)]);
        }
        out.append("4");
    } else if d == 5 {
        proof {
            reveal_strlit("5");
            assert("5"@ =~= seq![digit_char(5)]);
        }
        out.append("5");
    } else if d == 6 {
        proof {
            reveal_strlit("6");
            assert("6"@ =~= seq![digit_char(6)]);
        }
        out.append("6");
    } else if d == 7 {
        proof {
            reveal_strlit("7");
            assert("7"@ =~= seq![digit_char(7)]);
        }
        out.append("7");
    } else if d == 8 {
        proof {
            reveal_strlit("8");
            assert("8"@ =~= seq![digit_char(8)]);
        }
        out.append("8");
    } else {
        proof {
            reveal_strlit("9");
            assert("9"@ =~= seq![digit_char(9)]);
        }
        out.append("9");
    }
}

/// Appends the decimal digits of `n` to `out`.
pub fn push_decimal(out: &mut String, n: u16)
    ensures
        final(out)@ == old(out)@ + dec_rep(n as nat),
    decreases n,
{
    if n >= 10 {
        push_decimal(out, n / 10);
        push_digit(out, n % 10);
        proof {
            assert(old(out)@ + dec_rep((n / 10) as nat) + seq![digit_char((n % 10) as int)]
                =~= old(out)@ + dec_rep(n as nat));
        }
    } else {
        push_digit(out, n);
    }
}

/// Joins the parts with `sep` between consecutive parts.
pub fn join_with(parts: &Vec<String>, sep: &str) -> (r: String)
    ensures
        r@ == joined(parts.deep_view(), sep@),
{
    if parts.len() == 0 {
        return String::new();
    }
    let mut acc: String = parts[0].clone();
    let mut i: usize = 1;
    while i < parts.len()
        invariant
            1 <= i <= parts@.len(),
            acc@ == joined(parts.deep_view().take(i as int), sep@),
        decreases parts@.len() - i,
    {
        acc.append(sep);
        acc.append(parts[i].as_str());
        proof {
            let dv = parts.deep_view();
            assert(dv.take(i as int + 1) =~= dv.take(i as int).push(dv[i as int]));
            lemma_joined_push(dv.take(i as int), sep@, dv[i as int]);
        }
        i += 1;
    }
    proof {
        assert(parts.deep_view().take(parts@.len() as int) =~= parts.deep_view());
        assert(parts.deep_view().take(1)[0] == parts.deep_view()[0]);
    }
    acc
}

/// `s` with every trailing `/` removed.
pub open spec fn trimmed_slashes(s: Seq<char>) -> Seq<char>
    decreases s.len(),
{
    if s.len() > 0 && s[s.len() - 1] == '/' {
        trimmed_slashes(s.drop_last())
    } else {
        s
    }
}

/// Removes every trailing `/` from `s`.
pub fn trim_trailing_slashes(s: &str) -> (r: String)
    ensures
        r@ == trimmed_slashes(s@),
{
    let n = s.unicode_len();
    proof {
        assert(s@.take(n as int) =~= s@);
    }
    let mut end = n;
    while end > 0 && s.get_char(end - 1) == '/'
        invariant
            end <= n,
            n == s@.len(),
            trimmed_slashes(s@) == trimmed_slashes(s@.take(end as int)),
        decreases end,
    {
        proof {
            assert(s@.take(end as int).drop_last() =~= s@.take(end as int - 1));
            assert(s@.take(end as int)[end - 1] == s@[end - 1]);
        }
        end -= 1;
    }
    proof {
        assert(s@.take(n as int) =~= s@);
    }
    let r = s.substring_char(0, end);
    r.to_owned()
}

} // verus!
