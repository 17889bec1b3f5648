//! Text as sequences of characters: trimming, splitting, searching and joining.
//!
//! Every function takes and gives back whole characters, so no position can fall inside one.

use vstd::arithmetic::power::*;
use vstd::prelude::*;
use vstd::string::{StrSliceExecFns, StringExecFns};

verus! {

/// The characters with the Unicode property `White_Space`.
pub open spec fn is_white_space(c: char) -> bool {
    ||| '\u{9}' <= c <= '\u{d}'
    ||| c == ' '
    ||| c == '\u{85}'
    ||| c == '\u{a0}'
    ||| c == '\u{1680}'
    ||| '\u{2000}' <= c <= '\u{200a}'
    ||| c == '\u{2028}'
    ||| c == '\u{2029}'
    ||| c == '\u{202f}'
    ||| c == '\u{205f}'
    ||| c == '\u{3000}'
}

/// `s` without the white space at its front.
pub open spec fn trim_front(s: Seq<char>) -> Seq<char>
    decreases s.len(),
{
    if s.len() > 0 && is_white_space(s[0]) {
        trim_front(s.skip(1))
    } else {
        s
    }
}

/// `s` without the white space at its back.
pub open spec fn trim_back(s: Seq<char>) -> Seq<char>
    decreases s.len(),
{
    if s.len() > 0 && is_white_space(s.last()) {
        trim_back(s.drop_last())
    } else {
        s
    }
}

/// `s` without the white space at either end.
pub open spec fn trim(s: Seq<char>) -> Seq<char> {
    trim_back(trim_front(s))
}

/// `s` without the run of `c` at its back.
pub open spec fn strip_back(s: Seq<char>, c: char) -> Seq<char>
    decreases s.len(),
{
    if s.len() > 0 && s.last() == c {
        strip_back(s.drop_last(), c)
    } else {
        s
    }
}

/// The characters of `s`, in order.
pub fn chars_of(s: &str) -> (r: Vec<char>)
    ensures
        r@ == s@,
{
    let mut r: Vec<char> = Vec::new();
    for c in it: s.chars()
        invariant
            it.seq() == s@,
            r@ == it.seq().take(it.index()),
    {
        r.push(c);
        assert(r@ =~= it.seq().take(it.index() + 1));
    }
    assert(s@.take(s@.len() as int) =~= s@);
    r
}

/// The position of the first `c` in `s`, or the length of `s` where there is none.
pub open spec fn index_of(s: Seq<char>, c: char) -> int
    decreases s.len(),
{
    if s.len() == 0 || s[0] == c {
        0
    } else {
        1 + index_of(s.skip(1), c)
    }
}

/// The position of the last `c` in `s`, or -1 where there is none.
pub open spec fn last_index_of(s: Seq<char>, c: char) -> int
    decreases s.len(),
{
    if s.len() == 0 {
        -1
    } else if s.last() == c {
        s.len() - 1
    } else {
        last_index_of(s.drop_last(), c)
    }
}

/// The position of the first occurrence of `pat` in `s`, or the length of `s` where there is
/// none.
pub open spec fn index_of_text(s: Seq<char>, pat: Seq<char>) -> int
    decreases s.len(),
{
    if s.len() < pat.len() || s.len() == 0 {
        s.len() as int
    } else if s.take(pat.len() as int) == pat {
        0
    } else {
        1 + index_of_text(s.skip(1), pat)
    }
}

/// The pieces of `s` between its occurrences of `c`; a text without `c` is one piece.
pub open spec fn split(s: Seq<char>, c: char) -> Seq<Seq<char>>
    decreases s.len(),
{
    let i = index_of(s, c);
    if 0 <= i < s.len() {
        seq![s.take(i)] + split(s.skip(i + 1), c)
    } else {
        seq![s]
    }
}

/// `index_of` is the first position that holds the character, and the length only where no
/// position does.
pub proof fn lemma_index_of(s: Seq<char>, c: char)
    ensures
        0 <= index_of(s, c) <= s.len(),
        index_of(s, c) < s.len() ==> s[index_of(s, c)] == c,
        forall|j: int| 0 <= j < index_of(s, c) ==> s[j] != c,
    decreases s.len(),
{
    if s.len() > 0 && s[0] != c {
        lemma_index_of(s.skip(1), c);
        assert forall|j: int| 0 <= j < index_of(s, c) implies s[j] != c by {
            if j > 0 {
                assert(s[j] == s.skip(1)[j - 1]);
            }
        }
    }
}

/// A position that holds the character, with none before it, is `index_of`.
pub proof fn lemma_index_of_is(s: Seq<char>, c: char, i: int)
    requires
        0 <= i <= s.len(),
        i < s.len() ==> s[i] == c,
        forall|j: int| 0 <= j < i ==> s[j] != c,
    ensures
        index_of(s, c) == i,
{
    lemma_index_of(s, c);
}

/// `last_index_of` is the last position that holds the character, and -1 only where no position
/// does.
pub proof fn lemma_last_index_of(s: Seq<char>, c: char)
    ensures
        -1 <= last_index_of(s, c) < s.len(),
        last_index_of(s, c) >= 0 ==> s[last_index_of(s, c)] == c,
        forall|j: int| last_index_of(s, c) < j < s.len() ==> s[j] != c,
    decreases s.len(),
{
    if s.len() > 0 && s.last() != c {
        lemma_last_index_of(s.drop_last(), c);
        assert forall|j: int| last_index_of(s, c) < j < s.len() implies s[j] != c by {
            if j < s.len() - 1 {
                assert(s[j] == s.drop_last()[j]);
            }
        }
    }
}

/// What stands behind the last `c` is the last piece of a split, and the pieces before it are those
/// of what stands before that `c`.
pub proof fn lemma_split_last(s: Seq<char>, c: char)
    ensures
        last_index_of(s, c) < 0 ==> split(s, c) == seq![s],
        last_index_of(s, c) >= 0 ==> split(s, c) == split(s.take(last_index_of(s, c)), c).push(
            s.skip(last_index_of(s, c) + 1),
        ),
    decreases s.len(),
{
    let i = last_index_of(s, c);
    let j = index_of(s, c);
    lemma_last_index_of(s, c);
    lemma_index_of(s, c);
    if i >= 0 {
        let front = s.take(i);
        let rest = s.skip(j + 1);
        if j == i {
            lemma_index_of_is(front, c, i);
            lemma_index_of_is(rest, c, rest.len() as int);
            assert(split(rest, c) =~= seq![rest]);
            assert(split(front, c) =~= seq![front]);
            assert(split(s, c) =~= split(front, c).push(rest));
        } else {
            assert(j < i) by {
                if j > i {
                    assert(s[i] != c);
                }
            }
            lemma_split_last(rest, c);
            lemma_last_index_of(rest, c);
            let k = last_index_of(rest, c);
            assert(k == i - j - 1) by {
                assert(rest[i - j - 1] == s[i]);
                assert(k >= i - j - 1);
                assert(s[j + 1 + k] == rest[k]);
            }
            lemma_index_of_is(front, c, j);
            assert(front.take(j) =~= s.take(j));
            assert(front.skip(j + 1) =~= rest.take(k));
            assert(rest.skip(k + 1) =~= s.skip(i + 1));
            assert(split(s, c) =~= split(front, c).push(s.skip(i + 1)));
        }
    }
}

/// The pieces of two texts with `c` between them are those of the first and those of the second.
pub proof fn lemma_split_pair(a: Seq<char>, c: char, b: Seq<char>)
    ensures
        split(a.push(c) + b, c) == split(a, c) + split(b, c),
    decreases a.len(),
{
    let s = a.push(c) + b;
    let i = index_of(a, c);
    lemma_index_of(a, c);
    if i == a.len() {
        lemma_index_of_is(s, c, i);
        assert(s.take(i) =~= a);
        assert(s.skip(i + 1) =~= b);
        assert(split(a, c) =~= seq![a]);
        assert(split(s, c) =~= split(a, c) + split(b, c));
    } else {
        let rest = a.skip(i + 1);
        lemma_index_of_is(s, c, i);
        lemma_split_pair(rest, c, b);
        assert(s.take(i) =~= a.take(i));
        assert(s.skip(i + 1) =~= rest.push(c) + b);
        assert(split(s, c) =~= split(a, c) + split(b, c));
    }
}

/// No piece of a split holds the character that it was split at.
pub proof fn lemma_split_pieces(s: Seq<char>, c: char)
    ensures
        forall|k: int| 0 <= k < split(s, c).len() ==> !(#[trigger] split(s, c)[k]).contains(c),
    decreases s.len(),
{
    let i = index_of(s, c);
    lemma_index_of(s, c);
    if i < s.len() {
        let rest = split(s.skip(i + 1), c);
        lemma_split_pieces(s.skip(i + 1), c);
        assert(!s.take(i).contains(c));
        assert forall|k: int| 0 <= k < split(s, c).len() implies !(#[trigger] split(
            s,
            c,
        )[k]).contains(c) by {
            if k > 0 {
                assert(split(s, c)[k] == rest[k - 1]);
            }
        }
    } else {
        assert(split(s, c) =~= seq![s]);
    }
}

/// `pat` stands in `s` at position `i`.
pub open spec fn occurs_at(s: Seq<char>, pat: Seq<char>, i: int) -> bool {
    0 <= i && i + pat.len() <= s.len() && s.subrange(i, i + pat.len()) == pat
}

/// `index_of_text` is the first position at which the text occurs, and the length only where it
/// occurs nowhere.
pub proof fn lemma_index_of_text(s: Seq<char>, pat: Seq<char>)
    requires
        pat.len() > 0,
    ensures
        0 <= index_of_text(s, pat) <= s.len(),
        index_of_text(s, pat) < s.len() ==> occurs_at(s, pat, index_of_text(s, pat)),
        forall|j: int| 0 <= j < index_of_text(s, pat) ==> !occurs_at(s, pat, j),
    decreases s.len(),
{
    if s.len() >= pat.len() {
        assert(s.take(pat.len() as int) =~= s.subrange(0, pat.len() as int));
        if s.take(pat.len() as int) != pat {
            let t = s.skip(1);
            lemma_index_of_text(t, pat);
            assert forall|j: int| 0 <= j implies #[trigger] occurs_at(s, pat, j + 1) == occurs_at(
                t,
                pat,
                j,
            ) by {
                if j + 1 + pat.len() <= s.len() {
                    assert(s.subrange(j + 1, j + 1 + pat.len()) =~= t.subrange(
                        j,
                        j + pat.len(),
                    ));
                }
            }
            assert forall|j: int| 0 <= j < index_of_text(s, pat) implies !occurs_at(
                s,
                pat,
                j,
            ) by {
                if j > 0 {
                    assert(occurs_at(s, pat, (j - 1) + 1) == occurs_at(t, pat, j - 1));
                }
            }
            if index_of_text(t, pat) < t.len() {
                let k = index_of_text(t, pat);
                assert(occurs_at(s, pat, k + 1) == occurs_at(t, pat, k));
            }
        }
    }
}

/// Whether `c` is white space.
pub fn is_space(c: char) -> (r: bool)
    ensures
        r == is_white_space(c),
{
    ('\u{9}' <= c && c <= '\u{d}') || c == ' ' || c == '\u{85}' || c == '\u{a0}' || c == '\u{1680}'
        || ('\u{2000}' <= c && c <= '\u{200a}') || c == '\u{2028}' || c == '\u{2029}' || c
        == '\u{202f}' || c == '\u{205f}' || c == '\u{3000}'
}

/// `s` without the white space at either end.
pub fn trimmed<'a>(s: &'a str) -> (r: &'a str)
    ensures
        r@ == trim(s@),
{
    let cs = chars_of(s);
    let n: usize = cs.len();
    let mut i: usize = 0;
    assert(s@.skip(0) =~= s@);
    while i < n && is_space(cs[i])
        invariant
            n == cs.len(),
            cs@ == s@,
            i <= n,
            trim_front(s@) == trim_front(s@.skip(i as int)),
        decreases n - i,
    {
        assert(s@.skip(i as int).skip(1) =~= s@.skip(i + 1));
        i = i + 1;
    }
    let mut j: usize = n;
    assert(s@.subrange(i as int, n as int) =~= s@.skip(i as int));
    while j > i && is_space(cs[j - 1])
        invariant
            n == cs.len(),
            cs@ == s@,
            i <= j <= n,
            trim(s@) == trim_back(s@.subrange(i as int, j as int)),
        decreases j,
    {
        assert(s@.subrange(i as int, j as int).drop_last() =~= s@.subrange(i as int, j - 1));
        j = j - 1;
    }
    s.substring_char(i, j)
}

/// `s` without the run of `c` at its back.
pub fn stripped_back<'a>(s: &'a str, c: char) -> (r: &'a str)
    ensures
        r@ == strip_back(s@, c),
{
    let cs = chars_of(s);
    let mut j: usize = cs.len();
    assert(s@.take(j as int) =~= s@);
    while j > 0 && cs[j - 1] == c
        invariant
            cs@ == s@,
            j <= cs.len(),
            strip_back(s@, c) == strip_back(s@.take(j as int), c),
        decreases j,
    {
        assert(s@.take(j as int).drop_last() =~= s@.take(j - 1));
        j = j - 1;
    }
    assert(s@.take(j as int) =~= s@.subrange(0, j as int));
    s.substring_char(0, j)
}

/// The position of the first `c` in `cs`, or the length where there is none.
pub fn find_char(cs: &[char], c: char) -> (r: usize)
    ensures
        r == index_of(cs@, c),
{
    let mut i: usize = 0;
    while i < cs.len() && cs[i] != c
        invariant
            i <= cs.len(),
            forall|j: int| 0 <= j < i ==> cs@[j] != c,
        decreases cs.len() - i,
    {
        i = i + 1;
    }
    proof {
        lemma_index_of_is(cs@, c, i as int);
    }
    i
}

/// The part of `s` before its first `c` and the part after it, or nothing where there is no `c`.
pub fn cut<'a>(s: &'a str, c: char) -> (r: Option<(&'a str, &'a str)>)
    ensures
        match r {
            Some((before, after)) => {
                &&& index_of(s@, c) < s@.len()
                &&& before@ == s@.take(index_of(s@, c))
                &&& after@ == s@.skip(index_of(s@, c) + 1)
            },
            None => index_of(s@, c) == s@.len(),
        },
{
    let cs = chars_of(s);
    let i: usize = find_char(cs.as_slice(), c);
    proof {
        lemma_index_of(s@, c);
    }
    if i == cs.len() {
        return None;
    }
    let before = s.substring_char(0, i);
    let after = s.substring_char(i + 1, cs.len());
    assert(before@ =~= s@.take(i as int));
    assert(after@ =~= s@.skip(i + 1));
    Some((before, after))
}

/// The position of the first occurrence of `pat` in `cs`, or the length where there is none.
pub fn find_text(cs: &[char], pat: &[char]) -> (r: usize)
    requires
        pat@.len() > 0,
    ensures
        r == index_of_text(cs@, pat@),
{
    let n: usize = cs.len();
    let m: usize = pat.len();
    let mut i: usize = 0;
    proof {
        lemma_index_of_text(cs@, pat@);
    }
    while i < n
        invariant
            n == cs@.len(),
            m == pat@.len(),
            m > 0,
            i <= n,
            index_of_text(cs@, pat@) >= i,
            index_of_text(cs@, pat@) <= n,
            index_of_text(cs@, pat@) < n ==> occurs_at(
                cs@,
                pat@,
                index_of_text(cs@, pat@),
            ),
            forall|j: int| 0 <= j < index_of_text(cs@, pat@) ==> !occurs_at(cs@, pat@, j),
        decreases n - i,
    {
        if m > n - i {
            return n;
        }
        let mut k: usize = 0;
        while k < m && cs[i + k] == pat[k]
            invariant
                n == cs@.len(),
                m == pat@.len(),
                i + m <= n,
                k <= m,
                forall|j: int| 0 <= j < k ==> cs@[i + j] == pat@[j],
            decreases m - k,
        {
            k = k + 1;
        }
        if k == m {
            assert(cs@.subrange(i as int, i + m) =~= pat@);
            assert(occurs_at(cs@, pat@, i as int));
            return i;
        }
        assert(!occurs_at(cs@, pat@, i as int)) by {
            if occurs_at(cs@, pat@, i as int) {
                assert(cs@.subrange(i as int, i + m)[k as int] == cs@[i + k]);
            }
        }
        i = i + 1;
    }
    n
}

/// `s` and `t` hold the same characters.
pub fn same_text(s: &str, t: &str) -> (r: bool)
    ensures
        r == (s@ == t@),
{
    let a = chars_of(s);
    let b = chars_of(t);
    if a.len() != b.len() {
        return false;
    }
    let mut i: usize = 0;
    while i < a.len()
        invariant
            a.len() == b.len(),
            a@ == s@,
            b@ == t@,
            i <= a.len(),
            forall|j: int| 0 <= j < i ==> a@[j] == b@[j],
        decreases a.len() - i,
    {
        if a[i] != b[i] {
            return false;
        }
        i = i + 1;
    }
    assert(s@ =~= t@);
    true
}

/// `s` begins with `pat`.
pub open spec fn begins_with(s: Seq<char>, pat: Seq<char>) -> bool {
    s.len() >= pat.len() && s.take(pat.len() as int) == pat
}

/// Whether `s` begins with `pat`.
pub fn has_prefix(s: &str, pat: &str) -> (r: bool)
    ensures
        r == begins_with(s@, pat@),
{
    let a = chars_of(s);
    let b = chars_of(pat);
    if a.len() < b.len() {
        return false;
    }
    let mut i: usize = 0;
    while i < b.len()
        invariant
            a.len() >= b.len(),
            a@ == s@,
            b@ == pat@,
            i <= b.len(),
            forall|j: int| 0 <= j < i ==> a@[j] == b@[j],
        decreases b.len() - i,
    {
        if a[i] != b[i] {
            assert(s@.take(pat@.len() as int)[i as int] != pat@[i as int]);
            return false;
        }
        i = i + 1;
    }
    assert(s@.take(pat@.len() as int) =~= pat@);
    true
}

/// The views of a list of texts.
pub open spec fn views(v: Seq<&str>) -> Seq<Seq<char>> {
    v.map_values(|s: &str| s@)
}

/// The views of a list of owned texts.
pub open spec fn text_views(v: Seq<String>) -> Seq<Seq<char>> {
    v.map_values(|s: String| s@)
}

/// The pieces of `s` between its occurrences of `c`.
pub fn split_on<'a>(s: &'a str, c: char) -> (r: Vec<&'a str>)
    ensures
        views(r@) == split(s@, c),
{
    let mut r: Vec<&'a str> = Vec::new();
    let mut rest: &'a str = s;
    loop
        invariant_except_break
            views(r@) + split(rest@, c) == split(s@, c),
        ensures
            views(r@) == split(s@, c),
        decreases rest@.len(),
    {
        proof {
            lemma_index_of(rest@, c);
        }
        match cut(rest, c) {
            Some((before, after)) => {
                let ghost old_views = views(r@);
                r.push(before);
                assert(views(r@) =~= old_views.push(before@));
                assert(old_views.push(before@) + split(after@, c) =~= old_views + split(
                    rest@,
                    c,
                ));
                rest = after;
            },
            None => {
                let ghost old_views = views(r@);
                r.push(rest);
                assert(views(r@) =~= old_views + split(rest@, c));
                break;
            },
        }
    }
    r
}

/// Three texts joined end to end.
pub fn joined3(a: &str, b: &str, c: &str) -> (r: String)
    ensures
        r@ == a@ + b@ + c@,
{
    let mut r: String = String::new();
    r.append(a);
    r.append(b);
    r.append(c);
    assert(r@ =~= a@ + b@ + c@);
    r
}

/// The decimal digit `d`.
pub open spec fn digit(d: int) -> char {
    (d + '0' as int) as char
}

/// `n` in decimal.
pub open spec fn decimal(n: nat) -> Seq<char>
    decreases n,
{
    if n < 10 {
        seq![digit(n as int)]
    } else {
        decimal(n / 10).push(digit((n % 10) as int))
    }
}

fn digit_text(d: u64) -> (r: &'static str)
    requires
        d < 10,
    ensures
        r@ == seq![digit(d as int)],
{
    proof {
        reveal_strlit("0");
        reveal_strlit("1");
        reveal_strlit("2");
        reveal_strlit("3");
        reveal_strlit("4");
        reveal_strlit("5");
        reveal_strlit("6");
        reveal_strlit("7");
        reveal_strlit("8");
        reveal_strlit("9");
    }
    let r = match d {
        0 => "0",
        1 => "1",
        2 => "2",
        3 => "3",
        4 => "4",
        5 => "5",
        6 => "6",
        7 => "7",
        8 => "8",
        _ => "9",
    };
    assert(r@ =~= seq![digit(d as int)]);
    r
}

/// `n` in decimal.
pub fn decimal_of(n: u64) -> (r: String)
    ensures
        r@ == decimal(n as nat),
    decreases n,
{
    if n < 10 {
        digit_text(n).to_owned()
    } else {
        let mut r = decimal_of(n / 10);
        r.append(digit_text(n % 10));
        assert(r@ =~= decimal(n as nat));
        r
    }
}

/// Trimming takes white space off both ends and nothing else: what is left stands in the text from
/// `r.0` to `r.1`, all before and behind it is white space, and at its own ends there is none.
pub proof fn law_trim(s: Seq<char>) -> (r: (int, int))
    ensures
        0 <= r.0 <= r.1 <= s.len(),
        trim(s) == s.subrange(r.0, r.1),
        forall|i: int| 0 <= i < r.0 ==> is_white_space(#[trigger] s[i]),
        forall|i: int| r.1 <= i < s.len() ==> is_white_space(#[trigger] s[i]),
        r.0 < r.1 ==> !is_white_space(s[r.0]) && !is_white_space(s[r.1 - 1]),
    decreases s.len(),
{
    if s.len() > 0 && is_white_space(s[0]) {
        let (a, b) = law_trim(s.skip(1));
        assert(s.skip(1).subrange(a, b) =~= s.subrange(a + 1, b + 1));
        assert forall|i: int| 0 <= i < a + 1 implies is_white_space(#[trigger] s[i]) by {
            if i > 0 {
                assert(s.skip(1)[i - 1] == s[i]);
            }
        }
        assert forall|i: int| b + 1 <= i < s.len() implies is_white_space(#[trigger] s[i]) by {
            assert(s.skip(1)[i - 1] == s[i]);
        }
        (a + 1, b + 1)
    } else {
        let b = lemma_trim_back(s);
        assert(s.take(b) =~= s.subrange(0, b));
        (0, b)
    }
}

proof fn lemma_trim_back(s: Seq<char>) -> (n: int)
    ensures
        0 <= n <= s.len(),
        trim_back(s) == s.take(n),
        forall|i: int| n <= i < s.len() ==> is_white_space(#[trigger] s[i]),
        n > 0 ==> !is_white_space(s[n - 1]),
    decreases s.len(),
{
    if s.len() > 0 && is_white_space(s.last()) {
        let n = lemma_trim_back(s.drop_last());
        assert(s.drop_last().take(n) =~= s.take(n));
        assert forall|i: int| n <= i < s.len() implies is_white_space(#[trigger] s[i]) by {
            if i < s.len() - 1 {
                assert(s.drop_last()[i] == s[i]);
            }
        }
        if n > 0 {
            assert(s.drop_last()[n - 1] == s[n - 1]);
        }
        n
    } else {
        assert(s.take(s.len() as int) =~= s);
        s.len() as int
    }
}

/// Stripping takes the run of `c` off the back and nothing else: `n` characters are left, all
/// behind them are `c`, and the last of them is not.
pub proof fn law_strip_back(s: Seq<char>, c: char) -> (n: int)
    ensures
        0 <= n <= s.len(),
        strip_back(s, c) == s.take(n),
        forall|i: int| n <= i < s.len() ==> #[trigger] s[i] == c,
        n > 0 ==> s[n - 1] != c,
    decreases s.len(),
{
    if s.len() > 0 && s.last() == c {
        let n = law_strip_back(s.drop_last(), c);
        assert(s.drop_last().take(n) =~= s.take(n));
        assert forall|i: int| n <= i < s.len() implies #[trigger] s[i] == c by {
            if i < s.len() - 1 {
                assert(s.drop_last()[i] == s[i]);
            }
        }
        if n > 0 {
            assert(s.drop_last()[n - 1] == s[n - 1]);
        }
        n
    } else {
        assert(s.take(s.len() as int) =~= s);
        s.len() as int
    }
}

/// A text without the character that it is split at is one piece.
pub proof fn law_split_of_one(s: Seq<char>, c: char)
    requires
        !s.contains(c),
    ensures
        split(s, c) == seq![s],
{
    lemma_index_of(s, c);
    if index_of(s, c) < s.len() {
        assert(s.contains(s[index_of(s, c)]));
    }
}

/// The characters of a number in decimal are its digits to the base 10, the most significant first,
/// with no zero in front of others.
pub proof fn law_decimal(n: nat, k: int)
    requires
        0 <= k < decimal(n).len(),
    ensures
        decimal(n)[k] as int - '0' as int == n as int / pow(10, (decimal(n).len() - 1 - k) as nat)
            % 10,
        n < pow(10, decimal(n).len()),
        decimal(n).len() > 1 ==> decimal(n)[0] != '0',
    decreases n,
{
    reveal(pow);
    if n < 10 {
        assert(decimal(n).len() == 1);
        reveal_with_fuel(pow, 2);
        assert(pow(10, 0) == 1);
        assert(pow(10, 1) == 10);
        assert(n as int / 1 % 10 == n);
    } else {
        let m = n / 10;
        let front = decimal(m);
        assert(decimal(n) == front.push(digit((n % 10) as int)));
        lemma_decimal_len(m);
        law_decimal(m, 0);
        assert(pow(10, decimal(n).len()) == 10 * pow(10, front.len()));
        assert(n < 10 * pow(10, front.len()));
        if k < front.len() {
            let p = pow(10, (front.len() - 1 - k) as nat);
            law_decimal(m, k);
            lemma_pow_positive(10, (front.len() - 1 - k) as nat);
            vstd::arithmetic::div_mod::lemma_div_denominator(n as int, 10, p);
            assert(pow(10, (decimal(n).len() - 1 - k) as nat) == 10 * p);
            assert(decimal(n)[k] == front[k]);
        } else {
            assert(pow(10, 0) == 1);
            assert(decimal(n)[k] == digit((n % 10) as int));
        }
        assert(decimal(n)[0] == front[0]);
        if front.len() == 1 {
            lemma_decimal_short(m);
        }
    }
}

/// Every number has a digit.
pub proof fn lemma_decimal_len(n: nat)
    ensures
        decimal(n).len() > 0,
    decreases n,
{
    if n >= 10 {
        lemma_decimal_len(n / 10);
    }
}

proof fn lemma_decimal_short(n: nat)
    requires
        decimal(n).len() == 1,
    ensures
        n < 10,
{
    if n >= 10 {
        lemma_decimal_len(n / 10);
    }
}

/// A text without white space at its ends stays as it is when it is trimmed; so a trimmed text does.
pub proof fn law_trim_again(s: Seq<char>)
    ensures
        s.len() == 0 || (!is_white_space(s[0]) && !is_white_space(s.last())) ==> trim(s) == s,
        trim(trim(s)) == trim(s),
{
    let (a, b) = law_trim(s);
    let t = trim(s);
    if t.len() > 0 {
        assert(t[0] == s[a] && t.last() == s[b - 1]);
    }
}

} // verus!
