//! Character-level helpers: whitespace classification, trimming, searching
//! for a character, string equality and substring containment. These are the
//! building blocks of the line classifier and the rewriter.

use vstd::prelude::*;
use vstd::string::*;

verus! {

/// The Unicode White_Space characters: the set that `char::is_whitespace`
/// accepts.
pub open spec fn is_ws(c: char) -> bool {
    let u = c as u32;
    u == 0x09 || u == 0x0A || u == 0x0B || u == 0x0C || u == 0x0D || u == 0x20 || u == 0x85
        || u == 0xA0 || u == 0x1680 || (0x2000 <= u && u <= 0x200A) || u == 0x2028 || u == 0x2029
        || u == 0x202F || u == 0x205F || u == 0x3000
}

/// Whitespace test on one character, deciding exactly `is_ws`.
pub fn is_ws_char(c: char) -> (b: bool)
    ensures
        b == is_ws(c),
{
    let u = c as u32;
    u == 0x09 || u == 0x0A || u == 0x0B || u == 0x0C || u == 0x0D || u == 0x20 || u == 0x85
        || u == 0xA0 || u == 0x1680 || (0x2000 <= u && u <= 0x200A) || u == 0x2028 || u == 0x2029
        || u == 0x202F || u == 0x205F || u == 0x3000
}

/// The sequence with its leading whitespace removed.
pub open spec fn trim_start_spec(s: Seq<char>) -> Seq<char>
    decreases s.len(),
{
    if s.len() > 0 && is_ws(s[0]) {
        trim_start_spec(s.drop_first())
    } else {
        s
    }
}

/// The sequence with its trailing whitespace removed.
pub open spec fn trim_end_spec(s: Seq<char>) -> Seq<char>
    decreases s.len(),
{
    if s.len() > 0 && is_ws(s.last()) {
        trim_end_spec(s.drop_last())
    } else {
        s
    }
}

/// The sequence with whitespace removed from both ends: what `str::trim`
/// returns.
pub open spec fn trim_spec(s: Seq<char>) -> Seq<char> {
    trim_end_spec(trim_start_spec(s))
}

pub proof fn lemma_trim_start_len(s: Seq<char>)
    ensures
        trim_start_spec(s).len() <= s.len(),
    decreases s.len(),
{
    if s.len() > 0 && is_ws(s[0]) {
        lemma_trim_start_len(s.drop_first());
    }
}

pub proof fn lemma_trim_end_len(s: Seq<char>)
    ensures
        trim_end_spec(s).len() <= s.len(),
    decreases s.len(),
{
    if s.len() > 0 && is_ws(s.last()) {
        lemma_trim_end_len(s.drop_last());
    }
}

/// Prepending whitespace does not change the start-trimmed value.
pub proof fn lemma_trim_start_ws_prefix(p: Seq<char>, t: Seq<char>)
    requires
        forall|i: int| 0 <= i < p.len() ==> is_ws(p[i]),
    ensures
        trim_start_spec(p + t) == trim_start_spec(t),
    decreases p.len(),
{
    if p.len() == 0 {
        assert(p + t =~= t);
    } else {
        assert((p + t)[0] == p[0]);
        assert((p + t).drop_first() =~= p.drop_first() + t);
        assert(forall|i: int| 0 <= i < p.drop_first().len() ==> is_ws(#[trigger] p.drop_first()[i]))
            by {
            assert(forall|i: int| 0 <= i < p.drop_first().len() ==> p.drop_first()[i] == p[i + 1]);
        }
        lemma_trim_start_ws_prefix(p.drop_first(), t);
    }
}

/// A sequence equal to its own trim neither starts nor ends with whitespace.
pub proof fn lemma_trim_fixed_ends(k: Seq<char>)
    requires
        trim_spec(k) == k,
        k.len() > 0,
    ensures
        !is_ws(k[0]),
        !is_ws(k.last()),
{
    if is_ws(k[0]) {
        lemma_trim_start_len(k.drop_first());
        lemma_trim_end_len(trim_start_spec(k));
        assert(trim_spec(k).len() < k.len());
        assert(false);
    }
    assert(trim_start_spec(k) == k);
    if is_ws(k.last()) {
        lemma_trim_end_len(k.drop_last());
        assert(trim_end_spec(k).len() < k.len());
        assert(false);
    }
}

/// The index where the leading whitespace of `s` ends.
pub fn leading_end(s: &str) -> (a: usize)
    ensures
        a <= s@.len(),
        trim_start_spec(s@) == s@.skip(a as int),
        forall|j: int| 0 <= j < a ==> is_ws(s@[j]),
        a < s@.len() ==> !is_ws(s@[a as int]),
{
    let n = s.unicode_len();
    let mut i: usize = 0;
    proof {
        assert(s@.skip(0) =~= s@);
    }
    while i < n && is_ws_char(s.get_char(i))
        invariant
            n == s@.len(),
            0 <= i <= n,
            trim_start_spec(s@) == trim_start_spec(s@.skip(i as int)),
            forall|j: int| 0 <= j < i ==> is_ws(s@[j]),
        decreases n - i,
    {
        proof {
            let cur = s@.skip(i as int);
            assert(cur[0] == s@[i as int]);
            assert(cur.drop_first() =~= s@.skip(i as int + 1));
        }
        i = i + 1;
    }
    proof {
        let cur = s@.skip(i as int);
        if i < n {
            assert(cur[0] == s@[i as int]);
            assert(trim_start_spec(cur) == cur);
        } else {
            assert(cur.len() == 0);
            assert(trim_start_spec(cur) == cur);
        }
    }
    i
}

/// `str::trim`: the slice with leading and trailing whitespace removed.
pub fn trim_exec<'a>(s: &'a str) -> (r: &'a str)
    ensures
        r@ == trim_spec(s@),
{
    let n = s.unicode_len();
    let a = leading_end(s);
    proof {
        assert(s@.skip(a as int) =~= s@.subrange(a as int, n as int));
    }
    let mut b: usize = n;
    while b > a && is_ws_char(s.get_char(b - 1))
        invariant
            n == s@.len(),
            a <= b <= n,
            trim_start_spec(s@) == s@.subrange(a as int, n as int),
            trim_end_spec(s@.subrange(a as int, n as int)) == trim_end_spec(
                s@.subrange(a as int, b as int),
            ),
        decreases b,
    {
        proof {
            let cur = s@.subrange(a as int, b as int);
            assert(cur.last() == s@[b - 1]);
            assert(cur.drop_last() =~= s@.subrange(a as int, b as int - 1));
        }
        b = b - 1;
    }
    proof {
        let cur = s@.subrange(a as int, b as int);
        if b > a {
            assert(cur.last() == s@[b - 1]);
            assert(trim_end_spec(cur) == cur);
        } else {
            assert(cur.len() == 0);
            assert(trim_end_spec(cur) == cur);
        }
    }
    s.substring_char(a, b)
}

/// The position of the first occurrence of `c` in `s`, if any.
pub open spec fn find_char(s: Seq<char>, c: char) -> Option<int>
    decreases s.len(),
{
    if s.len() == 0 {
        None
    } else if s[0] == c {
        Some(0int)
    } else {
        match find_char(s.drop_first(), c) {
            Some(i) => Some(i + 1),
            None => None,
        }
    }
}

/// `find_char` returns the first position holding `c`, or `None` when `c`
/// does not occur.
pub proof fn lemma_find_char(s: Seq<char>, c: char)
    ensures
        match find_char(s, c) {
            Some(i) => 0 <= i < s.len() && s[i] == c && (forall|j: int| 0 <= j < i ==> s[j] != c),
            None => forall|j: int| 0 <= j < s.len() ==> s[j] != c,
        },
    decreases s.len(),
{
    if s.len() > 0 && s[0] != c {
        let t = s.drop_first();
        lemma_find_char(t, c);
        match find_char(t, c) {
            Some(i) => {
                assert(s[i + 1] == t[i]);
                assert forall|j: int| 0 <= j < i + 1 implies s[j] != c by {
                    if j > 0 {
                        assert(t[j - 1] == s[j]);
                    }
                }
            },
            None => {
                assert forall|j: int| 0 <= j < s.len() implies s[j] != c by {
                    if j > 0 {
                        assert(t[j - 1] == s[j]);
                    }
                }
            },
        }
    }
}

/// A position holding `c` before which `c` does not occur is what
/// `find_char` returns.
pub proof fn lemma_find_char_at(s: Seq<char>, c: char, i: int)
    requires
        0 <= i < s.len(),
        s[i] == c,
        forall|j: int| 0 <= j < i ==> s[j] != c,
    ensures
        find_char(s, c) == Some(i),
{
    lemma_find_char(s, c);
    match find_char(s, c) {
        Some(m) => {
            if m < i {
                assert(s[m] != c);
                assert(false);
            }
            if m > i {
                assert(s[i] != c);
                assert(false);
            }
        },
        None => {
            assert(s[i] != c);
            assert(false);
        },
    }
}

/// When `c` does not occur in `s`, `find_char` returns `None`.
pub proof fn lemma_find_char_none(s: Seq<char>, c: char)
    requires
        forall|j: int| 0 <= j < s.len() ==> s[j] != c,
    ensures
        find_char(s, c) is None,
{
    lemma_find_char(s, c);
    match find_char(s, c) {
        Some(m) => {
            assert(s[m] != c);
            assert(false);
        },
        None => {},
    }
}

/// The position of the first occurrence of `c` in `s` at or after `from`.
pub fn find_char_from(s: &str, c: char, from: usize) -> (r: Option<usize>)
    requires
        from <= s@.len(),
    ensures
        match r {
            Some(j) => from <= j < s@.len() && s@[j as int] == c && (forall|k: int|
                from <= k < j ==> s@[k] != c) && find_char(s@.skip(from as int), c) == Some(
                j - from as int,
            ),
            None => (forall|k: int| from <= k < s@.len() ==> s@[k] != c) && find_char(
                s@.skip(from as int),
                c,
            ) is None,
        },
{
    let n = s.unicode_len();
    let mut i: usize = from;
    while i < n
        invariant
            n == s@.len(),
            from <= i <= n,
            forall|k: int| from <= k < i ==> s@[k] != c,
        decreases n - i,
    {
        if s.get_char(i) == c {
            proof {
                let t = s@.skip(from as int);
                assert(forall|k: int| 0 <= k < t.len() ==> t[k] == s@[k + from]);
                lemma_find_char_at(t, c, i - from as int);
            }
            return Some(i);
        }
        i = i + 1;
    }
    proof {
        let t = s@.skip(from as int);
        assert(forall|k: int| 0 <= k < t.len() ==> t[k] == s@[k + from]);
        lemma_find_char_none(t, c);
    }
    None
}

/// Character-for-character string equality.
pub fn str_eq(a: &str, b: &str) -> (r: bool)
    ensures
        r == (a@ == b@),
{
    let na = a.unicode_len();
    let nb = b.unicode_len();
    if na != nb {
        return false;
    }
    let mut i: usize = 0;
    while i < na
        invariant
            na == a@.len(),
            nb == b@.len(),
            na == nb,
            0 <= i <= na,
            forall|j: int| 0 <= j < i ==> a@[j] == b@[j],
        decreases na - i,
    {
        if a.get_char(i) != b.get_char(i) {
            proof {
                assert(a@[i as int] != b@[i as int]);
            }
            return false;
        }
        i = i + 1;
    }
    proof {
        assert(a@ =~= b@);
    }
    true
}

/// `needle` occurs in `hay` as a contiguous run of characters.
pub open spec fn contains_sub(hay: Seq<char>, needle: Seq<char>) -> bool {
    exists|p: int|
        0 <= p && p + needle.len() <= hay.len() && #[trigger] hay.subrange(p, p + needle.len())
            == needle
}

} // verus!
