//! The hash rewriter: a line-oriented, indentation-preserving rewrite of one
//! `key = value` assignment in a configuration file's text.
//!
//! The content is split into lines the way `str::lines` splits (at `\n`,
//! dropping one `\r` before each `\n` and an optional final line ending).
//! A line matches the key when, after trimming, the text before its first
//! `=` trims to exactly the key. Every matching line is rebuilt as
//! `<indent><key> = "<value>";` with the original leading whitespace kept
//! verbatim; all other lines pass through unchanged. The rewritten lines are
//! joined with `\n`.

use vstd::prelude::*;
use vstd::string::*;
use crate::chars::{
    find_char, lemma_find_char, trim_spec, trim_start_spec, find_char_from, leading_end, str_eq,
    trim_exec,
};

verus! {

/// One `\r` dropped from the end, as `str::lines` does before each `\n`.
pub open spec fn strip_cr(l: Seq<char>) -> Seq<char> {
    if l.len() > 0 && l.last() == '\r' {
        l.drop_last()
    } else {
        l
    }
}

/// The lines of `s`, as `str::lines` yields them: pieces between `\n`
/// separators, each with one trailing `\r` removed, and no final empty piece
/// after a terminating `\n`.
pub open spec fn lines_of(s: Seq<char>) -> Seq<Seq<char>>
    decreases s.len()
    via lines_of_dec
{
    if s.len() == 0 {
        seq![]
    } else {
        match find_char(s, '\n') {
            Some(i) => seq![strip_cr(s.take(i))] + lines_of(s.skip(i + 1)),
            None => seq![s],
        }
    }
}

#[via_fn]
proof fn lines_of_dec(s: Seq<char>) {
    if s.len() > 0 {
        lemma_find_char(s, '\n');
    }
}

/// The pieces joined with a single `\n` between consecutive pieces.
pub open spec fn join_lines(ls: Seq<Seq<char>>) -> Seq<char>
    decreases ls.len(),
{
    if ls.len() == 0 {
        seq![]
    } else if ls.len() == 1 {
        ls[0]
    } else {
        ls[0] + seq!['\n'] + join_lines(ls.drop_first())
    }
}

pub proof fn lemma_join_push(ls: Seq<Seq<char>>, x: Seq<char>)
    requires
        ls.len() > 0,
    ensures
        join_lines(ls.push(x)) == join_lines(ls) + seq!['\n'] + x,
    decreases ls.len(),
{
    if ls.len() == 1 {
        assert(ls.push(x).drop_first() =~= seq![x]);
        assert(ls.push(x)[0] == ls[0]);
        assert(join_lines(seq![x]) == x);
    } else {
        assert(ls.push(x).drop_first() =~= ls.drop_first().push(x));
        assert(ls.push(x)[0] == ls[0]);
        lemma_join_push(ls.drop_first(), x);
        assert(ls[0] + seq!['\n'] + (join_lines(ls.drop_first()) + seq!['\n'] + x) =~= (ls[0]
            + seq!['\n'] + join_lines(ls.drop_first())) + seq!['\n'] + x);
    }
}

/// Whether a line is an assignment of `key`: ignoring surrounding
/// whitespace, the text before the first `=` trims to exactly `key`.
pub open spec fn line_matches(line: Seq<char>, key: Seq<char>) -> bool {
    match find_char(trim_spec(line), '=') {
        Some(i) => trim_spec(trim_spec(line).take(i)) == key,
        None => false,
    }
}

/// The line's leading whitespace, verbatim.
pub open spec fn indent_of(line: Seq<char>) -> Seq<char> {
    line.take(line.len() - trim_start_spec(line).len())
}

/// The text `<key> = "<value>";`.
pub open spec fn quoted_assign(key: Seq<char>, value: Seq<char>) -> Seq<char> {
    key + seq![' ', '=', ' ', '"'] + value + seq!['"', ';']
}

/// One line after the rewrite: a matching line becomes its indentation
/// followed by `key = "value";`, any other line is unchanged.
pub open spec fn rewrite_line(line: Seq<char>, key: Seq<char>, value: Seq<char>) -> Seq<char> {
    if line_matches(line, key) {
        indent_of(line) + quoted_assign(key, value)
    } else {
        line
    }
}

/// All lines of `content` after the rewrite.
pub open spec fn rewritten_lines(content: Seq<char>, key: Seq<char>, value: Seq<char>) -> Seq<
    Seq<char>,
> {
    lines_of(content).map_values(|l: Seq<char>| rewrite_line(l, key, value))
}

/// Whether some line of `content` assigns `key`.
pub open spec fn key_found(content: Seq<char>, key: Seq<char>) -> bool {
    exists|i: int|
        0 <= i < lines_of(content).len() && line_matches(#[trigger] lines_of(content)[i], key)
}

/// The whole content after the rewrite: every line rewritten, joined with
/// `\n`.
pub open spec fn replaced_content(content: Seq<char>, key: Seq<char>, value: Seq<char>) -> Seq<
    char,
> {
    join_lines(rewritten_lines(content, key, value))
}

/// The requested key was assigned on no line of the file.
#[derive(Debug)]
pub struct KeyNotFoundError {
    pub key: String,
}

impl KeyNotFoundError {
    /// The diagnostic text naming the missing key.
    pub fn message(&self) -> (m: String)
        ensures
            m@ == "hash `"@ + self.key@ + "` not found"@,
    {
        let mut m = "hash `".to_owned();
        m.append(self.key.as_str());
        m.append("` not found");
        m
    }
}

/// The content split into lines, as `str::lines` splits it.
pub fn split_lines(s: &str) -> (v: Vec<String>)
    ensures
        v@.map_values(|l: String| l@) == lines_of(s@),
{
    let n = s.unicode_len();
    let mut v: Vec<String> = Vec::new();
    let mut p: usize = 0;
    proof {
        assert(s@.skip(0) =~= s@);
        assert(v@.map_values(|l: String| l@) =~= Seq::<Seq<char>>::empty());
        assert(Seq::<Seq<char>>::empty() + lines_of(s@) =~= lines_of(s@));
    }
    while p < n
        invariant
            n == s@.len(),
            0 <= p <= n,
            lines_of(s@) == v@.map_values(|l: String| l@) + lines_of(s@.skip(p as int)),
        decreases n - p,
    {
        let ghost rest = s@.skip(p as int);
        let ghost prev = v@.map_values(|l: String| l@);
        match find_char_from(s, '\n', p) {
            Some(j) => {
                let piece = if j > p && s.get_char(j - 1) == '\r' {
                    s.substring_char(p, j - 1)
                } else {
                    s.substring_char(p, j)
                };
                proof {
                    let i = j - p as int;
                    assert(rest.take(i) =~= s@.subrange(p as int, j as int));
                    if j > p && s@[j - 1] == '\r' {
                        assert(rest.take(i).last() == s@[j - 1]);
                        assert(rest.take(i).drop_last() =~= s@.subrange(p as int, j as int - 1));
                        assert(strip_cr(rest.take(i)) == piece@);
                    } else {
                        assert(strip_cr(rest.take(i)) == piece@);
                    }
                    assert(rest.skip(i + 1) =~= s@.skip(j + 1));
                    assert(lines_of(rest) == seq![piece@] + lines_of(s@.skip(j + 1)));
                }
                v.push(piece.to_owned());
                p = j + 1;
                proof {
                    assert(v@.map_values(|l: String| l@) =~= prev.push(piece@));
                    assert(prev + (seq![piece@] + lines_of(s@.skip(p as int))) =~= prev.push(
                        piece@,
                    ) + lines_of(s@.skip(p as int)));
                }
            },
            None => {
                let piece = s.substring_char(p, n);
                proof {
                    assert(rest =~= s@.subrange(p as int, n as int));
                    assert(lines_of(rest) == seq![rest]);
                }
                v.push(piece.to_owned());
                p = n;
                proof {
                    assert(s@.skip(n as int).len() == 0);
                    assert(lines_of(s@.skip(n as int)) =~= Seq::<Seq<char>>::empty());
                    assert(v@.map_values(|l: String| l@) =~= prev.push(piece@));
                    assert(prev + seq![piece@] =~= prev.push(piece@) + Seq::<Seq<char>>::empty());
                }
            },
        }
    }
    proof {
        assert(s@.skip(p as int).len() == 0);
        assert(lines_of(s@.skip(p as int)) =~= Seq::<Seq<char>>::empty());
        assert(v@.map_values(|l: String| l@) + Seq::<Seq<char>>::empty() =~= v@.map_values(
            |l: String| l@,
        ));
    }
    v
}

/// Whether this line assigns `key`, deciding exactly `line_matches`.
pub fn line_matches_exec(line: &str, key: &str) -> (b: bool)
    ensures
        b == line_matches(line@, key@),
{
    let t = trim_exec(line);
    proof {
        assert(t@.skip(0) =~= t@);
    }
    match find_char_from(t, '=', 0) {
        Some(j) => {
            let k = t.substring_char(0, j);
            let kt = trim_exec(k);
            let r = str_eq(kt, key);
            proof {
                assert(t@.take(j as int) =~= t@.subrange(0, j as int));
            }
            r
        },
        None => false,
    }
}

/// One line after the rewrite, with whether it matched.
pub fn rewrite_line_exec(line: &str, key: &str, value: &str) -> (r: (String, bool))
    ensures
        r.0@ == rewrite_line(line@, key@, value@),
        r.1 == line_matches(line@, key@),
{
    let matched = line_matches_exec(line, key);
    if matched {
        let a = leading_end(line);
        let mut out = line.substring_char(0, a).to_owned();
        out.append(key);
        out.append(" = \"");
        out.append(value);
        out.append("\";");
        proof {
            reveal_strlit(" = \"");
            reveal_strlit("\";");
            assert(" = \""@ =~= seq![' ', '=', ' ', '"']);
            assert("\";"@ =~= seq!['"', ';']);
            assert(line@.subrange(0, a as int) =~= line@.take(
                line@.len() - trim_start_spec(line@).len(),
            ));
            assert(out@ =~= indent_of(line@) + quoted_assign(key@, value@));
        }
        (out, true)
    } else {
        (line.to_owned(), false)
    }
}

/// Rewrite every line of `contents` that assigns `hash_key` to
/// `hash_key = "new_hash";`, keeping each such line's leading whitespace and
/// leaving every other line unchanged; the lines come back joined with `\n`.
/// Returns `Ok` exactly when some line assigns the key, and otherwise an
/// error naming the key, with the contents untouched.
pub fn parse_and_replace_hash(contents: &str, hash_key: &str, new_hash: &str) -> (r: Result<
    String,
    KeyNotFoundError,
>)
    ensures
        r is Ok <==> key_found(contents@, hash_key@),
        (r matches Ok(out) ==> out@ == replaced_content(contents@, hash_key@, new_hash@)),
        (r matches Err(e) ==> e.key@ == hash_key@),
{
    let lines = split_lines(contents);
    let ghost ls = lines_of(contents@);
    let ghost ms = rewritten_lines(contents@, hash_key@, new_hash@);
    let mut out = String::new();
    let mut found = false;
    let mut i: usize = 0;
    proof {
        assert(ms.take(0) =~= Seq::<Seq<char>>::empty());
        assert(out@ =~= join_lines(ms.take(0)));
    }
    while i < lines.len()
        invariant
            lines@.map_values(|l: String| l@) == ls,
            ls == lines_of(contents@),
            ms == rewritten_lines(contents@, hash_key@, new_hash@),
            0 <= i <= lines.len(),
            out@ == join_lines(ms.take(i as int)),
            found == exists|k: int| 0 <= k < i && line_matches(#[trigger] ls[k], hash_key@),
        decreases lines.len() - i,
    {
        let (nl, m) = rewrite_line_exec(lines[i].as_str(), hash_key, new_hash);
        proof {
            assert(ls[i as int] == lines@.map_values(|l: String| l@)[i as int]);
            assert(ms[i as int] == rewrite_line(ls[i as int], hash_key@, new_hash@));
            assert(ms.take(i as int + 1) =~= ms.take(i as int).push(ms[i as int]));
        }
        if i > 0 {
            out.append("\n");
            out.append(nl.as_str());
            proof {
                reveal_strlit("\n");
                assert("\n"@ =~= seq!['\n']);
                assert(ms.take(i as int).len() > 0);
                lemma_join_push(ms.take(i as int), ms[i as int]);
            }
        } else {
            out.append(nl.as_str());
            proof {
                assert(join_lines(seq![ms[0]]) == ms[0]);
                assert(ms.take(1) =~= seq![ms[0]]);
                assert(out@ =~= join_lines(ms.take(1)));
            }
        }
        found = found || m;
        i = i + 1;
    }
    proof {
        assert(ms.take(lines@.len() as int) =~= ms);
    }
    if found {
        Ok(out)
    } else {
        Err(KeyNotFoundError { key: hash_key.to_owned() })
    }
}

} // verus!
