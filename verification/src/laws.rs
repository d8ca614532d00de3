//! The library's laws: proof functions relating the rewriter's pieces across
//! calls — what a rewrite keeps, what it removes, and that repeating it
//! changes nothing more.

use vstd::prelude::*;
use crate::chars::{
    contains_sub, find_char, is_ws, lemma_find_char, lemma_find_char_at, lemma_find_char_none,
    lemma_trim_fixed_ends, lemma_trim_start_len, lemma_trim_start_ws_prefix, trim_end_spec,
    trim_spec, trim_start_spec,
};
use crate::rewrite::{
    indent_of, join_lines, key_found, line_matches, lines_of, quoted_assign, replaced_content,
    rewrite_line, rewritten_lines, strip_cr,
};

verus! {

/// Law: on a matching line, the rewritten line starts with the original
/// line's leading whitespace, character for character.
pub proof fn lemma_indent_preserved(line: Seq<char>, key: Seq<char>, value: Seq<char>)
    requires
        line_matches(line, key),
    ensures
        indent_of(line) == line.take(indent_of(line).len() as int),
        rewrite_line(line, key, value).take(indent_of(line).len() as int) == indent_of(line),
{
    lemma_trim_start_len(line);
    assert(line.take(indent_of(line).len() as int) =~= indent_of(line));
    assert((indent_of(line) + quoted_assign(key, value)).take(indent_of(line).len() as int)
        =~= indent_of(line));
}

/// A matching line comes out of the rewrite as its indentation followed by
/// `key = "value";`.
pub proof fn lemma_line_rewritten(content: Seq<char>, key: Seq<char>, value: Seq<char>, i: int)
    requires
        0 <= i < lines_of(content).len(),
        line_matches(lines_of(content)[i], key),
    ensures
        rewritten_lines(content, key, value)[i] == indent_of(lines_of(content)[i])
            + quoted_assign(key, value),
{
}

/// A line that does not assign the key passes through the rewrite unchanged.
pub proof fn lemma_line_unchanged(content: Seq<char>, key: Seq<char>, value: Seq<char>, i: int)
    requires
        0 <= i < lines_of(content).len(),
        !line_matches(lines_of(content)[i], key),
    ensures
        rewritten_lines(content, key, value)[i] == lines_of(content)[i],
{
}

/// Law: replacing one key leaves a line assigning any other key unchanged,
/// character for character.
pub proof fn lemma_distinct_key_unchanged(
    content: Seq<char>,
    key: Seq<char>,
    other: Seq<char>,
    value: Seq<char>,
    i: int,
)
    requires
        0 <= i < lines_of(content).len(),
        line_matches(lines_of(content)[i], other),
        other != key,
    ensures
        rewritten_lines(content, key, value)[i] == lines_of(content)[i],
{
    if line_matches(lines_of(content)[i], key) {
        assert(false);
    }
    lemma_line_unchanged(content, key, value, i);
}

/// Every piece stands contiguously in the joined text.
pub proof fn lemma_join_contains_piece(ls: Seq<Seq<char>>, i: int)
    requires
        0 <= i < ls.len(),
    ensures
        contains_sub(join_lines(ls), ls[i]),
    decreases ls.len(),
{
    if ls.len() == 1 {
        assert(join_lines(ls).subrange(0, ls[0].len() as int) =~= ls[0]);
        assert(join_lines(ls).subrange(0int, 0int + ls[0].len() as int) == ls[0]);
    } else if i == 0 {
        assert(join_lines(ls).subrange(0, ls[0].len() as int) =~= ls[0]);
        assert(join_lines(ls).subrange(0int, 0int + ls[0].len() as int) == ls[0]);
    } else {
        let tail = ls.drop_first();
        lemma_join_contains_piece(tail, i - 1);
        let x = tail[i - 1];
        let p = choose|p: int|
            0 <= p && p + x.len() <= join_lines(tail).len() && #[trigger] join_lines(
                tail,
            ).subrange(p, p + x.len()) == x;
        let q = p + ls[0].len() + 1;
        assert(join_lines(ls).subrange(q, q + x.len()) =~= join_lines(tail).subrange(
            p,
            p + x.len(),
        ));
        assert(ls[i] == x);
        assert(join_lines(ls).subrange(q, q + ls[i].len() as int) == ls[i]);
    }
}

/// Law: after a successful replacement the output holds the new assignment
/// line — the matched line's indentation followed by `key = "value";` — as a
/// contiguous run of characters.
pub proof fn lemma_new_assignment_present(
    content: Seq<char>,
    key: Seq<char>,
    value: Seq<char>,
    i: int,
)
    requires
        0 <= i < lines_of(content).len(),
        line_matches(lines_of(content)[i], key),
    ensures
        contains_sub(
            replaced_content(content, key, value),
            indent_of(lines_of(content)[i]) + quoted_assign(key, value),
        ),
{
    lemma_line_rewritten(content, key, value, i);
    lemma_join_contains_piece(rewritten_lines(content, key, value), i);
}

/// A needle free of `\n` that occurs in neither side cannot occur in the two
/// sides joined by `\n`.
pub proof fn lemma_sep_concat_no_sub(a: Seq<char>, b: Seq<char>, x: Seq<char>)
    requires
        !contains_sub(a, x),
        !contains_sub(b, x),
        !x.contains('\n'),
        x.len() > 0,
    ensures
        !contains_sub(a + seq!['\n'] + b, x),
{
    let h = a + seq!['\n'] + b;
    assert forall|p: int| 0 <= p && p + x.len() <= h.len() implies #[trigger] h.subrange(
        p,
        p + x.len(),
    ) != x by {
        if h.subrange(p, p + x.len()) == x {
            if p + x.len() <= a.len() {
                assert(a.subrange(p, p + x.len()) =~= h.subrange(p, p + x.len()));
                assert(false);
            } else if p > a.len() {
                let q = p - a.len() - 1;
                assert(b.subrange(q, q + x.len()) =~= h.subrange(p, p + x.len()));
                assert(false);
            } else {
                assert(h[a.len() as int] == '\n');
                assert(x[a.len() - p] == h.subrange(p, p + x.len())[a.len() - p]);
                assert(x.contains('\n'));
                assert(false);
            }
        }
    }
}

/// A needle free of `\n` that occurs in no piece cannot occur in the pieces
/// joined with `\n`.
pub proof fn lemma_join_no_sub(ls: Seq<Seq<char>>, x: Seq<char>)
    requires
        forall|i: int| 0 <= i < ls.len() ==> !contains_sub(#[trigger] ls[i], x),
        !x.contains('\n'),
        x.len() > 0,
    ensures
        !contains_sub(join_lines(ls), x),
    decreases ls.len(),
{
    if ls.len() == 0 {
        assert(join_lines(ls).len() == 0);
    } else if ls.len() == 1 {
        assert(join_lines(ls) == ls[0]);
    } else {
        let tail = ls.drop_first();
        assert(forall|i: int| 0 <= i < tail.len() ==> tail[i] == ls[i + 1]);
        lemma_join_no_sub(tail, x);
        lemma_sep_concat_no_sub(ls[0], join_lines(tail), x);
    }
}

/// Law: a successful replacement removes every trace of the old value, for
/// any old value free of `\n` that stood only in the matching lines and does
/// not stand in the replacement line.
pub proof fn lemma_old_value_absent(
    content: Seq<char>,
    key: Seq<char>,
    value: Seq<char>,
    prev: Seq<char>,
)
    requires
        prev.len() > 0,
        !prev.contains('\n'),
        forall|i: int|
            0 <= i < lines_of(content).len() && !line_matches(
                #[trigger] lines_of(content)[i],
                key,
            ) ==> !contains_sub(lines_of(content)[i], prev),
        forall|i: int|
            0 <= i < lines_of(content).len() && line_matches(
                #[trigger] lines_of(content)[i],
                key,
            ) ==> !contains_sub(indent_of(lines_of(content)[i]) + quoted_assign(key, value), prev),
    ensures
        !contains_sub(replaced_content(content, key, value), prev),
{
    let ms = rewritten_lines(content, key, value);
    assert forall|i: int| 0 <= i < ms.len() implies !contains_sub(#[trigger] ms[i], prev) by {
        if line_matches(lines_of(content)[i], key) {
            lemma_line_rewritten(content, key, value, i);
        } else {
            lemma_line_unchanged(content, key, value, i);
        }
    }
    lemma_join_no_sub(ms, prev);
}

/// The line ends in a bare `\r`, which joining and re-splitting would drop.
pub open spec fn cr_terminated(l: Seq<char>) -> bool {
    l.len() > 0 && l.last() == '\r'
}

/// Where each character of `key = "value";` stands.
pub proof fn lemma_quoted_assign_chars(key: Seq<char>, value: Seq<char>)
    ensures
        quoted_assign(key, value).len() == key.len() + value.len() + 6,
        forall|j: int| 0 <= j < key.len() ==> #[trigger] quoted_assign(key, value)[j] == key[j],
        forall|j: int|
            key.len() + 4 <= j < key.len() + 4 + value.len() ==> #[trigger] quoted_assign(
                key,
                value,
            )[j] == value[j - key.len() - 4],
        quoted_assign(key, value)[key.len() as int] == ' ',
        quoted_assign(key, value)[key.len() + 1int] == '=',
        quoted_assign(key, value)[key.len() + 2int] == ' ',
        quoted_assign(key, value)[key.len() + 3int] == '"',
        quoted_assign(key, value)[key.len() + value.len() + 4int] == '"',
        quoted_assign(key, value)[key.len() + value.len() + 5int] == ';',
        quoted_assign(key, value).last() == ';',
{
}

/// The leading whitespace of a line is whitespace, character for character,
/// and each of its characters is the line's.
pub proof fn lemma_indent_all_ws(l: Seq<char>)
    ensures
        indent_of(l).len() <= l.len(),
        forall|i: int|
            0 <= i < indent_of(l).len() ==> is_ws(#[trigger] indent_of(l)[i]) && indent_of(l)[i]
                == l[i],
    decreases l.len(),
{
    lemma_trim_start_len(l);
    if l.len() > 0 && is_ws(l[0]) {
        lemma_indent_all_ws(l.drop_first());
        lemma_trim_start_len(l.drop_first());
        assert forall|i: int| 0 <= i < indent_of(l).len() implies is_ws(#[trigger] indent_of(l)[i])
            && indent_of(l)[i] == l[i] by {
            assert(indent_of(l)[i] == l[i]);
            if i > 0 {
                assert(indent_of(l.drop_first())[i - 1] == l.drop_first()[i - 1]);
                assert(l.drop_first()[i - 1] == l[i]);
            }
        }
    } else {
        assert(indent_of(l).len() == 0);
    }
}

/// No line that `lines_of` yields contains `\n`.
pub proof fn lemma_lines_no_newline(s: Seq<char>)
    ensures
        forall|i: int| 0 <= i < lines_of(s).len() ==> !(#[trigger] lines_of(s)[i]).contains('\n'),
    decreases s.len(),
{
    if s.len() > 0 {
        lemma_find_char(s, '\n');
        match find_char(s, '\n') {
            Some(n) => {
                lemma_lines_no_newline(s.skip(n + 1));
                let piece = strip_cr(s.take(n));
                assert(lines_of(s) == seq![piece] + lines_of(s.skip(n + 1)));
                assert forall|i: int| 0 <= i < lines_of(s).len() implies !(#[trigger] lines_of(
                    s,
                )[i]).contains('\n') by {
                    if i == 0 {
                        assert(lines_of(s)[0] == piece);
                        if piece.contains('\n') {
                            let j = choose|j: int| 0 <= j < piece.len() && piece[j] == '\n';
                            assert(piece[j] == s.take(n)[j]);
                            assert(s.take(n)[j] == s[j]);
                            assert(false);
                        }
                    } else {
                        assert(lines_of(s)[i] == lines_of(s.skip(n + 1))[i - 1]);
                    }
                }
            },
            None => {
                assert(lines_of(s) == seq![s]);
                assert forall|i: int| 0 <= i < lines_of(s).len() implies !(#[trigger] lines_of(
                    s,
                )[i]).contains('\n') by {
                    assert(lines_of(s)[i] == s);
                    if s.contains('\n') {
                        let j = choose|j: int| 0 <= j < s.len() && s[j] == '\n';
                        assert(false);
                    }
                }
            },
        }
    }
}

/// Splitting the joined pieces gives the pieces back, as long as no piece
/// holds `\n` or ends in a bare `\r`, and the last piece is nonempty.
pub proof fn lemma_lines_of_join(ls: Seq<Seq<char>>)
    requires
        forall|i: int| 0 <= i < ls.len() ==> !(#[trigger] ls[i]).contains('\n'),
        forall|i: int| 0 <= i < ls.len() ==> !cr_terminated(#[trigger] ls[i]),
        ls.len() > 0 ==> ls.last().len() > 0,
    ensures
        lines_of(join_lines(ls)) == ls,
    decreases ls.len(),
{
    if ls.len() == 0 {
        assert(lines_of(join_lines(ls)) =~= ls);
    } else if ls.len() == 1 {
        let l = ls[0];
        assert(join_lines(ls) == l);
        assert forall|j: int| 0 <= j < l.len() implies l[j] != '\n' by {
            if l[j] == '\n' {
                assert(l.contains('\n'));
            }
        }
        lemma_find_char_none(l, '\n');
        assert(l.len() > 0);
        assert(lines_of(l) == seq![l]);
        assert(seq![l] =~= ls);
    } else {
        let h = join_lines(ls);
        let a = ls[0];
        let tail = ls.drop_first();
        let jt = join_lines(tail);
        assert(h == a + seq!['\n'] + jt);
        assert(h[a.len() as int] == '\n');
        assert forall|j: int| 0 <= j < a.len() implies h[j] != '\n' by {
            assert(h[j] == a[j]);
            if a[j] == '\n' {
                assert(a.contains('\n'));
            }
        }
        lemma_find_char_at(h, '\n', a.len() as int);
        assert(h.take(a.len() as int) =~= a);
        assert(strip_cr(a) == a);
        assert(h.skip(a.len() as int + 1) =~= jt);
        assert forall|i: int| 0 <= i < tail.len() implies !(#[trigger] tail[i]).contains('\n')
            && !cr_terminated(tail[i]) by {
            assert(tail[i] == ls[i + 1]);
        }
        assert(tail.last() == ls.last());
        lemma_lines_of_join(tail);
        assert(lines_of(h) == seq![a] + lines_of(jt));
        assert(seq![a] + tail =~= ls);
    }
}

/// The line `<indent><key> = "<value>";` assigns `key` and is a fixed point
/// of the rewrite with that key and value.
pub proof fn lemma_rewritten_line_matches(indent: Seq<char>, key: Seq<char>, value: Seq<char>)
    requires
        forall|i: int| 0 <= i < indent.len() ==> is_ws(#[trigger] indent[i]),
        key.len() > 0,
        trim_spec(key) == key,
        !key.contains('='),
    ensures
        line_matches(indent + quoted_assign(key, value), key),
        indent_of(indent + quoted_assign(key, value)) == indent,
        rewrite_line(indent + quoted_assign(key, value), key, value) == indent + quoted_assign(
            key,
            value,
        ),
{
    let qa = quoted_assign(key, value);
    let line = indent + qa;
    lemma_quoted_assign_chars(key, value);
    lemma_trim_fixed_ends(key);
    lemma_trim_start_ws_prefix(indent, qa);
    assert(qa[0] == key[0]);
    assert(trim_start_spec(qa) == qa);
    assert(qa.last() == ';');
    assert(!is_ws(';'));
    assert(trim_end_spec(qa) == qa);
    assert(trim_spec(line) == qa);
    let kl = key.len() as int;
    assert forall|j: int| 0 <= j < kl + 1 implies qa[j] != '=' by {
        if j < kl {
            assert(qa[j] == key[j]);
            if key[j] == '=' {
                assert(key.contains('='));
            }
        } else {
            assert(qa[j] == ' ');
        }
    }
    lemma_find_char_at(qa, '=', kl + 1);
    let k = qa.take(kl + 1);
    assert(k =~= key + seq![' ']);
    assert((key + seq![' '])[0] == key[0]);
    assert(trim_start_spec(key + seq![' ']) == key + seq![' ']);
    assert((key + seq![' ']).last() == ' ');
    assert(is_ws(' '));
    assert((key + seq![' ']).drop_last() =~= key);
    assert(trim_end_spec(key + seq![' ']) == trim_end_spec(key));
    assert(trim_end_spec(key) == key);
    assert(trim_spec(k) == key);
    assert(line_matches(line, key));
    assert(trim_start_spec(line) == qa);
    assert(line.take(line.len() - qa.len()) =~= indent);
    assert(indent_of(line) == indent);
}

/// Law: applying the same replacement twice yields the text of applying it
/// once, and the key is still found afterwards. Holds for a key that is its
/// own trim and holds neither `=` nor a line break, a value free of line
/// breaks, and contents none of whose lines ends in a bare `\r` and whose
/// last line is nonempty.
pub proof fn lemma_replace_idempotent(content: Seq<char>, key: Seq<char>, value: Seq<char>)
    requires
        key.len() > 0,
        trim_spec(key) == key,
        !key.contains('='),
        !key.contains('\n'),
        !value.contains('\n'),
        forall|i: int|
            0 <= i < lines_of(content).len() ==> !cr_terminated(#[trigger] lines_of(content)[i]),
        lines_of(content).len() > 0 ==> lines_of(content).last().len() > 0,
        key_found(content, key),
    ensures
        key_found(replaced_content(content, key, value), key),
        replaced_content(replaced_content(content, key, value), key, value) == replaced_content(
            content,
            key,
            value,
        ),
{
    let ls = lines_of(content);
    let ms = rewritten_lines(content, key, value);
    let c2 = replaced_content(content, key, value);
    let kl = key.len() as int;
    let vl = value.len() as int;
    lemma_lines_no_newline(content);
    lemma_quoted_assign_chars(key, value);
    assert(ms.len() == ls.len());
    assert forall|i: int| 0 <= i < ms.len() implies !(#[trigger] ms[i]).contains('\n')
        && !cr_terminated(ms[i]) by {
        if line_matches(ls[i], key) {
            lemma_line_rewritten(content, key, value, i);
            lemma_indent_all_ws(ls[i]);
            let m = ms[i];
            let ind = indent_of(ls[i]);
            assert(m.last() == quoted_assign(key, value)[kl + vl + 5]);
            assert(m.last() == ';');
            if m.contains('\n') {
                let j = choose|j: int| 0 <= j < m.len() && m[j] == '\n';
                if j < ind.len() {
                    assert(m[j] == ind[j]);
                    assert(ind[j] == ls[i][j]);
                    assert(ls[i].contains('\n'));
                    assert(false);
                } else {
                    let q = j - ind.len();
                    assert(m[j] == quoted_assign(key, value)[q]);
                    if q < kl {
                        assert(quoted_assign(key, value)[q] == key[q]);
                        assert(key.contains('\n'));
                    } else if kl + 4 <= q < kl + 4 + vl {
                        assert(quoted_assign(key, value)[q] == value[q - kl - 4]);
                        assert(value.contains('\n'));
                    }
                    assert(false);
                }
            }
        } else {
            lemma_line_unchanged(content, key, value, i);
        }
    }
    if ms.len() > 0 {
        let n = ms.len() - 1;
        if line_matches(ls[n], key) {
            lemma_line_rewritten(content, key, value, n);
            assert(ms[n].len() > 0);
        } else {
            lemma_line_unchanged(content, key, value, n);
        }
        assert(ms.last().len() > 0);
    }
    lemma_lines_of_join(ms);
    assert(lines_of(c2) == ms);
    assert forall|i: int| 0 <= i < ms.len() implies rewrite_line(#[trigger] ms[i], key, value)
        == ms[i] by {
        if line_matches(ls[i], key) {
            lemma_line_rewritten(content, key, value, i);
            lemma_indent_all_ws(ls[i]);
            lemma_rewritten_line_matches(indent_of(ls[i]), key, value);
        } else {
            lemma_line_unchanged(content, key, value, i);
        }
    }
    assert(rewritten_lines(c2, key, value) =~= ms);
    let w = choose|i: int|
        0 <= i < lines_of(content).len() && line_matches(#[trigger] lines_of(content)[i], key);
    lemma_line_rewritten(content, key, value, w);
    lemma_indent_all_ws(ls[w]);
    lemma_rewritten_line_matches(indent_of(ls[w]), key, value);
    assert(line_matches(lines_of(c2)[w], key));
    assert(key_found(c2, key));
}

} // verus!
