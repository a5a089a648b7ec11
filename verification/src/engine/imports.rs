//! The imports of a proto file, read from its text.
use vstd::prelude::*;

use crate::text::{is_prefix, string_of};

verus! {

/// Unicode white space, as `char::is_whitespace` tells it.
pub open spec fn is_white(c: char) -> bool {
    ||| ('\u{9}' <= c && c <= '\u{d}')
    ||| c == ' '
    ||| c == '\u{85}'
    ||| c == '\u{a0}'
    ||| c == '\u{1680}'
    ||| ('\u{2000}' <= c && c <= '\u{200a}')
    ||| c == '\u{2028}'
    ||| c == '\u{2029}'
    ||| c == '\u{202f}'
    ||| c == '\u{205f}'
    ||| c == '\u{3000}'
}

fn is_white_exec(c: char) -> (r: bool)
    ensures
        r == is_white(c),
{
    ('\u{9}' <= c && c <= '\u{d}') || c == ' ' || c == '\u{85}' || c == '\u{a0}' || c == '\u{1680}'
        || ('\u{2000}' <= c && c <= '\u{200a}') || c == '\u{2028}' || c == '\u{2029}' || c
        == '\u{202f}' || c == '\u{205f}' || c == '\u{3000}'
}

/// The lines of a text: the pieces between its line feeds.
pub open spec fn text_lines(s: Seq<char>) -> Seq<Seq<char>>
    decreases s.len(),
{
    if s.len() == 0 {
        seq![seq![]]
    } else {
        let rest = text_lines(s.drop_last());
        if s.last() == '\n' {
            rest.push(seq![])
        } else {
            rest.update(rest.len() - 1, rest.last().push(s.last()))
        }
    }
}

/// The position of the first character at or after `i` that is (`white`) or is not
/// white space; the end if there is none.
pub open spec fn next_where(s: Seq<char>, i: int, white: bool) -> int
    decreases s.len() - i,
{
    if i >= s.len() || i < 0 {
        s.len() as int
    } else if is_white(s[i]) == white {
        i
    } else {
        next_where(s, i + 1, white)
    }
}

/// The word of an `import` line after `import`: the run of characters that are not
/// white space after the white space that follows the keyword.
pub open spec fn import_word(line: Seq<char>) -> Option<Seq<char>> {
    if !is_prefix("import "@, line) {
        None
    } else {
        let start = next_where(line, 7, false);
        let end = next_where(line, start, true);
        if start >= line.len() {
            None
        } else {
            Some(line.subrange(start, end))
        }
    }
}

/// A word without its `;` and `"` characters.
pub open spec fn unquoted(w: Seq<char>) -> Seq<char> {
    w.filter(|c: char| c != ';' && c != '"')
}

/// The import a line makes, if it makes one; those of `google/protobuf/` are left out
/// when `skip_well_known` is set, as protoc provides them.
pub open spec fn line_import(line: Seq<char>, skip_well_known: bool) -> Option<Seq<char>> {
    match import_word(line) {
        None => None,
        Some(w) => if skip_well_known && is_prefix("google/protobuf/"@, unquoted(w)) {
            None
        } else {
            Some(unquoted(w))
        },
    }
}

/// The imports some lines make, in order.
pub open spec fn lines_imports(lines: Seq<Seq<char>>, skip_well_known: bool) -> Seq<Seq<char>>
    decreases lines.len(),
{
    if lines.len() == 0 {
        seq![]
    } else {
        let rest = lines_imports(lines.drop_last(), skip_well_known);
        match line_import(lines.last(), skip_well_known) {
            Some(i) => rest.push(i),
            None => rest,
        }
    }
}

/// The imports a proto file's text makes, in order: the word after `import ` on each
/// line that starts with it, without its `;` and `"`.
pub open spec fn text_imports(text: Seq<char>, skip_well_known: bool) -> Seq<Seq<char>> {
    lines_imports(text_lines(text), skip_well_known)
}

fn lines_of(s: &[char]) -> (r: Vec<Vec<char>>)
    ensures
        r@.map_values(|l: Vec<char>| l@) == text_lines(s@),
{
    let mut out: Vec<Vec<char>> = Vec::new();
    let mut cur: Vec<char> = Vec::new();
    let mut i: usize = 0;
    assert(s@.take(0) =~= Seq::<char>::empty());
    assert(out@.map_values(|l: Vec<char>| l@).push(cur@) =~= text_lines(s@.take(0)));
    while i < s.len()
        invariant
            i <= s.len(),
            out@.map_values(|l: Vec<char>| l@).push(cur@) == text_lines(s@.take(i as int)),
        decreases s.len() - i,
    {
        let ghost before = out@.map_values(|l: Vec<char>| l@);
        let ghost cv = cur@;
        assert(s@.take(i + 1).drop_last() =~= s@.take(i as int));
        assert(s@.take(i + 1).last() == s@[i as int]);
        if s[i] == '\n' {
            let done = cur;
            out.push(done);
            cur = Vec::new();
            assert(out@.map_values(|l: Vec<char>| l@) =~= before.push(cv));
            assert(out@.map_values(|l: Vec<char>| l@).push(cur@) =~= before.push(cv).push(seq![]));
        } else {
            cur.push(s[i]);
            assert(out@.map_values(|l: Vec<char>| l@).push(cur@) =~= before.push(cv).update(
                before.len() as int,
                cv.push(s@[i as int]),
            ));
        }
        i = i + 1;
    }
    assert(s@.take(s.len() as int) =~= s@);
    let ghost before = out@.map_values(|l: Vec<char>| l@);
    out.push(cur);
    assert(out@.map_values(|l: Vec<char>| l@) =~= before.push(cur@));
    out
}

fn next_where_exec(s: &[char], i: usize, white: bool) -> (r: usize)
    requires
        i <= s@.len(),
    ensures
        r == next_where(s@, i as int, white),
        i <= r <= s@.len(),
{
    let mut k: usize = i;
    while k < s.len() && is_white_exec(s[k]) != white
        invariant
            i <= k <= s@.len(),
            next_where(s@, i as int, white) == next_where(s@, k as int, white),
        decreases s.len() - k,
    {
        k = k + 1;
    }
    k
}

fn unquote(w: &[char]) -> (r: Vec<char>)
    ensures
        r@ == unquoted(w@),
{
    let mut r: Vec<char> = Vec::new();
    let mut i: usize = 0;
    while i < w.len()
        invariant
            i <= w.len(),
            r@ == unquoted(w@.take(i as int)),
        decreases w.len() - i,
    {
        assert(w@.take(i + 1).drop_last() =~= w@.take(i as int));
        reveal(Seq::filter);
        if w[i] != ';' && w[i] != '"' {
            r.push(w[i]);
        }
        i = i + 1;
    }
    assert(w@.take(w.len() as int) =~= w@);
    r
}

fn line_import_exec(line: &[char], skip_well_known: bool) -> (r: Option<Vec<char>>)
    ensures
        match r {
            Some(v) => line_import(line@, skip_well_known) == Some(v@),
            None => line_import(line@, skip_well_known) is None,
        },
{
    let keyword = crate::text::chars_of("import ");
    if !crate::text::starts_with(line, keyword.as_slice()) {
        return None;
    }
    assert(keyword@.len() == 7) by {
        reveal_strlit("import ");
    }
    let start = next_where_exec(line, 7, false);
    if start >= line.len() {
        return None;
    }
    let end = next_where_exec(line, start, true);
    let mut word: Vec<char> = Vec::new();
    let mut k: usize = start;
    while k < end
        invariant
            start <= k <= end <= line@.len(),
            word@ == line@.subrange(start as int, k as int),
        decreases end - k,
    {
        word.push(line[k]);
        k = k + 1;
        assert(word@ =~= line@.subrange(start as int, k as int));
    }
    let cleaned = unquote(word.as_slice());
    if skip_well_known {
        let prefix = crate::text::chars_of("google/protobuf/");
        if crate::text::starts_with(cleaned.as_slice(), prefix.as_slice()) {
            return None;
        }
    }
    Some(cleaned)
}

/// The imports a proto file's text makes (see `text_imports`).
pub fn extract_imports(text: &str, skip_well_known: bool) -> (r: Vec<String>)
    ensures
        crate::text::views(r@) == text_imports(text@, skip_well_known),
{
    let cs = crate::text::chars_of(text);
    let lines = lines_of(cs.as_slice());
    let ghost lv = lines@.map_values(|l: Vec<char>| l@);
    let mut r: Vec<String> = Vec::new();
    let mut i: usize = 0;
    assert(lv.take(0) =~= Seq::<Seq<char>>::empty());
    assert(crate::text::views(r@) =~= Seq::<Seq<char>>::empty());
    while i < lines.len()
        invariant
            i <= lines.len(),
            lv == lines@.map_values(|l: Vec<char>| l@),
            crate::text::views(r@) == lines_imports(lv.take(i as int), skip_well_known),
        decreases lines.len() - i,
    {
        assert(lv.take(i + 1).drop_last() =~= lv.take(i as int));
        assert(lv.take(i + 1).last() == lines@[i as int]@);
        let ghost before = crate::text::views(r@);
        match line_import_exec(lines[i].as_slice(), skip_well_known) {
            Some(v) => {
                let s = string_of(v.as_slice());
                r.push(s);
                assert(crate::text::views(r@) =~= before.push(v@));
            },
            None => {},
        }
        i = i + 1;
    }
    assert(lv.take(lines.len() as int) =~= lv);
    assert(lv == text_lines(text@));
    r
}

/// Leaving out the well-known imports drops exactly those whose path starts with
/// `google/protobuf/`: any other import of a line, such as one under `google/api/`, is
/// kept as it is.
pub proof fn lemma_line_skips_only_protobuf(line: Seq<char>)
    ensures
        line_import(line, true) == match line_import(line, false) {
            Some(w) => if is_prefix("google/protobuf/"@, w) {
                None
            } else {
                Some(w)
            },
            None => None::<Seq<char>>,
        },
{
}

/// The imports of a text read with the well-known ones left out are those read without,
/// less the ones whose path starts with `google/protobuf/`, in the same order.
pub proof fn lemma_skip_is_filter(text: Seq<char>)
    ensures
        text_imports(text, true) == text_imports(text, false).filter(
            |w: Seq<char>| !is_prefix("google/protobuf/"@, w),
        ),
{
    lemma_lines_skip_is_filter(text_lines(text));
}

proof fn lemma_lines_skip_is_filter(lines: Seq<Seq<char>>)
    ensures
        lines_imports(lines, true) == lines_imports(lines, false).filter(
            |w: Seq<char>| !is_prefix("google/protobuf/"@, w),
        ),
    decreases lines.len(),
{
    let f = |w: Seq<char>| !is_prefix("google/protobuf/"@, w);
    if lines.len() > 0 {
        lemma_lines_skip_is_filter(lines.drop_last());
        lemma_line_skips_only_protobuf(lines.last());
        let rest = lines_imports(lines.drop_last(), false);
        reveal(Seq::filter);
        match line_import(lines.last(), false) {
            Some(w) => {
                assert(rest.push(w).drop_last() =~= rest);
                assert(rest.push(w).last() == w);
            },
            None => {},
        }
    } else {
        reveal(Seq::filter);
        assert(lines_imports(lines, false) =~= Seq::<Seq<char>>::empty());
    }
}

} // verus!
