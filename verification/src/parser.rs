//! Parsing text into the row model.
//!
//! The text is a sequence of lines separated by `\n`, with an optional
//! trailing newline. Each line is, in priority order, a declaration
//! (`name=`, optional whitespace, optional value token), a comment
//! (`#`, spaces, a non-empty body), or an empty line; any other line is a
//! parse error at its position. A trailing blank row produced by a final
//! newline is normalized away.

use vstd::prelude::*;
use crate::chars::{name_start_char, name_char, ws_char, is_alpha, is_alnum, is_ws};
use crate::model::{EnvDeclaration, EnvFile, EnvFileRow, RowModel};

verus! {

/// A malformed line, reported by its zero-based index in the input.
#[derive(Debug, Eq, PartialEq, Clone, Copy)]
pub struct ParseError {
    pub line: usize,
}

/// The input split at every `\n`: one more line than there are newlines.
pub open spec fn split_lines(t: Seq<char>) -> Seq<Seq<char>>
    decreases t.len(),
{
    if t.len() == 0 {
        seq![Seq::<char>::empty()]
    } else if t[0] == '\n' {
        seq![Seq::<char>::empty()] + split_lines(t.skip(1))
    } else {
        let rest = split_lines(t.skip(1));
        seq![seq![t[0]] + rest[0]] + rest.skip(1)
    }
}

/// The first index at or after `i` whose character is not a name character,
/// or the line's length.
pub open spec fn scan_name(l: Seq<char>, i: int) -> int
    decreases l.len() - i,
{
    if i < 0 || i >= l.len() {
        i
    } else if name_char(l[i]) {
        scan_name(l, i + 1)
    } else {
        i
    }
}

/// The first index at or after `i` whose character is not whitespace,
/// or the line's length.
pub open spec fn scan_ws(l: Seq<char>, i: int) -> int
    decreases l.len() - i,
{
    if i < 0 || i >= l.len() {
        i
    } else if ws_char(l[i]) {
        scan_ws(l, i + 1)
    } else {
        i
    }
}

/// The first index at or after `i` whose character is whitespace,
/// or the line's length.
pub open spec fn scan_nonws(l: Seq<char>, i: int) -> int
    decreases l.len() - i,
{
    if i < 0 || i >= l.len() {
        i
    } else if !ws_char(l[i]) {
        scan_nonws(l, i + 1)
    } else {
        i
    }
}

/// The first index at or after `i` whose character is not a space,
/// or the line's length.
pub open spec fn scan_spaces(l: Seq<char>, i: int) -> int
    decreases l.len() - i,
{
    if i < 0 || i >= l.len() {
        i
    } else if l[i] == ' ' {
        scan_spaces(l, i + 1)
    } else {
        i
    }
}

/// The row a line stands for, or `None` when it matches no row shape.
///
/// A line opening with a name character must be a declaration: the maximal
/// name run must be followed by `=`; after optional whitespace an optional
/// value token is read, and anything past the value token is left
/// uncaptured. A line opening with `#` must carry a non-empty comment body
/// after a run of spaces. Only the empty line is blank.
pub open spec fn classify_line(l: Seq<char>) -> Option<RowModel> {
    if l.len() == 0 {
        Some(RowModel::Empty)
    } else if name_start_char(l[0]) {
        let e = scan_name(l, 1);
        if e < l.len() && l[e] == '=' {
            let name = l.take(e);
            let v0 = scan_ws(l, e + 1);
            if v0 >= l.len() {
                Some(RowModel::Decl(name, None))
            } else {
                Some(RowModel::Decl(name, Some(l.subrange(v0, scan_nonws(l, v0)))))
            }
        } else {
            None
        }
    } else if l[0] == '#' {
        let t0 = scan_spaces(l, 1);
        if t0 < l.len() {
            Some(RowModel::Comment(l.skip(t0)))
        } else {
            None
        }
    } else {
        None
    }
}

/// Whether a line matches one of the three row shapes.
pub open spec fn line_ok(l: Seq<char>) -> bool {
    classify_line(l) is Some
}

/// Whether every line of the input parses.
pub open spec fn parse_ok(t: Seq<char>) -> bool {
    forall|i: int| 0 <= i < split_lines(t).len() ==> line_ok(#[trigger] split_lines(t)[i])
}

/// The index of the first malformed line.
pub open spec fn first_bad_line(ls: Seq<Seq<char>>) -> int
    decreases ls.len(),
{
    if ls.len() == 0 {
        0
    } else if !line_ok(ls[0]) {
        0
    } else {
        1 + first_bad_line(ls.skip(1))
    }
}

/// The rows of a sequence of well-formed lines.
pub open spec fn rows_of(ls: Seq<Seq<char>>) -> Seq<RowModel> {
    ls.map_values(|l: Seq<char>| classify_line(l).unwrap())
}

/// `rows` without its trailing blank rows.
pub open spec fn trim_trailing_empty(rows: Seq<RowModel>) -> Seq<RowModel>
    decreases rows.len(),
{
    if rows.len() > 0 && rows.last() == RowModel::Empty {
        trim_trailing_empty(rows.drop_last())
    } else {
        rows
    }
}

/// The rows an input text parses to, when every line is well-formed.
pub open spec fn parse_rows(t: Seq<char>) -> Seq<RowModel> {
    trim_trailing_empty(rows_of(split_lines(t)))
}

/// `split_lines` agrees with cutting the text at its first newline.
pub proof fn lemma_split_prefix(t: Seq<char>, e: int)
    requires
        0 <= e <= t.len(),
        forall|j: int| 0 <= j < e ==> t[j] != '\n',
        e < t.len() ==> t[e] == '\n',
    ensures
        e == t.len() ==> split_lines(t) == seq![t],
        e < t.len() ==> split_lines(t) == seq![t.take(e)] + split_lines(t.skip(e + 1)),
    decreases e,
{
    if e == 0 {
        if t.len() == 0 {
            assert(t =~= Seq::<char>::empty());
            assert(split_lines(t) =~= seq![t]);
        } else {
            assert(t[0] == '\n');
            assert(t.take(0) =~= Seq::<char>::empty());
            assert(t.skip(1) =~= t.skip(e + 1));
        }
    } else {
        let s = t.skip(1);
        assert(forall|j: int| 0 <= j < e - 1 ==> #[trigger] s[j] == t[j + 1]);
        lemma_split_prefix(s, e - 1);
        assert(t[0] != '\n');
        let rest = split_lines(s);
        if e == t.len() {
            assert(rest == seq![s]);
            assert(split_lines(t) == seq![seq![t[0]] + rest[0]] + rest.skip(1));
            assert(rest.skip(1) =~= Seq::<Seq<char>>::empty());
            assert(seq![t[0]] + s =~= t);
            assert(split_lines(t) =~= seq![t]);
        } else {
            assert(rest == seq![s.take(e - 1)] + split_lines(s.skip(e)));
            assert(rest[0] == s.take(e - 1));
            assert(seq![t[0]] + s.take(e - 1) =~= t.take(e));
            assert(rest.skip(1) =~= split_lines(s.skip(e)));
            assert(s.skip(e) =~= t.skip(e + 1));
            assert(split_lines(t) =~= seq![t.take(e)] + split_lines(t.skip(e + 1)));
        }
    }
}

/// Number of lines: never zero, even for empty text.
pub proof fn lemma_split_lines_nonempty(t: Seq<char>)
    ensures
        split_lines(t).len() >= 1,
    decreases t.len(),
{
    if t.len() == 0 {
    } else if t[0] == '\n' {
        lemma_split_lines_nonempty(t.skip(1));
    } else {
        lemma_split_lines_nonempty(t.skip(1));
    }
}

/// `first_bad_line` names the first line that fails to parse.
pub proof fn lemma_first_bad_line(ls: Seq<Seq<char>>, i: int)
    requires
        0 <= i < ls.len(),
        forall|j: int| 0 <= j < i ==> line_ok(#[trigger] ls[j]),
        !line_ok(ls[i]),
    ensures
        first_bad_line(ls) == i,
    decreases i,
{
    if i > 0 {
        let s = ls.skip(1);
        assert(forall|j: int| 0 <= j < s.len() ==> #[trigger] s[j] == ls[j + 1]);
        assert(ls[0] == ls[0]);
        lemma_first_bad_line(s, i - 1);
    }
}

/// The end of the name run beginning at `from`, as an index into `text`.
fn scan_name_from(text: &str, start: usize, end: usize, from: usize) -> (r: usize)
    requires
        start <= from <= end <= text@.len(),
    ensures
        from <= r <= end,
        r - start == scan_name(text@.subrange(start as int, end as int), from - start),
{
    let ghost l = text@.subrange(start as int, end as int);
    let mut i = from;
    loop
        invariant
            start <= from <= i <= end <= text@.len(),
            l == text@.subrange(start as int, end as int),
            scan_name(l, from - start) == scan_name(l, i - start),
        decreases end - i,
    {
        if i >= end {
            return i;
        }
        let c = text.get_char(i);
        proof {
            assert(l[i - start] == c);
        }
        if !(c == '_' || is_alnum(c)) {
            return i;
        }
        i = i + 1;
    }
}

/// The end of the whitespace run beginning at `from`, as an index into `text`.
fn scan_ws_from(text: &str, start: usize, end: usize, from: usize) -> (r: usize)
    requires
        start <= from <= end <= text@.len(),
    ensures
        from <= r <= end,
        r - start == scan_ws(text@.subrange(start as int, end as int), from - start),
{
    let ghost l = text@.subrange(start as int, end as int);
    let mut i = from;
    loop
        invariant
            start <= from <= i <= end <= text@.len(),
            l == text@.subrange(start as int, end as int),
            scan_ws(l, from - start) == scan_ws(l, i - start),
        decreases end - i,
    {
        if i >= end {
            return i;
        }
        let c = text.get_char(i);
        proof {
            assert(l[i - start] == c);
        }
        if !is_ws(c) {
            return i;
        }
        i = i + 1;
    }
}

/// The end of the value token beginning at `from`, as an index into `text`.
fn scan_nonws_from(text: &str, start: usize, end: usize, from: usize) -> (r: usize)
    requires
        start <= from <= end <= text@.len(),
    ensures
        from <= r <= end,
        r - start == scan_nonws(text@.subrange(start as int, end as int), from - start),
{
    let ghost l = text@.subrange(start as int, end as int);
    let mut i = from;
    loop
        invariant
            start <= from <= i <= end <= text@.len(),
            l == text@.subrange(start as int, end as int),
            scan_nonws(l, from - start) == scan_nonws(l, i - start),
        decreases end - i,
    {
        if i >= end {
            return i;
        }
        let c = text.get_char(i);
        proof {
            assert(l[i - start] == c);
        }
        if is_ws(c) {
            return i;
        }
        i = i + 1;
    }
}

/// The end of the space run beginning at `from`, as an index into `text`.
fn scan_spaces_from(text: &str, start: usize, end: usize, from: usize) -> (r: usize)
    requires
        start <= from <= end <= text@.len(),
    ensures
        from <= r <= end,
        r - start == scan_spaces(text@.subrange(start as int, end as int), from - start),
{
    let ghost l = text@.subrange(start as int, end as int);
    let mut i = from;
    loop
        invariant
            start <= from <= i <= end <= text@.len(),
            l == text@.subrange(start as int, end as int),
            scan_spaces(l, from - start) == scan_spaces(l, i - start),
        decreases end - i,
    {
        if i >= end {
            return i;
        }
        let c = text.get_char(i);
        proof {
            assert(l[i - start] == c);
        }
        if c != ' ' {
            return i;
        }
        i = i + 1;
    }
}

/// Parses the line `text[start..end]`, which holds no newline.
fn parse_line(text: &str, start: usize, end: usize) -> (r: Option<EnvFileRow>)
    requires
        start <= end <= text@.len(),
    ensures
        ({
            let l = text@.subrange(start as int, end as int);
            match r {
                Some(row) => classify_line(l) == Some(row@),
                None => classify_line(l) is None,
            }
        }),
{
    let ghost l = text@.subrange(start as int, end as int);
    if start == end {
        proof {
            assert(l.len() == 0);
        }
        return Some(EnvFileRow::Empty);
    }
    let c0 = text.get_char(start);
    proof {
        assert(l[0] == c0);
    }
    if c0 == '_' || is_alpha(c0) {
        let e = scan_name_from(text, start, end, start + 1);
        if e < end && text.get_char(e) == '=' {
            proof {
                assert(l[e - start] == text@[e as int]);
            }
            let name = text.substring_char(start, e).to_owned();
            proof {
                assert(name@ =~= l.take(e - start));
            }
            let v0 = scan_ws_from(text, start, end, e + 1);
            if v0 >= end {
                Some(EnvFileRow::Declaration(EnvDeclaration { name, value: None }))
            } else {
                let v1 = scan_nonws_from(text, start, end, v0);
                let value = text.substring_char(v0, v1).to_owned();
                proof {
                    assert(value@ =~= l.subrange(v0 - start, v1 - start));
                }
                Some(EnvFileRow::Declaration(EnvDeclaration { name, value: Some(value) }))
            }
        } else {
            proof {
                if e < end {
                    assert(l[e - start] == text@[e as int]);
                }
            }
            None
        }
    } else if c0 == '#' {
        let t0 = scan_spaces_from(text, start, end, start + 1);
        if t0 < end {
            let body = text.substring_char(t0, end).to_owned();
            proof {
                assert(body@ =~= l.skip(t0 - start));
            }
            Some(EnvFileRow::CommentOnly(body))
        } else {
            None
        }
    } else {
        None
    }
}

/// Whether the row is a blank line.
fn row_is_empty(r: &EnvFileRow) -> (b: bool)
    ensures
        b == (r@ == RowModel::Empty),
{
    match r {
        EnvFileRow::Empty => true,
        _ => false,
    }
}

impl EnvFile {
    /// Parses `text` into an env file, trimming any trailing blank rows,
    /// or reports the first malformed line.
    pub fn from_str(text: &str) -> (r: Result<EnvFile, ParseError>)
        ensures
            match r {
                Ok(f) => parse_ok(text@) && f@ == parse_rows(text@),
                Err(e) => !parse_ok(text@) && e.line == first_bad_line(split_lines(text@)),
            },
    {
        let n = text.unicode_len();
        let ghost ls = split_lines(text@);
        proof {
            lemma_split_lines_nonempty(text@);
            assert(text@.skip(0) =~= text@);
        }
        let mut rows: Vec<EnvFileRow> = Vec::new();
        let mut pos: usize = 0;
        let mut line_idx: usize = 0;
        loop
            invariant
                n == text@.len(),
                pos <= n,
                line_idx <= pos,
                ls == split_lines(text@),
                line_idx < ls.len(),
                ls.skip(line_idx as int) == split_lines(text@.skip(pos as int)),
                forall|j: int| 0 <= j < line_idx ==> line_ok(#[trigger] ls[j]),
                rows@.len() == line_idx as int,
                forall|j: int| 0 <= j < line_idx ==> (#[trigger] rows@[j])@ == classify_line(
                    ls[j]).unwrap(),
            decreases n - pos,
        {
            let mut e = pos;
            while e < n && text.get_char(e) != '\n'
                invariant
                    n == text@.len(),
                    pos <= e <= n,
                    forall|j: int| pos <= j < e ==> text@[j] != '\n',
                decreases n - e,
            {
                e = e + 1;
            }
            let ghost cur = text@.subrange(pos as int, e as int);
            proof {
                let tl = text@.skip(pos as int);
                assert(forall|j: int| 0 <= j < tl.len() ==> #[trigger] tl[j] == text@[pos + j]);
                lemma_split_prefix(tl, e - pos);
                assert(tl.take(e - pos) =~= cur);
                if e < n {
                    assert(split_lines(tl) == seq![cur] + split_lines(tl.skip(e - pos + 1)));
                    assert(tl.skip(e - pos + 1) =~= text@.skip(e + 1));
                } else {
                    assert(tl =~= cur);
                    assert(split_lines(tl) == seq![tl]);
                }
                assert(ls[line_idx as int] == ls.skip(line_idx as int)[0]);
                assert(ls[line_idx as int] == cur);
            }
            match parse_line(text, pos, e) {
                None => {
                    proof {
                        lemma_first_bad_line(ls, line_idx as int);
                        assert(!line_ok(ls[line_idx as int]));
                    }
                    return Err(ParseError { line: line_idx });
                },
                Some(row) => {
                    rows.push(row);
                },
            }
            if e < n {
                proof {
                    let rest = split_lines(text@.skip(e + 1));
                    assert(ls.skip(line_idx as int) == seq![cur] + rest);
                    assert(ls.skip(line_idx + 1) =~= rest) by {
                        assert(ls.skip(line_idx as int).len() == 1 + rest.len());
                        assert forall|i: int| 0 <= i < rest.len() implies ls.skip(
                            line_idx + 1)[i] == rest[i] by {
                            assert(ls.skip(line_idx as int)[i + 1] == (seq![cur] + rest)[i + 1]);
                            assert((seq![cur] + rest)[i + 1] == rest[i]);
                        }
                    }
                    lemma_split_lines_nonempty(text@.skip(e + 1));
                }
                pos = e + 1;
                line_idx = line_idx + 1;
            } else {
                proof {
                    assert(ls.skip(line_idx as int) =~= seq![cur]);
                    assert(ls.len() == line_idx + 1);
                    assert(forall|j: int| 0 <= j < ls.len() ==> line_ok(#[trigger] ls[j]));
                    assert(rows@.map_values(|row: EnvFileRow| row@) =~= rows_of(ls));
                }
                let ghost full = rows_of(ls);
                while rows.len() > 0 && row_is_empty(&rows[rows.len() - 1])
                    invariant
                        trim_trailing_empty(rows@.map_values(|row: EnvFileRow| row@))
                            == trim_trailing_empty(full),
                    decreases rows.len(),
                {
                    let ghost before = rows@.map_values(|row: EnvFileRow| row@);
                    rows.pop();
                    proof {
                        assert(rows@.map_values(|row: EnvFileRow| row@) =~= before.drop_last());
                    }
                }
                let f = EnvFile(rows);
                proof {
                    let m = f.0@.map_values(|row: EnvFileRow| row@);
                    assert(f@ == m);
                    assert(m.len() == 0 || m.last() != RowModel::Empty) by {
                        if m.len() > 0 {
                            assert(f.0@[m.len() - 1]@ == m[m.len() - 1]);
                        }
                    }
                    assert(trim_trailing_empty(m) == m);
                    assert(f@ == parse_rows(text@));
                }
                return Ok(f);
            }
        }
    }
}

} // verus!
