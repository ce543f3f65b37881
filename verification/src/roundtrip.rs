//! The round-trip law: serializing any file the parser can produce and
//! parsing the text again yields the same file.

use vstd::prelude::*;
use crate::chars::{name_start_char, name_char, ws_char};
use crate::model::{RowModel, row_wf, rows_wf, normalized, valid_name, valid_value, valid_comment};
use crate::parser::{split_lines, scan_name, scan_ws, scan_nonws, scan_spaces, classify_line,
    line_ok, parse_ok, rows_of, trim_trailing_empty, parse_rows, lemma_split_prefix};
use crate::serializer::{render_row, join_rows, trim_trailing_newlines, serialize_rows};

verus! {

/// `scan_name` walks a run of name characters and stops at the first other
/// character.
proof fn lemma_scan_name_char(l: Seq<char>, i: int)
    requires
        0 <= i <= l.len(),
    ensures
        i <= scan_name(l, i) <= l.len(),
        forall|j: int| i <= j < scan_name(l, i) ==> name_char(#[trigger] l[j]),
        scan_name(l, i) < l.len() ==> !name_char(l[scan_name(l, i)]),
    decreases l.len() - i,
{
    if i < l.len() && name_char(l[i]) {
        lemma_scan_name_char(l, i + 1);
    }
}

/// `scan_ws` walks a run of whitespace and stops at the first other
/// character.
proof fn lemma_scan_ws_char(l: Seq<char>, i: int)
    requires
        0 <= i <= l.len(),
    ensures
        i <= scan_ws(l, i) <= l.len(),
        forall|j: int| i <= j < scan_ws(l, i) ==> ws_char(#[trigger] l[j]),
        scan_ws(l, i) < l.len() ==> !ws_char(l[scan_ws(l, i)]),
    decreases l.len() - i,
{
    if i < l.len() && ws_char(l[i]) {
        lemma_scan_ws_char(l, i + 1);
    }
}

/// `scan_nonws` walks a run of non-whitespace and stops at the first
/// whitespace character.
proof fn lemma_scan_nonws_char(l: Seq<char>, i: int)
    requires
        0 <= i <= l.len(),
    ensures
        i <= scan_nonws(l, i) <= l.len(),
        forall|j: int| i <= j < scan_nonws(l, i) ==> !ws_char(#[trigger] l[j]),
        scan_nonws(l, i) < l.len() ==> ws_char(l[scan_nonws(l, i)]),
    decreases l.len() - i,
{
    if i < l.len() && !ws_char(l[i]) {
        lemma_scan_nonws_char(l, i + 1);
    }
}

/// `scan_spaces` walks a run of spaces and stops at the first other
/// character.
proof fn lemma_scan_spaces_char(l: Seq<char>, i: int)
    requires
        0 <= i <= l.len(),
    ensures
        i <= scan_spaces(l, i) <= l.len(),
        forall|j: int| i <= j < scan_spaces(l, i) ==> #[trigger] l[j] == ' ',
        scan_spaces(l, i) < l.len() ==> l[scan_spaces(l, i)] != ' ',
    decreases l.len() - i,
{
    if i < l.len() && l[i] == ' ' {
        lemma_scan_spaces_char(l, i + 1);
    }
}

/// A well-formed row renders without newlines, and only a blank row renders
/// to nothing.
proof fn lemma_render_chars(r: RowModel)
    requires
        row_wf(r),
    ensures
        forall|i: int| 0 <= i < render_row(r).len() ==> #[trigger] render_row(r)[i] != '\n',
        r != RowModel::Empty ==> render_row(r).len() >= 2,
{
    match r {
        RowModel::Empty => {},
        RowModel::Comment(text) => {},
        RowModel::Decl(name, value) => {
            let l = render_row(r);
            assert forall|i: int| 0 <= i < l.len() implies #[trigger] l[i] != '\n' by {
                if i < name.len() {
                    assert(l[i] == name[i]);
                    if i == 0 {
                        assert(name_start_char(name[0]));
                    } else {
                        assert(name_char(name[i]));
                    }
                } else if i == name.len() {
                    assert(l[i] == '=');
                } else {
                    match value {
                        Some(v) => {
                            assert(l[i] == v[i - name.len() - 1]);
                            assert(!ws_char(v[i - name.len() - 1]));
                        },
                        None => {},
                    }
                }
            }
        },
    }
}

/// Re-parsing the rendering of a well-formed row yields the row back.
proof fn lemma_classify_render(r: RowModel)
    requires
        row_wf(r),
    ensures
        classify_line(render_row(r)) == Some(r),
{
    let l = render_row(r);
    match r {
        RowModel::Empty => {
            assert(l.len() == 0);
        },
        RowModel::Comment(text) => {
            assert(l[0] == '#');
            assert(!name_start_char('#'));
            assert(l[1] == ' ');
            assert(l[2] == text[0]);
            assert(scan_spaces(l, 2) == 2);
            assert(scan_spaces(l, 1) == 2);
            assert(l.skip(2) =~= text);
        },
        RowModel::Decl(name, value) => {
            let e = name.len() as int;
            assert(l[0] == name[0]);
            assert(name_start_char(l[0]));
            // the name run stops exactly at the `=`
            assert(forall|j: int| 1 <= j < e ==> name_char(#[trigger] l[j]));
            assert(l[e] == '=');
            assert(!name_char('='));
            lemma_scan_name_char(l, 1);
            let s = scan_name(l, 1);
            assert(s == e) by {
                if s < e {
                    assert(name_char(l[s]));
                }
                if s > e {
                    assert(name_char(l[e]));
                }
            }
            assert(l.take(e) =~= name);
            match value {
                Some(v) => {
                    assert(l[e + 1] == v[0]);
                    assert(!ws_char(l[e + 1]));
                    assert(scan_ws(l, e + 1) == e + 1);
                    assert(forall|j: int| e + 1 <= j < l.len() ==> !ws_char(#[trigger] l[j]));
                    lemma_scan_nonws_char(l, e + 1);
                    let v1 = scan_nonws(l, e + 1);
                    assert(v1 == l.len()) by {
                        if v1 < l.len() {
                            assert(ws_char(l[v1]));
                        }
                    }
                    assert(l.subrange(e + 1, l.len() as int) =~= v);
                },
                None => {
                    assert(l.len() == e + 1);
                    assert(scan_ws(l, e + 1) == e + 1);
                },
            }
        },
    }
}

/// Splitting distributes over appending a newline and a newline-free line.
proof fn lemma_split_append(t: Seq<char>, l: Seq<char>)
    requires
        forall|j: int| 0 <= j < l.len() ==> #[trigger] l[j] != '\n',
    ensures
        split_lines(t + seq!['\n'] + l) == split_lines(t) + seq![l],
    decreases t.len(),
{
    let u = t + seq!['\n'] + l;
    if t.len() == 0 {
        assert(u[0] == '\n');
        assert(u.skip(1) =~= l);
        lemma_split_prefix(l, l.len() as int);
        assert(split_lines(u) == seq![Seq::<char>::empty()] + split_lines(l));
        assert(split_lines(u) =~= split_lines(t) + seq![l]);
    } else if t[0] == '\n' {
        assert(u[0] == '\n');
        assert(u.skip(1) =~= t.skip(1) + seq!['\n'] + l);
        lemma_split_append(t.skip(1), l);
        assert(split_lines(u) == seq![Seq::<char>::empty()] + (split_lines(t.skip(1)) + seq![l]));
        assert(split_lines(u) =~= split_lines(t) + seq![l]);
    } else {
        assert(u[0] == t[0]);
        assert(u.skip(1) =~= t.skip(1) + seq!['\n'] + l);
        lemma_split_append(t.skip(1), l);
        let rest_t = split_lines(t.skip(1));
        let rest_u = split_lines(u.skip(1));
        assert(rest_u == rest_t + seq![l]);
        crate::parser::lemma_split_lines_nonempty(t.skip(1));
        assert(rest_u[0] == rest_t[0]);
        assert(rest_u.skip(1) =~= rest_t.skip(1) + seq![l]);
        assert(split_lines(u) == seq![seq![u[0]] + rest_u[0]] + rest_u.skip(1));
        assert(split_lines(t) == seq![seq![t[0]] + rest_t[0]] + rest_t.skip(1));
        assert(split_lines(u) =~= split_lines(t) + seq![l]);
    }
}

/// The joined text of well-formed rows splits back into one line per row.
proof fn lemma_split_join(rows: Seq<RowModel>)
    requires
        rows.len() >= 1,
        rows_wf(rows),
    ensures
        split_lines(join_rows(rows)) == rows.map_values(|r: RowModel| render_row(r)),
    decreases rows.len(),
{
    if rows.len() == 1 {
        lemma_render_chars(rows[0]);
        lemma_split_prefix(render_row(rows[0]), render_row(rows[0]).len() as int);
        assert(split_lines(join_rows(rows)) =~= rows.map_values(|r: RowModel| render_row(r)));
    } else {
        let prefix = rows.drop_last();
        assert(rows_wf(prefix)) by {
            assert(forall|i: int| 0 <= i < prefix.len() ==> prefix[i] == rows[i]);
        }
        lemma_split_join(prefix);
        lemma_render_chars(rows.last());
        lemma_split_append(join_rows(prefix), render_row(rows.last()));
        assert(join_rows(rows) == join_rows(prefix) + seq!['\n'] + render_row(rows.last()));
        assert(split_lines(join_rows(rows)) =~= rows.map_values(|r: RowModel| render_row(r)));
    }
}

/// A normalized row sequence is already trimmed.
proof fn lemma_trim_normalized(rows: Seq<RowModel>)
    requires
        normalized(rows),
    ensures
        trim_trailing_empty(rows) == rows,
{
}

/// Round-trip: any env file the parser can produce — well-formed rows with
/// no trailing blank row — serializes to text that parses back to exactly
/// the same rows.
pub proof fn lemma_round_trip(rows: Seq<RowModel>)
    requires
        rows_wf(rows),
        normalized(rows),
    ensures
        parse_ok(serialize_rows(rows)),
        parse_rows(serialize_rows(rows)) == rows,
{
    if rows.len() == 0 {
        let t = serialize_rows(rows);
        assert(join_rows(rows) == Seq::<char>::empty());
        assert(t.len() == 0);
        let ls = split_lines(t);
        assert(ls == seq![Seq::<char>::empty()]);
        assert(classify_line(ls[0]) == Some(RowModel::Empty));
        assert(parse_ok(t));
        assert(rows_of(ls) =~= seq![RowModel::Empty]);
        assert(rows_of(ls).last() == RowModel::Empty);
        assert(trim_trailing_empty(rows_of(ls)) == trim_trailing_empty(rows_of(ls).drop_last()));
        assert(rows_of(ls).drop_last().len() == 0);
        assert(trim_trailing_empty(rows_of(ls).drop_last()) == rows_of(ls).drop_last());
        assert(rows_of(ls).drop_last() =~= rows);
        assert(parse_rows(t) == rows);
    } else {
        let j = join_rows(rows);
        // the joined text does not end in a newline, so nothing is trimmed
        lemma_render_chars(rows.last());
        assert(j.len() > 0 && j.last() != '\n') by {
            let last = render_row(rows.last());
            if rows.len() == 1 {
                assert(j == last);
            } else {
                assert(j == join_rows(rows.drop_last()) + seq!['\n'] + last);
                assert(j.last() == last.last());
            }
        }
        assert(trim_trailing_newlines(j) == j);
        let t = serialize_rows(rows);
        assert(t == j.push('\n'));
        lemma_split_join(rows);
        let renders = rows.map_values(|r: RowModel| render_row(r));
        assert(t =~= j + seq!['\n'] + Seq::<char>::empty());
        lemma_split_append(j, Seq::<char>::empty());
        let ls = split_lines(t);
        assert(ls == renders + seq![Seq::<char>::empty()]);
        assert forall|i: int| 0 <= i < ls.len() implies line_ok(#[trigger] ls[i]) by {
            if i < rows.len() {
                assert(ls[i] == render_row(rows[i]));
                lemma_classify_render(rows[i]);
            } else {
                assert(ls[i] =~= Seq::<char>::empty());
                assert(ls[i].len() == 0);
            }
        }
        assert(parse_ok(t));
        let full = rows_of(ls);
        assert(full =~= rows.push(RowModel::Empty)) by {
            assert forall|i: int| 0 <= i < full.len() implies full[i] == rows.push(
                RowModel::Empty)[i] by {
                if i < rows.len() {
                    assert(ls[i] == render_row(rows[i]));
                    lemma_classify_render(rows[i]);
                } else {
                    assert(ls[i].len() == 0);
                }
            }
        }
        assert(full.drop_last() =~= rows);
        assert(trim_trailing_empty(full) == trim_trailing_empty(rows));
        lemma_trim_normalized(rows);
        assert(parse_rows(t) == rows);
    }
}

/// Every line the splitter produces is free of newlines.
proof fn lemma_split_lines_no_newline(t: Seq<char>)
    ensures
        forall|i: int, j: int| 0 <= i < split_lines(t).len() && 0 <= j
            < split_lines(t)[i].len() ==> #[trigger] split_lines(t)[i][j] != '\n',
    decreases t.len(),
{
    if t.len() == 0 {
    } else if t[0] == '\n' {
        lemma_split_lines_no_newline(t.skip(1));
        let ls = split_lines(t);
        let rest = split_lines(t.skip(1));
        assert forall|i: int, j: int| 0 <= i < ls.len() && 0 <= j
            < ls[i].len() implies #[trigger] ls[i][j] != '\n' by {
            if i >= 1 {
                assert(ls[i] == rest[i - 1]);
                assert(rest[i - 1][j] != '\n');
            }
        }
    } else {
        lemma_split_lines_no_newline(t.skip(1));
        crate::parser::lemma_split_lines_nonempty(t.skip(1));
        let ls = split_lines(t);
        let rest = split_lines(t.skip(1));
        assert forall|i: int, j: int| 0 <= i < ls.len() && 0 <= j
            < ls[i].len() implies #[trigger] ls[i][j] != '\n' by {
            if i == 0 {
                assert(ls[0] == seq![t[0]] + rest[0]);
                if j >= 1 {
                    assert(ls[0][j] == rest[0][j - 1]);
                    assert(rest[0][j - 1] != '\n');
                }
            } else {
                assert(ls[i] == rest.skip(1)[i - 1]);
                assert(rest.skip(1)[i - 1] == rest[i]);
                assert(rest[i][j] != '\n');
            }
        }
    }
}

/// What a newline-free line classifies to is a well-formed row.
proof fn lemma_classify_wf(l: Seq<char>)
    requires
        forall|j: int| 0 <= j < l.len() ==> #[trigger] l[j] != '\n',
        line_ok(l),
    ensures
        row_wf(classify_line(l).unwrap()),
{
    let r = classify_line(l).unwrap();
    if l.len() == 0 {
    } else if name_start_char(l[0]) {
        lemma_scan_name_char(l, 1);
        let e = scan_name(l, 1);
        let name = l.take(e);
        assert(valid_name(name)) by {
            assert(name[0] == l[0]);
            assert(forall|i: int| 1 <= i < name.len() ==> name_char(#[trigger] name[i]));
        }
        let v0 = scan_ws(l, e + 1);
        lemma_scan_ws_char(l, e + 1);
        if v0 < l.len() {
            let v1 = scan_nonws(l, v0);
            lemma_scan_nonws_char(l, v0);
            let v = l.subrange(v0, v1);
            assert(valid_value(v)) by {
                assert(!ws_char(l[v0]));
                assert(v1 > v0) by {
                    if v1 == v0 {
                        assert(ws_char(l[v0]));
                    }
                }
                assert(forall|i: int| 0 <= i < v.len() ==> !ws_char(#[trigger] v[i]));
            }
        }
    } else if l[0] == '#' {
        lemma_scan_spaces_char(l, 1);
        let t0 = scan_spaces(l, 1);
        let body = l.skip(t0);
        assert(valid_comment(body)) by {
            assert(body[0] == l[t0]);
            assert(forall|i: int| 0 <= i < body.len() ==> #[trigger] body[i] != '\n');
        }
    }
}

/// Trimming keeps rows well-formed and leaves no trailing blank row.
proof fn lemma_trim_wf(rows: Seq<RowModel>)
    requires
        rows_wf(rows),
    ensures
        rows_wf(trim_trailing_empty(rows)),
        normalized(trim_trailing_empty(rows)),
    decreases rows.len(),
{
    if rows.len() > 0 && rows.last() == RowModel::Empty {
        assert(rows_wf(rows.drop_last())) by {
            assert(forall|i: int| 0 <= i < rows.len() - 1 ==> rows.drop_last()[i] == rows[i]);
        }
        lemma_trim_wf(rows.drop_last());
    }
}

/// Text that parses yields rows that satisfy the round-trip law's
/// hypotheses: well-formed, with no trailing blank row.
pub proof fn lemma_parse_produces_wf(t: Seq<char>)
    requires
        parse_ok(t),
    ensures
        rows_wf(parse_rows(t)),
        normalized(parse_rows(t)),
{
    let ls = split_lines(t);
    let full = rows_of(ls);
    lemma_split_lines_no_newline(t);
    assert(rows_wf(full)) by {
        assert forall|i: int| 0 <= i < full.len() implies row_wf(#[trigger] full[i]) by {
            lemma_classify_wf(ls[i]);
        }
    }
    lemma_trim_wf(full);
}

} // verus!
