//! Rendering the row model back to text.
//!
//! Rows are joined with single newlines; any run of trailing newlines is
//! trimmed, and one final newline is appended when the text is non-empty, so
//! a file with no rows serializes to the empty string.

use vstd::prelude::*;
use crate::model::{EnvFile, EnvFileRow, RowModel};
use crate::chars::chars_to_string;

verus! {

/// The text of a single row: nothing for a blank line, `# ` before a
/// comment body, `name=` or `name=value` for a declaration.
pub open spec fn render_row(r: RowModel) -> Seq<char> {
    match r {
        RowModel::Empty => Seq::<char>::empty(),
        RowModel::Comment(text) => seq!['#', ' '] + text,
        RowModel::Decl(name, value) => match value {
            Some(v) => name + seq!['='] + v,
            None => name + seq!['='],
        },
    }
}

/// The rows' texts joined with single newlines.
pub open spec fn join_rows(rows: Seq<RowModel>) -> Seq<char>
    decreases rows.len(),
{
    if rows.len() == 0 {
        Seq::<char>::empty()
    } else if rows.len() == 1 {
        render_row(rows[0])
    } else {
        join_rows(rows.drop_last()) + seq!['\n'] + render_row(rows.last())
    }
}

/// `s` without its trailing run of newline characters.
pub open spec fn trim_trailing_newlines(s: Seq<char>) -> Seq<char>
    decreases s.len(),
{
    if s.len() > 0 && s.last() == '\n' {
        trim_trailing_newlines(s.drop_last())
    } else {
        s
    }
}

/// The canonical text of a row sequence.
pub open spec fn serialize_rows(rows: Seq<RowModel>) -> Seq<char> {
    let t = trim_trailing_newlines(join_rows(rows));
    if t.len() == 0 {
        t
    } else {
        t.push('\n')
    }
}

/// Appends the characters of `s` to `out`.
fn push_str_chars(out: &mut Vec<char>, s: &str)
    ensures
        final(out)@ == old(out)@ + s@,
{
    let n = s.unicode_len();
    let mut i: usize = 0;
    while i < n
        invariant
            n == s@.len(),
            i <= n,
            out@ == old(out)@ + s@.take(i as int),
        decreases n - i,
    {
        out.push(s.get_char(i));
        i = i + 1;
        proof {
            assert(old(out)@ + s@.take(i as int) =~= (old(out)@ + s@.take(i - 1)).push(s@[i - 1]));
        }
    }
    proof {
        assert(old(out)@ + s@.take(n as int) =~= old(out)@ + s@);
    }
}

/// Appends the rendering of one row to `out`.
fn push_row(out: &mut Vec<char>, row: &EnvFileRow)
    ensures
        final(out)@ == old(out)@ + render_row(row@),
{
    match row {
        EnvFileRow::Empty => {
            proof {
                assert(out@ =~= old(out)@ + render_row(row@));
            }
        },
        EnvFileRow::CommentOnly(text) => {
            out.push('#');
            out.push(' ');
            push_str_chars(out, text.as_str());
            proof {
                assert(out@ =~= old(out)@ + render_row(row@));
            }
        },
        EnvFileRow::Declaration(d) => {
            push_str_chars(out, d.name.as_str());
            out.push('=');
            match &d.value {
                Some(v) => {
                    push_str_chars(out, v.as_str());
                },
                None => {},
            }
            proof {
                assert(out@ =~= old(out)@ + render_row(row@));
            }
        },
    }
}

impl EnvFile {
    /// The canonical text of the file.
    pub fn to_string(&self) -> (r: String)
        ensures
            r@ == serialize_rows(self@),
    {
        let n = self.0.len();
        let mut out: Vec<char> = Vec::new();
        let mut i: usize = 0;
        while i < n
            invariant
                n == self.0.len(),
                i <= n,
                out@ == join_rows(self@.take(i as int)),
            decreases n - i,
        {
            if i > 0 {
                out.push('\n');
            }
            push_row(&mut out, &self.0[i]);
            i = i + 1;
            proof {
                let rows = self@.take(i as int);
                assert(rows.drop_last() =~= self@.take(i - 1));
                assert(rows.last() == self@[i - 1]);
                if i == 1 {
                    assert(out@ =~= join_rows(rows));
                } else {
                    assert(out@ =~= join_rows(rows.drop_last()) + seq!['\n'] + render_row(
                        rows.last()));
                }
            }
        }
        proof {
            assert(self@.take(n as int) =~= self@);
        }
        while out.len() > 0 && out[out.len() - 1] == '\n'
            invariant
                trim_trailing_newlines(out@) == trim_trailing_newlines(join_rows(self@)),
            decreases out.len(),
        {
            let ghost before = out@;
            out.pop();
            proof {
                assert(out@ =~= before.drop_last());
            }
        }
        if out.len() > 0 {
            out.push('\n');
        }
        chars_to_string(&out)
    }
}

} // verus!
