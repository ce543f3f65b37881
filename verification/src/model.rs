//! The ordered row model of an env file.

use vstd::prelude::*;
use crate::chars::{name_start_char, name_char, ws_char};

verus! {

/// The mathematical value of one row: a blank line, a comment body, or a
/// name bound to an optional value.
pub enum RowModel {
    Empty,
    Comment(Seq<char>),
    Decl(Seq<char>, Option<Seq<char>>),
}

/// A `KEY=` or `KEY=value` line.
#[derive(Debug, Eq, PartialEq, Clone)]
pub struct EnvDeclaration {
    pub name: String,
    pub value: Option<String>,
}

/// One line of an env file, in file order.
#[derive(Debug, Eq, PartialEq, Clone)]
pub enum EnvFileRow {
    Empty,
    CommentOnly(String),
    Declaration(EnvDeclaration),
}

/// An env file: an ordered sequence of rows. Duplicate declaration names are
/// legal; order is meaningful and preserved by every operation.
#[derive(Debug, Eq, PartialEq, Clone)]
pub struct EnvFile(pub Vec<EnvFileRow>);

impl View for EnvFileRow {
    type V = RowModel;

    open spec fn view(&self) -> RowModel {
        match self {
            EnvFileRow::Empty => RowModel::Empty,
            EnvFileRow::CommentOnly(text) => RowModel::Comment(text@),
            EnvFileRow::Declaration(d) => RowModel::Decl(
                d.name@,
                match d.value {
                    Some(v) => Some(v@),
                    None => None,
                },
            ),
        }
    }
}

impl View for EnvFile {
    type V = Seq<RowModel>;

    open spec fn view(&self) -> Seq<RowModel> {
        self.0@.map_values(|r: EnvFileRow| r@)
    }
}

/// A well-formed declaration name: non-empty, starting with a letter or
/// underscore, continuing with letters, digits and underscores.
pub open spec fn valid_name(s: Seq<char>) -> bool {
    &&& s.len() >= 1
    &&& name_start_char(s[0])
    &&& forall|i: int| 1 <= i < s.len() ==> name_char(#[trigger] s[i])
}

/// A well-formed value token: a non-empty run of non-whitespace characters.
pub open spec fn valid_value(s: Seq<char>) -> bool {
    &&& s.len() >= 1
    &&& forall|i: int| 0 <= i < s.len() ==> !ws_char(#[trigger] s[i])
}

/// A well-formed comment body: non-empty, not starting with a space, and
/// free of line breaks.
pub open spec fn valid_comment(s: Seq<char>) -> bool {
    &&& s.len() >= 1
    &&& s[0] != ' '
    &&& forall|i: int| 0 <= i < s.len() ==> #[trigger] s[i] != '\n'
}

/// A row the parser can produce.
pub open spec fn row_wf(r: RowModel) -> bool {
    match r {
        RowModel::Empty => true,
        RowModel::Comment(text) => valid_comment(text),
        RowModel::Decl(name, value) => valid_name(name) && match value {
            Some(v) => valid_value(v),
            None => true,
        },
    }
}

/// Rows the parser can produce.
pub open spec fn rows_wf(rows: Seq<RowModel>) -> bool {
    forall|i: int| 0 <= i < rows.len() ==> row_wf(#[trigger] rows[i])
}

/// No trailing blank row: the form every freshly parsed file has.
pub open spec fn normalized(rows: Seq<RowModel>) -> bool {
    rows.len() > 0 ==> rows.last() != RowModel::Empty
}

/// A copy of a row whose model equals the original's.
pub(crate) fn clone_row(r: &EnvFileRow) -> (res: EnvFileRow)
    ensures
        res@ == r@,
{
    match r {
        EnvFileRow::Empty => EnvFileRow::Empty,
        EnvFileRow::CommentOnly(text) => EnvFileRow::CommentOnly(text.clone()),
        EnvFileRow::Declaration(d) => EnvFileRow::Declaration(EnvDeclaration {
            name: d.name.clone(),
            value: match &d.value {
                Some(v) => Some(v.clone()),
                None => None,
            },
        }),
    }
}

impl EnvFile {
    /// The rows of the file, in order.
    pub fn stream(&self) -> (r: Vec<EnvFileRow>)
        ensures
            r@.map_values(|row: EnvFileRow| row@) == self@,
    {
        let mut r: Vec<EnvFileRow> = Vec::new();
        let mut i: usize = 0;
        while i < self.0.len()
            invariant
                i <= self.0.len(),
                r@.len() == i as int,
                forall|j: int| 0 <= j < i ==> (#[trigger] r@[j])@ == self@[j],
            decreases self.0.len() - i,
        {
            r.push(clone_row(&self.0[i]));
            i = i + 1;
        }
        proof {
            assert(r@.map_values(|row: EnvFileRow| row@) =~= self@);
        }
        r
    }
}

} // verus!
