//! The update workflow's per-row decisions.
//!
//! The workflow walks the input file's rows in order, carrying a buffer of
//! comment lines seen since the last declaration. At each declaration it
//! decides, from the policy flags and the value currently recorded for the
//! name, whether to prompt the operator and with what text. The prompting
//! itself is I/O and lives outside; these functions decide everything else.

use vstd::prelude::*;
use crate::model::{EnvFileRow, RowModel};

verus! {

/// What to do with one row of the input file.
#[derive(Debug, Eq, PartialEq)]
pub enum PromptPlan {
    /// No prompt; carry this comment buffer to the next row.
    Continue(String),
    /// The policy flags skip this declaration; drop the buffer.
    Skip,
    /// Prompt with this text; an empty answer means this default.
    Ask(String, String),
}

/// The default offered for a declaration: the value currently recorded for
/// its name, or nothing.
pub open spec fn default_of(cur: Option<Seq<char>>) -> Seq<char> {
    match cur {
        Some(v) => v,
        None => Seq::<char>::empty(),
    }
}

/// The text of a prompt: the pending comments, the name, and the default
/// in parentheses when there is one.
pub open spec fn prompt_text(buffer: Seq<char>, name: Seq<char>, d: Seq<char>) -> Seq<char> {
    buffer + name + if d.len() > 0 {
        seq![' ', '('] + d + seq![')']
    } else {
        Seq::<char>::empty()
    }
}

/// Decides what the workflow does with `row`, given the value currently
/// recorded for its name, the two policy flags, and the pending comment
/// buffer.
pub fn plan_row(
    row: &EnvFileRow,
    current: Option<&String>,
    only_empty: bool,
    only_filled: bool,
    buffer: &str,
) -> (r: PromptPlan)
    ensures
        ({
            let cur = match current {
                Some(v) => Some(v@),
                None => None,
            };
            match row@ {
                RowModel::Empty => r matches PromptPlan::Continue(b) && b@ == buffer@,
                RowModel::Comment(t) => r matches PromptPlan::Continue(b) && b@ == buffer@
                    + seq!['#', ' '] + t + seq!['\n'],
                RowModel::Decl(n, _) => if only_empty && cur is Some {
                    r == PromptPlan::Skip
                } else if only_filled && cur is None {
                    r == PromptPlan::Skip
                } else {
                    r matches PromptPlan::Ask(text, d) && d@ == default_of(cur) && text@
                        == prompt_text(buffer@, n, default_of(cur))
                },
            }
        }),
{
    match row {
        EnvFileRow::Empty => PromptPlan::Continue(buffer.to_owned()),
        EnvFileRow::CommentOnly(t) => {
            let mut b = buffer.to_owned();
            b.append("# ");
            b.append(t.as_str());
            b.append("\n");
            proof {
                reveal_strlit("# ");
                reveal_strlit("\n");
                assert("# "@ =~= seq!['#', ' ']);
                assert("\n"@ =~= seq!['\n']);
            }
            PromptPlan::Continue(b)
        },
        EnvFileRow::Declaration(d) => {
            let skip = match current {
                Some(_) => only_empty,
                None => only_filled,
            };
            if skip {
                PromptPlan::Skip
            } else {
                let default: String = match current {
                    Some(v) => (*v).clone(),
                    None => String::new(),
                };
                let mut text = buffer.to_owned();
                text.append(d.name.as_str());
                if !default.as_str().is_empty() {
                    text.append(" (");
                    text.append(default.as_str());
                    text.append(")");
                    proof {
                        reveal_strlit(" (");
                        reveal_strlit(")");
                        assert(" ("@ =~= seq![' ', '(']);
                        assert(")"@ =~= seq![')']);
                    }
                }
                PromptPlan::Ask(text, default)
            }
        },
    }
}

/// The value an answer records: the answer itself, or the default when the
/// operator answered nothing.
pub fn resolve_answer(line: String, default: String) -> (r: String)
    ensures
        r@ == if line@.len() == 0 {
            default@
        } else {
            line@
        },
{
    if line.as_str().is_empty() {
        default
    } else {
        line
    }
}

} // verus!
