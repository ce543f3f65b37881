//! Flattening an env file to a mapping, and merging a mapping back in.
//!
//! The merge rewrites each declaration whose name is a key of the source
//! mapping: the row takes the source's value when the policy allows an
//! overwrite or the row had none, and keeps its own value otherwise. A
//! working copy of the source, consumed as declarations match, serves only
//! to collect the pairs no declaration names: those are appended under a
//! blank line and an `Additional values` comment, in the mapping's
//! iteration order.

use vstd::prelude::*;
use crate::env_map::{EnvMap, has_key, map_get, map_insert, map_remove, unique_keys,
    lemma_map_insert};
use crate::model::{EnvDeclaration, EnvFile, EnvFileRow, RowModel, clone_row};

verus! {

/// The mapping an env file flattens to: every valued declaration inserted
/// in row order, so the last occurrence of a name wins and keys first
/// appear in the order of their first valued declaration.
pub open spec fn env_pairs(rows: Seq<RowModel>) -> Seq<(Seq<char>, Seq<char>)>
    decreases rows.len(),
{
    if rows.len() == 0 {
        Seq::<(Seq<char>, Seq<char>)>::empty()
    } else {
        let m = env_pairs(rows.drop_last());
        match rows.last() {
            RowModel::Decl(n, v) => match v {
                Some(value) => map_insert(m, n, value),
                None => m,
            },
            _ => m,
        }
    }
}

/// What one row becomes: a declaration whose name is a key of the source
/// takes the source's value when the policy allows an overwrite or the row
/// had none; every other row is untouched.
pub open spec fn merge_row(
    row: RowModel,
    m: Seq<(Seq<char>, Seq<char>)>,
    overwrite: bool,
) -> RowModel {
    match row {
        RowModel::Decl(n, v) => if has_key(m, n) && (overwrite || v is None) {
            RowModel::Decl(n, map_get(m, n))
        } else {
            row
        },
        _ => row,
    }
}

/// Every row merged against the source mapping, in place.
pub open spec fn merged_rows(
    rows: Seq<RowModel>,
    m: Seq<(Seq<char>, Seq<char>)>,
    overwrite: bool,
) -> Seq<RowModel> {
    rows.map_values(|r: RowModel| merge_row(r, m, overwrite))
}

/// The working copy after the scan: each declaration whose name is a key of
/// `orig` consumes that name from the copy, front to back.
pub open spec fn scan_leftover(
    rows: Seq<RowModel>,
    orig: Seq<(Seq<char>, Seq<char>)>,
    w: Seq<(Seq<char>, Seq<char>)>,
) -> Seq<(Seq<char>, Seq<char>)>
    decreases rows.len(),
{
    if rows.len() == 0 {
        w
    } else {
        let w1 = scan_leftover(rows.drop_last(), orig, w);
        match rows.last() {
            RowModel::Decl(n, _) => if has_key(orig, n) {
                map_remove(w1, n)
            } else {
                w1
            },
            _ => w1,
        }
    }
}

/// The rows appended for the pairs no declaration consumed: nothing when
/// none are left, else a blank row, an `Additional values` comment, and one
/// valued declaration per pair, in order.
pub open spec fn append_leftover(
    rows: Seq<RowModel>,
    left: Seq<(Seq<char>, Seq<char>)>,
) -> Seq<RowModel> {
    if left.len() == 0 {
        rows
    } else {
        rows + seq![RowModel::Empty, RowModel::Comment("Additional values"@)]
            + left.map_values(|p: (Seq<char>, Seq<char>)| RowModel::Decl(p.0, Some(p.1)))
    }
}

/// The full merge: every row merged against the source, then whatever the
/// scan never consumed appended.
pub open spec fn apply_rows(
    rows: Seq<RowModel>,
    m: Seq<(Seq<char>, Seq<char>)>,
    overwrite: bool,
) -> Seq<RowModel> {
    append_leftover(merged_rows(rows, m, overwrite), scan_leftover(rows, m, m))
}

impl EnvFile {
    /// The file flattened to a mapping: every `name=value` declaration,
    /// last occurrence of a name winning.
    pub fn env(&self) -> (r: EnvMap)
        ensures
            r@ == env_pairs(self@),
            unique_keys(r@),
    {
        let n = self.0.len();
        let mut m = EnvMap::new();
        let mut i: usize = 0;
        while i < n
            invariant
                n == self.0.len(),
                i <= n,
                m@ == env_pairs(self@.take(i as int)),
                unique_keys(m@),
            decreases n - i,
        {
            match &self.0[i] {
                EnvFileRow::Declaration(d) => {
                    match &d.value {
                        Some(v) => {
                            proof {
                                lemma_map_insert(m@, d.name@, v@);
                            }
                            m.insert(d.name.clone(), v.clone());
                        },
                        None => {},
                    }
                },
                _ => {},
            }
            i = i + 1;
            proof {
                assert(self@.take(i as int).drop_last() =~= self@.take(i - 1));
                assert(self@.take(i as int).last() == self@[i - 1]);
            }
        }
        proof {
            assert(self@.take(n as int) =~= self@);
        }
        m
    }

    /// Merges `map` into the file in place under the given override policy.
    pub fn apply_assign(&mut self, map: &EnvMap, overwrite: bool)
        ensures
            final(self)@ == apply_rows(old(self)@, map@, overwrite),
    {
        let mut work = map.duplicate();
        let n = self.0.len();
        let mut out: Vec<EnvFileRow> = Vec::new();
        let mut i: usize = 0;
        while i < n
            invariant
                *self == *old(self),
                n == self.0.len(),
                i <= n,
                out@.len() == i as int,
                forall|j: int| 0 <= j < i ==> (#[trigger] out@[j])@ == merge_row(old(self)@[j],
                    map@, overwrite),
                work@ == scan_leftover(old(self)@.take(i as int), map@, map@),
            decreases n - i,
        {
            let row = &self.0[i];
            match row {
                EnvFileRow::Declaration(d) => {
                    if map.contains_key(d.name.as_str()) {
                        let replace = overwrite || d.value.is_none();
                        if replace {
                            let value: Option<String> = match map.get(d.name.as_str()) {
                                Some(s) => Some(s.clone()),
                                None => None,
                            };
                            out.push(EnvFileRow::Declaration(EnvDeclaration {
                                name: d.name.clone(),
                                value,
                            }));
                        } else {
                            out.push(clone_row(row));
                        }
                        work.remove(d.name.as_str());
                    } else {
                        out.push(clone_row(row));
                    }
                },
                _ => {
                    out.push(clone_row(row));
                },
            }
            i = i + 1;
            proof {
                let rows = old(self)@.take(i as int);
                assert(rows.drop_last() =~= old(self)@.take(i - 1));
                assert(rows.last() == old(self)@[i - 1]);
            }
        }
        proof {
            assert(old(self)@.take(n as int) =~= old(self)@);
        }
        let ghost scanned = merged_rows(old(self)@, map@, overwrite);
        let ghost left = scan_leftover(old(self)@, map@, map@);
        proof {
            assert forall|t: int| 0 <= t < scanned.len() implies (#[trigger] out@[t])@
                == scanned[t] by {
                assert(out@[t]@ == merge_row(old(self)@[t], map@, overwrite));
            }
            assert(out@.len() == scanned.len());
        }
        if work.len() > 0 {
            out.push(EnvFileRow::Empty);
            out.push(EnvFileRow::CommentOnly(String::from_str("Additional values")));
            let m = work.len();
            let mut j: usize = 0;
            while j < m
                invariant
                    m == work@.len(),
                    j <= m,
                    work@ == left,
                    out@.len() == scanned.len() + 2 + j as int,
                    forall|t: int| 0 <= t < scanned.len() ==> (#[trigger] out@[t])@ == scanned[t],
                    out@[scanned.len() as int]@ == RowModel::Empty,
                    out@[scanned.len() as int + 1]@ == RowModel::Comment("Additional values"@),
                    forall|t: int| 0 <= t < j ==> (#[trigger] out@[scanned.len() + 2 + t])@
                        == RowModel::Decl(left[t].0, Some(left[t].1)),
                decreases m - j,
            {
                let e = work.entry_at(j);
                out.push(EnvFileRow::Declaration(EnvDeclaration {
                    name: e.0.clone(),
                    value: Some(e.1.clone()),
                }));
                j = j + 1;
            }
        }
        self.0 = out;
        proof {
            let result = apply_rows(old(self)@, map@, overwrite);
            if left.len() == 0 {
                assert(self@ =~= result);
            } else {
                let tail = left.map_values(|p: (Seq<char>, Seq<char>)| RowModel::Decl(p.0,
                    Some(p.1)));
                assert(result == scanned + seq![RowModel::Empty, RowModel::Comment(
                    "Additional values"@)] + tail);
                assert forall|t: int| 0 <= t < self@.len() implies #[trigger] self@[t]
                    == result[t] by {
                    assert(self@[t] == self.0@[t]@);
                    if t < scanned.len() {
                    } else if t < scanned.len() + 2 {
                    } else {
                        let t2 = t - scanned.len() - 2;
                        assert(out@[scanned.len() + 2 + t2]@ == RowModel::Decl(left[t2].0,
                            Some(left[t2].1)));
                        assert(result[t] == tail[t2]);
                    }
                }
                assert(self@ =~= result);
            }
        }
    }

    /// The pure merge: a copy of the file with `map` merged in; the
    /// receiver is untouched.
    pub fn apply(&self, map: &EnvMap, overwrite: bool) -> (r: EnvFile)
        ensures
            r@ == apply_rows(self@, map@, overwrite),
    {
        let mut c = EnvFile(self.stream());
        proof {
            assert(c@ == self@);
        }
        c.apply_assign(map, overwrite);
        c
    }
}

} // verus!
