//! The merge engine's laws: what flattening returns, which rows a merge
//! changes, and what a merge appends.

use vstd::prelude::*;
use crate::env_map::{has_key, map_get, map_remove, unique_keys, lemma_key_index,
    lemma_map_insert, lemma_map_remove_other, lemma_map_remove_unique};
use crate::model::RowModel;
use crate::merge::{env_pairs, merge_row, merged_rows, scan_leftover, apply_rows};

verus! {

/// Whether the row is a declaration of `k`, valued or not.
pub open spec fn declares(r: RowModel, k: Seq<char>) -> bool {
    match r {
        RowModel::Decl(n, _) => n == k,
        _ => false,
    }
}

/// Whether the row is a `k=value` declaration.
pub open spec fn sets_key(r: RowModel, k: Seq<char>) -> bool {
    match r {
        RowModel::Decl(n, v) => n == k && v is Some,
        _ => false,
    }
}

/// Whether any row declares `k`.
pub open spec fn has_declaration(rows: Seq<RowModel>, k: Seq<char>) -> bool {
    exists|i: int| 0 <= i < rows.len() && declares(#[trigger] rows[i], k)
}

/// Declaring a key in `rows` means declaring it before the last row or in
/// the last row.
proof fn lemma_has_declaration_split(rows: Seq<RowModel>, k: Seq<char>)
    requires
        rows.len() >= 1,
    ensures
        has_declaration(rows, k) == (has_declaration(rows.drop_last(), k)
            || declares(rows.last(), k)),
{
    let prefix = rows.drop_last();
    assert(forall|j: int| 0 <= j < prefix.len() ==> #[trigger] prefix[j] == rows[j]);
    if has_declaration(rows, k) {
        let w = choose|i: int| 0 <= i < rows.len() && declares(#[trigger] rows[i], k);
        if w < rows.len() - 1 {
            assert(declares(prefix[w], k));
        }
    }
    if has_declaration(prefix, k) {
        let w = choose|i: int| 0 <= i < prefix.len() && declares(#[trigger] prefix[i], k);
        assert(declares(rows[w], k));
    }
    if declares(rows.last(), k) {
        assert(declares(rows[rows.len() - 1], k));
    }
}

/// The keys of a flattened file are never duplicated.
pub proof fn lemma_env_pairs_unique(rows: Seq<RowModel>)
    ensures
        unique_keys(env_pairs(rows)),
    decreases rows.len(),
{
    if rows.len() > 0 {
        lemma_env_pairs_unique(rows.drop_last());
        match rows.last() {
            RowModel::Decl(n, v) => match v {
                Some(value) => {
                    lemma_map_insert(env_pairs(rows.drop_last()), n, value);
                },
                None => {},
            },
            _ => {},
        }
    }
}

/// Flatten correctness: the mapping binds a name to the value of its last
/// valued declaration.
pub proof fn lemma_flatten_last_occurrence(rows: Seq<RowModel>, i: int, n: Seq<char>, v: Seq<char>)
    requires
        0 <= i < rows.len(),
        rows[i] == RowModel::Decl(n, Some(v)),
        forall|j: int| i < j < rows.len() ==> !sets_key(#[trigger] rows[j], n),
    ensures
        map_get(env_pairs(rows), n) == Some(v),
    decreases rows.len(),
{
    let prefix = rows.drop_last();
    lemma_env_pairs_unique(prefix);
    if i == rows.len() - 1 {
        lemma_map_insert(env_pairs(prefix), n, v);
    } else {
        assert(forall|j: int| 0 <= j < prefix.len() ==> #[trigger] prefix[j] == rows[j]);
        lemma_flatten_last_occurrence(prefix, i, n, v);
        match rows.last() {
            RowModel::Decl(n2, val) => match val {
                Some(v2) => {
                    assert(!sets_key(rows[rows.len() - 1], n));
                    assert(n2 != n);
                    lemma_map_insert(env_pairs(prefix), n2, v2);
                },
                None => {},
            },
            _ => {},
        }
    }
}

/// Flatten correctness, the other direction: a name no row sets is absent
/// from the mapping.
pub proof fn lemma_flatten_absent(rows: Seq<RowModel>, n: Seq<char>)
    requires
        forall|j: int| 0 <= j < rows.len() ==> !sets_key(#[trigger] rows[j], n),
    ensures
        map_get(env_pairs(rows), n) is None,
        !has_key(env_pairs(rows), n),
    decreases rows.len(),
{
    if rows.len() == 0 {
    } else {
        let prefix = rows.drop_last();
        assert(forall|j: int| 0 <= j < prefix.len() ==> #[trigger] prefix[j] == rows[j]);
        lemma_flatten_absent(prefix, n);
        match rows.last() {
            RowModel::Decl(n2, val) => match val {
                Some(v2) => {
                    assert(!sets_key(rows[rows.len() - 1], n));
                    lemma_env_pairs_unique(prefix);
                    lemma_map_insert(env_pairs(prefix), n2, v2);
                },
                None => {},
            },
            _ => {},
        }
    }
}

/// Where each row of a merge result sits: the merged original rows first,
/// then — when pairs are left over — the blank row, the comment, and one
/// valued declaration per leftover pair.
proof fn lemma_apply_index(rows: Seq<RowModel>, m: Seq<(Seq<char>, Seq<char>)>, overwrite: bool)
    ensures
        ({
            let left = scan_leftover(rows, m, m);
            let result = apply_rows(rows, m, overwrite);
            &&& result.len() == if left.len() == 0 {
                rows.len() as int
            } else {
                rows.len() + 2 + left.len() as int
            }
            &&& forall|i: int| 0 <= i < rows.len() ==> result[i] == merge_row(#[trigger] rows[i],
                m, overwrite)
            &&& left.len() > 0 ==> result[rows.len() as int] == RowModel::Empty
            &&& left.len() > 0 ==> result[rows.len() as int + 1] == RowModel::Comment(
                "Additional values"@)
            &&& forall|t: int| 0 <= t < left.len() ==> result[rows.len() + 2 + t]
                == RowModel::Decl((#[trigger] left[t]).0, Some(left[t].1))
        }),
{
    let left = scan_leftover(rows, m, m);
    let merged = merged_rows(rows, m, overwrite);
    let result = apply_rows(rows, m, overwrite);
    assert(merged.len() == rows.len());
    assert forall|i: int| 0 <= i < rows.len() implies result[i] == merge_row(#[trigger] rows[i],
        m, overwrite) by {
        assert(merged[i] == merge_row(rows[i], m, overwrite));
    }
    if left.len() > 0 {
        let tail = left.map_values(|p: (Seq<char>, Seq<char>)| RowModel::Decl(p.0, Some(p.1)));
        assert(result == merged + seq![RowModel::Empty, RowModel::Comment("Additional values"@)]
            + tail);
        assert forall|t: int| 0 <= t < left.len() implies result[rows.len() + 2 + t]
            == RowModel::Decl((#[trigger] left[t]).0, Some(left[t].1)) by {
            assert(result[rows.len() + 2 + t] == tail[t]);
        }
    }
}

/// Merge override semantics, the keeping half: with overwriting off, a
/// declaration that already has a value keeps it, whatever the source maps
/// its name to.
pub proof fn lemma_merge_keeps_filled(
    rows: Seq<RowModel>,
    m: Seq<(Seq<char>, Seq<char>)>,
    i: int,
    n: Seq<char>,
    v: Seq<char>,
)
    requires
        0 <= i < rows.len(),
        rows[i] == RowModel::Decl(n, Some(v)),
    ensures
        apply_rows(rows, m, false)[i] == rows[i],
{
    lemma_apply_index(rows, m, false);
}

/// Merge override semantics, the winning half: with overwriting on, every
/// declaration whose name is a key of the source takes the source's value.
pub proof fn lemma_merge_override_wins(
    rows: Seq<RowModel>,
    m: Seq<(Seq<char>, Seq<char>)>,
    i: int,
    n: Seq<char>,
)
    requires
        0 <= i < rows.len(),
        declares(rows[i], n),
        has_key(m, n),
    ensures
        apply_rows(rows, m, true)[i] == RowModel::Decl(n, map_get(m, n)),
{
    lemma_apply_index(rows, m, true);
}

/// Merge fill semantics: under either policy, every declaration of a mapped
/// name that has no value of its own takes the source's value.
pub proof fn lemma_merge_fills_empty(
    rows: Seq<RowModel>,
    m: Seq<(Seq<char>, Seq<char>)>,
    overwrite: bool,
    i: int,
    n: Seq<char>,
)
    requires
        0 <= i < rows.len(),
        rows[i] == RowModel::Decl(n, None::<Seq<char>>),
        has_key(m, n),
    ensures
        apply_rows(rows, m, overwrite)[i] == RowModel::Decl(n, map_get(m, n)),
{
    lemma_apply_index(rows, m, overwrite);
}

/// What is left over after the scan: exactly the source pairs whose name no
/// declaration carries, each still bound to its source value, none twice.
pub proof fn lemma_scan_leftover(rows: Seq<RowModel>, m: Seq<(Seq<char>, Seq<char>)>)
    requires
        unique_keys(m),
    ensures
        unique_keys(scan_leftover(rows, m, m)),
        forall|k: Seq<char>| #[trigger] has_key(scan_leftover(rows, m, m), k)
            == (has_key(m, k) && !has_declaration(rows, k)),
        forall|k: Seq<char>| has_key(scan_leftover(rows, m, m), k)
            ==> #[trigger] map_get(scan_leftover(rows, m, m), k) == map_get(m, k),
    decreases rows.len(),
{
    if rows.len() == 0 {
        assert(forall|k: Seq<char>| !has_declaration(rows, k));
    } else {
        let prefix = rows.drop_last();
        lemma_scan_leftover(prefix, m);
        let m1 = scan_leftover(prefix, m, m);
        let m2 = scan_leftover(rows, m, m);
        assert forall|k: Seq<char>| true implies #[trigger] has_key(m2, k) == (has_key(m, k)
            && !has_declaration(rows, k)) && (has_key(m2, k) ==> map_get(m2, k)
            == map_get(m, k)) by {
            lemma_has_declaration_split(rows, k);
            match rows.last() {
                RowModel::Decl(n2, _) => {
                    if has_key(m, n2) {
                        assert(m2 == map_remove(m1, n2));
                        lemma_map_remove_unique(m1, n2);
                        if k != n2 {
                            lemma_map_remove_other(m1, n2, k);
                        }
                    } else {
                        assert(m2 == m1);
                        if k == n2 {
                            assert(!has_key(m1, k));
                        }
                    }
                },
                _ => {
                    assert(m2 == m1);
                },
            }
        }
        match rows.last() {
            RowModel::Decl(n2, _) => {
                if has_key(m, n2) {
                    lemma_map_remove_unique(m1, n2);
                }
            },
            _ => {},
        }
    }
}

/// The pairs of `m` whose name no row declares, in `m`'s own order.
pub open spec fn unmatched_pairs(
    rows: Seq<RowModel>,
    m: Seq<(Seq<char>, Seq<char>)>,
) -> Seq<(Seq<char>, Seq<char>)>
    decreases m.len(),
{
    if m.len() == 0 {
        m
    } else {
        let rest = unmatched_pairs(rows, m.skip(1));
        if has_declaration(rows, m[0].0) {
            rest
        } else {
            seq![m[0]] + rest
        }
    }
}

/// With no rows, nothing is matched.
proof fn lemma_unmatched_no_rows(rows: Seq<RowModel>, m: Seq<(Seq<char>, Seq<char>)>)
    requires
        rows.len() == 0,
    ensures
        unmatched_pairs(rows, m) == m,
    decreases m.len(),
{
    if m.len() > 0 {
        lemma_unmatched_no_rows(rows, m.skip(1));
        assert(unmatched_pairs(rows, m) =~= m);
    }
}

/// Row sequences that declare the same of `m`'s names leave the same pairs.
proof fn lemma_unmatched_congruent(
    rows1: Seq<RowModel>,
    rows2: Seq<RowModel>,
    m: Seq<(Seq<char>, Seq<char>)>,
)
    requires
        forall|j: int| 0 <= j < m.len() ==> has_declaration(rows1, (#[trigger] m[j]).0)
            == has_declaration(rows2, m[j].0),
    ensures
        unmatched_pairs(rows1, m) == unmatched_pairs(rows2, m),
    decreases m.len(),
{
    if m.len() > 0 {
        assert(forall|j: int| 0 <= j < m.skip(1).len() ==> #[trigger] m.skip(1)[j] == m[j + 1]);
        lemma_unmatched_congruent(rows1, rows2, m.skip(1));
        assert(m[0] == m[0]);
    }
}

/// Declaring one more name removes exactly its pair from the unmatched set.
proof fn lemma_unmatched_add_key(
    rows_old: Seq<RowModel>,
    rows_new: Seq<RowModel>,
    n: Seq<char>,
    m: Seq<(Seq<char>, Seq<char>)>,
)
    requires
        unique_keys(m),
        forall|k: Seq<char>| #[trigger] has_declaration(rows_new, k) == (has_declaration(
            rows_old, k) || k == n),
    ensures
        unmatched_pairs(rows_new, m) == map_remove(unmatched_pairs(rows_old, m), n),
    decreases m.len(),
{
    let u_old = unmatched_pairs(rows_old, m);
    let u_new = unmatched_pairs(rows_new, m);
    if m.len() == 0 {
        assert(!has_key(u_old, n));
    } else {
        let p = m[0];
        let mt = m.skip(1);
        assert(forall|j: int| 0 <= j < mt.len() ==> #[trigger] mt[j] == m[j + 1]);
        assert(unique_keys(mt));
        lemma_unmatched_add_key(rows_old, rows_new, n, mt);
        let v_old = unmatched_pairs(rows_old, mt);
        let v_new = unmatched_pairs(rows_new, mt);
        lemma_key_index(v_old, n);
        if has_declaration(rows_old, p.0) {
            assert(has_declaration(rows_new, p.0));
            assert(u_old == v_old && u_new == v_new);
        } else if p.0 == n {
            assert(has_declaration(rows_new, p.0));
            assert(u_old == seq![p] + v_old && u_new == v_new);
            // the head pair is the one removed
            assert(u_old[0].0 == n);
            assert(has_key(u_old, n));
            assert(crate::env_map::key_index(u_old, n) == 0);
            assert(map_remove(u_old, n) =~= v_old);
            // no other pair of `m` is named `n`, so nothing else changes
            assert(forall|j: int| 0 <= j < mt.len() ==> (#[trigger] mt[j]).0 != n);
            assert forall|j: int| 0 <= j < mt.len() implies has_declaration(rows_new,
                (#[trigger] mt[j]).0) == has_declaration(rows_old, mt[j].0) by {
                assert(has_declaration(rows_new, mt[j].0) == (has_declaration(rows_old,
                    mt[j].0) || mt[j].0 == n));
            }
            lemma_unmatched_congruent(rows_new, rows_old, mt);
        } else {
            assert(has_declaration(rows_new, p.0) == has_declaration(rows_old, p.0));
            assert(u_old == seq![p] + v_old && u_new == seq![p] + v_new);
            assert(v_new == map_remove(v_old, n));
            // removal passes over the head pair, whose name differs
            assert(u_old.skip(1) =~= v_old);
            if has_key(v_old, n) {
                let ki = crate::env_map::key_index(v_old, n);
                assert(has_key(u_old, n)) by {
                    assert(u_old[ki + 1] == v_old[ki]);
                }
                assert(crate::env_map::key_index(u_old, n) == 1 + ki);
                assert(map_remove(u_old, n) == u_old.remove(1 + ki));
                assert(u_old.remove(1 + ki) =~= seq![p] + v_old.remove(ki));
                assert(u_new =~= map_remove(u_old, n));
            } else {
                assert(!has_key(u_old, n)) by {
                    if has_key(u_old, n) {
                        let w = choose|i: int| 0 <= i < u_old.len() && (#[trigger] u_old[i]).0
                            == n;
                        assert(w >= 1);
                        assert(v_old[w - 1] == u_old[w]);
                    }
                }
                assert(map_remove(u_old, n) == u_old);
                assert(u_new =~= u_old);
            }
        }
    }
}

/// The leftover pairs are the unmatched pairs of the source, in the
/// source's iteration order.
pub proof fn lemma_leftover_in_source_order(rows: Seq<RowModel>, m: Seq<(Seq<char>, Seq<char>)>)
    requires
        unique_keys(m),
    ensures
        scan_leftover(rows, m, m) == unmatched_pairs(rows, m),
    decreases rows.len(),
{
    if rows.len() == 0 {
        lemma_unmatched_no_rows(rows, m);
    } else {
        let prefix = rows.drop_last();
        lemma_leftover_in_source_order(prefix, m);
        assert forall|k: Seq<char>| true implies #[trigger] has_declaration(rows, k)
            == (has_declaration(prefix, k) || declares(rows.last(), k)) by {
            lemma_has_declaration_split(rows, k);
        }
        match rows.last() {
            RowModel::Decl(n2, _) => {
                if has_key(m, n2) {
                    lemma_unmatched_add_key(prefix, rows, n2, m);
                } else {
                    assert(forall|j: int| 0 <= j < m.len() ==> (#[trigger] m[j]).0 != n2);
                    assert forall|j: int| 0 <= j < m.len() implies has_declaration(rows,
                        (#[trigger] m[j]).0) == has_declaration(prefix, m[j].0) by {
                        assert(has_declaration(rows, m[j].0) == (has_declaration(prefix,
                            m[j].0) || declares(rows.last(), m[j].0)));
                    }
                    lemma_unmatched_congruent(rows, prefix, m);
                }
            },
            _ => {
                assert forall|j: int| 0 <= j < m.len() implies has_declaration(rows,
                    (#[trigger] m[j]).0) == has_declaration(prefix, m[j].0) by {
                    assert(has_declaration(rows, m[j].0) == (has_declaration(prefix, m[j].0)
                        || declares(rows.last(), m[j].0)));
                }
                lemma_unmatched_congruent(rows, prefix, m);
            },
        }
    }
}

/// No-op append: when every source name is declared somewhere in the file,
/// the merge appends nothing — the result is the merged rows alone, one per
/// original row.
pub proof fn lemma_merge_no_leftover(rows: Seq<RowModel>, m: Seq<(Seq<char>, Seq<char>)>,
    overwrite: bool)
    requires
        unique_keys(m),
        forall|j: int| 0 <= j < m.len() ==> has_declaration(rows, (#[trigger] m[j]).0),
    ensures
        scan_leftover(rows, m, m).len() == 0,
        apply_rows(rows, m, overwrite) == merged_rows(rows, m, overwrite),
        apply_rows(rows, m, overwrite).len() == rows.len(),
{
    lemma_scan_leftover(rows, m);
    let left = scan_leftover(rows, m, m);
    if left.len() > 0 {
        assert(has_key(left, left[0].0));
        assert(has_key(m, left[0].0));
        let w = choose|i: int| 0 <= i < m.len() && (#[trigger] m[i]).0 == left[0].0;
        assert(has_declaration(rows, m[w].0));
    }
}

/// Appending unmatched keys: when some source name is declared nowhere in
/// the file, the merge appends a single blank row and `Additional values`
/// comment, then one valued declaration per unmatched pair — exactly
/// `2 + |leftover|` rows beyond the originals.
pub proof fn lemma_merge_appends_unmatched(rows: Seq<RowModel>, m: Seq<(Seq<char>, Seq<char>)>,
    overwrite: bool)
    requires
        unique_keys(m),
    ensures
        ({
            let left = scan_leftover(rows, m, m);
            &&& unique_keys(left)
            &&& forall|k: Seq<char>| #[trigger] has_key(left, k) == (has_key(m, k)
                && !has_declaration(rows, k))
            &&& forall|k: Seq<char>| has_key(left, k) ==> #[trigger] map_get(left, k)
                == map_get(m, k)
            &&& left.len() > 0 ==> apply_rows(rows, m, overwrite) == merged_rows(rows, m,
                overwrite) + seq![RowModel::Empty, RowModel::Comment("Additional values"@)]
                + left.map_values(|p: (Seq<char>, Seq<char>)| RowModel::Decl(p.0, Some(p.1)))
            &&& left.len() > 0 ==> apply_rows(rows, m, overwrite).len() == rows.len() + 2
                + left.len()
        }),
{
    lemma_scan_leftover(rows, m);
    lemma_apply_index(rows, m, overwrite);
}

/// Merging a row twice is merging it once.
proof fn lemma_merge_row_idempotent(row: RowModel, m: Seq<(Seq<char>, Seq<char>)>,
    overwrite: bool)
    ensures
        merge_row(merge_row(row, m, overwrite), m, overwrite) == merge_row(row, m, overwrite),
{
}

/// Idempotence: a second merge of the same mapping under the same policy
/// changes nothing — every source name now stands in some declaration with
/// its merged value, so no row is rewritten to anything new and no second
/// blank-and-comment block is appended.
pub proof fn lemma_merge_idempotent(rows: Seq<RowModel>, m: Seq<(Seq<char>, Seq<char>)>,
    overwrite: bool)
    requires
        unique_keys(m),
    ensures
        apply_rows(apply_rows(rows, m, overwrite), m, overwrite) == apply_rows(rows, m,
            overwrite),
{
    let r1 = apply_rows(rows, m, overwrite);
    let left = scan_leftover(rows, m, m);
    lemma_scan_leftover(rows, m);
    lemma_apply_index(rows, m, overwrite);
    // every source name is declared somewhere in the merge's result
    assert forall|j: int| 0 <= j < m.len() implies has_declaration(r1, (#[trigger] m[j]).0) by {
        let k = m[j].0;
        assert(has_key(m, k));
        if has_declaration(rows, k) {
            let w = choose|i: int| 0 <= i < rows.len() && declares(#[trigger] rows[i], k);
            assert(r1[w] == merge_row(rows[w], m, overwrite));
            assert(declares(r1[w], k));
        } else {
            assert(has_key(left, k));
            let w = choose|i: int| 0 <= i < left.len() && (#[trigger] left[i]).0 == k;
            assert(r1[rows.len() + 2 + w] == RowModel::Decl(left[w].0, Some(left[w].1)));
            assert(declares(r1[rows.len() + 2 + w], k));
        }
    }
    lemma_merge_no_leftover(r1, m, overwrite);
    // a second merge rewrites no row
    assert forall|t: int| 0 <= t < r1.len() implies merged_rows(r1, m, overwrite)[t]
        == r1[t] by {
        assert(merged_rows(r1, m, overwrite)[t] == merge_row(r1[t], m, overwrite));
        if t < rows.len() {
            assert(r1[t] == merge_row(rows[t], m, overwrite));
            lemma_merge_row_idempotent(rows[t], m, overwrite);
        } else if left.len() > 0 && t >= rows.len() + 2 {
            let t2 = t - rows.len() - 2;
            assert(r1[t] == RowModel::Decl(left[t2].0, Some(left[t2].1)));
            let k = left[t2].0;
            assert(has_key(left, k));
            assert(map_get(left, k) == map_get(m, k));
            key_index_at(left, k, t2);
            assert(map_get(m, k) == Some(left[t2].1));
        }
    }
    assert(merged_rows(r1, m, overwrite) =~= r1);
}

/// In a duplicate-free mapping, a pair's position is its key's index.
proof fn key_index_at(m: Seq<(Seq<char>, Seq<char>)>, k: Seq<char>, t: int)
    requires
        unique_keys(m),
        0 <= t < m.len(),
        m[t].0 == k,
    ensures
        crate::env_map::key_index(m, k) == t,
{
    lemma_key_index(m, k);
    let ki = crate::env_map::key_index(m, k);
    assert(has_key(m, k));
    if ki < t {
        assert(m[ki].0 == k);
    }
}

} // verus!
