//! The profile/entry store.
//!
//! A `Database` records profile names, host-to-address rows keyed by
//! (profile, host), and the single active-profile pointer. Profile names are
//! unique, (profile, host) pairs are unique, and the pointer always holds
//! exactly one value, initialized to `"default"`. Rows and profile names are
//! kept sorted lexicographically, which makes listings and rendering
//! deterministic. Durability is the caller's concern: the store itself never
//! touches a file.

use vstd::prelude::*;
use vstd::string::StringExecFns;

use crate::lex::{lemma_lex_lt_connected, lemma_lex_lt_irreflexive, lemma_lex_lt_transitive,
    lex_lt, str_lt};

verus! {

/// View of one stored row: (profile name, host, address).
pub type RowView = (Seq<char>, Seq<char>, Seq<char>);

/// View of an entry key: (profile name, host).
pub type KeyView = (Seq<char>, Seq<char>);

/// The key of a row.
pub open spec fn row_key(r: RowView) -> KeyView {
    (r.0, r.1)
}

/// Order on entry keys: by profile name, then by host.
pub open spec fn key_lt(a: KeyView, b: KeyView) -> bool {
    lex_lt(a.0, b.0) || (a.0 == b.0 && lex_lt(a.1, b.1))
}

/// Rows strictly sorted by key.
pub open spec fn rows_sorted(rows: Seq<RowView>) -> bool {
    forall|i: int, j: int|
        #![trigger rows[i], rows[j]]
        0 <= i < j < rows.len() ==> key_lt(row_key(rows[i]), row_key(rows[j]))
}

/// Names strictly sorted lexicographically.
pub open spec fn names_sorted(names: Seq<Seq<char>>) -> bool {
    forall|i: int, j: int|
        #![trigger names[i], names[j]]
        0 <= i < j < names.len() ==> lex_lt(names[i], names[j])
}

/// The row carries the given key.
pub open spec fn same_key(r: RowView, k: KeyView) -> bool {
    r.0 == k.0 && r.1 == k.1
}

/// Some row carries the given key.
pub open spec fn rows_has_key(rows: Seq<RowView>, k: KeyView) -> bool {
    exists|i: int| 0 <= i < rows.len() && same_key(#[trigger] rows[i], k)
}

/// The address of the row carrying the given key.
pub open spec fn rows_addr(rows: Seq<RowView>, k: KeyView) -> Seq<char> {
    let i = choose|i: int| 0 <= i < rows.len() && same_key(#[trigger] rows[i], k);
    rows[i].2
}

/// The rows as a finite map from keys to addresses.
pub open spec fn rows_map(rows: Seq<RowView>) -> Map<KeyView, Seq<char>> {
    Map::new(|k: KeyView| rows_has_key(rows, k), |k: KeyView| rows_addr(rows, k))
}

/// The views of a listing of names.
pub open spec fn names_view(v: Seq<String>) -> Seq<Seq<char>> {
    v.map_values(|s: String| s@)
}

/// The views of a listing of (profile, host, address) rows.
pub open spec fn rows_view(v: Seq<(String, String, String)>) -> Seq<RowView> {
    v.map_values(|t: (String, String, String)| (t.0@, t.1@, t.2@))
}

/// The views of a listing of (host, address) pairs.
pub open spec fn pairs_view(v: Seq<(String, String)>) -> Seq<(Seq<char>, Seq<char>)> {
    v.map_values(|t: (String, String)| (t.0@, t.1@))
}

/// The entry keys lying under one profile.
pub open spec fn profile_keys(p: Seq<char>) -> Set<KeyView> {
    Set::new(|k: KeyView| k.0 == p)
}

/// No two rows carry the same key.
pub open spec fn rows_unique(rows: Seq<RowView>) -> bool {
    forall|i: int, j: int|
        #![trigger rows[i], rows[j]]
        0 <= i < j < rows.len() ==> !same_key(rows[i], row_key(rows[j]))
}

/// The key order is transitive.
pub proof fn lemma_key_lt_transitive(a: KeyView, b: KeyView, c: KeyView)
    requires
        key_lt(a, b),
        key_lt(b, c),
    ensures
        key_lt(a, c),
{
    if lex_lt(a.0, b.0) && lex_lt(b.0, c.0) {
        lemma_lex_lt_transitive(a.0, b.0, c.0);
    } else if a.0 == b.0 && b.0 == c.0 {
        lemma_lex_lt_transitive(a.1, b.1, c.1);
    }
}

/// A key never precedes itself.
pub proof fn lemma_key_lt_irreflexive(a: KeyView)
    ensures
        !key_lt(a, a),
{
    lemma_lex_lt_irreflexive(a.0);
    lemma_lex_lt_irreflexive(a.1);
}

/// Distinct keys are ordered one way or the other.
pub proof fn lemma_key_lt_connected(a: KeyView, b: KeyView)
    requires
        a != b,
    ensures
        key_lt(a, b) || key_lt(b, a),
{
    if a.0 == b.0 {
        assert(a.1 != b.1);
        lemma_lex_lt_connected(a.1, b.1);
    } else {
        lemma_lex_lt_connected(a.0, b.0);
    }
}

/// Sorted rows have unique keys.
pub proof fn lemma_sorted_rows_unique(rows: Seq<RowView>)
    requires
        rows_sorted(rows),
    ensures
        rows_unique(rows),
{
    assert forall|i: int, j: int|
        #![trigger rows[i], rows[j]]
        0 <= i < j < rows.len() implies !same_key(rows[i], row_key(rows[j])) by {
        if same_key(rows[i], row_key(rows[j])) {
            assert(key_lt(row_key(rows[i]), row_key(rows[j])));
            lemma_key_lt_irreflexive(row_key(rows[j]));
        }
    }
}

/// Under unique keys, the address looked up for a key is the address of the
/// row that carries it.
pub proof fn lemma_rows_addr_at(rows: Seq<RowView>, k: KeyView, i: int)
    requires
        rows_unique(rows),
        0 <= i < rows.len(),
        same_key(rows[i], k),
    ensures
        rows_has_key(rows, k),
        rows_addr(rows, k) == rows[i].2,
{
    assert(rows_has_key(rows, k));
    let j = choose|j: int| 0 <= j < rows.len() && same_key(#[trigger] rows[j], k);
    if j != i {
        if i < j {
            assert(!same_key(rows[i], row_key(rows[j])));
        } else {
            assert(!same_key(rows[j], row_key(rows[i])));
        }
        assert(false);
    }
}

/// Inserting a row with a fresh key inserts its binding into the map view.
pub proof fn lemma_rows_map_insert(rows: Seq<RowView>, pos: int, r: RowView)
    requires
        rows_unique(rows),
        !rows_has_key(rows, row_key(r)),
        0 <= pos <= rows.len(),
    ensures
        rows_unique(rows.insert(pos, r)),
        rows_map(rows.insert(pos, r)) == rows_map(rows).insert(row_key(r), r.2),
{
    rows.insert_ensures(pos, r);
    let new = rows.insert(pos, r);
    let k0 = row_key(r);
    assert forall|i: int, j: int|
        #![trigger new[i], new[j]]
        0 <= i < j < new.len() implies !same_key(new[i], row_key(new[j])) by {
        if same_key(new[i], row_key(new[j])) {
            if i == pos {
                assert(same_key(rows[j - 1], k0));
            } else if j == pos {
                assert(same_key(rows[i], k0));
            } else {
                let i0: int = if i < pos { i } else { i - 1 };
                let j0: int = if j < pos { j } else { j - 1 };
                assert(new[i] == rows[i0]);
                assert(new[j] == rows[j0]);
                assert(!same_key(rows[i0], row_key(rows[j0])));
            }
            assert(false);
        }
    }
    assert forall|k: KeyView| #[trigger] rows_has_key(new, k) implies rows_has_key(rows, k) || k
        == k0 by {
        let i = choose|i: int| 0 <= i < new.len() && same_key(#[trigger] new[i], k);
        if i == pos {
            assert(k == k0);
        } else if i < pos {
            assert(same_key(rows[i], k));
        } else {
            assert(same_key(rows[i - 1], k));
        }
    }
    assert forall|k: KeyView| rows_has_key(rows, k) implies #[trigger] rows_has_key(new, k) by {
        let i = choose|i: int| 0 <= i < rows.len() && same_key(#[trigger] rows[i], k);
        if i < pos {
            assert(same_key(new[i], k));
        } else {
            assert(same_key(new[i + 1], k));
        }
    }
    assert(same_key(new[pos], k0));
    assert(rows_has_key(new, k0));
    assert forall|k: KeyView| #[trigger] rows_has_key(new, k) implies rows_map(new)[k]
        == rows_map(rows).insert(k0, r.2)[k] by {
        if k == k0 {
            lemma_rows_addr_at(new, k0, pos);
        } else {
            let i = choose|i: int| 0 <= i < rows.len() && same_key(#[trigger] rows[i], k);
            lemma_rows_addr_at(rows, k, i);
            if i < pos {
                lemma_rows_addr_at(new, k, i);
            } else {
                lemma_rows_addr_at(new, k, i + 1);
            }
        }
    }
    assert(rows_map(new) =~= rows_map(rows).insert(k0, r.2));
}

/// Removing the row at an index removes its binding from the map view.
pub proof fn lemma_rows_map_remove(rows: Seq<RowView>, i: int)
    requires
        rows_unique(rows),
        0 <= i < rows.len(),
    ensures
        rows_unique(rows.remove(i)),
        rows_map(rows.remove(i)) == rows_map(rows).remove(row_key(rows[i])),
{
    rows.remove_ensures(i);
    let new = rows.remove(i);
    let k0 = row_key(rows[i]);
    assert forall|a: int, b: int|
        #![trigger new[a], new[b]]
        0 <= a < b < new.len() implies !same_key(new[a], row_key(new[b])) by {
        let a0: int = if a < i { a } else { a + 1 };
        let b0: int = if b < i { b } else { b + 1 };
        assert(new[a] == rows[a0]);
        assert(new[b] == rows[b0]);
        assert(!same_key(rows[a0], row_key(rows[b0])));
    }
    assert forall|k: KeyView| #[trigger]
        rows_has_key(new, k) == (rows_has_key(rows, k) && k != k0) by {
        if rows_has_key(new, k) {
            let a = choose|a: int| 0 <= a < new.len() && same_key(#[trigger] new[a], k);
            let a0: int = if a < i { a } else { a + 1 };
            assert(same_key(rows[a0], k));
            if k == k0 {
                if a0 < i {
                    assert(!same_key(rows[a0], row_key(rows[i])));
                } else {
                    assert(!same_key(rows[i], row_key(rows[a0])));
                }
                assert(false);
            }
        }
        if rows_has_key(rows, k) && k != k0 {
            let a = choose|a: int| 0 <= a < rows.len() && same_key(#[trigger] rows[a], k);
            if a < i {
                assert(same_key(new[a], k));
            } else if a > i {
                assert(same_key(new[a - 1], k));
            }
        }
    }
    assert forall|k: KeyView| #[trigger] rows_has_key(new, k) implies rows_map(new)[k]
        == rows_map(rows).remove(k0)[k] by {
        let a = choose|a: int| 0 <= a < new.len() && same_key(#[trigger] new[a], k);
        let a0: int = if a < i { a } else { a + 1 };
        assert(same_key(rows[a0], k));
        lemma_rows_addr_at(rows, k, a0);
        lemma_rows_addr_at(new, k, a);
    }
    assert(rows_map(new) =~= rows_map(rows).remove(k0));
}

/// The rows with the given profile's rows removed.
pub open spec fn drop_profile(rows: Seq<RowView>, p: Seq<char>) -> Seq<RowView>
    decreases rows.len(),
{
    if rows.len() == 0 {
        Seq::empty()
    } else {
        let rest = drop_profile(rows.drop_last(), p);
        if rows.last().0 == p {
            rest
        } else {
            rest.push(rows.last())
        }
    }
}

/// The (host, address) pairs of the given profile, in row order.
pub open spec fn entries_of_rows(rows: Seq<RowView>, p: Seq<char>) -> Seq<(Seq<char>, Seq<char>)>
    decreases rows.len(),
{
    if rows.len() == 0 {
        Seq::empty()
    } else {
        let rest = entries_of_rows(rows.drop_last(), p);
        if rows.last().0 == p {
            rest.push((rows.last().1, rows.last().2))
        } else {
            rest
        }
    }
}

/// Rows that never mention the profile contribute no entries for it.
pub proof fn lemma_entries_of_rows_none(rows: Seq<RowView>, p: Seq<char>)
    requires
        forall|i: int| 0 <= i < rows.len() ==> (#[trigger] rows[i]).0 != p,
    ensures
        entries_of_rows(rows, p) == Seq::<(Seq<char>, Seq<char>)>::empty(),
    decreases rows.len(),
{
    if rows.len() > 0 {
        assert(rows[rows.len() - 1].0 != p);
        assert(forall|i: int| 0 <= i < rows.drop_last().len() ==> (#[trigger] rows.drop_last()[i]).0 != p);
        lemma_entries_of_rows_none(rows.drop_last(), p);
    }
}

/// Dropping a profile keeps exactly the other rows, in order.
pub proof fn lemma_drop_profile_elems(rows: Seq<RowView>, p: Seq<char>)
    ensures
        forall|j: int| 0 <= j < drop_profile(rows, p).len() ==> rows.contains(
            #[trigger] drop_profile(rows, p)[j],
        ) && drop_profile(rows, p)[j].0 != p,
        forall|i: int| 0 <= i < rows.len() && (#[trigger] rows[i]).0 != p ==> drop_profile(
            rows,
            p,
        ).contains(rows[i]),
        rows_sorted(rows) ==> rows_sorted(drop_profile(rows, p)),
    decreases rows.len(),
{
    let dp = drop_profile(rows, p);
    if rows.len() > 0 {
        let head = rows.drop_last();
        lemma_drop_profile_elems(head, p);
        let rest = drop_profile(head, p);
        assert forall|i: int| 0 <= i < rows.len() && (#[trigger] rows[i]).0 != p implies dp.contains(
            rows[i],
        ) by {
            if i < rows.len() - 1 {
                assert(head[i] == rows[i]);
                assert(rest.contains(rows[i]));
                let j = choose|j: int| 0 <= j < rest.len() && rest[j] == rows[i];
                assert(dp[j] == rows[i]);
            } else {
                assert(rows.last().0 != p);
                assert(dp[dp.len() - 1] == rows[i]);
            }
        }
        assert forall|j: int| 0 <= j < dp.len() implies rows.contains(#[trigger] dp[j]) && dp[j].0
            != p by {
            if j < rest.len() {
                assert(rest[j] == dp[j]);
                let i = choose|i: int| 0 <= i < head.len() && head[i] == rest[j];
                assert(rows[i] == dp[j]);
            } else {
                assert(dp[j] == rows.last());
                assert(rows[rows.len() - 1] == dp[j]);
            }
        }
        if rows_sorted(rows) {
            assert(rows_sorted(head));
            assert forall|a: int, b: int|
                #![trigger dp[a], dp[b]]
                0 <= a < b < dp.len() implies key_lt(row_key(dp[a]), row_key(dp[b])) by {
                if b < rest.len() {
                    assert(rest[a] == dp[a]);
                    assert(rest[b] == dp[b]);
                } else {
                    assert(dp[b] == rows.last());
                    assert(rest[a] == dp[a]);
                    let i = choose|i: int| 0 <= i < head.len() && head[i] == rest[a];
                    assert(rows[i] == dp[a]);
                    assert(key_lt(row_key(rows[i]), row_key(rows[rows.len() - 1])));
                }
            }
        }
    }
}

/// Dropping a profile removes exactly its keys from the map view, and leaves
/// it with no entries.
pub proof fn lemma_drop_profile_map(rows: Seq<RowView>, p: Seq<char>)
    requires
        rows_sorted(rows),
    ensures
        rows_sorted(drop_profile(rows, p)),
        rows_map(drop_profile(rows, p)) == rows_map(rows).remove_keys(
            Set::new(|k: KeyView| k.0 == p),
        ),
        entries_of_rows(drop_profile(rows, p), p) == Seq::<(Seq<char>, Seq<char>)>::empty(),
{
    let dp = drop_profile(rows, p);
    lemma_drop_profile_elems(rows, p);
    lemma_sorted_rows_unique(rows);
    lemma_sorted_rows_unique(dp);
    lemma_entries_of_rows_none(dp, p);
    assert forall|k: KeyView| #[trigger]
        rows_has_key(dp, k) == (rows_has_key(rows, k) && k.0 != p) by {
        if rows_has_key(dp, k) {
            let j = choose|j: int| 0 <= j < dp.len() && same_key(#[trigger] dp[j], k);
            assert(dp[j].0 == k.0 && dp[j].0 != p);
            let i = choose|i: int| 0 <= i < rows.len() && rows[i] == dp[j];
            assert(same_key(rows[i], k));
        }
        if rows_has_key(rows, k) && k.0 != p {
            let i = choose|i: int| 0 <= i < rows.len() && same_key(#[trigger] rows[i], k);
            assert(rows[i].0 != p);
            assert(dp.contains(rows[i]));
            let j = choose|j: int| 0 <= j < dp.len() && dp[j] == rows[i];
            assert(same_key(dp[j], k));
        }
    }
    assert forall|k: KeyView| #[trigger] rows_has_key(dp, k) implies rows_map(dp)[k] == rows_map(
        rows,
    ).remove_keys(Set::new(|kk: KeyView| kk.0 == p))[k] by {
        let j = choose|j: int| 0 <= j < dp.len() && same_key(#[trigger] dp[j], k);
        let i = choose|i: int| 0 <= i < rows.len() && rows[i] == dp[j];
        lemma_rows_addr_at(dp, k, j);
        lemma_rows_addr_at(rows, k, i);
    }
    assert(rows_map(dp) =~= rows_map(rows).remove_keys(Set::new(|k: KeyView| k.0 == p)));
}

/// Entries of one profile come out with strictly ascending hosts, each
/// stemming from a row of that profile.
pub proof fn lemma_entries_of_rows_sorted(rows: Seq<RowView>, p: Seq<char>)
    requires
        rows_sorted(rows),
    ensures
        forall|j: int| 0 <= j < entries_of_rows(rows, p).len() ==> rows.contains(
            (p, (#[trigger] entries_of_rows(rows, p)[j]).0, entries_of_rows(rows, p)[j].1),
        ),
        forall|i: int, j: int|
            #![trigger entries_of_rows(rows, p)[i], entries_of_rows(rows, p)[j]]
            0 <= i < j < entries_of_rows(rows, p).len() ==> lex_lt(
                entries_of_rows(rows, p)[i].0,
                entries_of_rows(rows, p)[j].0,
            ),
    decreases rows.len(),
{
    let e = entries_of_rows(rows, p);
    if rows.len() > 0 {
        let head = rows.drop_last();
        assert(rows_sorted(head));
        lemma_entries_of_rows_sorted(head, p);
        let erest = entries_of_rows(head, p);
        assert forall|j: int| 0 <= j < e.len() implies rows.contains(
            (p, (#[trigger] e[j]).0, e[j].1),
        ) by {
            if j < erest.len() {
                assert(e[j] == erest[j]);
                assert(head.contains((p, erest[j].0, erest[j].1)));
                let k = choose|k: int| 0 <= k < head.len() && head[k] == (
                    p,
                    erest[j].0,
                    erest[j].1,
                );
                assert(rows[k] == (p, e[j].0, e[j].1));
            } else {
                assert(rows.last().0 == p && e[j] == (rows.last().1, rows.last().2));
                assert(rows[rows.len() - 1] == (p, e[j].0, e[j].1));
            }
        }
        assert forall|i: int, j: int|
            #![trigger e[i], e[j]]
            0 <= i < j < e.len() implies lex_lt(e[i].0, e[j].0) by {
            if j < erest.len() {
                assert(e[i] == erest[i] && e[j] == erest[j]);
            } else {
                assert(e[i] == erest[i]);
                assert(head.contains((p, erest[i].0, erest[i].1)));
                let k = choose|k: int| 0 <= k < head.len() && head[k] == (
                    p,
                    erest[i].0,
                    erest[i].1,
                );
                assert(rows[k] == head[k]);
                assert(key_lt(row_key(rows[k]), row_key(rows[rows.len() - 1])));
                lemma_lex_lt_irreflexive(p);
            }
        }
    }
}

/// Inserting a name at its slot keeps the listing sorted.
pub proof fn lemma_names_sorted_insert(names: Seq<Seq<char>>, pos: int, x: Seq<char>)
    requires
        names_sorted(names),
        0 <= pos <= names.len(),
        forall|j: int| 0 <= j < pos ==> lex_lt(#[trigger] names[j], x),
        pos < names.len() ==> lex_lt(x, names[pos]),
    ensures
        names_sorted(names.insert(pos, x)),
{
    names.insert_ensures(pos, x);
    let new = names.insert(pos, x);
    assert forall|a: int, b: int|
        #![trigger new[a], new[b]]
        0 <= a < b < new.len() implies lex_lt(new[a], new[b]) by {
        if a == pos {
            if b - 1 > pos {
                lemma_lex_lt_transitive(x, names[pos], names[b - 1]);
            }
        } else if b == pos {
            assert(lex_lt(names[a], x));
        } else {
            let a0: int = if a < pos { a } else { a - 1 };
            let b0: int = if b < pos { b } else { b - 1 };
            assert(new[a] == names[a0]);
            assert(new[b] == names[b0]);
            assert(lex_lt(names[a0], names[b0]));
        }
    }
}

/// Inserting a row at its slot keeps the rows sorted.
pub proof fn lemma_rows_sorted_insert(rows: Seq<RowView>, pos: int, r: RowView)
    requires
        rows_sorted(rows),
        0 <= pos <= rows.len(),
        forall|j: int| 0 <= j < pos ==> key_lt(row_key(#[trigger] rows[j]), row_key(r)),
        pos < rows.len() ==> key_lt(row_key(r), row_key(rows[pos])),
    ensures
        rows_sorted(rows.insert(pos, r)),
{
    rows.insert_ensures(pos, r);
    let new = rows.insert(pos, r);
    assert forall|a: int, b: int|
        #![trigger new[a], new[b]]
        0 <= a < b < new.len() implies key_lt(row_key(new[a]), row_key(new[b])) by {
        if a == pos {
            if b - 1 > pos {
                lemma_key_lt_transitive(row_key(r), row_key(rows[pos]), row_key(rows[b - 1]));
            }
        } else if b == pos {
            assert(key_lt(row_key(rows[a]), row_key(r)));
        } else {
            let a0: int = if a < pos { a } else { a - 1 };
            let b0: int = if b < pos { b } else { b - 1 };
            assert(new[a] == rows[a0]);
            assert(new[b] == rows[b0]);
            assert(key_lt(row_key(rows[a0]), row_key(rows[b0])));
        }
    }
}

/// Removing an element keeps a sorted listing sorted.
pub proof fn lemma_names_sorted_remove(names: Seq<Seq<char>>, pos: int)
    requires
        names_sorted(names),
        0 <= pos < names.len(),
    ensures
        names_sorted(names.remove(pos)),
{
    names.remove_ensures(pos);
    let new = names.remove(pos);
    assert forall|a: int, b: int|
        #![trigger new[a], new[b]]
        0 <= a < b < new.len() implies lex_lt(new[a], new[b]) by {
        let a0: int = if a < pos { a } else { a + 1 };
        let b0: int = if b < pos { b } else { b + 1 };
        assert(new[a] == names[a0]);
        assert(new[b] == names[b0]);
        assert(lex_lt(names[a0], names[b0]));
    }
}

/// Removing a row keeps the rows sorted.
pub proof fn lemma_rows_sorted_remove(rows: Seq<RowView>, pos: int)
    requires
        rows_sorted(rows),
        0 <= pos < rows.len(),
    ensures
        rows_sorted(rows.remove(pos)),
{
    rows.remove_ensures(pos);
    let new = rows.remove(pos);
    assert forall|a: int, b: int|
        #![trigger new[a], new[b]]
        0 <= a < b < new.len() implies key_lt(row_key(new[a]), row_key(new[b])) by {
        let a0: int = if a < pos { a } else { a + 1 };
        let b0: int = if b < pos { b } else { b + 1 };
        assert(new[a] == rows[a0]);
        assert(new[b] == rows[b0]);
        assert(key_lt(row_key(rows[a0]), row_key(rows[b0])));
    }
}

/// Tests two strings for equality, through the lexicographic order.
fn str_eq_ord(a: &str, b: &str) -> (r: bool)
    ensures
        r == (a@ == b@),
{
    let lt1 = str_lt(a, b);
    let lt2 = str_lt(b, a);
    proof {
        if a@ == b@ {
            lemma_lex_lt_irreflexive(a@);
        } else {
            lemma_lex_lt_connected(a@, b@);
        }
    }
    !lt1 && !lt2
}

/// Compares two entry keys given as profile and host strings.
fn key_lt_exec(ap: &String, ah: &String, bp: &str, bh: &str) -> (r: bool)
    ensures
        r == key_lt((ap@, ah@), (bp@, bh@)),
{
    if str_lt(ap.as_str(), bp) {
        true
    } else if str_lt(bp, ap.as_str()) {
        false
    } else {
        proof {
            if ap@ != bp@ {
                lemma_lex_lt_connected(ap@, bp@);
            }
        }
        str_lt(ah.as_str(), bh)
    }
}

/// One stored row.
struct Row {
    profile: String,
    host: String,
    address: String,
}

/// The store: profile names, entry rows and the active-profile pointer.
pub struct Database {
    profiles: Vec<String>,
    rows: Vec<Row>,
    active_name: String,
}

impl Database {
    /// The profile names, in listing order.
    pub closed spec fn profiles_seq(&self) -> Seq<Seq<char>> {
        self.profiles@.map_values(|s: String| s@)
    }

    /// The rows, in storage order.
    pub closed spec fn rows_seq(&self) -> Seq<RowView> {
        self.rows@.map_values(|r: Row| (r.profile@, r.host@, r.address@))
    }

    /// The active-profile pointer.
    pub closed spec fn active(&self) -> Seq<char> {
        self.active_name@
    }

    /// The registered profile names.
    pub open spec fn profile_set(&self) -> Set<Seq<char>> {
        self.profiles_seq().to_set()
    }

    /// The entries, as a map from (profile, host) to address.
    pub open spec fn entry_map(&self) -> Map<KeyView, Seq<char>> {
        rows_map(self.rows_seq())
    }

    /// The (host, address) pairs of one profile, in row order.
    pub open spec fn entries_of(&self, p: Seq<char>) -> Seq<(Seq<char>, Seq<char>)> {
        entries_of_rows(self.rows_seq(), p)
    }

    /// Well-formedness: names and rows are strictly sorted, hence unique.
    pub open spec fn wf(&self) -> bool {
        &&& names_sorted(self.profiles_seq())
        &&& rows_sorted(self.rows_seq())
    }

    /// A fresh store: no profiles, no entries, the pointer at `"default"`.
    pub fn new() -> (db: Database)
        ensures
            db.wf(),
            db.profiles_seq() == Seq::<Seq<char>>::empty(),
            db.profile_set() == Set::<Seq<char>>::empty(),
            db.rows_seq() == Seq::<RowView>::empty(),
            db.entry_map() == Map::<KeyView, Seq<char>>::empty(),
            db.active() == "default"@,
    {
        let db = Database {
            profiles: Vec::new(),
            rows: Vec::new(),
            active_name: String::from_str("default"),
        };
        proof {
            assert(db.profiles_seq() =~= Seq::<Seq<char>>::empty());
            assert(db.rows_seq() =~= Seq::<RowView>::empty());
            assert(db.profile_set() =~= Set::<Seq<char>>::empty());
            assert(db.entry_map() =~= Map::<KeyView, Seq<char>>::empty());
        }
        db
    }

    /// Overwrites the active-profile pointer; no existence check.
    pub fn use_profile(&mut self, name: &str)
        ensures
            final(self).active() == name@,
            final(self).profiles_seq() == old(self).profiles_seq(),
            final(self).rows_seq() == old(self).rows_seq(),
    {
        self.active_name = String::from_str(name);
    }

    /// Reads the active-profile pointer; it always holds a value.
    pub fn get_active_profile(&self) -> (r: Option<String>)
        ensures
            r matches Some(s) && s@ == self.active(),
    {
        Some(self.active_name.clone())
    }

    /// All profile names, lexicographically sorted.
    pub fn list_profiles(&self) -> (r: Vec<String>)
        requires
            self.wf(),
        ensures
            names_view(r@) == self.profiles_seq(),
            names_sorted(names_view(r@)),
            names_view(r@).to_set() == self.profile_set(),
    {
        let mut out: Vec<String> = Vec::new();
        let n = self.profiles.len();
        let mut i: usize = 0;
        while i < n
            invariant
                i <= n,
                n == self.profiles@.len(),
                out@.len() == i,
                forall|j: int| 0 <= j < i ==> (#[trigger] out@[j])@ == self.profiles_seq()[j],
            decreases n - i,
        {
            let name = self.profiles[i].clone();
            out.push(name);
            i = i + 1;
        }
        proof {
            assert(names_view(out@) =~= self.profiles_seq());
        }
        out
    }

    /// Every stored row as (profile, host, address), in storage order;
    /// mutation commands never check profile existence, so rows may stand
    /// under names that no listing shows.
    pub fn all_entries(&self) -> (r: Vec<(String, String, String)>)
        ensures
            rows_view(r@) == self.rows_seq(),
    {
        let mut out: Vec<(String, String, String)> = Vec::new();
        let n = self.rows.len();
        let mut i: usize = 0;
        while i < n
            invariant
                i <= n,
                n == self.rows@.len(),
                out@.len() == i,
                forall|j: int| 0 <= j < i ==> (#[trigger] out@[j]).0@ == self.rows_seq()[j].0
                    && out@[j].1@ == self.rows_seq()[j].1 && out@[j].2@ == self.rows_seq()[j].2,
            decreases n - i,
        {
            let row = &self.rows[i];
            proof {
                assert(self.rows_seq()[i as int] == (row.profile@, row.host@, row.address@));
            }
            out.push((row.profile.clone(), row.host.clone(), row.address.clone()));
            i = i + 1;
        }
        proof {
            assert(rows_view(out@) =~= self.rows_seq());
        }
        out
    }

    /// The (host, address) pairs of one profile, sorted by host.
    pub fn get_entries(&self, profile: &str) -> (r: Vec<(String, String)>)
        requires
            self.wf(),
        ensures
            pairs_view(r@) == self.entries_of(profile@),
            forall|i: int, j: int|
                #![trigger r@[i], r@[j]]
                0 <= i < j < r@.len() ==> lex_lt(r@[i].0@, r@[j].0@),
    {
        let mut out: Vec<(String, String)> = Vec::new();
        let n = self.rows.len();
        let mut i: usize = 0;
        let ghost mut seen: Seq<(Seq<char>, Seq<char>)> = Seq::empty();
        proof {
            assert(self.rows_seq().take(0) =~= Seq::<RowView>::empty());
        }
        while i < n
            invariant
                i <= n,
                n == self.rows@.len(),
                seen == entries_of_rows(self.rows_seq().take(i as int), profile@),
                out@.len() == seen.len(),
                forall|j: int| 0 <= j < out@.len() ==> (#[trigger] out@[j]).0@ == seen[j].0
                    && out@[j].1@ == seen[j].1,
            decreases n - i,
        {
            let row = &self.rows[i];
            proof {
                assert(self.rows_seq().take(i + 1).drop_last() =~= self.rows_seq().take(i as int));
                assert(self.rows_seq().take(i + 1).last() == self.rows_seq()[i as int]);
            }
            if str_eq_ord(row.profile.as_str(), profile) {
                out.push((row.host.clone(), row.address.clone()));
                proof {
                    seen = seen.push((self.rows_seq()[i as int].1, self.rows_seq()[i as int].2));
                }
            }
            i = i + 1;
        }
        proof {
            assert(self.rows_seq().take(n as int) =~= self.rows_seq());
            assert(pairs_view(out@) =~= seen);
            lemma_entries_of_rows_sorted(self.rows_seq(), profile@);
            assert forall|a: int, b: int|
                #![trigger out@[a], out@[b]]
                0 <= a < b < out@.len() implies lex_lt(out@[a].0@, out@[b].0@) by {
                assert(pairs_view(out@)[a] == (out@[a].0@, out@[a].1@));
                assert(pairs_view(out@)[b] == (out@[b].0@, out@[b].1@));
                assert(lex_lt(self.entries_of(profile@)[a].0, self.entries_of(profile@)[b].0));
            }
        }
        out
    }
}

/// Finds the slot of a name in a sorted listing: the index of the first
/// name not below it, and whether that name is present there.
fn find_name_slot(v: &Vec<String>, name: &str) -> (r: (usize, bool))
    requires
        forall|i: int, j: int|
            #![trigger v@[i], v@[j]]
            0 <= i < j < v@.len() ==> lex_lt(v@[i]@, v@[j]@),
    ensures
        r.0 <= v@.len(),
        forall|j: int| 0 <= j < r.0 ==> lex_lt((#[trigger] v@[j])@, name@),
        r.1 ==> r.0 < v@.len() && v@[r.0 as int]@ == name@,
        !r.1 ==> forall|j: int| 0 <= j < v@.len() ==> (#[trigger] v@[j])@ != name@,
        !r.1 && r.0 < v@.len() ==> lex_lt(name@, v@[r.0 as int]@),
{
    let n = v.len();
    let mut i: usize = 0;
    let mut halted = false;
    while i < n && !halted
        invariant
            i <= n,
            n == v@.len(),
            forall|j: int| 0 <= j < i ==> lex_lt((#[trigger] v@[j])@, name@),
            halted ==> i < n && !lex_lt(v@[i as int]@, name@),
        decreases n - i + (if halted { 0int } else { 1int }),
    {
        if str_lt(v[i].as_str(), name) {
            i = i + 1;
        } else {
            halted = true;
        }
    }
    let found = if i < n { str_eq_ord(v[i].as_str(), name) } else { false };
    proof {
        if !found {
            assert forall|j: int| 0 <= j < v@.len() implies (#[trigger] v@[j])@ != name@ by {
                if v@[j]@ == name@ {
                    if j < i {
                        lemma_lex_lt_irreflexive(name@);
                    } else {
                        lemma_lex_lt_connected(name@, v@[i as int]@);
                        if j > i {
                            assert(lex_lt(v@[i as int]@, v@[j]@));
                            lemma_lex_lt_transitive(name@, v@[i as int]@, v@[j]@);
                        }
                        lemma_lex_lt_irreflexive(name@);
                    }
                }
            }
            if i < n {
                lemma_lex_lt_connected(name@, v@[i as int]@);
            }
        }
    }
    (i, found)
}

/// Finds the slot of an entry key in the sorted rows: the index of the first
/// row whose key is not below it, and whether that key is present there.
fn find_row_slot(v: &Vec<Row>, p: &str, h: &str) -> (r: (usize, bool))
    requires
        forall|i: int, j: int|
            #![trigger v@[i], v@[j]]
            0 <= i < j < v@.len() ==> key_lt(
                (v@[i].profile@, v@[i].host@),
                (v@[j].profile@, v@[j].host@),
            ),
    ensures
        r.0 <= v@.len(),
        forall|j: int| 0 <= j < r.0 ==> key_lt(
            ((#[trigger] v@[j]).profile@, v@[j].host@),
            (p@, h@),
        ),
        r.1 ==> r.0 < v@.len() && v@[r.0 as int].profile@ == p@ && v@[r.0 as int].host@ == h@,
        !r.1 ==> forall|j: int| 0 <= j < v@.len() ==> ((#[trigger] v@[j]).profile@, v@[j].host@)
            != (p@, h@),
        !r.1 && r.0 < v@.len() ==> key_lt((p@, h@), (v@[r.0 as int].profile@, v@[r.0 as int].host@)),
{
    let n = v.len();
    let mut i: usize = 0;
    let mut halted = false;
    while i < n && !halted
        invariant
            i <= n,
            n == v@.len(),
            forall|j: int| 0 <= j < i ==> key_lt(
                ((#[trigger] v@[j]).profile@, v@[j].host@),
                (p@, h@),
            ),
            halted ==> i < n && !key_lt((v@[i as int].profile@, v@[i as int].host@), (p@, h@)),
        decreases n - i + (if halted { 0int } else { 1int }),
    {
        let row = &v[i];
        if key_lt_exec(&row.profile, &row.host, p, h) {
            i = i + 1;
        } else {
            halted = true;
        }
    }
    let found = if i < n {
        let row = &v[i];
        str_eq_ord(row.profile.as_str(), p) && str_eq_ord(row.host.as_str(), h)
    } else {
        false
    };
    proof {
        let k = (p@, h@);
        if !found {
            if i < n {
                assert((v@[i as int].profile@, v@[i as int].host@) != k);
                lemma_key_lt_connected(k, (v@[i as int].profile@, v@[i as int].host@));
            }
            assert forall|j: int| 0 <= j < v@.len() implies ((#[trigger] v@[j]).profile@,
                v@[j].host@) != k by {
                if (v@[j].profile@, v@[j].host@) == k {
                    if j < i {
                        lemma_key_lt_irreflexive(k);
                    } else {
                        if j > i {
                            assert(key_lt(
                                (v@[i as int].profile@, v@[i as int].host@),
                                (v@[j].profile@, v@[j].host@),
                            ));
                            lemma_key_lt_transitive(
                                k,
                                (v@[i as int].profile@, v@[i as int].host@),
                                (v@[j].profile@, v@[j].host@),
                            );
                        }
                        lemma_key_lt_irreflexive(k);
                    }
                }
            }
        }
    }
    (i, found)
}

impl Database {
    proof fn lemma_profiles_pointwise(&self)
        requires
            names_sorted(self.profiles_seq()),
        ensures
            forall|i: int, j: int|
                #![trigger self.profiles@[i], self.profiles@[j]]
                0 <= i < j < self.profiles@.len() ==> lex_lt(
                    self.profiles@[i]@,
                    self.profiles@[j]@,
                ),
    {
        assert forall|i: int, j: int|
            #![trigger self.profiles@[i], self.profiles@[j]]
            0 <= i < j < self.profiles@.len() implies lex_lt(
            self.profiles@[i]@,
            self.profiles@[j]@,
        ) by {
            assert(self.profiles_seq()[i] == self.profiles@[i]@);
            assert(self.profiles_seq()[j] == self.profiles@[j]@);
            assert(lex_lt(self.profiles_seq()[i], self.profiles_seq()[j]));
        }
    }

    proof fn lemma_rows_pointwise(&self)
        requires
            rows_sorted(self.rows_seq()),
        ensures
            forall|i: int, j: int|
                #![trigger self.rows@[i], self.rows@[j]]
                0 <= i < j < self.rows@.len() ==> key_lt(
                    (self.rows@[i].profile@, self.rows@[i].host@),
                    (self.rows@[j].profile@, self.rows@[j].host@),
                ),
    {
        assert forall|i: int, j: int|
            #![trigger self.rows@[i], self.rows@[j]]
            0 <= i < j < self.rows@.len() implies key_lt(
            (self.rows@[i].profile@, self.rows@[i].host@),
            (self.rows@[j].profile@, self.rows@[j].host@),
        ) by {
            assert(self.rows_seq()[i] == (self.rows@[i].profile@, self.rows@[i].host@, self.rows@[i].address@));
            assert(self.rows_seq()[j] == (self.rows@[j].profile@, self.rows@[j].host@, self.rows@[j].address@));
            assert(key_lt(row_key(self.rows_seq()[i]), row_key(self.rows_seq()[j])));
        }
    }

    /// Reports whether a profile name is registered.
    pub fn has_profile(&self, name: &str) -> (r: bool)
        requires
            self.wf(),
        ensures
            r == self.profile_set().contains(name@),
    {
        proof {
            self.lemma_profiles_pointwise();
        }
        let (pos, found) = find_name_slot(&self.profiles, name);
        proof {
            if found {
                assert(self.profiles_seq()[pos as int] == name@);
                assert(self.profiles_seq().contains(name@));
            } else {
                if self.profiles_seq().contains(name@) {
                    let j = choose|j: int| 0 <= j < self.profiles_seq().len()
                        && self.profiles_seq()[j] == name@;
                    assert(self.profiles@[j]@ == name@);
                }
            }
        }
        found
    }

    /// Registers a profile name; registering an existing name changes nothing.
    pub fn add_profile(&mut self, name: &str)
        requires
            old(self).wf(),
        ensures
            final(self).wf(),
            final(self).profile_set() == old(self).profile_set().insert(name@),
            final(self).rows_seq() == old(self).rows_seq(),
            final(self).active() == old(self).active(),
    {
        proof {
            self.lemma_profiles_pointwise();
        }
        let (pos, found) = find_name_slot(&self.profiles, name);
        if !found {
            let ghost oldnames = self.profiles_seq();
            let fresh = String::from_str(name);
            self.profiles.insert(pos, fresh);
            proof {
                oldnames.insert_ensures(pos as int, name@);
                assert forall|j: int| 0 <= j < self.profiles@.len() implies self.profiles_seq()[j]
                    == oldnames.insert(pos as int, name@)[j] by {
                    old(self).profiles@.insert_ensures(pos as int, fresh);
                    assert(self.profiles_seq()[j] == self.profiles@[j]@);
                }
                assert(self.profiles_seq() =~= oldnames.insert(pos as int, name@));
                assert forall|j: int| 0 <= j < pos implies lex_lt(#[trigger] oldnames[j], name@) by {
                    assert(oldnames[j] == old(self).profiles@[j]@);
                }
                if pos < oldnames.len() {
                    assert(oldnames[pos as int] == old(self).profiles@[pos as int]@);
                }
                lemma_names_sorted_insert(oldnames, pos as int, name@);
                assert forall|x: Seq<char>| #[trigger] self.profiles_seq().contains(x)
                    <==> (oldnames.contains(x) || x == name@) by {
                    if self.profiles_seq().contains(x) {
                        let j = choose|j: int| 0 <= j < self.profiles_seq().len()
                            && self.profiles_seq()[j] == x;
                        if j < pos {
                            assert(oldnames[j] == x);
                        } else if j > pos {
                            assert(oldnames[j - 1] == x);
                        }
                    }
                    if oldnames.contains(x) {
                        let j = choose|j: int| 0 <= j < oldnames.len() && oldnames[j] == x;
                        if j < pos {
                            assert(self.profiles_seq()[j] == x);
                        } else {
                            assert(self.profiles_seq()[j + 1] == x);
                        }
                    }
                    if x == name@ {
                        assert(self.profiles_seq()[pos as int] == x);
                    }
                }
                assert(self.profile_set() =~= old(self).profile_set().insert(name@));
                assert(self.rows_seq() =~= old(self).rows_seq());
            }
        } else {
            proof {
                assert(self.profiles_seq()[pos as int] == name@);
                assert(self.profiles_seq().contains(name@));
                assert(self.profile_set() =~= self.profile_set().insert(name@));
            }
        }
    }

    /// Unregisters a profile and deletes all its entries; reports whether the
    /// profile was registered. Entries under other names are untouched.
    pub fn remove_profile(&mut self, name: &str) -> (r: bool)
        requires
            old(self).wf(),
        ensures
            final(self).wf(),
            r == old(self).profile_set().contains(name@),
            final(self).profile_set() == old(self).profile_set().remove(name@),
            final(self).active() == old(self).active(),
            r ==> final(self).entry_map() == old(self).entry_map().remove_keys(
                profile_keys(name@),
            ),
            r ==> final(self).entries_of(name@) == Seq::<(Seq<char>, Seq<char>)>::empty(),
            !r ==> *final(self) == *old(self),
    {
        proof {
            self.lemma_profiles_pointwise();
        }
        let (pos, found) = find_name_slot(&self.profiles, name);
        if found {
            let ghost oldnames = self.profiles_seq();
            let ghost oldrows = self.rows_seq();
            proof {
                assert(oldnames[pos as int] == name@);
                assert(oldnames.contains(name@));
                assert(old(self).profile_set().contains(name@));
            }
            self.profiles.remove(pos);
            proof {
                oldnames.remove_ensures(pos as int);
                old(self).profiles@.remove_ensures(pos as int);
                assert forall|j: int| 0 <= j < self.profiles@.len() implies self.profiles_seq()[j]
                    == oldnames.remove(pos as int)[j] by {
                    assert(self.profiles_seq()[j] == self.profiles@[j]@);
                }
                assert(self.profiles_seq() =~= oldnames.remove(pos as int));
                lemma_names_sorted_remove(oldnames, pos as int);
                assert forall|j: int| 0 <= j < oldnames.len() && j != pos implies #[trigger]
                    oldnames[j] != name@ by {
                    lemma_lex_lt_irreflexive(name@);
                }
                assert forall|x: Seq<char>| #[trigger] self.profiles_seq().contains(x)
                    <==> (oldnames.contains(x) && x != name@) by {
                    if self.profiles_seq().contains(x) {
                        let j = choose|j: int| 0 <= j < self.profiles_seq().len()
                            && self.profiles_seq()[j] == x;
                        if j < pos {
                            assert(oldnames[j] == x);
                        } else {
                            assert(oldnames[j + 1] == x);
                        }
                    }
                    if oldnames.contains(x) && x != name@ {
                        let j = choose|j: int| 0 <= j < oldnames.len() && oldnames[j] == x;
                        if j < pos {
                            assert(self.profiles_seq()[j] == x);
                        } else if j > pos {
                            assert(self.profiles_seq()[j - 1] == x);
                        }
                    }
                }
                assert(self.profile_set() =~= old(self).profile_set().remove(name@));
            }
            let ghost profsnap = self.profiles@;
            let mut kept: Vec<Row> = Vec::new();
            let ghost mut keptv: Seq<RowView> = Seq::empty();
            let n = self.rows.len();
            let mut i: usize = 0;
            proof {
                assert(oldrows.take(0) =~= Seq::<RowView>::empty());
            }
            while i < n
                invariant
                    i <= n,
                    n == self.rows@.len(),
                    self.rows@ == old(self).rows@,
                    self.profiles@ == profsnap,
                    self.active_name == old(self).active_name,
                    keptv == drop_profile(oldrows.take(i as int), name@),
                    kept@.len() == keptv.len(),
                    forall|j: int| 0 <= j < kept@.len() ==> (#[trigger] kept@[j]).profile@
                        == keptv[j].0 && kept@[j].host@ == keptv[j].1 && kept@[j].address@
                        == keptv[j].2,
                    oldrows == self.rows_seq(),
                decreases n - i,
            {
                let row = &self.rows[i];
                proof {
                    assert(oldrows.take(i + 1).drop_last() =~= oldrows.take(i as int));
                    assert(oldrows.take(i + 1).last() == oldrows[i as int]);
                    assert(oldrows[i as int] == (row.profile@, row.host@, row.address@));
                }
                if !str_eq_ord(row.profile.as_str(), name) {
                    kept.push(
                        Row {
                            profile: row.profile.clone(),
                            host: row.host.clone(),
                            address: row.address.clone(),
                        },
                    );
                    proof {
                        keptv = keptv.push(oldrows[i as int]);
                    }
                }
                i = i + 1;
            }
            proof {
                assert(oldrows.take(n as int) =~= oldrows);
            }
            self.rows = kept;
            proof {
                assert forall|j: int| 0 <= j < self.rows@.len() implies self.rows_seq()[j]
                    == keptv[j] by {
                    assert(self.rows_seq()[j] == (self.rows@[j].profile@, self.rows@[j].host@,
                        self.rows@[j].address@));
                }
                assert(self.rows_seq() =~= drop_profile(oldrows, name@));
                lemma_drop_profile_map(oldrows, name@);
                assert(self.entry_map() =~= old(self).entry_map().remove_keys(
                    profile_keys(name@),
                ));
            }
            true
        } else {
            proof {
                assert(!old(self).profile_set().contains(name@)) by {
                    if old(self).profile_set().contains(name@) {
                        assert(old(self).profiles_seq().contains(name@));
                        let j = choose|j: int| 0 <= j < old(self).profiles_seq().len()
                            && old(self).profiles_seq()[j] == name@;
                        assert(old(self).profiles@[j]@ == name@);
                    }
                }
                assert(self.profile_set() =~= self.profile_set().remove(name@));
            }
            false
        }
    }
}

impl Database {
    /// Inserts or replaces the (profile, host) row with the given address;
    /// the profile need not be registered.
    pub fn add_entry(&mut self, profile: &str, host: &str, address: &str)
        requires
            old(self).wf(),
        ensures
            final(self).wf(),
            final(self).entry_map() == old(self).entry_map().insert((profile@, host@), address@),
            final(self).profiles_seq() == old(self).profiles_seq(),
            final(self).active() == old(self).active(),
    {
        proof {
            self.lemma_rows_pointwise();
            lemma_sorted_rows_unique(self.rows_seq());
        }
        let ghost oldrows = self.rows_seq();
        let ghost k = (profile@, host@);
        let (pos, found) = find_row_slot(&self.rows, profile, host);
        proof {
            assert forall|j: int| 0 <= j < pos implies key_lt(
                row_key(#[trigger] oldrows[j]),
                k,
            ) by {
                assert(oldrows[j] == (self.rows@[j].profile@, self.rows@[j].host@,
                    self.rows@[j].address@));
            }
        }
        if found {
            let prev = self.rows.remove(pos);
            let ghost midvec = self.rows@;
            let ghost mid = self.rows_seq();
            proof {
                assert(oldrows[pos as int] == (old(self).rows@[pos as int].profile@,
                    old(self).rows@[pos as int].host@, old(self).rows@[pos as int].address@));
                assert(same_key(oldrows[pos as int], k));
                old(self).rows@.remove_ensures(pos as int);
                oldrows.remove_ensures(pos as int);
                assert forall|j: int| 0 <= j < mid.len() implies mid[j] == oldrows.remove(
                    pos as int,
                )[j] by {
                    assert(mid[j] == (midvec[j].profile@, midvec[j].host@, midvec[j].address@));
                    assert(midvec[j] == old(self).rows@.remove(pos as int)[j]);
                }
                assert(mid =~= oldrows.remove(pos as int));
            }
            let fresh = Row {
                profile: prev.profile,
                host: prev.host,
                address: String::from_str(address),
            };
            self.rows.insert(pos, fresh);
            proof {
                lemma_rows_sorted_remove(oldrows, pos as int);
                lemma_rows_map_remove(oldrows, pos as int);
                lemma_rows_addr_at(oldrows, k, pos as int);
                // the removed seq has no row with this key
                assert(!rows_has_key(mid, k)) by {
                    if rows_has_key(mid, k) {
                        let j = choose|j: int| 0 <= j < mid.len() && same_key(
                            #[trigger] mid[j],
                            k,
                        );
                        let j0: int = if j < pos { j } else { j + 1 };
                        assert(same_key(oldrows[j0], k));
                        if j0 < pos {
                            assert(!same_key(oldrows[j0], row_key(oldrows[pos as int])));
                        } else {
                            assert(!same_key(oldrows[pos as int], row_key(oldrows[j0])));
                        }
                        assert(false);
                    }
                }
                assert forall|j: int| 0 <= j < pos implies key_lt(
                    row_key(#[trigger] mid[j]),
                    k,
                ) by {
                    assert(mid[j] == oldrows[j]);
                }
                if pos < mid.len() {
                    assert(mid[pos as int] == oldrows[pos + 1]);
                    assert(key_lt(row_key(oldrows[pos as int]), row_key(oldrows[pos + 1])));
                    assert(row_key(oldrows[pos as int]) == k);
                }
                let rv = (fresh.profile@, fresh.host@, fresh.address@);
                assert(rv == (profile@, host@, address@));
                lemma_rows_sorted_insert(mid, pos as int, rv);
                lemma_rows_map_insert(mid, pos as int, rv);
                mid.insert_ensures(pos as int, rv);
                assert forall|j: int| 0 <= j < self.rows@.len() implies self.rows_seq()[j]
                    == mid.insert(pos as int, rv)[j] by {
                    assert(self.rows_seq()[j] == (self.rows@[j].profile@, self.rows@[j].host@,
                        self.rows@[j].address@));
                }
                assert(self.rows_seq() =~= mid.insert(pos as int, rv));
                assert(self.entry_map() =~= old(self).entry_map().insert(k, address@));
                assert(self.profiles_seq() =~= old(self).profiles_seq());
            }
        } else {
            let fresh = Row {
                profile: String::from_str(profile),
                host: String::from_str(host),
                address: String::from_str(address),
            };
            self.rows.insert(pos, fresh);
            proof {
                let rv = (profile@, host@, address@);
                assert(!rows_has_key(oldrows, k)) by {
                    if rows_has_key(oldrows, k) {
                        let j = choose|j: int| 0 <= j < oldrows.len() && same_key(
                            #[trigger] oldrows[j],
                            k,
                        );
                        assert((old(self).rows@[j].profile@, old(self).rows@[j].host@) == k);
                    }
                }
                if pos < oldrows.len() {
                    assert(oldrows[pos as int] == (old(self).rows@[pos as int].profile@,
                        old(self).rows@[pos as int].host@,
                        old(self).rows@[pos as int].address@));
                }
                lemma_rows_sorted_insert(oldrows, pos as int, rv);
                lemma_rows_map_insert(oldrows, pos as int, rv);
                oldrows.insert_ensures(pos as int, rv);
                old(self).rows@.insert_ensures(pos as int, fresh);
                assert forall|j: int| 0 <= j < self.rows@.len() implies self.rows_seq()[j]
                    == oldrows.insert(pos as int, rv)[j] by {
                    assert(self.rows_seq()[j] == (self.rows@[j].profile@, self.rows@[j].host@,
                        self.rows@[j].address@));
                }
                assert(self.rows_seq() =~= oldrows.insert(pos as int, rv));
                assert(self.entry_map() =~= old(self).entry_map().insert(k, address@));
                assert(self.profiles_seq() =~= old(self).profiles_seq());
            }
        }
    }

    /// Deletes the (profile, host) row if present; reports whether it existed.
    pub fn remove_entry(&mut self, profile: &str, host: &str) -> (r: bool)
        requires
            old(self).wf(),
        ensures
            final(self).wf(),
            r == old(self).entry_map().contains_key((profile@, host@)),
            final(self).entry_map() == old(self).entry_map().remove((profile@, host@)),
            final(self).profiles_seq() == old(self).profiles_seq(),
            final(self).active() == old(self).active(),
            !r ==> *final(self) == *old(self),
    {
        proof {
            self.lemma_rows_pointwise();
            lemma_sorted_rows_unique(self.rows_seq());
        }
        let ghost oldrows = self.rows_seq();
        let ghost k = (profile@, host@);
        let (pos, found) = find_row_slot(&self.rows, profile, host);
        if found {
            proof {
                assert(oldrows[pos as int] == (self.rows@[pos as int].profile@,
                    self.rows@[pos as int].host@, self.rows@[pos as int].address@));
                assert(same_key(oldrows[pos as int], k));
                assert(rows_has_key(oldrows, k));
            }
            self.rows.remove(pos);
            proof {
                old(self).rows@.remove_ensures(pos as int);
                oldrows.remove_ensures(pos as int);
                assert forall|j: int| 0 <= j < self.rows@.len() implies self.rows_seq()[j]
                    == oldrows.remove(pos as int)[j] by {
                    assert(self.rows_seq()[j] == (self.rows@[j].profile@, self.rows@[j].host@,
                        self.rows@[j].address@));
                }
                assert(self.rows_seq() =~= oldrows.remove(pos as int));
                lemma_rows_sorted_remove(oldrows, pos as int);
                lemma_rows_map_remove(oldrows, pos as int);
                assert(row_key(oldrows[pos as int]) == k);
                assert(self.profiles_seq() =~= old(self).profiles_seq());
            }
            true
        } else {
            proof {
                assert(!rows_has_key(oldrows, k)) by {
                    if rows_has_key(oldrows, k) {
                        let j = choose|j: int| 0 <= j < oldrows.len() && same_key(
                            #[trigger] oldrows[j],
                            k,
                        );
                        assert((old(self).rows@[j].profile@, old(self).rows@[j].host@) == k);
                    }
                }
                assert(self.entry_map() =~= self.entry_map().remove(k));
            }
            false
        }
    }

    /// Rewrites the address of an existing (profile, host) row; never creates
    /// a row. Reports whether the row existed.
    pub fn update_entry(&mut self, profile: &str, host: &str, address: &str) -> (r: bool)
        requires
            old(self).wf(),
        ensures
            final(self).wf(),
            r == old(self).entry_map().contains_key((profile@, host@)),
            r ==> final(self).entry_map() == old(self).entry_map().insert(
                (profile@, host@),
                address@,
            ),
            !r ==> *final(self) == *old(self),
            final(self).profiles_seq() == old(self).profiles_seq(),
            final(self).active() == old(self).active(),
    {
        proof {
            self.lemma_rows_pointwise();
            lemma_sorted_rows_unique(self.rows_seq());
        }
        let ghost oldrows = self.rows_seq();
        let ghost k = (profile@, host@);
        let (pos, found) = find_row_slot(&self.rows, profile, host);
        if found {
            proof {
                assert(oldrows[pos as int] == (self.rows@[pos as int].profile@,
                    self.rows@[pos as int].host@, self.rows@[pos as int].address@));
                assert(same_key(oldrows[pos as int], k));
                assert(rows_has_key(oldrows, k));
            }
            self.add_entry(profile, host, address);
            true
        } else {
            proof {
                assert(!rows_has_key(oldrows, k)) by {
                    if rows_has_key(oldrows, k) {
                        let j = choose|j: int| 0 <= j < oldrows.len() && same_key(
                            #[trigger] oldrows[j],
                            k,
                        );
                        assert((old(self).rows@[j].profile@, old(self).rows@[j].host@) == k);
                    }
                }
            }
            false
        }
    }
}

/// Upserting an entry twice for one (profile, host) key leaves exactly one
/// binding for that key, holding the latest address; this is the relation
/// `add_entry` promises of the entry map.
pub proof fn lemma_upsert_latest_wins(
    m: Map<KeyView, Seq<char>>,
    k: KeyView,
    a1: Seq<char>,
    a2: Seq<char>,
)
    ensures
        m.insert(k, a1).insert(k, a2) == m.insert(k, a2),
        m.insert(k, a1).insert(k, a2)[k] == a2,
        m.insert(k, a1).insert(k, a2).dom() == m.dom().insert(k),
{
    assert(m.insert(k, a1).insert(k, a2) =~= m.insert(k, a2));
    assert(m.insert(k, a1).insert(k, a2).dom() =~= m.dom().insert(k));
}

/// On an absent (profile, host) key, an update leaves the entry map as it is
/// (`update_entry` promises exactly `m` back, reporting failure), while an
/// upsert creates the binding: the two are distinguishable.
pub proof fn lemma_update_vs_upsert(m: Map<KeyView, Seq<char>>, k: KeyView, a: Seq<char>)
    requires
        !m.contains_key(k),
    ensures
        m.insert(k, a).contains_key(k),
        m.insert(k, a)[k] == a,
        m.insert(k, a) != m,
{
    assert(m.insert(k, a).contains_key(k));
}

/// Deleting a profile cascades: the entry map `remove_profile` promises has
/// no binding for any host under that profile.
pub proof fn lemma_delete_profile_cascades(m: Map<KeyView, Seq<char>>, p: Seq<char>)
    ensures
        forall|h: Seq<char>|
            !(#[trigger] m.remove_keys(profile_keys(p)).contains_key((p, h))),
{
    assert forall|h: Seq<char>|
        !(#[trigger] m.remove_keys(profile_keys(p)).contains_key((p, h))) by {
        assert(profile_keys(p).contains((p, h)));
    }
}

} // verus!