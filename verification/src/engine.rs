//! The combining engine: remaps every data row of every file into the
//! unified column space and applies the duplicate policy.
//!
//! An output row starts as one placeholder per unified column; the fields of
//! an input row are then placed at the output positions that the file's
//! index map assigns, later fields overwriting earlier ones should two input
//! columns share a name.  Rows are kept in arrival order: file order first,
//! then row order within the file.

use vstd::prelude::*;
use vstd::string::StringExecFns;
use crate::strutil::push_char;
use crate::strutil::clone_string_vec;
use crate::parser::records_from;
use crate::schema::unify_schemas;
use crate::schema::index_map_view;
use crate::schema::index_map_views;
use crate::CsvError;

verus! {

/// An input row placed into the unified column space: `width` placeholders,
/// overwritten position by position with the row's fields at the output
/// columns the index map assigns.  Fields beyond the index map, and indices
/// beyond the width, place nothing.
pub open spec fn remap_row(row: Seq<Seq<char>>, imap: Seq<int>, width: int, ph: Seq<char>) -> Seq<
    Seq<char>,
>
    decreases row.len(),
{
    if row.len() == 0 {
        Seq::new(width as nat, |j: int| ph)
    } else {
        let prev = remap_row(row.drop_last(), imap, width, ph);
        let i = row.len() - 1;
        if i < imap.len() && 0 <= imap[i] < width {
            prev.update(imap[i], row[i])
        } else {
            prev
        }
    }
}

/// Every remapped row has exactly `width` fields, however many fields the
/// input row had.
pub proof fn lemma_remap_row_arity(row: Seq<Seq<char>>, imap: Seq<int>, width: int, ph: Seq<char>)
    requires
        width >= 0,
    ensures
        remap_row(row, imap, width, ph).len() == width,
    decreases row.len(),
{
    if row.len() > 0 {
        lemma_remap_row_arity(row.drop_last(), imap, width, ph);
    }
}

/// An output column that no input position maps to holds exactly the
/// placeholder, and a mapped column holds the last input field placed there.
pub proof fn lemma_remap_row_fields(row: Seq<Seq<char>>, imap: Seq<int>, width: int, ph: Seq<char>, j: int)
    requires
        width >= 0,
        0 <= j < width,
    ensures
        (forall|i: int| 0 <= i < row.len() && i < imap.len() ==> imap[i] != j) ==> remap_row(
            row,
            imap,
            width,
            ph,
        )[j] == ph,
        forall|i: int| 0 <= i < row.len() && i < imap.len() && imap[i] == j && (forall|k: int| i < k
            < row.len() && k < imap.len() ==> imap[k] != j) ==> remap_row(row, imap, width, ph)[j]
            == row[i],
    decreases row.len(),
{
    lemma_remap_row_arity(row, imap, width, ph);
    if row.len() == 0 {
    } else {
        let last = row.len() - 1;
        lemma_remap_row_fields(row.drop_last(), imap, width, ph, j);
        lemma_remap_row_arity(row.drop_last(), imap, width, ph);
        assert forall|i: int| 0 <= i < row.len() && i < imap.len() && imap[i] == j && (forall|k: int|
            i < k < row.len() && k < imap.len() ==> imap[k] != j) implies remap_row(
            row,
            imap,
            width,
            ph,
        )[j] == row[i] by {
            if i < last {
                assert(row.drop_last()[i] == row[i]);
                assert(forall|k: int| i < k < row.len() - 1 && k < imap.len() ==> imap[k] != j);
            }
        }
    }
}

/// The fields of one record joined into one line, with the delimiter between
/// each pair of neighbouring fields.
pub open spec fn joined(fields: Seq<Seq<char>>, delimiter: char) -> Seq<char>
    decreases fields.len(),
{
    if fields.len() == 0 {
        Seq::empty()
    } else if fields.len() == 1 {
        fields[0]
    } else {
        joined(fields.drop_last(), delimiter) + seq![delimiter] + fields.last()
    }
}

/// Join the fields of one record into one output line.
pub fn join_fields(fields: &Vec<String>, delimiter: char) -> (r: String)
    ensures
        r@ == joined(fields.deep_view(), delimiter),
{
    let ghost dv = fields.deep_view();
    let mut r = String::new();
    let mut i: usize = 0;
    proof {
        assert(dv.take(0) =~= Seq::<Seq<char>>::empty());
    }
    while i < fields.len()
        invariant
            0 <= i <= fields@.len(),
            dv == fields.deep_view(),
            r@ == joined(dv.take(i as int), delimiter),
        decreases fields@.len() - i,
    {
        let ghost before = r@;
        if i > 0 {
            push_char(&mut r, delimiter);
        }
        r.append(fields[i].as_str());
        proof {
            let t = dv.take(i + 1);
            assert(t.drop_last() =~= dv.take(i as int));
            assert(t.last() == dv[i as int]);
            if i == 0 {
                assert(r@ =~= dv[0]);
            } else {
                assert(r@ =~= joined(dv.take(i as int), delimiter) + seq![delimiter] + dv[i as int]);
            }
        }
        i = i + 1;
    }
    proof {
        assert(dv.take(dv.len() as int) =~= dv);
    }
    r
}

/// Place one input row into the unified column space: `width` copies of the
/// placeholder, then each input field at the output position the index map
/// gives it.
pub fn place_row(row: &Vec<String>, imap: &Vec<usize>, width: usize, placeholder: &str) -> (r: Vec<
    String,
>)
    ensures
        r.deep_view() == remap_row(
            row.deep_view(),
            crate::schema::index_map_view(imap@),
            width as int,
            placeholder@,
        ),
        r@.len() == width,
{
    let ghost row_dv = row.deep_view();
    let ghost imap_ints = crate::schema::index_map_view(imap@);
    let mut out: Vec<String> = Vec::new();
    let mut j: usize = 0;
    while j < width
        invariant
            0 <= j <= width,
            out@.len() == j,
            forall|k: int| 0 <= k < j ==> out.deep_view()[k] == placeholder@,
        decreases width - j,
    {
        let ghost before = out.deep_view();
        out.push(String::from_str(placeholder));
        proof {
            assert(out.deep_view() =~= before.push(placeholder@));
        }
        j = j + 1;
    }
    proof {
        assert(out.deep_view() =~= remap_row(row_dv.take(0), imap_ints, width as int, placeholder@));
    }
    let mut i: usize = 0;
    while i < row.len()
        invariant
            0 <= i <= row@.len(),
            row_dv == row.deep_view(),
            imap_ints == crate::schema::index_map_view(imap@),
            out@.len() == width,
            out.deep_view() == remap_row(row_dv.take(i as int), imap_ints, width as int, placeholder@),
        decreases row@.len() - i,
    {
        let ghost before = out.deep_view();
        if i < imap.len() {
            let target = imap[i];
            if target < width {
                out[target] = row[i].clone();
                proof {
                    assert(out.deep_view() =~= before.update(target as int, row_dv[i as int]));
                }
            }
        }
        proof {
            let t = row_dv.take(i + 1);
            assert(t.drop_last() =~= row_dv.take(i as int));
            assert(t.last() == row_dv[i as int]);
        }
        i = i + 1;
    }
    proof {
        assert(row_dv.take(row_dv.len() as int) =~= row_dv);
    }
    out
}

/// Remove-duplicates policy, first occurrence wins: a row is kept exactly
/// when no earlier row (in any file) shares its key tuple, the first `klen`
/// fields.
pub open spec fn dedup_rows(rows: Seq<Seq<Seq<char>>>, klen: int) -> Seq<Seq<Seq<char>>>
    decreases rows.len(),
{
    if rows.len() == 0 {
        rows
    } else {
        let prev = dedup_rows(rows.drop_last(), klen);
        let last = rows.last();
        if exists|j: int| 0 <= j < rows.len() - 1 && rows[j].take(klen) == last.take(klen) {
            prev
        } else {
            prev.push(last)
        }
    }
}

/// The first position holding `key`, if any.
pub open spec fn find_key(keys: Seq<Seq<Seq<char>>>, key: Seq<Seq<char>>) -> Option<int>
    decreases keys.len(),
{
    if keys.len() == 0 {
        None
    } else if keys[0] == key {
        Some(0int)
    } else {
        match find_key(keys.drop_first(), key) {
            Some(j) => Some(j + 1),
            None => None,
        }
    }
}

/// [`find_key`] yields the first position holding `key`, and nothing when no
/// position holds it.
pub proof fn lemma_find_key(keys: Seq<Seq<Seq<char>>>, key: Seq<Seq<char>>)
    ensures
        find_key(keys, key) is None <==> (forall|s: int| 0 <= s < keys.len() ==> keys[s] != key),
        find_key(keys, key) matches Some(j) ==> 0 <= j < keys.len() && keys[j] == key && (forall|
            s: int,
        | 0 <= s < j ==> keys[s] != key),
    decreases keys.len(),
{
    if keys.len() > 0 && keys[0] != key {
        lemma_find_key(keys.drop_first(), key);
        assert forall|s: int| 0 <= s < keys.len() && keys[s] == key implies !(find_key(keys, key)
            is None) by {
            if s > 0 {
                assert(keys.drop_first()[s - 1] == key);
            }
        }
        match find_key(keys, key) {
            Some(j) => {
                assert(keys.drop_first()[j - 1] == key);
                assert forall|s: int| 0 <= s < j implies keys[s] != key by {
                    if s > 0 {
                        assert(keys.drop_first()[s - 1] == keys[s]);
                    }
                }
            },
            None => {},
        }
    }
}

/// Merge-duplicates policy on one buffered value row: a buffered value that
/// still equals the placeholder takes the new row's value at that column,
/// one that does not keeps what it has.  First non-placeholder value wins.
pub open spec fn merge_values(
    old_vals: Seq<Seq<char>>,
    new_vals: Seq<Seq<char>>,
    ph: Seq<char>,
) -> Seq<Seq<char>> {
    Seq::new(
        old_vals.len(),
        |i: int|
            if old_vals[i] == ph && i < new_vals.len() {
                new_vals[i]
            } else {
                old_vals[i]
            },
    )
}

/// One row folded into the merge buffer: a new key is appended with its
/// value fields, a known key merges the new values into its buffered row.
pub open spec fn merge_step(
    mkeys: Seq<Seq<Seq<char>>>,
    mvals: Seq<Seq<Seq<char>>>,
    row: Seq<Seq<char>>,
    klen: int,
    ph: Seq<char>,
) -> (Seq<Seq<Seq<char>>>, Seq<Seq<Seq<char>>>) {
    let key = row.take(klen);
    let vals = row.skip(klen);
    match find_key(mkeys, key) {
        Some(j) => (mkeys, mvals.update(j, merge_values(mvals[j], vals, ph))),
        None => (mkeys.push(key), mvals.push(vals)),
    }
}

/// All rows folded into the merge buffer, in arrival order, starting from a
/// given buffer state.
pub open spec fn merge_rows_from(
    mkeys: Seq<Seq<Seq<char>>>,
    mvals: Seq<Seq<Seq<char>>>,
    rows: Seq<Seq<Seq<char>>>,
    klen: int,
    ph: Seq<char>,
) -> (Seq<Seq<Seq<char>>>, Seq<Seq<Seq<char>>>)
    decreases rows.len(),
{
    if rows.len() == 0 {
        (mkeys, mvals)
    } else {
        let s = merge_step(mkeys, mvals, rows[0], klen, ph);
        merge_rows_from(s.0, s.1, rows.drop_first(), klen, ph)
    }
}

/// The merge buffer after all rows: distinct key tuples in first-seen order,
/// each with its merged value fields.
pub open spec fn merge_rows(rows: Seq<Seq<Seq<char>>>, klen: int, ph: Seq<char>) -> (
    Seq<Seq<Seq<char>>>,
    Seq<Seq<Seq<char>>>,
) {
    merge_rows_from(Seq::empty(), Seq::empty(), rows, klen, ph)
}

/// Whether two rows hold the same fields.
fn rows_equal(a: &Vec<String>, b: &Vec<String>) -> (r: bool)
    ensures
        r == (a.deep_view() == b.deep_view()),
{
    proof {
        assert(a.deep_view().len() == a@.len());
        assert(b.deep_view().len() == b@.len());
    }
    if a.len() != b.len() {
        return false;
    }
    let mut i: usize = 0;
    while i < a.len()
        invariant
            0 <= i <= a@.len() == b@.len(),
            forall|k: int| 0 <= k < i ==> a.deep_view()[k] == b.deep_view()[k],
        decreases a@.len() - i,
    {
        if !a[i].eq(&b[i]) {
            proof {
                assert(a.deep_view()[i as int] != b.deep_view()[i as int]);
            }
            return false;
        }
        i = i + 1;
    }
    proof {
        assert(a.deep_view() =~= b.deep_view());
    }
    true
}

/// A copy of the fields of `row` at positions `from` up to `to`.
fn copy_range(row: &Vec<String>, from: usize, to: usize) -> (r: Vec<String>)
    requires
        from <= to <= row@.len(),
    ensures
        r.deep_view() == row.deep_view().subrange(from as int, to as int),
{
    let mut r: Vec<String> = Vec::new();
    let mut i: usize = from;
    proof {
        assert(r.deep_view() =~= row.deep_view().subrange(from as int, from as int));
    }
    while i < to
        invariant
            from <= i <= to <= row@.len(),
            r.deep_view() == row.deep_view().subrange(from as int, i as int),
        decreases to - i,
    {
        let ghost before = r.deep_view();
        r.push(row[i].clone());
        proof {
            assert(r.deep_view() =~= before.push(row.deep_view()[i as int]));
            assert(before.push(row.deep_view()[i as int]) =~= row.deep_view().subrange(
                from as int,
                i + 1,
            ));
        }
        i = i + 1;
    }
    r
}

/// The first position of `key` among the rows of `keys`, if any.
fn find_row(keys: &Vec<Vec<String>>, key: &Vec<String>) -> (r: Option<usize>)
    ensures
        match r {
            Some(j) => find_key(keys.deep_view(), key.deep_view()) == Some(j as int),
            None => find_key(keys.deep_view(), key.deep_view()) is None,
        },
{
    let ghost dv = keys.deep_view();
    let mut i: usize = 0;
    while i < keys.len()
        invariant
            0 <= i <= keys@.len(),
            dv == keys.deep_view(),
            forall|s: int| 0 <= s < i ==> dv[s] != key.deep_view(),
        decreases keys@.len() - i,
    {
        if rows_equal(&keys[i], key) {
            proof {
                assert(dv[i as int] == key.deep_view());
                lemma_find_key(dv, key.deep_view());
                match find_key(dv, key.deep_view()) {
                    Some(j) => {
                        if j < i {
                            assert(dv[j] != key.deep_view());
                        }
                        if j > i {
                            assert(dv[i as int] != key.deep_view());
                        }
                    },
                    None => {
                        assert(dv[i as int] != key.deep_view());
                    },
                }
            }
            return Some(i);
        }
        i = i + 1;
    }
    proof {
        lemma_find_key(dv, key.deep_view());
    }
    None
}

/// A key tuple occurs among `rows` exactly when it occurs among the rows
/// that the remove-duplicates policy keeps.
proof fn lemma_dedup_rows_has_key(rows: Seq<Seq<Seq<char>>>, klen: int, key: Seq<Seq<char>>)
    ensures
        (exists|j: int| 0 <= j < rows.len() && (#[trigger] rows[j]).take(klen) == key) <==> (exists|
            m: int,
        | 0 <= m < dedup_rows(rows, klen).len() && (#[trigger] dedup_rows(rows, klen)[m]).take(klen)
            == key),
    decreases rows.len(),
{
    if rows.len() == 0 {
    } else {
        let prev = dedup_rows(rows.drop_last(), klen);
        let last = rows.last();
        lemma_dedup_rows_has_key(rows.drop_last(), klen, key);
        assert forall|j: int| 0 <= j < rows.len() - 1 implies rows.drop_last()[j] == rows[j] by {}
        if exists|j: int| 0 <= j < rows.len() - 1 && rows[j].take(klen) == last.take(klen) {
            assert(dedup_rows(rows, klen) == prev);
            if exists|j: int| 0 <= j < rows.len() && (#[trigger] rows[j]).take(klen) == key {
                let j = choose|j: int| 0 <= j < rows.len() && (#[trigger] rows[j]).take(klen)
                    == key;
                if j == rows.len() - 1 {
                    let j2 = choose|j2: int| 0 <= j2 < rows.len() - 1 && rows[j2].take(klen)
                        == last.take(klen);
                    assert((#[trigger] rows.drop_last()[j2]).take(klen) == key);
                } else {
                    assert((#[trigger] rows.drop_last()[j]).take(klen) == key);
                }
            }
            if exists|m: int| 0 <= m < prev.len() && (#[trigger] prev[m]).take(klen) == key {
                let m = choose|m: int| 0 <= m < prev.len() && (#[trigger] prev[m]).take(klen)
                    == key;
                let j = choose|j: int| 0 <= j < rows.drop_last().len() && (#[trigger] rows.drop_last()[
                    j
                ]).take(klen) == key;
                assert((#[trigger] rows[j]).take(klen) == key);
            }
        } else {
            assert(dedup_rows(rows, klen) == prev.push(last));
            if exists|j: int| 0 <= j < rows.len() && (#[trigger] rows[j]).take(klen) == key {
                let j = choose|j: int| 0 <= j < rows.len() && (#[trigger] rows[j]).take(klen)
                    == key;
                if j == rows.len() - 1 {
                    assert((#[trigger] dedup_rows(rows, klen)[prev.len() as int]).take(klen)
                        == key);
                } else {
                    assert((#[trigger] rows.drop_last()[j]).take(klen) == key);
                    let m = choose|m: int| 0 <= m < prev.len() && (#[trigger] prev[m]).take(klen)
                        == key;
                    assert((#[trigger] dedup_rows(rows, klen)[m]).take(klen) == key);
                }
            }
            if exists|m: int| 0 <= m < dedup_rows(rows, klen).len() && (#[trigger] dedup_rows(
                rows,
                klen,
            )[m]).take(klen) == key {
                let m = choose|m: int| 0 <= m < dedup_rows(rows, klen).len() && (#[trigger] dedup_rows(
                    rows,
                    klen,
                )[m]).take(klen) == key;
                if m == prev.len() {
                    assert((#[trigger] rows[rows.len() - 1]).take(klen) == key);
                } else {
                    assert((#[trigger] prev[m]).take(klen) == key);
                    let j = choose|j: int| 0 <= j < rows.drop_last().len() && (#[trigger] rows.drop_last()[
                        j
                    ]).take(klen) == key;
                    assert((#[trigger] rows[j]).take(klen) == key);
                }
            }
        }
    }
}

/// Whether the first `klen` fields of `row` hold the same strings as `key`.
fn prefix_matches(row: &Vec<String>, key: &Vec<String>, klen: usize) -> (r: bool)
    requires
        klen <= row@.len(),
        key@.len() == klen,
    ensures
        r == (row.deep_view().take(klen as int) == key.deep_view()),
{
    let mut i: usize = 0;
    while i < klen
        invariant
            0 <= i <= klen <= row@.len(),
            key@.len() == klen,
            forall|k: int| 0 <= k < i ==> row.deep_view()[k] == key.deep_view()[k],
        decreases klen - i,
    {
        if !row[i].eq(&key[i]) {
            proof {
                assert(row.deep_view().take(klen as int)[i as int] != key.deep_view()[i as int]);
            }
            return false;
        }
        i = i + 1;
    }
    proof {
        assert(row.deep_view().take(klen as int) =~= key.deep_view());
    }
    true
}

/// Whether any row of `out` starts with the key tuple `key`.
fn contains_key_row(out: &Vec<Vec<String>>, key: &Vec<String>, klen: usize) -> (r: bool)
    requires
        forall|m: int| 0 <= m < out.deep_view().len() ==> klen
            <= (#[trigger] out.deep_view()[m]).len(),
        key@.len() == klen,
    ensures
        r == exists|m: int| 0 <= m < out.deep_view().len() && (#[trigger] out.deep_view()[m]).take(
            klen as int,
        ) == key.deep_view(),
{
    let ghost dv = out.deep_view();
    let mut m: usize = 0;
    while m < out.len()
        invariant
            0 <= m <= out@.len(),
            dv == out.deep_view(),
            key@.len() == klen,
            forall|k: int| 0 <= k < dv.len() ==> klen <= (#[trigger] dv[k]).len(),
            forall|k: int| 0 <= k < m ==> (#[trigger] dv[k]).take(klen as int) != key.deep_view(),
        decreases out@.len() - m,
    {
        proof {
            assert(klen <= dv[m as int].len());
            assert(dv[m as int].len() == out@[m as int]@.len());
        }
        if prefix_matches(&out[m], key, klen) {
            proof {
                assert((#[trigger] dv[m as int]).take(klen as int) == key.deep_view());
            }
            return true;
        }
        m = m + 1;
    }
    false
}

/// Apply the remove-duplicates policy: keep each row whose key tuple has not
/// been seen before, in arrival order; drop every later row with a key tuple
/// already seen.
#[verifier::rlimit(30)]
pub fn remove_duplicate_rows(rows: &Vec<Vec<String>>, key_len: usize) -> (r: Vec<Vec<String>>)
    requires
        forall|t: int| 0 <= t < rows.deep_view().len() ==> key_len
            <= (#[trigger] rows.deep_view()[t]).len(),
    ensures
        r.deep_view() == dedup_rows(rows.deep_view(), key_len as int),
{
    let ghost dv = rows.deep_view();
    let ghost klen = key_len as int;
    let mut out: Vec<Vec<String>> = Vec::new();
    let mut t: usize = 0;
    proof {
        assert(dv.take(0) =~= Seq::<Seq<Seq<char>>>::empty());
    }
    while t < rows.len()
        invariant
            0 <= t <= rows@.len(),
            dv == rows.deep_view(),
            klen == key_len as int,
            forall|k: int| 0 <= k < dv.len() ==> key_len <= (#[trigger] dv[k]).len(),
            out.deep_view() == dedup_rows(dv.take(t as int), klen),
            forall|m: int| 0 <= m < out.deep_view().len() ==> key_len
                <= (#[trigger] out.deep_view()[m]).len(),
        decreases rows@.len() - t,
    {
        proof {
            assert(key_len <= dv[t as int].len());
            assert(dv[t as int].len() == rows@[t as int]@.len());
        }
        let key = copy_range(&rows[t], 0, key_len);
        proof {
            assert(key.deep_view() =~= dv[t as int].take(klen));
            assert(key.deep_view().len() == klen);
            assert(key@.len() == key.deep_view().len());
        }
        let found = contains_key_row(&out, &key, key_len);
        let ghost out_before = out.deep_view();
        proof {
            lemma_dedup_rows_has_key(dv.take(t as int), klen, key.deep_view());
            assert(dv.take(t + 1).drop_last() =~= dv.take(t as int));
            assert(dv.take(t + 1).last() == dv[t as int]);
        }
        if found {
            proof {
                let m = choose|m: int| 0 <= m < out_before.len() && (#[trigger] out_before[m]).take(
                    klen,
                ) == key.deep_view();
                let j = choose|j: int| 0 <= j < dv.take(t as int).len() && (#[trigger] dv.take(
                    t as int,
                )[j]).take(klen) == key.deep_view();
                assert((#[trigger] dv.take(t + 1)[j]).take(klen) == dv.take(t + 1).last().take(
                    klen,
                ));
                assert(dedup_rows(dv.take(t + 1), klen) == dedup_rows(dv.take(t as int), klen));
            }
        } else {
            proof {
                if exists|j: int| 0 <= j < dv.take(t + 1).len() - 1 && (#[trigger] dv.take(t + 1)[
                    j
                ]).take(klen) == dv.take(t + 1).last().take(klen) {
                    let j = choose|j: int| 0 <= j < dv.take(t + 1).len() - 1 && (#[trigger] dv.take(
                        t + 1,
                    )[j]).take(klen) == dv.take(t + 1).last().take(klen);
                    assert((#[trigger] dv.take(t as int)[j]).take(klen) == key.deep_view());
                    assert(false);
                }
                assert(dedup_rows(dv.take(t + 1), klen) == dedup_rows(dv.take(t as int), klen).push(
                    dv[t as int],
                ));
            }
            let kept = crate::strutil::clone_string_vec(&rows[t]);
            out.push(kept);
            proof {
                assert(out.deep_view() =~= out_before.push(dv[t as int]));
            }
        }
        t = t + 1;
    }
    proof {
        assert(dv.take(dv.len() as int) =~= dv);
    }
    out
}

/// One buffered value row merged with the value fields of a newly arrived
/// row sharing its key.
fn merge_value_row(existing: &Vec<String>, new_vals: &Vec<String>, placeholder: &String) -> (r: Vec<
    String,
>)
    ensures
        r.deep_view() == merge_values(existing.deep_view(), new_vals.deep_view(), placeholder@),
{
    let ghost target = merge_values(existing.deep_view(), new_vals.deep_view(), placeholder@);
    let mut r: Vec<String> = Vec::new();
    let mut i: usize = 0;
    while i < existing.len()
        invariant
            0 <= i <= existing@.len(),
            target == merge_values(existing.deep_view(), new_vals.deep_view(), placeholder@),
            r.deep_view() == target.take(i as int),
        decreases existing@.len() - i,
    {
        let ghost before = r.deep_view();
        if existing[i].eq(placeholder) && i < new_vals.len() {
            r.push(new_vals[i].clone());
            proof {
                assert(r.deep_view() =~= before.push(new_vals.deep_view()[i as int]));
            }
        } else {
            r.push(existing[i].clone());
            proof {
                assert(r.deep_view() =~= before.push(existing.deep_view()[i as int]));
            }
        }
        proof {
            assert(target[i as int] == r.deep_view()[i as int]);
            assert(r.deep_view() =~= target.take(i + 1));
        }
        i = i + 1;
    }
    proof {
        assert(target.take(target.len() as int) =~= target);
    }
    r
}

/// Apply the merge-duplicates policy: fold every row into a buffer keyed by
/// key tuple, first-seen order, first non-placeholder value per column wins.
/// Returns the buffered key tuples and their merged value rows.
pub fn merge_duplicate_rows(rows: &Vec<Vec<String>>, key_len: usize, placeholder: &str) -> (r: (
    Vec<Vec<String>>,
    Vec<Vec<String>>,
))
    requires
        forall|t: int| 0 <= t < rows.deep_view().len() ==> key_len
            <= (#[trigger] rows.deep_view()[t]).len(),
    ensures
        r.0.deep_view() == merge_rows(rows.deep_view(), key_len as int, placeholder@).0,
        r.1.deep_view() == merge_rows(rows.deep_view(), key_len as int, placeholder@).1,
{
    let ghost dv = rows.deep_view();
    let ghost target = merge_rows(dv, key_len as int, placeholder@);
    let ph = placeholder.to_owned();
    let mut mkeys: Vec<Vec<String>> = Vec::new();
    let mut mvals: Vec<Vec<String>> = Vec::new();
    let mut t: usize = 0;
    proof {
        assert(mkeys.deep_view() =~= Seq::<Seq<Seq<char>>>::empty());
        assert(mvals.deep_view() =~= Seq::<Seq<Seq<char>>>::empty());
        assert(dv.skip(0) =~= dv);
    }
    while t < rows.len()
        invariant
            0 <= t <= rows@.len(),
            dv == rows.deep_view(),
            ph@ == placeholder@,
            forall|k: int| 0 <= k < dv.len() ==> key_len <= (#[trigger] dv[k]).len(),
            mkeys@.len() == mvals@.len(),
            target == merge_rows_from(
                mkeys.deep_view(),
                mvals.deep_view(),
                dv.skip(t as int),
                key_len as int,
                placeholder@,
            ),
        decreases rows@.len() - t,
    {
        proof {
            assert(dv.skip(t as int)[0] == dv[t as int]);
            assert(dv.skip(t as int).drop_first() =~= dv.skip(t + 1));
        }
        let row = &rows[t];
        proof {
            assert(key_len <= dv[t as int].len());
            assert(dv[t as int].len() == rows@[t as int]@.len());
        }
        let key = copy_range(row, 0, key_len);
        let vals = copy_range(row, key_len, row.len());
        proof {
            assert(key.deep_view() == dv[t as int].take(key_len as int));
            assert(vals.deep_view() =~= dv[t as int].skip(key_len as int));
        }
        let ghost keys_before = mkeys.deep_view();
        let ghost vals_before = mvals.deep_view();
        match find_row(&mkeys, &key) {
            Some(j) => {
                proof {
                    lemma_find_key(keys_before, key.deep_view());
                }
                let merged = merge_value_row(&mvals[j], &vals, &ph);
                mvals[j] = merged;
                proof {
                    assert(mvals.deep_view() =~= vals_before.update(
                        j as int,
                        merge_values(
                            vals_before[j as int],
                            dv[t as int].skip(key_len as int),
                            placeholder@,
                        ),
                    ));
                }
            },
            None => {
                mkeys.push(key);
                mvals.push(vals);
                proof {
                    assert(mkeys.deep_view() =~= keys_before.push(dv[t as int].take(key_len as int)));
                    assert(mvals.deep_view() =~= vals_before.push(dv[t as int].skip(key_len as int)));
                }
            },
        }
        t = t + 1;
    }
    proof {
        assert(dv.skip(dv.len() as int) =~= Seq::<Seq<Seq<char>>>::empty());
    }
    (mkeys, mvals)
}

/// Whether one source parses completely into at least one record (its
/// header).
pub open spec fn file_parses(lines: Seq<Seq<char>>, delimiter: char, eol: Seq<char>) -> bool {
    match records_from(lines, 0, delimiter, eol) {
        Some(r) => r.len() >= 1,
        None => false,
    }
}

/// The records of every file, for files that all parse completely.
pub open spec fn parsed_records(files: Seq<Seq<Seq<char>>>, delimiter: char, eol: Seq<char>) -> Seq<
    Seq<Seq<Seq<char>>>,
> {
    Seq::new(files.len(), |f: int| records_from(files[f], 0, delimiter, eol).unwrap())
}

/// The data rows of one file placed into the unified column space: every
/// record after the header, remapped by the file's index map.
pub open spec fn file_data_rows(
    records: Seq<Seq<Seq<char>>>,
    imap: Seq<int>,
    width: int,
    ph: Seq<char>,
) -> Seq<Seq<Seq<char>>> {
    if records.len() == 0 {
        Seq::empty()
    } else {
        Seq::new((records.len() - 1) as nat, |k: int| remap_row(records[k + 1], imap, width, ph))
    }
}

/// The data rows of all files in arrival order: file order first, then row
/// order within each file.
pub open spec fn all_data_rows(
    recs: Seq<Seq<Seq<Seq<char>>>>,
    imaps: Seq<Seq<int>>,
    width: int,
    ph: Seq<char>,
) -> Seq<Seq<Seq<char>>>
    decreases recs.len(),
{
    if recs.len() == 0 {
        Seq::empty()
    } else {
        file_data_rows(recs[0], imaps[0], width, ph) + all_data_rows(
            recs.drop_first(),
            imaps.drop_first(),
            width,
            ph,
        )
    }
}

/// One buffered merge row serialized: the key tuple, then, if any value
/// fields exist, the delimiter and the value fields.
pub open spec fn merge_line(key: Seq<Seq<char>>, vals: Seq<Seq<char>>, delimiter: char) -> Seq<
    char,
> {
    if vals.len() == 0 {
        joined(key, delimiter)
    } else {
        joined(key, delimiter) + seq![delimiter] + joined(vals, delimiter)
    }
}

/// What a whole combining run returns: the serialized output records (the
/// unified header first), or the error the configuration or the input
/// forces.
pub open spec fn combine_spec(
    files: Seq<Seq<Seq<char>>>,
    keys: Option<Seq<Seq<char>>>,
    delimiter: char,
    ph: Seq<char>,
    remove_duplicates: bool,
    merge_duplicates: bool,
    eol: Seq<char>,
) -> Result<Seq<Seq<char>>, CsvError> {
    if files.len() == 0 {
        Err(CsvError::ConfigurationError)
    } else if exists|f: int| 0 <= f < files.len() && !(#[trigger] file_parses(
        files[f],
        delimiter,
        eol,
    )) {
        Err(CsvError::UnexpectedEndOfInput)
    } else {
        let recs = parsed_records(files, delimiter, eol);
        let key_columns = match keys {
            Some(k) => k,
            None => recs[0][0],
        };
        let headers = Seq::new(recs.len(), |f: int| recs[f][0]);
        let schema = unify_schemas(key_columns, headers);
        let width = schema.0.len() as int;
        let klen = key_columns.len() as int;
        let rows0 = all_data_rows(recs, schema.1, width, ph);
        let rows1 = if remove_duplicates {
            dedup_rows(rows0, klen)
        } else {
            rows0
        };
        let header_line = joined(schema.0, delimiter);
        if merge_duplicates {
            let buf = merge_rows(rows1, klen, ph);
            Ok(
                seq![header_line] + Seq::new(
                    buf.0.len(),
                    |m: int| merge_line(buf.0[m], buf.1[m], delimiter),
                ),
            )
        } else {
            Ok(seq![header_line] + Seq::new(rows1.len(), |m: int| joined(rows1[m], delimiter)))
        }
    }
}

/// The remove-duplicates policy keeps the arity of the rows it keeps.
pub proof fn lemma_dedup_rows_arity(rows: Seq<Seq<Seq<char>>>, klen: int, width: int)
    requires
        forall|j: int| 0 <= j < rows.len() ==> (#[trigger] rows[j]).len() == width,
    ensures
        forall|m: int| 0 <= m < dedup_rows(rows, klen).len() ==> (#[trigger] dedup_rows(rows, klen)[
            m
        ]).len() == width,
    decreases rows.len(),
{
    if rows.len() > 0 {
        assert forall|j: int| 0 <= j < rows.drop_last().len() implies (#[trigger] rows.drop_last()[
            j
        ]).len() == width by {
            assert(rows.drop_last()[j] == rows[j]);
        }
        lemma_dedup_rows_arity(rows.drop_last(), klen, width);
        let prev = dedup_rows(rows.drop_last(), klen);
        assert(rows[rows.len() - 1].len() == width);
        assert forall|m: int| 0 <= m < dedup_rows(rows, klen).len() implies (#[trigger] dedup_rows(
            rows,
            klen,
        )[m]).len() == width by {
            if exists|j: int| 0 <= j < rows.len() - 1 && rows[j].take(klen) == rows.last().take(
                klen,
            ) {
                assert(dedup_rows(rows, klen)[m] == prev[m]);
            } else {
                if m < prev.len() {
                    assert(dedup_rows(rows, klen)[m] == prev[m]);
                } else {
                    assert(dedup_rows(rows, klen)[m] == rows.last());
                }
            }
        }
    }
}

/// The merge buffer holds as many value rows as key tuples.
pub proof fn lemma_merge_rows_from_lens(
    mkeys: Seq<Seq<Seq<char>>>,
    mvals: Seq<Seq<Seq<char>>>,
    rows: Seq<Seq<Seq<char>>>,
    klen: int,
    ph: Seq<char>,
)
    requires
        mkeys.len() == mvals.len(),
    ensures
        merge_rows_from(mkeys, mvals, rows, klen, ph).0.len() == merge_rows_from(
            mkeys,
            mvals,
            rows,
            klen,
            ph,
        ).1.len(),
    decreases rows.len(),
{
    if rows.len() > 0 {
        let s = merge_step(mkeys, mvals, rows[0], klen, ph);
        match find_key(mkeys, rows[0].take(klen)) {
            Some(j) => {
                lemma_find_key(mkeys, rows[0].take(klen));
                assert(s.0 == mkeys);
                assert(s.1.len() == mvals.len());
            },
            None => {
                assert(s.0.len() == mkeys.len() + 1);
                assert(s.1.len() == mvals.len() + 1);
            },
        }
        lemma_merge_rows_from_lens(s.0, s.1, rows.drop_first(), klen, ph);
    }
}

/// One buffered merge row serialized into one output line.
fn merge_line_fields(key: &Vec<String>, vals: &Vec<String>, delimiter: char) -> (r: String)
    ensures
        r@ == merge_line(key.deep_view(), vals.deep_view(), delimiter),
{
    let mut line = join_fields(key, delimiter);
    if vals.len() > 0 {
        push_char(&mut line, delimiter);
        let tail = join_fields(vals, delimiter);
        line.append(tail.as_str());
        proof {
            assert(line@ =~= joined(key.deep_view(), delimiter) + seq![delimiter] + joined(
                vals.deep_view(),
                delimiter,
            ));
        }
    }
    line
}

/// Parse every file completely into its records.  Fails when any file ends
/// while a quoted field is still open or before its header.
#[verifier::loop_isolation(false)]
fn parse_all_files(files: &Vec<Vec<String>>, delimiter: char, line_ending: &str) -> (r: Result<
    Vec<Vec<Vec<String>>>,
    CsvError,
>)
    ensures
        ({
            match r {
                Ok(recs) => {
                    &&& forall|g: int| 0 <= g < files.deep_view().len()
                        ==> #[trigger] file_parses(files.deep_view()[g], delimiter, line_ending@)
                    &&& recs.deep_view() == parsed_records(
                        files.deep_view(),
                        delimiter,
                        line_ending@,
                    )
                    &&& recs@.len() == files@.len()
                    &&& forall|g: int| 0 <= g < recs.deep_view().len()
                        ==> (#[trigger] recs.deep_view()[g]).len() >= 1
                },
                Err(e) => e == CsvError::UnexpectedEndOfInput && (exists|g: int| 0 <= g
                    < files.deep_view().len() && !(#[trigger] file_parses(
                    files.deep_view()[g],
                    delimiter,
                    line_ending@,
                ))),
            }
        }),
{
    let ghost files_dv = files.deep_view();
    let ghost eol = line_ending@;
    let mut records_all: Vec<Vec<Vec<String>>> = Vec::new();
    let mut f: usize = 0;
    while f < files.len()
        invariant
            0 <= f <= files@.len(),
            records_all@.len() == f,
            forall|g: int| 0 <= g < f ==> #[trigger] file_parses(files_dv[g], delimiter, eol),
            forall|g: int| 0 <= g < f ==> (#[trigger] records_all.deep_view()[g]) == records_from(
                files_dv[g],
                0,
                delimiter,
                eol,
            ).unwrap(),
            forall|g: int| 0 <= g < f ==> (#[trigger] records_all.deep_view()[g]).len() >= 1,
        decreases files@.len() - f,
    {
        proof {
            assert(files@[f as int].deep_view() == files_dv[f as int]);
        }
        let parsed = crate::parser::parse_records(&files[f], delimiter, line_ending);
        match parsed {
            Err(e) => {
                proof {
                    assert(!file_parses(files_dv[f as int], delimiter, eol));
                    assert(exists|g: int| 0 <= g < files_dv.len() && !(#[trigger] file_parses(
                        files_dv[g],
                        delimiter,
                        eol,
                    )));
                }
                return Err(e);
            },
            Ok(recs) => {
                if recs.is_empty() {
                    proof {
                        assert(recs.deep_view().len() == 0);
                        assert(!file_parses(files_dv[f as int], delimiter, eol));
                        assert(exists|g: int| 0 <= g < files_dv.len() && !(#[trigger] file_parses(
                            files_dv[g],
                            delimiter,
                            eol,
                        )));
                    }
                    return Err(CsvError::UnexpectedEndOfInput);
                }
                let ghost before = records_all.deep_view();
                let ghost recs_view = recs.deep_view();
                proof {
                    assert(recs_view.len() == recs@.len());
                    assert(recs_view == records_from(files_dv[f as int], 0, delimiter, eol).unwrap());
                }
                records_all.push(recs);
                proof {
                    assert(records_all.deep_view() =~= before.push(recs_view));
                }
            },
        }
        f = f + 1;
    }
    proof {
        assert(records_all.deep_view() =~= parsed_records(files_dv, delimiter, eol));
    }
    Ok(records_all)
}

/// The header record of each file.
#[verifier::loop_isolation(false)]
fn extract_headers(records_all: &Vec<Vec<Vec<String>>>) -> (headers: Vec<Vec<String>>)
    requires
        forall|g: int| 0 <= g < records_all.deep_view().len()
            ==> (#[trigger] records_all.deep_view()[g]).len() >= 1,
    ensures
        headers.deep_view() == Seq::new(
            records_all.deep_view().len(),
            |g: int| records_all.deep_view()[g][0],
        ),
{
    let ghost recs_dv = records_all.deep_view();
    let mut headers: Vec<Vec<String>> = Vec::new();
    let mut f: usize = 0;
    while f < records_all.len()
        invariant
            0 <= f <= records_all@.len(),
            headers@.len() == f,
            forall|g: int| 0 <= g < f ==> (#[trigger] headers.deep_view()[g]) == recs_dv[g][0],
        decreases records_all@.len() - f,
    {
        proof {
            assert(recs_dv[f as int].len() >= 1);
            assert(records_all@[f as int]@.len() == recs_dv[f as int].len());
        }
        let ghost before = headers.deep_view();
        let h = clone_string_vec(&records_all[f][0]);
        proof {
            assert(h.deep_view() == recs_dv[f as int][0]);
        }
        headers.push(h);
        proof {
            assert(headers.deep_view() =~= before.push(recs_dv[f as int][0]));
        }
        f = f + 1;
    }
    proof {
        assert(headers.deep_view() =~= Seq::new(recs_dv.len(), |g: int| recs_dv[g][0]));
    }
    headers
}

/// Every data row of every file, in arrival order, placed into the unified
/// column space.
#[verifier::loop_isolation(false)]
fn build_all_rows(
    records_all: &Vec<Vec<Vec<String>>>,
    imaps: &Vec<Vec<usize>>,
    width: usize,
    placeholder: &str,
) -> (rows: Vec<Vec<String>>)
    requires
        imaps@.len() == records_all.deep_view().len(),
        forall|g: int| 0 <= g < records_all.deep_view().len()
            ==> (#[trigger] records_all.deep_view()[g]).len() >= 1,
    ensures
        rows.deep_view() == all_data_rows(
            records_all.deep_view(),
            index_map_views(imaps@),
            width as int,
            placeholder@,
        ),
        forall|m: int| 0 <= m < rows.deep_view().len() ==> (#[trigger] rows.deep_view()[m]).len()
            == width,
{
    let ghost recs_dv = records_all.deep_view();
    let ghost maps_dv = index_map_views(imaps@);
    let ghost ph = placeholder@;
    let mut rows: Vec<Vec<String>> = Vec::new();
    let mut f: usize = 0;
    proof {
        assert(recs_dv.skip(0) =~= recs_dv);
        assert(maps_dv.skip(0) =~= maps_dv);
        assert(rows.deep_view() =~= Seq::<Seq<Seq<char>>>::empty());
        assert(rows.deep_view() + all_data_rows(recs_dv, maps_dv, width as int, ph)
            =~= all_data_rows(recs_dv, maps_dv, width as int, ph));
    }
    while f < records_all.len()
        invariant
            0 <= f <= records_all@.len(),
            all_data_rows(recs_dv, maps_dv, width as int, ph) == rows.deep_view() + all_data_rows(
                recs_dv.skip(f as int),
                maps_dv.skip(f as int),
                width as int,
                ph,
            ),
            forall|m: int| 0 <= m < rows.deep_view().len() ==> (#[trigger] rows.deep_view()[
                m
            ]).len() == width,
        decreases records_all@.len() - f,
    {
        let ghost base = rows.deep_view();
        let ghost frows = file_data_rows(recs_dv[f as int], maps_dv[f as int], width as int, ph);
        proof {
            assert(recs_dv.skip(f as int)[0] == recs_dv[f as int]);
            assert(maps_dv.skip(f as int)[0] == maps_dv[f as int]);
            assert(recs_dv.skip(f as int).drop_first() =~= recs_dv.skip(f + 1));
            assert(maps_dv.skip(f as int).drop_first() =~= maps_dv.skip(f + 1));
            assert(records_all@[f as int]@.len() == recs_dv[f as int].len());
            assert(frows.take(0) =~= Seq::<Seq<Seq<char>>>::empty());
            assert(base + frows.take(0) =~= base);
        }
        let file_records = &records_all[f];
        let imap = &imaps[f];
        let mut k: usize = 1;
        while k < file_records.len()
            invariant
                1 <= k <= file_records@.len(),
                file_records.deep_view() == recs_dv[f as int],
                0 <= f < recs_dv.len(),
                imap@ == imaps@[f as int]@,
                rows.deep_view() == base + frows.take(k - 1),
                forall|m: int| 0 <= m < rows.deep_view().len() ==> (#[trigger] rows.deep_view()[
                    m
                ]).len() == width,
            decreases file_records@.len() - k,
        {
            let ghost rows_before = rows.deep_view();
            proof {
                assert(index_map_view(imap@) == maps_dv[f as int]);
                assert(recs_dv[f as int][k as int] == file_records.deep_view()[k as int]);
            }
            let placed = place_row(&file_records[k], imap, width, placeholder);
            rows.push(placed);
            proof {
                assert(frows[k - 1] == remap_row(
                    recs_dv[f as int][k as int],
                    maps_dv[f as int],
                    width as int,
                    ph,
                ));
                assert(rows.deep_view() =~= rows_before.push(frows[k - 1]));
                assert(rows_before.push(frows[k - 1]) =~= base + frows.take(k as int));
            }
            k = k + 1;
        }
        proof {
            assert(frows.take(frows.len() as int) =~= frows);
            assert(frows.len() == recs_dv[f as int].len() - 1);
            assert(rows.deep_view() =~= base + frows);
        }
        f = f + 1;
    }
    proof {
        assert(recs_dv.skip(recs_dv.len() as int).len() == 0);
        assert(all_data_rows(
            recs_dv.skip(recs_dv.len() as int),
            maps_dv.skip(recs_dv.len() as int),
            width as int,
            ph,
        ) =~= Seq::<Seq<Seq<char>>>::empty());
        assert(rows.deep_view() =~= all_data_rows(recs_dv, maps_dv, width as int, ph));
    }
    rows
}

/// The serialized output of a pass-through or remove-duplicates run: the
/// header line, then each data row joined by the delimiter.
#[verifier::loop_isolation(false)]
fn serialize_data_rows(header_line: String, rows: &Vec<Vec<String>>, delimiter: char) -> (out: Vec<
    String,
>)
    ensures
        out.deep_view() == seq![header_line@] + Seq::new(
            rows.deep_view().len(),
            |x: int| joined(rows.deep_view()[x], delimiter),
        ),
{
    let ghost rows_dv = rows.deep_view();
    let ghost lines = Seq::new(rows_dv.len(), |x: int| joined(rows_dv[x], delimiter));
    let ghost header_dv = header_line@;
    let mut out: Vec<String> = Vec::new();
    out.push(header_line);
    proof {
        assert(out.deep_view() =~= seq![header_dv]);
        assert(lines.take(0) =~= Seq::<Seq<char>>::empty());
        assert(seq![header_dv] + lines.take(0) =~= seq![header_dv]);
    }
    let mut m: usize = 0;
    while m < rows.len()
        invariant
            0 <= m <= rows@.len(),
            out.deep_view() == seq![header_dv] + lines.take(m as int),
        decreases rows@.len() - m,
    {
        let ghost out_before = out.deep_view();
        let line = join_fields(&rows[m], delimiter);
        out.push(line);
        proof {
            assert(rows@[m as int].deep_view() == rows_dv[m as int]);
            assert(out.deep_view() =~= out_before.push(lines[m as int]));
            assert(out_before.push(lines[m as int]) =~= seq![header_dv] + lines.take(m + 1));
        }
        m = m + 1;
    }
    proof {
        assert(lines.take(lines.len() as int) =~= lines);
    }
    out
}

/// The serialized output of a merge-duplicates run: the header line, then
/// one line per buffered key tuple with its merged value fields.
#[verifier::loop_isolation(false)]
fn serialize_merged_rows(
    header_line: String,
    mkeys: &Vec<Vec<String>>,
    mvals: &Vec<Vec<String>>,
    delimiter: char,
) -> (out: Vec<String>)
    requires
        mkeys@.len() == mvals@.len(),
    ensures
        out.deep_view() == seq![header_line@] + Seq::new(
            mkeys.deep_view().len(),
            |x: int| merge_line(mkeys.deep_view()[x], mvals.deep_view()[x], delimiter),
        ),
{
    let ghost keys_dv = mkeys.deep_view();
    let ghost vals_dv = mvals.deep_view();
    let ghost lines = Seq::new(keys_dv.len(), |x: int| merge_line(keys_dv[x], vals_dv[x], delimiter));
    let ghost header_dv = header_line@;
    let mut out: Vec<String> = Vec::new();
    out.push(header_line);
    proof {
        assert(out.deep_view() =~= seq![header_dv]);
        assert(lines.take(0) =~= Seq::<Seq<char>>::empty());
        assert(seq![header_dv] + lines.take(0) =~= seq![header_dv]);
    }
    let mut m: usize = 0;
    while m < mkeys.len()
        invariant
            0 <= m <= mkeys@.len(),
            out.deep_view() == seq![header_dv] + lines.take(m as int),
        decreases mkeys@.len() - m,
    {
        let ghost out_before = out.deep_view();
        let line = merge_line_fields(&mkeys[m], &mvals[m], delimiter);
        out.push(line);
        proof {
            assert(mkeys@[m as int].deep_view() == keys_dv[m as int]);
            assert(mvals@[m as int].deep_view() == vals_dv[m as int]);
            assert(out.deep_view() =~= out_before.push(lines[m as int]));
            assert(out_before.push(lines[m as int]) =~= seq![header_dv] + lines.take(m + 1));
        }
        m = m + 1;
    }
    proof {
        assert(lines.take(lines.len() as int) =~= lines);
    }
    out
}

/// Combine the given files, each as its sequence of physical lines, into
/// the serialized output records of the run: the unified header first, then
/// the data rows as the duplicate policy leaves them, in arrival order.
/// With no explicit key columns, the first file's header is the key-column
/// list.  Fails when no file is given, or when any file ends while a quoted
/// field is still open or before its header.
#[verifier::rlimit(50)]
pub fn combine_files_by_keys(
    files: &Vec<Vec<String>>,
    key_columns: Option<&Vec<String>>,
    delimiter: char,
    empty_field_value: &str,
    remove_duplicates: bool,
    merge_duplicates: bool,
    line_ending: &str,
) -> (r: Result<Vec<String>, CsvError>)
    ensures
        ({
            let spec_keys = match key_columns {
                Some(k) => Some(k.deep_view()),
                None => None::<Seq<Seq<char>>>,
            };
            let s = combine_spec(
                files.deep_view(),
                spec_keys,
                delimiter,
                empty_field_value@,
                remove_duplicates,
                merge_duplicates,
                line_ending@,
            );
            match r {
                Ok(out) => s matches Ok(v) && out.deep_view() == v,
                Err(e) => s matches Err(e2) && e == e2,
            }
        }),
{
    let ghost files_dv = files.deep_view();
    let ghost spec_keys = match key_columns {
        Some(k) => Some(k.deep_view()),
        None => None::<Seq<Seq<char>>>,
    };
    let ghost eol = line_ending@;
    let ghost ph = empty_field_value@;

    if files.len() == 0 {
        return Err(CsvError::ConfigurationError);
    }

    // Parse every file completely.
    let records_all = match parse_all_files(files, delimiter, line_ending) {
        Err(e) => {
            return Err(e);
        },
        Ok(recs) => recs,
    };
    let ghost recs_dv = parsed_records(files_dv, delimiter, eol);
    proof {
        if exists|g: int| 0 <= g < files_dv.len() && !(#[trigger] file_parses(
            files_dv[g],
            delimiter,
            eol,
        )) {
            let g = choose|g: int| 0 <= g < files_dv.len() && !(#[trigger] file_parses(
                files_dv[g],
                delimiter,
                eol,
            ));
            assert(file_parses(files_dv[g], delimiter, eol));
        }
        assert(records_all.deep_view() == recs_dv);
    }

    // The headers, and the key columns.
    let headers = extract_headers(&records_all);
    let ghost headers_dv = Seq::new(recs_dv.len(), |g: int| recs_dv[g][0]);
    proof {
        assert(headers.deep_view() =~= headers_dv);
    }
    let key_cols: Vec<String> = match key_columns {
        Some(k) => clone_string_vec(k),
        None => {
            proof {
                assert(recs_dv[0].len() >= 1);
                assert(records_all@[0]@.len() == recs_dv[0].len());
            }
            clone_string_vec(&records_all[0][0])
        },
    };
    let ghost keys_dv = key_cols.deep_view();
    proof {
        assert(keys_dv == match spec_keys {
            Some(k) => k,
            None => recs_dv[0][0],
        });
    }

    // The unified header and the per-file index maps.
    let built = crate::schema::build_schema(&key_cols, &headers);
    let unified = built.0;
    let imaps = built.1;
    let ghost schema = unify_schemas(keys_dv, headers_dv);
    proof {
        assert(unified.deep_view() == schema.0);
        assert(index_map_views(imaps@) == schema.1);
        crate::schema::lemma_unify_schemas_appends(keys_dv, headers_dv);
        crate::schema::lemma_unify_schemas_maps(keys_dv, headers_dv);
        assert(schema.1.len() == headers_dv.len());
        assert(index_map_views(imaps@).len() == imaps@.len());
    }
    let width = unified.len();
    let key_len = key_cols.len();
    proof {
        assert(schema.0.len() == unified@.len());
        assert(key_len <= width);
    }

    // Every data row of every file, in arrival order, in the unified
    // column space.
    let rows = build_all_rows(&records_all, &imaps, width, empty_field_value);
    let ghost rows0 = all_data_rows(recs_dv, schema.1, width as int, ph);
    proof {
        assert(rows.deep_view() == rows0);
    }

    // The duplicate policy.
    let rows1: Vec<Vec<String>> = if remove_duplicates {
        remove_duplicate_rows(&rows, key_len)
    } else {
        rows
    };
    let ghost rows1_dv = if remove_duplicates {
        dedup_rows(rows0, key_len as int)
    } else {
        rows0
    };
    proof {
        assert(rows1.deep_view() == rows1_dv);
    }

    // Serialize: the unified header first, then the data rows.
    let header_line = join_fields(&unified, delimiter);
    let ghost header_dv = joined(schema.0, delimiter);
    if merge_duplicates {
        if remove_duplicates {
            proof {
                lemma_dedup_rows_arity(rows0, key_len as int, width as int);
            }
        }
        let buffered = merge_duplicate_rows(&rows1, key_len, empty_field_value);
        let mkeys = buffered.0;
        let mvals = buffered.1;
        let ghost buf = merge_rows(rows1_dv, key_len as int, ph);
        proof {
            lemma_merge_rows_from_lens(Seq::empty(), Seq::empty(), rows1_dv, key_len as int, ph);
            assert(mkeys.deep_view() == buf.0);
            assert(mvals.deep_view() == buf.1);
            assert(mkeys@.len() == buf.0.len());
            assert(mvals@.len() == buf.1.len());
        }
        let out = serialize_merged_rows(header_line, &mkeys, &mvals, delimiter);
        proof {
            assert(out.deep_view() =~= seq![header_dv] + Seq::new(
                buf.0.len(),
                |x: int| merge_line(buf.0[x], buf.1[x], delimiter),
            ));
        }
        Ok(out)
    } else {
        let out = serialize_data_rows(header_line, &rows1, delimiter);
        proof {
            assert(out.deep_view() =~= seq![header_dv] + Seq::new(
                rows1_dv.len(),
                |x: int| joined(rows1_dv[x], delimiter),
            ));
        }
        Ok(out)
    }
}

/// Every row that the combining engine produces, before any duplicate
/// policy, has exactly the unified header's arity.
pub proof fn lemma_all_data_rows_arity(
    recs: Seq<Seq<Seq<Seq<char>>>>,
    imaps: Seq<Seq<int>>,
    width: int,
    ph: Seq<char>,
)
    requires
        width >= 0,
    ensures
        forall|m: int| 0 <= m < all_data_rows(recs, imaps, width, ph).len()
            ==> (#[trigger] all_data_rows(recs, imaps, width, ph)[m]).len() == width,
    decreases recs.len(),
{
    if recs.len() > 0 {
        let first = file_data_rows(recs[0], imaps[0], width, ph);
        let rest = all_data_rows(recs.drop_first(), imaps.drop_first(), width, ph);
        lemma_all_data_rows_arity(recs.drop_first(), imaps.drop_first(), width, ph);
        assert forall|m: int| 0 <= m < all_data_rows(recs, imaps, width, ph).len() implies (
        #[trigger] all_data_rows(recs, imaps, width, ph)[m]).len() == width by {
            if m < first.len() {
                lemma_remap_row_arity(recs[0][m + 1], imaps[0], width, ph);
                assert(all_data_rows(recs, imaps, width, ph)[m] == first[m]);
            } else {
                assert(all_data_rows(recs, imaps, width, ph)[m] == rest[m - first.len()]);
            }
        }
    }
}

/// Remove-duplicates keeps pairwise distinct key tuples: no two kept rows
/// share the first `klen` fields.
pub proof fn lemma_remove_duplicates_distinct_keys(rows: Seq<Seq<Seq<char>>>, klen: int)
    ensures
        forall|m1: int, m2: int| 0 <= m1 < m2 < dedup_rows(rows, klen).len()
            ==> (#[trigger] dedup_rows(rows, klen)[m1]).take(klen) != (#[trigger] dedup_rows(
            rows,
            klen,
        )[m2]).take(klen),
    decreases rows.len(),
{
    if rows.len() > 0 {
        let prev = dedup_rows(rows.drop_last(), klen);
        let d = dedup_rows(rows, klen);
        let last = rows.last();
        lemma_remove_duplicates_distinct_keys(rows.drop_last(), klen);
        if !(exists|j: int| 0 <= j < rows.len() - 1 && rows[j].take(klen) == last.take(klen)) {
            assert(d == prev.push(last));
            assert forall|m1: int, m2: int| 0 <= m1 < m2 < d.len() implies (#[trigger] d[m1]).take(
                klen,
            ) != (#[trigger] d[m2]).take(klen) by {
                if m2 < prev.len() {
                    assert(d[m1] == prev[m1] && d[m2] == prev[m2]);
                } else {
                    assert(d[m2] == last);
                    assert(d[m1] == prev[m1]);
                    lemma_dedup_rows_has_key(rows.drop_last(), klen, prev[m1].take(klen));
                    if prev[m1].take(klen) == last.take(klen) {
                        let j = choose|j: int| 0 <= j < rows.drop_last().len()
                            && (#[trigger] rows.drop_last()[j]).take(klen) == prev[m1].take(klen);
                        assert(rows[j].take(klen) == last.take(klen));
                        assert(false);
                    }
                }
            }
        }
    }
}

/// Remove-duplicates loses no key tuple: the key tuple of any input row
/// stands on some kept row.
pub proof fn lemma_remove_duplicates_complete(rows: Seq<Seq<Seq<char>>>, klen: int, j: int)
    requires
        0 <= j < rows.len(),
    ensures
        exists|m: int| 0 <= m < dedup_rows(rows, klen).len() && (#[trigger] dedup_rows(rows, klen)[
            m
        ]).take(klen) == rows[j].take(klen),
{
    lemma_dedup_rows_has_key(rows, klen, rows[j].take(klen));
}

/// Remove-duplicates is first-wins, across files: each kept row is the
/// earliest input row bearing its key tuple, in arrival order.
pub proof fn lemma_remove_duplicates_first_wins(rows: Seq<Seq<Seq<char>>>, klen: int)
    ensures
        forall|m: int| 0 <= m < dedup_rows(rows, klen).len() ==> exists|j: int| 0 <= j < rows.len()
            && (#[trigger] dedup_rows(rows, klen)[m]) == rows[j] && (forall|j2: int| 0 <= j2 < j
            ==> rows[j2].take(klen) != rows[j].take(klen)),
    decreases rows.len(),
{
    if rows.len() > 0 {
        let prev = dedup_rows(rows.drop_last(), klen);
        let d = dedup_rows(rows, klen);
        let last = rows.last();
        lemma_remove_duplicates_first_wins(rows.drop_last(), klen);
        assert forall|j: int| 0 <= j < rows.len() - 1 implies rows.drop_last()[j] == rows[j] by {}
        if exists|j: int| 0 <= j < rows.len() - 1 && rows[j].take(klen) == last.take(klen) {
            assert(d == prev);
            assert forall|m: int| 0 <= m < d.len() implies exists|j: int| 0 <= j < rows.len()
                && (#[trigger] d[m]) == rows[j] && (forall|j2: int| 0 <= j2 < j ==> rows[j2].take(
                klen,
            ) != rows[j].take(klen)) by {
                let j = choose|j: int| 0 <= j < rows.drop_last().len() && (#[trigger] prev[m])
                    == rows.drop_last()[j] && (forall|j2: int| 0 <= j2 < j
                    ==> rows.drop_last()[j2].take(klen) != rows.drop_last()[j].take(klen));
                assert(d[m] == rows[j]);
                assert(forall|j2: int| 0 <= j2 < j ==> (#[trigger] rows[j2]).take(klen)
                    != rows[j].take(klen));
            }
        } else {
            assert(d == prev.push(last));
            assert forall|m: int| 0 <= m < d.len() implies exists|j: int| 0 <= j < rows.len()
                && (#[trigger] d[m]) == rows[j] && (forall|j2: int| 0 <= j2 < j ==> rows[j2].take(
                klen,
            ) != rows[j].take(klen)) by {
                if m < prev.len() {
                    let j = choose|j: int| 0 <= j < rows.drop_last().len() && (#[trigger] prev[m])
                        == rows.drop_last()[j] && (forall|j2: int| 0 <= j2 < j
                        ==> rows.drop_last()[j2].take(klen) != rows.drop_last()[j].take(klen));
                    assert(d[m] == rows[j]);
                    assert(forall|j2: int| 0 <= j2 < j ==> (#[trigger] rows[j2]).take(klen)
                        != rows[j].take(klen));
                } else {
                    assert(d[m] == rows[rows.len() - 1]);
                    assert(forall|j2: int| 0 <= j2 < rows.len() - 1 ==> (#[trigger] rows[
                        j2
                    ]).take(klen) != rows[rows.len() - 1].take(klen));
                }
            }
        }
    }
}

/// The first value that any row bearing `key` supplies at value column `c`
/// (counted after the key columns) that is not the placeholder; the
/// placeholder if no row does.
pub open spec fn first_filled(
    rows: Seq<Seq<Seq<char>>>,
    key: Seq<Seq<char>>,
    klen: int,
    c: int,
    ph: Seq<char>,
) -> Seq<char>
    decreases rows.len(),
{
    if rows.len() == 0 {
        ph
    } else if rows[0].take(klen) == key && 0 <= c < rows[0].skip(klen).len() && rows[0].skip(klen)[c]
        != ph {
        rows[0].skip(klen)[c]
    } else {
        first_filled(rows.drop_first(), key, klen, c, ph)
    }
}

/// Folding rows of one arity into a faithful merge buffer keeps it faithful:
/// the buffered keys stay distinct and in place, and every buffered value
/// settles to its first non-placeholder supply.
proof fn lemma_merge_from_values(
    mkeys: Seq<Seq<Seq<char>>>,
    mvals: Seq<Seq<Seq<char>>>,
    rows: Seq<Seq<Seq<char>>>,
    klen: int,
    ph: Seq<char>,
    width: int,
)
    requires
        0 <= klen <= width,
        mkeys.len() == mvals.len(),
        forall|m1: int, m2: int| 0 <= m1 < m2 < mkeys.len() ==> mkeys[m1] != mkeys[m2],
        forall|m: int| 0 <= m < mvals.len() ==> (#[trigger] mvals[m]).len() == width - klen,
        forall|j: int| 0 <= j < rows.len() ==> (#[trigger] rows[j]).len() == width,
    ensures
        ({
            let r = merge_rows_from(mkeys, mvals, rows, klen, ph);
            &&& r.0.len() == r.1.len()
            &&& r.0.len() >= mkeys.len()
            &&& r.0.take(mkeys.len() as int) == mkeys
            &&& forall|m: int| 0 <= m < mkeys.len() ==> (#[trigger] r.1[m]) == Seq::new(
                (width - klen) as nat,
                |c: int|
                    if mvals[m][c] == ph {
                        first_filled(rows, mkeys[m], klen, c, ph)
                    } else {
                        mvals[m][c]
                    },
            )
            &&& forall|m: int| mkeys.len() <= m < r.0.len() ==> !mkeys.contains(#[trigger] r.0[m])
                && r.1[m] == Seq::new(
                (width - klen) as nat,
                |c: int| first_filled(rows, r.0[m], klen, c, ph),
            )
            &&& forall|m1: int, m2: int| 0 <= m1 < m2 < r.0.len() ==> r.0[m1] != r.0[m2]
        }),
    decreases rows.len(),
{
    let r = merge_rows_from(mkeys, mvals, rows, klen, ph);
    if rows.len() == 0 {
        assert(r.0.take(mkeys.len() as int) =~= mkeys);
        assert forall|m: int| 0 <= m < mkeys.len() implies (#[trigger] r.1[m]) == Seq::new(
            (width - klen) as nat,
            |c: int|
                if mvals[m][c] == ph {
                    first_filled(rows, mkeys[m], klen, c, ph)
                } else {
                    mvals[m][c]
                },
        ) by {
            assert(r.1[m] == mvals[m]);
            assert(mvals[m] =~= Seq::new(
                (width - klen) as nat,
                |c: int|
                    if mvals[m][c] == ph {
                        first_filled(rows, mkeys[m], klen, c, ph)
                    } else {
                        mvals[m][c]
                    },
            ));
        }
    } else {
        let row0 = rows[0];
        let key0 = row0.take(klen);
        let vals0 = row0.skip(klen);
        let rest = rows.drop_first();
        assert(vals0.len() == width - klen);
        assert forall|j: int| 0 <= j < rest.len() implies (#[trigger] rest[j]).len() == width by {
            assert(rest[j] == rows[j + 1]);
        }
        let s = merge_step(mkeys, mvals, row0, klen, ph);
        lemma_find_key(mkeys, key0);
        match find_key(mkeys, key0) {
            Some(j) => {
                let merged = merge_values(mvals[j], vals0, ph);
                assert(s.0 == mkeys);
                assert(s.1 == mvals.update(j, merged));
                assert(merged.len() == width - klen);
                assert forall|m: int| 0 <= m < s.1.len() implies (#[trigger] s.1[m]).len() == width
                    - klen by {
                    if m != j {
                        assert(s.1[m] == mvals[m]);
                    }
                }
                lemma_merge_from_values(s.0, s.1, rest, klen, ph, width);
                let r2 = merge_rows_from(s.0, s.1, rest, klen, ph);
                assert(r == r2);
                assert forall|m: int| 0 <= m < mkeys.len() implies (#[trigger] r.1[m]) == Seq::new(
                    (width - klen) as nat,
                    |c: int|
                        if mvals[m][c] == ph {
                            first_filled(rows, mkeys[m], klen, c, ph)
                        } else {
                            mvals[m][c]
                        },
                ) by {
                    assert(r.1[m] == Seq::new(
                        (width - klen) as nat,
                        |c: int|
                            if s.1[m][c] == ph {
                                first_filled(rest, mkeys[m], klen, c, ph)
                            } else {
                                s.1[m][c]
                            },
                    ));
                    assert forall|c: int| 0 <= c < width - klen implies (if s.1[m][c] == ph {
                        first_filled(rest, mkeys[m], klen, c, ph)
                    } else {
                        s.1[m][c]
                    }) == (if mvals[m][c] == ph {
                        first_filled(rows, mkeys[m], klen, c, ph)
                    } else {
                        mvals[m][c]
                    }) by {
                        if m != j {
                            assert(s.1[m] == mvals[m]);
                            assert(mkeys[m] != key0);
                            assert(first_filled(rows, mkeys[m], klen, c, ph) == first_filled(
                                rest,
                                mkeys[m],
                                klen,
                                c,
                                ph,
                            ));
                        } else {
                            assert(s.1[j] == merged);
                            assert(merged[c] == if mvals[j][c] == ph && c < vals0.len() {
                                vals0[c]
                            } else {
                                mvals[j][c]
                            });
                            if mvals[j][c] != ph {
                            } else if vals0[c] != ph {
                                assert(first_filled(rows, key0, klen, c, ph) == vals0[c]);
                            } else {
                                assert(first_filled(rows, key0, klen, c, ph) == first_filled(
                                    rest,
                                    key0,
                                    klen,
                                    c,
                                    ph,
                                ));
                            }
                        }
                    }
                    assert(Seq::new(
                        (width - klen) as nat,
                        |c: int|
                            if s.1[m][c] == ph {
                                first_filled(rest, mkeys[m], klen, c, ph)
                            } else {
                                s.1[m][c]
                            },
                    ) =~= Seq::new(
                        (width - klen) as nat,
                        |c: int|
                            if mvals[m][c] == ph {
                                first_filled(rows, mkeys[m], klen, c, ph)
                            } else {
                                mvals[m][c]
                            },
                    ));
                }
                assert forall|m: int| mkeys.len() <= m < r.0.len() implies !mkeys.contains(
                    #[trigger] r.0[m],
                ) && r.1[m] == Seq::new(
                    (width - klen) as nat,
                    |c: int| first_filled(rows, r.0[m], klen, c, ph),
                ) by {
                    assert(r.0[m] != key0) by {
                        if r.0[m] == key0 {
                            assert(mkeys.contains(key0)) by {
                                assert(mkeys[j] == key0);
                            }
                        }
                    }
                    assert forall|c: int| 0 <= c < width - klen implies first_filled(
                        rest,
                        r.0[m],
                        klen,
                        c,
                        ph,
                    ) == first_filled(rows, r.0[m], klen, c, ph) by {}
                    assert(Seq::new(
                        (width - klen) as nat,
                        |c: int| first_filled(rest, r.0[m], klen, c, ph),
                    ) =~= Seq::new(
                        (width - klen) as nat,
                        |c: int| first_filled(rows, r.0[m], klen, c, ph),
                    ));
                }
            },
            None => {
                assert(s.0 == mkeys.push(key0));
                assert(s.1 == mvals.push(vals0));
                assert forall|m1: int, m2: int| 0 <= m1 < m2 < s.0.len() implies s.0[m1] != s.0[
                    m2
                ] by {
                    if m2 == mkeys.len() {
                        assert(s.0[m1] == mkeys[m1]);
                        assert(mkeys[m1] != key0);
                    }
                }
                assert forall|m: int| 0 <= m < s.1.len() implies (#[trigger] s.1[m]).len() == width
                    - klen by {
                    if m < mvals.len() {
                        assert(s.1[m] == mvals[m]);
                    }
                }
                lemma_merge_from_values(s.0, s.1, rest, klen, ph, width);
                let r2 = merge_rows_from(s.0, s.1, rest, klen, ph);
                assert(r == r2);
                assert(r.0.take((mkeys.len() + 1) as int) == mkeys.push(key0));
                assert(r.0.take(mkeys.len() as int) =~= mkeys) by {
                    assert forall|m: int| 0 <= m < mkeys.len() implies r.0.take(
                        mkeys.len() as int,
                    )[m] == mkeys[m] by {
                        assert(r.0[m] == r.0.take((mkeys.len() + 1) as int)[m]);
                        assert(mkeys.push(key0)[m] == mkeys[m]);
                    }
                }
                assert forall|m: int| 0 <= m < mkeys.len() implies (#[trigger] r.1[m]) == Seq::new(
                    (width - klen) as nat,
                    |c: int|
                        if mvals[m][c] == ph {
                            first_filled(rows, mkeys[m], klen, c, ph)
                        } else {
                            mvals[m][c]
                        },
                ) by {
                    assert(s.0[m] == mkeys[m] && s.1[m] == mvals[m]);
                    assert(r.1[m] == Seq::new(
                        (width - klen) as nat,
                        |c: int|
                            if mvals[m][c] == ph {
                                first_filled(rest, mkeys[m], klen, c, ph)
                            } else {
                                mvals[m][c]
                            },
                    ));
                    assert(mkeys[m] != key0);
                    assert(Seq::new(
                        (width - klen) as nat,
                        |c: int|
                            if mvals[m][c] == ph {
                                first_filled(rest, mkeys[m], klen, c, ph)
                            } else {
                                mvals[m][c]
                            },
                    ) =~= Seq::new(
                        (width - klen) as nat,
                        |c: int|
                            if mvals[m][c] == ph {
                                first_filled(rows, mkeys[m], klen, c, ph)
                            } else {
                                mvals[m][c]
                            },
                    ));
                }
                assert forall|m: int| mkeys.len() <= m < r.0.len() implies !mkeys.contains(
                    #[trigger] r.0[m],
                ) && r.1[m] == Seq::new(
                    (width - klen) as nat,
                    |c: int| first_filled(rows, r.0[m], klen, c, ph),
                ) by {
                    if m == mkeys.len() {
                        assert(r.0[m] == r.0.take((mkeys.len() + 1) as int)[m]);
                        assert(r.0[m] == key0);
                        assert(r.1[m] == Seq::new(
                            (width - klen) as nat,
                            |c: int|
                                if vals0[c] == ph {
                                    first_filled(rest, key0, klen, c, ph)
                                } else {
                                    vals0[c]
                                },
                        ));
                        assert forall|c: int| 0 <= c < width - klen implies (if vals0[c] == ph {
                            first_filled(rest, key0, klen, c, ph)
                        } else {
                            vals0[c]
                        }) == first_filled(rows, key0, klen, c, ph) by {
                            if vals0[c] != ph {
                                assert(first_filled(rows, key0, klen, c, ph) == vals0[c]);
                            } else {
                                assert(first_filled(rows, key0, klen, c, ph) == first_filled(
                                    rest,
                                    key0,
                                    klen,
                                    c,
                                    ph,
                                ));
                            }
                        }
                        assert(Seq::new(
                            (width - klen) as nat,
                            |c: int|
                                if vals0[c] == ph {
                                    first_filled(rest, key0, klen, c, ph)
                                } else {
                                    vals0[c]
                                },
                        ) =~= Seq::new(
                            (width - klen) as nat,
                            |c: int| first_filled(rows, key0, klen, c, ph),
                        ));
                        if mkeys.contains(r.0[m]) {
                            let w = choose|w: int| 0 <= w < mkeys.len() && mkeys[w] == key0;
                            assert(mkeys[w] != key0);
                        }
                    } else {
                        assert(!s.0.contains(r.0[m]));
                        if mkeys.contains(r.0[m]) {
                            let w = choose|w: int| 0 <= w < mkeys.len() && mkeys[w] == r.0[m];
                            assert(s.0[w] == r.0[m]);
                            assert(s.0.contains(r.0[m]));
                        }
                        assert(r.0[m] != key0) by {
                            if r.0[m] == key0 {
                                assert(s.0[mkeys.len() as int] == key0);
                                assert(s.0.contains(r.0[m]));
                            }
                        }
                        assert(r.1[m] == Seq::new(
                            (width - klen) as nat,
                            |c: int| first_filled(rest, r.0[m], klen, c, ph),
                        ));
                        assert(Seq::new(
                            (width - klen) as nat,
                            |c: int| first_filled(rest, r.0[m], klen, c, ph),
                        ) =~= Seq::new(
                            (width - klen) as nat,
                            |c: int| first_filled(rows, r.0[m], klen, c, ph),
                        ));
                    }
                }
            },
        }
    }
}

/// Every key tuple the merge buffer holds has exactly the key columns'
/// arity.
pub proof fn lemma_merge_keys_arity(
    mkeys: Seq<Seq<Seq<char>>>,
    mvals: Seq<Seq<Seq<char>>>,
    rows: Seq<Seq<Seq<char>>>,
    klen: int,
    ph: Seq<char>,
)
    requires
        0 <= klen,
        forall|m: int| 0 <= m < mkeys.len() ==> (#[trigger] mkeys[m]).len() == klen,
        forall|j: int| 0 <= j < rows.len() ==> (#[trigger] rows[j]).len() >= klen,
    ensures
        forall|m: int| 0 <= m < merge_rows_from(mkeys, mvals, rows, klen, ph).0.len()
            ==> (#[trigger] merge_rows_from(mkeys, mvals, rows, klen, ph).0[m]).len() == klen,
    decreases rows.len(),
{
    if rows.len() > 0 {
        let s = merge_step(mkeys, mvals, rows[0], klen, ph);
        assert(rows[0].take(klen).len() == klen);
        assert forall|m: int| 0 <= m < s.0.len() implies (#[trigger] s.0[m]).len() == klen by {
            if m < mkeys.len() {
                assert(s.0[m] == mkeys[m]);
            }
        }
        assert forall|j: int| 0 <= j < rows.drop_first().len() implies (
        #[trigger] rows.drop_first()[j]).len() >= klen by {
            assert(rows.drop_first()[j] == rows[j + 1]);
        }
        lemma_merge_keys_arity(s.0, s.1, rows.drop_first(), klen, ph);
        let r = merge_rows_from(mkeys, mvals, rows, klen, ph);
        let r2 = merge_rows_from(s.0, s.1, rows.drop_first(), klen, ph);
        assert(r == r2);
        assert forall|m: int| 0 <= m < r.0.len() implies (#[trigger] r.0[m]).len() == klen by {
            assert(r.0[m] == r2.0[m]);
        }
    }
}

/// Merge-duplicates is first-non-empty-wins per column: the buffer holds
/// each key tuple once, and each of its value columns settles to the first
/// value supplied for it that is not the placeholder (the placeholder, if
/// none ever comes), over all rows bearing that key, in arrival order.
pub proof fn lemma_merge_first_non_empty_wins(
    rows: Seq<Seq<Seq<char>>>,
    klen: int,
    ph: Seq<char>,
    width: int,
)
    requires
        0 <= klen <= width,
        forall|j: int| 0 <= j < rows.len() ==> (#[trigger] rows[j]).len() == width,
    ensures
        merge_rows(rows, klen, ph).0.len() == merge_rows(rows, klen, ph).1.len(),
        forall|m: int| 0 <= m < merge_rows(rows, klen, ph).0.len() ==> (#[trigger] merge_rows(
            rows,
            klen,
            ph,
        ).1[m]) == Seq::new(
            (width - klen) as nat,
            |c: int| first_filled(rows, merge_rows(rows, klen, ph).0[m], klen, c, ph),
        ),
        forall|m1: int, m2: int| 0 <= m1 < m2 < merge_rows(rows, klen, ph).0.len() ==> merge_rows(
            rows,
            klen,
            ph,
        ).0[m1] != merge_rows(rows, klen, ph).0[m2],
{
    lemma_merge_from_values(Seq::empty(), Seq::empty(), rows, klen, ph, width);
}

} // verus!
