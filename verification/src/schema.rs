//! Schema unification: building one output header from the headers of many
//! files, and the per-file map from input column position to output column
//! position.
//!
//! The unified header starts from the key columns.  Every file's header is
//! then walked in file order: a column name already present keeps its
//! existing (first) position, a new name is appended as a new trailing
//! column.  The index map of a file records, for each of its columns, the
//! output column it maps to.

use vstd::prelude::*;
use crate::strutil::clone_string_vec;

verus! {

/// The first position of `name` in `header`.  Meaningful only when `header`
/// contains `name`.
pub open spec fn first_index_of(header: Seq<Seq<char>>, name: Seq<char>) -> int
    decreases header.len(),
{
    if header.len() == 0 {
        0
    } else if header[0] == name {
        0
    } else {
        1 + first_index_of(header.drop_first(), name)
    }
}

/// When `header` contains `name`, its first position is in bounds, holds
/// `name`, and no earlier position does.
pub proof fn lemma_first_index_of(header: Seq<Seq<char>>, name: Seq<char>)
    requires
        header.contains(name),
    ensures
        0 <= first_index_of(header, name) < header.len(),
        header[first_index_of(header, name)] == name,
        forall|k: int| 0 <= k < first_index_of(header, name) ==> header[k] != name,
    decreases header.len(),
{
    if header.len() > 0 && header[0] != name {
        assert(header.drop_first().contains(name)) by {
            let w = choose|w: int| 0 <= w < header.len() && header[w] == name;
            assert(header.drop_first()[w - 1] == name);
        }
        lemma_first_index_of(header.drop_first(), name);
        assert forall|k: int| 0 <= k < first_index_of(header, name) implies header[k] != name by {
            if k > 0 {
                assert(header.drop_first()[k - 1] == header[k]);
            }
        }
    }
}

/// Extend a unified header with one file's column names; yields the extended
/// header and the output column index that each name maps to.
pub open spec fn extend_schema(header: Seq<Seq<char>>, names: Seq<Seq<char>>) -> (
    Seq<Seq<char>>,
    Seq<int>,
)
    decreases names.len(),
{
    if names.len() == 0 {
        (header, Seq::empty())
    } else {
        let name = names[0];
        if header.contains(name) {
            let r = extend_schema(header, names.drop_first());
            (r.0, seq![first_index_of(header, name)] + r.1)
        } else {
            let r = extend_schema(header.push(name), names.drop_first());
            (r.0, seq![header.len() as int] + r.1)
        }
    }
}

/// Fold [`extend_schema`] over the headers of all files, in file order;
/// yields the unified header and one index map per file.
pub open spec fn unify_schemas(header: Seq<Seq<char>>, headers: Seq<Seq<Seq<char>>>) -> (
    Seq<Seq<char>>,
    Seq<Seq<int>>,
)
    decreases headers.len(),
{
    if headers.len() == 0 {
        (header, Seq::empty())
    } else {
        let r1 = extend_schema(header, headers[0]);
        let r2 = unify_schemas(r1.0, headers.drop_first());
        (r2.0, seq![r1.1] + r2.1)
    }
}

/// The names of `names` that are not yet in `header`, first occurrences
/// only, in their order within `names`.
pub open spec fn fresh_names(header: Seq<Seq<char>>, names: Seq<Seq<char>>) -> Seq<Seq<char>>
    decreases names.len(),
{
    if names.len() == 0 {
        Seq::empty()
    } else if header.contains(names[0]) {
        fresh_names(header, names.drop_first())
    } else {
        seq![names[0]] + fresh_names(header.push(names[0]), names.drop_first())
    }
}

/// The new columns that each file adds, in file order then header order,
/// each against the header as the files before it (and the names before it)
/// left it.
pub open spec fn fresh_names_all(header: Seq<Seq<char>>, headers: Seq<Seq<Seq<char>>>) -> Seq<
    Seq<char>,
>
    decreases headers.len(),
{
    if headers.len() == 0 {
        Seq::empty()
    } else {
        let first = fresh_names(header, headers[0]);
        first + fresh_names_all(header + first, headers.drop_first())
    }
}

/// Extending a header only appends: the result is the header followed by the
/// names not yet seen, in order.
pub proof fn lemma_extend_schema_appends(header: Seq<Seq<char>>, names: Seq<Seq<char>>)
    ensures
        extend_schema(header, names).0 == header + fresh_names(header, names),
    decreases names.len(),
{
    if names.len() == 0 {
        assert(header + Seq::<Seq<char>>::empty() =~= header);
    } else if header.contains(names[0]) {
        lemma_extend_schema_appends(header, names.drop_first());
    } else {
        lemma_extend_schema_appends(header.push(names[0]), names.drop_first());
        assert(header.push(names[0]) + fresh_names(header.push(names[0]), names.drop_first())
            =~= header + (seq![names[0]] + fresh_names(header.push(names[0]), names.drop_first())));
    }
}

/// Unifying schemas only appends: the unified header is the starting header
/// followed by each file's new names, in file order then header order.
pub proof fn lemma_unify_schemas_appends(header: Seq<Seq<char>>, headers: Seq<Seq<Seq<char>>>)
    ensures
        unify_schemas(header, headers).0 == header + fresh_names_all(header, headers),
    decreases headers.len(),
{
    if headers.len() == 0 {
        assert(header + Seq::<Seq<char>>::empty() =~= header);
    } else {
        lemma_extend_schema_appends(header, headers[0]);
        lemma_unify_schemas_appends(header + fresh_names(header, headers[0]), headers.drop_first());
        assert((header + fresh_names(header, headers[0])) + fresh_names_all(header + fresh_names(
            header,
            headers[0],
        ), headers.drop_first()) =~= header + (fresh_names(header, headers[0]) + fresh_names_all(
            header + fresh_names(header, headers[0]),
            headers.drop_first(),
        )));
    }
}

/// Extending a header keeps it free of duplicates.
pub proof fn lemma_extend_schema_no_duplicates(header: Seq<Seq<char>>, names: Seq<Seq<char>>)
    requires
        header.no_duplicates(),
    ensures
        extend_schema(header, names).0.no_duplicates(),
    decreases names.len(),
{
    if names.len() > 0 {
        if header.contains(names[0]) {
            lemma_extend_schema_no_duplicates(header, names.drop_first());
        } else {
            assert(header.push(names[0]).no_duplicates());
            lemma_extend_schema_no_duplicates(header.push(names[0]), names.drop_first());
        }
    }
}

/// Unifying schemas keeps the header free of duplicates.
pub proof fn lemma_unify_schemas_no_duplicates(header: Seq<Seq<char>>, headers: Seq<Seq<Seq<char>>>)
    requires
        header.no_duplicates(),
    ensures
        unify_schemas(header, headers).0.no_duplicates(),
    decreases headers.len(),
{
    if headers.len() > 0 {
        lemma_extend_schema_no_duplicates(header, headers[0]);
        lemma_unify_schemas_no_duplicates(extend_schema(header, headers[0]).0, headers.drop_first());
    }
}

/// Every index that [`extend_schema`] assigns points into the extended
/// header, at the column with that very name; the map has one entry per
/// name.
pub proof fn lemma_extend_schema_map(header: Seq<Seq<char>>, names: Seq<Seq<char>>)
    ensures
        extend_schema(header, names).1.len() == names.len(),
        extend_schema(header, names).0.len() >= header.len(),
        forall|i: int| 0 <= i < names.len() ==> 0 <= #[trigger] extend_schema(header, names).1[i]
            < extend_schema(header, names).0.len(),
        forall|i: int| 0 <= i < names.len() ==> extend_schema(header, names).0[#[trigger] extend_schema(
            header,
            names,
        ).1[i]] == names[i],
    decreases names.len(),
{
    if names.len() > 0 {
        let name = names[0];
        if header.contains(name) {
            lemma_first_index_of(header, name);
            lemma_extend_schema_map(header, names.drop_first());
            lemma_extend_schema_appends(header, names.drop_first());
            let r = extend_schema(header, names.drop_first());
            assert(r.0[first_index_of(header, name)] == name);
            assert forall|i: int| 0 <= i < names.len() implies 0 <= #[trigger] extend_schema(
                header,
                names,
            ).1[i] < extend_schema(header, names).0.len() && extend_schema(header, names).0[
                extend_schema(header, names).1[i]] == names[i] by {
                if i > 0 {
                    assert(extend_schema(header, names).1[i] == r.1[i - 1]);
                    assert(names.drop_first()[i - 1] == names[i]);
                }
            }
        } else {
            lemma_extend_schema_map(header.push(name), names.drop_first());
            lemma_extend_schema_appends(header.push(name), names.drop_first());
            let r = extend_schema(header.push(name), names.drop_first());
            assert(r.0[header.len() as int] == name);
            assert forall|i: int| 0 <= i < names.len() implies 0 <= #[trigger] extend_schema(
                header,
                names,
            ).1[i] < extend_schema(header, names).0.len() && extend_schema(header, names).0[
                extend_schema(header, names).1[i]] == names[i] by {
                if i > 0 {
                    assert(extend_schema(header, names).1[i] == r.1[i - 1]);
                    assert(names.drop_first()[i - 1] == names[i]);
                }
            }
        }
    }
}

/// Every index in every file's index map points into the unified header, at
/// the column with that file's column name; each map has one entry per
/// column of its file.
pub proof fn lemma_unify_schemas_maps(header: Seq<Seq<char>>, headers: Seq<Seq<Seq<char>>>)
    ensures
        unify_schemas(header, headers).1.len() == headers.len(),
        unify_schemas(header, headers).0.len() >= header.len(),
        forall|f: int| 0 <= f < headers.len() ==> (#[trigger] unify_schemas(header, headers).1[f]).len()
            == headers[f].len(),
        forall|f: int, i: int| 0 <= f < headers.len() && 0 <= i < headers[f].len() ==> 0
            <= #[trigger] unify_schemas(header, headers).1[f][i] < unify_schemas(
            header,
            headers,
        ).0.len(),
        forall|f: int, i: int| 0 <= f < headers.len() && 0 <= i < headers[f].len()
            ==> unify_schemas(header, headers).0[#[trigger] unify_schemas(header, headers).1[f][i]]
            == headers[f][i],
    decreases headers.len(),
{
    if headers.len() > 0 {
        let r1 = extend_schema(header, headers[0]);
        let r2 = unify_schemas(r1.0, headers.drop_first());
        lemma_extend_schema_map(header, headers[0]);
        lemma_unify_schemas_maps(r1.0, headers.drop_first());
        lemma_unify_schemas_appends(r1.0, headers.drop_first());
        assert forall|f: int, i: int| 0 <= f < headers.len() && 0 <= i < headers[f].len() implies 0
            <= #[trigger] unify_schemas(header, headers).1[f][i] < unify_schemas(
            header,
            headers,
        ).0.len() && unify_schemas(header, headers).0[unify_schemas(header, headers).1[f][i]]
            == headers[f][i] by {
            if f == 0 {
                assert(unify_schemas(header, headers).1[0] == r1.1);
                assert(r2.0 == r1.0 + fresh_names_all(r1.0, headers.drop_first()));
                assert(0 <= r1.1[i] < r1.0.len());
                assert(r2.0[r1.1[i]] == r1.0[r1.1[i]]);
            } else {
                assert(unify_schemas(header, headers).1[f] == r2.1[f - 1]);
                assert(headers.drop_first()[f - 1] == headers[f]);
            }
        }
    }
}

/// The schema union is order-stable: the unified header is the key columns
/// followed by each file's not-yet-seen column names, in file order then
/// header order; with distinct key columns it holds no duplicate name; and
/// every input column name stands in it.
pub proof fn lemma_schema_union_order_stable(keys: Seq<Seq<char>>, headers: Seq<Seq<Seq<char>>>)
    ensures
        unify_schemas(keys, headers).0 == keys + fresh_names_all(keys, headers),
        keys.no_duplicates() ==> unify_schemas(keys, headers).0.no_duplicates(),
        forall|f: int, i: int| 0 <= f < headers.len() && 0 <= i < headers[f].len()
            ==> unify_schemas(keys, headers).0.contains(#[trigger] headers[f][i]),
{
    lemma_unify_schemas_appends(keys, headers);
    if keys.no_duplicates() {
        lemma_unify_schemas_no_duplicates(keys, headers);
    }
    lemma_unify_schemas_maps(keys, headers);
    assert forall|f: int, i: int| 0 <= f < headers.len() && 0 <= i < headers[f].len() implies
        unify_schemas(keys, headers).0.contains(#[trigger] headers[f][i]) by {
        let u = unify_schemas(keys, headers);
        assert(u.0[u.1[f][i]] == headers[f][i]);
    }
}

/// The view of one executable index map as mathematical integers.
pub open spec fn index_map_view(map: Seq<usize>) -> Seq<int> {
    Seq::new(map.len(), |i: int| map[i] as int)
}

/// The view of all executable index maps as mathematical integers.
pub open spec fn index_map_views(maps: Seq<Vec<usize>>) -> Seq<Seq<int>> {
    Seq::new(maps.len(), |f: int| index_map_view(maps[f]@))
}

/// The first position of `name` among the strings of `names`, if any.
fn position_of(names: &Vec<String>, name: &String) -> (r: Option<usize>)
    ensures
        match r {
            Some(p) => names.deep_view().contains(name@) && p as int == first_index_of(
                names.deep_view(),
                name@,
            ),
            None => !names.deep_view().contains(name@),
        },
{
    let ghost dv = names.deep_view();
    let mut i: usize = 0;
    while i < names.len()
        invariant
            0 <= i <= names@.len(),
            dv == names.deep_view(),
            forall|k: int| 0 <= k < i ==> dv[k] != name@,
        decreases names@.len() - i,
    {
        let here = &names[i];
        if here.eq(name) {
            proof {
                assert(dv[i as int] == name@);
                assert(dv.contains(name@));
                lemma_first_index_of(dv, name@);
            }
            return Some(i);
        }
        i = i + 1;
    }
    proof {
        if dv.contains(name@) {
            let w = choose|w: int| 0 <= w < dv.len() && dv[w] == name@;
            assert(dv[w] == name@);
        }
    }
    None
}

/// Build the unified output header and one index map per file from the key
/// columns and the files' headers.
pub fn build_schema(key_columns: &Vec<String>, headers: &Vec<Vec<String>>) -> (r: (
    Vec<String>,
    Vec<Vec<usize>>,
))
    ensures
        r.0.deep_view() == unify_schemas(key_columns.deep_view(), headers.deep_view()).0,
        index_map_views(r.1@) == unify_schemas(key_columns.deep_view(), headers.deep_view()).1,
{
    let ghost keys_dv = key_columns.deep_view();
    let ghost headers_dv = headers.deep_view();
    let ghost target = unify_schemas(keys_dv, headers_dv);
    let mut unified: Vec<String> = clone_string_vec(key_columns);
    let mut maps: Vec<Vec<usize>> = Vec::new();
    proof {
        assert(unified.deep_view() =~= keys_dv);
        assert(index_map_views(maps@) =~= Seq::<Seq<int>>::empty());
        assert(headers_dv.skip(0) =~= headers_dv);
        assert(index_map_views(maps@) + target.1 =~= target.1);
    }
    let mut f: usize = 0;
    while f < headers.len()
        invariant
            0 <= f <= headers@.len(),
            keys_dv == key_columns.deep_view(),
            headers_dv == headers.deep_view(),
            target == unify_schemas(keys_dv, headers_dv),
            maps@.len() == f,
            ({
                let rest = unify_schemas(unified.deep_view(), headers_dv.skip(f as int));
                target.0 == rest.0 && target.1 == index_map_views(maps@) + rest.1
            }),
        decreases headers@.len() - f,
    {
        let ghost unified_before = unified.deep_view();
        let ghost names = headers_dv[f as int];
        proof {
            assert(headers_dv.skip(f as int)[0] == names);
            assert(headers_dv.skip(f as int).drop_first() =~= headers_dv.skip(f + 1));
        }
        let header_f = &headers[f];
        let mut imap: Vec<usize> = Vec::new();
        let mut i: usize = 0;
        proof {
            assert(Seq::new(imap@.len(), |k: int| imap@[k] as int) =~= Seq::<int>::empty());
            assert(names.skip(0) =~= names);
            let whole = extend_schema(unified_before, names);
            assert(Seq::new(imap@.len(), |k: int| imap@[k] as int) + whole.1 =~= whole.1);
        }
        while i < header_f.len()
            invariant
                0 <= i <= header_f@.len(),
                names == header_f.deep_view(),
                imap@.len() == i,
                ({
                    let whole = extend_schema(unified_before, names);
                    let rest = extend_schema(unified.deep_view(), names.skip(i as int));
                    whole.0 == rest.0 && whole.1 == Seq::new(imap@.len(), |k: int| imap@[k] as int)
                        + rest.1
                }),
            decreases header_f@.len() - i,
        {
            let ghost cur = unified.deep_view();
            let ghost rest_names = names.skip(i as int);
            proof {
                assert(rest_names[0] == names[i as int]);
                assert(rest_names.drop_first() =~= names.skip(i + 1));
            }
            let ghost imap_ints = Seq::new(imap@.len(), |k: int| imap@[k] as int);
            match position_of(&unified, &header_f[i]) {
                Some(p) => {
                    imap.push(p);
                    proof {
                        let r = extend_schema(cur, names.skip(i + 1));
                        assert(Seq::new(imap@.len(), |k: int| imap@[k] as int) =~= imap_ints.push(
                            p as int,
                        ));
                        assert(imap_ints.push(p as int) + r.1 =~= imap_ints + (seq![p as int]
                            + r.1));
                    }
                },
                None => {
                    imap.push(unified.len());
                    let ghost new_len = unified@.len() as int;
                    unified.push(header_f[i].clone());
                    proof {
                        assert(unified.deep_view() =~= cur.push(names[i as int]));
                        let r = extend_schema(cur.push(names[i as int]), names.skip(i + 1));
                        assert(Seq::new(imap@.len(), |k: int| imap@[k] as int) =~= imap_ints.push(
                            new_len,
                        ));
                        assert(imap_ints.push(new_len) + r.1 =~= imap_ints + (seq![new_len] + r.1));
                    }
                },
            }
            i = i + 1;
        }
        proof {
            assert(names.skip(names.len() as int) =~= Seq::<Seq<char>>::empty());
        }
        let ghost imap_final = Seq::new(imap@.len(), |k: int| imap@[k] as int);
        let ghost maps_before = maps@;
        maps.push(imap);
        proof {
            let whole = extend_schema(unified_before, names);
            assert(whole.1 =~= imap_final);
            assert(index_map_views(maps@) =~= index_map_views(maps_before).push(imap_final));
            let rest2 = unify_schemas(unified.deep_view(), headers_dv.skip(f + 1));
            assert(index_map_views(maps_before).push(imap_final) + rest2.1 =~= index_map_views(
                maps_before,
            ) + (seq![imap_final] + rest2.1));
        }
        f = f + 1;
    }
    proof {
        assert(headers_dv.skip(headers_dv.len() as int) =~= Seq::<Seq<Seq<char>>>::empty());
        assert(index_map_views(maps@) + Seq::<Seq<int>>::empty() =~= index_map_views(maps@));
    }
    (unified, maps)
}

} // verus!
