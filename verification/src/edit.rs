//! Editing a parsed document: locating the record table for a path,
//! updating a single field while keeping its surrounding bytes, and the
//! reconciler that brings a document in line with a record list.

use vstd::prelude::*;

use crate::bytes::{all_key_bytes, all_str_bytes, bytes_eq};
use crate::doc::{
    canon_int_field, canon_str_field, doc_wf, lemma_canon_int_field_wf, lemma_canon_str_field_wf,
    lemma_empty_trailing_ok, lemma_int_text_ok, line_wf, table_wf, Document, DocumentV, FieldLine,
    FieldV, Line, LineV, TableEntry, TableV, Value, ValueV,
};
use crate::errors::UpNextError;
use crate::num::{int_text, render_i64};
use crate::schema::{SeriesList, SeriesV};

verus! {

// --- the keys of the record schema ----------------------------------------

/// The bytes of the key `series`.
pub open spec fn key_series() -> Seq<u8> {
    seq![115u8, 101u8, 114u8, 105u8, 101u8, 115u8]
}

/// The bytes of the key `path`.
pub open spec fn key_path() -> Seq<u8> {
    seq![112u8, 97u8, 116u8, 104u8]
}

/// The bytes of the key `next_episode`.
pub open spec fn key_next_episode() -> Seq<u8> {
    seq![110u8, 101u8, 120u8, 116u8, 95u8, 101u8, 112u8, 105u8, 115u8, 111u8, 100u8, 101u8]
}

/// The key `series` as an executable slice.
pub fn series_key() -> (r: Vec<u8>)
    ensures
        r@ == key_series(),
{
    let r: Vec<u8> = vec![115, 101, 114, 105, 101, 115];
    proof {
        assert(r@ =~= key_series());
    }
    r
}

/// The key `path` as an executable slice.
pub fn path_key() -> (r: Vec<u8>)
    ensures
        r@ == key_path(),
{
    let r: Vec<u8> = vec![112, 97, 116, 104];
    proof {
        assert(r@ =~= key_path());
    }
    r
}

/// The key `next_episode` as an executable slice.
pub fn next_episode_key() -> (r: Vec<u8>)
    ensures
        r@ == key_next_episode(),
{
    let r: Vec<u8> = vec![110, 101, 120, 116, 95, 101, 112, 105, 115, 111, 100, 101];
    proof {
        assert(r@ =~= key_next_episode());
    }
    r
}

// --- finding a field --------------------------------------------------------

/// The line is a field line with the given key.
pub open spec fn is_key_field(l: LineV, key: Seq<u8>) -> bool {
    l is Field && l->Field_0.key == key
}

/// The index of the first field line with the given key, if any.
pub open spec fn find_field(body: Seq<LineV>, key: Seq<u8>) -> Option<int>
    decreases body.len(),
{
    if body.len() == 0 {
        None
    } else if is_key_field(body[0], key) {
        Some(0)
    } else {
        match find_field(body.skip(1), key) {
            Some(i) => Some(i + 1),
            None => None,
        }
    }
}

/// What [`find_field`] means: `None` when no line carries the key, else
/// the first index that does.
pub proof fn lemma_find_field(body: Seq<LineV>, key: Seq<u8>)
    ensures
        match find_field(body, key) {
            None => forall|j: int| 0 <= j < body.len() ==> !is_key_field(#[trigger] body[j], key),
            Some(i) => {
                &&& 0 <= i < body.len()
                &&& is_key_field(body[i], key)
                &&& forall|j: int| 0 <= j < i ==> !is_key_field(#[trigger] body[j], key)
            },
        },
    decreases body.len(),
{
    if body.len() > 0 && !is_key_field(body[0], key) {
        lemma_find_field(body.skip(1), key);
        assert(forall|j: int| 1 <= j < body.len() ==> (#[trigger] body[j]) == body.skip(1)[j - 1]);
        match find_field(body.skip(1), key) {
            Some(i0) => {
                assert(body[i0 + 1] == body.skip(1)[i0]);
            },
            None => {},
        }
    }
}

/// The first occurrence of the key is unchanged by updating a line at an
/// index past it or holding another key, and by appending lines.
pub proof fn lemma_find_field_update(body: Seq<LineV>, key: Seq<u8>, i: int, l: LineV)
    requires
        0 <= i < body.len(),
        is_key_field(l, key) == is_key_field(body[i], key),
    ensures
        find_field(body.update(i, l), key) == find_field(body, key),
    decreases body.len(),
{
    let upd = body.update(i, l);
    if i == 0 {
        if !is_key_field(body[0], key) {
            assert(upd.skip(1) =~= body.skip(1));
        }
    } else {
        if !is_key_field(body[0], key) {
            assert(upd.skip(1) =~= body.skip(1).update(i - 1, l));
            lemma_find_field_update(body.skip(1), key, i - 1, l);
        }
    }
}

/// Appending a line does not change the first occurrence of a key that is
/// already present.
pub proof fn lemma_find_field_push(body: Seq<LineV>, key: Seq<u8>, l: LineV)
    requires
        find_field(body, key) is Some,
    ensures
        find_field(body.push(l), key) == find_field(body, key),
    decreases body.len(),
{
    let ext = body.push(l);
    if body.len() > 0 {
        if !is_key_field(body[0], key) {
            assert(ext.skip(1) =~= body.skip(1).push(l));
            lemma_find_field_push(body.skip(1), key, l);
        }
    }
}

/// Find the first field line with the given key, executably.
pub fn find_field_index(body: &Vec<Line>, key: &[u8]) -> (r: Option<usize>)
    ensures
        ({
            let bv = body@.map_values(|l: Line| l@);
            match r {
                Some(i) => find_field(bv, key@) == Some(i as int),
                None => find_field(bv, key@) is None,
            }
        }),
{
    let ghost bv = body@.map_values(|l: Line| l@);
    proof {
        lemma_find_field(bv, key@);
    }
    let mut i: usize = 0;
    while i < body.len()
        invariant
            i <= body@.len(),
            bv == body@.map_values(|l: Line| l@),
            forall|j: int| 0 <= j < i ==> !is_key_field(#[trigger] bv[j], key@),
        decreases body@.len() - i,
    {
        match &body[i] {
            Line::Field(f) => {
                if bytes_eq(f.key.as_slice(), key) {
                    proof {
                        assert(is_key_field(bv[i as int], key@));
                        lemma_find_field(bv, key@);
                        if find_field(bv, key@) is None {
                            assert(false);
                        } else {
                            let w = find_field(bv, key@).unwrap();
                            if w < i {
                                assert(!is_key_field(bv[w], key@));
                            }
                            if w > i {
                                assert(!is_key_field(bv[i as int], key@));
                            }
                        }
                    }
                    return Some(i);
                }
            },
            Line::Trivia(_) => {},
        }
        proof {
            assert(!is_key_field(bv[i as int], key@));
        }
        i = i + 1;
    }
    proof {
        lemma_find_field(bv, key@);
        if find_field(bv, key@) is Some {
            let w = find_field(bv, key@).unwrap();
            assert(!is_key_field(bv[w], key@));
        }
    }
    None
}

// --- reading a table ---------------------------------------------------------

/// The value of the first field with the given key, if any.
pub open spec fn field_value(t: TableV, key: Seq<u8>) -> Option<ValueV> {
    match find_field(t.body, key) {
        Some(i) => Some(t.body[i]->Field_0.value),
        None => None,
    }
}

/// The table is a record table: its header names the `series` array.
pub open spec fn is_series_table(t: TableV) -> bool {
    t.name == key_series()
}

/// The path of a record table: the content of its first `path` field,
/// when that field exists and holds a string.
pub open spec fn table_path(t: TableV) -> Option<Seq<u8>> {
    match field_value(t, key_path()) {
        Some(ValueV::Str(c)) => Some(c),
        _ => None,
    }
}

/// The path of a record table, executably: a borrow of the content of its
/// first `path` field when that field exists and holds a string.
pub fn table_path_of<'a>(t: &'a TableEntry) -> (r: Option<&'a Vec<u8>>)
    ensures
        r is Some <==> table_path(t@) is Some,
        r is Some ==> r.unwrap()@ == table_path(t@).unwrap(),
{
    let pk = path_key();
    match find_field_index(&t.body, pk.as_slice()) {
        Some(j) => {
            proof {
                lemma_find_field(t@.body, key_path());
            }
            match &t.body[j] {
                Line::Field(f) => {
                    match &f.value {
                        Value::Str(c) => Some(c),
                        Value::Int(_) => None,
                    }
                },
                Line::Trivia(_) => {
                    proof {
                        assert(is_key_field(t@.body[j as int], key_path()));
                        assert(false);
                    }
                    None
                },
            }
        },
        None => None,
    }
}

// --- locating a record table -------------------------------------------------

/// The outcome of scanning the record tables for a path.
#[verifier::ext_equal]
pub enum LocateV {
    /// The first record table whose `path` field holds exactly this path.
    Found(int),
    /// A record table before any match has a missing or non-string `path`.
    Corrupt,
    /// No record table matches.
    Missing,
}

/// Shift a found index by `k`.
pub open spec fn shift_locate(r: LocateV, k: int) -> LocateV {
    match r {
        LocateV::Found(i) => LocateV::Found(i + k),
        LocateV::Corrupt => LocateV::Corrupt,
        LocateV::Missing => LocateV::Missing,
    }
}

/// Scan the tables in order.  A non-record table is passed over.  A
/// record table with a missing or non-string `path` stops the scan as
/// corrupt; one whose path matches is found; any other is passed over.
pub open spec fn locate_series(ts: Seq<TableV>, path: Seq<u8>) -> LocateV
    decreases ts.len(),
{
    if ts.len() == 0 {
        LocateV::Missing
    } else {
        let t = ts[0];
        if is_series_table(t) {
            match field_value(t, key_path()) {
                None => LocateV::Corrupt,
                Some(ValueV::Int(_)) => LocateV::Corrupt,
                Some(ValueV::Str(c)) => if c == path {
                    LocateV::Found(0)
                } else {
                    shift_locate(locate_series(ts.skip(1), path), 1)
                },
            }
        } else {
            shift_locate(locate_series(ts.skip(1), path), 1)
        }
    }
}

/// Find the record table for a path by a linear, first-match scan.
///
/// `Ok(Some(i))` is the index of the first matching record table;
/// `Ok(None)` means no record table matches; a schema error reports the
/// first record table, before any match, whose `path` field is missing
/// or not a string.
pub fn locate_series_table(tables: &Vec<TableEntry>, path: &[u8]) -> (r: Result<
    Option<usize>,
    UpNextError,
>)
    ensures
        ({
            let loc = locate_series(tables@.map_values(|t: TableEntry| t@), path@);
            match r {
                Ok(Some(i)) => loc == LocateV::Found(i as int) && i < tables@.len(),
                Ok(None) => loc == LocateV::Missing,
                Err(e) => loc == LocateV::Corrupt && e is SchemaError,
            }
        }),
{
    let ghost tv = tables@.map_values(|t: TableEntry| t@);
    let skey = series_key();
    let mut i: usize = 0;
    proof {
        assert(tv.skip(0) =~= tv);
    }
    while i < tables.len()
        invariant
            i <= tables@.len(),
            tv == tables@.map_values(|t: TableEntry| t@),
            skey@ == key_series(),
            locate_series(tv, path@) == shift_locate(
                locate_series(tv.skip(i as int), path@),
                i as int,
            ),
        decreases tables@.len() - i,
    {
        let ghost suffix = tv.skip(i as int);
        proof {
            assert(suffix[0] == tv[i as int]);
            assert(suffix.skip(1) =~= tv.skip(i + 1));
        }
        if bytes_eq(tables[i].name.as_slice(), skey.as_slice()) {
            proof {
                assert(is_series_table(tv[i as int]));
            }
            match table_path_of(&tables[i]) {
                Some(c) => {
                    if bytes_eq(c.as_slice(), path) {
                        proof {
                            assert(locate_series(suffix, path@) == LocateV::Found(0));
                        }
                        return Ok(Some(i));
                    } else {
                        proof {
                            assert(locate_series(suffix, path@) == shift_locate(
                                locate_series(tv.skip(i + 1), path@),
                                1,
                            ));
                        }
                    }
                },
                None => {
                    proof {
                        assert(locate_series(suffix, path@) == LocateV::Corrupt) by {
                            match field_value(tv[i as int], key_path()) {
                                Some(ValueV::Str(_)) => {
                                    assert(table_path(tv[i as int]) is Some);
                                },
                                _ => {},
                            }
                        }
                    }
                    return Err(
                        UpNextError::SchemaError(
                            "series entry has a missing or non-string path".to_owned(),
                        ),
                    );
                },
            }
        } else {
            proof {
                assert(!is_series_table(tv[i as int]));
            }
        }
        i = i + 1;
    }
    proof {
        assert(tv.skip(tv.len() as int) =~= Seq::<TableV>::empty());
    }
    Ok(None)
}

// --- the last episode a list gives a path -----------------------------------

/// The next-episode value of the last record with path `p`; zero when no
/// record has it (never read in that case).
pub open spec fn last_episode_for(l: Seq<SeriesV>, p: Seq<u8>) -> int
    decreases l.len(),
{
    if l.len() == 0 {
        0
    } else if l.last().path == p {
        l.last().next_episode
    } else {
        last_episode_for(l.drop_last(), p)
    }
}

/// The last record with path `p` decides [`last_episode_for`].
pub proof fn lemma_last_episode_at(l: Seq<SeriesV>, p: Seq<u8>, k: int)
    requires
        0 <= k < l.len(),
        l[k].path == p,
        forall|m: int| k < m < l.len() ==> l[m].path != p,
    ensures
        last_episode_for(l, p) == l[k].next_episode,
    decreases l.len(),
{
    if k == l.len() - 1 {
    } else {
        assert(l.drop_last()[k] == l[k]);
        lemma_last_episode_at(l.drop_last(), p, k);
    }
}

/// The next-episode value of the last record with the given path.
pub fn last_episode(list: &SeriesList, p: &[u8]) -> (r: i64)
    requires
        crate::schema::spec_contains_path(list@, p@),
    ensures
        r as int == last_episode_for(list@, p@),
{
    let mut j: usize = list.series.len();
    while j > 0
        invariant
            j <= list.series@.len(),
            crate::schema::spec_contains_path(list@, p@),
            forall|m: int| j <= m < list@.len() ==> list@[m].path != p@,
        decreases j,
    {
        j = j - 1;
        if bytes_eq(list.series[j].path.as_slice(), p) {
            proof {
                assert(list@[j as int].path == p@);
                lemma_last_episode_at(list@, p@, j as int);
            }
            return list.series[j].next_episode;
        }
        proof {
            assert(list@[j as int].path != p@);
        }
    }
    proof {
        let w = choose|i: int| 0 <= i < list@.len() && list@[i].path == p@;
        assert(list@[w].path != p@);
    }
    0
}

// --- updating a field --------------------------------------------------------

/// Setting an integer field, as a transformation of the table's view.
///
/// When a field with the key exists, only its value text and value are
/// replaced: the whitespace around it and any trailing comment stay byte
/// for byte.  Otherwise a fresh plainly formatted field is appended at
/// the end of the body.
pub open spec fn set_int_field_spec(t: TableV, key: Seq<u8>, n: int) -> TableV {
    match find_field(t.body, key) {
        Some(i) => {
            let f = t.body[i]->Field_0;
            TableV {
                header_pre: t.header_pre,
                name: t.name,
                header_post: t.header_post,
                body: t.body.update(
                    i,
                    LineV::Field(
                        FieldV {
                            pre: f.pre,
                            key: f.key,
                            eq: f.eq,
                            val_text: int_text(n),
                            value: ValueV::Int(n),
                            post: f.post,
                        },
                    ),
                ),
            }
        },
        None => TableV {
            header_pre: t.header_pre,
            name: t.name,
            header_post: t.header_post,
            body: t.body.push(LineV::Field(canon_int_field(key, n))),
        },
    }
}

/// Updating an integer field keeps the table's path.
pub proof fn lemma_set_int_field_path(t: TableV, key: Seq<u8>, n: int)
    requires
        key != key_path(),
    ensures
        table_path(set_int_field_spec(t, key, n)) == table_path(t),
        field_value(set_int_field_spec(t, key, n), key_path()) == field_value(t, key_path()),
{
    let t2 = set_int_field_spec(t, key, n);
    match find_field(t.body, key) {
        Some(i) => {
            let f = t.body[i]->Field_0;
            lemma_find_field(t.body, key);
            let newl = LineV::Field(
                FieldV {
                    pre: f.pre,
                    key: f.key,
                    eq: f.eq,
                    val_text: int_text(n),
                    value: ValueV::Int(n),
                    post: f.post,
                },
            );
            lemma_find_field_update(t.body, key_path(), i, newl);
            match find_field(t.body, key_path()) {
                Some(p) => {
                    lemma_find_field(t.body, key_path());
                    assert(p != i) by {
                        assert(is_key_field(t.body[p], key_path()));
                        assert(is_key_field(t.body[i], key));
                    }
                    assert(t2.body[p] == t.body[p]);
                },
                None => {},
            }
        },
        None => {
            match find_field(t.body, key_path()) {
                Some(p) => {
                    lemma_find_field_push(t.body, key_path(), LineV::Field(canon_int_field(key, n)));
                    lemma_find_field(t.body, key_path());
                    assert(t2.body[p] == t.body[p]);
                },
                None => {
                    lemma_find_field(t.body, key_path());
                    lemma_find_field(t2.body, key_path());
                    assert(find_field(t2.body, key_path()) is None) by {
                        match find_field(t2.body, key_path()) {
                            Some(q) => {
                                if q < t.body.len() {
                                    assert(t2.body[q] == t.body[q]);
                                    assert(!is_key_field(t.body[q], key_path()));
                                } else {
                                    assert(t2.body[q] == LineV::Field(canon_int_field(key, n)));
                                }
                            },
                            None => {},
                        }
                    }
                },
            }
        },
    }
}

/// Updating an integer field keeps the table well formed.
pub proof fn lemma_set_int_field_wf(t: TableV, key: Seq<u8>, n: int)
    requires
        table_wf(t),
        key.len() >= 1,
        all_key_bytes(key),
        i64::MIN <= n <= i64::MAX,
    ensures
        table_wf(set_int_field_spec(t, key, n)),
{
    let t2 = set_int_field_spec(t, key, n);
    match find_field(t.body, key) {
        Some(i) => {
            lemma_find_field(t.body, key);
            lemma_int_text_ok(n);
            assert(forall|j: int| 0 <= j < t2.body.len() && j != i ==> t2.body[j] == t.body[j]);
            assert(line_wf(t2.body[i]));
        },
        None => {
            lemma_canon_int_field_wf(key, n);
            assert(forall|j: int|
                0 <= j < t2.body.len() - 1 ==> t2.body[j] == t.body[j]);
        },
    }
}

/// Set the first field with the given key to an integer value, or append
/// a fresh field when none exists.
pub fn set_int_field(t: &mut TableEntry, key: &[u8], n: i64)
    requires
        key@.len() >= 1,
        all_key_bytes(key@),
    ensures
        final(t)@ == set_int_field_spec(old(t)@, key@, n as int),
{
    let ghost tv = t@;
    match find_field_index(&t.body, key) {
        Some(i) => {
            let ghost m = t.body@.map_values(|l: Line| l@);
            proof {
                lemma_find_field(m, key@);
            }
            let line = t.body.remove(i);
            match line {
                Line::Field(f) => {
                    let newf = FieldLine {
                        pre: f.pre,
                        key: f.key,
                        eq: f.eq,
                        val_text: render_i64(n),
                        value: Value::Int(n),
                        post: f.post,
                    };
                    let ghost nv = newf@;
                    t.body.insert(i, Line::Field(newf));
                    proof {
                        assert(t.body@.map_values(|l: Line| l@) =~= m.update(
                            i as int,
                            LineV::Field(nv),
                        ));
                        assert(t@ =~= set_int_field_spec(tv, key@, n as int)) by {
                            lemma_find_field(m, key@);
                        }
                    }
                },
                Line::Trivia(raw) => {
                    proof {
                        lemma_find_field(m, key@);
                        assert(false);
                    }
                    t.body.insert(i, Line::Trivia(raw));
                },
            }
        },
        None => {
            let newf = FieldLine {
                pre: Vec::new(),
                key: vstd::slice::slice_to_vec(key),
                eq: vec![32, 61, 32],
                val_text: render_i64(n),
                value: Value::Int(n),
                post: Vec::new(),
            };
            let ghost nv = newf@;
            let ghost m = t.body@.map_values(|l: Line| l@);
            proof {
                assert(nv =~= canon_int_field(key@, n as int)) by {
                    assert(newf.eq@ =~= crate::doc::canon_eq_sep());
                    assert(newf.pre@ =~= Seq::<u8>::empty());
                    assert(newf.post@ =~= Seq::<u8>::empty());
                }
            }
            t.body.push(Line::Field(newf));
            proof {
                assert(t.body@.map_values(|l: Line| l@) =~= m.push(LineV::Field(nv)));
                assert(t@ =~= set_int_field_spec(tv, key@, n as int));
            }
        },
    }
}

// --- the reconciler ----------------------------------------------------------

/// The table survives pruning: every non-record table does; a record
/// table survives exactly when its path is a string that some record of
/// the list carries.  A record table with a missing or non-string path
/// is silently dropped: a deliberate policy, so that one hand-corrupted
/// entry does not make every save fail.
pub open spec fn keep_table(t: TableV, l: Seq<SeriesV>) -> bool {
    !is_series_table(t) || (table_path(t) matches Some(c)
        && crate::schema::spec_contains_path(l, c))
}

/// The tables surviving pruning, in their original order.
pub open spec fn prune_tables(ts: Seq<TableV>, l: Seq<SeriesV>) -> Seq<TableV>
    decreases ts.len(),
{
    if ts.len() == 0 {
        Seq::empty()
    } else {
        prune_tables(ts.drop_last(), l) + (if keep_table(ts.last(), l) {
            seq![ts.last()]
        } else {
            Seq::<TableV>::empty()
        })
    }
}

/// Every surviving table satisfies the pruning condition.
pub proof fn lemma_prune_elements(ts: Seq<TableV>, l: Seq<SeriesV>)
    ensures
        forall|j: int|
            0 <= j < prune_tables(ts, l).len() ==> keep_table(
                #[trigger] prune_tables(ts, l)[j],
                l,
            ),
    decreases ts.len(),
{
    if ts.len() > 0 {
        lemma_prune_elements(ts.drop_last(), l);
        let pr = prune_tables(ts, l);
        let pd = prune_tables(ts.drop_last(), l);
        assert forall|j: int| 0 <= j < pr.len() implies keep_table(#[trigger] pr[j], l) by {
            if j < pd.len() {
                assert(pr[j] == pd[j]);
            } else {
                assert(pr[j] == ts.last());
            }
        }
    }
}

/// Some record table of `ts` has the string path `p`.
pub open spec fn series_has_path(ts: Seq<TableV>, p: Seq<u8>) -> bool {
    exists|i: int|
        0 <= i < ts.len() && is_series_table(#[trigger] ts[i]) && table_path(ts[i]) == Some(p)
}

/// No earlier record table of `ts` has the same path as the one at `i`.
pub open spec fn first_series_with(ts: Seq<TableV>, i: int) -> bool {
    forall|j: int|
        0 <= j < i ==> !(is_series_table(#[trigger] ts[j]) && table_path(ts[j]) == table_path(
            ts[i],
        ))
}

/// The surviving table at `i` after the update pass: the first record
/// table of each path gets its `next_episode` field set to the value of
/// the last record with that path; every other table stands untouched.
pub open spec fn update_kept_at(kept: Seq<TableV>, l: Seq<SeriesV>, i: int) -> TableV {
    let t = kept[i];
    if is_series_table(t) && table_path(t) is Some && first_series_with(kept, i) {
        set_int_field_spec(t, key_next_episode(), last_episode_for(l, table_path(t).unwrap()))
    } else {
        t
    }
}

/// All surviving tables after the update pass.
pub open spec fn update_kept(kept: Seq<TableV>, l: Seq<SeriesV>) -> Seq<TableV> {
    Seq::new(kept.len(), |i: int| update_kept_at(kept, l, i))
}

/// The record at `i` needs a fresh table: no surviving record table has
/// its path, and it is the first record of the list with that path.
pub open spec fn is_new_at(l: Seq<SeriesV>, kept: Seq<TableV>, i: int) -> bool {
    !series_has_path(kept, l[i].path) && forall|j: int| 0 <= j < i ==> l[j].path != l[i].path
}

/// A freshly created record table: plainly formatted `path` and
/// `next_episode` fields, no comments.
pub open spec fn new_series_table(p: Seq<u8>, n: int) -> TableV {
    TableV {
        header_pre: Seq::empty(),
        name: key_series(),
        header_post: Seq::empty(),
        body: seq![
            LineV::Field(canon_str_field(key_path(), p)),
            LineV::Field(canon_int_field(key_next_episode(), n)),
        ],
    }
}

/// The fresh tables for the first `n` records of the list, in list order.
pub open spec fn new_tables(l: Seq<SeriesV>, kept: Seq<TableV>, n: int) -> Seq<TableV>
    decreases n,
{
    if n <= 0 {
        Seq::empty()
    } else {
        new_tables(l, kept, n - 1) + (if is_new_at(l, kept, n - 1) {
            seq![new_series_table(l[n - 1].path, last_episode_for(l, l[n - 1].path))]
        } else {
            Seq::<TableV>::empty()
        })
    }
}

/// A field line in the prelude carries the key `series`: the value of
/// the `series` key is then not an array of tables.
pub open spec fn prelude_series_conflict(d: DocumentV) -> bool {
    exists|i: int| 0 <= i < d.prelude.len() && is_key_field(#[trigger] d.prelude[i], key_series())
}

/// Every path of the list can be written as a plain quoted string.
pub open spec fn paths_storable(l: Seq<SeriesV>) -> bool {
    forall|i: int| 0 <= i < l.len() ==> all_str_bytes((#[trigger] l[i]).path)
}

/// Reconciliation succeeds exactly here.
pub open spec fn reconcile_ok(d: DocumentV, l: Seq<SeriesV>) -> bool {
    !prelude_series_conflict(d) && paths_storable(l)
}

/// The reconciled document: the prelude stands untouched; surviving
/// tables keep their order and all their bytes except the one updated
/// value; fresh tables are appended at the end, in list order, one per
/// distinct new path; appending forces a final line feed.
pub open spec fn reconcile_doc(d: DocumentV, l: Seq<SeriesV>) -> DocumentV {
    let kept = prune_tables(d.tables, l);
    let news = new_tables(l, kept, l.len() as int);
    DocumentV {
        prelude: d.prelude,
        tables: update_kept(kept, l) + news,
        ends_with_newline: if news.len() > 0 {
            true
        } else {
            d.ends_with_newline
        },
    }
}

/// Reconcile a parsed document against the record list.
///
/// On success the document becomes exactly [`reconcile_doc`] of its old
/// value.  The call fails with a schema error when the `series` key is
/// bound to a plain value in the prelude, and with a generic error when
/// a record path cannot be stored as a plain string; in both cases the
/// document stands unchanged.
pub fn reconcile(doc: &mut Document, list: &SeriesList) -> (r: Result<(), UpNextError>)
    requires
        doc_wf(old(doc)@),
    ensures
        r is Ok <==> reconcile_ok(old(doc)@, list@),
        r is Ok ==> final(doc)@ == reconcile_doc(old(doc)@, list@) && doc_wf(final(doc)@),
        r is Err ==> final(doc)@ == old(doc)@,
        r is Err ==> (r->Err_0 is SchemaError <==> prelude_series_conflict(old(doc)@)),
        r is Err ==> (r->Err_0 is SchemaError || r->Err_0 is GenericError),
{
    let skey = series_key();
    // refuse a prelude that binds the series key to a plain value
    let mut i: usize = 0;
    while i < doc.prelude.len()
        invariant
            i <= doc.prelude@.len(),
            doc@ == old(doc)@,
            skey@ == key_series(),
            forall|j: int|
                0 <= j < i ==> !is_key_field(#[trigger] doc@.prelude[j], key_series()),
        decreases doc.prelude@.len() - i,
    {
        match &doc.prelude[i] {
            Line::Field(f) => {
                if bytes_eq(f.key.as_slice(), skey.as_slice()) {
                    proof {
                        assert(is_key_field(doc@.prelude[i as int], key_series()));
                    }
                    return Err(
                        UpNextError::SchemaError(
                            "value of the series key is not an array of tables".to_owned(),
                        ),
                    );
                }
            },
            Line::Trivia(_) => {},
        }
        proof {
            assert(!is_key_field(doc@.prelude[i as int], key_series()));
        }
        i = i + 1;
    }
    proof {
        assert(!prelude_series_conflict(doc@));
    }
    // refuse a record path that cannot stand inside a quoted string
    let mut i: usize = 0;
    while i < list.series.len()
        invariant
            i <= list.series@.len(),
            doc@ == old(doc)@,
            !prelude_series_conflict(old(doc)@),
            forall|j: int| 0 <= j < i ==> all_str_bytes((#[trigger] list@[j]).path),
        decreases list.series@.len() - i,
    {
        if !crate::bytes::check_str_bytes(list.series[i].path.as_slice()) {
            proof {
                assert(!all_str_bytes(list@[i as int].path));
            }
            return Err(
                UpNextError::GenericError(
                    "series path cannot be written as a plain string".to_owned(),
                ),
            );
        }
        proof {
            assert(all_str_bytes(list@[i as int].path));
        }
        i = i + 1;
    }
    let ghost dv = doc@;
    let ghost lv = list@;
    let ghost orig = dv.tables;
    proof {
        assert(reconcile_ok(dv, lv));
    }
    // prune: keep non-record tables, and record tables whose path some
    // record of the list carries
    let mut kept: Vec<TableEntry> = Vec::new();
    let mut consumed: usize = 0;
    let n_tables = doc.tables.len();
    let ghost total = orig.len();
    proof {
        assert(total == n_tables);
        assert(orig.subrange(0, 0) =~= Seq::<TableV>::empty());
        assert(kept@.map_values(|t: TableEntry| t@) =~= Seq::<TableV>::empty());
        assert(doc.tables@.map_values(|t: TableEntry| t@) =~= orig.skip(0));
    }
    while doc.tables.len() > 0
        invariant
            consumed + doc.tables@.len() == total,
            total <= usize::MAX,
            skey@ == key_series(),
            orig.len() == total,
            dv.prelude == doc@.prelude,
            dv.ends_with_newline == doc@.ends_with_newline,
            doc.tables@.map_values(|t: TableEntry| t@) == orig.skip(consumed as int),
            kept@.map_values(|t: TableEntry| t@) == prune_tables(
                orig.subrange(0, consumed as int),
                lv,
            ),
            lv == list@,
            forall|j: int| 0 <= j < orig.len() ==> table_wf(#[trigger] orig[j]),
            forall|j: int| 0 <= j < kept@.len() ==> table_wf((#[trigger] kept@[j])@),
        decreases doc.tables@.len(),
    {
        let ghost pref = orig.subrange(0, consumed as int);
        let ghost before = doc.tables@;
        let t = doc.tables.remove(0);
        let ghost tvw = t@;
        proof {
            assert(tvw == orig.skip(consumed as int)[0]);
            assert(tvw == orig[consumed as int]);
            assert(doc.tables@ == before.remove(0));
            assert(doc.tables@.map_values(|x: TableEntry| x@) =~= orig.skip(consumed + 1)) by {
                assert(forall|j: int|
                    0 <= j < doc.tables@.len() ==> (#[trigger] doc.tables@[j]) == before[j + 1]);
                assert(forall|j: int|
                    0 <= j < doc.tables@.len() ==> (#[trigger] before[j + 1])@ == orig.skip(
                        consumed as int,
                    )[j + 1]);
            }
            assert(orig.subrange(0, consumed + 1) =~= pref.push(tvw));
            assert(pref.push(tvw).drop_last() =~= pref);
        }
        let keep: bool = if !bytes_eq(t.name.as_slice(), skey.as_slice()) {
            proof {
                assert(!is_series_table(tvw));
            }
            true
        } else {
            match table_path_of(&t) {
                Some(c) => list.contains_path(c.as_slice()),
                None => false,
            }
        };
        proof {
            assert(keep == keep_table(tvw, lv));
        }
        if keep {
            let ghost m = kept@.map_values(|x: TableEntry| x@);
            kept.push(t);
            proof {
                assert(kept@.map_values(|x: TableEntry| x@) =~= m.push(tvw));
                assert(prune_tables(pref.push(tvw), lv) =~= m.push(tvw));
            }
        } else {
            proof {
                assert(prune_tables(pref.push(tvw), lv) =~= prune_tables(pref, lv));
            }
        }
        consumed = consumed + 1;
    }
    let ghost keptv = prune_tables(orig, lv);
    proof {
        assert(orig.subrange(0, total as int) =~= orig);
        assert(kept@.map_values(|t: TableEntry| t@) == keptv);
        lemma_prune_elements(orig, lv);
    }
    // update: set the next episode of the first surviving record table of
    // each path to the value of the last record with that path
    let kept_len = kept.len();
    let nkey = next_episode_key();
    let mut i: usize = 0;
    while i < kept_len
        invariant
            i <= kept_len,
            kept_len == kept@.len(),
            kept_len == keptv.len(),
            skey@ == key_series(),
            nkey@ == key_next_episode(),
            lv == list@,
            forall|j: int| 0 <= j < keptv.len() ==> keep_table(#[trigger] keptv[j], lv),
            forall|j: int| 0 <= j < keptv.len() ==> table_wf(#[trigger] keptv[j]),
            forall|j: int|
                i <= j < keptv.len() ==> kept@.map_values(|t: TableEntry| t@)[j] == #[trigger] keptv[j],
            forall|j: int|
                0 <= j < i ==> kept@.map_values(|t: TableEntry| t@)[j] == #[trigger] update_kept_at(
                    keptv,
                    lv,
                    j,
                ),
            forall|j: int| 0 <= j < kept@.len() ==> table_wf((#[trigger] kept@[j])@),
            forall|j: int|
                0 <= j < kept@.len() ==> is_series_table((#[trigger] kept@[j])@)
                    == is_series_table(keptv[j]) && table_path(kept@[j]@) == table_path(keptv[j]),
        decreases kept_len - i,
    {
        let ghost m = kept@.map_values(|t: TableEntry| t@);
        let is_series = bytes_eq(kept[i].name.as_slice(), skey.as_slice());
        if is_series {
            let path_copy: Option<Vec<u8>> = match table_path_of(&kept[i]) {
                Some(c) => Some(vstd::slice::slice_to_vec(c.as_slice())),
                None => None,
            };
            match path_copy {
                Some(p) => {
                    proof {
                        assert(p@ =~= table_path(m[i as int]).unwrap());
                    }
                    // is this the first surviving record table with this path?
                    let mut firsthit = true;
                    let mut j: usize = 0;
                    while j < i
                        invariant
                            j <= i,
                            i < kept@.len(),
                            skey@ == key_series(),
                            m == kept@.map_values(|t: TableEntry| t@),
                            p@ == table_path(m[i as int]).unwrap(),
                            table_path(m[i as int]) is Some,
                            firsthit == (forall|q: int|
                                0 <= q < j ==> !(is_series_table(#[trigger] m[q]) && table_path(
                                    m[q],
                                ) == table_path(m[i as int]))),
                        decreases i - j,
                    {
                        if firsthit && bytes_eq(kept[j].name.as_slice(), skey.as_slice()) {
                            match table_path_of(&kept[j]) {
                                Some(c2) => {
                                    if bytes_eq(c2.as_slice(), p.as_slice()) {
                                        proof {
                                            assert(is_series_table(m[j as int]) && table_path(
                                                m[j as int],
                                            ) == table_path(m[i as int]));
                                        }
                                        firsthit = false;
                                    }
                                },
                                None => {},
                            }
                        }
                        proof {
                            if firsthit {
                                assert(!(is_series_table(m[j as int]) && table_path(m[j as int])
                                    == table_path(m[i as int])));
                            }
                        }
                        j = j + 1;
                    }
                    if firsthit {
                        proof {
                            // the path of a surviving record table is carried
                            // by some record of the list
                            assert(m[i as int] == keptv[i as int]);
                            assert(keep_table(keptv[i as int], lv));
                            assert(is_series_table(keptv[i as int]));
                            assert(table_path(keptv[i as int]) == Some(p@));
                            assert(crate::schema::spec_contains_path(lv, p@));
                        }
                        let ep = last_episode(list, p.as_slice());
                        let mut t = kept.remove(i);
                        set_int_field(&mut t, nkey.as_slice(), ep);
                        let ghost tv2 = t@;
                        kept.insert(i, t);
                        proof {
                            assert(kept@.map_values(|x: TableEntry| x@) =~= m.update(
                                i as int,
                                tv2,
                            ));
                            assert(first_series_with(m, i as int));
                            assert(first_series_with(keptv, i as int)) by {
                                assert(forall|q: int|
                                    0 <= q < i ==> is_series_table(#[trigger] keptv[q])
                                        == is_series_table(m[q]) && table_path(keptv[q])
                                        == table_path(m[q]));
                            }
                            assert(m[i as int] == keptv[i as int]);
                            assert(tv2 == update_kept_at(keptv, lv, i as int));
                            lemma_set_int_field_wf(
                                keptv[i as int],
                                key_next_episode(),
                                ep as int,
                            );
                            lemma_set_int_field_path(
                                keptv[i as int],
                                key_next_episode(),
                                ep as int,
                            );
                            assert(key_next_episode() != key_path()) by {
                                assert(key_next_episode().len() != key_path().len());
                            }
                            assert(is_series_table(tv2) == is_series_table(keptv[i as int]));
                        }
                    } else {
                        proof {
                            assert(!first_series_with(keptv, i as int)) by {
                                assert(!first_series_with(m, i as int));
                                assert(forall|q: int|
                                    0 <= q < i ==> is_series_table(#[trigger] keptv[q])
                                        == is_series_table(m[q]) && table_path(keptv[q])
                                        == table_path(m[q]));
                                assert(m[i as int] == keptv[i as int]);
                            }
                            assert(kept@.map_values(|t: TableEntry| t@)[i as int]
                                == update_kept_at(keptv, lv, i as int));
                        }
                    }
                },
                None => {
                    proof {
                        assert(table_path(m[i as int]) is None);
                        assert(m[i as int] == keptv[i as int]);
                        assert(kept@.map_values(|t: TableEntry| t@)[i as int] == update_kept_at(
                            keptv,
                            lv,
                            i as int,
                        ));
                    }
                },
            }
        } else {
            proof {
                assert(!is_series_table(m[i as int]));
                assert(m[i as int] == keptv[i as int]);
                assert(kept@.map_values(|t: TableEntry| t@)[i as int] == update_kept_at(
                    keptv,
                    lv,
                    i as int,
                ));
            }
        }
        i = i + 1;
    }
    proof {
        assert(kept@.map_values(|t: TableEntry| t@) =~= update_kept(keptv, lv));
    }
    // append: one fresh table per distinct new path, in list order
    let ghost updated = update_kept(keptv, lv);
    let pk = path_key();
    let mut created = false;
    let mut i: usize = 0;
    proof {
        assert(updated + new_tables(lv, keptv, 0) =~= updated);
    }
    while i < list.series.len()
        invariant
            i <= list.series@.len(),
            lv == list@,
            skey@ == key_series(),
            pk@ == key_path(),
            nkey@ == key_next_episode(),
            kept_len == keptv.len(),
            kept_len <= kept@.len(),
            paths_storable(lv),
            updated == update_kept(keptv, lv),
            updated.len() == keptv.len(),
            forall|j: int| 0 <= j < keptv.len() ==> table_wf(#[trigger] keptv[j]),
            forall|j: int|
                0 <= j < kept_len ==> is_series_table((#[trigger] kept@[j])@)
                    == is_series_table(keptv[j]) && table_path(kept@[j]@) == table_path(keptv[j]),
            kept@.map_values(|t: TableEntry| t@) == updated + new_tables(lv, keptv, i as int),
            created == (new_tables(lv, keptv, i as int).len() > 0),
            forall|j: int| 0 <= j < kept@.len() ==> table_wf((#[trigger] kept@[j])@),
        decreases list.series@.len() - i,
    {
        let ghost m = kept@.map_values(|t: TableEntry| t@);
        let p = &list.series[i].path;
        // already present among the surviving record tables?
        let mut present = false;
        let mut j: usize = 0;
        while j < kept_len
            invariant
                j <= kept_len,
                kept_len <= kept@.len(),
                kept_len == keptv.len(),
                p@ == list@[i as int].path,
                i < list@.len(),
                skey@ == key_series(),
                forall|q: int|
                    0 <= q < kept_len ==> is_series_table((#[trigger] kept@[q])@)
                        == is_series_table(keptv[q]) && table_path(kept@[q]@) == table_path(
                        keptv[q],
                    ),
                present == (exists|q: int|
                    0 <= q < j && is_series_table(#[trigger] keptv[q]) && table_path(keptv[q])
                        == Some(p@)),
            decreases kept_len - j,
        {
            if !present {
                if bytes_eq(kept[j].name.as_slice(), skey.as_slice()) {
                    match table_path_of(&kept[j]) {
                        Some(c2) => {
                            if bytes_eq(c2.as_slice(), p.as_slice()) {
                                proof {
                                    assert(is_series_table(kept@[j as int]@));
                                    assert(table_path(kept@[j as int]@) == Some(p@));
                                    assert(is_series_table(keptv[j as int]) && table_path(
                                        keptv[j as int],
                                    ) == Some(p@));
                                }
                                present = true;
                            } else {
                                proof {
                                    assert(table_path(keptv[j as int]) != Some(p@));
                                }
                            }
                        },
                        None => {
                            proof {
                                assert(table_path(keptv[j as int]) is None);
                            }
                        },
                    }
                } else {
                    proof {
                        assert(!is_series_table(keptv[j as int]));
                    }
                }
            }
            j = j + 1;
        }
        // already created for an earlier record?
        let mut dup = false;
        let mut j: usize = 0;
        while j < i
            invariant
                j <= i,
                i < list.series@.len(),
                lv == list@,
                p@ == list@[i as int].path,
                dup == (exists|q: int| 0 <= q < j && list@[q].path == p@),
            decreases i - j,
        {
            if !dup && bytes_eq(list.series[j].path.as_slice(), p.as_slice()) {
                proof {
                    assert(list@[j as int].path == p@);
                }
                dup = true;
            }
            proof {
                if !dup {
                    assert(list@[j as int].path != p@);
                }
            }
            j = j + 1;
        }
        proof {
            assert((!present && !dup) == is_new_at(lv, keptv, i as int));
            assert(new_tables(lv, keptv, i + 1) == new_tables(lv, keptv, i as int) + (
            if is_new_at(lv, keptv, i as int) {
                seq![
                    new_series_table(
                        lv[i as int].path,
                        last_episode_for(lv, lv[i as int].path),
                    ),
                ]
            } else {
                Seq::<TableV>::empty()
            }));
        }
        if !present && !dup {
            proof {
                assert(lv[i as int].path == p@);
                assert(crate::schema::spec_contains_path(lv, p@));
            }
            let ep = last_episode(list, p.as_slice());
            let path_vec = vstd::slice::slice_to_vec(p.as_slice());
            let mut val_text: Vec<u8> = Vec::new();
            val_text.push(34);
            let mut q: usize = 0;
            while q < path_vec.len()
                invariant
                    q <= path_vec@.len(),
                    path_vec@ == p@,
                    val_text@ == seq![34u8] + p@.subrange(0, q as int),
                decreases path_vec@.len() - q,
            {
                proof {
                    assert(seq![34u8] + p@.subrange(0, q + 1) =~= (seq![34u8] + p@.subrange(
                        0,
                        q as int,
                    )).push(p@[q as int]));
                }
                val_text.push(path_vec[q]);
                q = q + 1;
            }
            proof {
                assert(p@.subrange(0, p@.len() as int) =~= p@);
            }
            val_text.push(34);
            let pathfield = FieldLine {
                pre: Vec::new(),
                key: path_key(),
                eq: vec![32, 61, 32],
                val_text,
                value: Value::Str(vstd::slice::slice_to_vec(p.as_slice())),
                post: Vec::new(),
            };
            let epfield = FieldLine {
                pre: Vec::new(),
                key: next_episode_key(),
                eq: vec![32, 61, 32],
                val_text: render_i64(ep),
                value: Value::Int(ep),
                post: Vec::new(),
            };
            let ghost pfv = pathfield@;
            let ghost efv = epfield@;
            let mut body: Vec<Line> = Vec::new();
            body.push(Line::Field(pathfield));
            body.push(Line::Field(epfield));
            let newt = TableEntry {
                header_pre: Vec::new(),
                name: series_key(),
                header_post: Vec::new(),
                body,
            };
            let ghost ntv = newt@;
            proof {
                assert(pfv =~= canon_str_field(key_path(), p@)) by {
                    assert(pfv.eq =~= crate::doc::canon_eq_sep());
                    assert(pfv.pre =~= Seq::<u8>::empty());
                    assert(pfv.post =~= Seq::<u8>::empty());
                    assert(pfv.val_text =~= seq![34u8] + p@ + seq![34u8]);
                }
                assert(efv =~= canon_int_field(key_next_episode(), ep as int)) by {
                    assert(efv.eq =~= crate::doc::canon_eq_sep());
                    assert(efv.pre =~= Seq::<u8>::empty());
                    assert(efv.post =~= Seq::<u8>::empty());
                }
                assert(ntv =~= new_series_table(p@, ep as int)) by {
                    assert(ntv.body =~= seq![LineV::Field(pfv), LineV::Field(efv)]);
                    assert(ntv.header_pre =~= Seq::<u8>::empty());
                    assert(ntv.header_post =~= Seq::<u8>::empty());
                }
                assert(table_wf(ntv)) by {
                    lemma_canon_str_field_wf(key_path(), p@);
                    lemma_canon_int_field_wf(key_next_episode(), ep as int);
                    lemma_empty_trailing_ok();
                    assert(all_key_bytes(key_series())) by {
                        assert(forall|z: int|
                            0 <= z < key_series().len() ==> crate::bytes::is_key_byte(
                                #[trigger] key_series()[z],
                            ));
                    }
                }
            }
            kept.push(newt);
            created = true;
            proof {
                assert(kept@.map_values(|t: TableEntry| t@) =~= m.push(ntv));
                assert(m.push(ntv) =~= updated + new_tables(lv, keptv, i + 1));
            }
        } else {
            proof {
                assert(new_tables(lv, keptv, i + 1) =~= new_tables(lv, keptv, i as int));
            }
        }
        i = i + 1;
    }
    doc.tables = kept;
    if created {
        doc.ends_with_newline = true;
    }
    proof {
        assert(new_tables(lv, keptv, lv.len() as int).len() > 0 <==> created);
        assert(doc@ =~= reconcile_doc(dv, lv));
        assert(doc_wf(doc@)) by {
            assert(forall|j: int|
                0 <= j < doc@.tables.len() ==> table_wf(#[trigger] doc@.tables[j]));
        }
    }
    Ok(())
}

// --- what reconciliation guarantees ------------------------------------------

/// A freshly created record table reads back as expected: it is a record
/// table, its path is the one given, and its next episode is the value
/// given.
pub proof fn lemma_new_table_fields(p: Seq<u8>, n: int)
    ensures
        is_series_table(new_series_table(p, n)),
        table_path(new_series_table(p, n)) == Some(p),
        field_value(new_series_table(p, n), key_next_episode()) == Some(ValueV::Int(n)),
{
    let t = new_series_table(p, n);
    assert(key_path() != key_next_episode()) by {
        assert(key_path().len() != key_next_episode().len());
    }
    assert(is_key_field(t.body[0], key_path()));
    assert(find_field(t.body, key_path()) == Some(0int));
    assert(!is_key_field(t.body[0], key_next_episode()));
    assert(t.body.skip(1) =~= seq![LineV::Field(canon_int_field(key_next_episode(), n))]);
    assert(is_key_field(t.body.skip(1)[0], key_next_episode()));
    assert(find_field(t.body.skip(1), key_next_episode()) == Some(0int));
    assert(find_field(t.body, key_next_episode()) == Some(1int));
}

/// The update pass changes no table's kind or path.
pub proof fn lemma_update_kept_props(kept: Seq<TableV>, l: Seq<SeriesV>)
    ensures
        update_kept(kept, l).len() == kept.len(),
        forall|i: int|
            0 <= i < kept.len() ==> is_series_table(#[trigger] update_kept(kept, l)[i])
                == is_series_table(kept[i]) && table_path(update_kept(kept, l)[i]) == table_path(
                kept[i],
            ),
{
    let upd = update_kept(kept, l);
    assert forall|i: int| 0 <= i < kept.len() implies is_series_table(#[trigger] upd[i])
        == is_series_table(kept[i]) && table_path(upd[i]) == table_path(kept[i]) by {
        if is_series_table(kept[i]) && table_path(kept[i]) is Some && first_series_with(kept, i) {
            assert(key_next_episode() != key_path()) by {
                assert(key_next_episode().len() != key_path().len());
            }
            lemma_set_int_field_path(
                kept[i],
                key_next_episode(),
                last_episode_for(l, table_path(kept[i]).unwrap()),
            );
        }
    }
}

/// Every freshly appended table is a record table whose path some record
/// of the list carries.
pub proof fn lemma_new_tables_props(l: Seq<SeriesV>, kept: Seq<TableV>, n: int)
    requires
        n <= l.len(),
    ensures
        forall|j: int|
            0 <= j < new_tables(l, kept, n).len() ==> {
                let t = #[trigger] new_tables(l, kept, n)[j];
                &&& is_series_table(t)
                &&& table_path(t) is Some
                &&& crate::schema::spec_contains_path(l, table_path(t).unwrap())
            },
    decreases n,
{
    if n > 0 {
        lemma_new_tables_props(l, kept, n - 1);
        let news = new_tables(l, kept, n);
        let prev = new_tables(l, kept, n - 1);
        assert forall|j: int| 0 <= j < news.len() implies {
            let t = #[trigger] news[j];
            &&& is_series_table(t)
            &&& table_path(t) is Some
            &&& crate::schema::spec_contains_path(l, table_path(t).unwrap())
        } by {
            if j < prev.len() {
                assert(news[j] == prev[j]);
            } else {
                assert(is_new_at(l, kept, n - 1));
                assert(news[j] == new_series_table(
                    l[n - 1].path,
                    last_episode_for(l, l[n - 1].path),
                ));
                lemma_new_table_fields(l[n - 1].path, last_episode_for(l, l[n - 1].path));
                assert(l[n - 1].path == l[n - 1].path);
            }
        }
    }
}

/// A record that needs a fresh table gets one.
pub proof fn lemma_new_tables_at(l: Seq<SeriesV>, kept: Seq<TableV>, n: int, k: int)
    requires
        0 <= k < n <= l.len(),
        is_new_at(l, kept, k),
    ensures
        exists|j: int|
            0 <= j < new_tables(l, kept, n).len() && table_path(
                #[trigger] new_tables(l, kept, n)[j],
            ) == Some(l[k].path) && is_series_table(new_tables(l, kept, n)[j]),
    decreases n,
{
    let news = new_tables(l, kept, n);
    let prev = new_tables(l, kept, n - 1);
    if k == n - 1 {
        let j = prev.len() as int;
        assert(news[j] == new_series_table(l[k].path, last_episode_for(l, l[k].path)));
        lemma_new_table_fields(l[k].path, last_episode_for(l, l[k].path));
    } else {
        lemma_new_tables_at(l, kept, n - 1, k);
        let j = choose|j: int|
            0 <= j < prev.len() && table_path(#[trigger] prev[j]) == Some(l[k].path)
                && is_series_table(prev[j]);
        assert(news[j] == prev[j]);
    }
}

/// Every path of the list has a first occurrence.
pub proof fn lemma_first_occurrence(l: Seq<SeriesV>, i: int)
    requires
        0 <= i < l.len(),
    ensures
        exists|k: int|
            0 <= k <= i && (#[trigger] l[k]).path == l[i].path && forall|j: int|
                0 <= j < k ==> l[j].path != l[i].path,
    decreases i,
{
    if forall|j: int| 0 <= j < i ==> (#[trigger] l[j]).path != l[i].path {
        assert(l[i].path == l[i].path);
    } else {
        let j0 = choose|j: int| 0 <= j < i && (#[trigger] l[j]).path == l[i].path;
        lemma_first_occurrence(l, j0);
    }
}

/// Pruning, stated as the law it is: after reconciliation the record
/// tables of the document carry exactly the paths of the list.  Surviving
/// tables keep their original relative order by construction, since the
/// survivors are a filter of the original table run.
pub proof fn lemma_reconcile_paths(d: DocumentV, l: Seq<SeriesV>)
    ensures
        forall|i: int|
            0 <= i < reconcile_doc(d, l).tables.len() && is_series_table(
                #[trigger] reconcile_doc(d, l).tables[i],
            ) ==> table_path(reconcile_doc(d, l).tables[i]) is Some
                && crate::schema::spec_contains_path(
                l,
                table_path(reconcile_doc(d, l).tables[i]).unwrap(),
            ),
        forall|i: int|
            0 <= i < l.len() ==> series_has_path(
                reconcile_doc(d, l).tables,
                (#[trigger] l[i]).path,
            ),
{
    let kept = prune_tables(d.tables, l);
    let upd = update_kept(kept, l);
    let news = new_tables(l, kept, l.len() as int);
    let res = reconcile_doc(d, l).tables;
    lemma_prune_elements(d.tables, l);
    lemma_update_kept_props(kept, l);
    lemma_new_tables_props(l, kept, l.len() as int);
    assert forall|i: int|
        0 <= i < res.len() && is_series_table(#[trigger] res[i]) implies table_path(res[i]) is Some
        && crate::schema::spec_contains_path(l, table_path(res[i]).unwrap()) by {
        if i < upd.len() {
            assert(res[i] == upd[i]);
            assert(keep_table(kept[i], l));
        } else {
            assert(res[i] == news[i - upd.len()]);
        }
    }
    assert forall|i: int| 0 <= i < l.len() implies series_has_path(
        res,
        (#[trigger] l[i]).path,
    ) by {
        let p = l[i].path;
        if series_has_path(kept, p) {
            let w = choose|w: int|
                0 <= w < kept.len() && is_series_table(#[trigger] kept[w]) && table_path(kept[w])
                    == Some(p);
            assert(res[w] == upd[w]);
            assert(is_series_table(res[w]) && table_path(res[w]) == Some(p));
        } else {
            lemma_first_occurrence(l, i);
            let k = choose|k: int|
                0 <= k <= i && (#[trigger] l[k]).path == l[i].path && forall|j: int|
                    0 <= j < k ==> l[j].path != l[i].path;
            assert(is_new_at(l, kept, k));
            lemma_new_tables_at(l, kept, l.len() as int, k);
            let j = choose|j: int|
                0 <= j < news.len() && table_path(#[trigger] news[j]) == Some(l[k].path)
                    && is_series_table(news[j]);
            assert(res[upd.len() + j] == news[j]);
            assert(is_series_table(res[upd.len() + j]) && table_path(res[upd.len() + j]) == Some(
                p,
            ));
        }
    }
}

/// Comment preservation, stated as the law it is: when a surviving record
/// table already holds a `next_episode` field, reconciliation rewrites
/// only that field's value text; the whitespace and the trailing comment
/// on that line, and every other line of the table, stand byte for byte.
pub proof fn lemma_reconcile_preserves_comment(d: DocumentV, l: Seq<SeriesV>, i: int, j: int)
    requires
        0 <= i < prune_tables(d.tables, l).len(),
        is_series_table(prune_tables(d.tables, l)[i]),
        table_path(prune_tables(d.tables, l)[i]) is Some,
        first_series_with(prune_tables(d.tables, l), i),
        find_field(prune_tables(d.tables, l)[i].body, key_next_episode()) == Some(j),
    ensures
        ({
            let t = prune_tables(d.tables, l)[i];
            let t2 = reconcile_doc(d, l).tables[i];
            let f = t.body[j]->Field_0;
            let f2 = t2.body[j]->Field_0;
            &&& t2.header_pre == t.header_pre
            &&& t2.name == t.name
            &&& t2.header_post == t.header_post
            &&& t2.body.len() == t.body.len()
            &&& (forall|k: int| 0 <= k < t.body.len() && k != j ==> t2.body[k] == t.body[k])
            &&& f2.pre == f.pre
            &&& f2.key == f.key
            &&& f2.eq == f.eq
            &&& f2.post == f.post
            &&& f2.value == ValueV::Int(last_episode_for(l, table_path(t).unwrap()))
            &&& f2.val_text == int_text(last_episode_for(l, table_path(t).unwrap()))
        }),
{
    let kept = prune_tables(d.tables, l);
    let upd = update_kept(kept, l);
    assert(reconcile_doc(d, l).tables[i] == upd[i]);
    assert(upd[i] == update_kept_at(kept, l, i));
    lemma_find_field(kept[i].body, key_next_episode());
}

/// All fresh tables, one after another: reconciling against a list with
/// distinct paths, none of which survives pruning, appends one plainly
/// formatted table per record, in list order.
proof fn lemma_new_tables_dense(l: Seq<SeriesV>, kept: Seq<TableV>, n: int)
    requires
        0 <= n <= l.len(),
        forall|i: int| 0 <= i < n ==> is_new_at(l, kept, i),
    ensures
        new_tables(l, kept, n).len() == n,
        forall|i: int|
            0 <= i < n ==> #[trigger] new_tables(l, kept, n)[i] == new_series_table(
                l[i].path,
                last_episode_for(l, l[i].path),
            ),
    decreases n,
{
    if n > 0 {
        lemma_new_tables_dense(l, kept, n - 1);
        let news = new_tables(l, kept, n);
        let prev = new_tables(l, kept, n - 1);
        assert forall|i: int| 0 <= i < n implies #[trigger] news[i] == new_series_table(
            l[i].path,
            last_episode_for(l, l[i].path),
        ) by {
            if i < n - 1 {
                assert(news[i] == prev[i]);
            }
        }
    }
}

/// Insertion order, stated as the law it is: reconciling a document
/// without tables against a list of records with distinct paths yields
/// one fresh table per record, in list order, each holding exactly a
/// plain `path` and `next_episode` field and no comments.
pub proof fn lemma_reconcile_into_empty(d: DocumentV, l: Seq<SeriesV>)
    requires
        d.tables.len() == 0,
        forall|i: int, j: int| 0 <= i < j < l.len() ==> l[i].path != l[j].path,
    ensures
        reconcile_doc(d, l).prelude == d.prelude,
        reconcile_doc(d, l).tables.len() == l.len(),
        forall|i: int|
            0 <= i < l.len() ==> #[trigger] reconcile_doc(d, l).tables[i] == new_series_table(
                l[i].path,
                l[i].next_episode,
            ),
{
    let kept = prune_tables(d.tables, l);
    assert(kept =~= Seq::<TableV>::empty());
    let upd = update_kept(kept, l);
    assert(upd =~= Seq::<TableV>::empty());
    assert forall|i: int| 0 <= i < l.len() implies is_new_at(l, kept, i) by {
        if series_has_path(kept, l[i].path) {
            let w = choose|w: int|
                0 <= w < kept.len() && is_series_table(#[trigger] kept[w]) && table_path(kept[w])
                    == Some(l[i].path);
        }
    }
    lemma_new_tables_dense(l, kept, l.len() as int);
    let news = new_tables(l, kept, l.len() as int);
    assert forall|i: int| 0 <= i < l.len() implies #[trigger] reconcile_doc(d, l).tables[i]
        == new_series_table(l[i].path, l[i].next_episode) by {
        assert(reconcile_doc(d, l).tables[i] == news[i]);
        assert(news[i] == new_series_table(l[i].path, last_episode_for(l, l[i].path)));
        lemma_last_episode_at(l, l[i].path, i);
    }
}

} // verus!
