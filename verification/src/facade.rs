//! The typed load/store facade: between the raw text of the configuration
//! file and the typed record list.
//!
//! `load_series_list` reads the records out of a document text;
//! `save_series_list` reconciles the current on-disk text against a record
//! list and returns the new text; `render_series` renders one record
//! through the same machinery, so that display output matches exactly what
//! a save would write.

use vstd::prelude::*;

use crate::doc::{
    doc_text, line_text, lines_text, DocumentV, Line, LineV, TableEntry, TableV, Value, ValueV,
};
use crate::edit::{
    field_value, find_field, find_field_index, is_key_field, is_series_table, key_next_episode,
    key_path, key_series, lemma_find_field, locate_series, locate_series_table, new_series_table,
    next_episode_key, path_key, prelude_series_conflict, reconcile, reconcile_doc, reconcile_ok,
    series_key, set_int_field, set_int_field_spec, LocateV,
};
use crate::errors::UpNextError;
use crate::parse::{parse_document, parsed_doc, text_parses};
use crate::schema::{Series, SeriesList, SeriesV};

verus! {

// --- loading ---------------------------------------------------------------

/// The record a series table denotes, when it is shaped like one.
pub open spec fn table_record(t: TableV) -> SeriesV {
    SeriesV {
        path: field_value(t, key_path()).unwrap()->Str_0,
        next_episode: field_value(t, key_next_episode()).unwrap()->Int_0,
    }
}

/// A series table carries a string `path` and an integer `next_episode`.
pub open spec fn table_record_ok(t: TableV) -> bool {
    &&& field_value(t, key_path()) matches Some(ValueV::Str(_))
    &&& field_value(t, key_next_episode()) matches Some(ValueV::Int(_))
}

/// Some table of the document is a series table.
pub open spec fn has_series_table(d: DocumentV) -> bool {
    exists|i: int| 0 <= i < d.tables.len() && is_series_table(#[trigger] d.tables[i])
}

/// Every series table of the document is shaped like a record.
pub open spec fn tables_records_ok(d: DocumentV) -> bool {
    forall|i: int|
        0 <= i < d.tables.len() && is_series_table(#[trigger] d.tables[i]) ==> table_record_ok(
            d.tables[i],
        )
}

/// The records of the series tables, in document order.
pub open spec fn doc_records(ts: Seq<TableV>) -> Seq<SeriesV>
    decreases ts.len(),
{
    if ts.len() == 0 {
        Seq::empty()
    } else {
        doc_records(ts.drop_last()) + (if is_series_table(ts.last()) {
            seq![table_record(ts.last())]
        } else {
            Seq::<SeriesV>::empty()
        })
    }
}

/// A text loads successfully: it is empty, or it parses, binds `series`
/// to an array of tables of which there is at least one, and every series
/// table carries a string path and an integer next episode.
pub open spec fn load_ok(t: Seq<u8>) -> bool {
    t.len() == 0 || (text_parses(t) && !prelude_series_conflict(parsed_doc(t))
        && has_series_table(parsed_doc(t)) && tables_records_ok(parsed_doc(t)))
}

/// The records a text denotes.
pub open spec fn loaded_records(t: Seq<u8>) -> Seq<SeriesV> {
    if t.len() == 0 {
        Seq::empty()
    } else {
        doc_records(parsed_doc(t).tables)
    }
}

/// Load the record list out of a document text.
///
/// An empty text yields the empty list.  A non-empty text must parse and
/// must hold at least one record table, each with a string `path` and an
/// integer `next_episode`; any violation is a schema error.
pub fn load_series_list(text: &[u8]) -> (r: Result<SeriesList, UpNextError>)
    ensures
        r is Ok <==> load_ok(text@),
        r is Ok ==> r.unwrap()@ == loaded_records(text@),
        r is Err ==> r->Err_0 is SchemaError,
{
    if text.len() == 0 {
        let empty = SeriesList::new();
        return Ok(empty);
    }
    let doc = match parse_document(text) {
        Ok(d) => d,
        Err(e) => {
            return Err(e);
        },
    };
    let ghost dv = parsed_doc(text@);
    let skey = series_key();
    // the series key must not be bound to a plain value in the prelude
    let mut i: usize = 0;
    while i < doc.prelude.len()
        invariant
            text@.len() > 0,
            text_parses(text@),
            i <= doc.prelude@.len(),
            doc@ == dv,
            dv == parsed_doc(text@),
            skey@ == key_series(),
            forall|j: int| 0 <= j < i ==> !is_key_field(#[trigger] dv.prelude[j], key_series()),
        decreases doc.prelude@.len() - i,
    {
        match &doc.prelude[i] {
            Line::Field(f) => {
                if crate::bytes::bytes_eq(f.key.as_slice(), skey.as_slice()) {
                    proof {
                        assert(is_key_field(dv.prelude[i as int], key_series()));
                        assert(prelude_series_conflict(dv));
                        assert(!load_ok(text@));
                    }
                    return Err(
                        UpNextError::SchemaError(
                            "value of the series key is not an array of tables".to_owned(),
                        ),
                    );
                }
            },
            Line::Trivia(_) => {},
        }
        proof {
            assert(!is_key_field(dv.prelude[i as int], key_series()));
        }
        i = i + 1;
    }
    let pk = path_key();
    let nk = next_episode_key();
    let mut out = SeriesList::new();
    let mut found = false;
    let mut i: usize = 0;
    proof {
        assert(doc_records(dv.tables.subrange(0, 0)) =~= Seq::<SeriesV>::empty());
        assert(dv.tables.subrange(0, 0) =~= Seq::<TableV>::empty());
    }
    while i < doc.tables.len()
        invariant
            text@.len() > 0,
            text_parses(text@),
            i <= doc.tables@.len(),
            doc@ == dv,
            dv == parsed_doc(text@),
            !prelude_series_conflict(dv),
            skey@ == key_series(),
            pk@ == key_path(),
            nk@ == key_next_episode(),
            forall|j: int|
                0 <= j < i && is_series_table(#[trigger] dv.tables[j]) ==> table_record_ok(
                    dv.tables[j],
                ),
            found == (exists|j: int|
                0 <= j < i && is_series_table(#[trigger] dv.tables[j])),
            out@ == doc_records(dv.tables.subrange(0, i as int)),
        decreases doc.tables@.len() - i,
    {
        let ghost pref = dv.tables.subrange(0, i as int);
        proof {
            assert(dv.tables.subrange(0, i + 1) =~= pref.push(dv.tables[i as int]));
            assert(pref.push(dv.tables[i as int]).drop_last() =~= pref);
        }
        let t = &doc.tables[i];
        if crate::bytes::bytes_eq(t.name.as_slice(), skey.as_slice()) {
            proof {
                assert(is_series_table(dv.tables[i as int]));
            }
            let path_content: Vec<u8> = match find_field_index(&t.body, pk.as_slice()) {
                Some(j) => {
                    proof {
                        lemma_find_field(t@.body, key_path());
                    }
                    match &t.body[j] {
                        Line::Field(f) => {
                            match &f.value {
                                Value::Str(c) => vstd::slice::slice_to_vec(c.as_slice()),
                                Value::Int(_) => {
                                    proof {
                                        assert(t@ == dv.tables[i as int]);
                                        assert(t@.body[j as int] == t.body@[j as int]@);
                                        assert(!table_record_ok(dv.tables[i as int]));
                                        assert(!load_ok(text@));
                                    }
                                    return Err(
                                        UpNextError::SchemaError(
                                            "series path is not a string".to_owned(),
                                        ),
                                    );
                                },
                            }
                        },
                        Line::Trivia(_) => {
                            proof {
                                assert(is_key_field(t@.body[j as int], key_path()));
                                assert(false);
                            }
                            Vec::new()
                        },
                    }
                },
                None => {
                    proof {
                        assert(t@ == dv.tables[i as int]);
                        assert(!table_record_ok(dv.tables[i as int]));
                        assert(!load_ok(text@));
                    }
                    return Err(UpNextError::SchemaError("series entry has no path".to_owned()));
                },
            };
            let ep: i64 = match find_field_index(&t.body, nk.as_slice()) {
                Some(j) => {
                    proof {
                        lemma_find_field(t@.body, key_next_episode());
                    }
                    match &t.body[j] {
                        Line::Field(f) => {
                            match &f.value {
                                Value::Int(n) => *n,
                                Value::Str(_) => {
                                    proof {
                                        assert(t@ == dv.tables[i as int]);
                                        assert(t@.body[j as int] == t.body@[j as int]@);
                                        assert(!table_record_ok(dv.tables[i as int]));
                                        assert(!load_ok(text@));
                                    }
                                    return Err(
                                        UpNextError::SchemaError(
                                            "series next_episode is not an integer".to_owned(),
                                        ),
                                    );
                                },
                            }
                        },
                        Line::Trivia(_) => {
                            proof {
                                assert(is_key_field(t@.body[j as int], key_next_episode()));
                                assert(false);
                            }
                            0
                        },
                    }
                },
                None => {
                    proof {
                        assert(t@ == dv.tables[i as int]);
                        assert(!table_record_ok(dv.tables[i as int]));
                        assert(!load_ok(text@));
                    }
                    return Err(
                        UpNextError::SchemaError("series entry has no next_episode".to_owned()),
                    );
                },
            };
            let ghost before = out@;
            let entry = Series { path: path_content, next_episode: ep };
            let ghost ev = entry@;
            out.series.push(entry);
            found = true;
            proof {
                assert(out@ =~= before.push(ev));
                assert(table_record_ok(dv.tables[i as int]));
                assert(ev =~= table_record(dv.tables[i as int]));
                assert(doc_records(pref.push(dv.tables[i as int])) =~= before.push(ev));
            }
        } else {
            proof {
                assert(!is_series_table(dv.tables[i as int]));
                assert(doc_records(pref.push(dv.tables[i as int])) =~= doc_records(pref));
            }
        }
        i = i + 1;
    }
    proof {
        assert(dv.tables.subrange(0, dv.tables.len() as int) =~= dv.tables);
    }
    if !found {
        proof {
            assert(!has_series_table(dv));
            assert(!load_ok(text@));
        }
        return Err(UpNextError::SchemaError("missing field series".to_owned()));
    }
    proof {
        assert(load_ok(text@));
    }
    Ok(out)
}

// --- saving ------------------------------------------------------------------

/// A record list saves successfully against a text: the text parses and
/// the reconciler accepts the pair.
pub open spec fn save_ok(t: Seq<u8>, l: Seq<SeriesV>) -> bool {
    text_parses(t) && reconcile_ok(parsed_doc(t), l)
}

/// The text a successful save writes.
pub open spec fn saved_text(t: Seq<u8>, l: Seq<SeriesV>) -> Seq<u8> {
    doc_text(reconcile_doc(parsed_doc(t), l))
}

/// Reconcile the current on-disk text against the record list and return
/// the new text to write back.
///
/// The caller passes the current content of the configuration file, or an
/// empty slice when the file does not exist.  Nothing is written here:
/// the result is the full new file content, so the caller can write it in
/// one piece and never truncate the file before the content is ready.
pub fn save_series_list(text: &[u8], list: &SeriesList) -> (r: Result<Vec<u8>, UpNextError>)
    ensures
        r is Ok <==> save_ok(text@, list@),
        r is Ok ==> r.unwrap()@ == saved_text(text@, list@),
        r is Err ==> (r->Err_0 is SchemaError <==> (!text_parses(text@)
            || prelude_series_conflict(parsed_doc(text@)))),
        r is Err ==> (r->Err_0 is SchemaError || r->Err_0 is GenericError),
{
    let mut doc = match parse_document(text) {
        Ok(d) => d,
        Err(e) => {
            return Err(e);
        },
    };
    match reconcile(&mut doc, list) {
        Ok(()) => {},
        Err(e) => {
            return Err(e);
        },
    }
    Ok(crate::doc::serialize(&doc))
}

// --- rendering one record -----------------------------------------------------

/// The rendered text of one record table: a plain `[[series]]` header
/// line, then the table's body lines, each terminated.
pub open spec fn rendered_table(t: TableV) -> Seq<u8> {
    seq![91u8, 91u8] + key_series() + seq![93u8, 93u8] + seq![10u8] + lines_text(
        t.body.map_values(|l: LineV| line_text(l)),
    )
}

/// The table a render of `s` against document `d` shows: the first record
/// table whose path matches, brought up to date, or a fresh table.
pub open spec fn render_source(d: DocumentV, s: SeriesV) -> TableV {
    match locate_series(d.tables, s.path) {
        LocateV::Found(i) => set_int_field_spec(d.tables[i], key_next_episode(), s.next_episode),
        _ => new_series_table(s.path, s.next_episode),
    }
}

/// A render succeeds: the text parses, the scan for the record's path hits
/// no corrupt table, and, when a fresh table must be made, the path can be
/// stored.
pub open spec fn render_ok(t: Seq<u8>, s: SeriesV) -> bool {
    &&& text_parses(t)
    &&& !(locate_series(parsed_doc(t).tables, s.path) is Corrupt)
    &&& (locate_series(parsed_doc(t).tables, s.path) is Missing
        ==> crate::bytes::all_str_bytes(s.path))
}

/// Render one record against the current document text, comment-aware:
/// the output holds exactly the table a save would write for this record,
/// including every comment attached to it.
pub fn render_series(text: &[u8], series: &Series) -> (r: Result<Vec<u8>, UpNextError>)
    ensures
        r is Ok <==> render_ok(text@, series@),
        r is Ok ==> r.unwrap()@ == rendered_table(render_source(parsed_doc(text@), series@)),
        r is Err ==> (r->Err_0 is SchemaError || r->Err_0 is GenericError),
{
    let mut doc = match parse_document(text) {
        Ok(d) => d,
        Err(e) => {
            return Err(e);
        },
    };
    let ghost dv = parsed_doc(text@);
    let nk = next_episode_key();
    let mut table: TableEntry = match locate_series_table(&doc.tables, series.path.as_slice()) {
        Ok(Some(i)) => {
            let t = doc.tables.remove(i);
            proof {
                assert(t@ == dv.tables[i as int]);
            }
            t
        },
        Ok(None) => {
            if !crate::bytes::check_str_bytes(series.path.as_slice()) {
                return Err(
                    UpNextError::GenericError(
                        "series path cannot be written as a plain string".to_owned(),
                    ),
                );
            }
            let pathfield = crate::doc::FieldLine {
                pre: Vec::new(),
                key: path_key(),
                eq: vec![32, 61, 32],
                val_text: quoted_bytes(series.path.as_slice()),
                value: Value::Str(vstd::slice::slice_to_vec(series.path.as_slice())),
                post: Vec::new(),
            };
            let ghost pfv = pathfield@;
            proof {
                assert(pfv =~= crate::doc::canon_str_field(key_path(), series@.path)) by {
                    assert(pfv.eq =~= crate::doc::canon_eq_sep());
                    assert(pfv.pre =~= Seq::<u8>::empty());
                    assert(pfv.post =~= Seq::<u8>::empty());
                }
            }
            let mut body: Vec<Line> = Vec::new();
            body.push(Line::Field(pathfield));
            let t = TableEntry {
                header_pre: Vec::new(),
                name: series_key(),
                header_post: Vec::new(),
                body,
            };
            proof {
                assert(t@.body =~= seq![LineV::Field(pfv)]);
            }
            t
        },
        Err(e) => {
            return Err(e);
        },
    };
    let ghost before = table@;
    set_int_field(&mut table, nk.as_slice(), series.next_episode);
    proof {
        match locate_series(dv.tables, series@.path) {
            LocateV::Found(i) => {
                assert(before == dv.tables[i]);
            },
            LocateV::Missing => {
                // a fresh table's only field is the path; setting the next
                // episode appends the canonical episode field
                assert(crate::edit::find_field(before.body, key_next_episode()) is None) by {
                    crate::edit::lemma_find_field(before.body, key_next_episode());
                    if crate::edit::find_field(before.body, key_next_episode()) is Some {
                        let w = crate::edit::find_field(before.body, key_next_episode()).unwrap();
                        assert(is_key_field(before.body[w], key_next_episode()));
                        assert(before.body[w] == LineV::Field(
                            crate::doc::canon_str_field(key_path(), series@.path),
                        ));
                    }
                }
                assert(table@ =~= new_series_table(series@.path, series@.next_episode));
            },
            LocateV::Corrupt => {
                assert(false);
            },
        }
    }
    let mut out: Vec<u8> = Vec::new();
    out.push(91);
    out.push(91);
    crate::doc::push_bytes(&mut out, series_key().as_slice());
    out.push(93);
    out.push(93);
    out.push(10);
    let ghost header = seq![91u8, 91u8] + key_series() + seq![93u8, 93u8] + seq![10u8];
    proof {
        assert(out@ =~= header);
    }
    let ghost bodyl = table@.body.map_values(|l: LineV| line_text(l));
    let mut i: usize = 0;
    proof {
        assert(out@ =~= header + lines_text(bodyl.subrange(0, 0))) by {
            assert(bodyl.subrange(0, 0) =~= Seq::<Seq<u8>>::empty());
        }
    }
    while i < table.body.len()
        invariant
            i <= table.body@.len(),
            bodyl == table@.body.map_values(|l: LineV| line_text(l)),
            bodyl.len() == table.body@.len(),
            out@ == header + lines_text(bodyl.subrange(0, i as int)),
        decreases table.body@.len() - i,
    {
        crate::doc::push_line_bytes(&mut out, &table.body[i]);
        out.push(10);
        proof {
            assert(bodyl[i as int] == line_text(table.body@[i as int]@));
            crate::doc::lemma_lines_text_push(bodyl.subrange(0, i as int), bodyl[i as int]);
            assert(bodyl.subrange(0, i + 1) =~= bodyl.subrange(0, i as int).push(
                bodyl[i as int],
            ));
            assert(out@ =~= header + lines_text(bodyl.subrange(0, i + 1)));
        }
        i = i + 1;
    }
    proof {
        assert(bodyl.subrange(0, bodyl.len() as int) =~= bodyl);
        assert(out@ =~= rendered_table(table@));
    }
    Ok(out)
}

/// The given bytes wrapped in double quotes.
fn quoted_bytes(s: &[u8]) -> (r: Vec<u8>)
    ensures
        r@ == seq![34u8] + s@ + seq![34u8],
{
    let mut r: Vec<u8> = Vec::new();
    r.push(34);
    crate::doc::push_bytes(&mut r, s);
    r.push(34);
    proof {
        assert(r@ =~= seq![34u8] + s@ + seq![34u8]);
    }
    r
}

} // verus!
