//! The document model: a line-oriented, byte-exact representation of a
//! TOML-style configuration file.
//!
//! A document is a sequence of lines.  Lines before the first table header
//! form the prelude; each `[[name]]` header opens a table entry whose body
//! runs to the next header.  Every line stores its bytes split into the
//! parts the engine cares about (leading whitespace, key, separator, value
//! text, trailing comment), so that serialization reproduces the source
//! byte for byte and an update can rewrite one value while every other
//! byte stands untouched.

use vstd::prelude::*;

use crate::bytes::{
    all_key_bytes, all_str_bytes, all_ws, is_digit, is_ws, no_newline, scan_while,
};
use crate::num::{
    digits_val, int_text, lemma_nat_digits, lemma_nat_digits_len, lemma_pow10_19, nat_digits,
};

verus! {

// --- values --------------------------------------------------------------

/// A plain value of a field: an integer or a string.
pub enum Value {
    Int(i64),
    Str(Vec<u8>),
}

/// Mathematical mirror of [`Value`].
#[verifier::ext_equal]
pub enum ValueV {
    Int(int),
    Str(Seq<u8>),
}

impl View for Value {
    type V = ValueV;

    open spec fn view(&self) -> ValueV {
        match self {
            Value::Int(n) => ValueV::Int(*n as int),
            Value::Str(s) => ValueV::Str(s@),
        }
    }
}

// --- lines ---------------------------------------------------------------

/// A `key = value` line, split into its exact byte parts.
pub struct FieldLine {
    /// Whitespace before the key.
    pub pre: Vec<u8>,
    /// The bare key.
    pub key: Vec<u8>,
    /// The separator: whitespace, `=`, whitespace, exactly as written.
    pub eq: Vec<u8>,
    /// The exact text of the value.
    pub val_text: Vec<u8>,
    /// The value the text denotes.
    pub value: Value,
    /// Everything after the value: whitespace and an optional comment.
    pub post: Vec<u8>,
}

/// Mathematical mirror of [`FieldLine`].
#[verifier::ext_equal]
pub struct FieldV {
    pub pre: Seq<u8>,
    pub key: Seq<u8>,
    pub eq: Seq<u8>,
    pub val_text: Seq<u8>,
    pub value: ValueV,
    pub post: Seq<u8>,
}

impl View for FieldLine {
    type V = FieldV;

    open spec fn view(&self) -> FieldV {
        FieldV {
            pre: self.pre@,
            key: self.key@,
            eq: self.eq@,
            val_text: self.val_text@,
            value: self.value@,
            post: self.post@,
        }
    }
}

/// One line of a table body or of the prelude.
pub enum Line {
    /// A blank line or a full-line comment, kept verbatim.
    Trivia(Vec<u8>),
    /// A `key = value` line.
    Field(FieldLine),
}

/// Mathematical mirror of [`Line`].
#[verifier::ext_equal]
pub enum LineV {
    Trivia(Seq<u8>),
    Field(FieldV),
}

impl View for Line {
    type V = LineV;

    open spec fn view(&self) -> LineV {
        match self {
            Line::Trivia(s) => LineV::Trivia(s@),
            Line::Field(f) => LineV::Field(f@),
        }
    }
}

// --- tables and documents ------------------------------------------------

/// A `[[name]]` block: the header line and the body lines that follow it
/// up to the next header.
pub struct TableEntry {
    /// Whitespace before `[[`.
    pub header_pre: Vec<u8>,
    /// The bare name between the double brackets.
    pub name: Vec<u8>,
    /// Everything after `]]`: whitespace and an optional comment.
    pub header_post: Vec<u8>,
    /// The body lines of the block.
    pub body: Vec<Line>,
}

/// Mathematical mirror of [`TableEntry`].
#[verifier::ext_equal]
pub struct TableV {
    pub header_pre: Seq<u8>,
    pub name: Seq<u8>,
    pub header_post: Seq<u8>,
    pub body: Seq<LineV>,
}

impl View for TableEntry {
    type V = TableV;

    open spec fn view(&self) -> TableV {
        TableV {
            header_pre: self.header_pre@,
            name: self.name@,
            header_post: self.header_post@,
            body: self.body@.map_values(|l: Line| l@),
        }
    }
}

/// A whole parsed document.
pub struct Document {
    /// Lines before the first table header.
    pub prelude: Vec<Line>,
    /// The table blocks, in document order.
    pub tables: Vec<TableEntry>,
    /// Whether the source text ended with a line feed.
    pub ends_with_newline: bool,
}

/// Mathematical mirror of [`Document`].
#[verifier::ext_equal]
pub struct DocumentV {
    pub prelude: Seq<LineV>,
    pub tables: Seq<TableV>,
    pub ends_with_newline: bool,
}

impl View for Document {
    type V = DocumentV;

    open spec fn view(&self) -> DocumentV {
        DocumentV {
            prelude: self.prelude@.map_values(|l: Line| l@),
            tables: self.tables@.map_values(|t: TableEntry| t@),
            ends_with_newline: self.ends_with_newline,
        }
    }
}

// --- well-formedness -----------------------------------------------------

/// Trailing text of a line: whitespace, then either the end of the line or
/// a `#` comment running to the end.  Also the shape of a whole trivia line.
pub open spec fn trailing_ok(s: Seq<u8>) -> bool {
    no_newline(s) && {
        let k = scan_while(s, 0, |b: u8| is_ws(b));
        k == s.len() || s[k] == 35
    }
}

/// The separator of a field line: whitespace, one `=`, whitespace.
pub open spec fn eq_sep_ok(s: Seq<u8>) -> bool {
    let k = scan_while(s, 0, |b: u8| is_ws(b));
    k < s.len() && s[k] == 61 && all_ws(s.subrange(k + 1, s.len() as int))
}

/// Every byte of `s` is a decimal digit.
pub open spec fn all_digits(s: Seq<u8>) -> bool {
    forall|i: int| 0 <= i < s.len() ==> is_digit(s[i])
}

/// `s` is a decimal integer literal denoting `v`: an optional minus sign,
/// then one to nineteen digits, with the value in the 64-bit signed range.
pub open spec fn int_lit_ok(s: Seq<u8>, v: int) -> bool {
    &&& s.len() >= 1
    &&& if s[0] == 45 {
        let digits = s.subrange(1, s.len() as int);
        &&& s.len() >= 2
        &&& s.len() <= 20
        &&& all_digits(digits)
        &&& v == -digits_val(digits)
        &&& v >= i64::MIN
    } else {
        &&& s.len() <= 19
        &&& all_digits(s)
        &&& v == digits_val(s)
        &&& v <= i64::MAX
    }
}

/// The value text of a field denotes its value: either an integer literal
/// or a quoted string around bytes that need no escaping.
pub open spec fn value_ok(val_text: Seq<u8>, v: ValueV) -> bool {
    match v {
        ValueV::Int(n) => int_lit_ok(val_text, n),
        ValueV::Str(c) => val_text == seq![34u8] + c + seq![34u8] && all_str_bytes(c),
    }
}

/// A field line is well formed: each part has the shape its place demands.
pub open spec fn field_wf(f: FieldV) -> bool {
    &&& all_ws(f.pre)
    &&& f.key.len() >= 1
    &&& all_key_bytes(f.key)
    &&& eq_sep_ok(f.eq)
    &&& value_ok(f.val_text, f.value)
    &&& trailing_ok(f.post)
}

/// A body or prelude line is well formed.
pub open spec fn line_wf(l: LineV) -> bool {
    match l {
        LineV::Trivia(s) => trailing_ok(s),
        LineV::Field(f) => field_wf(f),
    }
}

/// A table block is well formed: a proper header and well-formed body lines.
pub open spec fn table_wf(t: TableV) -> bool {
    &&& all_ws(t.header_pre)
    &&& t.name.len() >= 1
    &&& all_key_bytes(t.name)
    &&& trailing_ok(t.header_post)
    &&& forall|i: int| 0 <= i < t.body.len() ==> line_wf(#[trigger] t.body[i])
}

/// A document is well formed: every line of it is.
pub open spec fn doc_wf(d: DocumentV) -> bool {
    &&& forall|i: int| 0 <= i < d.prelude.len() ==> line_wf(#[trigger] d.prelude[i])
    &&& forall|i: int| 0 <= i < d.tables.len() ==> table_wf(#[trigger] d.tables[i])
}

// --- text ----------------------------------------------------------------

/// The bytes of a field line, without the terminator.
pub open spec fn field_text(f: FieldV) -> Seq<u8> {
    f.pre + f.key + f.eq + f.val_text + f.post
}

/// The bytes of a body or prelude line, without the terminator.
pub open spec fn line_text(l: LineV) -> Seq<u8> {
    match l {
        LineV::Trivia(s) => s,
        LineV::Field(f) => field_text(f),
    }
}

/// The bytes of a table header line, without the terminator.
pub open spec fn header_text(t: TableV) -> Seq<u8> {
    t.header_pre + seq![91u8, 91u8] + t.name + seq![93u8, 93u8] + t.header_post
}

/// The lines of a table block: its header, then its body.
pub open spec fn table_lines(t: TableV) -> Seq<Seq<u8>> {
    seq![header_text(t)] + t.body.map_values(|l: LineV| line_text(l))
}

/// The lines of a run of table blocks, in order.
pub open spec fn tables_lines(ts: Seq<TableV>) -> Seq<Seq<u8>>
    decreases ts.len(),
{
    if ts.len() == 0 {
        Seq::empty()
    } else {
        tables_lines(ts.drop_last()) + table_lines(ts.last())
    }
}

/// All lines of a document, in order.
pub open spec fn doc_lines(d: DocumentV) -> Seq<Seq<u8>> {
    d.prelude.map_values(|l: LineV| line_text(l)) + tables_lines(d.tables)
}

/// The bytes of a run of lines, each followed by a line feed.
pub open spec fn lines_text(ls: Seq<Seq<u8>>) -> Seq<u8>
    decreases ls.len(),
{
    if ls.len() == 0 {
        Seq::empty()
    } else {
        lines_text(ls.drop_last()) + ls.last() + seq![10u8]
    }
}

/// The serialized bytes of a document: its lines, each terminated by a
/// line feed, except that the final line feed is absent when the source
/// text did not end with one.
pub open spec fn doc_text(d: DocumentV) -> Seq<u8> {
    let t = lines_text(doc_lines(d));
    if doc_lines(d).len() == 0 {
        Seq::empty()
    } else if d.ends_with_newline {
        t
    } else {
        t.drop_last()
    }
}

// --- lemmas about line runs ----------------------------------------------

/// Appending one line appends its bytes and a line feed.
pub proof fn lemma_lines_text_push(ls: Seq<Seq<u8>>, l: Seq<u8>)
    ensures
        lines_text(ls.push(l)) == lines_text(ls) + l + seq![10u8],
{
    assert(ls.push(l).drop_last() =~= ls);
    assert(ls.push(l).last() =~= l);
}

/// A single line serializes to its bytes and a line feed.
pub proof fn lemma_lines_text_single(l: Seq<u8>)
    ensures
        lines_text(seq![l]) == l + seq![10u8],
{
    let ls = seq![l];
    assert(ls.drop_last() =~= Seq::<Seq<u8>>::empty());
    assert(lines_text(Seq::<Seq<u8>>::empty()) =~= Seq::<u8>::empty());
    assert(lines_text(ls) == lines_text(ls.drop_last()) + l + seq![10u8]);
    assert(Seq::<u8>::empty() + l + seq![10u8] =~= l + seq![10u8]);
}

/// The bytes of concatenated line runs are the concatenated bytes.
pub proof fn lemma_lines_text_concat(a: Seq<Seq<u8>>, b: Seq<Seq<u8>>)
    ensures
        lines_text(a + b) == lines_text(a) + lines_text(b),
    decreases b.len(),
{
    if b.len() == 0 {
        assert(a + b =~= a);
        assert(lines_text(a) + lines_text(b) =~= lines_text(a));
    } else {
        lemma_lines_text_concat(a, b.drop_last());
        assert((a + b).drop_last() =~= a + b.drop_last());
        assert((a + b).last() == b.last());
        assert(lines_text(a) + (lines_text(b.drop_last()) + b.last() + seq![10u8]) =~= (lines_text(
            a,
        ) + lines_text(b.drop_last())) + b.last() + seq![10u8]);
    }
}

/// A non-empty run of lines serializes to at least one byte, the last of
/// which is a line feed.
pub proof fn lemma_lines_text_last(ls: Seq<Seq<u8>>)
    requires
        ls.len() > 0,
    ensures
        lines_text(ls).len() > 0,
        lines_text(ls).last() == 10u8,
{
}

/// Appending one table block appends its lines.
pub proof fn lemma_tables_lines_push(ts: Seq<TableV>, t: TableV)
    ensures
        tables_lines(ts.push(t)) == tables_lines(ts) + table_lines(t),
{
    assert(ts.push(t).drop_last() =~= ts);
}

// --- canonical parts ------------------------------------------------------

/// The canonical separator written into newly created fields: one space,
/// `=`, one space.
pub open spec fn canon_eq_sep() -> Seq<u8> {
    seq![32u8, 61u8, 32u8]
}

/// The canonical field line for an integer value: no leading whitespace,
/// the plain separator, the canonical digits, nothing after.
pub open spec fn canon_int_field(key: Seq<u8>, n: int) -> FieldV {
    FieldV {
        pre: Seq::empty(),
        key: key,
        eq: canon_eq_sep(),
        val_text: int_text(n),
        value: ValueV::Int(n),
        post: Seq::empty(),
    }
}

/// The canonical field line for a string value.
pub open spec fn canon_str_field(key: Seq<u8>, c: Seq<u8>) -> FieldV {
    FieldV {
        pre: Seq::empty(),
        key: key,
        eq: canon_eq_sep(),
        val_text: seq![34u8] + c + seq![34u8],
        value: ValueV::Str(c),
        post: Seq::empty(),
    }
}

/// The canonical separator is a well-formed separator.
pub proof fn lemma_canon_eq_sep_ok()
    ensures
        eq_sep_ok(canon_eq_sep()),
{
    let s = canon_eq_sep();
    let p = |b: u8| is_ws(b);
    assert(scan_while(s, 0, p) == 1) by {
        assert(p(s[0]));
        assert(!p(s[1]));
        assert(scan_while(s, 1, p) == 1);
    }
    assert(all_ws(s.subrange(2, 3))) by {
        assert(s.subrange(2, 3)[0] == 32u8);
    }
}

/// The empty sequence is a well-formed trailing part.
pub proof fn lemma_empty_trailing_ok()
    ensures
        trailing_ok(Seq::<u8>::empty()),
        all_ws(Seq::<u8>::empty()),
{
    let s = Seq::<u8>::empty();
    assert(scan_while(s, 0, |b: u8| is_ws(b)) == 0);
}

/// The canonical digits of a 64-bit value form a valid integer literal.
pub proof fn lemma_int_text_ok(n: int)
    requires
        i64::MIN <= n <= i64::MAX,
    ensures
        int_lit_ok(int_text(n), n),
{
    lemma_pow10_19();
    if n < 0 {
        lemma_nat_digits(-n);
        lemma_nat_digits_len(-n, 19);
        let s = int_text(n);
        assert(s[0] == 45);
        assert(s.subrange(1, s.len() as int) =~= nat_digits(-n));
    } else {
        lemma_nat_digits(n);
        lemma_nat_digits_len(n, 19);
        let s = int_text(n);
        assert(s =~= nat_digits(n));
        assert(s[0] != 45) by {
            assert(is_digit(nat_digits(n)[0]));
        }
    }
}

/// A canonical integer field is well formed.
pub proof fn lemma_canon_int_field_wf(key: Seq<u8>, n: int)
    requires
        key.len() >= 1,
        all_key_bytes(key),
        i64::MIN <= n <= i64::MAX,
    ensures
        field_wf(canon_int_field(key, n)),
{
    lemma_canon_eq_sep_ok();
    lemma_empty_trailing_ok();
    lemma_int_text_ok(n);
}

/// A canonical string field is well formed.
pub proof fn lemma_canon_str_field_wf(key: Seq<u8>, c: Seq<u8>)
    requires
        key.len() >= 1,
        all_key_bytes(key),
        all_str_bytes(c),
    ensures
        field_wf(canon_str_field(key, c)),
{
    lemma_canon_eq_sep_ok();
    lemma_empty_trailing_ok();
}

// --- serialization --------------------------------------------------------

/// Append all of `s` to `out`.
pub(crate) fn push_bytes(out: &mut Vec<u8>, s: &[u8])
    ensures
        final(out)@ == old(out)@ + s@,
{
    let mut i: usize = 0;
    while i < s.len()
        invariant
            i <= s@.len(),
            out@ == old(out)@ + s@.subrange(0, i as int),
        decreases s@.len() - i,
    {
        proof {
            assert(s@.subrange(0, i + 1) =~= s@.subrange(0, i as int).push(s@[i as int]));
            assert(old(out)@ + s@.subrange(0, i + 1) =~= (old(out)@ + s@.subrange(0, i as int)).push(
                s@[i as int],
            ));
        }
        out.push(s[i]);
        i = i + 1;
    }
    proof {
        assert(s@.subrange(0, s@.len() as int) =~= s@);
    }
}

/// Append the bytes of one line (without terminator) to `out`.
pub(crate) fn push_line_bytes(out: &mut Vec<u8>, l: &Line)
    ensures
        final(out)@ == old(out)@ + line_text(l@),
{
    match l {
        Line::Trivia(s) => {
            push_bytes(out, s.as_slice());
        },
        Line::Field(f) => {
            push_bytes(out, f.pre.as_slice());
            push_bytes(out, f.key.as_slice());
            push_bytes(out, f.eq.as_slice());
            push_bytes(out, f.val_text.as_slice());
            push_bytes(out, f.post.as_slice());
            proof {
                assert(out@ =~= old(out)@ + field_text(f@));
            }
        },
    }
}

/// Append the header line bytes of a table (without terminator) to `out`.
fn push_header_bytes(out: &mut Vec<u8>, t: &TableEntry)
    ensures
        final(out)@ == old(out)@ + header_text(t@),
{
    push_bytes(out, t.header_pre.as_slice());
    out.push(91);
    out.push(91);
    push_bytes(out, t.name.as_slice());
    out.push(93);
    out.push(93);
    push_bytes(out, t.header_post.as_slice());
    proof {
        assert(out@ =~= old(out)@ + header_text(t@));
    }
}

/// Append the lines of a table block, each terminated, to `out`.
fn push_table_lines(out: &mut Vec<u8>, t: &TableEntry)
    ensures
        final(out)@ == old(out)@ + lines_text(table_lines(t@)),
{
    push_header_bytes(out, t);
    out.push(10);
    let ghost bodyl = t@.body.map_values(|l: LineV| line_text(l));
    proof {
        lemma_lines_text_single(header_text(t@));
        assert(out@ =~= old(out)@ + lines_text(seq![header_text(t@)] + bodyl.subrange(0, 0))) by {
            assert(seq![header_text(t@)] + bodyl.subrange(0, 0) =~= seq![header_text(t@)]);
            assert(out@ =~= old(out)@ + (header_text(t@) + seq![10u8]));
        }
    }
    let mut i: usize = 0;
    while i < t.body.len()
        invariant
            i <= t.body@.len(),
            bodyl == t@.body.map_values(|l: LineV| line_text(l)),
            bodyl.len() == t.body@.len(),
            out@ == old(out)@ + lines_text(seq![header_text(t@)] + bodyl.subrange(0, i as int)),
        decreases t.body@.len() - i,
    {
        push_line_bytes(out, &t.body[i]);
        out.push(10);
        proof {
            let pref = seq![header_text(t@)] + bodyl.subrange(0, i as int);
            assert(bodyl[i as int] == line_text(t.body@[i as int]@));
            lemma_lines_text_push(pref, bodyl[i as int]);
            assert(seq![header_text(t@)] + bodyl.subrange(0, i + 1) =~= pref.push(
                bodyl[i as int],
            ));
            assert(out@ =~= old(out)@ + lines_text(pref.push(bodyl[i as int])));
        }
        i = i + 1;
    }
    proof {
        assert(bodyl.subrange(0, bodyl.len() as int) =~= bodyl);
        assert(table_lines(t@) =~= seq![header_text(t@)] + bodyl);
    }
}

/// Serialize a document back to bytes.
///
/// The result is exactly [`doc_text`] of the document's view: every kept
/// line reappears byte for byte.
pub fn serialize(d: &Document) -> (r: Vec<u8>)
    ensures
        r@ == doc_text(d@),
{
    let mut out: Vec<u8> = Vec::new();
    let ghost prel = d@.prelude.map_values(|l: LineV| line_text(l));
    let mut i: usize = 0;
    proof {
        assert(prel.subrange(0, 0) =~= Seq::<Seq<u8>>::empty());
    }
    while i < d.prelude.len()
        invariant
            i <= d.prelude@.len(),
            prel == d@.prelude.map_values(|l: LineV| line_text(l)),
            prel.len() == d.prelude@.len(),
            out@ == lines_text(prel.subrange(0, i as int)),
        decreases d.prelude@.len() - i,
    {
        push_line_bytes(&mut out, &d.prelude[i]);
        out.push(10);
        proof {
            assert(prel[i as int] == line_text(d.prelude@[i as int]@));
            lemma_lines_text_push(prel.subrange(0, i as int), prel[i as int]);
            assert(prel.subrange(0, i + 1) =~= prel.subrange(0, i as int).push(prel[i as int]));
        }
        i = i + 1;
    }
    proof {
        assert(prel.subrange(0, prel.len() as int) =~= prel);
    }
    let mut j: usize = 0;
    proof {
        assert(d@.tables.subrange(0, 0) =~= Seq::<TableV>::empty());
        assert(prel + tables_lines(d@.tables.subrange(0, 0)) =~= prel);
    }
    while j < d.tables.len()
        invariant
            j <= d.tables@.len(),
            prel == d@.prelude.map_values(|l: LineV| line_text(l)),
            out@ == lines_text(prel + tables_lines(d@.tables.subrange(0, j as int))),
        decreases d.tables@.len() - j,
    {
        push_table_lines(&mut out, &d.tables[j]);
        proof {
            let ts = d@.tables.subrange(0, j as int);
            assert(d@.tables[j as int] == d.tables@[j as int]@);
            lemma_tables_lines_push(ts, d@.tables[j as int]);
            assert(d@.tables.subrange(0, j + 1) =~= ts.push(d@.tables[j as int]));
            lemma_lines_text_concat(prel + tables_lines(ts), table_lines(d@.tables[j as int]));
            assert(prel + tables_lines(ts.push(d@.tables[j as int])) =~= (prel + tables_lines(ts))
                + table_lines(d@.tables[j as int]));
            lemma_lines_text_concat(prel, tables_lines(ts.push(d@.tables[j as int])));
            lemma_lines_text_concat(prel, tables_lines(ts));
        }
        j = j + 1;
    }
    proof {
        if d.tables@.len() == 0 {
            assert(d@.tables.subrange(0, 0) =~= d@.tables);
        } else {
            assert(d@.tables.subrange(0, d@.tables.len() as int) =~= d@.tables);
        }
        assert(out@ == lines_text(doc_lines(d@)));
    }
    if !d.ends_with_newline && out.len() > 0 {
        out.pop();
        proof {
            assert(doc_lines(d@).len() > 0) by {
                if doc_lines(d@).len() == 0 {
                    assert(lines_text(doc_lines(d@)).len() == 0);
                }
            }
            assert(out@ =~= doc_text(d@));
        }
    } else {
        proof {
            if out@.len() == 0 {
                if doc_lines(d@).len() > 0 {
                    lemma_lines_text_last(doc_lines(d@));
                }
                assert(out@ =~= doc_text(d@));
            }
        }
    }
    out
}

} // verus!
