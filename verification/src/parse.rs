//! The document parser: splits text into lines, classifies each line, and
//! groups the lines into a [`Document`].
//!
//! Parsing is deterministic and total: a text is either accepted, in which
//! case the resulting document serializes back to the input byte for byte,
//! or rejected with a schema error.  The grammar is line-oriented: every
//! line is blank, a comment, a `[[name]]` header, or a `key = value` line
//! whose value is a quoted string without escapes or a decimal integer in
//! the 64-bit signed range.

use vstd::prelude::*;

use crate::bytes::{
    is_digit, is_key_byte, is_str_byte, is_ws, lemma_scan_while, lemma_scan_while_shift,
    no_newline, scan_digits, scan_key, scan_str, scan_to_newline, scan_while, scan_ws,
};
use crate::doc::{
    doc_lines, doc_text, doc_wf, field_text, field_wf, header_text, line_text, line_wf,
    lines_text, table_lines, table_wf, tables_lines, Document, DocumentV, FieldLine, FieldV, Line,
    LineV, TableEntry, TableV, Value, ValueV,
};
use crate::errors::UpNextError;
use crate::num::digits_val;

verus! {

// --- splitting text into lines -------------------------------------------

/// The lines of a text, split at every line feed.  A trailing line feed
/// produces no empty final line; the text `""` has no lines at all.
pub open spec fn split_lines(t: Seq<u8>) -> Seq<Seq<u8>>
    decreases t.len(),
{
    if t.len() == 0 {
        Seq::empty()
    } else if t[0] == 10 {
        seq![Seq::<u8>::empty()] + split_lines(t.skip(1))
    } else {
        let rest = split_lines(t.skip(1));
        if rest.len() == 0 {
            seq![seq![t[0]]]
        } else {
            seq![seq![t[0]] + rest[0]] + rest.skip(1)
        }
    }
}

/// The text ends with a line feed.
pub open spec fn ends_newline(t: Seq<u8>) -> bool {
    t.len() > 0 && t.last() == 10
}

/// Joining lines with terminators, minus a final terminator where the
/// source had none, is how a document's text is put back together.
pub open spec fn join_lines(ls: Seq<Seq<u8>>, terminated: bool) -> Seq<u8> {
    if ls.len() == 0 {
        Seq::empty()
    } else if terminated {
        lines_text(ls)
    } else {
        lines_text(ls).drop_last()
    }
}

/// A non-empty text has at least one line.
pub proof fn lemma_split_lines_count(t: Seq<u8>)
    ensures
        t.len() == 0 <==> split_lines(t).len() == 0,
    decreases t.len(),
{
    if t.len() > 0 && t[0] != 10 {
        lemma_split_lines_count(t.skip(1));
    }
}

/// No line of a split holds a line feed.
pub proof fn lemma_split_lines_no_newline(t: Seq<u8>)
    ensures
        forall|i: int|
            0 <= i < split_lines(t).len() ==> no_newline(#[trigger] split_lines(t)[i]),
    decreases t.len(),
{
    if t.len() == 0 {
    } else if t[0] == 10 {
        lemma_split_lines_no_newline(t.skip(1));
        assert forall|i: int| 0 <= i < split_lines(t).len() implies no_newline(
            #[trigger] split_lines(t)[i],
        ) by {
            if i > 0 {
                assert(split_lines(t)[i] == split_lines(t.skip(1))[i - 1]);
            }
        }
    } else {
        lemma_split_lines_no_newline(t.skip(1));
        let rest = split_lines(t.skip(1));
        if rest.len() == 0 {
            assert forall|i: int| 0 <= i < split_lines(t).len() implies no_newline(
                #[trigger] split_lines(t)[i],
            ) by {
                assert(split_lines(t)[0] =~= seq![t[0]]);
            }
        } else {
            assert forall|i: int| 0 <= i < split_lines(t).len() implies no_newline(
                #[trigger] split_lines(t)[i],
            ) by {
                if i == 0 {
                    assert(split_lines(t)[0] == seq![t[0]] + rest[0]);
                    assert(no_newline(rest[0]));
                    assert forall|j: int|
                        0 <= j < (seq![t[0]] + rest[0]).len() implies (seq![t[0]] + rest[0])[j]
                        != 10 by {
                        if j > 0 {
                            assert((seq![t[0]] + rest[0])[j] == rest[0][j - 1]);
                        }
                    }
                } else {
                    assert(split_lines(t)[i] == rest.skip(1)[i - 1]);
                    assert(rest.skip(1)[i - 1] == rest[i]);
                }
            }
        }
    }
}

/// Splitting and rejoining is the identity on any text.
pub proof fn lemma_split_join(t: Seq<u8>)
    ensures
        join_lines(split_lines(t), ends_newline(t)) == t,
    decreases t.len(),
{
    crate::doc::lemma_lines_text_single(Seq::<u8>::empty());
    if t.len() == 0 {
        assert(join_lines(split_lines(t), ends_newline(t)) =~= t);
    } else if t.len() == 1 {
        if t[0] == 10 {
            assert(t.skip(1) =~= Seq::<u8>::empty());
            assert(split_lines(Seq::<u8>::empty()) =~= Seq::<Seq<u8>>::empty());
            assert(split_lines(t) =~= seq![Seq::<u8>::empty()]);
            crate::doc::lemma_lines_text_single(Seq::<u8>::empty());
            assert(join_lines(split_lines(t), true) =~= t);
        } else {
            assert(split_lines(t) =~= seq![seq![t[0]]]) by {
                assert(t.skip(1) =~= Seq::<u8>::empty());
                assert(split_lines(Seq::<u8>::empty()) =~= Seq::<Seq<u8>>::empty());
            }
            crate::doc::lemma_lines_text_single(seq![t[0]]);
            assert(lines_text(split_lines(t)) =~= seq![t[0], 10u8]);
            assert(join_lines(split_lines(t), false) =~= t);
        }
    } else {
        let u = t.skip(1);
        lemma_split_join(u);
        lemma_split_lines_count(u);
        assert(ends_newline(t) == ends_newline(u)) by {
            assert(t.last() == u.last());
        }
        let rest = split_lines(u);
        if t[0] == 10 {
            let ls = split_lines(t);
            assert(ls == seq![Seq::<u8>::empty()] + rest);
            crate::doc::lemma_lines_text_concat(seq![Seq::<u8>::empty()], rest);
            assert(lines_text(ls) == lines_text(seq![Seq::<u8>::empty()]) + lines_text(rest));
            assert(lines_text(ls) =~= seq![10u8] + lines_text(rest));
            if ends_newline(u) {
                assert(join_lines(ls, true) =~= seq![10u8] + join_lines(rest, true));
                assert(t =~= seq![10u8] + u);
            } else {
                crate::doc::lemma_lines_text_last(rest);
                assert(join_lines(ls, false) =~= (seq![10u8] + lines_text(rest)).drop_last());
                assert((seq![10u8] + lines_text(rest)).drop_last() =~= seq![10u8] + lines_text(
                    rest,
                ).drop_last());
                assert(t =~= seq![10u8] + u);
            }
        } else {
            let ls = split_lines(t);
            assert(rest.len() > 0);
            assert(ls == seq![seq![t[0]] + rest[0]] + rest.skip(1));
            assert(rest =~= seq![rest[0]] + rest.skip(1));
            crate::doc::lemma_lines_text_concat(seq![seq![t[0]] + rest[0]], rest.skip(1));
            crate::doc::lemma_lines_text_concat(seq![rest[0]], rest.skip(1));
            crate::doc::lemma_lines_text_single(seq![t[0]] + rest[0]);
            crate::doc::lemma_lines_text_single(rest[0]);
            assert(lines_text(ls) =~= seq![t[0]] + lines_text(rest)) by {
                assert(lines_text(ls) == (seq![t[0]] + rest[0] + seq![10u8]) + lines_text(
                    rest.skip(1),
                ));
                assert(lines_text(rest) == (rest[0] + seq![10u8]) + lines_text(rest.skip(1)));
            }
            assert(t =~= seq![t[0]] + u);
            if ends_newline(u) {
                assert(join_lines(ls, true) =~= seq![t[0]] + join_lines(rest, true));
            } else {
                crate::doc::lemma_lines_text_last(rest);
                assert(join_lines(ls, false) =~= (seq![t[0]] + lines_text(rest)).drop_last());
                assert((seq![t[0]] + lines_text(rest)).drop_last() =~= seq![t[0]] + lines_text(
                    rest,
                ).drop_last());
            }
        }
    }
}

/// How a split advances over one whole line: when the first line feed of
/// `t` stands at `k`, the first line is `t` up to `k` and the remaining
/// lines are the split of what follows it.
pub proof fn lemma_split_lines_chunk(t: Seq<u8>)
    requires
        t.len() > 0,
    ensures
        ({
            let k = scan_while(t, 0, |b: u8| b != 10);
            if k == t.len() {
                split_lines(t) == seq![t]
            } else {
                split_lines(t) == seq![t.take(k)] + split_lines(t.skip(k + 1))
            }
        }),
    decreases t.len(),
{
    let p = |b: u8| b != 10;
    let k = scan_while(t, 0, p);
    lemma_scan_while(t, 0, p);
    if t[0] == 10 {
        assert(k == 0);
        assert(t.take(0) =~= Seq::<u8>::empty());
    } else {
        let u = t.skip(1);
        assert(k >= 1);
        let ku = scan_while(u, 0, p);
        assert(ku == k - 1) by {
            lemma_scan_while(u, 0, p);
            assert(forall|j: int| 0 <= j < u.len() ==> u[j] == t[j + 1]);
            if ku < k - 1 {
                assert(p(u[ku]));
            }
            if ku > k - 1 {
                assert(k < t.len());
                assert(!p(u[k - 1]));
            }
        }
        if t.len() == 1 {
            assert(k == 1);
            assert(split_lines(t) =~= seq![seq![t[0]]]) by {
                assert(u =~= Seq::<u8>::empty());
                assert(split_lines(Seq::<u8>::empty()) =~= Seq::<Seq<u8>>::empty());
            }
            assert(t.take(1) =~= seq![t[0]]);
            assert(split_lines(t) == seq![t]) by {
                assert(t =~= seq![t[0]]);
            }
        } else {
            lemma_split_lines_chunk(u);
            lemma_split_lines_count(u);
            let rest = split_lines(u);
            if k == t.len() {
                assert(ku == u.len());
                assert(rest == seq![u]);
                assert(split_lines(t) =~= seq![seq![t[0]] + u]);
                assert(seq![t[0]] + u =~= t);
            } else {
                assert(ku < u.len());
                assert(rest == seq![u.take(ku)] + split_lines(u.skip(ku + 1)));
                assert(rest.len() > 0);
                assert(rest[0] == u.take(ku));
                assert(split_lines(t) == seq![seq![t[0]] + rest[0]] + rest.skip(1));
                assert(seq![t[0]] + u.take(ku) =~= t.take(k));
                assert(rest.skip(1) =~= split_lines(u.skip(ku + 1))) by {
                    assert(forall|j: int|
                        0 <= j < rest.skip(1).len() ==> rest.skip(1)[j] == #[trigger] rest[j + 1]);
                }
                assert(u.skip(ku + 1) =~= t.skip(k + 1));
                assert(split_lines(t) == seq![t.take(k)] + split_lines(t.skip(k + 1)));
            }
        }
    }
}

/// Split a text into its lines.
pub fn split_text(t: &[u8]) -> (r: Vec<Vec<u8>>)
    ensures
        r@.map_values(|l: Vec<u8>| l@) == split_lines(t@),
{
    let mut out: Vec<Vec<u8>> = Vec::new();
    let mut pos: usize = 0;
    proof {
        assert(out@.map_values(|l: Vec<u8>| l@) =~= Seq::<Seq<u8>>::empty());
        assert(t@.skip(0) =~= t@);
    }
    while pos < t.len()
        invariant
            pos <= t@.len(),
            split_lines(t@) == out@.map_values(|l: Vec<u8>| l@) + split_lines(t@.skip(pos as int)),
        decreases t@.len() - pos,
    {
        let rest = &t[pos..t.len()];
        proof {
            assert(rest@ =~= t@.skip(pos as int));
        }
        let k = scan_to_newline(rest, 0);
        proof {
            lemma_scan_while(rest@, 0, |b: u8| b != 10);
            lemma_split_lines_chunk(rest@);
        }
        let line = vstd::slice::slice_to_vec(&rest[0..k]);
        proof {
            assert(line@ =~= rest@.take(k as int));
        }
        let ghost m0 = out@.map_values(|l: Vec<u8>| l@);
        out.push(line);
        proof {
            assert(out@.map_values(|l: Vec<u8>| l@) =~= m0.push(line@));
        }
        if k == rest.len() {
            proof {
                assert(rest@.take(k as int) =~= rest@);
                assert(split_lines(rest@) == seq![rest@]);
            }
            pos = pos + rest.len();
            proof {
                assert(t@.skip(pos as int) =~= Seq::<u8>::empty());
                assert(m0 + seq![line@] =~= m0.push(line@));
                assert(split_lines(t@) =~= m0.push(line@) + split_lines(t@.skip(pos as int)));
            }
        } else {
            proof {
                assert(split_lines(rest@) == seq![rest@.take(k as int)] + split_lines(
                    rest@.skip(k + 1),
                ));
                assert(rest@.skip(k + 1) =~= t@.skip(pos + k + 1));
            }
            pos = pos + k + 1;
            proof {
                assert(m0 + (seq![line@] + split_lines(t@.skip(pos as int))) =~= m0.push(line@)
                    + split_lines(t@.skip(pos as int)));
            }
        }
    }
    proof {
        assert(t@.skip(pos as int) =~= Seq::<u8>::empty());
        assert(split_lines(t@) =~= out@.map_values(|l: Vec<u8>| l@));
    }
    out
}

// --- classifying one line -------------------------------------------------

/// The parts of a `[[name]]` header line.
pub struct HeaderParts {
    /// Whitespace before `[[`.
    pub pre: Vec<u8>,
    /// The bare name between the double brackets.
    pub name: Vec<u8>,
    /// Everything after `]]`.
    pub post: Vec<u8>,
}

/// Mathematical mirror of [`HeaderParts`].
#[verifier::ext_equal]
pub struct HeaderV {
    pub pre: Seq<u8>,
    pub name: Seq<u8>,
    pub post: Seq<u8>,
}

impl View for HeaderParts {
    type V = HeaderV;

    open spec fn view(&self) -> HeaderV {
        HeaderV { pre: self.pre@, name: self.name@, post: self.post@ }
    }
}

/// One classified line.
pub enum ParsedLine {
    Trivia(Vec<u8>),
    Header(HeaderParts),
    Field(FieldLine),
}

/// Mathematical mirror of [`ParsedLine`].
#[verifier::ext_equal]
pub enum ParsedLineV {
    Trivia(Seq<u8>),
    Header(HeaderV),
    Field(FieldV),
}

impl View for ParsedLine {
    type V = ParsedLineV;

    open spec fn view(&self) -> ParsedLineV {
        match self {
            ParsedLine::Trivia(s) => ParsedLineV::Trivia(s@),
            ParsedLine::Header(h) => ParsedLineV::Header(h@),
            ParsedLine::Field(f) => ParsedLineV::Field(f@),
        }
    }
}

/// The bytes of a header line rebuilt from its parts.
pub open spec fn header_line_text(h: HeaderV) -> Seq<u8> {
    h.pre + seq![91u8, 91u8] + h.name + seq![93u8, 93u8] + h.post
}

/// From position `i` to the end of the line there is only whitespace and
/// an optional comment.
pub open spec fn spec_trailing_at(s: Seq<u8>, i: int) -> bool {
    let k = scan_while(s, i, |b: u8| is_ws(b));
    k == s.len() || s[k] == 35
}

/// Parse a value starting at position `i`: a quoted string or a decimal
/// integer.  On success, the position just past the value and the value.
pub open spec fn parse_value_at(s: Seq<u8>, i: int) -> Option<(int, ValueV)> {
    if i < s.len() && s[i] == 34 {
        let e = scan_while(s, i + 1, |b: u8| is_str_byte(b));
        if e < s.len() && s[e] == 34 {
            Some((e + 1, ValueV::Str(s.subrange(i + 1, e))))
        } else {
            None
        }
    } else if i < s.len() && (s[i] == 45 || is_digit(s[i])) {
        let j = if s[i] == 45 {
            i + 1
        } else {
            i
        };
        let k = scan_while(s, j, |b: u8| is_digit(b));
        if k == j || k - j > 19 {
            None
        } else {
            let m = digits_val(s.subrange(j, k));
            if s[i] == 45 {
                if m <= 9223372036854775808 {
                    Some((k, ValueV::Int(-m)))
                } else {
                    None
                }
            } else {
                if m <= 9223372036854775807 {
                    Some((k, ValueV::Int(m)))
                } else {
                    None
                }
            }
        }
    } else {
        None
    }
}

/// Classify one line (without its terminator).  `None` means the line is
/// not part of the grammar.
pub open spec fn parse_line(s: Seq<u8>) -> Option<ParsedLineV> {
    let a = scan_while(s, 0, |b: u8| is_ws(b));
    if a == s.len() || s[a] == 35 {
        Some(ParsedLineV::Trivia(s))
    } else if s[a] == 91 {
        if a + 1 < s.len() && s[a + 1] == 91 {
            let b = scan_while(s, a + 2, |b: u8| is_key_byte(b));
            if b > a + 2 && b + 1 < s.len() && s[b] == 93 && s[b + 1] == 93 && spec_trailing_at(
                s,
                b + 2,
            ) {
                Some(
                    ParsedLineV::Header(
                        HeaderV {
                            pre: s.subrange(0, a),
                            name: s.subrange(a + 2, b),
                            post: s.subrange(b + 2, s.len() as int),
                        },
                    ),
                )
            } else {
                None
            }
        } else {
            None
        }
    } else {
        let b = scan_while(s, a, |b: u8| is_key_byte(b));
        if b == a {
            None
        } else {
            let c = scan_while(s, b, |b: u8| is_ws(b));
            if c < s.len() && s[c] == 61 {
                let d = scan_while(s, c + 1, |b: u8| is_ws(b));
                match parse_value_at(s, d) {
                    Some((e, v)) => if spec_trailing_at(s, e) {
                        Some(
                            ParsedLineV::Field(
                                FieldV {
                                    pre: s.subrange(0, a),
                                    key: s.subrange(a, b),
                                    eq: s.subrange(b, d),
                                    val_text: s.subrange(d, e),
                                    value: v,
                                    post: s.subrange(e, s.len() as int),
                                },
                            ),
                        )
                    } else {
                        None
                    },
                    None => None,
                }
            } else {
                None
            }
        }
    }
}

/// A suffix of a newline-free line whose trailing check passed is a
/// well-formed trailing part.
proof fn lemma_trailing_subrange(s: Seq<u8>, i: int)
    requires
        no_newline(s),
        0 <= i <= s.len(),
        spec_trailing_at(s, i),
    ensures
        crate::doc::trailing_ok(s.subrange(i, s.len() as int)),
{
    let p = |b: u8| is_ws(b);
    let sub = s.subrange(i, s.len() as int);
    let k = scan_while(s, i, p);
    lemma_scan_while(s, i, p);
    assert(forall|j: int| 0 <= j < sub.len() ==> sub[j] == s[i + j]);
    lemma_scan_while_shift(sub, 0, k - i, p);
    lemma_scan_while(sub, k - i, p);
    if k == s.len() {
        assert(scan_while(sub, k - i, p) == sub.len()) by {
            lemma_scan_while(sub, k - i, p);
        }
    } else {
        assert(!p(sub[k - i]));
        assert(scan_while(sub, k - i, p) == k - i);
    }
}

/// What a successful classification means for a newline-free line: the
/// parts reassemble to exactly the source bytes, and they are well formed.
pub proof fn lemma_parse_line_sound(s: Seq<u8>)
    requires
        no_newline(s),
        parse_line(s) is Some,
    ensures
        match parse_line(s).unwrap() {
            ParsedLineV::Trivia(tv) => tv == s && crate::doc::trailing_ok(s),
            ParsedLineV::Header(h) => {
                &&& header_line_text(h) == s
                &&& crate::bytes::all_ws(h.pre)
                &&& h.name.len() >= 1
                &&& crate::bytes::all_key_bytes(h.name)
                &&& crate::doc::trailing_ok(h.post)
            },
            ParsedLineV::Field(f) => field_text(f) == s && field_wf(f),
        },
{
    let pw = |b: u8| is_ws(b);
    let a = scan_while(s, 0, pw);
    lemma_scan_while(s, 0, pw);
    if a == s.len() || s[a] == 35 {
        lemma_trailing_subrange(s, 0);
        assert(s.subrange(0, s.len() as int) =~= s);
    } else if s[a] == 91 {
        let b = scan_while(s, a + 2, |b: u8| is_key_byte(b));
        lemma_scan_while(s, a + 2, |b: u8| is_key_byte(b));
        let h = parse_line(s).unwrap()->Header_0;
        assert(h.pre == s.subrange(0, a));
        assert(crate::bytes::all_ws(h.pre)) by {
            assert(forall|j: int| 0 <= j < a ==> h.pre[j] == s[j]);
        }
        assert(crate::bytes::all_key_bytes(h.name)) by {
            assert(forall|j: int| 0 <= j < b - (a + 2) ==> h.name[j] == s[a + 2 + j]);
        }
        lemma_trailing_subrange(s, b + 2);
        assert(header_line_text(h) =~= s) by {
            assert(forall|j: int| 0 <= j < s.len() ==> header_line_text(h)[j] == s[j]) by {
                assert(seq![91u8, 91u8][0] == 91u8);
                assert(seq![91u8, 91u8][1] == 91u8);
                assert(seq![93u8, 93u8][0] == 93u8);
                assert(seq![93u8, 93u8][1] == 93u8);
            }
        }
    } else {
        let pk = |b: u8| is_key_byte(b);
        let b = scan_while(s, a, pk);
        lemma_scan_while(s, a, pk);
        let c = scan_while(s, b, pw);
        lemma_scan_while(s, b, pw);
        let d = scan_while(s, c + 1, pw);
        lemma_scan_while(s, c + 1, pw);
        let f = parse_line(s).unwrap()->Field_0;
        let (e, v) = parse_value_at(s, d).unwrap();
        lemma_parse_value_sound(s, d);
        assert(crate::bytes::all_ws(f.pre)) by {
            assert(forall|j: int| 0 <= j < a ==> f.pre[j] == s[j]);
        }
        assert(crate::bytes::all_key_bytes(f.key)) by {
            assert(forall|j: int| 0 <= j < b - a ==> f.key[j] == s[a + j]);
        }
        assert(crate::doc::eq_sep_ok(f.eq)) by {
            let sub = s.subrange(b, d);
            assert(forall|j: int| 0 <= j < sub.len() ==> sub[j] == s[b + j]);
            lemma_scan_while_shift(sub, 0, c - b, pw);
            assert(scan_while(sub, c - b, pw) == c - b) by {
                assert(!pw(sub[c - b]));
            }
            assert(sub[c - b] == 61);
            assert(crate::bytes::all_ws(sub.subrange(c - b + 1, sub.len() as int))) by {
                let tail = sub.subrange(c - b + 1, sub.len() as int);
                assert(forall|j: int| 0 <= j < tail.len() ==> #[trigger] tail[j] == s[c + 1 + j]);
            }
        }
        lemma_trailing_subrange(s, e);
        assert(field_text(f) =~= s) by {
            assert(forall|j: int| 0 <= j < s.len() ==> field_text(f)[j] == s[j]);
        }
    }
}

/// Executable counterpart of [`spec_trailing_at`].
fn is_trailing_at(s: &[u8], i: usize) -> (r: bool)
    requires
        i <= s@.len(),
    ensures
        r == spec_trailing_at(s@, i as int),
{
    let k = scan_ws(s, i);
    proof {
        lemma_scan_while(s@, i as int, |b: u8| is_ws(b));
    }
    k == s.len() || s[k] == 35
}

/// Executable counterpart of [`parse_value_at`].
fn parse_value(s: &[u8], i: usize) -> (r: Option<(usize, Value)>)
    requires
        i <= s@.len(),
    ensures
        r is Some <==> parse_value_at(s@, i as int) is Some,
        r is Some ==> {
            let (e, v) = parse_value_at(s@, i as int).unwrap();
            r.unwrap().0 == e && r.unwrap().1@ == v
        },
        r is Some ==> i < r.unwrap().0 <= s@.len(),
{
    if i < s.len() && s[i] == 34 {
        let e = scan_str(s, i + 1);
        proof {
            lemma_scan_while(s@, i + 1, |b: u8| is_str_byte(b));
        }
        if e < s.len() && s[e] == 34 {
            let content = vstd::slice::slice_to_vec(&s[i + 1..e]);
            proof {
                assert(content@ =~= s@.subrange(i + 1, e as int));
            }
            Some((e + 1, Value::Str(content)))
        } else {
            None
        }
    } else if i < s.len() && (s[i] == 45 || (48 <= s[i] && s[i] <= 57)) {
        let neg = s[i] == 45;
        let j = if neg {
            i + 1
        } else {
            i
        };
        let k = scan_digits(s, j);
        proof {
            lemma_scan_while(s@, j as int, |b: u8| is_digit(b));
        }
        if k == j || k - j > 19 {
            None
        } else {
            let m = crate::num::digits_to_u64(s, j, k);
            if neg {
                if m <= 9223372036854775808 {
                    let value: i64 = if m == 9223372036854775808 {
                        i64::MIN
                    } else {
                        -(m as i64)
                    };
                    Some((k, Value::Int(value)))
                } else {
                    None
                }
            } else {
                if m <= 9223372036854775807 {
                    Some((k, Value::Int(m as i64)))
                } else {
                    None
                }
            }
        }
    } else {
        None
    }
}

/// Classify one line of the document.  `None` exactly where the grammar
/// rejects the line.
pub fn classify_line(s: &[u8]) -> (r: Option<ParsedLine>)
    ensures
        r is Some <==> parse_line(s@) is Some,
        r is Some ==> r.unwrap()@ == parse_line(s@).unwrap(),
{
    let a = scan_ws(s, 0);
    proof {
        lemma_scan_while(s@, 0, |b: u8| is_ws(b));
    }
    if a == s.len() || s[a] == 35 {
        let raw = vstd::slice::slice_to_vec(s);
        proof {
            assert(raw@ =~= s@);
        }
        Some(ParsedLine::Trivia(raw))
    } else if s[a] == 91 {
        if a + 1 < s.len() && s[a + 1] == 91 {
            let b = scan_key(s, a + 2);
            proof {
                lemma_scan_while(s@, a + 2, |b: u8| is_key_byte(b));
            }
            if b > a + 2 && s.len() - b > 1 && s[b] == 93 && s[b + 1] == 93 && is_trailing_at(
                s,
                b + 2,
            ) {
                let pre = vstd::slice::slice_to_vec(&s[0..a]);
                let name = vstd::slice::slice_to_vec(&s[a + 2..b]);
                let post = vstd::slice::slice_to_vec(&s[b + 2..s.len()]);
                proof {
                    assert(pre@ =~= s@.subrange(0, a as int));
                    assert(name@ =~= s@.subrange(a + 2, b as int));
                    assert(post@ =~= s@.subrange(b + 2, s@.len() as int));
                }
                Some(ParsedLine::Header(HeaderParts { pre, name, post }))
            } else {
                None
            }
        } else {
            None
        }
    } else {
        let b = scan_key(s, a);
        proof {
            lemma_scan_while(s@, a as int, |b: u8| is_key_byte(b));
        }
        if b == a {
            None
        } else {
            let c = scan_ws(s, b);
            proof {
                lemma_scan_while(s@, b as int, |b: u8| is_ws(b));
            }
            if c < s.len() && s[c] == 61 {
                let d = scan_ws(s, c + 1);
                proof {
                    lemma_scan_while(s@, c + 1, |b: u8| is_ws(b));
                }
                match parse_value(s, d) {
                    Some((e, value)) => {
                        if is_trailing_at(s, e) {
                            let pre = vstd::slice::slice_to_vec(&s[0..a]);
                            let key = vstd::slice::slice_to_vec(&s[a..b]);
                            let eq = vstd::slice::slice_to_vec(&s[b..d]);
                            let val_text = vstd::slice::slice_to_vec(&s[d..e]);
                            let post = vstd::slice::slice_to_vec(&s[e..s.len()]);
                            proof {
                                assert(pre@ =~= s@.subrange(0, a as int));
                                assert(key@ =~= s@.subrange(a as int, b as int));
                                assert(eq@ =~= s@.subrange(b as int, d as int));
                                assert(val_text@ =~= s@.subrange(d as int, e as int));
                                assert(post@ =~= s@.subrange(e as int, s@.len() as int));
                            }
                            Some(ParsedLine::Field(FieldLine { pre, key, eq, val_text, value, post }))
                        } else {
                            None
                        }
                    },
                    None => None,
                }
            } else {
                None
            }
        }
    }
}

// --- grouping lines into a document ---------------------------------------

/// The document with no lines at all.
pub open spec fn empty_doc() -> DocumentV {
    DocumentV { prelude: Seq::empty(), tables: Seq::empty(), ends_with_newline: false }
}

/// Append a body line: to the prelude while no table is open, else to the
/// body of the last table.
pub open spec fn add_body_line(d: DocumentV, l: LineV) -> DocumentV {
    if d.tables.len() == 0 {
        DocumentV {
            prelude: d.prelude.push(l),
            tables: d.tables,
            ends_with_newline: d.ends_with_newline,
        }
    } else {
        let last = d.tables.last();
        DocumentV {
            prelude: d.prelude,
            tables: d.tables.update(
                d.tables.len() - 1,
                TableV {
                    header_pre: last.header_pre,
                    name: last.name,
                    header_post: last.header_post,
                    body: last.body.push(l),
                },
            ),
            ends_with_newline: d.ends_with_newline,
        }
    }
}

/// Open a new table block at the end of the document.
pub open spec fn add_header(d: DocumentV, h: HeaderV) -> DocumentV {
    DocumentV {
        prelude: d.prelude,
        tables: d.tables.push(
            TableV {
                header_pre: h.pre,
                name: h.name,
                header_post: h.post,
                body: Seq::empty(),
            },
        ),
        ends_with_newline: d.ends_with_newline,
    }
}

/// Fold one classified line into the document built so far.
pub open spec fn group_step(d: DocumentV, pl: ParsedLineV) -> DocumentV {
    match pl {
        ParsedLineV::Trivia(s) => add_body_line(d, LineV::Trivia(s)),
        ParsedLineV::Header(h) => add_header(d, h),
        ParsedLineV::Field(f) => add_body_line(d, LineV::Field(f)),
    }
}

/// Fold a run of lines into a document, ignoring lines that fail to
/// classify (under [`all_lines_parse`] there are none).
pub open spec fn group_lines(ls: Seq<Seq<u8>>) -> DocumentV
    decreases ls.len(),
{
    if ls.len() == 0 {
        empty_doc()
    } else {
        let d = group_lines(ls.drop_last());
        match parse_line(ls.last()) {
            Some(pl) => group_step(d, pl),
            None => d,
        }
    }
}

/// Every line classifies.
pub open spec fn all_lines_parse(ls: Seq<Seq<u8>>) -> bool {
    forall|i: int| 0 <= i < ls.len() ==> (#[trigger] parse_line(ls[i])) is Some
}

/// The text is accepted by the grammar.
pub open spec fn text_parses(t: Seq<u8>) -> bool {
    all_lines_parse(split_lines(t))
}

/// The document denoted by an accepted text.
pub open spec fn parsed_doc(t: Seq<u8>) -> DocumentV {
    let d = group_lines(split_lines(t));
    DocumentV { prelude: d.prelude, tables: d.tables, ends_with_newline: ends_newline(t) }
}

/// Grouping accepted, newline-free lines yields a well-formed document
/// whose lines are exactly the input lines.
pub proof fn lemma_group_lines(ls: Seq<Seq<u8>>)
    requires
        all_lines_parse(ls),
        forall|i: int| 0 <= i < ls.len() ==> no_newline(#[trigger] ls[i]),
    ensures
        doc_lines(group_lines(ls)) == ls,
        doc_wf(group_lines(ls)),
    decreases ls.len(),
{
    if ls.len() == 0 {
        assert(doc_lines(group_lines(ls)) =~= ls) by {
            assert(Seq::<LineV>::empty().map_values(|l: LineV| line_text(l))
                =~= Seq::<Seq<u8>>::empty());
        }
    } else {
        let pre = ls.drop_last();
        let l = ls.last();
        assert(all_lines_parse(pre) && forall|i: int|
            0 <= i < pre.len() ==> no_newline(#[trigger] pre[i])) by {
            assert(forall|i: int| 0 <= i < pre.len() ==> pre[i] == ls[i]);
        }
        lemma_group_lines(pre);
        let d0 = group_lines(pre);
        lemma_parse_line_sound(l);
        let pl = parse_line(l).unwrap();
        let d1 = group_lines(ls);
        assert(d1 == group_step(d0, pl));
        match pl {
            ParsedLineV::Header(h) => {
                let newt = TableV {
                    header_pre: h.pre,
                    name: h.name,
                    header_post: h.post,
                    body: Seq::empty(),
                };
                assert(table_lines(newt) =~= seq![l]) by {
                    assert(header_text(newt) == header_line_text(h));
                    assert(Seq::<LineV>::empty().map_values(|x: LineV| line_text(x))
                        =~= Seq::<Seq<u8>>::empty());
                }
                crate::doc::lemma_tables_lines_push(d0.tables, newt);
                assert(doc_lines(d1) =~= ls) by {
                    assert(doc_lines(d1) == d0.prelude.map_values(|x: LineV| line_text(x)) + (
                    tables_lines(d0.tables) + seq![l]));
                    assert(doc_lines(d0).push(l) =~= ls);
                }
                assert(doc_wf(d1)) by {
                    assert(forall|i: int|
                        0 <= i < d1.tables.len() - 1 ==> d1.tables[i] == d0.tables[i]);
                    assert(table_wf(newt));
                }
            },
            ParsedLineV::Trivia(_) | ParsedLineV::Field(_) => {
                let lv = match pl {
                    ParsedLineV::Trivia(s) => LineV::Trivia(s),
                    ParsedLineV::Field(f) => LineV::Field(f),
                    ParsedLineV::Header(h) => LineV::Trivia(Seq::empty()),
                };
                assert(line_text(lv) == l);
                assert(line_wf(lv));
                if d0.tables.len() == 0 {
                    assert(doc_lines(d1) =~= ls) by {
                        assert(d1.prelude.map_values(|x: LineV| line_text(x))
                            =~= d0.prelude.map_values(|x: LineV| line_text(x)).push(l));
                        assert(tables_lines(d1.tables) =~= Seq::<Seq<u8>>::empty());
                        assert(doc_lines(d0).push(l) =~= ls);
                        assert(doc_lines(d0) =~= d0.prelude.map_values(|x: LineV| line_text(x)));
                    }
                    assert(doc_wf(d1)) by {
                        assert(forall|i: int|
                            0 <= i < d1.prelude.len() - 1 ==> d1.prelude[i] == d0.prelude[i]);
                    }
                } else {
                    let n = d0.tables.len();
                    let last = d0.tables.last();
                    let upd = TableV {
                        header_pre: last.header_pre,
                        name: last.name,
                        header_post: last.header_post,
                        body: last.body.push(lv),
                    };
                    assert(d1.tables == d0.tables.update(n - 1, upd));
                    assert(d1.tables.drop_last() =~= d0.tables.drop_last());
                    assert(d1.tables.last() == upd);
                    assert(tables_lines(d1.tables) == tables_lines(d0.tables.drop_last())
                        + table_lines(upd)) by {
                        assert(d1.tables.len() > 0);
                    }
                    assert(table_lines(upd) =~= table_lines(last).push(l)) by {
                        assert(upd.body.map_values(|x: LineV| line_text(x))
                            =~= last.body.map_values(|x: LineV| line_text(x)).push(l));
                    }
                    assert(tables_lines(d0.tables) == tables_lines(d0.tables.drop_last())
                        + table_lines(last)) by {
                        assert(d0.tables.len() > 0);
                    }
                    assert(doc_lines(d1) =~= ls) by {
                        assert(doc_lines(d0).push(l) =~= ls);
                    }
                    assert(doc_wf(d1)) by {
                        assert(forall|i: int|
                            0 <= i < d1.tables.len() - 1 ==> d1.tables[i] == d0.tables[i]);
                        assert(table_wf(last));
                        assert(forall|i: int|
                            0 <= i < upd.body.len() - 1 ==> upd.body[i] == last.body[i]);
                        assert(table_wf(upd));
                    }
                }
            },
        }
    }
}

/// An accepted text denotes a well-formed document that serializes back
/// to exactly the input.
pub proof fn lemma_parse_text(t: Seq<u8>)
    requires
        text_parses(t),
    ensures
        doc_wf(parsed_doc(t)),
        doc_text(parsed_doc(t)) == t,
{
    lemma_split_lines_no_newline(t);
    lemma_group_lines(split_lines(t));
    lemma_split_join(t);
    let d = parsed_doc(t);
    let g = group_lines(split_lines(t));
    assert(doc_lines(d) == doc_lines(g));
    assert(doc_wf(d));
    assert(doc_text(d) == join_lines(doc_lines(d), d.ends_with_newline));
}

/// Parse a text into a document.
///
/// Succeeds exactly on texts of the grammar; the resulting document is
/// well formed and serializes back to the input byte for byte.  A
/// rejected text yields a schema error.
pub fn parse_document(text: &[u8]) -> (r: Result<Document, UpNextError>)
    ensures
        r is Ok <==> text_parses(text@),
        r is Ok ==> r.unwrap()@ == parsed_doc(text@),
        r is Ok ==> doc_wf(r.unwrap()@) && doc_text(r.unwrap()@) == text@,
        r is Err ==> r->Err_0 is SchemaError,
{
    let lines = split_text(text);
    let ghost gls = lines@.map_values(|l: Vec<u8>| l@);
    let ends = text.len() > 0 && text[text.len() - 1] == 10;
    let mut prelude: Vec<Line> = Vec::new();
    let mut tables: Vec<TableEntry> = Vec::new();
    let mut i: usize = 0;
    proof {
        assert(gls.subrange(0, 0) =~= Seq::<Seq<u8>>::empty());
        assert(prelude@.map_values(|l: Line| l@) =~= Seq::<LineV>::empty());
        assert(tables@.map_values(|t: TableEntry| t@) =~= Seq::<TableV>::empty());
    }
    while i < lines.len()
        invariant
            i <= lines@.len(),
            gls == lines@.map_values(|l: Vec<u8>| l@),
            gls == split_lines(text@),
            forall|j: int| 0 <= j < i ==> (#[trigger] parse_line(gls[j])) is Some,
            group_lines(gls.subrange(0, i as int)) == (DocumentV {
                prelude: prelude@.map_values(|l: Line| l@),
                tables: tables@.map_values(|t: TableEntry| t@),
                ends_with_newline: false,
            }),
        decreases lines@.len() - i,
    {
        let ghost d0 = group_lines(gls.subrange(0, i as int));
        proof {
            assert(gls[i as int] == lines@[i as int]@);
        }
        match classify_line(lines[i].as_slice()) {
            None => {
                proof {
                    assert(parse_line(gls[i as int]) is None);
                    assert(!all_lines_parse(gls));
                }
                return Err(
                    UpNextError::SchemaError("configuration text is not well formed".to_owned()),
                );
            },
            Some(pl) => {
                let ghost plv = pl@;
                match pl {
                    ParsedLine::Header(h) => {
                        let newt = TableEntry {
                            header_pre: h.pre,
                            name: h.name,
                            header_post: h.post,
                            body: Vec::new(),
                        };
                        proof {
                            assert(newt@.body =~= Seq::<LineV>::empty());
                        }
                        let ghost m = tables@.map_values(|t: TableEntry| t@);
                        tables.push(newt);
                        proof {
                            assert(tables@.map_values(|t: TableEntry| t@) =~= m.push(newt@));
                        }
                    },
                    ParsedLine::Trivia(raw) => {
                        let line = Line::Trivia(raw);
                        if tables.len() == 0 {
                            let ghost m = prelude@.map_values(|l: Line| l@);
                            prelude.push(line);
                            proof {
                                assert(prelude@.map_values(|l: Line| l@) =~= m.push(line@));
                            }
                        } else {
                            let ghost m = tables@.map_values(|t: TableEntry| t@);
                            let mut t = tables.pop().unwrap();
                            let ghost bm = t@.body;
                            t.body.push(line);
                            proof {
                                assert(t@.body =~= bm.push(line@));
                            }
                            tables.push(t);
                            proof {
                                assert(tables@.map_values(|tt: TableEntry| tt@) =~= m.update(
                                    m.len() - 1,
                                    t@,
                                ));
                            }
                        }
                    },
                    ParsedLine::Field(f) => {
                        let line = Line::Field(f);
                        if tables.len() == 0 {
                            let ghost m = prelude@.map_values(|l: Line| l@);
                            prelude.push(line);
                            proof {
                                assert(prelude@.map_values(|l: Line| l@) =~= m.push(line@));
                            }
                        } else {
                            let ghost m = tables@.map_values(|t: TableEntry| t@);
                            let mut t = tables.pop().unwrap();
                            let ghost bm = t@.body;
                            t.body.push(line);
                            proof {
                                assert(t@.body =~= bm.push(line@));
                            }
                            tables.push(t);
                            proof {
                                assert(tables@.map_values(|tt: TableEntry| tt@) =~= m.update(
                                    m.len() - 1,
                                    t@,
                                ));
                            }
                        }
                    },
                }
                proof {
                    let taken = gls.subrange(0, i + 1);
                    assert(taken.drop_last() =~= gls.subrange(0, i as int));
                    assert(taken.last() == gls[i as int]);
                    assert(group_lines(taken) == group_step(d0, plv));
                    assert(group_step(d0, plv) == (DocumentV {
                        prelude: prelude@.map_values(|l: Line| l@),
                        tables: tables@.map_values(|t: TableEntry| t@),
                        ends_with_newline: false,
                    }));
                }
            },
        }
        i = i + 1;
    }
    proof {
        assert(gls.subrange(0, gls.len() as int) =~= gls);
        assert(text_parses(text@));
    }
    let d = Document { prelude, tables, ends_with_newline: ends };
    proof {
        let g = group_lines(gls);
        assert(d@ =~= parsed_doc(text@));
        lemma_parse_text(text@);
    }
    Ok(d)
}

/// What a successful value parse means: the value text is the source
/// bytes of the value, and it is a well-formed literal for the value.
proof fn lemma_parse_value_sound(s: Seq<u8>, i: int)
    requires
        no_newline(s),
        0 <= i <= s.len(),
        parse_value_at(s, i) is Some,
    ensures
        ({
            let (e, v) = parse_value_at(s, i).unwrap();
            &&& i < e <= s.len()
            &&& crate::doc::value_ok(s.subrange(i, e), v)
        }),
{
    let (e, v) = parse_value_at(s, i).unwrap();
    if s[i] == 34 {
        let ps = |b: u8| is_str_byte(b);
        let q = scan_while(s, i + 1, ps);
        lemma_scan_while(s, i + 1, ps);
        let c = s.subrange(i + 1, q);
        assert(crate::bytes::all_str_bytes(c)) by {
            assert(forall|j: int| 0 <= j < c.len() ==> c[j] == s[i + 1 + j]);
        }
        assert(s.subrange(i, e) =~= seq![34u8] + c + seq![34u8]) by {
            assert(forall|j: int| 0 <= j < e - i ==> s.subrange(i, e)[j] == s[i + j]);
        }
    } else {
        let pd = |b: u8| is_digit(b);
        let j = if s[i] == 45 {
            i + 1
        } else {
            i
        };
        let k = scan_while(s, j, pd);
        lemma_scan_while(s, j, pd);
        let lit = s.subrange(i, k);
        let digits = s.subrange(j, k);
        assert(crate::doc::all_digits(digits)) by {
            assert(forall|jj: int| 0 <= jj < digits.len() ==> digits[jj] == s[j + jj]);
        }
        crate::num::lemma_digits_val_bound_any(digits);
        if s[i] == 45 {
            assert(lit[0] == 45);
            assert(lit.subrange(1, lit.len() as int) =~= digits);
            assert(crate::doc::int_lit_ok(lit, -digits_val(digits)));
        } else {
            assert(lit =~= digits);
            assert(lit[0] != 45) by {
                assert(is_digit(s[i]));
            }
            assert(crate::doc::int_lit_ok(lit, digits_val(digits)));
        }
    }
}

} // verus!
