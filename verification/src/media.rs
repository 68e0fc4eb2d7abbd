//! Decision procedures around playing episodes: choosing the file for the
//! next episode, selecting and ordering the playable files of a directory,
//! the episode-number consistency check, searching tracked entries, and
//! resolving the configuration file location.

use vstd::prelude::*;
use vstd::multiset::Multiset;
use vstd::relations::{sorted_by, total_ordering};

use crate::bytes::{bytes_eq, contains_seq, contains_bytes, lower_seq, to_lower};
use crate::errors::UpNextError;
use crate::num::int_text;
use crate::schema::{Series, SeriesList, SeriesV};

verus! {

// --- choosing the next episode ------------------------------------------------

/// The zero-based index of the next episode among `file_count` files.
///
/// `SeriesOver` exactly when the episode number is past the last file; a
/// generic error exactly when the episode number is below one, which the
/// format never produces but a hand-edited file can.
pub fn next_episode_index(next_episode: i64, file_count: usize) -> (r: Result<usize, UpNextError>)
    requires
        file_count <= i64::MAX,
    ensures
        r is Ok <==> 1 <= next_episode <= file_count,
        r is Ok ==> r.unwrap() as int == next_episode - 1,
        r is Err ==> (r->Err_0 is SeriesOver <==> next_episode > file_count),
        r is Err ==> (r->Err_0 is SeriesOver || r->Err_0 is GenericError),
{
    if next_episode > file_count as i64 {
        Err(UpNextError::SeriesOver)
    } else if next_episode < 1 {
        Err(UpNextError::GenericError("episode number is below one".to_owned()))
    } else {
        Ok((next_episode - 1) as usize)
    }
}

/// The file name carries the decimal digits of the episode number
/// somewhere in it; playing a file that fails this check asks the user
/// first.
pub fn episode_number_in_name(file_name: &[u8], episode: i64) -> (r: bool)
    ensures
        r == contains_seq(file_name@, int_text(episode as int)),
{
    let digits = crate::num::render_i64(episode);
    contains_bytes(file_name, digits.as_slice())
}

/// Whether a typed reply accepts playing a mismatched file: a reply that
/// holds an `n` declines; otherwise one that holds a `y`, or says
/// nothing, accepts; anything else declines.  Letters match without
/// regard to ASCII case.
pub fn confirmation_accepts(answer: &[u8]) -> (r: bool)
    ensures
        r == (!contains_seq(lower_seq(answer@), seq![110u8]) && (contains_seq(
            lower_seq(answer@),
            seq![121u8],
        ) || answer@.len() == 0)),
{
    let low = to_lower(answer);
    let n: Vec<u8> = vec![110];
    let y: Vec<u8> = vec![121];
    proof {
        assert(n@ =~= seq![110u8]);
        assert(y@ =~= seq![121u8]);
    }
    if contains_bytes(low.as_slice(), n.as_slice()) {
        false
    } else if contains_bytes(low.as_slice(), y.as_slice()) || answer.len() == 0 {
        true
    } else {
        false
    }
}

// --- lexicographic order over byte strings ------------------------------------

/// Byte-wise lexicographic order.
pub open spec fn lex_leq(a: Seq<u8>, b: Seq<u8>) -> bool
    decreases a.len(),
{
    if a.len() == 0 {
        true
    } else if b.len() == 0 {
        false
    } else if a[0] < b[0] {
        true
    } else if a[0] > b[0] {
        false
    } else {
        lex_leq(a.skip(1), b.skip(1))
    }
}

/// Reflexivity of the lexicographic order.
pub proof fn lemma_lex_refl(a: Seq<u8>)
    ensures
        lex_leq(a, a),
    decreases a.len(),
{
    if a.len() > 0 {
        lemma_lex_refl(a.skip(1));
    }
}

/// Totality of the lexicographic order.
pub proof fn lemma_lex_total(a: Seq<u8>, b: Seq<u8>)
    ensures
        lex_leq(a, b) || lex_leq(b, a),
    decreases a.len(),
{
    if a.len() > 0 && b.len() > 0 && a[0] == b[0] {
        lemma_lex_total(a.skip(1), b.skip(1));
    }
}

/// Antisymmetry of the lexicographic order.
pub proof fn lemma_lex_antisym(a: Seq<u8>, b: Seq<u8>)
    requires
        lex_leq(a, b),
        lex_leq(b, a),
    ensures
        a == b,
    decreases a.len(),
{
    if a.len() == 0 {
        assert(a =~= b);
    } else {
        lemma_lex_antisym(a.skip(1), b.skip(1));
        assert(a =~= seq![a[0]] + a.skip(1));
        assert(b =~= seq![b[0]] + b.skip(1));
    }
}

/// Transitivity of the lexicographic order.
pub proof fn lemma_lex_trans(a: Seq<u8>, b: Seq<u8>, c: Seq<u8>)
    requires
        lex_leq(a, b),
        lex_leq(b, c),
    ensures
        lex_leq(a, c),
    decreases a.len(),
{
    if a.len() > 0 && b.len() > 0 && c.len() > 0 && a[0] == b[0] && b[0] == c[0] {
        lemma_lex_trans(a.skip(1), b.skip(1), c.skip(1));
    }
}

/// The lexicographic order is a total ordering in the sense of the
/// standard relation vocabulary.
pub proof fn lemma_lex_total_ordering()
    ensures
        total_ordering(|a: Seq<u8>, b: Seq<u8>| lex_leq(a, b)),
{
    let r = |a: Seq<u8>, b: Seq<u8>| lex_leq(a, b);
    assert forall|a: Seq<u8>| #[trigger] r(a, a) by {
        lemma_lex_refl(a);
    }
    assert forall|a: Seq<u8>, b: Seq<u8>| #[trigger] r(a, b) && #[trigger] r(b, a) implies a
        == b by {
        lemma_lex_antisym(a, b);
    }
    assert forall|a: Seq<u8>, b: Seq<u8>, c: Seq<u8>| #[trigger] r(a, b) && #[trigger] r(
        b,
        c,
    ) implies r(a, c) by {
        lemma_lex_trans(a, b, c);
    }
    assert forall|a: Seq<u8>, b: Seq<u8>| #[trigger] r(a, b) || #[trigger] r(b, a) by {
        lemma_lex_total(a, b);
    }
}

/// Equal prefixes do not decide the order.
proof fn lemma_lex_skip(a: Seq<u8>, b: Seq<u8>, i: int)
    requires
        0 <= i <= a.len(),
        i <= b.len(),
        forall|j: int| 0 <= j < i ==> a[j] == b[j],
    ensures
        lex_leq(a, b) == lex_leq(a.skip(i), b.skip(i)),
    decreases i,
{
    if i == 0 {
        assert(a.skip(0) =~= a);
        assert(b.skip(0) =~= b);
    } else {
        assert(a.len() > 0 && b.len() > 0 && a[0] == b[0]);
        lemma_lex_skip(a.skip(1), b.skip(1), i - 1);
        assert(a.skip(1).skip(i - 1) =~= a.skip(i));
        assert(b.skip(1).skip(i - 1) =~= b.skip(i));
        assert(forall|j: int| 0 <= j < i - 1 ==> a.skip(1)[j] == #[trigger] b.skip(1)[j]);
    }
}

/// Compare two byte strings lexicographically.
pub fn bytes_leq(a: &[u8], b: &[u8]) -> (r: bool)
    ensures
        r == lex_leq(a@, b@),
{
    let mut i: usize = 0;
    while i < a.len() && i < b.len()
        invariant
            i <= a@.len(),
            i <= b@.len(),
            forall|j: int| 0 <= j < i ==> a@[j] == b@[j],
        decreases a@.len() - i,
    {
        if a[i] < b[i] {
            proof {
                lemma_lex_skip(a@, b@, i as int);
            }
            return true;
        }
        if a[i] > b[i] {
            proof {
                lemma_lex_skip(a@, b@, i as int);
            }
            return false;
        }
        i = i + 1;
    }
    proof {
        lemma_lex_skip(a@, b@, i as int);
        if a@.len() <= b@.len() {
            assert(a@.skip(i as int).len() == 0);
        } else {
            assert(a@.skip(i as int).len() > 0 && b@.skip(i as int).len() == 0);
        }
    }
    a.len() <= b.len()
}

/// Sort byte strings into lexicographic order; the result holds exactly
/// the same strings, with multiplicity.
pub fn sort_paths(v: Vec<Vec<u8>>) -> (r: Vec<Vec<u8>>)
    ensures
        sorted_by(r@.map_values(|x: Vec<u8>| x@), |a: Seq<u8>, b: Seq<u8>| lex_leq(a, b)),
        r@.map_values(|x: Vec<u8>| x@).to_multiset() == v@.map_values(
            |x: Vec<u8>| x@,
        ).to_multiset(),
{
    let ghost orig = v@.map_values(|x: Vec<u8>| x@);
    let mut rem = v;
    let mut out: Vec<Vec<u8>> = Vec::new();
    proof {
        broadcast use vstd::multiset::group_multiset_axioms;

        let e = Seq::<Seq<u8>>::empty();
        assert forall|a: Seq<u8>| e.to_multiset().count(a) == 0 by {
            vstd::seq_lib::to_multiset_contains(e, a);
        }
        assert(e.to_multiset() =~= Multiset::<Seq<u8>>::empty());
        assert(out@.map_values(|x: Vec<u8>| x@) =~= e);
        assert(out@.map_values(|x: Vec<u8>| x@).to_multiset().add(
            rem@.map_values(|x: Vec<u8>| x@).to_multiset(),
        ) =~= orig.to_multiset());
    }
    while rem.len() > 0
        invariant
            out@.map_values(|x: Vec<u8>| x@).to_multiset().add(
                rem@.map_values(|x: Vec<u8>| x@).to_multiset(),
            ) == orig.to_multiset(),
            forall|p: int, q: int|
                0 <= p < q < out@.len() ==> lex_leq((#[trigger] out@[p])@, (#[trigger] out@[q])@),
            forall|p: int, q: int|
                0 <= p < out@.len() && 0 <= q < rem@.len() ==> lex_leq(
                    (#[trigger] out@[p])@,
                    (#[trigger] rem@[q])@,
                ),
        decreases rem@.len(),
    {
        let ghost mo = out@.map_values(|x: Vec<u8>| x@);
        let ghost mr = rem@.map_values(|x: Vec<u8>| x@);
        let ghost out0 = out@;
        let ghost rem0 = rem@;
        // find the least remaining string
        let mut mi: usize = 0;
        let mut j: usize = 1;
        proof {
            lemma_lex_refl(mr[0]);
        }
        while j < rem.len()
            invariant
                1 <= j <= rem@.len(),
                mi < j,
                rem@ == rem0,
                mr == rem@.map_values(|x: Vec<u8>| x@),
                forall|q: int| 0 <= q < j ==> lex_leq(mr[mi as int], #[trigger] mr[q]),
            decreases rem@.len() - j,
        {
            if bytes_leq(rem[j].as_slice(), rem[mi].as_slice()) {
                proof {
                    assert forall|q: int| 0 <= q < j + 1 implies lex_leq(
                        mr[j as int],
                        #[trigger] mr[q],
                    ) by {
                        if q < j {
                            lemma_lex_trans(mr[j as int], mr[mi as int], mr[q]);
                        } else {
                            lemma_lex_refl(mr[j as int]);
                        }
                    }
                }
                mi = j;
            } else {
                proof {
                    lemma_lex_total(mr[j as int], mr[mi as int]);
                    assert(lex_leq(mr[mi as int], mr[j as int]));
                }
            }
            j = j + 1;
        }
        let x = rem.remove(mi);
        let ghost xv = x@;
        proof {
            assert(xv == mr[mi as int]);
            assert(rem@ == rem0.remove(mi as int));
            assert(rem@.map_values(|y: Vec<u8>| y@) =~= mr.remove(mi as int));
        }
        out.push(x);
        proof {
            let mo2 = out@.map_values(|y: Vec<u8>| y@);
            assert(out@ == out0.push(x));
            assert(mo2 =~= mo.push(xv));
            // multiset bookkeeping
            vstd::seq_lib::to_multiset_build(mo, xv);
            assert(mo2.to_multiset() == mo.push(xv).to_multiset());
            vstd::seq_lib::to_multiset_remove(mr, mi as int);
            assert(mr.remove(mi as int).to_multiset() =~= mr.to_multiset().remove(xv));
            vstd::seq_lib::to_multiset_contains(mr, xv);
            assert(mr.to_multiset().count(xv) > 0) by {
                assert(mr.contains(xv));
            }
            assert(mo.to_multiset().insert(xv).add(mr.to_multiset().remove(xv))
                =~= mo.to_multiset().add(mr.to_multiset()));
            // order bookkeeping
            assert forall|p: int, q: int| 0 <= p < q < out@.len() implies lex_leq(
                (#[trigger] out@[p])@,
                (#[trigger] out@[q])@,
            ) by {
                assert(out@[p]@ == mo2[p]);
                assert(out@[q]@ == mo2[q]);
                if q < mo.len() {
                    assert(out@[p] == out0[p] && out@[q] == out0[q]);
                } else {
                    assert(mo2[q] == xv);
                    assert(out@[p] == out0[p]);
                    assert(lex_leq(out0[p]@, rem0[mi as int]@));
                    assert(rem0[mi as int]@ == mr[mi as int]);
                }
            }
            assert forall|p: int, q: int|
                0 <= p < out@.len() && 0 <= q < rem@.len() implies lex_leq(
                (#[trigger] out@[p])@,
                (#[trigger] rem@[q])@,
            ) by {
                let orig_q: int = if q < mi {
                    q
                } else {
                    q + 1
                };
                assert(rem@[q] == rem0[orig_q]);
                assert(rem@[q]@ == mr[orig_q]);
                if p < mo.len() {
                    assert(out@[p] == out0[p]);
                    assert(lex_leq(out0[p]@, rem0[orig_q]@));
                } else {
                    assert(out@[p]@ == xv);
                    assert(lex_leq(mr[mi as int], mr[orig_q]));
                }
            }
        }
    }
    proof {
        broadcast use vstd::multiset::group_multiset_axioms;

        let e = Seq::<Seq<u8>>::empty();
        assert forall|a: Seq<u8>| e.to_multiset().count(a) == 0 by {
            vstd::seq_lib::to_multiset_contains(e, a);
        }
        assert(e.to_multiset() =~= Multiset::<Seq<u8>>::empty());
        assert(rem@.map_values(|x: Vec<u8>| x@).to_multiset() =~= e.to_multiset()) by {
            assert(rem@.map_values(|x: Vec<u8>| x@) =~= e);
        }
        assert(out@.map_values(|x: Vec<u8>| x@).to_multiset() =~= orig.to_multiset());
        let m = out@.map_values(|x: Vec<u8>| x@);
        assert forall|p: int, q: int| 0 <= p < q < m.len() implies (|a: Seq<u8>, b: Seq<u8>|
        lex_leq(a, b))(m[p], m[q]) by {
            assert(m[p] == out@[p]@);
            assert(m[q] == out@[q]@);
        }
        assert(sorted_by(m, |a: Seq<u8>, b: Seq<u8>| lex_leq(a, b)));
    }
    out
}

// --- selecting the playable files ---------------------------------------------

/// The bytes after the last occurrence of `sep`, or `None` when `sep`
/// does not occur.
pub open spec fn split_after_last(s: Seq<u8>, sep: u8) -> Option<Seq<u8>>
    decreases s.len(),
{
    if s.len() == 0 {
        None
    } else if s.last() == sep {
        Some(Seq::empty())
    } else {
        match split_after_last(s.drop_last(), sep) {
            Some(x) => Some(x.push(s.last())),
            None => None,
        }
    }
}

/// The final path component: everything after the last slash.
pub open spec fn file_name_of(s: Seq<u8>) -> Seq<u8> {
    match split_after_last(s, 47) {
        Some(x) => x,
        None => s,
    }
}

/// The extension of a path: the bytes after the last dot of its final
/// component, none when the component has no dot or only a leading one.
pub open spec fn ext_of(s: Seq<u8>) -> Option<Seq<u8>> {
    let name = file_name_of(s);
    match split_after_last(name, 46) {
        Some(x) => if x.len() + 1 < name.len() {
            Some(x)
        } else {
            None
        },
        None => None,
    }
}

/// The recognized video container extensions.
pub open spec fn video_extensions() -> Seq<Seq<u8>> {
    seq![
        seq![109u8, 107u8, 118u8],
        seq![109u8, 112u8, 52u8],
        seq![97u8, 118u8, 105u8],
        seq![102u8, 108u8, 118u8],
        seq![109u8, 111u8, 118u8],
        seq![119u8, 109u8, 118u8],
        seq![119u8, 101u8, 98u8, 109u8],
        seq![109u8, 112u8, 103u8],
        seq![109u8, 112u8, 101u8, 103u8],
        seq![109u8, 52u8, 118u8],
    ]
}

/// The path names a file in a recognized video container format.
pub open spec fn is_video(s: Seq<u8>) -> bool {
    ext_of(s) matches Some(x) && video_extensions().contains(x)
}

/// Every path has an extension.
pub open spec fn all_have_ext(ns: Seq<Seq<u8>>) -> bool {
    forall|i: int| 0 <= i < ns.len() ==> (ext_of(#[trigger] ns[i]) is Some)
}

/// The video files among the paths, in input order.
pub open spec fn kept_videos(ns: Seq<Seq<u8>>) -> Seq<Seq<u8>>
    decreases ns.len(),
{
    if ns.len() == 0 {
        Seq::empty()
    } else {
        kept_videos(ns.drop_last()) + (if is_video(ns.last()) {
            seq![ns.last()]
        } else {
            Seq::<Seq<u8>>::empty()
        })
    }
}

/// What the last separator looks like from the front: the position of the
/// last occurrence decides [`split_after_last`].
proof fn lemma_split_after_last_at(s: Seq<u8>, sep: u8, p: int)
    requires
        0 <= p < s.len(),
        s[p] == sep,
        forall|i: int| p < i < s.len() ==> s[i] != sep,
    ensures
        split_after_last(s, sep) == Some(s.skip(p + 1)),
    decreases s.len(),
{
    if p == s.len() - 1 {
        assert(s.skip(p + 1) =~= Seq::<u8>::empty());
    } else {
        lemma_split_after_last_at(s.drop_last(), sep, p);
        assert(s.drop_last().skip(p + 1) =~= s.skip(p + 1).drop_last());
        assert(s.skip(p + 1).drop_last().push(s.last()) =~= s.skip(p + 1));
    }
}

/// A separator-free string has no split.
proof fn lemma_split_after_last_none(s: Seq<u8>, sep: u8)
    requires
        forall|i: int| 0 <= i < s.len() ==> s[i] != sep,
    ensures
        split_after_last(s, sep) is None,
    decreases s.len(),
{
    if s.len() > 0 {
        lemma_split_after_last_none(s.drop_last(), sep);
    }
}

/// Find the last occurrence of a byte, executably.
fn find_last(s: &[u8], from: usize, sep: u8) -> (r: Option<usize>)
    requires
        from <= s@.len(),
    ensures
        match r {
            Some(p) => {
                &&& from <= p < s@.len()
                &&& s@[p as int] == sep
                &&& forall|i: int| p < i < s@.len() ==> s@[i] != sep
            },
            None => forall|i: int| from <= i < s@.len() ==> s@[i] != sep,
        },
{
    let mut j: usize = s.len();
    while j > from
        invariant
            from <= j <= s@.len(),
            forall|i: int| j <= i < s@.len() ==> s@[i] != sep,
        decreases j,
    {
        j = j - 1;
        if s[j] == sep {
            return Some(j);
        }
    }
    None
}

/// The extension of a path, executably.
pub fn extension_of(s: &[u8]) -> (r: Option<Vec<u8>>)
    ensures
        r is Some <==> ext_of(s@) is Some,
        r is Some ==> r.unwrap()@ == ext_of(s@).unwrap(),
{
    let slen = s.len();
    proof {
        assert(s@.len() == slen);
    }
    let start: usize = match find_last(s, 0, 47) {
        Some(p) => {
            proof {
                lemma_split_after_last_at(s@, 47, p as int);
                assert(file_name_of(s@) == s@.skip(p + 1));
            }
            p + 1
        },
        None => {
            proof {
                lemma_split_after_last_none(s@, 47);
                assert(file_name_of(s@) == s@);
                assert(s@.skip(0) =~= s@);
            }
            0
        },
    };
    let ghost name = file_name_of(s@);
    proof {
        assert(name == s@.skip(start as int));
    }
    match find_last(s, start, 46) {
        Some(p) => {
            proof {
                assert(name[p - start] == 46);
                assert(forall|i: int| p - start < i < name.len() ==> name[i] != 46);
                lemma_split_after_last_at(name, 46, p - (start as int));
                assert(name.skip(p - start + 1) =~= s@.skip(p + 1));
            }
            if p == start {
                proof {
                    assert(name.skip(p - start + 1).len() + 1 == name.len());
                }
                None
            } else {
                let ext = vstd::slice::slice_to_vec(&s[p + 1..s.len()]);
                proof {
                    assert(ext@ =~= s@.skip(p + 1));
                    assert(name.skip(p - start + 1).len() + 1 < name.len());
                }
                Some(ext)
            }
        },
        None => {
            proof {
                assert(forall|i: int| 0 <= i < name.len() ==> name[i] != 46);
                lemma_split_after_last_none(name, 46);
            }
            None
        },
    }
}

/// Whether an extension is in the recognized list, executably.
fn is_video_ext(ext: &[u8]) -> (r: bool)
    ensures
        r == video_extensions().contains(ext@),
{
    let exts: Vec<Vec<u8>> = vec![
        vec![109, 107, 118],
        vec![109, 112, 52],
        vec![97, 118, 105],
        vec![102, 108, 118],
        vec![109, 111, 118],
        vec![119, 109, 118],
        vec![119, 101, 98, 109],
        vec![109, 112, 103],
        vec![109, 112, 101, 103],
        vec![109, 52, 118],
    ];
    proof {
        assert(exts@.map_values(|x: Vec<u8>| x@) =~= video_extensions()) by {
            assert(exts@.map_values(|x: Vec<u8>| x@).len() == 10);
            assert(exts@[0]@ =~= video_extensions()[0]);
            assert(exts@[1]@ =~= video_extensions()[1]);
            assert(exts@[2]@ =~= video_extensions()[2]);
            assert(exts@[3]@ =~= video_extensions()[3]);
            assert(exts@[4]@ =~= video_extensions()[4]);
            assert(exts@[5]@ =~= video_extensions()[5]);
            assert(exts@[6]@ =~= video_extensions()[6]);
            assert(exts@[7]@ =~= video_extensions()[7]);
            assert(exts@[8]@ =~= video_extensions()[8]);
            assert(exts@[9]@ =~= video_extensions()[9]);
        }
    }
    let mut i: usize = 0;
    while i < exts.len()
        invariant
            i <= exts@.len(),
            exts@.map_values(|x: Vec<u8>| x@) == video_extensions(),
            forall|j: int| 0 <= j < i ==> video_extensions()[j] != ext@,
        decreases exts@.len() - i,
    {
        if bytes_eq(exts[i].as_slice(), ext) {
            proof {
                assert(video_extensions()[i as int] == ext@);
            }
            return true;
        }
        proof {
            assert(video_extensions()[i as int] != ext@);
        }
        i = i + 1;
    }
    proof {
        if video_extensions().contains(ext@) {
            let w = choose|j: int|
                0 <= j < video_extensions().len() && video_extensions()[j] == ext@;
            assert(video_extensions()[w] != ext@);
        }
    }
    false
}

/// Select the playable files among the directory's entries and order them.
///
/// Fails with a generic error when any entry lacks an extension; succeeds
/// otherwise with exactly the entries whose extension is a recognized
/// video container format, in lexicographic order.
pub fn select_video_files(names: &Vec<Vec<u8>>) -> (r: Result<Vec<Vec<u8>>, UpNextError>)
    ensures
        r is Ok <==> all_have_ext(names@.map_values(|x: Vec<u8>| x@)),
        r is Ok ==> {
            let out = r.unwrap()@.map_values(|x: Vec<u8>| x@);
            &&& sorted_by(out, |a: Seq<u8>, b: Seq<u8>| lex_leq(a, b))
            &&& out.to_multiset() == kept_videos(names@.map_values(|x: Vec<u8>| x@)).to_multiset()
        },
        r is Err ==> r->Err_0 is GenericError,
{
    let ghost ns = names@.map_values(|x: Vec<u8>| x@);
    let mut kept: Vec<Vec<u8>> = Vec::new();
    let mut i: usize = 0;
    proof {
        assert(kept_videos(ns.subrange(0, 0)) =~= Seq::<Seq<u8>>::empty());
        assert(ns.subrange(0, 0) =~= Seq::<Seq<u8>>::empty());
        assert(kept@.map_values(|x: Vec<u8>| x@) =~= Seq::<Seq<u8>>::empty());
    }
    while i < names.len()
        invariant
            i <= names@.len(),
            ns == names@.map_values(|x: Vec<u8>| x@),
            forall|j: int| 0 <= j < i ==> (ext_of(#[trigger] ns[j]) is Some),
            kept@.map_values(|x: Vec<u8>| x@) == kept_videos(ns.subrange(0, i as int)),
        decreases names@.len() - i,
    {
        let ghost pref = ns.subrange(0, i as int);
        proof {
            assert(ns.subrange(0, i + 1) =~= pref.push(ns[i as int]));
            assert(pref.push(ns[i as int]).drop_last() =~= pref);
        }
        match extension_of(names[i].as_slice()) {
            Some(ext) => {
                if is_video_ext(ext.as_slice()) {
                    let ghost m = kept@.map_values(|x: Vec<u8>| x@);
                    let item = vstd::slice::slice_to_vec(names[i].as_slice());
                    proof {
                        assert(item@ =~= ns[i as int]);
                        assert(is_video(ns[i as int]));
                    }
                    kept.push(item);
                    proof {
                        assert(kept@.map_values(|x: Vec<u8>| x@) =~= m.push(ns[i as int]));
                        assert(kept_videos(pref.push(ns[i as int])) =~= m.push(ns[i as int]));
                    }
                } else {
                    proof {
                        assert(!is_video(ns[i as int]));
                        assert(kept_videos(pref.push(ns[i as int])) =~= kept_videos(pref));
                    }
                }
            },
            None => {
                proof {
                    assert(ext_of(ns[i as int]) is None);
                }
                return Err(
                    UpNextError::GenericError("directory entry has no extension".to_owned()),
                );
            },
        }
        i = i + 1;
    }
    proof {
        assert(ns.subrange(0, ns.len() as int) =~= ns);
    }
    Ok(sort_paths(kept))
}

// --- searching tracked entries -------------------------------------------------

/// The entry matches a search term: its lowercased path carries the
/// lowercased term (ASCII case folding).
pub open spec fn matches_search(s: SeriesV, term: Seq<u8>) -> bool {
    contains_seq(lower_seq(s.path), lower_seq(term))
}

/// All entries whose path carries the search term, without regard to
/// ASCII case, in list order.
pub fn search_series(list: &SeriesList, term: &[u8]) -> (r: Vec<Series>)
    ensures
        r@.map_values(|s: Series| s@) == list@.filter(
            |s: SeriesV| matches_search(s, term@),
        ),
{
    let ghost p = |s: SeriesV| matches_search(s, term@);
    let low_term = to_lower(term);
    let mut out: Vec<Series> = Vec::new();
    let mut i: usize = 0;
    proof {
        reveal(Seq::filter);
        assert(list@.subrange(0, 0).filter(p) =~= Seq::<SeriesV>::empty());
        assert(list@.subrange(0, 0) =~= Seq::<SeriesV>::empty());
        assert(out@.map_values(|s: Series| s@) =~= Seq::<SeriesV>::empty());
    }
    while i < list.series.len()
        invariant
            i <= list.series@.len(),
            p == (|s: SeriesV| matches_search(s, term@)),
            low_term@ == lower_seq(term@),
            out@.map_values(|s: Series| s@) == list@.subrange(0, i as int).filter(p),
        decreases list.series@.len() - i,
    {
        let ghost pref = list@.subrange(0, i as int);
        proof {
            reveal(Seq::filter);
            assert(list@.subrange(0, i + 1) =~= pref.push(list@[i as int]));
            assert(pref.push(list@[i as int]).drop_last() =~= pref);
            assert(pref.push(list@[i as int]).filter(p) == pref.filter(p) + (if p(
                list@[i as int],
            ) {
                seq![list@[i as int]]
            } else {
                Seq::<SeriesV>::empty()
            }));
        }
        let low_path = to_lower(list.series[i].path.as_slice());
        if contains_bytes(low_path.as_slice(), low_term.as_slice()) {
            let ghost m = out@.map_values(|s: Series| s@);
            let hit = list.series[i].clone();
            let ghost hv = hit@;
            out.push(hit);
            proof {
                assert(out@.map_values(|s: Series| s@) =~= m.push(hv));
                assert(hv == list@[i as int]);
                assert(p(list@[i as int]));
            }
        } else {
            proof {
                assert(!p(list@[i as int]));
            }
        }
        i = i + 1;
    }
    proof {
        assert(list@.subrange(0, list@.len() as int) =~= list@);
    }
    out
}

// --- resolving the configuration file location ---------------------------------

/// The per-user default file name, relative to the home directory.
pub open spec fn default_config_file() -> Seq<u8> {
    seq![47u8, 46u8, 117u8, 112u8, 110u8, 101u8, 120u8, 116u8, 46u8, 116u8, 111u8, 109u8, 108u8]
}

/// Resolve where the configuration file lives: an explicit override wins;
/// otherwise the default file under the home directory; with neither, a
/// generic error.
///
/// The caller passes in what it found in the environment, so the
/// resolution itself is a pure function.
pub fn resolve_config_path(override_path: Option<Vec<u8>>, home: Option<Vec<u8>>) -> (r: Result<
    Vec<u8>,
    UpNextError,
>)
    ensures
        r is Ok <==> (override_path is Some || home is Some),
        override_path is Some ==> r is Ok && r.unwrap()@ == override_path.unwrap()@,
        override_path is None && home is Some ==> r is Ok && r.unwrap()@ == home.unwrap()@
            + default_config_file(),
        r is Err ==> r->Err_0 is GenericError,
{
    match override_path {
        Some(p) => Ok(p),
        None => match home {
            Some(h) => {
                let mut out = h;
                let suffix: Vec<u8> = vec![47, 46, 117, 112, 110, 101, 120, 116, 46, 116, 111, 109, 108];
                proof {
                    assert(suffix@ =~= default_config_file());
                }
                let ghost hv = out@;
                crate::doc::push_bytes(&mut out, suffix.as_slice());
                Ok(out)
            },
            None => Err(
                UpNextError::GenericError("could not determine the home directory".to_owned()),
            ),
        },
    }
}

} // verus!
