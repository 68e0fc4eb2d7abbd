//! The typed record list: a series (a tracked directory and the index of
//! its next episode) and the ordered, duplicate-free list of them.

use vstd::prelude::*;

use crate::bytes::bytes_eq;
use crate::errors::UpNextError;

verus! {

/// One tracked series: the directory's path and the 1-based index of the
/// next episode to play.  An index one past the number of files in the
/// directory means the series has been watched to the end.
pub struct Series {
    /// The directory path, as raw bytes, the unique identity of the entry.
    pub path: Vec<u8>,
    /// The 1-based index of the next episode.
    pub next_episode: i64,
}

/// Mathematical mirror of [`Series`].
#[verifier::ext_equal]
pub struct SeriesV {
    pub path: Seq<u8>,
    pub next_episode: int,
}

impl View for Series {
    type V = SeriesV;

    open spec fn view(&self) -> SeriesV {
        SeriesV { path: self.path@, next_episode: self.next_episode as int }
    }
}

impl Clone for Series {
    fn clone(&self) -> (r: Series)
        ensures
            r@ == self@,
    {
        Series { path: self.path.clone(), next_episode: self.next_episode }
    }
}

impl Series {
    /// Move the next-episode counter by `n`, which may be negative.
    ///
    /// Fails, leaving the entry unchanged, when the result would leave
    /// the 64-bit signed range.
    pub fn advance(&mut self, n: i64) -> (r: Result<(), UpNextError>)
        ensures
            r is Ok <==> i64::MIN <= old(self)@.next_episode + n <= i64::MAX,
            r is Ok ==> final(self)@ == (SeriesV {
                path: old(self)@.path,
                next_episode: old(self)@.next_episode + n,
            }),
            r is Err ==> final(self)@ == old(self)@ && r->Err_0 is GenericError,
    {
        if n > 0 && self.next_episode > i64::MAX - n {
            return Err(UpNextError::GenericError("episode number out of range".to_owned()));
        }
        if n < 0 && self.next_episode < i64::MIN - n {
            return Err(UpNextError::GenericError("episode number out of range".to_owned()));
        }
        self.next_episode = self.next_episode + n;
        Ok(())
    }

    /// Set the next-episode counter to an explicit value.
    pub fn set_episode(&mut self, n: u32)
        ensures
            final(self)@ == (SeriesV { path: old(self)@.path, next_episode: n as int }),
    {
        self.next_episode = n as i64;
    }
}

/// The ordered list of tracked series.  Insertion order is historical add
/// order; [`SeriesList::add_series`] keeps paths unique.
pub struct SeriesList {
    pub series: Vec<Series>,
}

impl View for SeriesList {
    type V = Seq<SeriesV>;

    open spec fn view(&self) -> Seq<SeriesV> {
        self.series@.map_values(|s: Series| s@)
    }
}

/// Some entry of `l` has the path `p`.
pub open spec fn spec_contains_path(l: Seq<SeriesV>, p: Seq<u8>) -> bool {
    exists|i: int| 0 <= i < l.len() && l[i].path == p
}

impl SeriesList {
    /// The empty list.
    pub fn new() -> (r: SeriesList)
        ensures
            r@ == Seq::<SeriesV>::empty(),
    {
        let r = SeriesList { series: Vec::new() };
        proof {
            assert(r@ =~= Seq::<SeriesV>::empty());
        }
        r
    }

    /// Begin tracking a path with the next episode set to one.
    ///
    /// Fails with `SeriesAlreadyExists`, leaving the list unchanged, when
    /// an entry with the same path is already present.
    pub fn add_series(&mut self, path: Vec<u8>) -> (r: Result<(), UpNextError>)
        ensures
            r is Ok <==> !spec_contains_path(old(self)@, path@),
            r is Ok ==> final(self)@ == old(self)@.push(
                (SeriesV { path: path@, next_episode: 1 }),
            ),
            r is Err ==> final(self)@ == old(self)@ && r->Err_0 is SeriesAlreadyExists,
    {
        if self.contains_path(path.as_slice()) {
            return Err(UpNextError::SeriesAlreadyExists);
        }
        let ghost m = self@;
        let entry = Series { path, next_episode: 1 };
        let ghost ev = entry@;
        self.series.push(entry);
        proof {
            assert(self@ =~= m.push(ev));
        }
        Ok(())
    }

    /// Stop tracking a path: every entry with that path is removed and
    /// the relative order of the rest is kept.
    pub fn remove_series(&mut self, path: &[u8])
        ensures
            final(self)@ == old(self)@.filter(|s: SeriesV| s.path != path@),
    {
        let ghost p = |s: SeriesV| s.path != path@;
        let mut out: Vec<Series> = Vec::new();
        let mut i: usize = 0;
        proof {
            reveal(Seq::filter);
            assert(self@.subrange(0, 0).filter(p) =~= Seq::<SeriesV>::empty());
            assert(out@.map_values(|s: Series| s@) =~= Seq::<SeriesV>::empty());
        }
        while i < self.series.len()
            invariant
                i <= self.series@.len(),
                p == (|s: SeriesV| s.path != path@),
                out@.map_values(|s: Series| s@) == self@.subrange(0, i as int).filter(p),
            decreases self.series@.len() - i,
        {
            let ghost pref = self@.subrange(0, i as int);
            proof {
                reveal(Seq::filter);
                assert(self@.subrange(0, i + 1) =~= pref.push(self@[i as int]));
                assert(pref.push(self@[i as int]).drop_last() =~= pref);
                assert(pref.push(self@[i as int]).filter(p) == pref.filter(p) + (if p(
                    self@[i as int],
                ) {
                    seq![self@[i as int]]
                } else {
                    Seq::<SeriesV>::empty()
                }));
            }
            if !bytes_eq(self.series[i].path.as_slice(), path) {
                let ghost m = out@.map_values(|s: Series| s@);
                let kept = self.series[i].clone();
                let ghost kv = kept@;
                out.push(kept);
                proof {
                    assert(out@.map_values(|s: Series| s@) =~= m.push(kv));
                    assert(kv == self@[i as int]);
                }
            }
            i = i + 1;
        }
        proof {
            assert(self@.subrange(0, self@.len() as int) =~= self@);
        }
        self.series = out;
    }

    /// The index of the first entry with the given path, or
    /// `MissingSeries` when no entry has it.
    pub fn find_series_index(&self, path: &[u8]) -> (r: Result<usize, UpNextError>)
        ensures
            r is Ok <==> spec_contains_path(self@, path@),
            r is Ok ==> {
                let i = r.unwrap() as int;
                &&& 0 <= i < self@.len()
                &&& self@[i].path == path@
                &&& forall|j: int| 0 <= j < i ==> self@[j].path != path@
            },
            r is Err ==> r->Err_0 is MissingSeries,
    {
        let mut i: usize = 0;
        while i < self.series.len()
            invariant
                i <= self@.len(),
                forall|j: int| 0 <= j < i ==> self@[j].path != path@,
            decreases self@.len() - i,
        {
            if bytes_eq(self.series[i].path.as_slice(), path) {
                proof {
                    assert(self@[i as int].path == path@);
                }
                return Ok(i);
            }
            i = i + 1;
        }
        Err(UpNextError::MissingSeries)
    }

    /// The entry at an index, or `MissingSeries` when out of range.
    pub fn at(&self, index: usize) -> (r: Result<&Series, UpNextError>)
        ensures
            r is Ok <==> index < self@.len(),
            r is Ok ==> r.unwrap()@ == self@[index as int],
            r is Err ==> r->Err_0 is MissingSeries,
    {
        if index < self.series.len() {
            Ok(&self.series[index])
        } else {
            Err(UpNextError::MissingSeries)
        }
    }

    /// A mutable borrow of the entry at an index, or `MissingSeries` when
    /// out of range.
    pub fn at_mut(&mut self, index: usize) -> (r: Result<&mut Series, UpNextError>)
        ensures
            r is Ok <==> index < old(self)@.len(),
            r is Ok ==> {
                let s = r.unwrap();
                &&& s@ == old(self)@[index as int]
                &&& final(self)@ == old(self)@.update(index as int, final(s)@)
            },
            r is Err ==> final(self)@ == old(self)@ && r->Err_0 is MissingSeries,
    {
        if index < self.series.len() {
            let s = &mut self.series[index];
            proof {
                assert(after_borrow(self.series)@.map_values(|x: Series| x@) =~= old(
                    self,
                )@.update(index as int, final(s)@));
            }
            Ok(s)
        } else {
            Err(UpNextError::MissingSeries)
        }
    }

    /// A mutable borrow of the first entry with the given path, or
    /// `MissingSeries` when no entry has it.
    pub fn find_series_mut(&mut self, path: &[u8]) -> (r: Result<&mut Series, UpNextError>)
        ensures
            r is Ok <==> spec_contains_path(old(self)@, path@),
            r is Ok ==> {
                let s = r.unwrap();
                exists|i: int|
                    {
                        &&& 0 <= i < old(self)@.len()
                        &&& old(self)@[i].path == path@
                        &&& (forall|j: int| 0 <= j < i ==> old(self)@[j].path != path@)
                        &&& s@ == old(self)@[i]
                        &&& final(self)@ == old(self)@.update(i, final(s)@)
                    }
            },
            r is Err ==> final(self)@ == old(self)@ && r->Err_0 is MissingSeries,
    {
        let idx = match self.find_series_index(path) {
            Ok(i) => i,
            Err(e) => {
                return Err(e);
            },
        };
        let s = &mut self.series[idx];
        proof {
            assert(after_borrow(self.series)@.map_values(|x: Series| x@) =~= old(self)@.update(
                idx as int,
                final(s)@,
            ));
        }
        Ok(s)
    }

    /// The first entry with the given path, or `MissingSeries` when no
    /// entry has it.
    pub fn find_series(&self, path: &[u8]) -> (r: Result<&Series, UpNextError>)
        ensures
            r is Ok <==> spec_contains_path(self@, path@),
            r is Ok ==> {
                let s = r.unwrap();
                exists|i: int|
                    {
                        &&& 0 <= i < self@.len()
                        &&& self@[i].path == path@
                        &&& (forall|j: int| 0 <= j < i ==> self@[j].path != path@)
                        &&& s@ == self@[i]
                    }
            },
            r is Err ==> r->Err_0 is MissingSeries,
    {
        let idx = match self.find_series_index(path) {
            Ok(i) => i,
            Err(e) => {
                return Err(e);
            },
        };
        Ok(&self.series[idx])
    }

    /// Whether some entry has the given path.
    pub fn contains_path(&self, path: &[u8]) -> (r: bool)
        ensures
            r == spec_contains_path(self@, path@),
    {
        let mut i: usize = 0;
        while i < self.series.len()
            invariant
                i <= self@.len(),
                forall|j: int| 0 <= j < i ==> self@[j].path != path@,
            decreases self@.len() - i,
        {
            if bytes_eq(self.series[i].path.as_slice(), path) {
                proof {
                    assert(self@[i as int].path == path@);
                }
                return true;
            }
            i = i + 1;
        }
        false
    }
}

} // verus!
