//! Where each book was left.
use crate::single::Single;
use vstd::prelude::*;
use vstd::string::*;

verus! {

/// The word and the pace at which a book was left.
#[derive(Clone, Copy, Debug, PartialEq, Eq, Structural)]
pub struct Saved {
    pub index: usize,
    pub wpm: Single,
}

/// Where each book was left, by the path of its file.
#[derive(Debug)]
pub struct Progress {
    entries: Vec<(String, Saved)>,
}

/// Whether `path` is the path of one of `entries`.
pub open spec fn listed(entries: Seq<(String, Saved)>, path: Seq<char>) -> bool {
    exists|i: int| 0 <= i < entries.len() && (#[trigger] entries[i]).0@ == path
}

/// The place in `entries` of an entry with the given path.
pub open spec fn place(entries: Seq<(String, Saved)>, path: Seq<char>) -> int {
    choose|i: int| 0 <= i < entries.len() && (#[trigger] entries[i]).0@ == path
}

/// What `entries` hold for each path.
pub open spec fn mapping(entries: Seq<(String, Saved)>) -> Map<Seq<char>, Saved> {
    Map::new(
        |path: Seq<char>| listed(entries, path),
        |path: Seq<char>| entries[place(entries, path)].1,
    )
}

/// No path occurs twice.
pub open spec fn distinct(entries: Seq<(String, Saved)>) -> bool {
    forall|i: int, j: int|
        0 <= i < j < entries.len() ==> (#[trigger] entries[i]).0@ != (#[trigger] entries[j]).0@
}

impl View for Progress {
    type V = Map<Seq<char>, Saved>;

    closed spec fn view(&self) -> Map<Seq<char>, Saved> {
        mapping(self.entries@)
    }
}

impl Progress {
    /// No path occurs twice.
    pub closed spec fn wf(&self) -> bool {
        distinct(self.entries@)
    }

    /// No book was left anywhere.
    pub fn new() -> (r: Progress)
        ensures
            r.wf(),
            r@ == Map::<Seq<char>, Saved>::empty(),
    {
        let r = Progress { entries: Vec::new() };
        assert(r@ =~= Map::<Seq<char>, Saved>::empty());
        r
    }

    /// The place of the entry for `path`.
    fn find(&self, path: &String) -> (r: Option<usize>)
        ensures
            match r {
                Some(i) => i < self.entries@.len() && self.entries@[i as int].0@ == path@,
                None => !listed(self.entries@, path@),
            },
    {
        let mut i: usize = 0;
        while i < self.entries.len()
            invariant
                i <= self.entries.len(),
                forall|j: int| 0 <= j < i ==> (#[trigger] self.entries@[j]).0@ != path@,
            decreases self.entries.len() - i,
        {
            if self.entries[i].0 == *path {
                return Some(i);
            }
            i = i + 1;
        }
        None
    }

    /// What is held for `path`.
    pub fn get(&self, path: &String) -> (r: Option<Saved>)
        requires
            self.wf(),
        ensures
            r == (if self@.dom().contains(path@) {
                Some(self@[path@])
            } else {
                None
            }),
    {
        match self.find(path) {
            Some(i) => {
                assert(listed(self.entries@, path@));
                assert(place(self.entries@, path@) == i);
                Some(self.entries[i].1)
            },
            None => None,
        }
    }

    /// Holds `saved` for `path`, in place of what was held before.
    pub fn insert(&mut self, path: String, saved: Saved)
        requires
            old(self).wf(),
        ensures
            final(self).wf(),
            final(self)@ == old(self)@.insert(path@, saved),
    {
        let ghost before = self.entries@;
        match self.find(&path) {
            Some(i) => {
                self.entries.set(i, (path, saved));
                let ghost now = self.entries@;
                proof {
                    assert(now[i as int].0@ == path@);
                    assert forall|p: Seq<char>| listed(now, p) == (p == path@ || listed(before, p)) by {
                        if listed(now, p) && p != path@ {
                            let j = place(now, p);
                            assert(before[j].0@ == p);
                        }
                        if listed(before, p) {
                            let j = place(before, p);
                            assert(now[j].0@ == p);
                        }
                    }
                    assert(self@ =~= mapping(before).insert(path@, saved)) by {
                        assert forall|p: Seq<char>| listed(now, p) implies mapping(now)[p]
                            == mapping(before).insert(path@, saved)[p] by {
                            let j = place(now, p);
                            if p == path@ {
                                assert(j == i);
                            } else {
                                assert(before[j].0@ == p);
                                assert(place(before, p) == j);
                            }
                        }
                    }
                }
            },
            None => {
                self.entries.push((path, saved));
                let ghost now = self.entries@;
                proof {
                    let n = before.len() as int;
                    assert(now[n].0@ == path@);
                    assert forall|i: int, j: int| 0 <= i < j < now.len() implies (
                    #[trigger] now[i]).0@ != (#[trigger] now[j]).0@ by {
                        if j == n {
                            assert(before[i].0@ == now[i].0@);
                        } else {
                            assert(before[i].0@ != before[j].0@);
                        }
                    }
                    assert forall|p: Seq<char>| listed(now, p) == (p == path@ || listed(before, p)) by {
                        if listed(now, p) && p != path@ {
                            let j = place(now, p);
                            assert(before[j].0@ == p);
                        }
                        if listed(before, p) {
                            let j = place(before, p);
                            assert(now[j].0@ == p);
                        }
                    }
                    assert(self@ =~= mapping(before).insert(path@, saved)) by {
                        assert forall|p: Seq<char>| listed(now, p) implies mapping(now)[p]
                            == mapping(before).insert(path@, saved)[p] by {
                            let j = place(now, p);
                            if p == path@ {
                                assert(j == n);
                            } else {
                                assert(before[j].0@ == p);
                                assert(place(before, p) == j);
                            }
                        }
                    }
                }
            },
        }
    }

    /// All that is held, each path once.
    pub fn entries(&self) -> (r: &Vec<(String, Saved)>)
        requires
            self.wf(),
        ensures
            distinct(r@),
            mapping(r@) == self@,
    {
        &self.entries
    }
}

/// Each path of a list without repetitions has what stands beside it, and no
/// other path has anything.
pub proof fn every_entry_is_held(entries: Seq<(String, Saved)>, path: Seq<char>)
    requires
        distinct(entries),
    ensures
        forall|i: int|
            0 <= i < entries.len() ==> mapping(entries).dom().contains((#[trigger] entries[i]).0@)
                && mapping(entries)[entries[i].0@] == entries[i].1,
        mapping(entries).dom().contains(path) ==> exists|i: int|
            0 <= i < entries.len() && (#[trigger] entries[i]).0@ == path,
{
    assert forall|i: int| 0 <= i < entries.len() implies mapping(entries).dom().contains(
        (#[trigger] entries[i]).0@,
    ) && mapping(entries)[entries[i].0@] == entries[i].1 by {
        assert(listed(entries, entries[i].0@));
        let j = place(entries, entries[i].0@);
        assert(entries[j].0@ == entries[i].0@);
    }
}

} // verus!
