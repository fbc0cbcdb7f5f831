//! An in-memory directory: a lookup table from file name to file bytes,
//! each name held at most once. It mirrors exactly the part of a real
//! directory that the writer touches (create, append, truncate, rename),
//! so the write loop and the rotation plan can be exercised end to end on
//! plain values.

use vstd::prelude::*;
use crate::fsmodel::DirModel;
use crate::fsmodel::apply_step;

verus! {

/// The bytes of the file called `name`, or no bytes at all where no such
/// file exists (a fresh file starts empty).
pub open spec fn contents_or_empty(fs: DirModel, name: Seq<char>) -> Seq<u8> {
    if fs.dom().contains(name) {
        fs[name]
    } else {
        Seq::empty()
    }
}

pub struct SimDir {
    entries: Vec<(String, Vec<u8>)>,
}

spec fn entries_map(s: Seq<(String, Vec<u8>)>) -> DirModel
    decreases s.len(),
{
    if s.len() == 0 {
        Map::empty()
    } else {
        entries_map(s.drop_last()).insert(s.last().0@, s.last().1@)
    }
}

spec fn distinct_names(s: Seq<(String, Vec<u8>)>) -> bool {
    forall|i: int, j: int| 0 <= i < j < s.len() ==> (#[trigger] s[i]).0@ != (#[trigger] s[j]).0@
}

proof fn lemma_entries_map_contains(s: Seq<(String, Vec<u8>)>, name: Seq<char>)
    ensures
        entries_map(s).dom().contains(name) <==> exists|i: int|
            0 <= i < s.len() && (#[trigger] s[i]).0@ == name,
    decreases s.len(),
{
    if s.len() > 0 {
        lemma_entries_map_contains(s.drop_last(), name);
        assert(forall|i: int| 0 <= i < s.len() - 1 ==> #[trigger] s.drop_last()[i] == s[i]);
        if entries_map(s).dom().contains(name) {
            if name == s.last().0@ {
                assert((s[s.len() - 1]).0@ == name);
            } else {
                let i = choose|i: int|
                    0 <= i < s.drop_last().len() && (#[trigger] s.drop_last()[i]).0@ == name;
                assert((s[i]).0@ == name);
            }
        }
        if exists|i: int| 0 <= i < s.len() && (#[trigger] s[i]).0@ == name {
            let i = choose|i: int| 0 <= i < s.len() && (#[trigger] s[i]).0@ == name;
            if i < s.len() - 1 {
                assert((s.drop_last()[i]).0@ == name);
            }
        }
    }
}

proof fn lemma_distinct_drop_last(s: Seq<(String, Vec<u8>)>)
    requires
        distinct_names(s),
        s.len() > 0,
    ensures
        distinct_names(s.drop_last()),
{
    assert(forall|i: int| 0 <= i < s.len() - 1 ==> #[trigger] s.drop_last()[i] == s[i]);
}

proof fn lemma_entries_map_value(s: Seq<(String, Vec<u8>)>, i: int)
    requires
        distinct_names(s),
        0 <= i < s.len(),
    ensures
        entries_map(s).dom().contains(s[i].0@),
        entries_map(s)[s[i].0@] == s[i].1@,
    decreases s.len(),
{
    if i == s.len() - 1 {
        assert(s.last() == s[i]);
    } else {
        lemma_distinct_drop_last(s);
        assert(s.drop_last()[i] == s[i]);
        lemma_entries_map_value(s.drop_last(), i);
        assert(s.last().0@ != s[i].0@);
    }
}

proof fn lemma_entries_map_remove(s: Seq<(String, Vec<u8>)>, i: int)
    requires
        distinct_names(s),
        0 <= i < s.len(),
    ensures
        entries_map(s.remove(i)) == entries_map(s).remove(s[i].0@),
    decreases s.len(),
{
    let k = s[i].0@;
    if i == s.len() - 1 {
        assert(s.remove(i) =~= s.drop_last());
        lemma_distinct_drop_last(s);
        lemma_entries_map_contains(s.drop_last(), k);
        assert(forall|j: int| 0 <= j < s.len() - 1 ==> #[trigger] s.drop_last()[j] == s[j]);
        assert(!entries_map(s.drop_last()).dom().contains(k));
        assert(entries_map(s.drop_last()).insert(k, s.last().1@).remove(k) =~= entries_map(
            s.drop_last(),
        ));
    } else {
        let t = s.remove(i);
        assert(t.len() == s.len() - 1);
        assert(t.last() == s.last());
        assert(t.drop_last() =~= s.drop_last().remove(i));
        lemma_distinct_drop_last(s);
        assert(s.drop_last()[i] == s[i]);
        lemma_entries_map_remove(s.drop_last(), i);
        assert(s.last().0@ != k);
        assert(entries_map(s.drop_last()).remove(k).insert(s.last().0@, s.last().1@)
            =~= entries_map(s.drop_last()).insert(s.last().0@, s.last().1@).remove(k));
        assert(entries_map(t) == entries_map(t.drop_last()).insert(t.last().0@, t.last().1@));
    }
}

impl View for SimDir {
    type V = DirModel;

    closed spec fn view(&self) -> DirModel {
        entries_map(self.entries@)
    }
}

impl SimDir {
    /// Each name is held at most once.
    pub closed spec fn wf(&self) -> bool {
        distinct_names(self.entries@)
    }

    /// An empty directory.
    pub fn new() -> (d: Self)
        ensures
            d.wf(),
            d@ == Map::<Seq<char>, Seq<u8>>::empty(),
    {
        SimDir { entries: Vec::new() }
    }

    fn find(&self, name: &String) -> (r: Option<usize>)
        ensures
            match r {
                Some(i) => i < self.entries@.len() && self.entries@[i as int].0@ == name@,
                None => forall|i: int|
                    0 <= i < self.entries@.len() ==> (#[trigger] self.entries@[i]).0@ != name@,
            },
    {
        let mut i: usize = 0;
        while i < self.entries.len()
            invariant
                i <= self.entries@.len(),
                forall|j: int| 0 <= j < i ==> (#[trigger] self.entries@[j]).0@ != name@,
            decreases self.entries@.len() - i,
        {
            if self.entries[i].0 == *name {
                return Some(i);
            }
            i = i + 1;
        }
        None
    }

    /// The bytes of the file called `name`, where it exists.
    pub fn read(&self, name: &String) -> (r: Option<&Vec<u8>>)
        requires
            self.wf(),
        ensures
            match r {
                Some(v) => self@.dom().contains(name@) && v@ == self@[name@],
                None => !self@.dom().contains(name@),
            },
    {
        proof {
            lemma_entries_map_contains(self.entries@, name@);
        }
        match self.find(name) {
            Some(i) => {
                proof {
                    lemma_entries_map_value(self.entries@, i as int);
                }
                Some(&self.entries[i].1)
            },
            None => None,
        }
    }

    /// Creates or replaces the file called `name` with exactly `data`:
    /// what opening with truncation and writing does.
    pub fn write(&mut self, name: &String, data: Vec<u8>)
        requires
            old(self).wf(),
        ensures
            final(self).wf(),
            final(self)@ == old(self)@.insert(name@, data@),
    {
        let ghost s0 = self.entries@;
        match self.find(name) {
            Some(i) => {
                proof {
                    lemma_entries_map_value(s0, i as int);
                    lemma_entries_map_remove(s0, i as int);
                }
                let (k, _old_data) = self.entries.remove(i);
                proof {
                    let t = s0.remove(i as int);
                    assert(forall|j: int| 0 <= j < i ==> #[trigger] t[j] == s0[j]);
                    assert(forall|j: int|
                        i <= j < t.len() ==> #[trigger] t[j] == s0[j + 1]);
                    assert(distinct_names(t));
                    lemma_entries_map_contains(t, k@);
                    assert(!entries_map(t).dom().contains(k@));
                }
                let ghost s1 = self.entries@;
                self.entries.push((k, data));
                proof {
                    assert(self.entries@.drop_last() =~= s1);
                    assert(distinct_names(self.entries@));
                    assert(entries_map(self.entries@) == entries_map(s1).insert(k@, data@));
                    assert(entries_map(s1) == entries_map(s0).remove(k@));
                    assert(entries_map(s0).remove(k@).insert(k@, data@) =~= entries_map(
                        s0,
                    ).insert(k@, data@));
                }
            },
            None => {
                proof {
                    lemma_entries_map_contains(s0, name@);
                }
                let k = name.clone();
                self.entries.push((k, data));
                proof {
                    assert(self.entries@.drop_last() =~= s0);
                    assert(distinct_names(self.entries@));
                    assert(entries_map(self.entries@) == entries_map(s0).insert(name@, data@));
                }
            },
        }
    }

    /// Appends `data` to the file called `name`, creating it empty first
    /// where it does not exist: what opening in append mode and writing
    /// does.
    pub fn append(&mut self, name: &String, data: &Vec<u8>)
        requires
            old(self).wf(),
        ensures
            final(self).wf(),
            final(self)@ == old(self)@.insert(
                name@,
                contents_or_empty(old(self)@, name@) + data@,
            ),
    {
        proof {
            lemma_entries_map_contains(self.entries@, name@);
        }
        let mut content: Vec<u8> = match self.read(name) {
            Some(v) => vstd::slice::slice_to_vec(v.as_slice()),
            None => Vec::new(),
        };
        let ghost base = content@;
        assert(base == contents_or_empty(self@, name@));
        let mut j: usize = 0;
        while j < data.len()
            invariant
                j <= data@.len(),
                content@ == base + data@.take(j as int),
            decreases data@.len() - j,
        {
            content.push(data[j]);
            proof {
                assert(base + data@.take(j + 1int) =~= (base + data@.take(j as int)).push(
                    data@[j as int],
                ));
            }
            j = j + 1;
        }
        proof {
            assert(data@.take(data@.len() as int) =~= data@);
        }
        self.write(name, content);
    }

    /// Renames `from` onto `to`, overwriting `to`; where no file called
    /// `from` exists, reports failure and changes nothing, as a tolerated
    /// rename failure does.
    pub fn rename(&mut self, from: &String, to: &String) -> (moved: bool)
        requires
            old(self).wf(),
        ensures
            final(self).wf(),
            final(self)@ == apply_step(old(self)@, from@, to@),
            moved == old(self)@.dom().contains(from@),
    {
        let ghost s0 = self.entries@;
        proof {
            lemma_entries_map_contains(s0, from@);
        }
        match self.find(from) {
            Some(i) => {
                proof {
                    lemma_entries_map_value(s0, i as int);
                    lemma_entries_map_remove(s0, i as int);
                }
                let (_k, data) = self.entries.remove(i);
                proof {
                    let t = s0.remove(i as int);
                    assert(forall|j: int| 0 <= j < i ==> #[trigger] t[j] == s0[j]);
                    assert(forall|j: int|
                        i <= j < t.len() ==> #[trigger] t[j] == s0[j + 1]);
                    assert(distinct_names(t));
                }
                self.write(to, data);
                true
            },
            None => false,
        }
    }
}

} // verus!
