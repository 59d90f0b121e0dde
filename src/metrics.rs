//! Named signed counters. The counts live in a list of `(name, count)`
//! pairs with no name twice; callers that share one across threads guard it
//! themselves.
use vstd::prelude::*;
use vstd::string::StringExecFns;

verus! {

/// No name occurs in two entries.
pub open spec fn names_distinct(d: Seq<(String, i64)>) -> bool {
    forall|j: int, k: int|
        0 <= j < d.len() && 0 <= k < d.len() && j != k ==> (#[trigger] d[j]).0@ != (
        #[trigger] d[k]).0@
}

/// Some entry is named `name`.
pub open spec fn has_name(d: Seq<(String, i64)>, name: Seq<char>) -> bool {
    exists|j: int| 0 <= j < d.len() && (#[trigger] d[j]).0@ == name
}

/// The entries as a map from name to count.
pub open spec fn counts_of(d: Seq<(String, i64)>) -> Map<Seq<char>, i64> {
    Map::new(
        |name: Seq<char>| has_name(d, name),
        |name: Seq<char>| d[choose|j: int| 0 <= j < d.len() && (#[trigger] d[j]).0@ == name].1,
    )
}

/// The count under `name`, zero for a name with no counter.
pub open spec fn count_in(m: Map<Seq<char>, i64>, name: Seq<char>) -> i64 {
    if m.contains_key(name) {
        m[name]
    } else {
        0
    }
}

/// In entries with distinct names, entry `j` is the one that `counts_of` reads.
pub proof fn lemma_counts_at(d: Seq<(String, i64)>, j: int)
    requires
        names_distinct(d),
        0 <= j < d.len(),
    ensures
        counts_of(d).contains_key(d[j].0@),
        counts_of(d)[d[j].0@] == d[j].1,
{
    assert(has_name(d, d[j].0@));
    let k = choose|k: int| 0 <= k < d.len() && (#[trigger] d[k]).0@ == d[j].0@;
    assert(k == j);
}

/// A set of named counters.
pub struct Metrics {
    data: Vec<(String, i64)>,
}

impl View for Metrics {
    type V = Map<Seq<char>, i64>;

    closed spec fn view(&self) -> Map<Seq<char>, i64> {
        counts_of(self.data@)
    }
}

impl Metrics {
    /// No two counters share a name.
    pub closed spec fn wf(&self) -> bool {
        names_distinct(self.data@)
    }

    /// No counters.
    pub fn new() -> (r: Self)
        ensures
            r.wf(),
            r@ == Map::<Seq<char>, i64>::empty(),
    {
        let r = Metrics { data: Vec::new() };
        proof {
            assert(r@ =~= Map::<Seq<char>, i64>::empty());
        }
        r
    }

    /// Where the entry named `name` stands, if there is one.
    fn position(&self, name: &String) -> (r: Option<usize>)
        ensures
            match r {
                Some(p) => p < self.data@.len() && self.data@[p as int].0@ == name@,
                None => !has_name(self.data@, name@),
            },
    {
        let mut i: usize = 0;
        while i < self.data.len()
            invariant
                i <= self.data@.len(),
                forall|j: int| 0 <= j < i ==> (#[trigger] self.data@[j]).0@ != name@,
            decreases self.data@.len() - i,
        {
            if self.data[i].0 == *name {
                return Some(i);
            }
            i = i + 1;
        }
        None
    }

    /// Sets the entry named `name` to `v` when there is one, and otherwise
    /// adds an entry `(name, v)`.
    fn store(&mut self, name: String, v: i64)
        requires
            old(self).wf(),
        ensures
            final(self).wf(),
            final(self)@ == old(self)@.insert(name@, v),
    {
        let ghost d0 = self.data@;
        let ghost key = name@;
        match self.position(&name) {
            Some(p) => {
                self.data.set(p, (name, v));
                proof {
                    let d = self.data@;
                    assert(names_distinct(d)) by {
                        assert forall|j: int, k: int|
                            0 <= j < d.len() && 0 <= k < d.len() && j != k implies (
                            #[trigger] d[j]).0@ != (#[trigger] d[k]).0@ by {
                            assert(d0[j].0@ != d0[k].0@);
                        }
                    }
                    assert forall|n: Seq<char>| has_name(d, n) <==> has_name(d0, n) || n == key by {
                        if has_name(d0, n) {
                            let j = choose|j: int| 0 <= j < d0.len() && (#[trigger] d0[j]).0@ == n;
                            assert(d[j].0@ == n);
                        }
                        if has_name(d, n) {
                            let j = choose|j: int| 0 <= j < d.len() && (#[trigger] d[j]).0@ == n;
                            if j != p {
                                assert(d0[j].0@ == n);
                            }
                        }
                        if n == key {
                            assert(d[p as int].0@ == n);
                        }
                    }
                    assert(counts_of(d) =~= counts_of(d0).insert(key, v)) by {
                        assert forall|n: Seq<char>| #[trigger]
                            counts_of(d).contains_key(n) implies counts_of(d)[n] == counts_of(
                            d0,
                        ).insert(key, v)[n] by {
                            let j = choose|j: int| 0 <= j < d.len() && (#[trigger] d[j]).0@ == n;
                            lemma_counts_at(d, j);
                            if j != p {
                                lemma_counts_at(d0, j);
                            }
                        }
                    }
                }
            },
            None => {
                self.data.push((name, v));
                proof {
                    let d = self.data@;
                    let last = d0.len() as int;
                    assert(names_distinct(d)) by {
                        assert forall|j: int, k: int|
                            0 <= j < d.len() && 0 <= k < d.len() && j != k implies (
                            #[trigger] d[j]).0@ != (#[trigger] d[k]).0@ by {
                            if j < last && k < last {
                                assert(d0[j].0@ != d0[k].0@);
                            } else if j < last {
                                assert(d[j] == d0[j]);
                            } else {
                                assert(d[k] == d0[k]);
                            }
                        }
                    }
                    assert forall|n: Seq<char>| has_name(d, n) <==> has_name(d0, n) || n == key by {
                        if has_name(d0, n) {
                            let j = choose|j: int| 0 <= j < d0.len() && (#[trigger] d0[j]).0@ == n;
                            assert(d[j].0@ == n);
                        }
                        if has_name(d, n) {
                            let j = choose|j: int| 0 <= j < d.len() && (#[trigger] d[j]).0@ == n;
                            if j < last {
                                assert(d0[j].0@ == n);
                            }
                        }
                        if n == key {
                            assert(d[last].0@ == n);
                        }
                    }
                    assert(counts_of(d) =~= counts_of(d0).insert(key, v)) by {
                        assert forall|n: Seq<char>| #[trigger]
                            counts_of(d).contains_key(n) implies counts_of(d)[n] == counts_of(
                            d0,
                        ).insert(key, v)[n] by {
                            let j = choose|j: int| 0 <= j < d.len() && (#[trigger] d[j]).0@ == n;
                            lemma_counts_at(d, j);
                            if j < last {
                                assert(d[j] == d0[j]);
                                lemma_counts_at(d0, j);
                            }
                        }
                    }
                }
            },
        }
    }

    /// The count of the entry named `name`, if there is one.
    fn count_of(&self, name: &String) -> (r: Option<i64>)
        requires
            self.wf(),
        ensures
            match r {
                Some(v) => self@.contains_key(name@) && self@[name@] == v,
                None => !self@.contains_key(name@),
            },
    {
        match self.position(name) {
            Some(p) => {
                proof {
                    lemma_counts_at(self.data@, p as int);
                }
                Some(self.data[p].1)
            },
            None => None,
        }
    }

    /// The counter `key`, if it has been touched.
    pub fn count(&self, key: &str) -> (r: Option<i64>)
        requires
            self.wf(),
        ensures
            match r {
                Some(v) => self@.contains_key(key@) && self@[key@] == v,
                None => !self@.contains_key(key@),
            },
    {
        let name = String::from_str(key);
        self.count_of(&name)
    }

    /// Adds one to the counter `key`; a counter not seen before counts from zero.
    pub fn inc(&mut self, key: &str)
        requires
            old(self).wf(),
            count_in(old(self)@, key@) < i64::MAX,
        ensures
            final(self).wf(),
            final(self)@ == old(self)@.insert(key@, (count_in(old(self)@, key@) + 1) as i64),
    {
        let name = String::from_str(key);
        match self.count_of(&name) {
            Some(v) => self.store(name, v + 1),
            None => self.store(name, 1),
        }
    }

    /// Takes one from the counter `key`; a counter not seen before counts
    /// from zero.
    pub fn dec(&mut self, key: &str)
        requires
            old(self).wf(),
            count_in(old(self)@, key@) > i64::MIN,
        ensures
            final(self).wf(),
            final(self)@ == old(self)@.insert(key@, (count_in(old(self)@, key@) - 1) as i64),
    {
        let name = String::from_str(key);
        match self.count_of(&name) {
            Some(v) => self.store(name, v - 1),
            None => self.store(name, -1),
        }
    }

    /// A copy of every counter, one `(name, count)` pair each.
    pub fn snapshot(&self) -> (r: Vec<(String, i64)>)
        requires
            self.wf(),
        ensures
            names_distinct(r@),
            counts_of(r@) == self@,
    {
        let mut r: Vec<(String, i64)> = Vec::new();
        let mut i: usize = 0;
        while i < self.data.len()
            invariant
                i <= self.data@.len(),
                r@.len() == i,
                names_distinct(self.data@),
                forall|j: int|
                    0 <= j < i ==> (#[trigger] r@[j]).0@ == self.data@[j].0@ && r@[j].1
                        == self.data@[j].1,
            decreases self.data@.len() - i,
        {
            let name = self.data[i].0.clone();
            r.push((name, self.data[i].1));
            i = i + 1;
        }
        proof {
            let d = self.data@;
            let s = r@;
            assert(names_distinct(s)) by {
                assert forall|j: int, k: int|
                    0 <= j < s.len() && 0 <= k < s.len() && j != k implies (#[trigger] s[j]).0@ != (
                    #[trigger] s[k]).0@ by {
                    assert(d[j].0@ != d[k].0@);
                }
            }
            assert forall|n: Seq<char>| has_name(s, n) <==> has_name(d, n) by {
                if has_name(s, n) {
                    let j = choose|j: int| 0 <= j < s.len() && (#[trigger] s[j]).0@ == n;
                    assert(d[j].0@ == n);
                }
                if has_name(d, n) {
                    let j = choose|j: int| 0 <= j < d.len() && (#[trigger] d[j]).0@ == n;
                    assert(s[j].0@ == n);
                }
            }
            assert(counts_of(s) =~= counts_of(d)) by {
                assert forall|n: Seq<char>| #[trigger]
                    counts_of(s).contains_key(n) implies counts_of(s)[n] == counts_of(d)[n] by {
                    let j = choose|j: int| 0 <= j < s.len() && (#[trigger] s[j]).0@ == n;
                    lemma_counts_at(s, j);
                    lemma_counts_at(d, j);
                }
            }
        }
        r
    }
}

} // verus!
