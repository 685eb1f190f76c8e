//! Best finishing times per map, as the speedrun bonus uses them: reaching
//! the exit in no more steps than the best time so far on that map sets a
//! new record and earns the larger bonus.
use vstd::prelude::*;

verus! {

/// Bonus for reaching the exit in a record time.
pub const RECORD_BONUS: u32 = 200;

/// Bonus for reaching the exit slower than the record.
pub const FINISH_BONUS: u32 = 100;

/// The best time recorded for map `name` in a list of entries, the latest
/// entry for that name winning.
pub open spec fn lookup(entries: Seq<(String, u32)>, name: Seq<char>) -> Option<u32>
    decreases entries.len(),
{
    if entries.len() == 0 {
        None
    } else if entries.last().0@ == name {
        Some(entries.last().1)
    } else {
        lookup(entries.drop_last(), name)
    }
}

/// No map name occurs twice.
pub open spec fn names_distinct(entries: Seq<(String, u32)>) -> bool {
    forall|i: int, j: int| 0 <= i < j < entries.len() ==> (#[trigger] entries[i]).0@ != (#[trigger] entries[j]).0@
}

/// The records after a finish in `steps` steps on map `name`, and whether it
/// set a record: it does when the map has no time yet or `steps` is not
/// more than its best.
pub open spec fn after_finish(best: Map<Seq<char>, u32>, name: Seq<char>, steps: u32) -> (Map<Seq<char>, u32>, bool) {
    if !best.contains_key(name) || steps <= best[name] {
        (best.insert(name, steps), true)
    } else {
        (best, false)
    }
}

/// The best finishing time, in steps, of each map finished so far.
///
/// The times are kept as a list of `(map name, steps)` entries with no name
/// twice, not in a `HashMap<String, u32>`: vstd specifies what a `HashMap`'s
/// `insert` and `get` do only for key types whose hashing it models
/// (`obeys_key_model`, given for integers and `bool`), and for `String` keys
/// that could only be assumed, not proved.
pub struct BestTimes {
    entries: Vec<(String, u32)>,
}

impl View for BestTimes {
    type V = Map<Seq<char>, u32>;

    closed spec fn view(&self) -> Map<Seq<char>, u32> {
        Map::new(|k: Seq<char>| lookup(self.entries@, k) is Some, |k: Seq<char>| lookup(self.entries@, k)->0)
    }
}

proof fn lemma_lookup_found(entries: Seq<(String, u32)>, i: int)
    requires
        names_distinct(entries),
        0 <= i < entries.len(),
    ensures
        lookup(entries, entries[i].0@) == Some(entries[i].1),
    decreases entries.len(),
{
    if i < entries.len() - 1 {
        assert(entries.last() == entries[entries.len() - 1]);
        assert(entries.drop_last()[i] == entries[i]);
        lemma_lookup_found(entries.drop_last(), i);
    }
}

proof fn lemma_lookup_absent(entries: Seq<(String, u32)>, name: Seq<char>)
    requires
        forall|i: int| 0 <= i < entries.len() ==> (#[trigger] entries[i]).0@ != name,
    ensures
        lookup(entries, name) is None,
    decreases entries.len(),
{
    if entries.len() > 0 {
        assert(entries.last() == entries[entries.len() - 1]);
        assert forall|i: int| 0 <= i < entries.drop_last().len() implies (#[trigger] entries.drop_last()[i]).0@ != name by {
            assert(entries.drop_last()[i] == entries[i]);
        }
        lemma_lookup_absent(entries.drop_last(), name);
    }
}

proof fn lemma_lookup_update(entries: Seq<(String, u32)>, i: int, e: (String, u32), name: Seq<char>)
    requires
        names_distinct(entries),
        0 <= i < entries.len(),
        entries[i].0@ == e.0@,
    ensures
        lookup(entries.update(i, e), name) == if name == e.0@ {
            Some(e.1)
        } else {
            lookup(entries, name)
        },
    decreases entries.len(),
{
    let u = entries.update(i, e);
    if i == entries.len() - 1 {
        assert(u.drop_last() =~= entries.drop_last());
    } else {
        assert(u.drop_last() =~= entries.drop_last().update(i, e));
        assert(u.last() == entries.last());
        assert(entries.drop_last()[i] == entries[i]);
        assert(names_distinct(entries.drop_last())) by {
            assert forall|a: int, b: int| 0 <= a < b < entries.drop_last().len() implies (#[trigger] entries.drop_last()[a]).0@
                != (#[trigger] entries.drop_last()[b]).0@ by {
                assert(entries.drop_last()[a] == entries[a]);
                assert(entries.drop_last()[b] == entries[b]);
            }
        }
        lemma_lookup_update(entries.drop_last(), i, e, name);
        assert(entries.last() == entries[entries.len() - 1]);
        assert(entries[i].0@ != entries[entries.len() - 1].0@);
    }
}

impl BestTimes {
    /// The table holds no two entries for one map.
    pub closed spec fn wf(&self) -> bool {
        names_distinct(self.entries@)
    }

    /// An empty table.
    pub fn new() -> (t: BestTimes)
        ensures
            t.wf(),
            t@ == Map::<Seq<char>, u32>::empty(),
    {
        let t = BestTimes { entries: Vec::new() };
        assert(t@ =~= Map::<Seq<char>, u32>::empty());
        t
    }

    /// The best time of map `name`, if it was ever finished.
    pub fn get(&self, name: &String) -> (r: Option<u32>)
        requires
            self.wf(),
        ensures
            r == (if self@.contains_key(name@) {
                Some(self@[name@])
            } else {
                None
            }),
    {
        let mut i: usize = 0;
        while i < self.entries.len()
            invariant
                i <= self.entries.len(),
                names_distinct(self.entries@),
                forall|k: int| 0 <= k < i ==> (#[trigger] self.entries@[k]).0@ != name@,
            decreases self.entries.len() - i,
        {
            if self.entries[i].0 == *name {
                proof {
                    lemma_lookup_found(self.entries@, i as int);
                }
                return Some(self.entries[i].1);
            }
            i = i + 1;
        }
        proof {
            lemma_lookup_absent(self.entries@, name@);
        }
        None
    }

    /// Every map with its best time, each map once.
    pub fn entries(&self) -> (v: Vec<(String, u32)>)
        requires
            self.wf(),
        ensures
            names_distinct(v@),
            forall|i: int| 0 <= i < v.len() ==> self@.contains_key((#[trigger] v@[i]).0@) && self@[v@[i].0@] == v@[i].1,
            forall|k: Seq<char>| #[trigger] self@.contains_key(k) ==> exists|i: int| 0 <= i < v.len() && (#[trigger] v@[i]).0@
                == k,
    {
        let mut v: Vec<(String, u32)> = Vec::new();
        let mut i: usize = 0;
        while i < self.entries.len()
            invariant
                i <= self.entries.len(),
                v.len() == i,
                forall|k: int| 0 <= k < i ==> (#[trigger] v@[k]).0@ == self.entries@[k].0@ && v@[k].1 == self.entries@[k].1,
            decreases self.entries.len() - i,
        {
            let name = self.entries[i].0.clone();
            v.push((name, self.entries[i].1));
            i = i + 1;
        }
        proof {
            assert forall|a: int, b: int| 0 <= a < b < v.len() implies (#[trigger] v@[a]).0@ != (#[trigger] v@[b]).0@ by {
                assert(self.entries@[a].0@ != self.entries@[b].0@);
            }
            assert forall|a: int| 0 <= a < v.len() implies self@.contains_key((#[trigger] v@[a]).0@) && self@[v@[a].0@]
                == v@[a].1 by {
                lemma_lookup_found(self.entries@, a);
            }
            assert forall|k: Seq<char>| #[trigger] self@.contains_key(k) implies exists|a: int| 0 <= a < v.len() && (
            #[trigger] v@[a]).0@ == k by {
                if forall|a: int| 0 <= a < self.entries@.len() ==> (#[trigger] self.entries@[a]).0@ != k {
                    lemma_lookup_absent(self.entries@, k);
                } else {
                    let a = choose|a: int| 0 <= a < self.entries@.len() && (#[trigger] self.entries@[a]).0@ == k;
                    assert(v@[a].0@ == k);
                }
            }
        }
        v
    }

    /// Records a finish on map `name` in `steps` steps and returns the bonus:
    /// `RECORD_BONUS` when it set a record (see `after_finish`), else
    /// `FINISH_BONUS`.
    pub fn record_finish(&mut self, name: String, steps: u32) -> (bonus: u32)
        requires
            old(self).wf(),
        ensures
            final(self).wf(),
            (final(self)@, bonus == RECORD_BONUS) == after_finish(old(self)@, name@, steps),
            bonus == RECORD_BONUS || bonus == FINISH_BONUS,
    {
        let ghost old_entries = self.entries@;
        let ghost key = name@;
        let mut i: usize = 0;
        while i < self.entries.len()
            invariant
                i <= self.entries.len(),
                self.entries@ == old_entries,
                old(self).entries@ == old_entries,
                names_distinct(old_entries),
                key == name@,
                forall|k: int| 0 <= k < i ==> (#[trigger] self.entries@[k]).0@ != name@,
            decreases self.entries.len() - i,
        {
            if self.entries[i].0 == name {
                proof {
                    lemma_lookup_found(old_entries, i as int);
                }
                let best: u32 = self.entries[i].1;
                assert(old(self)@.contains_key(key) && old(self)@[key] == best);
                if steps <= best {
                    self.entries.set(i, (name, steps));
                    proof {
                        assert forall|k: Seq<char>| #[trigger] lookup(self.entries@, k) == if k == key {
                            Some(steps)
                        } else {
                            lookup(old_entries, k)
                        } by {
                            lemma_lookup_update(old_entries, i as int, self.entries@[i as int], k);
                        }
                        assert(self@ =~= old(self)@.insert(key, steps));
                        assert forall|a: int, b: int| 0 <= a < b < self.entries@.len() implies (#[trigger] self.entries@[a]).0@
                            != (#[trigger] self.entries@[b]).0@ by {
                            if a == i {
                                assert(old_entries[a].0@ == key);
                            }
                            if b == i {
                                assert(old_entries[b].0@ == key);
                            }
                        }
                    }
                    return RECORD_BONUS;
                }
                assert(self@ =~= old(self)@);
                return FINISH_BONUS;
            }
            i = i + 1;
        }
        proof {
            lemma_lookup_absent(old_entries, key);
        }
        self.entries.push((name, steps));
        proof {
            assert(self.entries@.drop_last() =~= old_entries);
            assert forall|k: Seq<char>| #[trigger] lookup(self.entries@, k) == if k == key {
                Some(steps)
            } else {
                lookup(old_entries, k)
            } by {}
            assert(!old(self)@.contains_key(key));
            assert(self@ =~= old(self)@.insert(key, steps));
            assert forall|a: int, b: int| 0 <= a < b < self.entries@.len() implies (#[trigger] self.entries@[a]).0@
                != (#[trigger] self.entries@[b]).0@ by {
                if b == old_entries.len() {
                    assert(self.entries@[a] == old_entries[a]);
                }
            }
        }
        RECORD_BONUS
    }
}

/// A recorded best time never gets worse: after a finish, the map's best is
/// at most the finishing time and at most its earlier best, and every other
/// map keeps its best.
pub proof fn lemma_best_never_worse(best: Map<Seq<char>, u32>, name: Seq<char>, steps: u32)
    ensures
        ({
            let (next, _) = after_finish(best, name, steps);
            &&& next.contains_key(name)
            &&& next[name] <= steps
            &&& best.contains_key(name) ==> next[name] <= best[name]
            &&& forall|k: Seq<char>| k != name ==> (#[trigger] next.contains_key(k) == best.contains_key(k)) && (
            best.contains_key(k) ==> next[k] == best[k])
        }),
{
}

} // verus!
