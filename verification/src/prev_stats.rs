//! Per-dimension store of the last-seen cumulative counters per group.

use vstd::prelude::*;
use vstd::pervasive::VecAdditionalExecFns;

use crate::limiter::GroupStatistics;

verus! {

/// The counters each group reported when it was last observed, keyed by
/// group name. Entries of deleted groups may linger harmlessly; they are
/// overwritten if a group with the same name reappears.
#[derive(Debug)]
pub struct PrevStats {
    pub entries: Vec<(String, GroupStatistics)>,
}

/// First entry carrying `name`, as a mathematical function.
pub open spec fn spec_lookup(es: Seq<(String, GroupStatistics)>, name: Seq<char>) -> Option<
    GroupStatistics,
>
    decreases es.len(),
{
    if es.len() == 0 {
        None
    } else if es[0].0@ == name {
        Some(es[0].1)
    } else {
        spec_lookup(es.drop_first(), name)
    }
}

impl PrevStats {
    /// Well-formedness: one entry per name.
    pub open spec fn wf(self) -> bool {
        forall|i: int, j: int|
            #![trigger self.entries@[i], self.entries@[j]]
            0 <= i < j < self.entries@.len() ==> self.entries@[i].0@ != self.entries@[j].0@
    }

    /// An empty store.
    pub fn new() -> (r: PrevStats)
        ensures
            r.entries@.len() == 0,
            r.wf(),
    {
        PrevStats { entries: Vec::new() }
    }

    /// The stored counters for `name`, if any.
    pub fn get(&self, name: &String) -> (r: Option<GroupStatistics>)
        ensures
            r == spec_lookup(self.entries@, name@),
    {
        let n = self.entries.len();
        let mut i: usize = 0;
        while i < n
            invariant
                n == self.entries.len(),
                i <= n,
                forall|j: int| 0 <= j < i ==> self.entries[j].0@ != name@,
            decreases n - i,
        {
            if self.entries[i].0 == *name {
                proof {
                    lemma_lookup_at(self.entries@, name@, i as int);
                }
                return Some(self.entries[i].1);
            }
            i = i + 1;
        }
        proof {
            lemma_lookup_none(self.entries@, name@);
        }
        None
    }

    /// Stores `st` as the counters for `name`, replacing any old entry.
    pub fn put(&mut self, name: &String, st: GroupStatistics)
        requires
            old(self).wf(),
        ensures
            final(self).wf(),
            forall|n: Seq<char>|
                #[trigger] spec_lookup(final(self).entries@, n) == if n == name@ {
                    Some(st)
                } else {
                    spec_lookup(old(self).entries@, n)
                },
    {
        proof {
            lemma_lookup_is_first_match(self.entries@, name@);
        }
        let n = self.entries.len();
        let mut i: usize = 0;
        while i < n
            invariant
                n == self.entries.len(),
                i <= n,
                forall|j: int| 0 <= j < i ==> self.entries[j].0@ != name@,
                *self == *old(self),
                old(self).wf(),
            decreases n - i,
        {
            if self.entries[i].0 == *name {
                let nm = name.clone();
                self.entries.set(i, (nm, st));
                proof {
                    assert forall|m: Seq<char>|
                        #[trigger] spec_lookup(final(self).entries@, m) == (if m == name@ {
                            Some(st)
                        } else {
                            spec_lookup(old(self).entries@, m)
                        }) by {
                        lemma_lookup_update(old(self).entries@, i as int, final(self).entries@[i as int].0, st, m);
                    }
                    assert(final(self).entries@.len() == old(self).entries@.len());
                    assert forall|k: int|
                        0 <= k < final(self).entries@.len() implies final(self).entries@[k].0@
                        == old(self).entries@[k].0@ by {
                        if k != i as int {
                            assert(final(self).entries@[k] == old(self).entries@[k]);
                        }
                    }
                    assert forall|a: int, b: int|
                        #![trigger final(self).entries@[a], final(self).entries@[b]]
                        0 <= a < b < final(self).entries@.len() implies final(self).entries@[a].0@
                        != final(self).entries@[b].0@ by {
                        assert(old(self).entries@[a] == old(self).entries@[a]);
                        assert(old(self).entries@[b] == old(self).entries@[b]);
                        assert(old(self).entries@[a].0@ != old(self).entries@[b].0@);
                        assert(final(self).entries@[a].0@ == old(self).entries@[a].0@);
                        assert(final(self).entries@[b].0@ == old(self).entries@[b].0@);
                    }
                }
                return ;
            }
            i = i + 1;
        }
        self.entries.push((name.clone(), st));
        proof {
            assert forall|m: Seq<char>|
                #[trigger] spec_lookup(final(self).entries@, m) == if m == name@ {
                    Some(st)
                } else {
                    spec_lookup(old(self).entries@, m)
                } by {
                lemma_lookup_push(old(self).entries@, final(self).entries@.last().0, st, m);
            }
            assert(forall|k: int|
                0 <= k < old(self).entries@.len() ==> final(self).entries@[k] == old(
                    self,
                ).entries@[k]);
        }
    }
}

/// `spec_lookup` finds the first entry with the given name, and `None`
/// exactly when no entry has it.
pub proof fn lemma_lookup_is_first_match(es: Seq<(String, GroupStatistics)>, name: Seq<char>)
    ensures
        match spec_lookup(es, name) {
            Some(st) => exists|i: int|
                0 <= i < es.len() && es[i].0@ == name && es[i].1 == st && (forall|j: int|
                    0 <= j < i ==> es[j].0@ != name),
            None => forall|j: int| 0 <= j < es.len() ==> es[j].0@ != name,
        },
    decreases es.len(),
{
    if es.len() > 0 && es[0].0@ != name {
        let tail = es.drop_first();
        lemma_lookup_is_first_match(tail, name);
        assert(forall|j: int| 0 <= j < tail.len() ==> #[trigger] tail[j] == es[j + 1]);
        match spec_lookup(tail, name) {
            Some(st) => {
                let i = choose|i: int|
                    0 <= i < tail.len() && tail[i].0@ == name && tail[i].1 == st && (forall|j: int|
                        0 <= j < i ==> tail[j].0@ != name);
                assert(es[i + 1].0@ == name && es[i + 1].1 == st);
                assert forall|j: int| 0 <= j < i + 1 implies es[j].0@ != name by {
                    if j > 0 {
                        assert(tail[j - 1].0@ != name);
                    }
                }
            },
            None => {
                assert forall|j: int| 0 <= j < es.len() implies es[j].0@ != name by {
                    if j > 0 {
                        assert(tail[j - 1].0@ != name);
                    }
                }
            },
        }
    }
}

/// Overwriting the first entry that carries `name` changes exactly the
/// lookups of `name`, provided the entries before it do not carry it.
proof fn lemma_lookup_update(
    es: Seq<(String, GroupStatistics)>,
    i: int,
    nm: String,
    st: GroupStatistics,
    m: Seq<char>,
)
    requires
        0 <= i < es.len(),
        es[i].0@ == nm@,
        forall|j: int| 0 <= j < i ==> es[j].0@ != nm@,
    ensures
        spec_lookup(es.update(i, ((nm, st))), m) == if m == nm@ {
            Some(st)
        } else {
            spec_lookup(es, m)
        },
    decreases es.len(),
{
    let es2 = es.update(i, ((nm, st)));
    assert(es2[0] == if i == 0 { (nm, st) } else { es[0] });
    if i == 0 {
        if m != nm@ {
            assert(es2.drop_first() =~= es.drop_first());
        }
    } else {
        lemma_lookup_update(es.drop_first(), i - 1, nm, st, m);
        assert(es2.drop_first() =~= es.drop_first().update(i - 1, ((nm, st))));
        assert(es.drop_first()[i - 1] == es[i]);
    }
}

/// The stored counters of the first entry carrying `name`.
proof fn lemma_lookup_at(es: Seq<(String, GroupStatistics)>, name: Seq<char>, i: int)
    requires
        0 <= i < es.len(),
        es[i].0@ == name,
        forall|j: int| 0 <= j < i ==> es[j].0@ != name,
    ensures
        spec_lookup(es, name) == Some(es[i].1),
    decreases i,
{
    if i > 0 {
        lemma_lookup_at(es.drop_first(), name, i - 1);
        assert(es.drop_first()[i - 1] == es[i]);
    }
}

/// No entry carries `name`, so the lookup is empty.
proof fn lemma_lookup_none(es: Seq<(String, GroupStatistics)>, name: Seq<char>)
    requires
        forall|j: int| 0 <= j < es.len() ==> es[j].0@ != name,
    ensures
        spec_lookup(es, name) == None::<GroupStatistics>,
    decreases es.len(),
{
    if es.len() > 0 {
        assert(forall|j: int|
            0 <= j < es.drop_first().len() ==> #[trigger] es.drop_first()[j] == es[j + 1]);
        lemma_lookup_none(es.drop_first(), name);
    }
}

/// Appending a fresh entry changes exactly the lookups of its name,
/// provided no earlier entry carries it.
proof fn lemma_lookup_push(
    es: Seq<(String, GroupStatistics)>,
    nm: String,
    st: GroupStatistics,
    m: Seq<char>,
)
    requires
        forall|j: int| 0 <= j < es.len() ==> es[j].0@ != nm@,
    ensures
        spec_lookup(es.push((nm, st)), m) == if m == nm@ {
            Some(st)
        } else {
            spec_lookup(es, m)
        },
    decreases es.len(),
{
    let p = es.push((nm, st));
    if es.len() == 0 {
        assert(p[0] == (nm, st));
        if m == nm@ {
            assert(p[0].0@ == m);
            assert(spec_lookup(p, m) == Some(st));
        } else {
            assert(p.drop_first() =~= Seq::<(String, GroupStatistics)>::empty());
            assert(spec_lookup(p, m) is None);
        }
    } else {
        assert(forall|j: int|
            0 <= j < es.drop_first().len() ==> #[trigger] es.drop_first()[j] == es[j + 1]);
        lemma_lookup_push(es.drop_first(), nm, st, m);
        assert(p[0] == es[0]);
        assert(p.drop_first() =~= es.drop_first().push((nm, st)));
        assert(spec_lookup(p.drop_first(), m) == spec_lookup(es.drop_first().push((nm, st)), m));
        if p[0].0@ == m {
            assert(spec_lookup(p, m) == Some(es[0].1));
            assert(spec_lookup(es, m) == Some(es[0].1));
        } else {
            assert(spec_lookup(p, m) == spec_lookup(p.drop_first(), m));
            assert(spec_lookup(es, m) == spec_lookup(es.drop_first(), m));
        }
    }
}

} // verus!
