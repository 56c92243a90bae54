//! The group registry: resource groups, their weights and limiter handles.

use vstd::prelude::*;
use vstd::pervasive::VecAdditionalExecFns;

use crate::limiter::ResourceLimiter;

verus! {

/// One configured resource group. Only groups that carry a limiter handle
/// participate in background limiting; the rest are foreground.
#[derive(Clone, Debug)]
pub struct ResourceGroup {
    pub name: String,
    pub ru_quota: u64,
    pub limiter: Option<ResourceLimiter>,
}

/// Sum of the `ru_quota` weights of the first `n` groups.
pub open spec fn sum_ru_upto(gs: Seq<ResourceGroup>, n: int) -> int
    decreases n,
{
    if n <= 0 {
        0
    } else {
        sum_ru_upto(gs, n - 1) + gs[n - 1].ru_quota
    }
}

/// Registry of the currently configured groups. The adjuster owns it and
/// takes a point-in-time snapshot of the participating groups each tick.
#[derive(Debug)]
pub struct ResourceGroupManager {
    pub groups: Vec<ResourceGroup>,
}

impl ResourceGroupManager {
    /// Well-formedness: names are unique, every weight is strictly
    /// positive, and the weights sum within the machine word, so that a
    /// tick can total them without overflow.
    pub open spec fn wf(self) -> bool {
        &&& forall|i: int, j: int|
            0 <= i < j < self.groups.len() ==> self.groups[i].name@ != self.groups[j].name@
        &&& forall|i: int| 0 <= i < self.groups.len() ==> #[trigger] self.groups[i].ru_quota >= 1
        &&& sum_ru_upto(self.groups@, self.groups.len() as int) <= u64::MAX
    }

    /// An empty registry.
    pub fn new() -> (r: ResourceGroupManager)
        ensures
            r.groups@.len() == 0,
            r.wf(),
    {
        ResourceGroupManager { groups: Vec::new() }
    }

    /// Index of the group called `name`, if any.
    pub fn find(&self, name: &String) -> (r: Option<usize>)
        ensures
            match r {
                Some(i) => i < self.groups.len() && self.groups[i as int].name@ == name@
                    && (forall|j: int| 0 <= j < i ==> self.groups[j].name@ != name@),
                None => forall|j: int| 0 <= j < self.groups.len() ==> self.groups[j].name@ != name@,
            },
    {
        let n = self.groups.len();
        let mut i: usize = 0;
        while i < n
            invariant
                n == self.groups.len(),
                i <= n,
                forall|j: int| 0 <= j < i ==> self.groups[j].name@ != name@,
            decreases n - i,
        {
            if self.groups[i].name == *name {
                return Some(i);
            }
            i = i + 1;
        }
        None
    }

    /// Adds or replaces the group called `name`. A replaced group keeps its
    /// limiter (and so its counters) when it stays in the background set; a
    /// group configured out of the background set loses its handle. The
    /// weight bound keeps the registry-wide sum within `u64`.
    pub fn add_resource_group(&mut self, name: String, ru_quota: u64, background: bool)
        requires
            old(self).wf(),
            ru_quota >= 1,
            sum_ru_upto(old(self).groups@, old(self).groups@.len() as int) + ru_quota <= u64::MAX,
        ensures
            final(self).wf(),
            match spec_find(old(self).groups@, name@) {
                Some(i) => {
                    &&& final(self).groups@.len() == old(self).groups@.len()
                    &&& forall|j: int|
                        0 <= j < old(self).groups@.len() && j != i ==> final(self).groups@[j]
                            == old(self).groups@[j]
                    &&& final(self).groups@[i].name@ == name@
                    &&& final(self).groups@[i].ru_quota == ru_quota
                    &&& final(self).groups@[i].limiter == (if background {
                        if old(self).groups@[i].limiter is Some {
                            old(self).groups@[i].limiter
                        } else {
                            Some(crate::limiter::spec_fresh_limiter())
                        }
                    } else {
                        Option::<ResourceLimiter>::None
                    })
                },
                None => {
                    &&& final(self).groups@.len() == old(self).groups@.len() + 1
                    &&& forall|j: int|
                        0 <= j < old(self).groups@.len() ==> final(self).groups@[j] == old(
                            self,
                        ).groups@[j]
                    &&& final(self).groups@.last().name@ == name@
                    &&& final(self).groups@.last().ru_quota == ru_quota
                    &&& final(self).groups@.last().limiter == (if background {
                        Some(crate::limiter::spec_fresh_limiter())
                    } else {
                        Option::<ResourceLimiter>::None
                    })
                },
            },
    {
        proof {
            lemma_spec_find_matches_search(self.groups@, name@);
        }
        match self.find(&name) {
            Some(i) => {
                let old_limiter_present = self.groups[i].limiter.is_some();
                let limiter = if background {
                    if old_limiter_present {
                        let g = &self.groups[i];
                        g.limiter
                    } else {
                        Some(ResourceLimiter::new())
                    }
                } else {
                    None
                };
                let g = ResourceGroup { name, ru_quota, limiter };
                self.groups.set(i, g);
                proof {
                    lemma_sum_ru_update(old(self).groups@, final(self).groups@, i as int);
                    assert(final(self).wf());
                }
            },
            None => {
                let limiter = if background {
                    Some(ResourceLimiter::new())
                } else {
                    None
                };
                self.groups.push(ResourceGroup { name, ru_quota, limiter });
                proof {
                    lemma_sum_ru_push(old(self).groups@, final(self).groups@);
                    assert(final(self).wf());
                }
            },
        }
    }

    /// The limiter handle of the group called `name`, when the group exists
    /// and participates in background limiting.
    pub fn get_resource_limiter(&self, name: &String) -> (r: Option<&ResourceLimiter>)
        ensures
            match spec_find(self.groups@, name@) {
                Some(i) => match self.groups@[i].limiter {
                    Some(l) => r == Some(&l),
                    None => r is None,
                },
                None => r is None,
            },
    {
        proof {
            lemma_spec_find_matches_search(self.groups@, name@);
        }
        match self.find(name) {
            Some(i) => {
                match &self.groups[i].limiter {
                    Some(l) => Some(l),
                    None => None,
                }
            },
            None => None,
        }
    }

    /// Records work against the limiter of the group called `name`:
    /// `cpu_dur_us` microseconds of CPU time and `io_bytes` bytes of I/O.
    /// Returns false, changing nothing, when no such background group
    /// exists.
    pub fn consume(&mut self, name: &String, cpu_dur_us: u64, io_bytes: u64) -> (r: bool)
        ensures
            match spec_find(old(self).groups@, name@) {
                Some(i) => match old(self).groups@[i].limiter {
                    Some(l) => {
                        &&& r
                        &&& final(self).groups@ == old(self).groups@.update(
                            i,
                            (ResourceGroup {
                                limiter: Some(spec_consume_limiter(l, cpu_dur_us, io_bytes)),
                                ..old(self).groups@[i]
                            }),
                        )
                    },
                    None => !r && final(self).groups@ == old(self).groups@,
                },
                None => !r && final(self).groups@ == old(self).groups@,
            },
    {
        proof {
            lemma_spec_find_matches_search(self.groups@, name@);
        }
        match self.find(name) {
            Some(i) => {
                let g = &self.groups[i];
                match g.limiter {
                    Some(mut l) => {
                        l.consume(cpu_dur_us, io_bytes);
                        let updated = ResourceGroup {
                            name: self.groups[i].name.clone(),
                            ru_quota: self.groups[i].ru_quota,
                            limiter: Some(l),
                        };
                        proof {
                            assert(updated.name@ == old(self).groups@[i as int].name@);
                        }
                        self.groups.set(i, updated);
                        proof {
                            assert(final(self).groups@ =~= old(self).groups@.update(
                                i as int,
                                (ResourceGroup {
                                    limiter: Some(
                                        spec_consume_limiter(
                                            old(self).groups@[i as int].limiter->Some_0,
                                            cpu_dur_us,
                                            io_bytes,
                                        ),
                                    ),
                                    ..old(self).groups@[i as int]
                                }),
                            ));
                        }
                        true
                    },
                    None => false,
                }
            },
            None => false,
        }
    }
}

/// The limiter after `ResourceLimiter::consume`.
pub open spec fn spec_consume_limiter(l: ResourceLimiter, cpu_dur_us: u64, io_bytes: u64) -> ResourceLimiter {
    ResourceLimiter {
        cpu_limiter: crate::limiter::spec_consume(l.cpu_limiter, cpu_dur_us),
        io_limiter: crate::limiter::spec_consume(l.io_limiter, io_bytes),
    }
}

/// Index of the first group called `name`, as a mathematical function.
pub open spec fn spec_find(gs: Seq<ResourceGroup>, name: Seq<char>) -> Option<int>
    decreases gs.len(),
{
    if gs.len() == 0 {
        None
    } else if gs[0].name@ == name {
        Some(0int)
    } else {
        match spec_find(gs.drop_first(), name) {
            Some(i) => Some(i + 1),
            None => None,
        }
    }
}

/// `spec_find` returns the first index whose group carries `name`, and
/// `None` exactly when no group does.
pub proof fn lemma_spec_find_matches_search(gs: Seq<ResourceGroup>, name: Seq<char>)
    ensures
        match spec_find(gs, name) {
            Some(i) => 0 <= i < gs.len() && gs[i].name@ == name && (forall|j: int|
                0 <= j < i ==> gs[j].name@ != name),
            None => forall|j: int| 0 <= j < gs.len() ==> gs[j].name@ != name,
        },
    decreases gs.len(),
{
    if gs.len() > 0 && gs[0].name@ != name {
        let tail = gs.drop_first();
        lemma_spec_find_matches_search(tail, name);
        assert(forall|j: int| 0 <= j < tail.len() ==> #[trigger] tail[j] == gs[j + 1]);
        match spec_find(tail, name) {
            Some(i) => {
                assert(gs[i + 1].name@ == name);
                assert forall|j: int| 0 <= j < i + 1 implies gs[j].name@ != name by {
                    if j > 0 {
                        assert(tail[j - 1].name@ != name);
                    }
                }
            },
            None => {
                assert forall|j: int| 0 <= j < gs.len() implies gs[j].name@ != name by {
                    if j > 0 {
                        assert(tail[j - 1].name@ != name);
                    }
                }
            },
        }
    }
}

/// With unique names, the index holding `name` is the one `spec_find` gives.
pub proof fn lemma_spec_find_at(gs: Seq<ResourceGroup>, name: Seq<char>, i: int)
    requires
        forall|p: int, q: int| 0 <= p < q < gs.len() ==> gs[p].name@ != gs[q].name@,
        0 <= i < gs.len(),
        gs[i].name@ == name,
    ensures
        spec_find(gs, name) == Some(i),
{
    lemma_spec_find_matches_search(gs, name);
    match spec_find(gs, name) {
        Some(k) => {
            if k < i {
                assert(gs[k].name@ != gs[i].name@);
            } else if k > i {
                assert(gs[i].name@ != name);
            }
        },
        None => {
            assert(gs[i].name@ != name);
        },
    }
}

/// Updating one entry changes the weight sum by that entry's difference.
proof fn lemma_sum_ru_update(old_gs: Seq<ResourceGroup>, new_gs: Seq<ResourceGroup>, i: int)
    requires
        old_gs.len() == new_gs.len(),
        0 <= i < old_gs.len(),
        forall|j: int| 0 <= j < old_gs.len() && j != i ==> new_gs[j] == old_gs[j],
    ensures
        sum_ru_upto(new_gs, new_gs.len() as int) == sum_ru_upto(old_gs, old_gs.len() as int)
            - old_gs[i].ru_quota + new_gs[i].ru_quota,
{
    lemma_sum_ru_update_upto(old_gs, new_gs, i, old_gs.len() as int);
}

proof fn lemma_sum_ru_update_upto(old_gs: Seq<ResourceGroup>, new_gs: Seq<ResourceGroup>, i: int, n: int)
    requires
        old_gs.len() == new_gs.len(),
        0 <= i < old_gs.len(),
        n <= old_gs.len(),
        forall|j: int| 0 <= j < old_gs.len() && j != i ==> new_gs[j] == old_gs[j],
    ensures
        n <= i ==> sum_ru_upto(new_gs, n) == sum_ru_upto(old_gs, n),
        n > i ==> sum_ru_upto(new_gs, n) == sum_ru_upto(old_gs, n) - old_gs[i].ru_quota
            + new_gs[i].ru_quota,
    decreases n,
{
    if n > 0 {
        lemma_sum_ru_update_upto(old_gs, new_gs, i, n - 1);
    }
}

/// Appending a group adds its weight to the sum.
proof fn lemma_sum_ru_push(old_gs: Seq<ResourceGroup>, new_gs: Seq<ResourceGroup>)
    requires
        new_gs.len() == old_gs.len() + 1,
        forall|j: int| 0 <= j < old_gs.len() ==> new_gs[j] == old_gs[j],
    ensures
        sum_ru_upto(new_gs, new_gs.len() as int) == sum_ru_upto(old_gs, old_gs.len() as int)
            + new_gs.last().ru_quota,
{
    lemma_sum_ru_prefix_agree(old_gs, new_gs, old_gs.len() as int);
}

proof fn lemma_sum_ru_prefix_agree(old_gs: Seq<ResourceGroup>, new_gs: Seq<ResourceGroup>, n: int)
    requires
        n <= old_gs.len(),
        n <= new_gs.len(),
        forall|j: int| 0 <= j < n ==> new_gs[j] == old_gs[j],
    ensures
        sum_ru_upto(new_gs, n) == sum_ru_upto(old_gs, n),
    decreases n,
{
    if n > 0 {
        lemma_sum_ru_prefix_agree(old_gs, new_gs, n - 1);
    }
}

} // verus!
