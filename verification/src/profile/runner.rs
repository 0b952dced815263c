//! Priority-ordered scheduling of backup profiles and the shared worker budget.
use vstd::prelude::*;
use std::time::Duration;
use crate::profile::ProfileSpec;
use crate::error::{error_text, AppResult};
use crate::text::owned;

verus! {

/// Stagger between consecutive profile starts, in seconds.
pub const START_DELAY_STEP_SECS: u64 = 2;

/// Default maximum number of concurrently running transfer threads.
pub const DEFAULT_MAX_WORKERS: usize = 6;

/// The nodes that a vector of profile references points at.
pub open spec fn profiles_of(s: Seq<&ProfileSpec>) -> Seq<ProfileSpec> {
    s.map_values(|r: &ProfileSpec| *r)
}

/// Whether `a` goes strictly after `b` in priority order (ascending, or descending).
pub open spec fn goes_after(a: ProfileSpec, b: ProfileSpec, descending: bool) -> bool {
    if descending {
        a.priority < b.priority
    } else {
        a.priority > b.priority
    }
}

/// Index of the first profile at or after `i` that goes strictly after `x`.
pub open spec fn priority_slot(s: Seq<ProfileSpec>, x: ProfileSpec, descending: bool, i: int) -> int
    decreases s.len() - i,
{
    if i < 0 || i >= s.len() {
        s.len() as int
    } else if goes_after(s[i], x, descending) {
        i
    } else {
        priority_slot(s, x, descending, i + 1)
    }
}

/// `s` sorted stably by priority: each profile goes behind every earlier
/// profile that it does not go before.
pub open spec fn by_priority(s: Seq<ProfileSpec>, descending: bool) -> Seq<ProfileSpec>
    decreases s.len(),
{
    if s.len() == 0 {
        seq![]
    } else {
        let t = by_priority(s.drop_last(), descending);
        t.insert(priority_slot(t, s.last(), descending, 0), s.last())
    }
}

/// Priorities never decrease (ascending) or never increase (descending) along `s`.
pub open spec fn priority_sorted(s: Seq<ProfileSpec>, descending: bool) -> bool {
    forall|i: int, j: int|
        0 <= i < j < s.len() ==> !goes_after(#[trigger] s[i], #[trigger] s[j], descending)
}

proof fn lemma_priority_slot(s: Seq<ProfileSpec>, x: ProfileSpec, d: bool, i: int)
    requires
        0 <= i <= s.len(),
    ensures
        i <= priority_slot(s, x, d, i) <= s.len(),
        forall|k: int| i <= k < priority_slot(s, x, d, i) ==> !goes_after(#[trigger] s[k], x, d),
        priority_slot(s, x, d, i) < s.len() ==> goes_after(s[priority_slot(s, x, d, i)], x, d),
    decreases s.len() - i,
{
    if i < s.len() && !goes_after(s[i], x, d) {
        lemma_priority_slot(s, x, d, i + 1);
    }
}

/// Sorting by priority yields priorities in order, and keeps every profile.
pub proof fn lemma_by_priority_sorted(s: Seq<ProfileSpec>, descending: bool)
    ensures
        priority_sorted(by_priority(s, descending), descending),
        by_priority(s, descending).len() == s.len(),
        by_priority(s, descending).to_multiset() == s.to_multiset(),
    decreases s.len(),
{
    if s.len() == 0 {
        assert(by_priority(s, descending) =~= s);
    } else {
        lemma_by_priority_sorted(s.drop_last(), descending);
        let t = by_priority(s.drop_last(), descending);
        let x = s.last();
        let p = priority_slot(t, x, descending, 0);
        lemma_priority_slot(t, x, descending, 0);
        let r = t.insert(p, x);
        assert forall|i: int, j: int| 0 <= i < j < r.len() implies !goes_after(
            #[trigger] r[i],
            #[trigger] r[j],
            descending,
        ) by {
            if j < p {
                assert(r[i] == t[i] && r[j] == t[j]);
            } else if j == p {
                assert(r[i] == t[i] && r[j] == x);
            } else if i < p {
                assert(r[i] == t[i] && r[j] == t[j - 1]);
                assert(!goes_after(t[i], x, descending));
                assert(goes_after(t[p], x, descending));
                if i < p && p <= j - 1 {
                    assert(!goes_after(t[p], t[j - 1], descending) || p == j - 1);
                }
            } else if i == p {
                assert(r[i] == x && r[j] == t[j - 1]);
                assert(goes_after(t[p], x, descending));
                if p < j - 1 {
                    assert(!goes_after(t[p], t[j - 1], descending));
                }
            } else {
                assert(r[i] == t[i - 1] && r[j] == t[j - 1]);
            }
        }
        assert(s =~= s.drop_last().push(x));
        assert(r.remove(p) =~= t);
        assert(r[p] == x);
        assert(r.to_multiset() =~= t.to_multiset().insert(x)) by {
            broadcast use vstd::seq_lib::group_to_multiset_ensures;
            broadcast use vstd::multiset::group_multiset_axioms;
            assert(r.contains(x));
            assert(r.to_multiset().count(x) > 0);
        }
        assert(s.to_multiset() =~= t.to_multiset().insert(x) ) by {
            broadcast use vstd::seq_lib::group_to_multiset_ensures;
        }
    }
}

fn priority_slot_exec(out: &Vec<&ProfileSpec>, x: &ProfileSpec, descending: bool) -> (p: usize)
    ensures
        p == priority_slot(profiles_of(out@), *x, descending, 0),
        p <= out@.len(),
{
    let ghost s = profiles_of(out@);
    let mut p: usize = 0;
    while p < out.len()
        invariant
            p <= out@.len(),
            s == profiles_of(out@),
            priority_slot(s, *x, descending, 0) == priority_slot(s, *x, descending, p as int),
        decreases out@.len() - p,
    {
        let q = out[p].priority;
        if (descending && q < x.priority) || (!descending && q > x.priority) {
            return p;
        }
        p = p + 1;
    }
    p
}

/// The profiles sorted stably by priority, ascending or descending.
pub fn sorted_by_priority<'a>(profiles: &'a [ProfileSpec], descending: bool) -> (r: Vec<
    &'a ProfileSpec,
>)
    ensures
        profiles_of(r@) == by_priority(profiles@, descending),
{
    let mut out: Vec<&ProfileSpec> = Vec::new();
    let mut i: usize = 0;
    while i < profiles.len()
        invariant
            i <= profiles@.len(),
            profiles_of(out@) == by_priority(profiles@.take(i as int), descending),
        decreases profiles@.len() - i,
    {
        let x = &profiles[i];
        proof {
            assert(profiles@.take(i + 1).drop_last() =~= profiles@.take(i as int));
            assert(profiles@.take(i + 1).last() == *x);
        }
        let p = priority_slot_exec(&out, x, descending);
        let ghost before = out@;
        out.insert(p, x);
        assert(profiles_of(out@) =~= profiles_of(before).insert(p as int, *x));
        i = i + 1;
    }
    assert(profiles@.take(i as int) =~= profiles@);
    out
}

/// `Duration::from_secs(secs)`.
pub uninterp spec fn secs_duration(secs: u64) -> Duration;

/// `std::time::Duration::from_secs`: a duration of `secs` whole seconds. The
/// returned value is named by [`secs_duration`] of the argument.
#[verifier::external_body]
fn duration_from_secs(secs: u64) -> (d: Duration)
    ensures
        d == secs_duration(secs),
{
    Duration::from_secs(secs)
}

/// Start delay of the profile at position `i` of the schedule: two seconds per position.
pub open spec fn start_delay_secs(i: int) -> u64 {
    (2 * ((i as u32) as int)) as u64
}

/// Compute the start schedule for a set of profiles.
///
/// Profiles are sorted by priority ascending; the first starts immediately,
/// every subsequent one is staggered by an additional 2s per position index.
pub fn plan_execution(profiles: &[ProfileSpec]) -> (r: Vec<(String, Duration)>)
    ensures
        r@.len() == profiles@.len(),
        forall|i: int|
            0 <= i < r@.len() ==> (#[trigger] r@[i]).0@ == by_priority(profiles@, false)[i].name@
                && r@[i].1 == secs_duration(start_delay_secs(i)),
{
    let sorted = sorted_by_priority(profiles, false);
    proof {
        lemma_by_priority_sorted(profiles@, false);
    }
    let mut r: Vec<(String, Duration)> = Vec::new();
    let mut i: usize = 0;
    while i < sorted.len()
        invariant
            i <= sorted@.len(),
            sorted@.len() == profiles@.len(),
            profiles_of(sorted@) == by_priority(profiles@, false),
            r@.len() == i,
            forall|k: int|
                0 <= k < i ==> (#[trigger] r@[k]).0@ == by_priority(profiles@, false)[k].name@
                    && r@[k].1 == secs_duration(start_delay_secs(k)),
        decreases sorted@.len() - i,
    {
        let step: u64 = (i as u32) as u64;
        let delay = duration_from_secs(START_DELAY_STEP_SECS * step);
        assert(profiles_of(sorted@)[i as int] == *sorted@[i as int]);
        r.push((owned(sorted[i].name.as_str()), delay));
        i = i + 1;
    }
    r
}

/// A counting semaphore's state: how many worker slots are free.
///
/// Acquiring fails while the budget is exhausted (the caller waits and tries
/// again); every held slot is released exactly once.
#[derive(Debug)]
pub struct GlobalBudget {
    available: usize,
    cap: usize,
}

/// One held worker slot, handed back with [`GlobalBudget::release`].
#[derive(Debug)]
pub struct BudgetToken {
    slot: (),
}

impl GlobalBudget {
    /// A budget never has more free slots than it was made with, and it was
    /// made with at least one.
    #[verifier::type_invariant]
    spec fn within_cap(self) -> bool {
        1 <= self.cap && self.available <= self.cap
    }

    /// How many slots are free.
    pub closed spec fn free_slots(&self) -> nat {
        self.available as nat
    }

    /// How many slots the budget was made with.
    pub closed spec fn cap(&self) -> nat {
        self.cap as nat
    }

    /// How many slots are held.
    pub open spec fn held(&self) -> int {
        self.cap() - self.free_slots()
    }

    /// A budget of `max_workers` slots (at least one), none of them held.
    pub fn new(max_workers: usize) -> (b: Self)
        ensures
            b.cap() == if max_workers == 0 {
                1
            } else {
                max_workers as nat
            },
            b.free_slots() == b.cap(),
    {
        let cap = if max_workers == 0 {
            1
        } else {
            max_workers
        };
        GlobalBudget { available: cap, cap }
    }

    /// Takes a free slot, or answers `None` when every slot is held. Either
    /// way no more slots are held than the budget has.
    pub fn acquire(&mut self) -> (t: Option<BudgetToken>)
        ensures
            t is Some <==> old(self).free_slots() > 0,
            t is Some ==> took_slot(*old(self), *final(self)),
            t is None ==> final(self).free_slots() == old(self).free_slots(),
            final(self).cap() == old(self).cap(),
            0 <= final(self).held() <= final(self).cap(),
    {
        proof {
            use_type_invariant(&*self);
        }
        if self.available == 0 {
            return None;
        }
        self.available = self.available - 1;
        Some(BudgetToken { slot: () })
    }

    /// Hands a held slot back. A token given to a budget none of whose slots
    /// is held frees nothing, so no more slots are ever free than the budget
    /// has.
    pub fn release(&mut self, token: BudgetToken)
        ensures
            old(self).held() > 0 ==> gave_slot(*old(self), *final(self)),
            old(self).held() <= 0 ==> final(self).free_slots() == old(self).free_slots(),
            final(self).cap() == old(self).cap(),
            0 <= final(self).held() <= final(self).cap(),
    {
        proof {
            use_type_invariant(&*self);
        }
        if self.available < self.cap {
            self.available = self.available + 1;
        }
    }

    /// Number of free slots.
    pub fn available(&self) -> (n: usize)
        ensures
            n == self.free_slots(),
            n <= self.cap(),
    {
        proof {
            use_type_invariant(self);
        }
        self.available
    }
}

/// `after` is `before` once a slot was taken: there was a free slot, and
/// there is one fewer.
pub open spec fn took_slot(before: GlobalBudget, after: GlobalBudget) -> bool {
    before.free_slots() > 0 && after.free_slots() == before.free_slots() - 1
}

/// `after` is `before` once a held slot was handed back.
pub open spec fn gave_slot(before: GlobalBudget, after: GlobalBudget) -> bool {
    after.free_slots() == before.free_slots() + 1
}

/// Handing a slot back undoes taking it.
pub proof fn lemma_release_undoes_acquire(b0: GlobalBudget, b1: GlobalBudget, b2: GlobalBudget)
    requires
        took_slot(b0, b1),
        gave_slot(b1, b2),
    ensures
        b2.free_slots() == b0.free_slots(),
{
}

/// Without releases, a budget of `n` free slots grants at most `n` slots:
/// along any run of successful acquisitions, the holders never outnumber
/// the slots the budget started with.
pub proof fn lemma_holders_bounded(run: Seq<GlobalBudget>)
    requires
        run.len() > 0,
        forall|i: int| 0 <= i < run.len() - 1 ==> took_slot(#[trigger] run[i], run[i + 1]),
    ensures
        run.len() - 1 <= run[0].free_slots(),
        run.last().free_slots() == run[0].free_slots() - (run.len() - 1),
    decreases run.len(),
{
    if run.len() > 1 {
        let shorter = run.drop_last();
        assert forall|i: int| 0 <= i < shorter.len() - 1 implies took_slot(
            #[trigger] shorter[i],
            shorter[i + 1],
        ) by {
            assert(took_slot(run[i], run[i + 1]));
        }
        lemma_holders_bounded(shorter);
        assert(took_slot(run[run.len() - 2], run[run.len() - 1]));
    }
}

/// Result of running a single profile.
#[derive(Debug, Clone)]
pub struct ProfileOutcome {
    pub name: String,
    pub success: bool,
    pub error: Option<String>,
    pub files_transferred: u64,
}

/// Runs multiple profiles in parallel with priority-ordered staggering and a
/// shared global worker budget of `max_workers` slots.
#[derive(Debug)]
pub struct ProfileRunner {
    pub max_workers: usize,
}

impl ProfileRunner {
    pub fn new(max_workers: usize) -> (r: Self)
        ensures
            r.max_workers == max_workers,
    {
        ProfileRunner { max_workers }
    }
}

impl Default for ProfileRunner {
    fn default() -> (r: Self)
        ensures
            r.max_workers == DEFAULT_MAX_WORKERS,
    {
        ProfileRunner::new(DEFAULT_MAX_WORKERS)
    }
}

/// The outcome of running one profile: successful with the number of files
/// transferred, or failed with the error's message and nothing transferred.
pub fn profile_outcome(name: String, result: AppResult<u64>) -> (o: ProfileOutcome)
    ensures
        o.name@ == name@,
        match result {
            Ok(n) => o.success && o.error is None && o.files_transferred == n,
            Err(e) => !o.success && (o.error matches Some(m) && m@ == error_text(e))
                && o.files_transferred == 0,
        },
{
    match result {
        Ok(files) => ProfileOutcome { name, success: true, error: None, files_transferred: files },
        Err(e) => ProfileOutcome {
            name,
            success: false,
            error: Some(e.message()),
            files_transferred: 0,
        },
    }
}

} // verus!
