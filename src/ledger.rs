use vstd::prelude::*;
use crate::paths::{
    strs, add_all, push_new, without, extend_unique, lemma_add_all_append,
    lemma_add_all_contains, lemma_add_all_no_duplicates,
};
use crate::snapshot::{Db, is_baseline};
use crate::timestamp::Timestamp;

verus! {

/// Whether a build with this exit status succeeded; `None` stands for a build
/// that could not be started or ended without a status.
pub open spec fn succeeded(code: Option<i32>) -> bool {
    code == Some(0i32)
}

/// The status a failed build hands on: its own, or 1 when it had none.
pub open spec fn failure_code(code: Option<i32>) -> i32 {
    match code {
        Some(c) => c,
        None => 1,
    }
}

/// The ledger after package `p` was built with status `code`: a success takes
/// `p` out, a failure appends it unless it is there already.
pub open spec fn ledger_after(ledger: Seq<Seq<char>>, p: Seq<char>, code: Option<i32>) -> Seq<
    Seq<char>,
> {
    if succeeded(code) {
        without(ledger, p)
    } else {
        push_new(ledger, p)
    }
}

/// The packages to build in a run: the affected ones first, then the ledger's,
/// each once.
pub fn build_order(affected: &Vec<String>, ledger: &Vec<String>) -> (r: Vec<String>)
    ensures
        strs(r@) == add_all(Seq::empty(), strs(affected@) + strs(ledger@)),
        strs(r@).no_duplicates(),
{
    let mut r: Vec<String> = Vec::new();
    assert(strs(r@) =~= Seq::empty());
    extend_unique(&mut r, affected);
    extend_unique(&mut r, ledger);
    proof {
        lemma_add_all_append(Seq::empty(), strs(affected@), strs(ledger@));
        lemma_add_all_no_duplicates(Seq::empty(), strs(affected@) + strs(ledger@));
    }
    r
}

/// `l` without any occurrence of `x`.
fn remove_all(l: &Vec<String>, x: &String) -> (r: Vec<String>)
    ensures
        strs(r@) == without(strs(l@), x@),
{
    let ghost ls = strs(l@);
    let mut r: Vec<String> = Vec::new();
    let mut i: usize = 0;
    while i < l.len()
        invariant
            0 <= i <= l.len(),
            ls == strs(l@),
            strs(r@) == without(ls.subrange(0, i as int), x@),
        decreases l.len() - i,
    {
        assert(ls.subrange(0, i + 1).drop_last() =~= ls.subrange(0, i as int));
        assert(ls.subrange(0, i + 1).last() == l@[i as int]@);
        if l[i] != *x {
            let ghost pre = r@;
            r.push(l[i].clone());
            assert(strs(r@) =~= strs(pre).push(l@[i as int]@));
        }
        i += 1;
    }
    assert(ls.subrange(0, i as int) =~= ls);
    r
}

/// Builds packages one at a time in a fixed order, stopping at the first
/// failure, and keeps the retry ledger up to date as it goes.
pub struct Dispatcher {
    pub order: Vec<String>,
    /// Index in `order` of the next package to build.
    pub next: usize,
    pub ledger: Vec<String>,
    /// The status of the failed build, once one failed.
    pub exit_code: Option<i32>,
}

impl Dispatcher {
    /// A package is waiting to be built: none failed and some are left.
    pub open spec fn pending(self) -> bool {
        self.exit_code.is_none() && self.next < self.order@.len()
    }

    pub fn new(order: Vec<String>, ledger: Vec<String>) -> (r: Dispatcher)
        ensures
            r.order == order,
            r.ledger == ledger,
            r.next == 0,
            r.exit_code.is_none(),
    {
        Dispatcher { order, next: 0, ledger, exit_code: None }
    }

    /// The package to build now, if any.
    pub fn next_package(&self) -> (r: Option<String>)
        ensures
            match r {
                Some(p) => self.pending() && p@ == self.order@[self.next as int]@,
                None => !self.pending(),
            },
    {
        if self.exit_code.is_none() && self.next < self.order.len() {
            Some(self.order[self.next].clone())
        } else {
            None
        }
    }

    /// Records the status of the build of the pending package.
    pub fn record(&mut self, code: Option<i32>)
        requires
            old(self).pending(),
        ensures
            final(self).order == old(self).order,
            final(self).next == old(self).next + 1,
            strs(final(self).ledger@) == ledger_after(
                strs(old(self).ledger@),
                old(self).order@[old(self).next as int]@,
                code,
            ),
            final(self).exit_code == if succeeded(code) {
                None
            } else {
                Some(failure_code(code))
            },
    {
        let n = self.next;
        let len = self.order.len();
        assert(n < len);
        let p = &self.order[n];
        let ok = match code {
            Some(c) => c == 0,
            None => false,
        };
        if ok {
            self.ledger = remove_all(&self.ledger, p);
        } else {
            crate::paths::push_unique(&mut self.ledger, p);
            self.exit_code = Some(
                match code {
                    Some(c) => c,
                    None => 1,
                },
            );
        }
        self.next = n + 1;
    }

    /// Whether the run ended: every package built, or one failed.
    pub fn is_finished(&self) -> (r: bool)
        ensures
            r == !self.pending(),
    {
        !(self.exit_code.is_none() && self.next < self.order.len())
    }
}

/// A package whose build failed is in the ledger that the run leaves, and so
/// in the next run's build order whatever files changed, unless that run is
/// explicitly reset.
pub proof fn lemma_failed_package_is_retried(
    ledger: Seq<Seq<char>>,
    p: Seq<char>,
    code: Option<i32>,
    saved: Db,
    now: Timestamp,
    stale_secs: u64,
    base: Db,
    affected: Seq<Seq<char>>,
)
    requires
        !succeeded(code),
        strs(saved.failed_crates@) == ledger_after(ledger, p, code),
        is_baseline(saved, now, stale_secs, false, base),
    ensures
        strs(base.failed_crates@).contains(p),
        add_all(Seq::empty(), affected + strs(base.failed_crates@)).contains(p),
{
    let l = strs(base.failed_crates@);
    assert(l == push_new(ledger, p));
    if !ledger.contains(p) {
        assert(ledger.push(p)[ledger.len() as int] == p);
    }
    let i = choose|i: int| 0 <= i < l.len() && l[i] == p;
    assert((affected + l)[affected.len() + i] == p);
    lemma_add_all_contains(Seq::empty(), affected + l, p);
}

/// With packages `p1`, `p2`, `p3` built in that order from an empty ledger,
/// where `p1` succeeds and `p2` fails: the ledger holds `p2` alone, and the
/// dispatcher stops before `p3`.
pub proof fn lemma_fail_fast(
    d: Dispatcher,
    p1: Seq<char>,
    p2: Seq<char>,
    p3: Seq<char>,
    c1: Option<i32>,
    c2: Option<i32>,
)
    requires
        p1 != p2,
        succeeded(c1),
        !succeeded(c2),
        strs(d.order@) == seq![p1, p2, p3],
        d.next == 2,
        strs(d.ledger@) == ledger_after(ledger_after(Seq::empty(), p1, c1), p2, c2),
        d.exit_code == Some(failure_code(c2)),
    ensures
        strs(d.ledger@) == seq![p2],
        !d.pending(),
{
    let l1 = ledger_after(Seq::empty(), p1, c1);
    assert(l1 =~= Seq::<Seq<char>>::empty());
    assert(!l1.contains(p2));
    assert(l1.push(p2) =~= seq![p2]);
}

} // verus!
