//! What is known about GitHub references: a table of validation results, and
//! a cache that shares one such table between its clones.

use std::rc::Rc;
use vstd::cell::invcell::InvCell;
use vstd::predicate::Predicate;
use vstd::prelude::*;

use crate::inline::{GitHubRef, RefV};

verus! {

/// Validation state for a GitHub reference.
#[derive(Debug, Clone, Copy, PartialEq, Eq, Structural)]
pub enum ValidationState {
    /// Fetch has been spawned but not yet completed.
    Pending,
    /// Reference exists on GitHub.
    Valid,
    /// Reference does not exist on GitHub.
    Invalid,
}

/// Validation results by reference, at most one per reference.
pub struct ValidationTable {
    entries: Vec<(GitHubRef, ValidationState)>,
}

/// The refs of `entries` are pairwise different.
pub open spec fn distinct_refs(entries: Seq<(GitHubRef, ValidationState)>) -> bool {
    forall|i: int, j: int|
        0 <= i < j < entries.len() ==> (#[trigger] entries[i]).0@ != (#[trigger] entries[j]).0@
}

impl ValidationTable {
    pub closed spec fn wf(&self) -> bool {
        distinct_refs(self.entries@)
    }

    /// The state recorded for each reference.
    pub closed spec fn map(&self) -> Map<RefV, ValidationState> {
        Map::new(
            |r: RefV| exists|i: int| 0 <= i < self.entries@.len() && self.entries@[i].0@ == r,
            |r: RefV|
                {
                    let i = choose|i: int| 0 <= i < self.entries@.len() && self.entries@[i].0@ == r;
                    self.entries@[i].1
                },
        )
    }

    pub fn new() -> (t: Self)
        ensures
            t.wf(),
            t.map() == Map::<RefV, ValidationState>::empty(),
    {
        let t = ValidationTable { entries: Vec::new() };
        assert(t.map() =~= Map::<RefV, ValidationState>::empty());
        t
    }

    /// Index of the entry for `r`, if there is one.
    fn find(&self, r: &GitHubRef) -> (i: Option<usize>)
        requires
            self.wf(),
        ensures
            match i {
                Some(k) => k < self.entries@.len() && self.entries@[k as int].0@ == r@,
                None => forall|k: int| 0 <= k < self.entries@.len() ==> self.entries@[k].0@ != r@,
            },
    {
        let mut k: usize = 0;
        while k < self.entries.len()
            invariant
                k <= self.entries@.len(),
                forall|j: int| 0 <= j < k ==> self.entries@[j].0@ != r@,
            decreases self.entries@.len() - k,
        {
            if self.entries[k].0.same_as(r) {
                return Some(k);
            }
            k += 1;
        }
        None
    }

    /// The state recorded for `r`, if any.
    pub fn get(&self, r: &GitHubRef) -> (s: Option<ValidationState>)
        requires
            self.wf(),
        ensures
            s == (if self.map().contains_key(r@) {
                Some(self.map()[r@])
            } else {
                None
            }),
    {
        match self.find(r) {
            Some(k) => {
                proof {
                    let i = choose|i: int|
                        0 <= i < self.entries@.len() && self.entries@[i].0@ == r@;
                    assert(i == k);
                }
                Some(self.entries[k].1)
            },
            None => None,
        }
    }

    /// Record `s` as the state of `r`.
    pub fn insert(&mut self, r: GitHubRef, s: ValidationState)
        requires
            old(self).wf(),
        ensures
            final(self).wf(),
            final(self).map() == old(self).map().insert(r@, s),
    {
        let ghost rv = r@;
        let ghost old_map = self.map();
        match self.find(&r) {
            Some(k) => {
                self.entries.set(k, (r, s));
                proof {
                    assert forall|i: int, j: int|
                        0 <= i < j < self.entries@.len() implies (#[trigger] self.entries@[i]).0@
                        != (#[trigger] self.entries@[j]).0@ by {
                        assert(old(self).entries@[i].0@ != old(self).entries@[j].0@);
                    }
                    assert forall|q: RefV| #[trigger] self.map().contains_key(q) <==> old_map.insert(
                        rv,
                        s,
                    ).contains_key(q) by {
                        if old_map.contains_key(q) && q != rv {
                            let i = choose|i: int|
                                0 <= i < old(self).entries@.len() && old(self).entries@[i].0@ == q;
                            assert(self.entries@[i].0@ == q);
                        }
                        if self.map().contains_key(q) && q != rv {
                            let i = choose|i: int|
                                0 <= i < self.entries@.len() && self.entries@[i].0@ == q;
                            assert(old(self).entries@[i].0@ == q);
                        }
                        assert(self.entries@[k as int].0@ == rv);
                    }
                    assert forall|q: RefV| #[trigger] self.map().contains_key(q) implies self.map()[q]
                        == old_map.insert(rv, s)[q] by {
                        let i = choose|i: int| 0 <= i < self.entries@.len() && self.entries@[i].0@ == q;
                        if q != rv {
                            let j = choose|j: int|
                                0 <= j < old(self).entries@.len() && old(self).entries@[j].0@ == q;
                            assert(i == j);
                        } else {
                            assert(i == k);
                        }
                    }
                    assert(self.map() =~= old_map.insert(rv, s));
                }
            },
            None => {
                self.entries.push((r, s));
                proof {
                    let n = old(self).entries@.len() as int;
                    assert forall|q: RefV| #[trigger] self.map().contains_key(q) <==> old_map.insert(
                        rv,
                        s,
                    ).contains_key(q) by {
                        if old_map.contains_key(q) {
                            let i = choose|i: int|
                                0 <= i < old(self).entries@.len() && old(self).entries@[i].0@ == q;
                            assert(self.entries@[i].0@ == q);
                        }
                        if self.map().contains_key(q) && q != rv {
                            let i = choose|i: int|
                                0 <= i < self.entries@.len() && self.entries@[i].0@ == q;
                            assert(i < n);
                            assert(old(self).entries@[i].0@ == q);
                        }
                        assert(self.entries@[n].0@ == rv);
                    }
                    assert forall|q: RefV| #[trigger] self.map().contains_key(q) implies self.map()[q]
                        == old_map.insert(rv, s)[q] by {
                        let i = choose|i: int| 0 <= i < self.entries@.len() && self.entries@[i].0@ == q;
                        if q != rv {
                            let j = choose|j: int|
                                0 <= j < old(self).entries@.len() && old(self).entries@[j].0@ == q;
                            assert(self.entries@[j].0@ == q);
                            assert(i == j);
                        } else {
                            assert(i == n);
                        }
                    }
                    assert(self.map() =~= old_map.insert(rv, s));
                }
            },
        }
    }

    /// Forget every recorded state.
    pub fn clear(&mut self)
        ensures
            final(self).wf(),
            final(self).map() == Map::<RefV, ValidationState>::empty(),
    {
        self.entries = Vec::new();
        assert(self.map() =~= Map::<RefV, ValidationState>::empty());
    }
}

/// A table shared by the clones of a cache is always well formed.
pub struct TableWf;

impl Predicate<ValidationTable> for TableWf {
    open spec fn predicate(&self, t: ValidationTable) -> bool {
        t.wf()
    }
}

/// Cache for GitHub reference validation results.
///
/// This is a simple cache with no automatic invalidation.
/// Use `clear()` to manually refresh (e.g., via Ctrl+R keybind).
///
/// Cheaply cloneable (Rc clone): all clones share one table, which each of
/// them can change. What the table holds therefore depends on every clone's
/// calls; the methods state what they do to the table they find, and
/// `ValidationTable` states the rest.
#[derive(Clone)]
pub struct GitHubValidationCache {
    cache: Rc<InvCell<ValidationTable, TableWf>>,
}

impl GitHubValidationCache {
    #[verifier::type_invariant]
    spec fn shares_wf_table(&self) -> bool {
        self.cache.predicate() == TableWf
    }

    pub fn new() -> (c: Self) {
        let table = ValidationTable::new();
        GitHubValidationCache { cache: Rc::new(InvCell::new(table, Ghost(TableWf))) }
    }

    /// Take the shared table out, leaving an empty one in its place.
    fn take_table(&self) -> (t: ValidationTable)
        ensures
            t.wf(),
    {
        proof {
            use_type_invariant(self);
        }
        let empty = ValidationTable::new();
        self.cache.replace(empty)
    }

    /// Get the validation state for a reference: the state the shared table
    /// records for it, or `None`.
    pub fn get(&self, ref_: &GitHubRef) -> (s: Option<ValidationState>)
    {
        proof {
            use_type_invariant(self);
        }
        let table = self.take_table();
        let s = table.get(ref_);
        self.cache.set(table);
        s
    }

    /// Mark a reference as pending (fetch has been spawned).
    pub fn mark_pending(&self, ref_: GitHubRef)
    {
        proof {
            use_type_invariant(self);
        }
        let mut table = self.take_table();
        table.insert(ref_, ValidationState::Pending);
        self.cache.set(table);
    }

    /// Set the validation result for a reference.
    pub fn set_result(&self, ref_: GitHubRef, valid: bool)
    {
        proof {
            use_type_invariant(self);
        }
        let mut table = self.take_table();
        table.insert(
            ref_,
            if valid {
                ValidationState::Valid
            } else {
                ValidationState::Invalid
            },
        );
        self.cache.set(table);
    }

    /// Check if a reference is validated as valid.
    pub fn is_valid(&self, ref_: &GitHubRef) -> (b: bool)
    {
        match self.get(ref_) {
            Some(ValidationState::Valid) => true,
            _ => false,
        }
    }

    /// Clear all cached results (for manual refresh).
    pub fn clear(&self)
    {
        proof {
            use_type_invariant(self);
        }
        let mut table = self.take_table();
        table.clear();
        self.cache.set(table);
    }
}

} // verus!
