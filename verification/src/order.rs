//! Priority keys for the scheduler.
//!
//! A [`ScopeOrder`] combines a scope's tree height with its stable identity.
//! Scheduling order is lexicographic by `(height, id)`, so ancestors (lower
//! height) come first and ties break deterministically by identity. Equality,
//! by contrast, looks at the identity alone: two orders with the same id name
//! the same scope even when their recorded heights differ.

use vstd::prelude::*;

verus! {

/// Opaque handle to a component instance, owned by the external reactive
/// tree; the scheduler never dereferences it, it only compares identities.
#[derive(Clone, Copy, PartialEq, Eq, Structural, Debug)]
pub struct ScopeId(pub usize);

/// Opaque handle to an asynchronous unit of work owned by an external
/// executor; the scheduler stores it and hands it back, never inspects it.
#[derive(Clone, Copy, PartialEq, Eq, Structural, Debug)]
pub struct Task(pub usize);

/// Priority key of a scope: tree depth plus stable identity.
#[derive(Clone, Copy, Debug)]
pub struct ScopeOrder {
    pub height: u32,
    pub id: ScopeId,
}

/// Strict scheduling order: lexicographic by `(height, id)`.
pub open spec fn ord_lt(a: ScopeOrder, b: ScopeOrder) -> bool {
    a.height < b.height || (a.height == b.height && a.id.0 < b.id.0)
}

impl ScopeOrder {
    pub fn new(height: u32, id: ScopeId) -> (r: Self)
        ensures
            r.height == height,
            r.id == id,
    {
        Self { height, id }
    }

    /// True when `self` is scheduled strictly before `other`.
    pub fn comes_before(&self, other: &ScopeOrder) -> (r: bool)
        ensures
            r == ord_lt(*self, *other),
    {
        self.height < other.height || (self.height == other.height && self.id.0 < other.id.0)
    }
}

impl PartialEq for ScopeOrder {
    /// Equality is by identity alone: the recorded height is metadata and two
    /// orders with one id always name the same scope.
    fn eq(&self, other: &Self) -> (r: bool) {
        self.id.0 == other.id.0
    }
}

impl vstd::std_specs::cmp::PartialEqSpecImpl for ScopeOrder {
    open spec fn obeys_eq_spec() -> bool {
        true
    }

    open spec fn eq_spec(&self, other: &ScopeOrder) -> bool {
        self.id == other.id
    }
}

impl PartialOrd for ScopeOrder {
    /// Ordering, unlike equality, does consult the height: ancestors first,
    /// ties broken by identity. The asymmetry with `eq` is deliberate.
    fn partial_cmp(&self, other: &Self) -> (r: Option<core::cmp::Ordering>) {
        if self.height < other.height {
            Some(core::cmp::Ordering::Less)
        } else if other.height < self.height {
            Some(core::cmp::Ordering::Greater)
        } else if self.id.0 < other.id.0 {
            Some(core::cmp::Ordering::Less)
        } else if other.id.0 < self.id.0 {
            Some(core::cmp::Ordering::Greater)
        } else {
            Some(core::cmp::Ordering::Equal)
        }
    }
}

impl vstd::std_specs::cmp::PartialOrdSpecImpl for ScopeOrder {
    open spec fn obeys_partial_cmp_spec() -> bool {
        true
    }

    open spec fn partial_cmp_spec(&self, other: &ScopeOrder) -> Option<core::cmp::Ordering> {
        if ord_lt(*self, *other) {
            Some(core::cmp::Ordering::Less)
        } else if ord_lt(*other, *self) {
            Some(core::cmp::Ordering::Greater)
        } else {
            Some(core::cmp::Ordering::Equal)
        }
    }
}

} // verus!
