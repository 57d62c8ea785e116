//! The ordering interface of the tree: every element exposes a mathematical
//! key, and the tree keeps its elements sorted by that key.

use vstd::prelude::*;
use core::cmp::Ordering;

verus! {

/// The absolute difference of two keys.
pub open spec fn dist(a: int, b: int) -> int {
    if a >= b {
        a - b
    } else {
        b - a
    }
}

/// An element that the tree can order: it has a mathematical key, and an
/// executable three-way comparison that agrees with that key.
///
/// Distinct elements may share a key (the map layer relies on this: a pair
/// is keyed by its key component alone, whatever its value component holds).
pub trait Keyed: Sized {
    /// The mathematical key of this element.
    spec fn key(&self) -> int;

    /// Three-way comparison, consistent with `key`.
    fn key_cmp(&self, other: &Self) -> (o: Ordering)
        ensures
            o == Ordering::Less <==> self.key() < other.key(),
            o == Ordering::Equal <==> self.key() == other.key(),
            o == Ordering::Greater <==> self.key() > other.key(),
    ;
}

/// A search key for elements of type `T`: it lives on the same key scale as
/// the elements and can be compared against one without building a whole
/// element. The map layer probes a tree of key-value pairs by a bare key.
pub trait Probe<T: Keyed> {
    /// The mathematical key this probe stands for.
    spec fn probe_key(&self) -> int;

    /// Three-way comparison against an element, consistent with the keys.
    fn probe_cmp(&self, item: &T) -> (o: Ordering)
        ensures
            o == Ordering::Less <==> self.probe_key() < item.key(),
            o == Ordering::Equal <==> self.probe_key() == item.key(),
            o == Ordering::Greater <==> self.probe_key() > item.key(),
    ;
}

/// Every element type can be probed by its own values.
impl<T: Keyed> Probe<T> for T {
    open spec fn probe_key(&self) -> int {
        self.key()
    }

    fn probe_cmp(&self, item: &T) -> (o: Ordering) {
        self.key_cmp(item)
    }
}

/// An element among which a nearest or a farthest one to a target can be
/// picked, by the absolute difference of keys.
pub trait Nearness: Keyed {
    /// Of `self` and `other`, returns the one whose key is nearer to
    /// `target`'s key.
    fn nearer<'a>(&'a self, other: &'a Self, target: &Self) -> (r: &'a Self)
        ensures
            r == self || r == other,
            dist(r.key(), target.key()) <= dist(self.key(), target.key()),
            dist(r.key(), target.key()) <= dist(other.key(), target.key()),
    ;

    /// Of `self` and `other`, returns the one whose key is farther from
    /// `target`'s key.
    fn farther<'a>(&'a self, other: &'a Self, target: &Self) -> (r: &'a Self)
        ensures
            r == self || r == other,
            dist(r.key(), target.key()) >= dist(self.key(), target.key()),
            dist(r.key(), target.key()) >= dist(other.key(), target.key()),
    ;
}

/// A tie-break between two candidates: it picks one of the two references
/// handed to it, never the costlier one under its own measure. The
/// generalized nearest/farthest queries thread a chooser through their
/// descent; what they return depends on the chooser's cost. A chooser with
/// no preference can declare a constant cost.
pub trait Chooser<T> {
    /// The measure this chooser minimizes.
    spec fn cost(&self, x: &T) -> int;

    fn pick<'a>(&self, a: &'a T, b: &'a T) -> (r: &'a T)
        ensures
            r == a || r == b,
            self.cost(r) <= self.cost(a),
            self.cost(r) <= self.cost(b),
    ;
}

/// The chooser's cost agrees with the key order on each side of `target`:
/// of two elements on the same side, the one whose key is nearer to the
/// target's never costs more. Under this condition the one-sided descent of
/// the nearest query loses nothing by pruning the far side.
pub open spec fn cost_consistent<T: Keyed, C: Chooser<T>>(c: C, target: T) -> bool {
    &&& (forall|x: T, y: T|
        target.key() <= x.key() <= y.key() ==> #[trigger] c.cost(&x) <= #[trigger] c.cost(&y))
    &&& (forall|x: T, y: T|
        y.key() <= x.key() <= target.key() ==> #[trigger] c.cost(&x) <= #[trigger] c.cost(&y))
}

/// The chooser that keeps the candidate nearer to a fixed target, by the
/// absolute difference of keys.
pub struct NearerTo<'t, T: Nearness> {
    pub target: &'t T,
}

impl<'t, T: Nearness> Chooser<T> for NearerTo<'t, T> {
    open spec fn cost(&self, x: &T) -> int {
        dist(x.key(), self.target.key())
    }

    fn pick<'a>(&self, a: &'a T, b: &'a T) -> (r: &'a T) {
        a.nearer(b, self.target)
    }
}

/// A nearer-to chooser minimizes the distance to its own target, which
/// agrees with the key order on each side of that target.
pub proof fn lemma_nearer_to_consistent<'t, T: Nearness>(c: NearerTo<'t, T>)
    ensures
        cost_consistent(c, *c.target),
{
}

/// The chooser that keeps the candidate farther from a fixed target, by the
/// absolute difference of keys.
pub struct FartherFrom<'t, T: Nearness> {
    pub target: &'t T,
}

impl<'t, T: Nearness> Chooser<T> for FartherFrom<'t, T> {
    open spec fn cost(&self, x: &T) -> int {
        -dist(x.key(), self.target.key())
    }

    fn pick<'a>(&self, a: &'a T, b: &'a T) -> (r: &'a T) {
        a.farther(b, self.target)
    }
}

impl Keyed for i64 {
    open spec fn key(&self) -> int {
        *self as int
    }

    fn key_cmp(&self, other: &Self) -> (o: Ordering) {
        if *self < *other {
            Ordering::Less
        } else if *self == *other {
            Ordering::Equal
        } else {
            Ordering::Greater
        }
    }
}

impl Nearness for i64 {
    fn nearer<'a>(&'a self, other: &'a Self, target: &Self) -> (r: &'a Self) {
        let da = (*self as i128) - (*target as i128);
        let da = if da < 0 { -da } else { da };
        let db = (*other as i128) - (*target as i128);
        let db = if db < 0 { -db } else { db };
        if da < db {
            self
        } else {
            other
        }
    }

    fn farther<'a>(&'a self, other: &'a Self, target: &Self) -> (r: &'a Self) {
        let da = (*self as i128) - (*target as i128);
        let da = if da < 0 { -da } else { da };
        let db = (*other as i128) - (*target as i128);
        let db = if db < 0 { -db } else { db };
        if da > db {
            self
        } else {
            other
        }
    }
}

impl Keyed for i8 {
    open spec fn key(&self) -> int {
        *self as int
    }

    fn key_cmp(&self, other: &Self) -> (o: Ordering) {
        if *self < *other {
            Ordering::Less
        } else if *self == *other {
            Ordering::Equal
        } else {
            Ordering::Greater
        }
    }
}

impl Nearness for i8 {
    fn nearer<'a>(&'a self, other: &'a Self, target: &Self) -> (r: &'a Self) {
        let da = (*self as i128) - (*target as i128);
        let da = if da < 0 { -da } else { da };
        let db = (*other as i128) - (*target as i128);
        let db = if db < 0 { -db } else { db };
        if da < db {
            self
        } else {
            other
        }
    }

    fn farther<'a>(&'a self, other: &'a Self, target: &Self) -> (r: &'a Self) {
        let da = (*self as i128) - (*target as i128);
        let da = if da < 0 { -da } else { da };
        let db = (*other as i128) - (*target as i128);
        let db = if db < 0 { -db } else { db };
        if da > db {
            self
        } else {
            other
        }
    }
}

impl Keyed for i16 {
    open spec fn key(&self) -> int {
        *self as int
    }

    fn key_cmp(&self, other: &Self) -> (o: Ordering) {
        if *self < *other {
            Ordering::Less
        } else if *self == *other {
            Ordering::Equal
        } else {
            Ordering::Greater
        }
    }
}

impl Nearness for i16 {
    fn nearer<'a>(&'a self, other: &'a Self, target: &Self) -> (r: &'a Self) {
        let da = (*self as i128) - (*target as i128);
        let da = if da < 0 { -da } else { da };
        let db = (*other as i128) - (*target as i128);
        let db = if db < 0 { -db } else { db };
        if da < db {
            self
        } else {
            other
        }
    }

    fn farther<'a>(&'a self, other: &'a Self, target: &Self) -> (r: &'a Self) {
        let da = (*self as i128) - (*target as i128);
        let da = if da < 0 { -da } else { da };
        let db = (*other as i128) - (*target as i128);
        let db = if db < 0 { -db } else { db };
        if da > db {
            self
        } else {
            other
        }
    }
}

impl Keyed for i32 {
    open spec fn key(&self) -> int {
        *self as int
    }

    fn key_cmp(&self, other: &Self) -> (o: Ordering) {
        if *self < *other {
            Ordering::Less
        } else if *self == *other {
            Ordering::Equal
        } else {
            Ordering::Greater
        }
    }
}

impl Nearness for i32 {
    fn nearer<'a>(&'a self, other: &'a Self, target: &Self) -> (r: &'a Self) {
        let da = (*self as i128) - (*target as i128);
        let da = if da < 0 { -da } else { da };
        let db = (*other as i128) - (*target as i128);
        let db = if db < 0 { -db } else { db };
        if da < db {
            self
        } else {
            other
        }
    }

    fn farther<'a>(&'a self, other: &'a Self, target: &Self) -> (r: &'a Self) {
        let da = (*self as i128) - (*target as i128);
        let da = if da < 0 { -da } else { da };
        let db = (*other as i128) - (*target as i128);
        let db = if db < 0 { -db } else { db };
        if da > db {
            self
        } else {
            other
        }
    }
}

impl Keyed for isize {
    open spec fn key(&self) -> int {
        *self as int
    }

    fn key_cmp(&self, other: &Self) -> (o: Ordering) {
        if *self < *other {
            Ordering::Less
        } else if *self == *other {
            Ordering::Equal
        } else {
            Ordering::Greater
        }
    }
}

impl Nearness for isize {
    fn nearer<'a>(&'a self, other: &'a Self, target: &Self) -> (r: &'a Self) {
        let da = (*self as i128) - (*target as i128);
        let da = if da < 0 { -da } else { da };
        let db = (*other as i128) - (*target as i128);
        let db = if db < 0 { -db } else { db };
        if da < db {
            self
        } else {
            other
        }
    }

    fn farther<'a>(&'a self, other: &'a Self, target: &Self) -> (r: &'a Self) {
        let da = (*self as i128) - (*target as i128);
        let da = if da < 0 { -da } else { da };
        let db = (*other as i128) - (*target as i128);
        let db = if db < 0 { -db } else { db };
        if da > db {
            self
        } else {
            other
        }
    }
}

impl Keyed for i128 {
    open spec fn key(&self) -> int {
        *self as int
    }

    fn key_cmp(&self, other: &Self) -> (o: Ordering) {
        if *self < *other {
            Ordering::Less
        } else if *self == *other {
            Ordering::Equal
        } else {
            Ordering::Greater
        }
    }
}

impl Nearness for i128 {
    fn nearer<'a>(&'a self, other: &'a Self, target: &Self) -> (r: &'a Self) {
        let a = *self;
        let b = *other;
        let t = *target;
        if a >= t && b >= t {
            // same side above: the smaller value is nearer
            if a <= b {
                self
            } else {
                other
            }
        } else if a <= t && b <= t {
            // same side below: the larger value is nearer
            if a >= b {
                self
            } else {
                other
            }
        } else if a >= t {
            // b < t < a; the two distances cannot both exceed the signed
            // maximum, since they sum to a - b
            match (a.checked_sub(t), t.checked_sub(b)) {
                (Some(da), Some(db)) => if da < db {
                    self
                } else {
                    other
                },
                (None, _) => other,
                (_, None) => self,
            }
        } else {
            // a < t < b
            match (t.checked_sub(a), b.checked_sub(t)) {
                (Some(da), Some(db)) => if da < db {
                    self
                } else {
                    other
                },
                (None, _) => other,
                (_, None) => self,
            }
        }
    }

    fn farther<'a>(&'a self, other: &'a Self, target: &Self) -> (r: &'a Self) {
        let a = *self;
        let b = *other;
        let t = *target;
        if a >= t && b >= t {
            if a >= b {
                self
            } else {
                other
            }
        } else if a <= t && b <= t {
            if a <= b {
                self
            } else {
                other
            }
        } else if a >= t {
            match (a.checked_sub(t), t.checked_sub(b)) {
                (Some(da), Some(db)) => if da > db {
                    self
                } else {
                    other
                },
                (None, _) => self,
                (_, None) => other,
            }
        } else {
            match (t.checked_sub(a), b.checked_sub(t)) {
                (Some(da), Some(db)) => if da > db {
                    self
                } else {
                    other
                },
                (None, _) => self,
                (_, None) => other,
            }
        }
    }
}

impl Keyed for u8 {
    open spec fn key(&self) -> int {
        *self as int
    }

    fn key_cmp(&self, other: &Self) -> (o: Ordering) {
        if *self < *other {
            Ordering::Less
        } else if *self == *other {
            Ordering::Equal
        } else {
            Ordering::Greater
        }
    }
}

impl Nearness for u8 {
    fn nearer<'a>(&'a self, other: &'a Self, target: &Self) -> (r: &'a Self) {
        let da = if *self >= *target { *self - *target } else { *target - *self };
        let db = if *other >= *target { *other - *target } else { *target - *other };
        if da < db {
            self
        } else {
            other
        }
    }

    fn farther<'a>(&'a self, other: &'a Self, target: &Self) -> (r: &'a Self) {
        let da = if *self >= *target { *self - *target } else { *target - *self };
        let db = if *other >= *target { *other - *target } else { *target - *other };
        if da > db {
            self
        } else {
            other
        }
    }
}

impl Keyed for u16 {
    open spec fn key(&self) -> int {
        *self as int
    }

    fn key_cmp(&self, other: &Self) -> (o: Ordering) {
        if *self < *other {
            Ordering::Less
        } else if *self == *other {
            Ordering::Equal
        } else {
            Ordering::Greater
        }
    }
}

impl Nearness for u16 {
    fn nearer<'a>(&'a self, other: &'a Self, target: &Self) -> (r: &'a Self) {
        let da = if *self >= *target { *self - *target } else { *target - *self };
        let db = if *other >= *target { *other - *target } else { *target - *other };
        if da < db {
            self
        } else {
            other
        }
    }

    fn farther<'a>(&'a self, other: &'a Self, target: &Self) -> (r: &'a Self) {
        let da = if *self >= *target { *self - *target } else { *target - *self };
        let db = if *other >= *target { *other - *target } else { *target - *other };
        if da > db {
            self
        } else {
            other
        }
    }
}

impl Keyed for u32 {
    open spec fn key(&self) -> int {
        *self as int
    }

    fn key_cmp(&self, other: &Self) -> (o: Ordering) {
        if *self < *other {
            Ordering::Less
        } else if *self == *other {
            Ordering::Equal
        } else {
            Ordering::Greater
        }
    }
}

impl Nearness for u32 {
    fn nearer<'a>(&'a self, other: &'a Self, target: &Self) -> (r: &'a Self) {
        let da = if *self >= *target { *self - *target } else { *target - *self };
        let db = if *other >= *target { *other - *target } else { *target - *other };
        if da < db {
            self
        } else {
            other
        }
    }

    fn farther<'a>(&'a self, other: &'a Self, target: &Self) -> (r: &'a Self) {
        let da = if *self >= *target { *self - *target } else { *target - *self };
        let db = if *other >= *target { *other - *target } else { *target - *other };
        if da > db {
            self
        } else {
            other
        }
    }
}

impl Keyed for u64 {
    open spec fn key(&self) -> int {
        *self as int
    }

    fn key_cmp(&self, other: &Self) -> (o: Ordering) {
        if *self < *other {
            Ordering::Less
        } else if *self == *other {
            Ordering::Equal
        } else {
            Ordering::Greater
        }
    }
}

impl Nearness for u64 {
    fn nearer<'a>(&'a self, other: &'a Self, target: &Self) -> (r: &'a Self) {
        let da = if *self >= *target { *self - *target } else { *target - *self };
        let db = if *other >= *target { *other - *target } else { *target - *other };
        if da < db {
            self
        } else {
            other
        }
    }

    fn farther<'a>(&'a self, other: &'a Self, target: &Self) -> (r: &'a Self) {
        let da = if *self >= *target { *self - *target } else { *target - *self };
        let db = if *other >= *target { *other - *target } else { *target - *other };
        if da > db {
            self
        } else {
            other
        }
    }
}

impl Keyed for u128 {
    open spec fn key(&self) -> int {
        *self as int
    }

    fn key_cmp(&self, other: &Self) -> (o: Ordering) {
        if *self < *other {
            Ordering::Less
        } else if *self == *other {
            Ordering::Equal
        } else {
            Ordering::Greater
        }
    }
}

impl Nearness for u128 {
    fn nearer<'a>(&'a self, other: &'a Self, target: &Self) -> (r: &'a Self) {
        let da = if *self >= *target { *self - *target } else { *target - *self };
        let db = if *other >= *target { *other - *target } else { *target - *other };
        if da < db {
            self
        } else {
            other
        }
    }

    fn farther<'a>(&'a self, other: &'a Self, target: &Self) -> (r: &'a Self) {
        let da = if *self >= *target { *self - *target } else { *target - *self };
        let db = if *other >= *target { *other - *target } else { *target - *other };
        if da > db {
            self
        } else {
            other
        }
    }
}

impl Keyed for usize {
    open spec fn key(&self) -> int {
        *self as int
    }

    fn key_cmp(&self, other: &Self) -> (o: Ordering) {
        if *self < *other {
            Ordering::Less
        } else if *self == *other {
            Ordering::Equal
        } else {
            Ordering::Greater
        }
    }
}

impl Nearness for usize {
    fn nearer<'a>(&'a self, other: &'a Self, target: &Self) -> (r: &'a Self) {
        let da = if *self >= *target { *self - *target } else { *target - *self };
        let db = if *other >= *target { *other - *target } else { *target - *other };
        if da < db {
            self
        } else {
            other
        }
    }

    fn farther<'a>(&'a self, other: &'a Self, target: &Self) -> (r: &'a Self) {
        let da = if *self >= *target { *self - *target } else { *target - *self };
        let db = if *other >= *target { *other - *target } else { *target - *other };
        if da > db {
            self
        } else {
            other
        }
    }
}

} // verus!
