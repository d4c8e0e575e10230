//! Grid cells and spatial regions over GeoSOT codes.
//!
//! A cell pairs one 64-bit grid code with its subdivision level and offers
//! quad-tree navigation.  A region is an ordered, duplicate-free collection
//! of codes sharing one level, with set algebra and similarity metrics.

use vstd::prelude::*;
use vstd::seq_lib::group_seq_lib_default;
use crate::utils::GridError;

verus! {

broadcast use group_seq_lib_default;

/// A sequence of codes in strictly increasing order, hence duplicate-free.
pub open spec fn strictly_sorted(s: Seq<u64>) -> bool {
    forall|i: int, j: int| 0 <= i < j < s.len() ==> s[i] < s[j]
}

proof fn lemma_strictly_sorted_no_duplicates(s: Seq<u64>)
    requires
        strictly_sorted(s),
    ensures
        s.no_duplicates(),
{
    assert forall|i: int, j: int| 0 <= i < s.len() && 0 <= j < s.len() && i != j implies s[i]
        != s[j] by {
        if i < j {
            assert(s[i] < s[j]);
        } else {
            assert(s[j] < s[i]);
        }
    }
}

proof fn lemma_sorted_push(s: Seq<u64>, e: u64)
    requires
        strictly_sorted(s),
        forall|j: int| 0 <= j < s.len() ==> s[j] < e,
    ensures
        strictly_sorted(s.push(e)),
{
    assert forall|i: int, j: int| 0 <= i < j < s.push(e).len() implies s.push(e)[i] < s.push(
        e,
    )[j] by {
        if j == s.len() {
            assert(s.push(e)[i] == s[i]);
        } else {
            assert(s.push(e)[i] == s[i] && s.push(e)[j] == s[j]);
        }
    }
}

proof fn lemma_push_contains(s: Seq<u64>, e: u64)
    ensures
        forall|x: u64| #[trigger] s.push(e).contains(x) <==> (s.contains(x) || x == e),
{
    assert forall|x: u64| #[trigger] s.push(e).contains(x) <==> (s.contains(x) || x == e) by {
        if s.push(e).contains(x) {
            let k = choose|k: int| 0 <= k < s.push(e).len() && #[trigger] s.push(e)[k] == x;
            if k < s.len() {
                assert(s[k] == x);
            }
        }
        if s.contains(x) {
            let k = choose|k: int| 0 <= k < s.len() && #[trigger] s[k] == x;
            assert(s.push(e)[k] == x);
        }
        if x == e {
            assert(s.push(e)[s.len() as int] == x);
        }
    }
}

/// Two strictly sorted code sequences holding the same codes are equal:
/// a region's ordered contents are determined by its code set.
pub proof fn lemma_sorted_unique(p: Seq<u64>, q: Seq<u64>)
    requires
        strictly_sorted(p),
        strictly_sorted(q),
        forall|x: u64| p.contains(x) <==> q.contains(x),
    ensures
        p == q,
    decreases p.len(),
{
    if p.len() == 0 {
        if q.len() > 0 {
            assert(q.contains(q[0]));
            assert(p.contains(q[0]));
        }
        assert(p =~= q);
    } else {
        assert(p.contains(p[0]));
        assert(q.contains(p[0]));
        assert(q.contains(q[0]));
        assert(p.contains(q[0]));
        let i = choose|i: int| 0 <= i < p.len() && #[trigger] p[i] == q[0];
        let j = choose|j: int| 0 <= j < q.len() && #[trigger] q[j] == p[0];
        assert(p[0] <= p[i] && q[0] <= q[j]);
        assert(p[0] == q[0]);
        let pt = p.drop_first();
        let qt = q.drop_first();
        assert forall|x: u64| pt.contains(x) <==> qt.contains(x) by {
            if pt.contains(x) {
                let k = choose|k: int| 0 <= k < pt.len() && #[trigger] pt[k] == x;
                assert(p[k + 1] == x);
                assert(q.contains(x));
                let l = choose|l: int| 0 <= l < q.len() && #[trigger] q[l] == x;
                assert(p[0] < x);
                assert(l != 0);
                assert(qt[l - 1] == x);
            }
            if qt.contains(x) {
                let k = choose|k: int| 0 <= k < qt.len() && #[trigger] qt[k] == x;
                assert(q[k + 1] == x);
                assert(p.contains(x));
                let l = choose|l: int| 0 <= l < p.len() && #[trigger] p[l] == x;
                assert(q[0] < x);
                assert(l != 0);
                assert(pt[l - 1] == x);
            }
        }
        lemma_sorted_unique(pt, qt);
        assert(p.len() == q.len());
        assert forall|k: int| 0 <= k < p.len() implies p[k] == q[k] by {
            if k > 0 {
                assert(pt[k - 1] == qt[k - 1]);
            }
        }
        assert(p =~= q);
    }
}

/// Whether `c` occurs in the strictly sorted vector `v`, by binary search.
fn vec_contains(v: &Vec<u64>, c: u64) -> (r: bool)
    requires
        strictly_sorted(v@),
    ensures
        r == v@.contains(c),
{
    let mut lo: usize = 0;
    let mut hi: usize = v.len();
    while lo < hi
        invariant
            strictly_sorted(v@),
            lo <= hi <= v@.len(),
            forall|k: int| 0 <= k < lo ==> v@[k] < c,
            forall|k: int| hi <= k < v@.len() ==> v@[k] > c,
        decreases hi - lo,
    {
        let mid = lo + (hi - lo) / 2;
        if v[mid] == c {
            proof {
                assert(v@[mid as int] == c);
            }
            return true;
        } else if v[mid] < c {
            proof {
                assert forall|k: int| 0 <= k < mid + 1 implies v@[k] < c by {
                    if k < mid {
                        assert(v@[k] < v@[mid as int]);
                    }
                }
            }
            lo = mid + 1;
        } else {
            proof {
                assert forall|k: int| mid <= k < v@.len() implies v@[k] > c by {
                    if k > mid {
                        assert(v@[k] > v@[mid as int]);
                    }
                }
            }
            hi = mid;
        }
    }
    proof {
        assert forall|k: int| 0 <= k < v@.len() implies v@[k] != c by {
            if k < lo {
                assert(v@[k] < c);
            } else {
                assert(v@[k] > c);
            }
        }
    }
    false
}

/// Inserts `c` into the strictly sorted vector `v`, keeping it sorted and
/// duplicate-free.
fn insert_sorted(v: &mut Vec<u64>, c: u64)
    requires
        strictly_sorted(old(v)@),
    ensures
        strictly_sorted(final(v)@),
        forall|x: u64| final(v)@.contains(x) <==> (old(v)@.contains(x) || x == c),
        final(v)@.to_set() == old(v)@.to_set().insert(c),
        final(v)@.len() == old(v)@.len() + (if old(v)@.contains(c) {
            0int
        } else {
            1int
        }),
{
    let mut idx: usize = 0;
    while idx < v.len() && v[idx] < c
        invariant
            v@ == old(v)@,
            idx <= v@.len(),
            forall|j: int| 0 <= j < idx ==> v@[j] < c,
        decreases v@.len() - idx,
    {
        idx += 1;
    }
    if idx < v.len() && v[idx] == c {
        proof {
            assert(v@[idx as int] == c);
            assert(v@.contains(c));
            assert(v@.to_set() =~= v@.to_set().insert(c));
        }
        return;
    }
    proof {
        assert(forall|j: int| idx <= j < v@.len() ==> c < v@[j]) by {
            assert forall|j: int| idx <= j < v@.len() implies c < v@[j] by {
                assert(v@[idx as int] <= v@[j]);
            }
        }
    }
    let ghost before = v@;
    v.insert(idx, c);
    proof {
        assert(v@ =~= before.take(idx as int).push(c) + before.skip(idx as int));
        assert forall|i: int, j: int| 0 <= i < j < v@.len() implies v@[i] < v@[j] by {
            assert(forall|k: int| 0 <= k < idx ==> v@[k] == before[k]);
            assert(v@[idx as int] == c);
            assert(forall|k: int| idx < k < v@.len() ==> v@[k] == before[k - 1]);
        }
        assert forall|x: u64| v@.contains(x) <==> (before.contains(x) || x == c) by {
            if v@.contains(x) {
                let k = choose|k: int| 0 <= k < v@.len() && v@[k] == x;
                if k < idx {
                    assert(before[k] == x);
                } else if k == idx {
                } else {
                    assert(before[k - 1] == x);
                }
            }
            if before.contains(x) {
                let k = choose|k: int| 0 <= k < before.len() && before[k] == x;
                if k < idx {
                    assert(v@[k] == x);
                } else {
                    assert(v@[k + 1] == x);
                }
            }
            if x == c {
                assert(v@[idx as int] == x);
            }
        }
        assert forall|x: u64|
            v@.to_set().contains(x) == before.to_set().insert(c).contains(x) by {
            assert(v@.to_set().contains(x) == v@.contains(x));
            assert(before.to_set().contains(x) == before.contains(x));
        }
        assert(v@.to_set() =~= before.to_set().insert(c));
        assert(!before.contains(c));
    }
}

/// Codes of `a` that also occur in `b`, in increasing order.
fn intersection_codes(a: &Vec<u64>, b: &Vec<u64>) -> (r: Vec<u64>)
    requires
        strictly_sorted(a@),
        strictly_sorted(b@),
    ensures
        strictly_sorted(r@),
        forall|x: u64| r@.contains(x) <==> (a@.contains(x) && b@.contains(x)),
{
    let mut r: Vec<u64> = Vec::new();
    let mut i: usize = 0;
    while i < a.len()
        invariant
            strictly_sorted(a@),
            strictly_sorted(b@),
            i <= a@.len(),
            strictly_sorted(r@),
            forall|x: u64| r@.contains(x) <==> (a@.take(i as int).contains(x) && b@.contains(x)),
        decreases a@.len() - i,
    {
        let ghost taken = a@.take(i as int);
        if vec_contains(b, a[i]) {
            proof {
                assert forall|j: int| 0 <= j < r@.len() implies r@[j] < a@[i as int] by {
                    assert(r@.contains(r@[j]));
                    assert(taken.contains(r@[j]));
                    let k = choose|k: int| 0 <= k < taken.len() && #[trigger] taken[k] == r@[j];
                    assert(a@[k] == r@[j]);
                }
                lemma_sorted_push(r@, a@[i as int]);
                lemma_push_contains(r@, a@[i as int]);
            }
            r.push(a[i]);
        }
        proof {
            assert(a@.take(i + 1) =~= taken.push(a@[i as int]));
            lemma_push_contains(taken, a@[i as int]);
        }
        i += 1;
    }
    proof {
        assert(a@.take(a@.len() as int) =~= a@);
    }
    r
}

/// Codes of `a` that do not occur in `b`, in increasing order.
fn difference_codes(a: &Vec<u64>, b: &Vec<u64>) -> (r: Vec<u64>)
    requires
        strictly_sorted(a@),
        strictly_sorted(b@),
    ensures
        strictly_sorted(r@),
        forall|x: u64| r@.contains(x) <==> (a@.contains(x) && !b@.contains(x)),
{
    let mut r: Vec<u64> = Vec::new();
    let mut i: usize = 0;
    while i < a.len()
        invariant
            strictly_sorted(a@),
            strictly_sorted(b@),
            i <= a@.len(),
            strictly_sorted(r@),
            forall|x: u64| r@.contains(x) <==> (a@.take(i as int).contains(x) && !b@.contains(x)),
        decreases a@.len() - i,
    {
        let ghost taken = a@.take(i as int);
        if !vec_contains(b, a[i]) {
            proof {
                assert forall|j: int| 0 <= j < r@.len() implies r@[j] < a@[i as int] by {
                    assert(r@.contains(r@[j]));
                    assert(taken.contains(r@[j]));
                    let k = choose|k: int| 0 <= k < taken.len() && #[trigger] taken[k] == r@[j];
                    assert(a@[k] == r@[j]);
                }
                lemma_sorted_push(r@, a@[i as int]);
                lemma_push_contains(r@, a@[i as int]);
            }
            r.push(a[i]);
        }
        proof {
            assert(a@.take(i + 1) =~= taken.push(a@[i as int]));
            lemma_push_contains(taken, a@[i as int]);
        }
        i += 1;
    }
    proof {
        assert(a@.take(a@.len() as int) =~= a@);
    }
    r
}

/// Codes occurring in `a` or in `b`, in increasing order, by a single
/// merge pass over the two sorted inputs.
fn union_codes(a: &Vec<u64>, b: &Vec<u64>) -> (r: Vec<u64>)
    requires
        strictly_sorted(a@),
        strictly_sorted(b@),
    ensures
        strictly_sorted(r@),
        forall|x: u64| r@.contains(x) <==> (a@.contains(x) || b@.contains(x)),
{
    let mut r: Vec<u64> = Vec::new();
    let mut i: usize = 0;
    let mut j: usize = 0;
    while i < a.len() || j < b.len()
        invariant
            strictly_sorted(a@),
            strictly_sorted(b@),
            strictly_sorted(r@),
            i <= a@.len(),
            j <= b@.len(),
            forall|x: u64| r@.contains(x) <==> (a@.take(i as int).contains(x) || b@.take(
                j as int,
            ).contains(x)),
            forall|k: int, l: int| 0 <= k < r@.len() && i <= l < a@.len() ==> r@[k] < a@[l],
            forall|k: int, l: int| 0 <= k < r@.len() && j <= l < b@.len() ==> r@[k] < b@[l],
        decreases a@.len() + b@.len() - i - j,
    {
        let v: u64 = if i < a.len() && (j >= b.len() || a[i] <= b[j]) {
            a[i]
        } else {
            b[j]
        };
        proof {
            lemma_sorted_push(r@, v);
            lemma_push_contains(r@, v);
        }
        let ghost i0 = i as int;
        let ghost j0 = j as int;
        let ghost taken_a = a@.take(i as int);
        let ghost taken_b = b@.take(j as int);
        if i < a.len() && a[i] == v {
            i += 1;
        }
        if j < b.len() && b[j] == v {
            j += 1;
        }
        r.push(v);
        proof {
            if i != i0 {
                assert(a@.take(i as int) =~= taken_a.push(v));
                lemma_push_contains(taken_a, v);
            }
            if j != j0 {
                assert(b@.take(j as int) =~= taken_b.push(v));
                lemma_push_contains(taken_b, v);
            }
            assert(i != i0 || j != j0);
            assert forall|k: int, l: int|
                0 <= k < r@.len() && i <= l < a@.len() implies r@[k] < a@[l] by {
                if k == r@.len() - 1 {
                    assert(r@[k] == v);
                    if i != i0 {
                        assert(a@[i0] == v);
                        assert(a@[i0] < a@[l]);
                    } else {
                        assert(v < a@[i0]);
                        if l > i0 {
                            assert(a@[i0] < a@[l]);
                        }
                    }
                }
            }
            assert forall|k: int, l: int|
                0 <= k < r@.len() && j <= l < b@.len() implies r@[k] < b@[l] by {
                if k == r@.len() - 1 {
                    assert(r@[k] == v);
                    if j != j0 {
                        assert(b@[j0] == v);
                        assert(b@[j0] < b@[l]);
                    } else {
                        assert(v < b@[j0]);
                        if l > j0 {
                            assert(b@[j0] < b@[l]);
                        }
                    }
                }
            }
        }
    }
    proof {
        assert(a@.take(a@.len() as int) =~= a@);
        assert(b@.take(b@.len() as int) =~= b@);
    }
    r
}

/// Codes occurring in exactly one of `a` and `b`, in increasing order.
fn symmetric_difference_codes(a: &Vec<u64>, b: &Vec<u64>) -> (r: Vec<u64>)
    requires
        strictly_sorted(a@),
        strictly_sorted(b@),
    ensures
        strictly_sorted(r@),
        forall|x: u64| r@.contains(x) <==> (a@.contains(x) != b@.contains(x)),
{
    let mut r = difference_codes(a, b);
    let mut j: usize = 0;
    while j < b.len()
        invariant
            strictly_sorted(a@),
            strictly_sorted(r@),
            j <= b@.len(),
            forall|x: u64| r@.contains(x) <==> ((a@.contains(x) && !b@.contains(x)) || (b@.take(
                j as int,
            ).contains(x) && !a@.contains(x))),
        decreases b@.len() - j,
    {
        let ghost taken = b@.take(j as int);
        if !vec_contains(a, b[j]) {
            insert_sorted(&mut r, b[j]);
        }
        proof {
            assert(b@.take(j + 1) =~= taken.push(b@[j as int]));
            lemma_push_contains(taken, b@[j as int]);
        }
        j += 1;
    }
    proof {
        assert(b@.take(b@.len() as int) =~= b@);
    }
    r
}

/// A grid cell: one code at one subdivision level.
#[derive(Debug, Clone, Copy, PartialEq, Eq, Hash, PartialOrd, Ord, Structural)]
pub struct GeoSotCell {
    /// The 64-bit Morton grid code.
    pub code: u64,
    /// The quad-tree subdivision level, 1..=32.
    pub level: usize,
}

/// The cell one level coarser: the lowest two code bits cleared.
pub open spec fn spec_parent(c: GeoSotCell) -> GeoSotCell {
    GeoSotCell { code: (c.code >> 2) << 2, level: (c.level - 1) as usize }
}

/// Child `k` one level finer: the code shifted left one digit with `k`
/// as the new lowest base-4 digit.
pub open spec fn spec_child(c: GeoSotCell, k: int) -> GeoSotCell {
    GeoSotCell { code: (c.code << 2) | (k as u64), level: (c.level + 1) as usize }
}

/// Whether `a` is a strict ancestor of `b`: `a` is coarser and `b`'s code,
/// shifted right by the level difference in digits, equals `a`'s code.
pub open spec fn spec_is_ancestor_of(a: GeoSotCell, b: GeoSotCell) -> bool {
    a.level < b.level && (b.code >> ((2 * (b.level - a.level)) as u64)) == a.code
}

/// Numeric-distance adjacency heuristic over equal-level cells: the
/// absolute code difference is 1, 2, 4 or 8.  This approximates, but does
/// not correctly derive, spatial adjacency of interleaved codes.
pub open spec fn spec_is_adjacent(a: GeoSotCell, b: GeoSotCell) -> bool {
    a.level == b.level && {
        let diff = if a.code > b.code {
            a.code - b.code
        } else {
            b.code - a.code
        };
        diff == 1 || diff == 2 || diff == 4 || diff == 8
    }
}

impl GeoSotCell {
    /// Creates the cell with the given code and level.
    pub fn new(code: u64, level: usize) -> (r: Self)
        ensures
            r.code == code,
            r.level == level,
    {
        Self { code, level }
    }

    /// Encodes a scaled coordinate pair at `level` and wraps it as a cell.
    pub fn from_coords(lng: i64, lat: i64, level: usize) -> (r: Self)
        requires
            1 <= level <= 32,
            -crate::MAX_AXIS_UNITS < lng < crate::MAX_AXIS_UNITS,
            -crate::MAX_AXIS_UNITS < lat < crate::MAX_AXIS_UNITS,
        ensures
            r.code == crate::spec_get_code(lng as int, lat as int, level as int),
            r.level == level,
    {
        let code = crate::get_code(lng, lat, level);
        Self::new(code, level)
    }

    /// The cell's hierarchical path string.
    pub fn to_string_py(&self) -> (s: String)
        requires
            1 <= self.level <= 32,
        ensures
            s@ == crate::spec_to_string(self.code, self.level as int),
    {
        crate::to_string(self.code, self.level)
    }

    /// The cell one level coarser, or `None` at the top level.
    pub fn parent(&self) -> (r: Option<Self>)
        ensures
            self.level <= 1 ==> r is None,
            self.level > 1 ==> r == Some(spec_parent(*self)),
    {
        if self.level <= 1 {
            return None;
        }
        let parent_level = self.level - 1;
        let parent_code = (self.code >> 2) << 2;
        Some(Self::new(parent_code, parent_level))
    }

    /// The four cells one level finer, in child order 0..=3; empty at the
    /// deepest level.
    pub fn children(&self) -> (r: Vec<Self>)
        ensures
            self.level >= 32 ==> r@.len() == 0,
            self.level < 32 ==> r@.len() == 4,
            self.level < 32 ==> forall|k: int| 0 <= k < 4 ==> r@[k] == spec_child(*self, k),
    {
        let mut children: Vec<Self> = Vec::new();
        if self.level >= 32 {
            return children;
        }
        let child_level = self.level + 1;
        let mut i: u64 = 0;
        while i < 4
            invariant
                i <= 4,
                child_level == self.level + 1,
                children@.len() == i,
                forall|k: int| 0 <= k < i ==> children@[k] == spec_child(*self, k),
            decreases 4 - i,
        {
            let child_code = (self.code << 2) | i;
            children.push(Self::new(child_code, child_level));
            i += 1;
        }
        children
    }

    /// Whether this cell is a strict ancestor of `other`.
    pub fn is_ancestor_of(&self, other: &Self) -> (r: bool)
        requires
            1 <= self.level,
            other.level <= 32,
        ensures
            r == spec_is_ancestor_of(*self, *other),
    {
        if self.level >= other.level {
            return false;
        }
        let level_diff = other.level - self.level;
        let shift: u64 = (level_diff as u64) * 2;
        let shifted_other = other.code >> shift;
        shifted_other == self.code
    }

    /// Whether this cell is a strict descendant of `other`.
    pub fn is_descendant_of(&self, other: &Self) -> (r: bool)
        requires
            1 <= other.level,
            self.level <= 32,
        ensures
            r == spec_is_ancestor_of(*other, *self),
    {
        other.is_ancestor_of(self)
    }

    /// The numeric-distance adjacency heuristic (see [`spec_is_adjacent`]).
    pub fn is_adjacent_to(&self, other: &Self) -> (r: bool)
        ensures
            r == spec_is_adjacent(*self, *other),
    {
        if self.level != other.level {
            return false;
        }
        let diff = if self.code > other.code {
            self.code - other.code
        } else {
            other.code - self.code
        };
        diff == 1 || diff == 2 || diff == 4 || diff == 8
    }
}

/// Every child of a cell below the deepest level is a strict descendant of
/// that cell, provided the shifted-out top digit was unused.
pub proof fn lemma_children_are_descendants(c: GeoSotCell)
    requires
        1 <= c.level < 32,
        c.code < 0x4000_0000_0000_0000,
    ensures
        forall|k: int| 0 <= k < 4 ==> spec_is_ancestor_of(c, #[trigger] spec_child(c, k)),
{
    let cc = c.code;
    assert forall|k: int| 0 <= k < 4 implies spec_is_ancestor_of(c, spec_child(c, k)) by {
        let ku = k as u64;
        assert((((cc << 2) | ku) >> 2) == cc) by (bit_vector)
            requires
                ku < 4,
                cc < 0x4000_0000_0000_0000u64,
        ;
    }
}

/// The cleared-low-bits parent is an ancestor of its cell when every digit
/// above the lowest pair is zero.  Ancestry shifts the child's code right,
/// while the parent keeps the higher digits in place, so the two agree on
/// exactly those codes below 4.
pub proof fn lemma_parent_is_ancestor(c: GeoSotCell)
    requires
        2 <= c.level <= 32,
        c.code < 4,
    ensures
        spec_is_ancestor_of(spec_parent(c), c),
{
    let cc = c.code;
    assert((cc >> 2) << 2 == 0 && cc >> 2 == 0) by (bit_vector)
        requires
            cc < 4,
    ;
}

/// A spatial region: codes in strictly increasing order, all sharing one
/// subdivision level.
#[derive(Debug, Clone, PartialEq, Eq)]
pub struct GeoSotRegion {
    /// The region's codes, kept in strictly increasing order (see [`Self::wf`]).
    pub codes: Vec<u64>,
    /// The subdivision level shared by every code of the region.
    pub level: usize,
}

impl View for GeoSotRegion {
    type V = Seq<u64>;

    open spec fn view(&self) -> Seq<u64> {
        self.codes@
    }
}

impl GeoSotRegion {
    /// The region's codes are strictly sorted, hence duplicate-free.
    pub open spec fn wf(&self) -> bool {
        strictly_sorted(self@)
    }

    /// The set of codes the region holds.
    pub open spec fn code_set(&self) -> Set<u64> {
        self@.to_set()
    }

    /// Creates an empty region at the given level.
    pub fn new(level: usize) -> (r: Self)
        ensures
            r@ == Seq::<u64>::empty(),
            r.level == level,
            r.wf(),
    {
        Self { codes: Vec::new(), level }
    }

    /// Creates a region holding the given codes, deduplicated and ordered.
    pub fn from_codes(codes: Vec<u64>, level: usize) -> (r: Self)
        ensures
            r.level == level,
            r.wf(),
            forall|x: u64| r@.contains(x) <==> codes@.contains(x),
            r.code_set() == codes@.to_set(),
    {
        let mut region = Self::new(level);
        let mut i: usize = 0;
        while i < codes.len()
            invariant
                i <= codes@.len(),
                region.wf(),
                region.level == level,
                forall|x: u64| region@.contains(x) <==> codes@.take(i as int).contains(x),
            decreases codes@.len() - i,
        {
            let ghost taken = codes@.take(i as int);
            insert_sorted(&mut region.codes, codes[i]);
            proof {
                assert(codes@.take(i + 1) =~= taken.push(codes@[i as int]));
                assert forall|x: u64| region@.contains(x) <==> codes@.take(i + 1).contains(x) by {
                    if codes@.take(i + 1).contains(x) {
                        let k = choose|k: int|
                            0 <= k < i + 1 && #[trigger] codes@.take(i + 1)[k] == x;
                        if k < i {
                            assert(taken[k] == x);
                        }
                    }
                    if taken.contains(x) {
                        let k = choose|k: int| 0 <= k < i && taken[k] == x;
                        assert(codes@.take(i + 1)[k] == x);
                    }
                    if x == codes@[i as int] {
                        assert(codes@.take(i + 1)[i as int] == x);
                    }
                }
            }
            i += 1;
        }
        proof {
            assert(codes@.take(codes@.len() as int) =~= codes@);
            assert(region.code_set() =~= codes@.to_set());
        }
        region
    }

    /// Creates a region by scanning a regular grid over the rectangle from
    /// `(min_lng, min_lat)` to `(max_lng, max_lat)` (scaled coordinates),
    /// with the level's cell size as the step in each axis, and encoding
    /// every sampled point.  This is a sampling approximation, not exact
    /// cell enumeration.
    pub fn from_rectangle(
        min_lng: i64,
        min_lat: i64,
        max_lng: i64,
        max_lat: i64,
        level: usize,
    ) -> (r: Self)
        requires
            1 <= level <= 32,
            -crate::MAX_AXIS_UNITS < min_lng < crate::MAX_AXIS_UNITS,
            max_lng < crate::MAX_AXIS_UNITS,
            -crate::MAX_AXIS_UNITS < min_lat < crate::MAX_AXIS_UNITS,
            max_lat < crate::MAX_AXIS_UNITS,
        ensures
            r.wf(),
            r.level == level,
            forall|c: u64| r@.contains(c) <==> spec_rect_covers(
                min_lng as int,
                min_lat as int,
                max_lng as int,
                max_lat as int,
                level as int,
                c,
            ),
    {
        proof {
            crate::utils::lemma_cell_size_units_positive(level as int);
        }
        let step_wide: u64 = crate::utils::cell_size_units(level);
        let step: i64 = step_wide as i64;
        let mut codes: Vec<u64> = Vec::new();
        let mut lat: i64 = min_lat;
        let ghost mut q: int = 0;
        while lat <= max_lat
            invariant
                strictly_sorted(codes@),
                1 <= level <= 32,
                step == crate::utils::spec_cell_size_units(level as int),
                1 <= step <= 3774873600,
                -crate::MAX_AXIS_UNITS < min_lng < crate::MAX_AXIS_UNITS,
                max_lng < crate::MAX_AXIS_UNITS,
                -crate::MAX_AXIS_UNITS < min_lat < crate::MAX_AXIS_UNITS,
                max_lat < crate::MAX_AXIS_UNITS,
                q >= 0,
                lat == min_lat + q * step,
                lat >= min_lat,
                forall|x: u64| codes@.contains(x) <==> (exists|qq: int|
                    #![trigger spec_row_covers(min_lng as int, max_lng as int, min_lat + qq * crate::utils::spec_cell_size_units(level as int), level as int, x)]
                    0 <= qq < q && min_lat + qq * step <= max_lat && spec_row_covers(
                        min_lng as int,
                        max_lng as int,
                        min_lat + qq * step,
                        level as int,
                        x,
                    )),
            decreases max_lat + step - lat,
        {
            let ghost before = codes@;
            let row = row_codes(min_lng, max_lng, lat, step, level);
            codes = union_codes(&codes, &row);
            proof {
                assert forall|x: u64|
                    codes@.contains(x) <==> (exists|qq: int|
                        #![trigger spec_row_covers(min_lng as int, max_lng as int, min_lat + qq * crate::utils::spec_cell_size_units(level as int), level as int, x)]
                        0 <= qq < q + 1 && min_lat + qq * step <= max_lat && spec_row_covers(
                            min_lng as int,
                            max_lng as int,
                            min_lat + qq * step,
                            level as int,
                            x,
                        )) by {
                    if codes@.contains(x) && !before.contains(x) {
                        assert(min_lat + q * step <= max_lat && spec_row_covers(
                            min_lng as int,
                            max_lng as int,
                            min_lat + q * step,
                            level as int,
                            x,
                        ));
                    }
                }
                assert((q + 1) * step == q * step + step) by (nonlinear_arith);
                q = q + 1;
            }
            lat = lat + step;
        }
        proof {
            assert forall|x: u64|
                codes@.contains(x) <==> spec_rect_covers(
                    min_lng as int,
                    min_lat as int,
                    max_lng as int,
                    max_lat as int,
                    level as int,
                    x,
                ) by {
                if spec_rect_covers(
                    min_lng as int,
                    min_lat as int,
                    max_lng as int,
                    max_lat as int,
                    level as int,
                    x,
                ) {
                    let qq = choose|qq: int|
                        #![trigger spec_row_covers(min_lng as int, max_lng as int, min_lat + qq * crate::utils::spec_cell_size_units(level as int), level as int, x)]
                        0 <= qq && min_lat + qq * crate::utils::spec_cell_size_units(level as int)
                            <= max_lat && spec_row_covers(
                            min_lng as int,
                            max_lng as int,
                            min_lat + qq * crate::utils::spec_cell_size_units(level as int),
                            level as int,
                            x,
                        );
                    assert(qq < q) by (nonlinear_arith)
                        requires
                            step >= 1,
                            min_lat + qq * step <= max_lat,
                            min_lat + q * step > max_lat,
                            qq >= 0,
                            q >= 0,
                    ;
                }
            }
        }
        Self { codes, level }
    }

    /// Creates a region from the axis-aligned bounding box of the given
    /// points, by rectangle scanning; the polygon's shape is otherwise
    /// ignored, a documented approximation.  An empty point list gives an
    /// empty region.
    pub fn from_polygon(points: Vec<(i64, i64)>, level: usize) -> (r: Self)
        requires
            1 <= level <= 32,
            forall|k: int| 0 <= k < points@.len() ==> -crate::MAX_AXIS_UNITS < (
            #[trigger] points@[k]).0 < crate::MAX_AXIS_UNITS && -crate::MAX_AXIS_UNITS
                < points@[k].1 < crate::MAX_AXIS_UNITS,
        ensures
            r.wf(),
            r.level == level,
            points@.len() == 0 ==> r@.len() == 0,
            points@.len() > 0 ==> exists|mnx: int, mny: int, mxx: int, mxy: int|
                spec_is_bounding_box(points@, mnx, mny, mxx, mxy) && forall|c: u64| r@.contains(c)
                    <==> spec_rect_covers(mnx, mny, mxx, mxy, level as int, c),
    {
        if points.len() == 0 {
            return Self::new(level);
        }
        let mut min_lng: i64 = points[0].0;
        let mut max_lng: i64 = points[0].0;
        let mut min_lat: i64 = points[0].1;
        let mut max_lat: i64 = points[0].1;
        let mut k: usize = 1;
        while k < points.len()
            invariant
                1 <= k <= points@.len(),
                forall|j: int| 0 <= j < points@.len() ==> -crate::MAX_AXIS_UNITS < (
                #[trigger] points@[j]).0 < crate::MAX_AXIS_UNITS && -crate::MAX_AXIS_UNITS
                    < points@[j].1 < crate::MAX_AXIS_UNITS,
                forall|j: int| 0 <= j < k ==> min_lng <= (#[trigger] points@[j]).0 <= max_lng
                    && min_lat <= points@[j].1 <= max_lat,
                exists|j: int| 0 <= j < k && (#[trigger] points@[j]).0 == min_lng,
                exists|j: int| 0 <= j < k && (#[trigger] points@[j]).0 == max_lng,
                exists|j: int| 0 <= j < k && (#[trigger] points@[j]).1 == min_lat,
                exists|j: int| 0 <= j < k && (#[trigger] points@[j]).1 == max_lat,
            decreases points@.len() - k,
        {
            let (lng, lat) = points[k];
            if lng < min_lng {
                min_lng = lng;
            }
            if lng > max_lng {
                max_lng = lng;
            }
            if lat < min_lat {
                min_lat = lat;
            }
            if lat > max_lat {
                max_lat = lat;
            }
            proof {
                assert(points@[k as int].0 == lng && points@[k as int].1 == lat);
            }
            k += 1;
        }
        let r = Self::from_rectangle(min_lng, min_lat, max_lng, max_lat, level);
        proof {
            assert(spec_is_bounding_box(
                points@,
                min_lng as int,
                min_lat as int,
                max_lng as int,
                max_lat as int,
            ));
            assert(forall|c: u64| r@.contains(c) <==> spec_rect_covers(
                min_lng as int,
                min_lat as int,
                max_lng as int,
                max_lat as int,
                level as int,
                c,
            ));
        }
        r
    }

    /// Inserts one grid code into the region.
    pub fn add_code(&mut self, code: u64)
        requires
            old(self).wf(),
        ensures
            final(self).wf(),
            final(self).level == old(self).level,
            forall|x: u64| final(self)@.contains(x) <==> (old(self)@.contains(x) || x == code),
            final(self).code_set() == old(self).code_set().insert(code),
    {
        insert_sorted(&mut self.codes, code);
    }

    /// Encodes a scaled coordinate pair at the region's level and inserts
    /// the resulting code.
    pub fn add_point(&mut self, lng: i64, lat: i64)
        requires
            old(self).wf(),
            1 <= old(self).level <= 32,
            -crate::MAX_AXIS_UNITS < lng < crate::MAX_AXIS_UNITS,
            -crate::MAX_AXIS_UNITS < lat < crate::MAX_AXIS_UNITS,
        ensures
            final(self).wf(),
            final(self).level == old(self).level,
            final(self).code_set() == old(self).code_set().insert(
                crate::spec_get_code(lng as int, lat as int, old(self).level as int),
            ),
    {
        let code = crate::get_code(lng, lat, self.level);
        insert_sorted(&mut self.codes, code);
    }

    /// Whether the region holds the given code.
    pub fn contains(&self, code: u64) -> (r: bool)
        requires
            self.wf(),
        ensures
            r == self@.contains(code),
    {
        vec_contains(&self.codes, code)
    }

    /// Whether the region holds the code of the given scaled coordinate
    /// pair at the region's level.
    pub fn contains_point(&self, lng: i64, lat: i64) -> (r: bool)
        requires
            self.wf(),
            1 <= self.level <= 32,
            -crate::MAX_AXIS_UNITS < lng < crate::MAX_AXIS_UNITS,
            -crate::MAX_AXIS_UNITS < lat < crate::MAX_AXIS_UNITS,
        ensures
            r == self@.contains(crate::spec_get_code(lng as int, lat as int, self.level as int)),
    {
        let code = crate::get_code(lng, lat, self.level);
        vec_contains(&self.codes, code)
    }

    /// The number of codes in the region; for a well-formed region this is
    /// also the cardinality of its code set.
    pub fn size(&self) -> (r: usize)
        ensures
            r == self@.len(),
            self.wf() ==> r == self.code_set().len(),
    {
        proof {
            if self.wf() {
                lemma_sorted_len_is_card(self@);
            }
        }
        self.codes.len()
    }

    /// Whether the region holds no code.
    pub fn is_empty(&self) -> (r: bool)
        ensures
            r == (self@.len() == 0),
    {
        self.codes.len() == 0
    }

    /// The path strings of the region's codes, in code order.
    pub fn to_strings(&self) -> (r: Vec<String>)
        requires
            1 <= self.level <= 32,
        ensures
            r@.len() == self@.len(),
            forall|i: int| 0 <= i < r@.len() ==> r@[i]@ == crate::spec_to_string(
                self@[i],
                self.level as int,
            ),
    {
        let mut r: Vec<String> = Vec::new();
        let mut i: usize = 0;
        while i < self.codes.len()
            invariant
                1 <= self.level <= 32,
                i <= self@.len(),
                r@.len() == i,
                forall|j: int| 0 <= j < i ==> r@[j]@ == crate::spec_to_string(
                    self@[j],
                    self.level as int,
                ),
            decreases self@.len() - i,
        {
            r.push(crate::to_string(self.codes[i], self.level));
            i += 1;
        }
        r
    }

    /// The decoded (longitude, latitude) scaled coordinates of the
    /// region's codes, in code order.
    pub fn to_coordinates(&self) -> (r: Vec<(i64, i64)>)
        ensures
            r@.len() == self@.len(),
            forall|i: int| 0 <= i < r@.len() ==> (r@[i].0 == crate::spec_decode_by_geomgrid(
                self@[i],
            ).0 && r@[i].1 == crate::spec_decode_by_geomgrid(self@[i]).1),
    {
        let mut r: Vec<(i64, i64)> = Vec::new();
        let mut i: usize = 0;
        while i < self.codes.len()
            invariant
                i <= self@.len(),
                r@.len() == i,
                forall|j: int| 0 <= j < i ==> (r@[j].0 == crate::spec_decode_by_geomgrid(
                    self@[j],
                ).0 && r@[j].1 == crate::spec_decode_by_geomgrid(self@[j]).1),
            decreases self@.len() - i,
        {
            r.push(crate::decode_by_geomgrid(self.codes[i]));
            i += 1;
        }
        r
    }

    /// The codes shared by both regions, as a new region at the common
    /// level; regions of different levels are refused.
    pub fn intersection(&self, other: &Self) -> (r: Result<Self, GridError>)
        requires
            self.wf(),
            other.wf(),
        ensures
            self.level == other.level <==> r is Ok,
            self.level != other.level ==> r == Err::<Self, GridError>(GridError::LevelMismatch),
            r matches Ok(x) ==> x.wf() && x.level == self.level && forall|c: u64|
                x@.contains(c) <==> (self@.contains(c) && other@.contains(c)),
    {
        if self.level != other.level {
            return Err(GridError::LevelMismatch);
        }
        Ok(Self { codes: intersection_codes(&self.codes, &other.codes), level: self.level })
    }

    /// The codes of either region, as a new region at the common level;
    /// regions of different levels are refused.
    pub fn union(&self, other: &Self) -> (r: Result<Self, GridError>)
        requires
            self.wf(),
            other.wf(),
        ensures
            self.level == other.level <==> r is Ok,
            self.level != other.level ==> r == Err::<Self, GridError>(GridError::LevelMismatch),
            r matches Ok(x) ==> x.wf() && x.level == self.level && forall|c: u64|
                x@.contains(c) <==> (self@.contains(c) || other@.contains(c)),
    {
        if self.level != other.level {
            return Err(GridError::LevelMismatch);
        }
        Ok(Self { codes: union_codes(&self.codes, &other.codes), level: self.level })
    }

    /// The codes of this region not in `other`, as a new region at the
    /// common level; regions of different levels are refused.
    pub fn difference(&self, other: &Self) -> (r: Result<Self, GridError>)
        requires
            self.wf(),
            other.wf(),
        ensures
            self.level == other.level <==> r is Ok,
            self.level != other.level ==> r == Err::<Self, GridError>(GridError::LevelMismatch),
            r matches Ok(x) ==> x.wf() && x.level == self.level && forall|c: u64|
                x@.contains(c) <==> (self@.contains(c) && !other@.contains(c)),
    {
        if self.level != other.level {
            return Err(GridError::LevelMismatch);
        }
        Ok(Self { codes: difference_codes(&self.codes, &other.codes), level: self.level })
    }

    /// The codes in exactly one of the two regions, as a new region at the
    /// common level; regions of different levels are refused.
    pub fn symmetric_difference(&self, other: &Self) -> (r: Result<Self, GridError>)
        requires
            self.wf(),
            other.wf(),
        ensures
            self.level == other.level <==> r is Ok,
            self.level != other.level ==> r == Err::<Self, GridError>(GridError::LevelMismatch),
            r matches Ok(x) ==> x.wf() && x.level == self.level && forall|c: u64|
                x@.contains(c) <==> (self@.contains(c) != other@.contains(c)),
    {
        if self.level != other.level {
            return Err(GridError::LevelMismatch);
        }
        Ok(
            Self {
                codes: symmetric_difference_codes(&self.codes, &other.codes),
                level: self.level,
            },
        )
    }

    /// The codes of `universe` not in this region, as a new region at the
    /// common level; regions of different levels are refused.
    pub fn complement(&self, universe: &Self) -> (r: Result<Self, GridError>)
        requires
            self.wf(),
            universe.wf(),
        ensures
            self.level == universe.level <==> r is Ok,
            self.level != universe.level ==> r == Err::<Self, GridError>(GridError::LevelMismatch),
            r matches Ok(x) ==> x.wf() && x.level == self.level && forall|c: u64|
                x@.contains(c) <==> (universe@.contains(c) && !self@.contains(c)),
    {
        if self.level != universe.level {
            return Err(GridError::LevelMismatch);
        }
        Ok(Self { codes: difference_codes(&universe.codes, &self.codes), level: self.level })
    }

    /// Whether every code of this region occurs in `other`; regions of
    /// different levels are never subsets.
    pub fn is_subset(&self, other: &Self) -> (r: bool)
        requires
            other.wf(),
        ensures
            r == (self.level == other.level && self@.to_set().subset_of(other@.to_set())),
    {
        if self.level != other.level {
            return false;
        }
        let mut i: usize = 0;
        while i < self.codes.len()
            invariant
                other.wf(),
                i <= self@.len(),
                forall|k: int| 0 <= k < i ==> other@.contains(self@[k]),
            decreases self@.len() - i,
        {
            if !vec_contains(&other.codes, self.codes[i]) {
                proof {
                    assert(self@.contains(self@[i as int]));
                    assert(self@.to_set().contains(self@[i as int]));
                    assert(!other@.to_set().contains(self@[i as int]));
                }
                return false;
            }
            i += 1;
        }
        proof {
            assert forall|x: u64| self@.to_set().contains(x) implies other@.to_set().contains(
                x,
            ) by {
                let k = choose|k: int| 0 <= k < self@.len() && #[trigger] self@[k] == x;
                assert(other@.contains(x));
            }
        }
        true
    }

    /// Whether every code of `other` occurs in this region; regions of
    /// different levels are never supersets.
    pub fn is_superset(&self, other: &Self) -> (r: bool)
        requires
            self.wf(),
        ensures
            r == (self.level == other.level && other@.to_set().subset_of(self@.to_set())),
    {
        other.is_subset(self)
    }

    /// Whether the two regions share a code; regions of different levels
    /// never intersect.
    pub fn intersects(&self, other: &Self) -> (r: bool)
        requires
            other.wf(),
        ensures
            r == (self.level == other.level && !self@.to_set().disjoint(other@.to_set())),
    {
        if self.level != other.level {
            return false;
        }
        let mut i: usize = 0;
        while i < self.codes.len()
            invariant
                self.level == other.level,
                other.wf(),
                i <= self@.len(),
                forall|k: int| 0 <= k < i ==> !other@.contains(self@[k]),
            decreases self@.len() - i,
        {
            if vec_contains(&other.codes, self.codes[i]) {
                proof {
                    assert(self@.contains(self@[i as int]));
                    assert(self@.to_set().contains(self@[i as int]) && other@.to_set().contains(
                        self@[i as int],
                    ));
                    assert(!self@.to_set().disjoint(other@.to_set()));
                }
                return true;
            }
            i += 1;
        }
        proof {
            assert forall|x: u64| !(self@.to_set().contains(x) && other@.to_set().contains(
                x,
            )) by {
                if self@.contains(x) {
                    let k = choose|k: int| 0 <= k < self@.len() && #[trigger] self@[k] == x;
                    assert(!other@.contains(x));
                }
            }
        }
        false
    }

    /// Whether the two regions share no code; regions of different levels
    /// are vacuously disjoint.
    pub fn is_disjoint(&self, other: &Self) -> (r: bool)
        requires
            other.wf(),
        ensures
            r == (self.level != other.level || self@.to_set().disjoint(other@.to_set())),
    {
        if self.level != other.level {
            return true;
        }
        !self.intersects(other)
    }
}

/// Whether `c` is the code of one of the sample points of a single
/// rectangle row: longitude `min_lng + p * step` for some `p >= 0` staying
/// within `max_lng`, at latitude `lat`, with the level's cell size as step.
pub open spec fn spec_row_covers(min_lng: int, max_lng: int, lat: int, level: int, c: u64) -> bool {
    exists|p: int|
        #![trigger crate::spec_get_code(min_lng + p * crate::utils::spec_cell_size_units(level), lat, level)]
        0 <= p && min_lng + p * crate::utils::spec_cell_size_units(level) <= max_lng && c
            == crate::spec_get_code(
            min_lng + p * crate::utils::spec_cell_size_units(level),
            lat,
            level,
        )
}

/// Whether `c` is the code of one of the sample points of the rectangle
/// scan: a regular grid from the lower-left corner with the level's cell
/// size as step in each axis.
pub open spec fn spec_rect_covers(
    min_lng: int,
    min_lat: int,
    max_lng: int,
    max_lat: int,
    level: int,
    c: u64,
) -> bool {
    exists|q: int|
        #![trigger spec_row_covers(min_lng, max_lng, min_lat + q * crate::utils::spec_cell_size_units(level), level, c)]
        0 <= q && min_lat + q * crate::utils::spec_cell_size_units(level) <= max_lat
            && spec_row_covers(
            min_lng,
            max_lng,
            min_lat + q * crate::utils::spec_cell_size_units(level),
            level,
            c,
        )
}

/// Whether the four values are the componentwise minima and maxima of the
/// given non-empty point list: every point lies within them and each bound
/// is attained.
pub open spec fn spec_is_bounding_box(
    pts: Seq<(i64, i64)>,
    mnx: int,
    mny: int,
    mxx: int,
    mxy: int,
) -> bool {
    &&& forall|j: int| 0 <= j < pts.len() ==> mnx <= (#[trigger] pts[j]).0 && pts[j].0 <= mxx
        && mny <= pts[j].1 && pts[j].1 <= mxy
    &&& exists|j: int| 0 <= j < pts.len() && (#[trigger] pts[j]).0 == mnx
    &&& exists|j: int| 0 <= j < pts.len() && (#[trigger] pts[j]).0 == mxx
    &&& exists|j: int| 0 <= j < pts.len() && (#[trigger] pts[j]).1 == mny
    &&& exists|j: int| 0 <= j < pts.len() && (#[trigger] pts[j]).1 == mxy
}

/// The codes of one rectangle row, in increasing order.
fn row_codes(min_lng: i64, max_lng: i64, lat: i64, step: i64, level: usize) -> (codes: Vec<u64>)
    requires
        1 <= level <= 32,
        step == crate::utils::spec_cell_size_units(level as int),
        -crate::MAX_AXIS_UNITS < min_lng < crate::MAX_AXIS_UNITS,
        max_lng < crate::MAX_AXIS_UNITS,
        -crate::MAX_AXIS_UNITS < lat < crate::MAX_AXIS_UNITS,
    ensures
        strictly_sorted(codes@),
        forall|x: u64| codes@.contains(x) <==> spec_row_covers(
            min_lng as int,
            max_lng as int,
            lat as int,
            level as int,
            x,
        ),
{
    proof {
        crate::utils::lemma_cell_size_units_positive(level as int);
    }
    let mut codes: Vec<u64> = Vec::new();
    let mut lng: i64 = min_lng;
    let ghost mut p: int = 0;
    while lng <= max_lng
        invariant
            strictly_sorted(codes@),
            1 <= level <= 32,
            step == crate::utils::spec_cell_size_units(level as int),
            1 <= step <= 3774873600,
            -crate::MAX_AXIS_UNITS < min_lng < crate::MAX_AXIS_UNITS,
            max_lng < crate::MAX_AXIS_UNITS,
            -crate::MAX_AXIS_UNITS < lat < crate::MAX_AXIS_UNITS,
            p >= 0,
            lng == min_lng + p * step,
            lng >= min_lng,
            forall|x: u64| codes@.contains(x) <==> (exists|pp: int|
                #![trigger crate::spec_get_code(min_lng + pp * crate::utils::spec_cell_size_units(level as int), lat as int, level as int)]
                0 <= pp < p && min_lng + pp * step <= max_lng && x == crate::spec_get_code(
                    min_lng + pp * step,
                    lat as int,
                    level as int,
                )),
        decreases max_lng + step - lng,
    {
        let code = crate::get_code(lng, lat, level);
        let ghost before = codes@;
        insert_sorted(&mut codes, code);
        proof {
            assert forall|x: u64|
                codes@.contains(x) <==> (exists|pp: int|
                    #![trigger crate::spec_get_code(min_lng + pp * crate::utils::spec_cell_size_units(level as int), lat as int, level as int)]
                    0 <= pp < p + 1 && min_lng + pp * step <= max_lng && x == crate::spec_get_code(
                        min_lng + pp * step,
                        lat as int,
                        level as int,
                    )) by {
                if codes@.contains(x) {
                    if x == code {
                        assert(min_lng + p * step <= max_lng && x == crate::spec_get_code(
                            min_lng + p * step,
                            lat as int,
                            level as int,
                        ));
                    }
                }
            }
            assert((p + 1) * step == p * step + step) by (nonlinear_arith);
            p = p + 1;
        }
        lng = lng + step;
    }
    proof {
        assert forall|x: u64|
            codes@.contains(x) <==> spec_row_covers(
                min_lng as int,
                max_lng as int,
                lat as int,
                level as int,
                x,
            ) by {
            if spec_row_covers(min_lng as int, max_lng as int, lat as int, level as int, x) {
                let pp = choose|pp: int|
                    #![trigger crate::spec_get_code(min_lng + pp * crate::utils::spec_cell_size_units(level as int), lat as int, level as int)]
                    0 <= pp && min_lng + pp * crate::utils::spec_cell_size_units(level as int)
                        <= max_lng && x == crate::spec_get_code(
                        min_lng + pp * crate::utils::spec_cell_size_units(level as int),
                        lat as int,
                        level as int,
                    );
                assert(pp < p) by (nonlinear_arith)
                    requires
                        step >= 1,
                        min_lng + pp * step <= max_lng,
                        min_lng + p * step > max_lng,
                        pp >= 0,
                        p >= 0,
                ;
            }
        }
    }
    codes
}

proof fn lemma_sorted_len_is_card(s: Seq<u64>)
    requires
        strictly_sorted(s),
    ensures
        s.to_set().finite(),
        s.to_set().len() == s.len(),
{
    lemma_strictly_sorted_no_duplicates(s);
    s.unique_seq_to_set();
}

/// Numeric-distance adjacency heuristic over raw codes: the absolute
/// difference is at most 4.  Like [`spec_is_adjacent`], an approximation
/// of spatial adjacency, kept for the compactness metric.
pub open spec fn spec_adjacent_codes(code1: u64, code2: u64) -> bool {
    (if code1 >= code2 {
        code1 - code2
    } else {
        code2 - code1
    }) <= 4
}

/// The number of indexes `k` with `i < k < j` whose code is adjacent to
/// the code at `i` under the numeric-distance heuristic.
pub open spec fn spec_adj_row(s: Seq<u64>, i: int, j: int) -> int
    decreases j - i,
{
    if j <= i + 1 {
        0
    } else {
        spec_adj_row(s, i, j - 1) + if spec_adjacent_codes(s[i], s[j - 1]) {
            1int
        } else {
            0int
        }
    }
}

/// The number of index pairs `(k, l)` with `k < i`, `k < l < s.len()` and
/// adjacent codes.
pub open spec fn spec_adj_upto(s: Seq<u64>, i: int) -> int
    decreases i,
{
    if i <= 0 {
        0
    } else {
        spec_adj_upto(s, i - 1) + spec_adj_row(s, i - 1, s.len() as int)
    }
}

/// The number of unordered index pairs of `s` whose codes are adjacent
/// under the numeric-distance heuristic.
pub open spec fn spec_adjacent_pairs(s: Seq<u64>) -> int {
    spec_adj_upto(s, s.len() as int)
}

/// The numeric-distance adjacency heuristic over raw codes.
fn are_adjacent_codes(code1: u64, code2: u64) -> (r: bool)
    ensures
        r == spec_adjacent_codes(code1, code2),
{
    let diff = if code1 > code2 {
        code1 - code2
    } else {
        code2 - code1
    };
    diff <= 4
}

/// Jaccard similarity of two regions, as the exact fraction
/// (intersection size, union size); `(0, 1)` when the levels differ and
/// `(1, 1)` when both regions are empty.
pub fn jaccard_similarity(region1: &GeoSotRegion, region2: &GeoSotRegion) -> (r: (usize, usize))
    requires
        region1.wf(),
        region2.wf(),
    ensures
        r.1 >= 1,
        region1.level != region2.level ==> r == (0usize, 1usize),
        region1.level == region2.level && region1@.len() == 0 && region2@.len() == 0 ==> r == (
            1usize,
            1usize,
        ),
        region1.level == region2.level && (region1@.len() > 0 || region2@.len() > 0) ==> (r.0
            == region1.code_set().intersect(region2.code_set()).len() && r.1
            == region1.code_set().union(region2.code_set()).len()),
    {
    if region1.level != region2.level {
        return (0, 1);
    }
    let inter = intersection_codes(&region1.codes, &region2.codes);
    let uni = union_codes(&region1.codes, &region2.codes);
    if uni.len() == 0 {
        proof {
            if region1@.len() > 0 {
                assert(region1@.contains(region1@[0]));
                assert(uni@.contains(region1@[0]));
            }
            if region2@.len() > 0 {
                assert(region2@.contains(region2@[0]));
                assert(uni@.contains(region2@[0]));
            }
        }
        return (1, 1);
    }
    proof {
        lemma_sorted_len_is_card(inter@);
        lemma_sorted_len_is_card(uni@);
        assert forall|x: u64|
            inter@.to_set().contains(x) == region1.code_set().intersect(
                region2.code_set(),
            ).contains(x) by {
            assert(inter@.to_set().contains(x) == inter@.contains(x));
        }
        assert(inter@.to_set() =~= region1.code_set().intersect(region2.code_set()));
        assert forall|x: u64|
            uni@.to_set().contains(x) == region1.code_set().union(region2.code_set()).contains(
                x,
            ) by {
            assert(uni@.to_set().contains(x) == uni@.contains(x));
        }
        assert(uni@.to_set() =~= region1.code_set().union(region2.code_set()));
        assert(uni@.contains(uni@[0]));
        assert(region1@.contains(uni@[0]) || region2@.contains(uni@[0]));
    }
    (inter.len(), uni.len())
}

/// Overlap ratio of two regions, as the exact fraction
/// (intersection size, first region's size); `(0, 1)` when the levels
/// differ or the first region is empty.
pub fn overlap_ratio(region1: &GeoSotRegion, region2: &GeoSotRegion) -> (r: (usize, usize))
    requires
        region1.wf(),
        region2.wf(),
    ensures
        r.1 >= 1,
        region1.level != region2.level || region1@.len() == 0 ==> r == (0usize, 1usize),
        region1.level == region2.level && region1@.len() > 0 ==> (r.0 == region1.code_set(
        ).intersect(region2.code_set()).len() && r.1 == region1@.len()),
{
    if region1.level != region2.level {
        return (0, 1);
    }
    if region1.codes.len() == 0 {
        return (0, 1);
    }
    let inter = intersection_codes(&region1.codes, &region2.codes);
    proof {
        lemma_sorted_len_is_card(inter@);
        assert forall|x: u64|
            inter@.to_set().contains(x) == region1.code_set().intersect(
                region2.code_set(),
            ).contains(x) by {
            assert(inter@.to_set().contains(x) == inter@.contains(x));
        }
        assert(inter@.to_set() =~= region1.code_set().intersect(region2.code_set()));
    }
    (inter.len(), region1.codes.len())
}

/// Compactness of a region: the fraction of unordered code pairs that are
/// adjacent under the numeric-distance heuristic, as the exact fraction
/// (adjacent pairs, all pairs); `(1, 1)` for regions of at most one code.
pub fn compactness(region: &GeoSotRegion) -> (r: (usize, usize))
    requires
        region@.len() < 65536,
    ensures
        r.1 >= 1,
        region@.len() <= 1 ==> r == (1usize, 1usize),
        region@.len() >= 2 ==> r.0 == spec_adjacent_pairs(region@) && r.1 == region@.len() * (
        region@.len() - 1) / 2,
{
    let n = region.codes.len();
    if n <= 1 {
        return (1, 1);
    }
    let mut adjacent_pairs: usize = 0;
    let mut i: usize = 0;
    while i < n
        invariant
            n == region@.len(),
            2 <= n < 65536,
            i <= n,
            adjacent_pairs == spec_adj_upto(region@, i as int),
            adjacent_pairs <= i * n,
        decreases n - i,
    {
        let mut j: usize = i + 1;
        proof {
            assert(spec_adj_row(region@, i as int, i as int + 1) == 0);
        }
        while j < n
            invariant
                n == region@.len(),
                2 <= n < 65536,
                i < n,
                i + 1 <= j <= n,
                adjacent_pairs == spec_adj_upto(region@, i as int) + spec_adj_row(
                    region@,
                    i as int,
                    j as int,
                ),
                adjacent_pairs <= i * n + j,
            decreases n - j,
        {
            proof {
                assert((i as int) * (n as int) + (j as int) + 1 <= (n as int) * (n as int))
                    by (nonlinear_arith)
                    requires
                        0 <= i < n,
                        0 < j < n,
                ;
                assert((n as int) * (n as int) <= 0xFFFF_FFFF) by (nonlinear_arith)
                    requires
                        n < 65536,
                ;
            }
            if are_adjacent_codes(region.codes[i], region.codes[j]) {
                adjacent_pairs += 1;
            }
            proof {
                assert(spec_adj_row(region@, i as int, j as int + 1) == spec_adj_row(
                    region@,
                    i as int,
                    j as int,
                ) + if spec_adjacent_codes(region@[i as int], region@[j as int]) {
                    1int
                } else {
                    0int
                });
            }
            j += 1;
        }
        proof {
            assert(spec_adj_upto(region@, i as int + 1) == spec_adj_upto(region@, i as int)
                + spec_adj_row(region@, i as int, region@.len() as int));
            assert((i as int + 1) * (n as int) == (i as int) * (n as int) + (n as int))
                by (nonlinear_arith);
        }
        i += 1;
    }
    proof {
        assert((n as int) * ((n as int) - 1) <= 65534 * 65535) by (nonlinear_arith)
            requires
                2 <= n < 65536,
        ;
        assert((n as int) * ((n as int) - 1) >= 2) by (nonlinear_arith)
            requires
                2 <= n,
        ;
    }
    let total_pairs = n * (n - 1) / 2;
    (adjacent_pairs, total_pairs)
}

} // verus!
