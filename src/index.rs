//! Resolution of scalar indices and slice descriptors against a length.
use vstd::arithmetic::div_mod::{lemma_fundamental_div_mod, lemma_fundamental_div_mod_converse, lemma_div_is_ordered};
use vstd::arithmetic::mul::lemma_mul_inequality;
use vstd::prelude::*;

verus! {

/// The position that a scalar index designates in a sequence of length
/// `len`: non-negative indices count from the front, negative ones from the
/// back (`-1` is the last element). `None` when it falls outside.
pub open spec fn index_position(len: int, i: int) -> Option<int> {
    if i >= 0 {
        if i < len {
            Some(i)
        } else {
            None
        }
    } else if -i <= len {
        Some(len + i)
    } else {
        None
    }
}

/// The position that a slice endpoint designates: like a scalar index, but
/// clamped to `0` below and to `len` above instead of failing.
pub open spec fn bound_position(len: int, b: int) -> int {
    if b >= 0 {
        if b < len {
            b
        } else {
            len
        }
    } else if -b <= len {
        len + b
    } else {
        0
    }
}

/// Resolves a scalar index against a length.
pub fn resolve_index(len: usize, i: isize) -> (r: Option<usize>)
    ensures
        match r {
            Some(p) => index_position(len as int, i as int) == Some(p as int),
            None => index_position(len as int, i as int) is None,
        },
{
    if i < 0 {
        let back = -(i as i128);
        if back > len as i128 {
            None
        } else {
            Some(len - (back as usize))
        }
    } else if i as usize >= len {
        None
    } else {
        Some(i as usize)
    }
}

} // verus!

verus! {

/// A slice descriptor: three optional endpoints as the caller wrote them.
/// A missing `step` means `1`; a `step` of `0` is invalid.
#[derive(Clone, Copy, Debug, PartialEq, Eq, Structural)]
pub struct SliceDesc {
    pub start: Option<isize>,
    pub stop: Option<isize>,
    pub step: Option<isize>,
}

/// A resolved slice: the ascending interval `[start, stop)`, the step
/// magnitude, and whether the traversal runs from the top down.
#[derive(Clone, Copy, Debug, PartialEq, Eq, Structural)]
pub struct SlicePlan {
    pub start: usize,
    pub stop: usize,
    pub step: usize,
    pub reverse: bool,
}

pub open spec fn step_value(d: SliceDesc) -> int {
    match d.step {
        Some(s) => s as int,
        None => 1,
    }
}

/// With a negative step, a raw upper endpoint is shifted by one, and `-1`
/// means one past the end.
pub open spec fn reverse_start(len: int, b: int) -> int {
    if b == -1 {
        len + 1
    } else {
        b + 1
    }
}

/// With a negative step, a raw lower endpoint is shifted by one, and `-1`
/// means the end itself.
pub open spec fn reverse_stop(len: int, b: int) -> int {
    if b == -1 {
        len
    } else {
        b + 1
    }
}

pub open spec fn low_bound(len: int, d: SliceDesc) -> int {
    if step_value(d) > 0 {
        match d.start {
            Some(b) => bound_position(len, b as int),
            None => 0,
        }
    } else {
        match d.stop {
            Some(b) => bound_position(len, reverse_stop(len, b as int)),
            None => 0,
        }
    }
}

pub open spec fn high_bound(len: int, d: SliceDesc) -> int {
    let hi = if step_value(d) > 0 {
        match d.stop {
            Some(b) => bound_position(len, b as int),
            None => len,
        }
    } else {
        match d.start {
            Some(b) => bound_position(len, reverse_start(len, b as int)),
            None => len,
        }
    };
    if hi < low_bound(len, d) {
        low_bound(len, d)
    } else {
        hi
    }
}

pub open spec fn step_magnitude(d: SliceDesc) -> int {
    if step_value(d) > 0 {
        step_value(d)
    } else {
        -step_value(d)
    }
}

/// The plan that a descriptor with a non-zero step resolves to.
pub open spec fn plan_of(len: int, d: SliceDesc) -> SlicePlan {
    SlicePlan {
        start: low_bound(len, d) as usize,
        stop: high_bound(len, d) as usize,
        step: step_magnitude(d) as usize,
        reverse: step_value(d) < 0,
    }
}

impl SlicePlan {
    pub open spec fn wf(&self, len: int) -> bool {
        &&& self.start <= self.stop <= len
        &&& self.step >= 1
    }

    /// Number of positions the plan selects.
    pub open spec fn count(&self) -> int {
        if self.stop > self.start {
            (self.stop - self.start - 1) / (self.step as int) + 1
        } else {
            0
        }
    }

    /// The `k`-th selected position, in traversal order.
    pub open spec fn pos(&self, k: int) -> int {
        if self.reverse {
            self.stop - 1 - k * self.step
        } else {
            self.start + k * self.step
        }
    }

    /// Whether position `j` is one of the selected positions.
    pub open spec fn selects(&self, j: int) -> bool {
        &&& self.start <= j < self.stop
        &&& if self.reverse {
            (self.stop - 1 - j) % (self.step as int) == 0
        } else {
            (j - self.start) % (self.step as int) == 0
        }
    }

    /// The traversal rank of a selected position.
    pub open spec fn rank(&self, j: int) -> int {
        if self.reverse {
            (self.stop - 1 - j) / (self.step as int)
        } else {
            (j - self.start) / (self.step as int)
        }
    }
}

/// Resolves a slice endpoint, clamping instead of failing.
pub fn resolve_bound(len: usize, b: i128) -> (r: usize)
    ensures
        r as int == bound_position(len as int, b as int),
        r <= len,
{
    if b >= 0 {
        if b < len as i128 {
            b as usize
        } else {
            len
        }
    } else if len as i128 + b >= 0 {
        (len as i128 + b) as usize
    } else {
        0
    }
}

/// Resolves a descriptor against a length; fails only on a zero step.
pub fn resolve_slice(len: usize, d: &SliceDesc) -> (r: Option<SlicePlan>)
    ensures
        step_value(*d) == 0 ==> r is None,
        step_value(*d) != 0 ==> r == Some(plan_of(len as int, *d)),
        r matches Some(p) ==> p.wf(len as int),
{
    let step: isize = match d.step {
        Some(s) => s,
        None => 1,
    };
    if step == 0 {
        return None;
    }
    let (lo, hi) = if step > 0 {
        let lo = match d.start {
            Some(b) => resolve_bound(len, b as i128),
            None => 0,
        };
        let hi = match d.stop {
            Some(b) => resolve_bound(len, b as i128),
            None => len,
        };
        (lo, hi)
    } else {
        let lo = match d.stop {
            Some(b) => resolve_bound(len, if b == -1 { len as i128 } else { b as i128 + 1 }),
            None => 0,
        };
        let hi = match d.start {
            Some(b) => resolve_bound(len, if b == -1 { len as i128 + 1 } else { b as i128 + 1 }),
            None => len,
        };
        (lo, hi)
    };
    let hi = if hi < lo { lo } else { hi };
    let mag: i128 = if step > 0 { step as i128 } else { -(step as i128) };
    assert(mag <= usize::MAX);
    Some(SlicePlan { start: lo, stop: hi, step: mag as usize, reverse: step < 0 })
}

/// The `k`-th position of a plan lies in its interval, is selected, and has
/// rank `k`.
pub proof fn lemma_pos_selected(p: SlicePlan, k: int)
    requires
        p.step >= 1,
        p.start <= p.stop,
        0 <= k < p.count(),
    ensures
        p.start <= p.pos(k) < p.stop,
        p.selects(p.pos(k)),
        p.rank(p.pos(k)) == k,
{
    let m = p.step as int;
    let span = p.stop - p.start - 1;
    assert(k <= span / m);
    lemma_mul_inequality(k, span / m, m);
    lemma_fundamental_div_mod(span, m);
    assert(k * m <= span) by {
        assert((span / m) * m == m * (span / m)) by (nonlinear_arith);
    }
    assert(k * m >= 0) by (nonlinear_arith)
        requires k >= 0, m >= 1;
    lemma_fundamental_div_mod_converse(k * m, m, k, 0);
}

/// A selected position has a rank below the count, and is the position of
/// that rank.
pub proof fn lemma_selected_rank(p: SlicePlan, j: int)
    requires
        p.step >= 1,
        p.start <= p.stop,
        p.selects(j),
    ensures
        0 <= p.rank(j) < p.count(),
        p.pos(p.rank(j)) == j,
{
    let m = p.step as int;
    let off = if p.reverse { p.stop - 1 - j } else { j - p.start };
    let span = p.stop - p.start - 1;
    lemma_fundamental_div_mod(off, m);
    assert(off >= 0);
    assert(off <= span);
    lemma_div_is_ordered(off, span, m);
    assert(off / m >= 0) by (nonlinear_arith)
        requires off >= 0, m >= 1;
    assert(m * (off / m) == (off / m) * m) by (nonlinear_arith);
}

/// Index normalisation agrees with front-counted indexing: a valid
/// non-negative index designates itself, and a valid negative index `i`
/// designates the same position as the non-negative index `len + i`.
pub proof fn lemma_index_symmetry(len: int, i: int)
    requires
        len >= 0,
    ensures
        0 <= i < len ==> index_position(len, i) == Some(i),
        -len <= i < 0 ==> index_position(len, i) == Some(len + i) && index_position(len, i)
            == index_position(len, len + i),
        (i >= len || i < -len) ==> index_position(len, i) is None,
{
}

/// A descriptor with a non-zero step resolves to an ascending interval
/// inside `[0, len]`.
pub proof fn lemma_plan_wf(len: int, d: SliceDesc)
    requires
        0 <= len <= usize::MAX,
        step_value(d) != 0,
    ensures
        plan_of(len, d).wf(len),
        plan_of(len, d).start as int == low_bound(len, d),
        plan_of(len, d).stop as int == high_bound(len, d),
{
}

} // verus!
