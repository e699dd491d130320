//! The growable, order-preserving list and its slice algebra.
use crate::index::{
    index_position, lemma_plan_wf, lemma_pos_selected, lemma_selected_rank, plan_of,
    resolve_index, resolve_slice, step_value, SliceDesc, SlicePlan,
};
use crate::sort::{do_sort, lemma_self_keyed, ordered_by, raised, sort_outcome, sorted_by, SortError};
use vstd::prelude::*;

verus! {

/// Failures of list operations.
#[derive(Clone, Copy, Debug, PartialEq, Eq, Structural)]
pub enum SeqError {
    /// A scalar index or `pop` target falls outside the list.
    IndexOutOfRange,
    /// `pop` on an empty list.
    PopFromEmpty,
    /// A slice step of zero.
    ZeroStep,
    /// A stepped slice assignment whose replacement has the wrong length.
    SizeMismatch { given: usize, slice: usize },
    /// A length that does not fit the platform's index width.
    Overflow,
    /// The operand cannot be used for this operation.
    WrongType,
    /// An integer outside `0..256` where a byte was expected.
    ByteOutOfRange,
}

/// A subscript: a scalar index or a slice descriptor.
#[derive(Clone, Copy, Debug, PartialEq, Eq, Structural)]
pub enum SequenceIndex {
    Int(isize),
    Slice(SliceDesc),
}

/// What a subscript read yields: one element, or a new sequence.
#[derive(Debug)]
pub enum Item<T> {
    One(T),
    Many(Vec<T>),
}

/// The list: an ordered, resizable store of element references.
#[derive(Debug)]
pub struct PyList<T> {
    elements: Vec<T>,
}

impl<T> View for PyList<T> {
    type V = Seq<T>;

    closed spec fn view(&self) -> Seq<T> {
        self.elements@
    }
}

/// `s` with `[lo, hi)` replaced by `v`.
pub open spec fn spliced<T>(s: Seq<T>, lo: int, hi: int, v: Seq<T>) -> Seq<T> {
    s.subrange(0, lo) + v + s.subrange(hi, s.len() as int)
}

/// The elements a plan selects, in traversal order.
pub open spec fn sliced<T>(s: Seq<T>, p: SlicePlan) -> Seq<T> {
    Seq::new(p.count() as nat, |k: int| s[p.pos(k)])
}

/// `s` with the `k`-th selected position holding `v[k]`.
pub open spec fn assigned<T>(s: Seq<T>, p: SlicePlan, v: Seq<T>) -> Seq<T> {
    Seq::new(s.len(), |j: int| if p.selects(j) { v[p.rank(j)] } else { s[j] })
}

/// The elements of `s` at positions in `[lo, hi)` that `p` does not select,
/// in their original order.
pub open spec fn kept<T>(s: Seq<T>, p: SlicePlan, lo: int, hi: int) -> Seq<T>
    decreases hi - lo,
{
    if hi <= lo {
        Seq::empty()
    } else if p.selects(hi - 1) {
        kept(s, p, lo, hi - 1)
    } else {
        kept(s, p, lo, hi - 1).push(s[hi - 1])
    }
}

/// `s` with exactly the positions that `p` selects removed.
pub open spec fn deleted<T>(s: Seq<T>, p: SlicePlan) -> Seq<T> {
    kept(s, p, 0, s.len() as int)
}

pub proof fn lemma_kept_split<T>(s: Seq<T>, p: SlicePlan, lo: int, mid: int, hi: int)
    requires
        lo <= mid <= hi,
    ensures
        kept(s, p, lo, hi) == kept(s, p, lo, mid) + kept(s, p, mid, hi),
    decreases hi - mid,
{
    if hi == mid {
        assert(kept(s, p, lo, mid) + kept(s, p, mid, hi) =~= kept(s, p, lo, mid));
    } else {
        lemma_kept_split(s, p, lo, mid, hi - 1);
        assert(kept(s, p, lo, hi) =~= kept(s, p, lo, mid) + kept(s, p, mid, hi));
    }
}

pub proof fn lemma_kept_unselected<T>(s: Seq<T>, p: SlicePlan, lo: int, hi: int)
    requires
        0 <= lo <= hi <= s.len(),
        forall|j: int| lo <= j < hi ==> !p.selects(j),
    ensures
        kept(s, p, lo, hi) == s.subrange(lo, hi),
    decreases hi - lo,
{
    if hi > lo {
        lemma_kept_unselected(s, p, lo, hi - 1);
        assert(kept(s, p, lo, hi) =~= s.subrange(lo, hi));
    } else {
        assert(s.subrange(lo, hi) =~= Seq::<T>::empty());
    }
}

pub proof fn lemma_kept_selected<T>(s: Seq<T>, p: SlicePlan, lo: int, hi: int)
    requires
        forall|j: int| lo <= j < hi ==> p.selects(j),
    ensures
        kept(s, p, lo, hi) == Seq::<T>::empty(),
    decreases hi - lo,
{
    if hi > lo {
        lemma_kept_selected(s, p, lo, hi - 1);
    }
}

/// Removing `[a, b)` from a vector.
fn remove_range<T>(v: &mut Vec<T>, a: usize, b: usize)
    requires
        a <= b <= old(v)@.len(),
    ensures
        final(v)@ == old(v)@.subrange(0, a as int) + old(v)@.subrange(b as int, old(v)@.len() as int),
{
    let mut tail = v.split_off(b);
    v.truncate(a);
    v.append(&mut tail);
}

fn swap_at<T: Copy>(v: &mut Vec<T>, a: usize, b: usize)
    requires
        a < old(v)@.len(),
        b < old(v)@.len(),
    ensures
        final(v)@ == old(v)@.update(a as int, old(v)@[b as int]).update(b as int, old(v)@[a as int]),
{
    let x = v[a];
    let y = v[b];
    v[a] = y;
    v[b] = x;
}

impl<T: Copy> PyList<T> {
    /// An empty list.
    pub fn new() -> (r: Self)
        ensures
            r@ == Seq::<T>::empty(),
    {
        PyList { elements: Vec::new() }
    }

    /// A list holding `elements`, in order.
    pub fn from_vec(elements: Vec<T>) -> (r: Self)
        ensures
            r@ == elements@,
    {
        PyList { elements }
    }

    /// The constructor: a list of what an iterable produced, or empty.
    pub fn tp_new(iterable: Option<Vec<T>>) -> (r: Self)
        ensures
            r@ == match iterable {
                Some(v) => v@,
                None => Seq::<T>::empty(),
            },
    {
        match iterable {
            Some(v) => PyList { elements: v },
            None => PyList { elements: Vec::new() },
        }
    }

    /// Read access to the elements.
    pub fn borrow_elements(&self) -> (r: &Vec<T>)
        ensures
            r@ == self@,
    {
        &self.elements
    }

    /// Read access to the elements as a slice.
    pub fn borrow_sequence(&self) -> (r: &[T])
        ensures
            r@ == self@,
    {
        self.elements.as_slice()
    }

    fn get_len(&self) -> (r: usize)
        ensures
            r == self@.len(),
    {
        self.elements.len()
    }

    pub fn len(&self) -> (r: usize)
        ensures
            r == self@.len(),
    {
        self.elements.len()
    }

    /// Truth value: whether the list has any element.
    pub fn bool(&self) -> (r: bool)
        ensures
            r == (self@.len() > 0),
    {
        self.elements.len() > 0
    }

    /// Resolves a scalar index against the current length.
    pub fn get_pos(&self, p: isize) -> (r: Option<usize>)
        ensures
            match r {
                Some(x) => index_position(self@.len() as int, p as int) == Some(x as int),
                None => index_position(self@.len() as int, p as int) is None,
            },
    {
        resolve_index(self.get_len(), p)
    }

    pub fn append(&mut self, x: T)
        ensures
            final(self)@ == old(self)@.push(x),
    {
        self.elements.push(x);
    }

    /// Appends every element an iterable produced, in order.
    pub fn extend(&mut self, items: Vec<T>)
        ensures
            final(self)@ == old(self)@ + items@,
    {
        let mut items = items;
        self.elements.append(&mut items);
    }

    /// Inserts before the position `position` designates; negative
    /// positions count from the back, and the result is clamped into
    /// `[0, len]`.
    pub fn insert(&mut self, position: isize, element: T)
        ensures
            ({
                let len = old(self)@.len() as int;
                let raw = if position < 0 { len + position } else { position as int };
                let at = if raw < 0 { 0 } else if raw > len { len } else { raw };
                final(self)@ == old(self)@.insert(at, element)
            }),
    {
        let len = self.elements.len();
        let raw: i128 = if position < 0 { len as i128 + position as i128 } else { position as i128 };
        let at: usize = if raw < 0 { 0 } else if raw > len as i128 { len } else { raw as usize };
        self.elements.insert(at, element);
    }

    /// A new list: this one followed by `other`.
    pub fn add(&self, other: &PyList<T>) -> (r: PyList<T>)
        ensures
            r@ == self@ + other@,
    {
        let mut out = copy_vec(&self.elements);
        let mut tail = copy_vec(&other.elements);
        out.append(&mut tail);
        PyList { elements: out }
    }

    /// In-place concatenation with what an iterable produced; `None` stands
    /// for an operand that is not iterable, which is reported as not
    /// supported and leaves the list as it was.
    pub fn iadd(&mut self, other: Option<Vec<T>>) -> (r: bool)
        ensures
            r == other is Some,
            final(self)@ == match other {
                Some(v) => old(self)@ + v@,
                None => old(self)@,
            },
    {
        match other {
            Some(v) => {
                self.extend(v);
                true
            },
            None => false,
        }
    }

    pub fn clear(&mut self)
        ensures
            final(self)@ == Seq::<T>::empty(),
    {
        self.elements.clear();
    }

    /// A shallow copy: a new list of the same element references.
    pub fn copy(&self) -> (r: PyList<T>)
        ensures
            r@ == self@,
    {
        PyList { elements: copy_vec(&self.elements) }
    }
}

/// Number of positions a plan selects.
fn slice_count(p: &SlicePlan) -> (n: usize)
    requires
        p.step >= 1,
        p.start <= p.stop,
    ensures
        n == p.count(),
{
    if p.stop > p.start {
        (p.stop - p.start - 1) / p.step + 1
    } else {
        0
    }
}

/// The `k`-th position a plan selects.
fn plan_pos(p: &SlicePlan, k: usize) -> (r: usize)
    requires
        p.step >= 1,
        p.start <= p.stop,
        k < p.count(),
    ensures
        r == p.pos(k as int),
        p.start <= r < p.stop,
{
    proof {
        lemma_pos_selected(*p, k as int);
    }
    if p.reverse {
        p.stop - 1 - k * p.step
    } else {
        p.start + k * p.step
    }
}

impl<T: Copy> PyList<T> {
    /// The elements a slice descriptor selects, in traversal order.
    pub fn get_slice(&self, d: &SliceDesc) -> (r: Result<Vec<T>, SeqError>)
        ensures
            step_value(*d) == 0 ==> r == Err::<Vec<T>, SeqError>(SeqError::ZeroStep),
            step_value(*d) != 0 ==> (r matches Ok(v) && v@ == sliced(
                self@,
                plan_of(self@.len() as int, *d),
            )),
    {
        match resolve_slice(self.get_len(), d) {
            None => Err(SeqError::ZeroStep),
            Some(p) => {
                let n = slice_count(&p);
                let mut out: Vec<T> = Vec::new();
                let mut k: usize = 0;
                while k < n
                    invariant
                        p.wf(self@.len() as int),
                        n == p.count(),
                        k <= n,
                        out@ == sliced(self@, p).subrange(0, k as int),
                    decreases n - k,
                {
                    let at = plan_pos(&p, k);
                    out.push(self.elements[at]);
                    k += 1;
                    assert(out@ =~= sliced(self@, p).subrange(0, k as int));
                }
                assert(out@ =~= sliced(self@, p));
                Ok(out)
            },
        }
    }

    /// Subscript read: one element for an index, a new sequence for a slice.
    pub fn getitem(&self, subscript: SequenceIndex) -> (r: Result<Item<T>, SeqError>)
        ensures
            match subscript {
                SequenceIndex::Int(i) => match index_position(self@.len() as int, i as int) {
                    Some(p) => r == Ok::<Item<T>, SeqError>(Item::One(self@[p])),
                    None => r == Err::<Item<T>, SeqError>(SeqError::IndexOutOfRange),
                },
                SequenceIndex::Slice(d) => if step_value(d) == 0 {
                    r == Err::<Item<T>, SeqError>(SeqError::ZeroStep)
                } else {
                    r matches Ok(Item::Many(v)) && v@ == sliced(
                        self@,
                        plan_of(self@.len() as int, d),
                    )
                },
            },
    {
        match subscript {
            SequenceIndex::Int(i) => match self.get_pos(i) {
                Some(p) => Ok(Item::One(self.elements[p])),
                None => Err(SeqError::IndexOutOfRange),
            },
            SequenceIndex::Slice(d) => match self.get_slice(&d) {
                Ok(v) => Ok(Item::Many(v)),
                Err(e) => Err(e),
            },
        }
    }

    /// Subscript write. For an index, `value` replaces the element there;
    /// for a slice, `items` holds what the assigned iterable produced, or
    /// `None` when the value is not iterable.
    pub fn setitem(&mut self, subscript: SequenceIndex, value: T, items: Option<Vec<T>>) -> (r:
        Result<(), SeqError>)
        ensures
            match subscript {
                SequenceIndex::Int(i) => match index_position(old(self)@.len() as int, i as int) {
                    Some(p) => r is Ok && final(self)@ == old(self)@.update(p, value),
                    None => r == Err::<(), SeqError>(SeqError::IndexOutOfRange) && final(self)@
                        == old(self)@,
                },
                SequenceIndex::Slice(d) => match items {
                    None => r == Err::<(), SeqError>(SeqError::WrongType) && final(self)@
                        == old(self)@,
                    Some(v) => slice_assigned(old(self)@, d, v@, final(self)@, r),
                },
            },
    {
        match subscript {
            SequenceIndex::Int(i) => self.setindex(i, value),
            SequenceIndex::Slice(d) => match items {
                Some(v) => self.setslice(&d, v),
                None => Err(SeqError::WrongType),
            },
        }
    }

    /// Replaces the element an index designates.
    pub fn setindex(&mut self, index: isize, value: T) -> (r: Result<(), SeqError>)
        ensures
            match index_position(old(self)@.len() as int, index as int) {
                Some(p) => r is Ok && final(self)@ == old(self)@.update(p, value),
                None => r == Err::<(), SeqError>(SeqError::IndexOutOfRange) && final(self)@
                    == old(self)@,
            },
    {
        match self.get_pos(index) {
            Some(p) => {
                self.elements[p] = value;
                Ok(())
            },
            None => Err(SeqError::IndexOutOfRange),
        }
    }

    /// Slice assignment from the fully materialised replacement `items`.
    /// A unit forward step splices (the length may change); any other step
    /// replaces the selected positions one for one and requires `items` to
    /// have exactly as many elements.
    pub fn setslice(&mut self, d: &SliceDesc, items: Vec<T>) -> (r: Result<(), SeqError>)
        ensures
            slice_assigned(old(self)@, *d, items@, final(self)@, r),
    {
        match resolve_slice(self.get_len(), d) {
            None => Err(SeqError::ZeroStep),
            Some(p) => {
                if step_is_one(d) {
                    self._set_slice(p.start, p.stop, items);
                    Ok(())
                } else {
                    self._set_stepped_slice(&p, items)
                }
            },
        }
    }

    /// Replaces `[lo, hi)` with `items`.
    fn _set_slice(&mut self, lo: usize, hi: usize, items: Vec<T>)
        requires
            lo <= hi <= old(self)@.len(),
        ensures
            final(self)@ == spliced(old(self)@, lo as int, hi as int, items@),
    {
        let mut tail = self.elements.split_off(hi);
        self.elements.truncate(lo);
        let mut items = items;
        self.elements.append(&mut items);
        self.elements.append(&mut tail);
    }

    /// Stepped assignment, in either direction.
    fn _set_stepped_slice(&mut self, p: &SlicePlan, items: Vec<T>) -> (r: Result<(), SeqError>)
        requires
            p.wf(old(self)@.len() as int),
        ensures
            items@.len() == p.count() ==> r is Ok && final(self)@ == assigned(
                old(self)@,
                *p,
                items@,
            ),
            items@.len() != p.count() ==> r == Err::<(), SeqError>(
                SeqError::SizeMismatch { given: items@.len() as usize, slice: p.count() as usize },
            ) && final(self)@ == old(self)@,
    {
        let n = slice_count(p);
        if items.len() == n {
            self._replace_indexes(p, &items);
            Ok(())
        } else {
            Err(SeqError::SizeMismatch { given: items.len(), slice: n })
        }
    }

    /// Writes `items[k]` at the `k`-th selected position.
    fn _replace_indexes(&mut self, p: &SlicePlan, items: &Vec<T>)
        requires
            p.wf(old(self)@.len() as int),
            items@.len() == p.count(),
        ensures
            final(self)@ == assigned(old(self)@, *p, items@),
    {
        let ghost orig = self.elements@;
        let n = items.len();
        let mut k: usize = 0;
        assert(self.elements@ =~= assigned_upto(orig, *p, items@, 0));
        while k < n
            invariant
                p.wf(orig.len() as int),
                n == p.count(),
                n == items@.len(),
                k <= n,
                self.elements@ == assigned_upto(orig, *p, items@, k as int),
            decreases n - k,
        {
            let at = plan_pos(p, k);
            proof {
                lemma_pos_selected(*p, k as int);
            }
            self.elements[at] = items[k];
            assert forall|j: int| 0 <= j < orig.len() implies #[trigger] self.elements@[j]
                == assigned_upto(orig, *p, items@, k + 1)[j] by {
                if p.selects(j) {
                    lemma_selected_rank(*p, j);
                }
            }
            assert(self.elements@ =~= assigned_upto(orig, *p, items@, k + 1));
            k += 1;
        }
        assert forall|j: int| 0 <= j < orig.len() implies #[trigger] self.elements@[j]
            == assigned(orig, *p, items@)[j] by {
            if p.selects(j) {
                lemma_selected_rank(*p, j);
            }
        }
        assert(self.elements@ =~= assigned(orig, *p, items@));
    }
}

/// `s` with the selected positions of rank below `k` assigned.
spec fn assigned_upto<T>(s: Seq<T>, p: SlicePlan, v: Seq<T>, k: int) -> Seq<T> {
    Seq::new(s.len(), |j: int| if p.selects(j) && p.rank(j) < k { v[p.rank(j)] } else { s[j] })
}

impl<T: Copy> PyList<T> {
    /// Subscript deletion.
    pub fn delitem(&mut self, subscript: SequenceIndex) -> (r: Result<(), SeqError>)
        ensures
            match subscript {
                SequenceIndex::Int(i) => match index_position(old(self)@.len() as int, i as int) {
                    Some(p) => r is Ok && final(self)@ == old(self)@.remove(p),
                    None => r == Err::<(), SeqError>(SeqError::IndexOutOfRange) && final(self)@
                        == old(self)@,
                },
                SequenceIndex::Slice(d) => slice_deleted(old(self)@, d, final(self)@, r),
            },
    {
        match subscript {
            SequenceIndex::Int(i) => self.delindex(i),
            SequenceIndex::Slice(d) => self.delslice(&d),
        }
    }

    /// Removes the element an index designates.
    pub fn delindex(&mut self, index: isize) -> (r: Result<(), SeqError>)
        ensures
            match index_position(old(self)@.len() as int, index as int) {
                Some(p) => r is Ok && final(self)@ == old(self)@.remove(p),
                None => r == Err::<(), SeqError>(SeqError::IndexOutOfRange) && final(self)@
                    == old(self)@,
            },
    {
        match self.get_pos(index) {
            Some(p) => {
                self.elements.remove(p);
                Ok(())
            },
            None => Err(SeqError::IndexOutOfRange),
        }
    }

    /// Removes exactly the positions a slice descriptor selects; the other
    /// elements keep their relative order.
    pub fn delslice(&mut self, d: &SliceDesc) -> (r: Result<(), SeqError>)
        ensures
            slice_deleted(old(self)@, *d, final(self)@, r),
    {
        let ghost orig = self.elements@;
        let len = self.get_len();
        match resolve_slice(len, d) {
            None => Err(SeqError::ZeroStep),
            Some(p) => {
                proof {
                    lemma_kept_split(orig, p, 0, p.start as int, len as int);
                    lemma_kept_split(orig, p, p.start as int, p.stop as int, len as int);
                    lemma_kept_unselected(orig, p, 0, p.start as int);
                    lemma_kept_unselected(orig, p, p.stop as int, len as int);
                }
                if p.start < p.stop {
                    if p.step == 1 {
                        proof {
                            assert forall|j: int| p.start <= j < p.stop implies p.selects(j) by {
                                assert((j - p.start) % 1 == 0);
                                assert((p.stop - 1 - j) % 1 == 0);
                            }
                            lemma_kept_selected(orig, p, p.start as int, p.stop as int);
                        }
                        self._del_slice(p.start, p.stop);
                    } else if !p.reverse {
                        self._del_stepped_slice(&p);
                    } else {
                        self._del_stepped_slice_reverse(&p);
                    }
                } else {
                    proof {
                        lemma_kept_unselected(orig, p, p.start as int, p.stop as int);
                    }
                }
                assert(self.elements@ =~= deleted(orig, p));
                Ok(())
            },
        }
    }

    /// Removes the contiguous range `[lo, hi)`.
    fn _del_slice(&mut self, lo: usize, hi: usize)
        requires
            lo <= hi <= old(self)@.len(),
        ensures
            final(self)@ == old(self)@.subrange(0, lo as int) + old(self)@.subrange(
                hi as int,
                old(self)@.len() as int,
            ),
    {
        remove_range(&mut self.elements, lo, hi);
    }

    /// Forward stepped deletion: survivors are swapped toward the front of
    /// the range, then the displaced block at its end is dropped.
    fn _del_stepped_slice(&mut self, p: &SlicePlan)
        requires
            p.wf(old(self)@.len() as int),
            !p.reverse,
        ensures
            final(self)@ == old(self)@.subrange(0, p.start as int) + kept(
                old(self)@,
                *p,
                p.start as int,
                p.stop as int,
            ) + old(self)@.subrange(p.stop as int, old(self)@.len() as int),
    {
        let ghost orig = self.elements@;
        let lo = p.start;
        let hi = p.stop;
        let mut deleted: usize = 0;
        let mut i: usize = lo;
        while i < hi
            invariant
                p.wf(orig.len() as int),
                !p.reverse,
                lo == p.start,
                hi == p.stop,
                lo <= i <= hi,
                deleted <= i - lo,
                self.elements@.len() == orig.len(),
                self.elements@.subrange(0, lo as int) == orig.subrange(0, lo as int),
                self.elements@.subrange(lo as int, (i - deleted) as int) == kept(
                    orig,
                    *p,
                    lo as int,
                    i as int,
                ),
                self.elements@.subrange(i as int, orig.len() as int) == orig.subrange(
                    i as int,
                    orig.len() as int,
                ),
            decreases hi - i,
        {
            let ghost before = self.elements@;
            assert(before[i as int] == before.subrange(i as int, orig.len() as int)[0]);
            if (i - lo) % p.step == 0 {
                deleted += 1;
            } else {
                swap_at(&mut self.elements, i - deleted, i);
                assert(self.elements@.subrange(0, lo as int) =~= before.subrange(0, lo as int));
                assert(self.elements@.subrange(lo as int, (i + 1 - deleted) as int) =~= before.subrange(
                    lo as int,
                    (i - deleted) as int,
                ).push(orig[i as int]));
            }
            assert(self.elements@.subrange((i + 1) as int, orig.len() as int) =~= before.subrange(
                (i + 1) as int,
                orig.len() as int,
            ));
            assert(orig.subrange((i + 1) as int, orig.len() as int) =~= orig.subrange(
                i as int,
                orig.len() as int,
            ).subrange(1, orig.len() - i));
            assert(before.subrange((i + 1) as int, orig.len() as int) =~= before.subrange(
                i as int,
                orig.len() as int,
            ).subrange(1, orig.len() - i));
            i += 1;
        }
        let ghost before = self.elements@;
        remove_range(&mut self.elements, hi - deleted, hi);
        assert(self.elements@ =~= before.subrange(0, lo as int) + before.subrange(
            lo as int,
            (hi - deleted) as int,
        ) + before.subrange(hi as int, orig.len() as int));
    }

    /// Reverse stepped deletion: the range is walked from the top down,
    /// survivors are swapped toward its end, then the displaced block at its
    /// start is dropped.
    fn _del_stepped_slice_reverse(&mut self, p: &SlicePlan)
        requires
            p.wf(old(self)@.len() as int),
            p.reverse,
        ensures
            final(self)@ == old(self)@.subrange(0, p.start as int) + kept(
                old(self)@,
                *p,
                p.start as int,
                p.stop as int,
            ) + old(self)@.subrange(p.stop as int, old(self)@.len() as int),
    {
        let ghost orig = self.elements@;
        let lo = p.start;
        let hi = p.stop;
        let mut deleted: usize = 0;
        let mut i: usize = hi;
        while i > lo
            invariant
                p.wf(orig.len() as int),
                p.reverse,
                lo == p.start,
                hi == p.stop,
                lo <= i <= hi,
                deleted <= hi - i,
                self.elements@.len() == orig.len(),
                self.elements@.subrange(0, i as int) == orig.subrange(0, i as int),
                self.elements@.subrange((i + deleted) as int, hi as int) == kept(
                    orig,
                    *p,
                    i as int,
                    hi as int,
                ),
                self.elements@.subrange(hi as int, orig.len() as int) == orig.subrange(
                    hi as int,
                    orig.len() as int,
                ),
            decreases i - lo,
        {
            let ghost before = self.elements@;
            let j = i - 1;
            assert(before[j as int] == before.subrange(0, i as int)[j as int]);
            proof {
                lemma_kept_split(orig, *p, j as int, i as int, hi as int);
                assert(kept(orig, *p, j as int, j as int) =~= Seq::<T>::empty());
            }
            if (hi - 1 - j) % p.step == 0 {
                deleted += 1;
                assert(kept(orig, *p, j as int, hi as int) =~= kept(orig, *p, i as int, hi as int));
            } else {
                swap_at(&mut self.elements, j + deleted, j);
                assert(kept(orig, *p, j as int, hi as int) =~= seq![orig[j as int]] + kept(
                    orig,
                    *p,
                    i as int,
                    hi as int,
                ));
                assert(self.elements@.subrange((j + deleted) as int, hi as int) =~= seq![
                    orig[j as int],
                ] + before.subrange((i + deleted) as int, hi as int));
                assert(self.elements@.subrange(hi as int, orig.len() as int) =~= before.subrange(
                    hi as int,
                    orig.len() as int,
                ));
            }
            assert(self.elements@.subrange(0, j as int) =~= before.subrange(0, i as int).subrange(
                0,
                j as int,
            ));
            assert(orig.subrange(0, j as int) =~= orig.subrange(0, i as int).subrange(0, j as int));
            i = j;
        }
        let ghost before = self.elements@;
        remove_range(&mut self.elements, lo, lo + deleted);
        assert(self.elements@ =~= before.subrange(0, lo as int) + before.subrange(
            (lo + deleted) as int,
            hi as int,
        ) + before.subrange(hi as int, orig.len() as int));
    }
}

/// `s` repeated `n` times (empty for `n <= 0`).
pub open spec fn repeated<T>(s: Seq<T>, n: int) -> Seq<T>
    decreases n,
{
    if n <= 0 {
        Seq::empty()
    } else {
        repeated(s, n - 1) + s
    }
}

pub proof fn lemma_repeated_len<T>(s: Seq<T>, n: int)
    requires
        n >= 0,
    ensures
        repeated(s, n).len() == n * s.len(),
    decreases n,
{
    if n > 0 {
        lemma_repeated_len(s, n - 1);
        assert(repeated(s, n).len() == repeated(s, n - 1).len() + s.len());
        assert(n * s.len() == (n - 1) * s.len() + s.len()) by (nonlinear_arith);
    } else {
        assert(n * s.len() == 0) by (nonlinear_arith)
            requires n == 0;
    }
}

/// Number of `true` answers among the first `n`.
pub open spec fn count_true(answers: Seq<bool>, n: int) -> int
    decreases n,
{
    if n <= 0 {
        0
    } else {
        count_true(answers, n - 1) + if answers[n - 1] { 1int } else { 0 }
    }
}

proof fn lemma_count_true_bound(answers: Seq<bool>, n: int)
    requires
        n >= 0,
    ensures
        0 <= count_true(answers, n) <= n,
    decreases n,
{
    if n > 0 {
        lemma_count_true_bound(answers, n - 1);
    }
}

/// Failure of a search for an element.
#[derive(Clone, Copy, Debug, PartialEq, Eq)]
pub enum LookupError<E> {
    /// No element compared equal to the needle.
    NotFound,
    /// The equality callback failed.
    Compare(E),
}

/// Answers of `eq` on the first `n` elements of `s` against `needle` were
/// `answers`.
pub open spec fn answered<T, E, F: Fn(T, T) -> Result<bool, E>>(
    eq: F,
    s: Seq<T>,
    needle: T,
    answers: Seq<bool>,
    n: int,
) -> bool {
    &&& answers.len() >= n
    &&& forall|i: int| 0 <= i < n ==> #[trigger] eq.ensures((s[i], needle), Ok::<bool, E>(answers[i]))
}

impl<T: Copy> PyList<T> {
    /// In-place order reversal.
    pub fn reverse(&mut self)
        ensures
            final(self)@ == old(self)@.reverse(),
    {
        let ghost orig = self.elements@;
        let n = self.elements.len();
        let mut i: usize = 0;
        while i < n / 2
            invariant
                n == orig.len(),
                i <= n / 2,
                self.elements@.len() == n,
                forall|j: int|
                    0 <= j < n ==> #[trigger] self.elements@[j] == if j < i || j >= n - i {
                        orig[n - 1 - j]
                    } else {
                        orig[j]
                    },
            decreases n / 2 - i,
        {
            swap_at(&mut self.elements, i, n - 1 - i);
            i += 1;
        }
        assert(self.elements@ =~= orig.reverse());
    }

    /// `self` repeated `counter` times, as a new list of the same element
    /// references; fails when the length would not fit.
    pub fn mul(&self, counter: isize) -> (r: Result<PyList<T>, SeqError>)
        ensures
            match r {
                Ok(l) => l@ == repeated(self@, counter as int),
                Err(e) => e == SeqError::Overflow && counter * self@.len() > usize::MAX,
            },
            counter * self@.len() <= usize::MAX ==> r is Ok,
    {
        let len = self.elements.len();
        if counter <= 0 {
            return Ok(PyList { elements: Vec::new() });
        }
        let n = counter as usize;
        if len > 0 && n > usize::MAX / len {
            proof {
                assert(counter * len > usize::MAX) by (nonlinear_arith)
                    requires n > usize::MAX / len, len > 0, n == counter;
            }
            return Err(SeqError::Overflow);
        }
        let mut out: Vec<T> = Vec::new();
        let mut k: usize = 0;
        while k < n
            invariant
                k <= n,
                n == counter,
                len == self@.len(),
                len == 0 || n <= usize::MAX / len,
                out@ == repeated(self@, k as int),
            decreases n - k,
        {
            proof {
                lemma_repeated_len(self@, k as int);
                assert(k * len + len <= usize::MAX) by (nonlinear_arith)
                    requires len == 0 || n <= usize::MAX / len, k < n;
            }
            let mut copy = copy_vec(&self.elements);
            out.append(&mut copy);
            k += 1;
        }
        Ok(PyList { elements: out })
    }

    /// Same as `mul`, with the operands swapped.
    pub fn rmul(&self, counter: isize) -> (r: Result<PyList<T>, SeqError>)
        ensures
            match r {
                Ok(l) => l@ == repeated(self@, counter as int),
                Err(e) => e == SeqError::Overflow && counter * self@.len() > usize::MAX,
            },
            counter * self@.len() <= usize::MAX ==> r is Ok,
    {
        self.mul(counter)
    }

    /// In-place repetition; the list is left as it was on failure.
    pub fn imul(&mut self, counter: isize) -> (r: Result<(), SeqError>)
        ensures
            match r {
                Ok(_) => final(self)@ == repeated(old(self)@, counter as int),
                Err(e) => e == SeqError::Overflow && counter * old(self)@.len() > usize::MAX
                    && final(self)@ == old(self)@,
            },
            counter * old(self)@.len() <= usize::MAX ==> r is Ok,
    {
        match self.mul(counter) {
            Ok(l) => {
                self.elements = l.elements;
                Ok(())
            },
            Err(e) => Err(e),
        }
    }

    /// Removes and returns the element at `i` (the last one when `None`).
    pub fn pop(&mut self, i: Option<isize>) -> (r: Result<T, SeqError>)
        ensures
            old(self)@.len() == 0 ==> r == Err::<T, SeqError>(SeqError::PopFromEmpty) && final(self)@ == old(self)@,
            old(self)@.len() > 0 ==> match index_position(
                old(self)@.len() as int,
                match i {
                    Some(x) => x as int,
                    None => -1,
                },
            ) {
                Some(p) => r == Ok::<T, SeqError>(old(self)@[p]) && final(self)@ == old(self)@.remove(p),
                None => r == Err::<T, SeqError>(SeqError::IndexOutOfRange) && final(self)@
                    == old(self)@,
            },
    {
        if self.elements.len() == 0 {
            return Err(SeqError::PopFromEmpty);
        }
        let index: isize = match i {
            Some(x) => x,
            None => -1,
        };
        match self.get_pos(index) {
            Some(p) => Ok(self.elements.remove(p)),
            None => Err(SeqError::IndexOutOfRange),
        }
    }

    /// Number of elements `eq` finds equal to `needle`.
    pub fn count<E, F: Fn(T, T) -> Result<bool, E>>(&self, needle: T, eq: &F) -> (r: Result<
        usize,
        E,
    >)
        requires
            forall|a: T, b: T| eq.requires((a, b)),
        ensures
            match r {
                Ok(n) => exists|answers: Seq<bool>|
                    answered(*eq, self@, needle, answers, self@.len() as int) && n == count_true(
                        answers,
                        self@.len() as int,
                    ),
                Err(e) => exists|i: int|
                    0 <= i < self@.len() && eq.ensures((self@[i], needle), Err::<bool, E>(e)),
            },
    {
        let ghost mut answers: Seq<bool> = Seq::empty();
        let mut n: usize = 0;
        let mut i: usize = 0;
        while i < self.elements.len()
            invariant
                i <= self@.len(),
                answers.len() == i,
                answered(*eq, self@, needle, answers, i as int),
                n == count_true(answers, i as int),
                forall|a: T, b: T| eq.requires((a, b)),
            decreases self@.len() - i,
        {
            let found = eq(self.elements[i], needle);
            match found {
                Ok(b) => {
                    proof {
                        lemma_count_true_bound(answers, i as int);
                        lemma_count_true_push(answers, b, i as int);
                        answers = answers.push(b);
                    }
                    if b {
                        n += 1;
                    }
                },
                Err(e) => {
                    return Err(e);
                },
            }
            i += 1;
        }
        Ok(n)
    }

    /// Whether `eq` finds some element equal to `needle`; stops at the
    /// first match.
    pub fn contains<E, F: Fn(T, T) -> Result<bool, E>>(&self, needle: T, eq: &F) -> (r: Result<
        bool,
        E,
    >)
        requires
            forall|a: T, b: T| eq.requires((a, b)),
        ensures
            match r {
                Ok(true) => exists|i: int|
                    0 <= i < self@.len() && eq.ensures((self@[i], needle), Ok::<bool, E>(true)),
                Ok(false) => forall|i: int|
                    0 <= i < self@.len() ==> eq.ensures((self@[i], needle), Ok::<bool, E>(false)),
                Err(e) => exists|i: int|
                    0 <= i < self@.len() && eq.ensures((self@[i], needle), Err::<bool, E>(e)),
            },
    {
        match self.index(needle, eq) {
            Ok(_) => Ok(true),
            Err(LookupError::NotFound) => Ok(false),
            Err(LookupError::Compare(e)) => Err(e),
        }
    }

    /// Position of the first element `eq` finds equal to `needle`.
    pub fn index<E, F: Fn(T, T) -> Result<bool, E>>(&self, needle: T, eq: &F) -> (r: Result<
        usize,
        LookupError<E>,
    >)
        requires
            forall|a: T, b: T| eq.requires((a, b)),
        ensures
            match r {
                Ok(p) => p < self@.len() && eq.ensures((self@[p as int], needle), Ok::<bool, E>(true))
                    && forall|i: int|
                    0 <= i < p ==> eq.ensures((self@[i], needle), Ok::<bool, E>(false)),
                Err(LookupError::NotFound) => forall|i: int|
                    0 <= i < self@.len() ==> eq.ensures((self@[i], needle), Ok::<bool, E>(false)),
                Err(LookupError::Compare(e)) => exists|i: int|
                    0 <= i < self@.len() && eq.ensures((self@[i], needle), Err::<bool, E>(e)),
            },
    {
        let mut i: usize = 0;
        while i < self.elements.len()
            invariant
                i <= self@.len(),
                forall|j: int| 0 <= j < i ==> eq.ensures((self@[j], needle), Ok::<bool, E>(false)),
                forall|a: T, b: T| eq.requires((a, b)),
            decreases self@.len() - i,
        {
            match eq(self.elements[i], needle) {
                Ok(true) => {
                    return Ok(i);
                },
                Ok(false) => {},
                Err(e) => {
                    return Err(LookupError::Compare(e));
                },
            }
            i += 1;
        }
        Err(LookupError::NotFound)
    }

    /// Removes the first element `eq` finds equal to `needle`.
    pub fn remove<E, F: Fn(T, T) -> Result<bool, E>>(&mut self, needle: T, eq: &F) -> (r: Result<
        (),
        LookupError<E>,
    >)
        requires
            forall|a: T, b: T| eq.requires((a, b)),
        ensures
            match r {
                Ok(_) => exists|p: int|
                    0 <= p < old(self)@.len() && eq.ensures(
                        (old(self)@[p], needle),
                        Ok::<bool, E>(true),
                    ) && (forall|i: int|
                        0 <= i < p ==> eq.ensures((old(self)@[i], needle), Ok::<bool, E>(false)))
                        && final(self)@ == old(self)@.remove(p),
                Err(LookupError::NotFound) => final(self)@ == old(self)@ && forall|i: int|
                    0 <= i < old(self)@.len() ==> eq.ensures(
                        (old(self)@[i], needle),
                        Ok::<bool, E>(false),
                    ),
                Err(LookupError::Compare(e)) => final(self)@ == old(self)@ && exists|i: int|
                    0 <= i < old(self)@.len() && eq.ensures(
                        (old(self)@[i], needle),
                        Err::<bool, E>(e),
                    ),
            },
    {
        match self.index(needle, eq) {
            Ok(p) => {
                self.elements.remove(p);
                Ok(())
            },
            Err(e) => Err(e),
        }
    }
}

proof fn lemma_count_true_push(a: Seq<bool>, x: bool, n: int)
    requires
        0 <= n <= a.len(),
    ensures
        count_true(a.push(x), n) == count_true(a, n),
    decreases n,
{
    if n > 0 {
        lemma_count_true_push(a, x, n - 1);
        assert(a.push(x)[n - 1] == a[n - 1]);
    }
}

/// A run of `key` over the first `n` elements of `s`, in order: the call
/// on `s[i]` was handed the store `stores[i]`, gave back `stores[i + 1]` and
/// answered the key `ks[i]`. The first store is empty.
pub open spec fn key_run<T, K, E, KF: Fn(Vec<T>, T) -> (Vec<T>, Result<K, E>)>(
    key: KF,
    s: Seq<T>,
    n: int,
    ks: Seq<K>,
    stores: Seq<Vec<T>>,
) -> bool {
    &&& 0 <= n <= s.len()
    &&& ks.len() == n
    &&& stores.len() == n + 1
    &&& stores[0]@.len() == 0
    &&& forall|i: int|
        0 <= i < n ==> key.ensures((stores[i], s[i]), (stores[i + 1], Ok::<K, E>(#[trigger] ks[i])))
}

/// What `sort_by_key` leaves and returns once every key call succeeded and
/// the store after the last call is `last`: the elements sorted by their
/// keys as `sort_outcome` states; `Ok` when `last` is empty, else
/// `ModifiedDuringSort` (and what was put in the store is dropped).
pub open spec fn keyed_sort<T, K, E, KF: Fn(Vec<T>, T) -> (Vec<T>, Result<K, E>), L: Fn(K, K) -> Result<bool, E>>(
    key: KF,
    lt: L,
    s: Seq<T>,
    t: Seq<T>,
    reverse: bool,
    r: Result<(), SortError<E>>,
) -> bool {
    exists|ks: Seq<K>, stores: Seq<Vec<T>>|
        #[trigger] key_run(key, s, s.len() as int, ks, stores) && sort_outcome(lt, ks, s, t, reverse)
            && if stores.last()@.len() == 0 {
            r is Ok
        } else {
            r == Err::<(), SortError<E>>(SortError::ModifiedDuringSort)
        }
}

/// The key call on `s[i]` failed with `e` after a run over the elements
/// before it, and gave back the store `t`.
pub open spec fn key_failed<T, K, E, KF: Fn(Vec<T>, T) -> (Vec<T>, Result<K, E>)>(
    key: KF,
    s: Seq<T>,
    e: E,
    t: Seq<T>,
) -> bool {
    exists|i: int, ks: Seq<K>, stores: Seq<Vec<T>>, st: Vec<T>|
        #![trigger key_run(key, s, i, ks, stores), key.ensures((stores[i], s[i]), (st, Err::<K, E>(e)))]
        key_run(key, s, i, ks, stores) && i < s.len() && key.ensures(
            (stores[i], s[i]),
            (st, Err::<K, E>(e)),
        ) && st@ == t
}

/// Every key call succeeded with the keys `ks`, and the store after the
/// last one is `last`.
pub open spec fn keys_run_to<T, K, E, KF: Fn(Vec<T>, T) -> (Vec<T>, Result<K, E>)>(
    key: KF,
    s: Seq<T>,
    ks: Seq<K>,
    last: Vec<T>,
) -> bool {
    exists|stores: Seq<Vec<T>>| #[trigger] key_run(key, s, s.len() as int, ks, stores) && stores.last() == last
}

/// Every key call succeeded, and the store after the last one is `t`.
pub open spec fn keys_done<T, K, E, KF: Fn(Vec<T>, T) -> (Vec<T>, Result<K, E>)>(
    key: KF,
    s: Seq<T>,
    t: Seq<T>,
) -> bool {
    exists|ks: Seq<K>, stores: Seq<Vec<T>>|
        #[trigger] key_run(key, s, s.len() as int, ks, stores) && stores.last()@ == t
}

impl<T: Copy> PyList<T> {
    /// Sorts the elements by themselves with the "orders before" callback
    /// `lt`, descending when `reverse`. The result is sorted for every strict
    /// order that the answers of `lt` agree with. The elements are detached
    /// for the duration; when `lt` fails the list is left empty.
    pub fn sort<E, L: Fn(T, T) -> Result<bool, E>>(&mut self, reverse: bool, lt: &L) -> (r: Result<
        (),
        SortError<E>,
    >)
        requires
            forall|a: T, b: T| lt.requires((a, b)),
        ensures
            match r {
                Ok(_) => final(self)@.to_multiset() == old(self)@.to_multiset() && (forall|
                    rel: spec_fn(T, T) -> bool,
                | #[trigger] ordered_by(*lt, rel) ==> sorted_by(rel, final(self)@, reverse)),
                Err(SortError::Compare(e)) => raised(*lt, e) && final(self)@ == Seq::<T>::empty(),
                Err(_) => false,
            },
    {
        let ghost orig = self.elements@;
        let mut values = self.elements.split_off(0);
        assert(values@ =~= orig);
        let keys = copy_vec(&values);
        match do_sort(&mut values, keys, reverse, lt) {
            Ok(()) => {},
            Err(e) => {
                return Err(SortError::Compare(e));
            },
        }
        proof {
            lemma_self_keyed(*lt, orig, values@, reverse);
        }
        self.elements = values;
        Ok(())
    }

    /// Sorts the elements by the keys `key` gives, with the "orders before"
    /// callback `lt`, descending when `reverse`. While keys are computed the
    /// elements are detached: each call of `key` is handed the store that
    /// stands in for the list (empty at first) and gives it back. If the
    /// store is not empty after the last call, the sorted elements are still
    /// put back, the store's contents are dropped, and the sort reports
    /// `ModifiedDuringSort`. When a callback fails the list is left holding
    /// the store.
    pub fn sort_by_key<
        K: Copy,
        E,
        KF: Fn(Vec<T>, T) -> (Vec<T>, Result<K, E>),
        L: Fn(K, K) -> Result<bool, E>,
    >(&mut self, key: &KF, reverse: bool, lt: &L) -> (r: Result<(), SortError<E>>)
        requires
            forall|st: Vec<T>, x: T| key.requires((st, x)),
            forall|a: K, b: K| lt.requires((a, b)),
        ensures
            match r {
                Ok(_) | Err(SortError::ModifiedDuringSort) => keyed_sort(
                    *key,
                    *lt,
                    old(self)@,
                    final(self)@,
                    reverse,
                    r,
                ),
                Err(SortError::Key(e)) => key_failed(*key, old(self)@, e, final(self)@),
                Err(SortError::Compare(e)) => raised(*lt, e) && keys_done(*key, old(self)@, final(self)@),
            },
    {
        let ghost orig = self.elements@;
        let mut values = self.elements.split_off(0);
        assert(values@ =~= orig);
        let (keys, store) = compute_keys(&values, key);
        let keys = match keys {
            Ok(ks) => ks,
            Err(e) => {
                self.elements = store;
                return Err(SortError::Key(e));
            },
        };
        let ghost ks0 = keys@;
        match do_sort(&mut values, keys, reverse, lt) {
            Ok(()) => {},
            Err(e) => {
                self.elements = store;
                return Err(SortError::Compare(e));
            },
        }
        self.elements = values;
        if store.len() != 0 {
            return Err(SortError::ModifiedDuringSort);
        }
        Ok(())
    }
}

/// One key per element, in order, handing `key` the store from call to
/// call (empty at first); returns the keys or the first failure, with the
/// store as the last call gave it back.
fn compute_keys<T: Copy, K: Copy, E, KF: Fn(Vec<T>, T) -> (Vec<T>, Result<K, E>)>(
    values: &Vec<T>,
    key: &KF,
) -> (r: (Result<Vec<K>, E>, Vec<T>))
    requires
        forall|st: Vec<T>, x: T| key.requires((st, x)),
    ensures
        match r.0 {
            Ok(ks) => keys_run_to(*key, values@, ks@, r.1),
            Err(e) => key_failed(*key, values@, e, r.1@),
        },
{
    let mut keys: Vec<K> = Vec::new();
    let mut store: Vec<T> = Vec::new();
    let ghost mut stores: Seq<Vec<T>> = seq![store];
    let mut i: usize = 0;
    while i < values.len()
        invariant
            i <= values@.len(),
            key_run(*key, values@, i as int, keys@, stores),
            stores.last() == store,
            forall|st: Vec<T>, x: T| key.requires((st, x)),
        decreases values@.len() - i,
    {
        let x = values[i];
        let (next, answer) = key(store, x);
        match answer {
            Ok(k) => {
                keys.push(k);
                proof {
                    let old_stores = stores;
                    stores = stores.push(next);
                    assert forall|j: int| 0 <= j < i + 1 implies key.ensures(
                        (stores[j], values@[j]),
                        (stores[j + 1], Ok::<K, E>(#[trigger] keys@[j])),
                    ) by {
                        if j < i {
                            assert(stores[j] == old_stores[j] && stores[j + 1] == old_stores[j + 1]);
                        }
                    }
                }
                store = next;
            },
            Err(e) => {
                proof {
                    assert(key_run(*key, values@, i as int, keys@, stores));
                }
                return (Err(e), next);
            },
        }
        i += 1;
    }
    assert(key_run(*key, values@, values@.len() as int, keys@, stores) && stores.last() == store);
    assert(keys_run_to(*key, values@, keys@, store));
    (Ok(keys), store)
}

/// An ordering comparison between two lists.
#[derive(Clone, Copy, Debug, PartialEq, Eq, Structural)]
pub enum CmpOp {
    Lt,
    Le,
    Gt,
    Ge,
}

/// The comparison `op` applied to two lengths.
pub open spec fn len_order(op: CmpOp, a: int, b: int) -> bool {
    match op {
        CmpOp::Lt => a < b,
        CmpOp::Le => a <= b,
        CmpOp::Gt => a > b,
        CmpOp::Ge => a >= b,
    }
}

/// `eq` answered "equal" for each of the first `n` pairs.
pub open spec fn equal_prefix<T, E, F: Fn(T, T) -> Result<bool, E>>(
    eq: F,
    a: Seq<T>,
    b: Seq<T>,
    n: int,
) -> bool {
    forall|i: int| 0 <= i < n ==> eq.ensures((#[trigger] a[i], #[trigger] b[i]), Ok::<bool, E>(true))
}

/// Lexicographic outcome `v`: either the first pair `eq` found unequal was
/// answered `v` by `ord`, or all common pairs were equal and the lengths
/// decide.
pub open spec fn compared<T, E, F: Fn(T, T) -> Result<bool, E>, G: Fn(T, T) -> Result<bool, E>>(
    eq: F,
    ord: G,
    op: CmpOp,
    a: Seq<T>,
    b: Seq<T>,
    v: bool,
) -> bool {
    let n = if a.len() < b.len() { a.len() as int } else { b.len() as int };
    ||| exists|i: int|
        0 <= i < n && equal_prefix(eq, a, b, i) && eq.ensures((a[i], b[i]), Ok::<bool, E>(false))
            && #[trigger] ord.ensures((a[i], b[i]), Ok::<bool, E>(v))
    ||| equal_prefix(eq, a, b, n) && v == len_order(op, a.len() as int, b.len() as int)
}

/// A callback failed with `e` on some pair of `a` and `b` at one position.
pub open spec fn pair_failed<T, E, F: Fn(T, T) -> Result<bool, E>>(
    f: F,
    a: Seq<T>,
    b: Seq<T>,
    e: E,
) -> bool {
    exists|i: int|
        0 <= i < a.len() && i < b.len() && #[trigger] f.ensures((a[i], b[i]), Err::<bool, E>(e))
}

impl<T: Copy> PyList<T> {
    /// Element-wise equality: equal lengths, and `eq` answers "equal" for
    /// every pair, stopping at the first that is not.
    pub fn eq<E, F: Fn(T, T) -> Result<bool, E>>(&self, other: &PyList<T>, eq: &F) -> (r: Result<
        bool,
        E,
    >)
        requires
            forall|a: T, b: T| eq.requires((a, b)),
        ensures
            match r {
                Ok(v) => if self@.len() != other@.len() {
                    !v
                } else if v {
                    equal_prefix(*eq, self@, other@, self@.len() as int)
                } else {
                    pair_failed_answer(*eq, self@, other@)
                },
                Err(e) => pair_failed(*eq, self@, other@, e),
            },
    {
        if self.len() != other.len() {
            return Ok(false);
        }
        let mut i: usize = 0;
        while i < self.len()
            invariant
                self@.len() == other@.len(),
                i <= self@.len(),
                equal_prefix(*eq, self@, other@, i as int),
                forall|a: T, b: T| eq.requires((a, b)),
            decreases self@.len() - i,
        {
            let a = self.borrow_elements()[i];
            let b = other.borrow_elements()[i];
            let answer = eq(a, b);
            match answer {
                Ok(true) => {},
                Ok(false) => {
                    assert(eq.ensures((self@[i as int], other@[i as int]), Ok::<bool, E>(false)));
                    return Ok(false);
                },
                Err(e) => {
                    assert(eq.ensures((self@[i as int], other@[i as int]), Err::<bool, E>(e)));
                    return Err(e);
                },
            }
            i += 1;
        }
        Ok(true)
    }

    /// Negation of `eq`.
    pub fn ne<E, F: Fn(T, T) -> Result<bool, E>>(&self, other: &PyList<T>, eq: &F) -> (r: Result<
        bool,
        E,
    >)
        requires
            forall|a: T, b: T| eq.requires((a, b)),
        ensures
            match r {
                Ok(v) => if self@.len() != other@.len() {
                    v
                } else if !v {
                    equal_prefix(*eq, self@, other@, self@.len() as int)
                } else {
                    pair_failed_answer(*eq, self@, other@)
                },
                Err(e) => pair_failed(*eq, self@, other@, e),
            },
    {
        match self.eq(other, eq) {
            Ok(v) => Ok(!v),
            Err(e) => Err(e),
        }
    }

    /// Lexicographic comparison: the first pair that `eq` finds unequal is
    /// compared with `ord`; if there is none, the lengths are compared by
    /// `op`.
    pub fn cmp<E, F: Fn(T, T) -> Result<bool, E>, G: Fn(T, T) -> Result<bool, E>>(
        &self,
        other: &PyList<T>,
        op: CmpOp,
        eq: &F,
        ord: &G,
    ) -> (r: Result<bool, E>)
        requires
            forall|a: T, b: T| eq.requires((a, b)),
            forall|a: T, b: T| ord.requires((a, b)),
        ensures
            match r {
                Ok(v) => compared(*eq, *ord, op, self@, other@, v),
                Err(e) => pair_failed(*eq, self@, other@, e) || pair_failed(*ord, self@, other@, e),
            },
    {
        let n = if self.len() < other.len() { self.len() } else { other.len() };
        let mut i: usize = 0;
        while i < n
            invariant
                n == if self@.len() < other@.len() { self@.len() } else { other@.len() },
                i <= n,
                equal_prefix(*eq, self@, other@, i as int),
                forall|a: T, b: T| eq.requires((a, b)),
                forall|a: T, b: T| ord.requires((a, b)),
            decreases n - i,
        {
            let a = self.borrow_elements()[i];
            let b = other.borrow_elements()[i];
            match eq(a, b) {
                Ok(true) => {},
                Ok(false) => {
                    let answer = ord(a, b);
                    match answer {
                        Ok(v) => {
                            assert(ord.ensures((self@[i as int], other@[i as int]), Ok::<bool, E>(v)));
                            return Ok(v);
                        },
                        Err(e) => {
                            assert(ord.ensures((self@[i as int], other@[i as int]), Err::<bool, E>(e)));
                            return Err(e);
                        },
                    }
                },
                Err(e) => {
                    assert(eq.ensures((self@[i as int], other@[i as int]), Err::<bool, E>(e)));
                    return Err(e);
                },
            }
            i += 1;
        }
        let v = match op {
            CmpOp::Lt => self.len() < other.len(),
            CmpOp::Le => self.len() <= other.len(),
            CmpOp::Gt => self.len() > other.len(),
            CmpOp::Ge => self.len() >= other.len(),
        };
        Ok(v)
    }

    /// `self < other`, with `ord` the elements' "less than".
    pub fn lt<E, F: Fn(T, T) -> Result<bool, E>, G: Fn(T, T) -> Result<bool, E>>(
        &self,
        other: &PyList<T>,
        eq: &F,
        ord: &G,
    ) -> (r: Result<bool, E>)
        requires
            forall|a: T, b: T| eq.requires((a, b)),
            forall|a: T, b: T| ord.requires((a, b)),
        ensures
            match r {
                Ok(v) => compared(*eq, *ord, CmpOp::Lt, self@, other@, v),
                Err(e) => pair_failed(*eq, self@, other@, e) || pair_failed(*ord, self@, other@, e),
            },
    {
        self.cmp(other, CmpOp::Lt, eq, ord)
    }

    /// `self <= other`, with `ord` the elements' "less or equal".
    pub fn le<E, F: Fn(T, T) -> Result<bool, E>, G: Fn(T, T) -> Result<bool, E>>(
        &self,
        other: &PyList<T>,
        eq: &F,
        ord: &G,
    ) -> (r: Result<bool, E>)
        requires
            forall|a: T, b: T| eq.requires((a, b)),
            forall|a: T, b: T| ord.requires((a, b)),
        ensures
            match r {
                Ok(v) => compared(*eq, *ord, CmpOp::Le, self@, other@, v),
                Err(e) => pair_failed(*eq, self@, other@, e) || pair_failed(*ord, self@, other@, e),
            },
    {
        self.cmp(other, CmpOp::Le, eq, ord)
    }

    /// `self > other`, with `ord` the elements' "greater than".
    pub fn gt<E, F: Fn(T, T) -> Result<bool, E>, G: Fn(T, T) -> Result<bool, E>>(
        &self,
        other: &PyList<T>,
        eq: &F,
        ord: &G,
    ) -> (r: Result<bool, E>)
        requires
            forall|a: T, b: T| eq.requires((a, b)),
            forall|a: T, b: T| ord.requires((a, b)),
        ensures
            match r {
                Ok(v) => compared(*eq, *ord, CmpOp::Gt, self@, other@, v),
                Err(e) => pair_failed(*eq, self@, other@, e) || pair_failed(*ord, self@, other@, e),
            },
    {
        self.cmp(other, CmpOp::Gt, eq, ord)
    }

    /// `self >= other`, with `ord` the elements' "greater or equal".
    pub fn ge<E, F: Fn(T, T) -> Result<bool, E>, G: Fn(T, T) -> Result<bool, E>>(
        &self,
        other: &PyList<T>,
        eq: &F,
        ord: &G,
    ) -> (r: Result<bool, E>)
        requires
            forall|a: T, b: T| eq.requires((a, b)),
            forall|a: T, b: T| ord.requires((a, b)),
        ensures
            match r {
                Ok(v) => compared(*eq, *ord, CmpOp::Ge, self@, other@, v),
                Err(e) => pair_failed(*eq, self@, other@, e) || pair_failed(*ord, self@, other@, e),
            },
    {
        self.cmp(other, CmpOp::Ge, eq, ord)
    }

    /// Lists are unhashable: always fails.
    pub fn hash(&self) -> (r: Result<(), SeqError>)
        ensures
            r == Err::<(), SeqError>(SeqError::WrongType),
    {
        Err(SeqError::WrongType)
    }
}

impl<T: Copy> PyList<T> {
    /// The elements as bytes. `as_int` gives an element's integer value, or
    /// `None` when the element is not an integer; the first element that is
    /// not an integer, or not in `0..256`, stops the conversion.
    pub fn get_byte_inner<F: Fn(T) -> Option<i64>>(&self, as_int: &F) -> (r: Result<
        Vec<u8>,
        SeqError,
    >)
        requires
            forall|x: T| as_int.requires((x,)),
        ensures
            match r {
                Ok(bs) => bs@.len() == self@.len() && forall|i: int|
                    0 <= i < self@.len() ==> as_int.ensures(
                        (#[trigger] self@[i],),
                        Some(bs@[i] as i64),
                    ),
                Err(SeqError::WrongType) => exists|i: int|
                    0 <= i < self@.len() && as_int.ensures((#[trigger] self@[i],), None),
                Err(SeqError::ByteOutOfRange) => exists|i: int, v: i64|
                    0 <= i < self@.len() && !(0 <= v < 256) && #[trigger] as_int.ensures(
                        (self@[i],),
                        Some(v),
                    ),
                Err(_) => false,
            },
    {
        let mut out: Vec<u8> = Vec::new();
        let mut i: usize = 0;
        while i < self.len()
            invariant
                i <= self@.len(),
                out@.len() == i,
                forall|j: int|
                    0 <= j < i ==> as_int.ensures((#[trigger] self@[j],), Some(out@[j] as i64)),
                forall|x: T| as_int.requires((x,)),
            decreases self@.len() - i,
        {
            let x = self.borrow_elements()[i];
            let answer = as_int(x);
            match answer {
                Some(v) => {
                    if 0 <= v && v < 256 {
                        out.push(v as u8);
                    } else {
                        assert(as_int.ensures((self@[i as int],), Some(v)));
                        return Err(SeqError::ByteOutOfRange);
                    }
                },
                None => {
                    assert(as_int.ensures((self@[i as int],), None));
                    return Err(SeqError::WrongType);
                },
            }
            i += 1;
        }
        Ok(out)
    }
}

/// Some pair was answered "not equal" by `eq` after only "equal" answers
/// before it.
pub open spec fn pair_failed_answer<T, E, F: Fn(T, T) -> Result<bool, E>>(
    eq: F,
    a: Seq<T>,
    b: Seq<T>,
) -> bool {
    exists|i: int|
        0 <= i < a.len() && i < b.len() && equal_prefix(eq, a, b, i) && #[trigger] eq.ensures(
            (a[i], b[i]),
            Ok::<bool, E>(false),
        )
}

/// What a slice deletion on `s` leaves (`t`) and returns (`r`).
pub open spec fn slice_deleted<T>(s: Seq<T>, d: SliceDesc, t: Seq<T>, r: Result<(), SeqError>) -> bool {
    if step_value(d) == 0 {
        r == Err::<(), SeqError>(SeqError::ZeroStep) && t == s
    } else {
        r is Ok && t == deleted(s, plan_of(s.len() as int, d))
    }
}

fn step_is_one(d: &SliceDesc) -> (r: bool)
    ensures
        r == (step_value(*d) == 1),
{
    match d.step {
        Some(s) => s == 1,
        None => true,
    }
}

/// What a slice assignment of `v` to `s` leaves (`t`) and returns (`r`).
pub open spec fn slice_assigned<T>(
    s: Seq<T>,
    d: SliceDesc,
    v: Seq<T>,
    t: Seq<T>,
    r: Result<(), SeqError>,
) -> bool {
    let p = plan_of(s.len() as int, d);
    if step_value(d) == 0 {
        r == Err::<(), SeqError>(SeqError::ZeroStep) && t == s
    } else if step_value(d) == 1 {
        r is Ok && t == spliced(s, p.start as int, p.stop as int, v)
    } else if v.len() == p.count() {
        r is Ok && t == assigned(s, p, v)
    } else {
        r == Err::<(), SeqError>(
            SeqError::SizeMismatch { given: v.len() as usize, slice: p.count() as usize },
        ) && t == s
    }
}

/// A copy of a vector of copyable elements.
pub fn copy_vec<T: Copy>(v: &Vec<T>) -> (r: Vec<T>)
    ensures
        r@ == v@,
{
    let mut out: Vec<T> = Vec::new();
    let mut i: usize = 0;
    while i < v.len()
        invariant
            i <= v@.len(),
            out@ == v@.subrange(0, i as int),
        decreases v@.len() - i,
    {
        out.push(v[i]);
        i += 1;
    }
    out
}

/// Round trip of a unit-step slice assignment: after `v` replaces the
/// interval that `d` resolves to, reading the span that `v` now occupies
/// (from the interval's start, `v.len()` elements on, step one) gives back
/// exactly `v`. The bounds say that the new list fits a vector and that the
/// span's end can be written as an index.
pub proof fn lemma_splice_round_trip<T>(s: Seq<T>, d: SliceDesc, v: Seq<T>)
    requires
        step_value(d) == 1,
        s.len() + v.len() <= usize::MAX,
        plan_of(s.len() as int, d).start + v.len() <= isize::MAX,
    ensures
        ({
            let p = plan_of(s.len() as int, d);
            let t = spliced(s, p.start as int, p.stop as int, v);
            let back = SliceDesc {
                start: Some(p.start as isize),
                stop: Some((p.start + v.len()) as isize),
                step: None,
            };
            sliced(t, plan_of(t.len() as int, back)) == v
        }),
{
    let p = plan_of(s.len() as int, d);
    lemma_plan_wf(s.len() as int, d);
    let t = spliced(s, p.start as int, p.stop as int, v);
    let back = SliceDesc {
        start: Some(p.start as isize),
        stop: Some((p.start + v.len()) as isize),
        step: None,
    };
    let q = plan_of(t.len() as int, back);
    lemma_plan_wf(t.len() as int, back);
    assert(t.len() == s.len() - (p.stop - p.start) + v.len());
    assert(q.start == p.start);
    assert(q.stop == p.start + v.len());
    assert(q.count() == v.len()) by {
        if v.len() > 0 {
            assert((v.len() - 1) / 1 == v.len() - 1);
        }
    }
    assert forall|k: int| 0 <= k < v.len() implies sliced(t, q)[k] == v[k] by {
        assert(q.pos(k) == p.start + k);
    }
    assert(sliced(t, q) =~= v);
}

/// Reversing twice restores the original order and contents.
pub proof fn lemma_reverse_twice<T>(s: Seq<T>)
    ensures
        s.reverse().reverse() == s,
{
    assert(s.reverse().reverse() =~= s);
}

/// The positions below `n` that `p` does not select, ascending.
pub open spec fn kept_positions(p: SlicePlan, n: int) -> Seq<int>
    decreases n,
{
    if n <= 0 {
        Seq::empty()
    } else if p.selects(n - 1) {
        kept_positions(p, n - 1)
    } else {
        kept_positions(p, n - 1).push(n - 1)
    }
}

/// Stepped deletion removes exactly the selected positions and keeps the
/// others in their original order: the `k`-th element left is the element
/// at the `k`-th unselected position, the positions ascend, and every
/// unselected position is among them.
pub proof fn lemma_deleted_positions<T>(s: Seq<T>, p: SlicePlan)
    ensures
        ({
            let idx = kept_positions(p, s.len() as int);
            &&& idx.len() == deleted(s, p).len()
            &&& forall|k: int|
                0 <= k < idx.len() ==> 0 <= #[trigger] idx[k] < s.len() && !p.selects(idx[k])
                    && deleted(s, p)[k] == s[idx[k]]
            &&& forall|k1: int, k2: int| 0 <= k1 < k2 < idx.len() ==> idx[k1] < idx[k2]
            &&& forall|j: int| 0 <= j < s.len() && !p.selects(j) ==> idx.contains(j)
        }),
{
    lemma_kept_positions(s, p, s.len() as int);
}

proof fn lemma_kept_positions<T>(s: Seq<T>, p: SlicePlan, n: int)
    requires
        n <= s.len(),
    ensures
        ({
            let idx = kept_positions(p, n);
            let kk = kept(s, p, 0, n);
            &&& idx.len() == kk.len()
            &&& forall|k: int|
                0 <= k < idx.len() ==> 0 <= #[trigger] idx[k] < n && !p.selects(idx[k]) && kk[k]
                    == s[idx[k]]
            &&& forall|k1: int, k2: int| 0 <= k1 < k2 < idx.len() ==> idx[k1] < idx[k2]
            &&& forall|j: int| 0 <= j < n && !p.selects(j) ==> idx.contains(j)
        }),
    decreases n,
{
    if n > 0 {
        lemma_kept_positions(s, p, n - 1);
        let prev = kept_positions(p, n - 1);
        let idx = kept_positions(p, n);
        if !p.selects(n - 1) {
            assert(idx[idx.len() - 1] == n - 1);
            assert forall|j: int| 0 <= j < n && !p.selects(j) implies idx.contains(j) by {
                if j == n - 1 {
                    assert(idx[idx.len() - 1] == j);
                } else {
                    assert(prev.contains(j));
                    let k = choose|k: int| 0 <= k < prev.len() && prev[k] == j;
                    assert(idx[k] == j);
                }
            }
        } else {
            assert forall|j: int| 0 <= j < n && !p.selects(j) implies idx.contains(j) by {
                assert(prev.contains(j));
            }
        }
    }
}

} // verus!
