use pyseq::index::SliceDesc;
use pyseq::list::{Item, PyList, SeqError, SequenceIndex};
use pyseq::sort::SortError;

fn list(v: &[i64]) -> PyList<i64> {
    PyList::from_vec(v.to_vec())
}

fn items(l: &PyList<i64>) -> Vec<i64> {
    l.borrow_elements().clone()
}

fn desc(start: Option<isize>, stop: Option<isize>, step: Option<isize>) -> SliceDesc {
    SliceDesc { start, stop, step }
}

fn lt(a: i64, b: i64) -> Result<bool, ()> {
    Ok(a < b)
}

fn eq(a: i64, b: i64) -> Result<bool, ()> {
    Ok(a == b)
}

#[test]
fn negative_index_reads_from_back() {
    let l = list(&[10, 20, 30]);
    for i in 0..3isize {
        let front = l.getitem(SequenceIndex::Int(i)).unwrap();
        let back = l.getitem(SequenceIndex::Int(i - 3)).unwrap();
        match (front, back) {
            (Item::One(a), Item::One(b)) => assert_eq!(a, b),
            _ => panic!("expected single elements"),
        }
    }
    assert_eq!(l.getitem(SequenceIndex::Int(3)).unwrap_err(), SeqError::IndexOutOfRange);
    assert_eq!(l.getitem(SequenceIndex::Int(-4)).unwrap_err(), SeqError::IndexOutOfRange);
}

#[test]
fn slice_assign_then_read_back() {
    let mut l = list(&[1, 2, 3, 4]);
    l.setslice(&desc(Some(1), Some(3), None), vec![7, 8, 9]).unwrap();
    assert_eq!(items(&l), vec![1, 7, 8, 9, 4]);
    let back = l.get_slice(&desc(Some(1), Some(4), Some(1))).unwrap();
    assert_eq!(back, vec![7, 8, 9]);
}

#[test]
fn empty_range_assignment_inserts() {
    let mut l = list(&[1, 2, 3]);
    l.setslice(&desc(Some(2), Some(1), None), vec![5, 6]).unwrap();
    assert_eq!(items(&l), vec![1, 2, 5, 6, 3]);
}

#[test]
fn reverse_twice_restores() {
    let mut l = list(&[1, 2, 3, 4, 5]);
    l.reverse();
    assert_eq!(items(&l), vec![5, 4, 3, 2, 1]);
    l.reverse();
    assert_eq!(items(&l), vec![1, 2, 3, 4, 5]);
}

#[test]
fn stepped_assign_size_mismatch() {
    let mut l = list(&[0, 1, 2, 3, 4, 5]);
    let r = l.setslice(&desc(None, None, Some(2)), vec![9, 9]);
    assert_eq!(r, Err(SeqError::SizeMismatch { given: 2, slice: 3 }));
    assert_eq!(items(&l), vec![0, 1, 2, 3, 4, 5]);
    l.setslice(&desc(None, None, Some(2)), vec![7, 8, 9]).unwrap();
    assert_eq!(items(&l), vec![7, 1, 8, 3, 9, 5]);
    l.setslice(&desc(None, None, Some(-2)), vec![10, 11, 12]).unwrap();
    assert_eq!(items(&l), vec![7, 12, 8, 11, 9, 10]);
    let r = l.setslice(&desc(None, None, Some(-1)), vec![1]);
    assert_eq!(r, Err(SeqError::SizeMismatch { given: 1, slice: 6 }));
}

#[test]
fn zero_step_rejected() {
    let mut l = list(&[1, 2, 3]);
    assert_eq!(l.get_slice(&desc(None, None, Some(0))).unwrap_err(), SeqError::ZeroStep);
    assert_eq!(l.setslice(&desc(None, None, Some(0)), vec![]), Err(SeqError::ZeroStep));
    assert_eq!(l.delslice(&desc(None, None, Some(0))), Err(SeqError::ZeroStep));
}

#[test]
fn stepped_delete_keeps_order() {
    let mut l = list(&[0, 1, 2, 3, 4, 5, 6, 7, 8, 9]);
    l.delslice(&desc(Some(1), Some(8), Some(3))).unwrap();
    assert_eq!(items(&l), vec![0, 2, 3, 5, 6, 8, 9]);
    let mut l = list(&[0, 1, 2, 3, 4, 5, 6, 7, 8, 9]);
    l.delslice(&desc(None, None, Some(-3))).unwrap();
    assert_eq!(items(&l), vec![1, 2, 4, 5, 7, 8]);
    let mut l = list(&[0, 1, 2, 3, 4]);
    l.delslice(&desc(Some(1), Some(3), None)).unwrap();
    assert_eq!(items(&l), vec![0, 3, 4]);
    let mut l = list(&[0, 1, 2, 3, 4]);
    l.delslice(&desc(Some(3), Some(0), Some(-1))).unwrap();
    assert_eq!(items(&l), vec![0, 4]);
}

#[test]
fn sort_scenarios() {
    let mut l = list(&[3, 1, 2]);
    l.sort(false, &lt).unwrap();
    assert_eq!(items(&l), vec![1, 2, 3]);
    let mut l = list(&[1, 2, 3]);
    l.sort(true, &lt).unwrap();
    assert_eq!(items(&l), vec![3, 2, 1]);
}

#[test]
fn sort_by_key_length() {
    let mut l: PyList<&str> = PyList::from_vec(vec!["bb", "a", "ccc"]);
    fn key<'a>(store: Vec<&'a str>, s: &'a str) -> (Vec<&'a str>, Result<usize, ()>) {
        (store, Ok(s.len()))
    }
    let lt = |a: usize, b: usize| -> Result<bool, ()> { Ok(a < b) };
    l.sort_by_key(&key, false, &lt).unwrap();
    assert_eq!(l.borrow_elements().clone(), vec!["a", "bb", "ccc"]);
}

#[test]
fn sort_detects_mutation() {
    let mut l = list(&[2, 1]);
    let key = |store: Vec<i64>, x: i64| -> (Vec<i64>, Result<i64, ()>) {
        let mut store = store;
        store.push(x);
        (store, Ok(x))
    };
    let r = l.sort_by_key(&key, false, &lt);
    assert_eq!(r, Err(SortError::ModifiedDuringSort));
    assert_eq!(items(&l), vec![1, 2]);
}

#[test]
fn sort_comparator_failure_leaves_placeholder() {
    let mut l = list(&[2, 1, 3]);
    let bad = |_: i64, _: i64| -> Result<bool, &'static str> { Err("boom") };
    assert_eq!(l.sort(false, &bad), Err(SortError::Compare("boom")));
    assert_eq!(l.len(), 0);
}

#[test]
fn negative_index_delete_and_insert() {
    let mut l = list(&[1, 2, 3]);
    l.delitem(SequenceIndex::Int(-1)).unwrap();
    assert_eq!(items(&l), vec![1, 2]);
    let mut l = list(&[1, 2, 3]);
    l.insert(-1, 9);
    assert_eq!(items(&l), vec![1, 2, 9, 3]);
    l.insert(-100, 0);
    l.insert(100, 4);
    assert_eq!(items(&l), vec![0, 1, 2, 9, 3, 4]);
}

#[test]
fn reverse_step_slice() {
    let l = list(&[1, 2, 3]);
    assert_eq!(l.get_slice(&desc(None, None, Some(-1))).unwrap(), vec![3, 2, 1]);
    assert_eq!(l.get_slice(&desc(Some(2), Some(0), Some(-1))).unwrap(), vec![3, 2]);
    assert_eq!(l.get_slice(&desc(Some(-1), None, Some(-2))).unwrap(), vec![3, 1]);
    assert_eq!(l.get_slice(&desc(None, Some(-1), Some(-1))).unwrap(), Vec::<i64>::new());
}

#[test]
fn slices_clamp_out_of_range_bounds() {
    let l = list(&[1, 2, 3, 4]);
    assert_eq!(l.get_slice(&desc(Some(-100), Some(100), None)).unwrap(), vec![1, 2, 3, 4]);
    assert_eq!(l.get_slice(&desc(Some(isize::MIN), Some(isize::MAX), Some(isize::MAX))).unwrap(), vec![1]);
    assert_eq!(l.get_slice(&desc(None, None, Some(isize::MIN))).unwrap(), vec![4]);
}

#[test]
fn pop_and_errors() {
    let mut l = list(&[1, 2, 3]);
    assert_eq!(l.pop(None), Ok(3));
    assert_eq!(l.pop(Some(0)), Ok(1));
    assert_eq!(l.pop(Some(5)), Err(SeqError::IndexOutOfRange));
    assert_eq!(l.pop(Some(-1)), Ok(2));
    assert_eq!(l.pop(None), Err(SeqError::PopFromEmpty));
}

#[test]
fn lookups_by_equality() {
    let mut l = list(&[4, 5, 4, 6]);
    assert_eq!(l.count(4, &eq), Ok(2));
    assert_eq!(l.contains(6, &eq), Ok(true));
    assert_eq!(l.contains(7, &eq), Ok(false));
    assert_eq!(l.index(5, &eq), Ok(1));
    assert!(l.index(7, &eq).is_err());
    l.remove(4, &eq).unwrap();
    assert_eq!(items(&l), vec![5, 4, 6]);
}

#[test]
fn repetition_and_concatenation() {
    let l = list(&[1, 2]);
    assert_eq!(items(&l.mul(3).unwrap()), vec![1, 2, 1, 2, 1, 2]);
    assert_eq!(items(&l.mul(-1).unwrap()), Vec::<i64>::new());
    assert_eq!(items(&l.rmul(0).unwrap()), Vec::<i64>::new());
    let mut m = l.copy();
    m.imul(2).unwrap();
    assert_eq!(items(&m), vec![1, 2, 1, 2]);
    assert_eq!(items(&l.add(&m)), vec![1, 2, 1, 2, 1, 2]);
    let mut n = l.copy();
    assert!(n.iadd(Some(vec![3])));
    assert!(!n.iadd(None));
    assert_eq!(items(&n), vec![1, 2, 3]);
    assert_eq!(list(&[1, 2, 3]).mul(isize::MAX).unwrap_err(), SeqError::Overflow);
}

#[test]
fn list_comparisons() {
    let a = list(&[1, 2, 3]);
    let b = list(&[1, 2, 4]);
    let c = list(&[1, 2]);
    let le = |x: i64, y: i64| -> Result<bool, ()> { Ok(x <= y) };
    let gt = |x: i64, y: i64| -> Result<bool, ()> { Ok(x > y) };
    assert_eq!(a.eq(&a.copy(), &eq), Ok(true));
    assert_eq!(a.eq(&b, &eq), Ok(false));
    assert_eq!(a.ne(&c, &eq), Ok(true));
    assert_eq!(a.lt(&b, &eq, &lt), Ok(true));
    assert_eq!(c.lt(&a, &eq, &lt), Ok(true));
    assert_eq!(a.le(&a.copy(), &eq, &le), Ok(true));
    assert_eq!(b.gt(&a, &eq, &gt), Ok(true));
    assert_eq!(c.ge(&a, &eq, &le), Ok(false));
    assert_eq!(a.hash(), Err(SeqError::WrongType));
}

#[test]
fn cursors_observe_live_list() {
    let mut l = list(&[1, 2]);
    let mut it = l.iter();
    assert_eq!(it.next(&l), Some(1));
    l.append(3);
    assert_eq!(it.length_hint(&l), 2);
    assert_eq!(it.next(&l), Some(2));
    assert_eq!(it.next(&l), Some(3));
    assert_eq!(it.next(&l), None);
    let mut r = l.reversed();
    assert_eq!(r.length_hint(), 3);
    assert_eq!(r.next(&l), Some(3));
    assert_eq!(r.next(&l), Some(2));
    assert_eq!(r.next(&l), Some(1));
    assert_eq!(r.next(&l), None);
}

#[test]
fn item_assignment_and_deletion() {
    let mut l = list(&[1, 2, 3]);
    l.setitem(SequenceIndex::Int(-1), 9, None).unwrap();
    assert_eq!(items(&l), vec![1, 2, 9]);
    assert_eq!(l.setitem(SequenceIndex::Int(3), 0, None), Err(SeqError::IndexOutOfRange));
    assert_eq!(
        l.setitem(SequenceIndex::Slice(desc(None, None, None)), 0, None),
        Err(SeqError::WrongType)
    );
    l.setitem(SequenceIndex::Slice(desc(Some(0), Some(1), None)), 0, Some(vec![4, 5])).unwrap();
    assert_eq!(items(&l), vec![4, 5, 2, 9]);
    assert_eq!(l.delindex(7), Err(SeqError::IndexOutOfRange));
    l.delitem(SequenceIndex::Slice(desc(None, None, Some(2)))).unwrap();
    assert_eq!(items(&l), vec![5, 9]);
    l.extend(vec![1]);
    l.clear();
    assert!(!l.bool());
}

#[test]
fn bytes_from_integers() {
    let l = list(&[0, 65, 255]);
    let as_int = |x: i64| -> Option<i64> { Some(x) };
    assert_eq!(l.get_byte_inner(&as_int), Ok(vec![0u8, 65, 255]));
    let l = list(&[1, 256]);
    assert_eq!(l.get_byte_inner(&as_int), Err(SeqError::ByteOutOfRange));
    let not_int = |_: i64| -> Option<i64> { None };
    assert_eq!(l.get_byte_inner(&not_int), Err(SeqError::WrongType));
}

#[test]
fn sort_by_key_failure_leaves_store() {
    let mut l = list(&[3, 1, 2]);
    let key = |store: Vec<i64>, x: i64| -> (Vec<i64>, Result<i64, &'static str>) {
        let mut store = store;
        store.push(x * 10);
        if x == 1 {
            (store, Err("bad key"))
        } else {
            (store, Ok(x))
        }
    };
    let lt = |a: i64, b: i64| -> Result<bool, &'static str> { Ok(a < b) };
    assert_eq!(l.sort_by_key(&key, false, &lt), Err(SortError::Key("bad key")));
    assert_eq!(items(&l), vec![30, 10]);
}

#[test]
fn sort_by_key_reverse_untouched_store() {
    let mut l = list(&[1, 3, 2]);
    let key = |store: Vec<i64>, x: i64| -> (Vec<i64>, Result<i64, ()>) { (store, Ok(-x)) };
    l.sort_by_key(&key, true, &lt).unwrap();
    assert_eq!(items(&l), vec![1, 2, 3]);
}
