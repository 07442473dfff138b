use palpo::compressed::CompressedStateEvent;
use palpo::delta::{frame_info_on, merge_into_parent, state_change_for_entry, state_diff};
use palpo::state_set::CompressedState;

fn set(entries: &[(i64, i64)]) -> CompressedState {
    let mut s = CompressedState::new();
    for &(f, p) in entries {
        s.insert(CompressedStateEvent::new(f, p));
    }
    s
}

fn sorted(s: &CompressedState) -> Vec<(i64, i64)> {
    let mut v: Vec<(i64, i64)> = s.entries().iter().map(|e| (e.field_id(), e.point_id())).collect();
    v.sort();
    v
}

#[test]
fn compressed_event_bytes_roundtrip() {
    let e = CompressedStateEvent::new(7, -3);
    let b = e.as_bytes();
    assert_eq!(b.len(), 16);
    assert_eq!(&b[..8], &7i64.to_be_bytes());
    assert_eq!(&b[8..], &(-3i64).to_be_bytes());
    let back = CompressedStateEvent::from_bytes(&b).unwrap();
    assert_eq!(back.field_id(), 7);
    assert_eq!(back.point_id(), -3);
    assert!(e.starts_with_field(7));
    assert!(!e.starts_with_field(8));
    assert!(CompressedStateEvent::from_bytes(&b[..15]).is_none());
}

#[test]
fn state_set_keeps_each_entry_once() {
    let mut s = CompressedState::new();
    assert!(s.insert(CompressedStateEvent::new(1, 1)));
    assert!(!s.insert(CompressedStateEvent::new(1, 1)));
    assert!(s.insert(CompressedStateEvent::new(1, 2)));
    assert_eq!(s.len(), 2);
    assert!(s.remove(&CompressedStateEvent::new(1, 1)));
    assert!(!s.remove(&CompressedStateEvent::new(1, 1)));
    assert_eq!(sorted(&s), vec![(1, 2)]);
}

#[test]
fn difference_and_extend() {
    let a = set(&[(1, 1), (2, 2), (3, 3)]);
    let b = set(&[(2, 2), (4, 4)]);
    assert_eq!(sorted(&a.difference(&b)), vec![(1, 1), (3, 3)]);
    let mut c = a.duplicate();
    c.extend(&b);
    assert_eq!(sorted(&c), vec![(1, 1), (2, 2), (3, 3), (4, 4)]);
}

#[test]
fn diff_then_reload_gives_new_state() {
    let parent = set(&[(1, 10), (2, 20), (3, 30)]);
    let new_state = set(&[(1, 10), (2, 21), (4, 40)]);
    let (appended, disposed) = state_diff(Some(&parent), new_state.duplicate());
    assert_eq!(sorted(&appended), vec![(2, 21), (4, 40)]);
    assert_eq!(sorted(&disposed), vec![(2, 20), (3, 30)]);
    let parent_frame = frame_info_on(None, 1, parent.duplicate(), CompressedState::new());
    let child = frame_info_on(Some(&parent_frame), 2, appended, disposed);
    assert_eq!(sorted(&child.full_state), sorted(&new_state));
}

#[test]
fn diff_without_parent_appends_everything() {
    let new_state = set(&[(5, 50)]);
    let (appended, disposed) = state_diff(None, new_state.duplicate());
    assert_eq!(sorted(&appended), vec![(5, 50)]);
    assert_eq!(disposed.len(), 0);
}

#[test]
fn merging_cancels_opposite_changes() {
    let pa = set(&[(1, 1)]);
    let pd = set(&[(2, 2)]);
    let a = set(&[(2, 2), (3, 3)]);
    let d = set(&[(1, 1), (4, 4)]);
    let (na, nd) = merge_into_parent(&pa, &pd, &a, &d);
    assert_eq!(sorted(&na), vec![(3, 3)]);
    assert_eq!(sorted(&nd), vec![(4, 4)]);
}

#[test]
fn change_for_one_entry() {
    let parent = set(&[(1, 10), (2, 20)]);
    let (a, d) = state_change_for_entry(Some(&parent), CompressedStateEvent::new(1, 11)).unwrap();
    assert_eq!(sorted(&a), vec![(1, 11)]);
    assert_eq!(sorted(&d), vec![(1, 10)]);
    assert!(state_change_for_entry(Some(&parent), CompressedStateEvent::new(2, 20)).is_none());
    let (a, d) = state_change_for_entry(Some(&parent), CompressedStateEvent::new(3, 30)).unwrap();
    assert_eq!(sorted(&a), vec![(3, 30)]);
    assert_eq!(d.len(), 0);
}

#[test]
fn entries_come_in_stored_byte_order() {
    let s = set(&[(5, 1), (-1, 0), (2, 9), (2, 3), (0, -7), (5, 0)]);
    let got: Vec<(i64, i64)> = s.entries().iter().map(|e| (e.field_id(), e.point_id())).collect();
    assert_eq!(got, vec![(0, -7), (2, 3), (2, 9), (5, 0), (5, 1), (-1, 0)]);
    let bytes: Vec<Vec<u8>> = s.entries().iter().map(|e| e.as_bytes()).collect();
    let mut sorted_bytes = bytes.clone();
    sorted_bytes.sort();
    assert_eq!(bytes, sorted_bytes);
}
