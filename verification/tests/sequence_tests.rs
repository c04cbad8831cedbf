use wikimisc::errors::StoreError;
use wikimisc::file_vec::FileVec;

fn s(t: &str) -> String {
    t.to_string()
}

#[test]
fn test_reverse() {
    let mut file_vec: FileVec<String> = FileVec::new();
    file_vec.push(s("a")).unwrap();
    file_vec.push(s("b")).unwrap();
    file_vec.push(s("c")).unwrap();
    file_vec.reverse().unwrap();
    assert_eq!(file_vec.len(), 3);
    assert_eq!(file_vec.get(0).unwrap(), "c");
    assert_eq!(file_vec.get(1).unwrap(), "b");
    assert_eq!(file_vec.get(2).unwrap(), "a");
}

#[test]
fn test_sort_by_empty() {
    let mut file_vec: FileVec<String> = FileVec::new();
    file_vec.sort_by(|a: &String, b: &String| a.cmp(b)).unwrap();
}

#[test]
fn test_sort_by_single() {
    let mut file_vec: FileVec<String> = FileVec::new();
    file_vec.push(s("a")).unwrap();
    file_vec.sort_by(|a: &String, b: &String| a.cmp(b)).unwrap();
}

#[test]
fn test_sort_by_two() {
    let mut file_vec: FileVec<String> = FileVec::new();
    file_vec.push(s("a")).unwrap();
    file_vec.push(s("b")).unwrap();
    file_vec.sort_by(|a: &String, b: &String| a.cmp(b)).unwrap();
}

#[test]
fn test_sort_by() {
    let mut file_vec: FileVec<String> = FileVec::new();
    file_vec.push(s("c")).unwrap();
    file_vec.push(s("b")).unwrap();
    file_vec.push(s("a")).unwrap();
    file_vec.sort_by(|a: &String, b: &String| a.cmp(b)).unwrap();
    assert_eq!(file_vec.len(), 3);
    assert_eq!(file_vec.get(0).unwrap(), "a");
    assert_eq!(file_vec.get(1).unwrap(), "b");
    assert_eq!(file_vec.get(2).unwrap(), "c");
}

#[test]
fn test_clear() {
    let mut file_vec: FileVec<String> = FileVec::new();
    file_vec.push(s("a")).unwrap();
    file_vec.push(s("b")).unwrap();
    file_vec.push(s("c")).unwrap();
    file_vec.clear().unwrap();
    assert_eq!(file_vec.len(), 0);
}

#[test]
fn test_file_vec_push() {
    let mut file_vec: FileVec<String> = FileVec::new();
    file_vec.push(s("a")).unwrap();
    file_vec.push(s("b")).unwrap();
    file_vec.push(s("c")).unwrap();
    assert_eq!(file_vec.len(), 3);
    assert_eq!(file_vec.get(0).unwrap(), "a");
    assert_eq!(file_vec.get(1).unwrap(), "b");
    assert_eq!(file_vec.get(2).unwrap(), "c");
}

#[test]
fn test_set() {
    let mut file_vec: FileVec<String> = FileVec::new();
    file_vec.push(s("a")).unwrap();
    file_vec.push(s("b")).unwrap();
    file_vec.push(s("c")).unwrap();
    file_vec.set(1, s("d")).unwrap();
    assert_eq!(file_vec.len(), 3);
    assert_eq!(file_vec.get(0).unwrap(), "a");
    assert_eq!(file_vec.get(1).unwrap(), "d");
    assert_eq!(file_vec.get(2).unwrap(), "c");
}

#[test]
fn test_get() {
    let mut file_vec: FileVec<String> = FileVec::new();
    file_vec.push(s("a")).unwrap();
    file_vec.push(s("b")).unwrap();
    file_vec.push(s("c")).unwrap();
    assert_eq!(file_vec.get(0).unwrap(), "a");
    assert_eq!(file_vec.get(1).unwrap(), "b");
    assert_eq!(file_vec.get(2).unwrap(), "c");
}

#[test]
fn file_vec_test_is_empty() {
    let mut file_vec: FileVec<String> = FileVec::new();
    assert!(file_vec.is_empty());
    file_vec.push(s("a")).unwrap();
    assert!(!file_vec.is_empty());
}

#[test]
fn test_len() {
    let mut file_vec: FileVec<String> = FileVec::new();
    assert_eq!(file_vec.len(), 0);
    file_vec.push(s("a")).unwrap();
    assert_eq!(file_vec.len(), 1);
}

#[test]
fn test_remove() {
    let mut file_vec: FileVec<String> = FileVec::new();
    file_vec.push(s("a")).unwrap();
    file_vec.push(s("b")).unwrap();
    file_vec.push(s("c")).unwrap();
    file_vec.remove(1);
    assert_eq!(file_vec.len(), 2);
    assert_eq!(file_vec.get(0).unwrap(), "a");
    assert_eq!(file_vec.get(1).unwrap(), "c");
}

#[test]
fn test_remove_last() {
    let mut file_vec: FileVec<String> = FileVec::new();
    file_vec.push(s("a")).unwrap();
    file_vec.push(s("b")).unwrap();
    file_vec.push(s("c")).unwrap();
    file_vec.remove(2);
    assert_eq!(file_vec.len(), 2);
    assert_eq!(file_vec.get(0).unwrap(), "a");
    assert_eq!(file_vec.get(1).unwrap(), "b");
}

#[test]
fn test_remove_out_of_bounds() {
    let mut file_vec: FileVec<String> = FileVec::new();
    file_vec.push(s("a")).unwrap();
    file_vec.push(s("b")).unwrap();
    file_vec.push(s("c")).unwrap();
    assert_eq!(file_vec.remove(3), None);
}

#[test]
fn test_swap() {
    let mut file_vec: FileVec<String> = FileVec::new();
    file_vec.push(s("a")).unwrap();
    file_vec.push(s("b")).unwrap();
    file_vec.push(s("c")).unwrap();
    file_vec.swap(0, 2).unwrap();
    assert_eq!(file_vec.len(), 3);
    assert_eq!(file_vec.get(0).unwrap(), "c");
    assert_eq!(file_vec.get(1).unwrap(), "b");
    assert_eq!(file_vec.get(2).unwrap(), "a");
}

#[test]
fn test_swap_out_of_bounds() {
    let mut file_vec: FileVec<String> = FileVec::new();
    assert!(file_vec.swap(0, 2).is_err());
}

#[test]
fn test_swap_same_index() {
    let mut file_vec: FileVec<String> = FileVec::new();
    file_vec.push(s("a")).unwrap();
    file_vec.push(s("b")).unwrap();
    file_vec.push(s("c")).unwrap();
    file_vec.swap(0, 0).unwrap();
    assert_eq!(file_vec.len(), 3);
    assert_eq!(file_vec.get(0).unwrap(), "a");
    assert_eq!(file_vec.get(1).unwrap(), "b");
    assert_eq!(file_vec.get(2).unwrap(), "c");
}

#[test]
fn test_swap_same_index_out_of_bounds() {
    let mut file_vec: FileVec<String> = FileVec::new();
    assert!(file_vec.swap(0, 5).is_err());
}

#[test]
fn test_pop() {
    let mut file_vec: FileVec<String> = FileVec::new();
    file_vec.push(s("a")).unwrap();
    file_vec.push(s("b")).unwrap();
    file_vec.push(s("c")).unwrap();
    assert_eq!(file_vec.pop().unwrap(), "c");
    assert_eq!(file_vec.len(), 2);
    assert_eq!(file_vec.pop().unwrap(), "b");
    assert_eq!(file_vec.len(), 1);
    assert_eq!(file_vec.pop().unwrap(), "a");
    assert_eq!(file_vec.len(), 0);
}

#[test]
fn test_pop_empty() {
    let mut file_vec: FileVec<String> = FileVec::new();
    assert_eq!(file_vec.pop(), None);
}

#[test]
fn test_retain() {
    let mut file_vec: FileVec<String> = FileVec::new();
    file_vec.push(s("a")).unwrap();
    file_vec.push(s("b")).unwrap();
    file_vec.push(s("c")).unwrap();
    file_vec.retain(|x: &String| x.as_str() != "b");
    assert_eq!(file_vec.len(), 2);
    assert_eq!(file_vec.get(0).unwrap(), "a");
    assert_eq!(file_vec.get(1).unwrap(), "c");
}

#[test]
fn test_into_iter() {
    let mut file_vec: FileVec<String> = FileVec::new();
    file_vec.push(s("a")).unwrap();
    file_vec.push(s("b")).unwrap();
    file_vec.push(s("c")).unwrap();
    let mut iter = file_vec.to_vec().unwrap().into_iter();
    assert_eq!(iter.next().unwrap(), "a");
    assert_eq!(iter.next().unwrap(), "b");
    assert_eq!(iter.next().unwrap(), "c");
    assert_eq!(iter.next(), None);

    // the sequence can be walked again
    let mut iter = file_vec.to_vec().unwrap().into_iter();
    assert_eq!(iter.next().unwrap(), "a");
    assert_eq!(iter.next().unwrap(), "b");
    assert_eq!(iter.next().unwrap(), "c");
    assert_eq!(iter.next(), None);
}

#[test]
fn test_into_iter_empty() {
    let mut file_vec: FileVec<String> = FileVec::new();
    let mut iter = file_vec.to_vec().unwrap().into_iter();
    assert_eq!(iter.next(), None);
}

#[test]
fn test_into_iter_single() {
    let mut file_vec: FileVec<String> = FileVec::new();
    file_vec.push(s("a")).unwrap();
    let mut iter = file_vec.to_vec().unwrap().into_iter();
    assert_eq!(iter.next().unwrap(), "a");
    assert_eq!(iter.next(), None);
}

#[test]
fn test_into_iter_borrowed() {
    let mut file_vec: FileVec<String> = FileVec::new();
    file_vec.push(s("a")).unwrap();
    file_vec.push(s("b")).unwrap();
    file_vec.push(s("c")).unwrap();
    let mut iter = file_vec.to_vec().unwrap().into_iter();
    assert_eq!(iter.next().unwrap(), "a");
    assert_eq!(iter.next().unwrap(), "b");
    assert_eq!(iter.next().unwrap(), "c");
    assert_eq!(iter.next(), None);

    // the sequence can be walked again
    let mut iter = file_vec.to_vec().unwrap().into_iter();
    assert_eq!(iter.next().unwrap(), "a");
    assert_eq!(iter.next().unwrap(), "b");
    assert_eq!(iter.next().unwrap(), "c");
    assert_eq!(iter.next(), None);
}

#[test]
fn test_into_iter_borrowed_empty() {
    let mut file_vec: FileVec<String> = FileVec::new();
    let mut iter = file_vec.to_vec().unwrap().into_iter();
    assert_eq!(iter.next(), None);
}

#[test]
fn test_sequence_spills_to_disk() {
    let mut file_vec: FileVec<String> = FileVec::new();
    for i in 0..20 {
        file_vec.push(format!("row{}", i)).unwrap();
    }
    assert_eq!(file_vec.len(), 20);
    for i in 0..20 {
        assert_eq!(file_vec.get(i).unwrap(), format!("row{}", i));
    }
    file_vec.reverse().unwrap();
    assert_eq!(file_vec.get(0).unwrap(), "row19");
    assert_eq!(file_vec.get(19).unwrap(), "row0");
}

#[test]
fn test_set_out_of_bounds() {
    let mut file_vec: FileVec<String> = FileVec::new();
    file_vec.push(s("a")).unwrap();
    assert_eq!(file_vec.set(5, s("b")), Err(StoreError::OutOfBounds));
    assert_eq!(file_vec.get(0).unwrap(), "a");
}
