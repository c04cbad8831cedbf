use wikimisc::disk_free::DiskFree;
use wikimisc::disk_free::PositionLength;

#[test]
fn test_disk_free_add() {
    let mut df = DiskFree::new();
    df.add(PositionLength::new(50, 10));
    df.add(PositionLength::new(10, 10));
    df.add(PositionLength::new(30, 10));
    assert_eq!(df.len(), 3);
}

#[test]
fn test_disk_free_find_free() {
    let mut df = DiskFree::new();
    df.add(PositionLength::new(50, 40));
    df.add(PositionLength::new(10, 10));
    df.add(PositionLength::new(30, 15));
    assert_eq!(df.find_free(41), None);
    assert_eq!(df.find_free(40), Some(50));
    assert_eq!(df.find_free(16), None);
    assert_eq!(df.find_free(15), Some(30));
    assert_eq!(df.find_free(11), None);
    assert_eq!(df.find_free(10), Some(10));
    assert_eq!(df.find_free(1), None);
}

#[test]
fn test_disk_free_join_adjacent() {
    let mut df = DiskFree::new();
    df.add(PositionLength::new(20, 40));
    df.add(PositionLength::new(10, 10));
    assert_eq!(df.len(), 1);
    assert_eq!(df.extent(0).position(), 10);
    assert_eq!(df.extent(0).length(), 50);
}

#[test]
fn test_disk_free_join_adjacent2() {
    let mut df = DiskFree::new();
    df.add(PositionLength::new(10, 10));
    df.add(PositionLength::new(20, 40));
    assert_eq!(df.len(), 1);
    assert_eq!(df.extent(0).position(), 10);
    assert_eq!(df.extent(0).length(), 50);
}

#[test]
fn test_coalesce_bridge_after_sides() {
    let mut df = DiskFree::new();
    df.add(PositionLength::new(0, 10));
    df.add(PositionLength::new(20, 10));
    df.add(PositionLength::new(10, 10));
    assert_eq!(df.len(), 1);
    assert_eq!(df.extent(0).position(), 0);
    assert_eq!(df.extent(0).length(), 30);
}

#[test]
fn test_coalesce_bridge_other_order() {
    let mut df = DiskFree::new();
    df.add(PositionLength::new(20, 10));
    df.add(PositionLength::new(0, 10));
    df.add(PositionLength::new(10, 10));
    assert_eq!(df.len(), 1);
    assert_eq!(df.extent(0).position(), 0);
    assert_eq!(df.extent(0).length(), 30);
}

#[test]
fn test_coalesce_ascending_releases() {
    let mut df = DiskFree::new();
    df.add(PositionLength::new(0, 10));
    df.add(PositionLength::new(10, 10));
    df.add(PositionLength::new(20, 10));
    assert_eq!(df.len(), 1);
    assert_eq!(df.extent(0).position(), 0);
    assert_eq!(df.extent(0).length(), 30);
}

#[test]
fn test_exact_fit_preferred() {
    let mut df = DiskFree::new();
    df.add(PositionLength::new(100, 10));
    df.add(PositionLength::new(200, 15));
    assert_eq!(df.find_free(10), Some(100));
    assert_eq!(df.len(), 1);
    assert_eq!(df.extent(0).position(), 200);
    assert_eq!(df.extent(0).length(), 15);
}

#[test]
fn test_first_fit_fallback() {
    let mut df = DiskFree::new();
    df.add(PositionLength::new(100, 15));
    assert_eq!(df.find_free(7), Some(100));
    assert_eq!(df.len(), 1);
    assert_eq!(df.extent(0).position(), 107);
    assert_eq!(df.extent(0).length(), 8);
}
