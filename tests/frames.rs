use physmem::bitmap::Bitmap;
use physmem::pm::PhysicalMemory;

fn all_free(capacity: usize) -> PhysicalMemory {
    PhysicalMemory::new(Bitmap::new(capacity), capacity)
}

fn used_count(pm: &PhysicalMemory) -> usize {
    (0..pm.capacity()).filter(|&i| pm.is_used(i)).count()
}

#[test]
fn sixteen_frame_scenario() {
    let mut pm = all_free(16);
    pm.mark_used(0, 16);
    assert_eq!(pm.free(), 0);
    pm.mark_free(4, 4);
    assert_eq!(pm.free(), 4);
    assert_eq!(pm.find_free(4), Some(4));
    assert_eq!(pm.find_free(5), None);
    pm.mark_used(4, 4);
    assert_eq!(pm.free(), 0);
    assert_eq!(pm.find_free(1), None);
}

#[test]
fn large_map_scenario() {
    let mut pm = all_free(1024);
    pm.mark_used(0, 1024);
    pm.mark_free(100, 100);
    assert_eq!(pm.free(), 100);
    assert_eq!(pm.find_free(50), Some(100));
    pm.mark_used(100, 50);
    assert_eq!(pm.find_free(50), Some(150));
    assert_eq!(pm.free(), 50);
    assert_eq!(pm.find_free(51), None);
}

#[test]
fn free_count_tracks_bits_after_every_call() {
    let mut pm = all_free(200);
    let ops: [(bool, usize, usize); 6] = [
        (true, 0, 64),
        (true, 70, 30),
        (false, 10, 20),
        (true, 150, 50),
        (false, 60, 20),
        (false, 0, 200),
    ];
    for (used, start, count) in ops {
        if used {
            pm.mark_used(start, count);
        } else {
            pm.mark_free(start, count);
        }
        assert_eq!(pm.free(), pm.capacity() - used_count(&pm));
    }
    assert_eq!(pm.free(), 200);
}

#[test]
fn overlapping_marks_keep_the_count_exact() {
    let mut pm = all_free(32);
    pm.mark_used(0, 10);
    pm.mark_used(5, 10);
    assert_eq!(pm.free(), 17);
    pm.mark_free(12, 20);
    pm.mark_free(12, 20);
    assert_eq!(pm.free(), 20);
}

#[test]
fn found_range_is_free() {
    let mut pm = all_free(300);
    pm.mark_used(0, 70);
    pm.mark_used(75, 100);
    pm.mark_used(180, 3);
    let start = pm.find_free(5).unwrap();
    assert_eq!(start, 70);
    for i in start..start + 5 {
        assert!(!pm.is_used(i));
    }
    let start = pm.find_free(6).unwrap();
    assert_eq!(start, 183);
    for i in start..start + 6 {
        assert!(!pm.is_used(i));
    }
}

#[test]
fn use_then_free_round_trip() {
    let mut pm = all_free(128);
    pm.mark_used(0, 40);
    let before = pm.free();
    assert_eq!(pm.find_free(10), Some(40));
    pm.mark_used(40, 10);
    assert_eq!(pm.find_free(10), Some(50));
    pm.mark_free(40, 10);
    assert_eq!(pm.free(), before);
    assert_eq!(pm.find_free(10), Some(40));
}

#[test]
fn boundary_counts() {
    let mut pm = all_free(16);
    assert_eq!(pm.find_free(0), Some(0));
    assert_eq!(pm.find_free(16), Some(0));
    assert_eq!(pm.find_free(17), None);
    pm.mark_used(0, 16);
    assert_eq!(pm.find_free(0), Some(0));
    assert_eq!(pm.find_free(17), None);
}

#[test]
fn exhaustion() {
    let mut pm = all_free(100);
    pm.mark_used(0, 100);
    assert_eq!(pm.free(), 0);
    assert_eq!(pm.find_free(1), None);
}

#[test]
fn fragmentation_gives_none_despite_free_count() {
    let mut pm = all_free(20);
    pm.mark_used(3, 1);
    pm.mark_used(8, 1);
    pm.mark_used(13, 1);
    pm.mark_used(18, 1);
    assert_eq!(pm.free(), 16);
    assert_eq!(pm.find_free(5), None);
    assert_eq!(pm.find_free(4), Some(4));
}

#[test]
fn placeholder_is_empty() {
    let mut pm = PhysicalMemory::empty();
    assert_eq!(pm.capacity(), 0);
    assert_eq!(pm.free(), 0);
    assert_eq!(pm.find_free(0), Some(0));
    assert_eq!(pm.find_free(1), None);
    pm.mark_used(0, 0);
    pm.mark_free(0, 0);
    assert_eq!(pm.free(), 0);
}

#[test]
fn memory_map_seeding() {
    let usable = vec![(10, 20), (40, 10)];
    let reserved = vec![(15, 5), (45, 1)];
    let mut pm = PhysicalMemory::from_memory_map(64, &usable, &reserved).unwrap();
    assert_eq!(pm.capacity(), 64);
    assert_eq!(pm.free(), 20 + 10 - 5 - 1);
    for i in 0..64 {
        let free = (10..15).contains(&i)
            || (20..30).contains(&i)
            || (40..45).contains(&i)
            || (46..50).contains(&i);
        assert_eq!(pm.is_used(i), !free, "frame {}", i);
    }
    assert_eq!(pm.find_free(6), Some(20));
    assert_eq!(pm.find_free(11), None);
}

#[test]
fn memory_map_out_of_range_is_refused() {
    assert!(PhysicalMemory::from_memory_map(64, &vec![(60, 5)], &vec![]).is_none());
    assert!(PhysicalMemory::from_memory_map(64, &vec![], &vec![(1, usize::MAX)]).is_none());
    assert!(PhysicalMemory::from_memory_map(64, &vec![(0, 64)], &vec![(64, 0)]).is_some());
}
