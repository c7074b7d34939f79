use physmem::bitmap::Bitmap;

#[test]
fn new_bitmap_is_clear() {
    let b = Bitmap::new(130);
    assert_eq!(b.len(), 130);
    for i in 0..130 {
        assert!(!b.get(i));
    }
    assert_eq!(Bitmap::empty().len(), 0);
}

#[test]
fn set_ones_across_words() {
    let mut b = Bitmap::new(200);
    assert_eq!(b.set_ones(60, 140), 80);
    for i in 0..200 {
        assert_eq!(b.get(i), (60..140).contains(&i), "bit {}", i);
    }
    assert_eq!(b.set_ones(50, 70), 10);
    assert_eq!(b.set_zeros(64, 128), 64);
    for i in 0..200 {
        let set = (50..64).contains(&i) || (128..140).contains(&i);
        assert_eq!(b.get(i), set, "bit {}", i);
    }
    assert_eq!(b.set_zeros(0, 200), 26);
    assert_eq!(b.set_ones(7, 7), 0);
}

#[test]
fn consecutive_zeros_walks_runs_in_order() {
    let mut b = Bitmap::new(100);
    b.set_ones(3, 4);
    b.set_ones(10, 90);
    assert_eq!(b.consecutive_zeros(3, 0), Some(0));
    assert_eq!(b.consecutive_zeros(3, 1), Some(4));
    assert_eq!(b.consecutive_zeros(3, 5), Some(5));
    assert_eq!(b.consecutive_zeros(3, 8), Some(90));
    assert_eq!(b.consecutive_zeros(10, 0), Some(90));
    assert_eq!(b.consecutive_zeros(11, 0), None);
    assert_eq!(b.consecutive_zeros(0, 100), Some(100));
    assert_eq!(b.consecutive_zeros(0, 101), None);
}

#[test]
fn whole_word_runs() {
    let mut b = Bitmap::new(640);
    assert_eq!(b.set_ones(0, 640), 640);
    assert_eq!(b.set_ones(0, 640), 0);
    assert_eq!(b.set_zeros(130, 400), 270);
    assert_eq!(b.consecutive_zeros(200, 0), Some(130));
    assert_eq!(b.consecutive_zeros(270, 0), Some(130));
    assert_eq!(b.consecutive_zeros(271, 0), None);
    assert_eq!(b.consecutive_zeros(70, 140), Some(140));
    b.set_ones(200, 201);
    assert_eq!(b.consecutive_zeros(100, 0), Some(201));
    assert_eq!(b.consecutive_zeros(199, 0), Some(201));
    assert_eq!(b.consecutive_zeros(200, 0), None);
    for i in 0..640 {
        let clear = (130..200).contains(&i) || (201..400).contains(&i);
        assert_eq!(b.get(i), !clear, "bit {}", i);
    }
}
