use mark_bitmap::bitmap::{alloc_bitmap, free_bitmap, get_bit, set_bit, Bitmap, WORD_SIZE};
use mark_bitmap::scan::{iter_bits, iter_unset_bits};

fn set_bits(bm: &Bitmap) -> Vec<u32> {
    let mut it = iter_bits(bm);
    let mut out = Vec::new();
    while let Some(i) = it.next() {
        out.push(i);
    }
    out
}

fn unset_bits(bm: &Bitmap) -> Vec<u32> {
    let mut it = iter_unset_bits(bm);
    let mut out = Vec::new();
    while let Some(i) = it.next() {
        out.push(i);
    }
    out
}

fn allocated(heap_size: u32) -> Bitmap {
    let mut bm = Bitmap::new();
    alloc_bitmap(&mut bm, heap_size);
    bm
}

#[test]
fn fresh_bitmap_reads_all_false() {
    for heap_size in [4u32, 100, 128, 256, 1000, 4096] {
        let bm = allocated(heap_size);
        for i in 0..bm.capacity() {
            assert!(!get_bit(&bm, i));
        }
    }
}

#[test]
fn capacity_rounds_up_to_whole_words() {
    assert_eq!(WORD_SIZE, 4);
    assert_eq!(allocated(0).capacity(), 0);
    assert_eq!(allocated(1).capacity(), 64);
    assert_eq!(allocated(5).capacity(), 64);
    assert_eq!(allocated(128).capacity(), 64);
    assert_eq!(allocated(256).capacity(), 64);
    assert_eq!(allocated(260).capacity(), 128);
    assert_eq!(allocated(1028).capacity(), 320);
    assert_eq!(Bitmap::new().capacity(), 0);
}

#[test]
fn set_then_get_changes_only_that_bit() {
    let mut bm = allocated(512);
    set_bit(&mut bm, 37);
    for i in 0..bm.capacity() {
        assert_eq!(get_bit(&bm, i), i == 37);
    }
    set_bit(&mut bm, 100);
    for i in 0..bm.capacity() {
        assert_eq!(get_bit(&bm, i), i == 37 || i == 100);
    }
}

#[test]
fn set_bit_twice_is_same_as_once() {
    let mut once = allocated(512);
    let mut twice = allocated(512);
    set_bit(&mut once, 9);
    set_bit(&mut twice, 9);
    set_bit(&mut twice, 9);
    for i in 0..once.capacity() {
        assert_eq!(get_bit(&once, i), get_bit(&twice, i));
    }
    assert_eq!(set_bits(&once), set_bits(&twice));
    assert_eq!(unset_bits(&once), unset_bits(&twice));
}

#[test]
fn set_scan_yields_exactly_the_set_bits() {
    let mut bm = allocated(4 * 320);
    let marked = [0u32, 1, 2, 7, 8, 63, 64, 65, 130, 191, 192, 255, 256, 319];
    for &i in marked.iter().rev() {
        set_bit(&mut bm, i);
    }
    assert_eq!(set_bits(&bm), marked.to_vec());
}

#[test]
fn scans_partition_all_indices() {
    let mut bm = allocated(4 * 256);
    let mut i = 0u32;
    while i < 256 {
        set_bit(&mut bm, i);
        i += (i % 7) + 1;
    }
    for i in 120..136 {
        set_bit(&mut bm, i);
    }
    let set = set_bits(&bm);
    let unset = unset_bits(&bm);
    assert_eq!(set.len() + unset.len(), 256);
    let mut merged: Vec<u32> = set.iter().chain(unset.iter()).copied().collect();
    merged.sort();
    assert_eq!(merged, (0..256).collect::<Vec<u32>>());
    assert!(set.windows(2).all(|w| w[0] < w[1]));
    assert!(unset.windows(2).all(|w| w[0] < w[1]));
    for &i in &set {
        assert!(get_bit(&bm, i));
    }
    for &i in &unset {
        assert!(!get_bit(&bm, i));
    }
}

#[test]
fn zero_heap_scans_are_empty() {
    let bm = allocated(0);
    assert_eq!(bm.capacity(), 0);
    assert!(iter_bits(&bm).next().is_none());
    assert!(iter_unset_bits(&bm).next().is_none());
}

#[test]
fn word_boundary_bits_round_trip() {
    let mut bm = allocated(4 * 192);
    for i in [63u32, 64, 127, 128] {
        set_bit(&mut bm, i);
    }
    for i in 0..bm.capacity() {
        assert_eq!(get_bit(&bm, i), i == 63 || i == 64 || i == 127 || i == 128);
    }
    assert_eq!(set_bits(&bm), vec![63, 64, 127, 128]);
    let unset = unset_bits(&bm);
    assert_eq!(unset.len(), 188);
    assert_eq!(&unset[60..64], &[60, 61, 62, 65]);
    assert_eq!(&unset[122..126], &[124, 125, 126, 129]);
}

#[test]
fn thirty_two_word_heap_scenario() {
    let mut bm = allocated(32 * 4);
    assert_eq!(bm.capacity(), 64);
    set_bit(&mut bm, 0);
    set_bit(&mut bm, 5);
    set_bit(&mut bm, 31);
    assert_eq!(set_bits(&bm), vec![0, 5, 31]);
    let unset = unset_bits(&bm);
    let in_heap: Vec<u32> = unset.iter().copied().filter(|&i| i < 32).collect();
    let expected: Vec<u32> = (0..32).filter(|&i| i != 0 && i != 5 && i != 31).collect();
    assert_eq!(in_heap.len(), 29);
    assert_eq!(in_heap, expected);
    assert_eq!(unset.len(), 61);
    assert_eq!(&unset[29..], (32..64).collect::<Vec<u32>>().as_slice());
}

#[test]
fn free_then_alloc_starts_clear() {
    let mut bm = allocated(1024);
    for i in [0u32, 3, 64, 200, 255] {
        set_bit(&mut bm, i);
    }
    free_bitmap(&mut bm);
    assert_eq!(bm.capacity(), 0);
    alloc_bitmap(&mut bm, 1024);
    for i in 0..bm.capacity() {
        assert!(!get_bit(&bm, i));
    }
    assert!(set_bits(&bm).is_empty());
    assert_eq!(unset_bits(&bm), (0..256).collect::<Vec<u32>>());
}

#[test]
fn alloc_replaces_live_storage() {
    let mut bm = allocated(256);
    set_bit(&mut bm, 10);
    alloc_bitmap(&mut bm, 512);
    assert_eq!(bm.capacity(), 128);
    assert!(!get_bit(&bm, 10));
    assert!(set_bits(&bm).is_empty());
}

#[test]
fn padding_bits_are_addressable() {
    let mut bm = allocated(32 * 4);
    set_bit(&mut bm, 63);
    assert!(get_bit(&bm, 63));
    assert_eq!(set_bits(&bm), vec![63]);
    assert_eq!(unset_bits(&bm), (0..63).collect::<Vec<u32>>());
}

#[test]
fn full_word_scans() {
    let mut bm = allocated(4 * 128);
    for i in 0..64 {
        set_bit(&mut bm, i);
    }
    assert_eq!(set_bits(&bm), (0..64).collect::<Vec<u32>>());
    assert_eq!(unset_bits(&bm), (64..128).collect::<Vec<u32>>());
}

#[test]
fn high_bit_of_word_alone_is_found() {
    let mut bm = allocated(4 * 128);
    for i in 0..128 {
        if i != 63 && i != 127 {
            set_bit(&mut bm, i);
        }
    }
    assert_eq!(unset_bits(&bm), vec![63, 127]);
    let mut it = iter_bits(&bm);
    let mut n = 0;
    while let Some(i) = it.next() {
        assert!(i != 63 && i != 127);
        n += 1;
    }
    assert_eq!(n, 126);
    assert!(it.next().is_none());
}
