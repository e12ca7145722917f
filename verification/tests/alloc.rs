use bootgfx::memalloc::{free, malloc, malloc_lit, AllocError, MemAllocator};
use bootgfx::strutils::strcat;
use bootgfx::{get_num_string, max_ten_pow};

fn region_bytes(a: &MemAllocator, addr: usize, len: usize) -> Vec<u8> {
    let mut out = Vec::new();
    for i in 0..len {
        out.push(a.byte_at(addr + i));
    }
    out
}

#[test]
fn single_allocation_on_fresh_arena_succeeds() {
    for n in [1usize, 2, 3, 7, 8] {
        let mut a = MemAllocator::new(8);
        let addr = malloc(&mut a, n).expect("a fresh arena has room");
        assert_eq!(addr, 0);
        assert!(addr + n <= 8);
        for i in 0..8 {
            assert_eq!(a.occupied_at(i), i < n);
        }
    }
}

#[test]
fn sequential_allocations_are_disjoint() {
    let mut a = MemAllocator::new(64);
    let first = malloc(&mut a, 8).unwrap();
    let second = malloc(&mut a, 8).unwrap();
    assert!(first + 8 <= second || second + 8 <= first);
    assert_eq!(first, 0);
    assert_eq!(second, 8);
}

#[test]
fn allocate_on_full_arena_fails() {
    let mut a = MemAllocator::new(8);
    assert_eq!(malloc(&mut a, 8), Ok(0));
    for n in [1usize, 2, 5, 8] {
        assert_eq!(malloc(&mut a, n), Err(AllocError::OutOfMemory));
    }
}

#[test]
fn full_size_allocation_on_a_large_arena() {
    let mut a = MemAllocator::new(1 << 16);
    let addr = malloc(&mut a, 1 << 16).unwrap();
    assert_eq!(addr, 0);
    assert_eq!(malloc(&mut a, 1), Err(AllocError::OutOfMemory));
}

#[test]
fn oversized_request_is_out_of_memory() {
    let mut a = MemAllocator::new(8);
    assert_eq!(malloc(&mut a, 9), Err(AllocError::OutOfMemory));
}

#[test]
fn arena_of_eight_fills_in_two_blocks() {
    let mut a = MemAllocator::new(8);
    assert_eq!(malloc(&mut a, 4), Ok(0));
    assert_eq!(malloc(&mut a, 4), Ok(4));
    assert_eq!(malloc(&mut a, 1), Err(AllocError::OutOfMemory));
}

#[test]
fn stride_scan_skips_unaligned_free_run() {
    let mut a = MemAllocator::new(8);
    assert_eq!(malloc(&mut a, 2), Ok(0));
    assert_eq!(malloc(&mut a, 2), Ok(2));
    assert_eq!(free(&mut a, 0, 2), Ok(()));
    // bytes [0,2) and [4,8) are free, [2,4) occupied; the scan for 4 bytes
    // tests [0,4) (occupied at 2), then [4,8), and picks address 4.
    assert_eq!(malloc(&mut a, 4), Ok(4));
}

#[test]
fn under_release_leaks_the_tail_of_the_block() {
    let mut a = MemAllocator::new(8);
    assert_eq!(malloc(&mut a, 4), Ok(0));
    assert_eq!(free(&mut a, 0, 2), Ok(()));
    assert!(!a.occupied_at(0));
    assert!(!a.occupied_at(1));
    assert!(a.occupied_at(2));
    assert!(a.occupied_at(3));
}

#[test]
fn over_release_frees_a_live_neighbour() {
    let mut a = MemAllocator::new(8);
    assert_eq!(malloc(&mut a, 2), Ok(0));
    assert_eq!(malloc(&mut a, 2), Ok(2));
    assert_eq!(free(&mut a, 0, 4), Ok(()));
    for i in 0..4 {
        assert!(!a.occupied_at(i));
    }
    // the scan now hands out bytes still in use by the second allocation
    assert_eq!(malloc(&mut a, 4), Ok(0));
}

#[test]
fn release_outside_the_arena_is_invalid() {
    let mut a = MemAllocator::new(8);
    assert_eq!(free(&mut a, 8, 0), Err(AllocError::InvalidAddress));
    assert_eq!(free(&mut a, 100, 0), Err(AllocError::InvalidAddress));
}

#[test]
fn max_ten_pow_counts_digits() {
    assert_eq!(max_ten_pow(0), 1);
    assert_eq!(max_ten_pow(9), 1);
    assert_eq!(max_ten_pow(10), 2);
    assert_eq!(max_ten_pow(99), 2);
    assert_eq!(max_ten_pow(100), 3);
    assert_eq!(max_ten_pow(9_999_999_999_999_999_999), 19);
    assert_eq!(max_ten_pow(10_000_000_000_000_000_000), 20);
    assert_eq!(max_ten_pow(u64::MAX), 20);
}

#[test]
fn get_num_string_formats_zero() {
    let mut a = MemAllocator::new(16);
    let (addr, len) = get_num_string(&mut a, 0).unwrap();
    assert_eq!(len, 1);
    assert_eq!(region_bytes(&a, addr, len), b"0");
}

#[test]
fn get_num_string_formats_decimal() {
    let mut a = MemAllocator::new(32);
    let (addr, len) = get_num_string(&mut a, 1234).unwrap();
    assert_eq!(len, 4);
    assert_eq!(region_bytes(&a, addr, len), b"1234");
    for i in 0..len {
        assert!(a.occupied_at(addr + i));
    }
}

#[test]
fn get_num_string_formats_largest_value() {
    let mut a = MemAllocator::new(32);
    let (addr, len) = get_num_string(&mut a, u64::MAX).unwrap();
    assert_eq!(len, 20);
    assert_eq!(region_bytes(&a, addr, len), b"18446744073709551615");
}

#[test]
fn get_num_string_fails_when_arena_is_full() {
    let mut a = MemAllocator::new(4);
    assert_eq!(malloc(&mut a, 4), Ok(0));
    assert_eq!(get_num_string(&mut a, 7), Err(AllocError::OutOfMemory));
}

#[test]
fn malloc_lit_copies_the_literal() {
    let mut a = MemAllocator::new(16);
    let addr = malloc_lit(&mut a, "You have:").unwrap();
    assert_eq!(addr, 0);
    assert_eq!(region_bytes(&a, addr, 9), b"You have:");
    for i in 0..9 {
        assert!(a.occupied_at(i));
    }
    assert!(!a.occupied_at(9));
}

#[test]
fn malloc_lit_fails_when_nothing_fits() {
    let mut a = MemAllocator::new(4);
    assert_eq!(
        malloc_lit(&mut a, "You have:"),
        Err(AllocError::OutOfMemory)
    );
}

#[test]
fn strcat_joins_and_frees_both_inputs() {
    let mut a = MemAllocator::new(64);
    let first = malloc_lit(&mut a, "You have:").unwrap();
    let (second, second_len) = get_num_string(&mut a, 10).unwrap();
    assert_eq!(first, 0);
    assert_eq!(second, 10);
    assert_eq!(second_len, 2);
    let dest = strcat(&mut a, first, 9, second, second_len).unwrap();
    assert_eq!(dest, 22);
    assert_eq!(region_bytes(&a, dest, 11), b"You have:10");
    for i in 0..12 {
        assert!(!a.occupied_at(i), "source byte {i} must be released");
    }
    for i in dest..dest + 11 {
        assert!(a.occupied_at(i));
    }
}

#[test]
fn arena_bytes_start_zeroed() {
    let a = MemAllocator::new(8);
    assert_eq!(a.size(), 8);
    for i in 0..8 {
        assert_eq!(a.byte_at(i), 0);
        assert!(!a.occupied_at(i));
    }
}
