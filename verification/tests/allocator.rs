use buddy_alloc::block::BlockVec;
use buddy_alloc::buddy::{AllocError, BuddyAllocator};
use buddy_alloc::list::SkipList;
use buddy_alloc::{logarithmic_two_down, logarithmic_two_up, page_round_up, two_to_the};

const START: usize = 0x0000;
const END: usize = 0x10000;
const PAGE: usize = 0x1000;
const K: usize = 4;
const KERNEL_END: usize = 0x1000;
const FREE_START: usize = 0x2000;
const FREE_BYTES: usize = END - FREE_START;

fn ready() -> BuddyAllocator {
    let mut b = BuddyAllocator::new(START, END, PAGE, K);
    b.init(KERNEL_END);
    b
}

#[test]
fn init_sizes() {
    let b = ready();
    assert_eq!(b.total_size(), END - START);
    assert_eq!(b.free_size(), FREE_BYTES);
    assert_eq!(b.allocated_size(), END - FREE_BYTES);
}

#[test]
fn repeated_queries_are_stable() {
    let b = ready();
    let t1 = b.total_size();
    let f1 = b.free_size();
    let t2 = b.total_size();
    let f2 = b.free_size();
    assert_eq!(t1, t2);
    assert_eq!(f1, f2);
}

#[test]
fn single_page_alloc_returns_free_start() {
    let mut b = ready();
    let a = b.alloc_pages(0x1000, 0x1000).unwrap();
    assert_eq!(a, FREE_START);
    assert_eq!(b.free_size(), FREE_BYTES - 0x1000);
}

#[test]
fn two_page_alloc_coalesces_lowest_pair() {
    let mut b = ready();
    let a = b.alloc_pages(0x2000, 0x1000).unwrap();
    assert_eq!(a, FREE_START);
    assert_eq!(b.free_size(), FREE_BYTES - 0x2000);
}

#[test]
fn four_page_alloc_coalesces_lowest_run() {
    let mut b = ready();
    let a = b.alloc_pages(0x4000, 0x1000).unwrap();
    assert_eq!(a, FREE_START);
    assert_eq!(b.free_size(), FREE_BYTES - 0x4000);
}

#[test]
fn alloc_until_out_of_memory() {
    let mut b = ready();
    let mut count = 0;
    loop {
        match b.alloc_pages(0x1000, 0x1000) {
            Ok(_) => count += 1,
            Err(e) => {
                assert_eq!(e, AllocError::OutOfMemory);
                break;
            }
        }
        assert!(count <= FREE_BYTES / PAGE);
    }
    assert_eq!(count, FREE_BYTES / PAGE);
    assert_eq!(b.free_size(), 0);
}

#[test]
fn free_then_realloc_round_trip() {
    let mut b = ready();
    let before = b.free_size();
    let a = b.alloc_pages(0x1000, 0x1000).unwrap();
    b.free_pages(a, 0x1000, 0x1000).unwrap();
    assert_eq!(b.free_size(), before);
    let c = b.alloc_pages(0x1000, 0x1000).unwrap();
    assert_eq!(c, a);
}

#[test]
fn round_trip_many_addresses() {
    let mut b = ready();
    let before = b.free_size();
    let mut held = Vec::new();
    for _ in 0..4 {
        held.push(b.alloc_pages(0x1000, 0x1000).unwrap());
    }
    held.push(b.alloc_pages(0x2000, 0x1000).unwrap());
    for (i, a) in held.iter().enumerate() {
        let size = if i == 4 { 0x2000 } else { 0x1000 };
        b.free_pages(*a, size, 0x1000).unwrap();
    }
    assert_eq!(b.free_size(), before);
}

#[test]
fn small_request_padded_to_page() {
    let mut b = ready();
    let a = b.alloc_pages(0x800, 1).unwrap();
    assert_eq!(a % 0x1000, 0);
    assert_eq!(b.free_size(), FREE_BYTES - 0x1000);
}

#[test]
fn free_null_pointer() {
    let mut b = ready();
    assert_eq!(b.free_pages(0, 0x1000, 1), Err(AllocError::NullPointer));
}

#[test]
fn free_below_free_start_is_illegal() {
    let mut b = ready();
    assert_eq!(b.free_pages(0x500, 0x1000, 1), Err(AllocError::IllegalAddr));
}

#[test]
fn free_past_end_is_illegal() {
    let mut b = ready();
    assert_eq!(b.free_pages(END, 0x1000, 1), Err(AllocError::IllegalAddr));
}

#[test]
fn alloc_align_above_page_is_misaligned() {
    let mut b = ready();
    assert_eq!(b.alloc_pages(1, 0x2000), Err(AllocError::Misaligned));
}

#[test]
fn free_unaligned_address_is_misaligned() {
    let mut b = ready();
    assert_eq!(b.free_pages(0x2800, 0x1000, 1), Err(AllocError::Misaligned));
}

#[test]
fn errors_leave_state_unchanged() {
    let mut b = ready();
    let before = b.free_size();
    let _ = b.alloc_pages(1, 0x2000);
    let _ = b.free_pages(0, 0x1000, 1);
    let _ = b.free_pages(0x500, 0x1000, 1);
    assert_eq!(b.free_size(), before);
    assert_eq!(b.total_size(), END - START);
}

#[test]
fn split_path_halves_larger_block() {
    let mut b = ready();
    // Take one two-page block, then drain every remaining page.
    let a = b.alloc_pages(0x2000, 0x1000).unwrap();
    for _ in 0..(FREE_BYTES / PAGE - 2) {
        b.alloc_pages(0x1000, 0x1000).unwrap();
    }
    assert_eq!(b.free_size(), 0);
    // Put the two-page block back; only its class now holds anything.
    b.free_pages(a, 0x2000, 0x1000).unwrap();
    // A one-page request must split it: lower half out, upper half kept.
    let lower = b.alloc_pages(0x1000, 0x1000).unwrap();
    assert_eq!(lower, a);
    let upper = b.alloc_pages(0x1000, 0x1000).unwrap();
    assert_eq!(upper, a + 0x1000);
    assert_eq!(b.free_size(), 0);
}

#[test]
fn oversized_free_fragments_into_top_class() {
    let mut b = BuddyAllocator::new(0, 0x40000, 0x1000, 2);
    b.init(0x1000);
    let a1 = b.alloc_pages(0x2000, 0x1000).unwrap();
    let a2 = b.alloc_pages(0x2000, 0x1000).unwrap();
    assert_eq!(a2, a1 + 0x2000);
    let before = b.free_size();
    // One free call returns both blocks as a single four-page region,
    // larger than the top class.
    b.free_pages(a1, 0x4000, 0x1000).unwrap();
    assert_eq!(b.free_size(), before + 0x4000);
    assert_eq!(b.alloc_pages(0x2000, 0x1000).unwrap(), a1);
    assert_eq!(b.alloc_pages(0x2000, 0x1000).unwrap(), a2);
}

#[test]
fn conservation_after_mixed_operations() {
    let mut b = ready();
    let a1 = b.alloc_pages(0x1000, 0x1000).unwrap();
    let a2 = b.alloc_pages(0x2000, 0x1000).unwrap();
    assert_eq!(b.free_size() + b.allocated_size(), b.total_size());
    b.free_pages(a1, 0x1000, 0x1000).unwrap();
    assert_eq!(b.free_size() + b.allocated_size(), b.total_size());
    b.free_pages(a2, 0x2000, 0x1000).unwrap();
    assert_eq!(b.free_size() + b.allocated_size(), b.total_size());
    assert_eq!(b.free_size(), FREE_BYTES);
}

#[test]
fn alloc_addresses_do_not_overlap() {
    let mut b = ready();
    let mut seen = Vec::new();
    for _ in 0..6 {
        let a = b.alloc_pages(0x1000, 0x1000).unwrap();
        for s in seen.iter() {
            let gap = if a > *s { a - *s } else { *s - a };
            assert!(gap >= 0x1000);
        }
        seen.push(a);
    }
}

#[test]
fn alloc_addresses_are_aligned() {
    let mut b = ready();
    let a1 = b.alloc_pages(0x1000, 0x1000).unwrap();
    assert_eq!(a1 % 0x1000, 0);
    let a2 = b.alloc_pages(0x2000, 0x200).unwrap();
    assert_eq!(a2 % 0x200, 0);
    assert_eq!((a2 - FREE_START) % 0x2000, 0);
    // free_start itself is aligned to two pages here, so the block is
    // absolutely aligned as well.
    assert_eq!(a2 % 0x2000, 0);
}

#[test]
fn class_alignment_is_relative_to_free_start() {
    let mut b = ready();
    // free_start is 0x2000, so a four-page block starts on a four-page
    // boundary counted from free_start, not from address zero.
    let a = b.alloc_pages(0x4000, 0x1000).unwrap();
    assert_eq!((a - FREE_START) % 0x4000, 0);
    assert_eq!(a, 0x2000);
}

#[test]
fn calculate_block_index_counts_from_free_start() {
    let b = ready();
    assert_eq!(b.calculate_block_index(FREE_START, PAGE), 0);
    assert_eq!(b.calculate_block_index(FREE_START + 3 * PAGE, PAGE), 3);
    assert_eq!(b.calculate_block_index(FREE_START + 0x4000, 0x2000), 2);
}

#[test]
fn skip_list_pops_in_address_order() {
    let mut l = SkipList::new();
    l.init(0x1000, 3, 0x1000);
    l.insert(0x4000, 3);
    l.insert(0x2000, 1);
    l.insert(0x1000, 0);
    l.insert(0x3000, 2);
    assert_eq!(l.pop(), Some(0x1000));
    assert_eq!(l.pop(), Some(0x2000));
    assert_eq!(l.pop(), Some(0x3000));
    assert_eq!(l.pop(), Some(0x4000));
    assert_eq!(l.pop(), None);
}

#[test]
fn skip_list_removes_aligned_pairs() {
    let mut l = SkipList::new();
    l.init(0x1000, 3, 0x1000);
    for i in 0..4 {
        l.insert(0x1000 + i * 0x1000, i);
    }
    assert_eq!(l.remove_continuous_space(0x2000), Some(0x1000));
    assert_eq!(l.remove_continuous_space(0x2000), Some(0x3000));
    assert_eq!(l.remove_continuous_space(0x2000), None);
}

#[test]
fn skip_list_pair_must_start_on_even_index() {
    let mut l = SkipList::new();
    l.init(0x1000, 3, 0x1000);
    // Indices 1, 2, 3: the only aligned pair starts at index 2.
    l.insert(0x2000, 1);
    l.insert(0x3000, 2);
    l.insert(0x4000, 3);
    assert_eq!(l.remove_continuous_space(0x2000), Some(0x3000));
    assert_eq!(l.pop(), Some(0x2000));
    assert_eq!(l.pop(), None);
}

#[test]
fn skip_list_quad_run() {
    let mut l = SkipList::new();
    l.init(0x1000, 4, 0x1000);
    for i in 0..8 {
        l.insert(0x1000 + i * 0x1000, i);
    }
    // A four-block run must start on an index divisible by four.
    assert_eq!(l.remove_continuous_space(0x4000), Some(0x1000));
    assert_eq!(l.remove_continuous_space(0x4000), Some(0x5000));
    assert_eq!(l.remove_continuous_space(0x4000), None);
}

#[test]
fn block_vec_get_and_set() {
    let mut v = BlockVec::new(3);
    assert_eq!(v.levels, 3);
    assert_eq!(v.get(0), 0);
    assert_eq!(v.get(2), 0);
    assert_eq!(v.get(5), 0);
    v.set_forward(1, 0x7000);
    assert_eq!(v.get(1), 0x7000);
    assert_eq!(v.get(0), 0);
}

#[test]
fn logarithm_helpers() {
    assert_eq!(logarithmic_two_down(1), 0);
    assert_eq!(logarithmic_two_down(2), 1);
    assert_eq!(logarithmic_two_down(3), 1);
    assert_eq!(logarithmic_two_down(4096), 12);
    assert_eq!(logarithmic_two_down(4097), 12);
    assert_eq!(logarithmic_two_up(1), 0);
    assert_eq!(logarithmic_two_up(3), 2);
    assert_eq!(logarithmic_two_up(4096), 12);
    assert_eq!(logarithmic_two_up(4097), 13);
    assert_eq!(two_to_the(0), 1);
    assert_eq!(two_to_the(5), 32);
}

#[test]
fn page_round_up_cases() {
    assert_eq!(page_round_up(0x13E0, 0x1000), 0x2000);
    assert_eq!(page_round_up(0x2000, 0x1000), 0x2000);
    assert_eq!(page_round_up(1, 0x1000), 0x1000);
    assert_eq!(page_round_up(0, 0x1000), 0);
}
