use photocatalog::pagination::{default_page_size, Pagination};

fn nums(v: &[u32]) -> Vec<u32> {
    v.to_vec()
}

#[test]
fn default_page_size_is_twenty_four() {
    assert_eq!(default_page_size(), 24);
}

#[test]
fn first_page_takes_the_first_window() {
    let p = Pagination { page: 0, page_size: 3 };
    assert_eq!(p.apply(nums(&[1, 2, 3, 4, 5])), vec![1, 2, 3]);
}

#[test]
fn middle_page_skips_earlier_pages() {
    let p = Pagination { page: 1, page_size: 2 };
    assert_eq!(p.apply(nums(&[1, 2, 3, 4, 5])), vec![3, 4]);
}

#[test]
fn last_page_may_be_short() {
    let p = Pagination { page: 2, page_size: 2 };
    assert_eq!(p.apply(nums(&[1, 2, 3, 4, 5])), vec![5]);
}

#[test]
fn page_past_the_end_is_empty() {
    let p = Pagination { page: 7, page_size: 4 };
    assert_eq!(p.apply(nums(&[1, 2, 3])), Vec::<u32>::new());
}

#[test]
fn huge_page_numbers_do_not_overflow() {
    let p = Pagination { page: usize::MAX, page_size: usize::MAX };
    assert_eq!(p.apply(nums(&[1, 2, 3])), Vec::<u32>::new());
}

#[test]
fn pages_concatenate_to_the_whole_sequence() {
    let input = nums(&[10, 20, 30, 40, 50, 60, 70]);
    let mut collected: Vec<u32> = Vec::new();
    for page in 0..4 {
        let p = Pagination { page, page_size: 2 };
        collected.extend(p.apply(input.clone()));
    }
    assert_eq!(collected, input);
}

#[test]
fn re_applying_from_page_zero_is_idempotent() {
    let input = nums(&[10, 20, 30, 40, 50]);
    let p = Pagination { page: 1, page_size: 2 };
    let once = p.apply(input);
    let again = Pagination { page: 0, page_size: 2 }.apply(once.clone());
    assert_eq!(once, again);
}
