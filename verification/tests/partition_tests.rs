use fontchan::partition::{
    case_with_charbase, case_with_charfreq_charbase, case_with_pages_only, do_partition,
    sort_unique, usage_order, Algorithm, AlgorithmContext, Page, PartSize, PartitionError,
    SortByOccurrence,
};

fn chars_of(r: &fontchan::unicode::URange) -> String {
    r.as_chars().into_iter().collect()
}

#[test]
fn partition_base_only_three_chunks() {
    let base: Vec<u32> = "abcdefg".chars().map(|c| c as u32).collect();
    let r = case_with_charbase(3, &base);
    assert_eq!(r.len(), 3);
    assert_eq!(chars_of(&r[0]), "abc");
    assert_eq!(chars_of(&r[1]), "def");
    assert_eq!(chars_of(&r[2]), "g");
    // no bucket exceeds the target size
    for bucket in &r {
        assert!(bucket.as_chars().len() <= 3);
    }
}

#[test]
fn do_partition_empty_input() {
    let r = do_partition(&Vec::new(), 5);
    assert_eq!(r.len(), 0);
}

#[test]
fn do_partition_exact_multiple() {
    let cs: Vec<u32> = vec![10, 11, 20, 21];
    let r = do_partition(&cs, 2);
    assert_eq!(r.len(), 2);
    assert_eq!(r[0].as_spans().clone().len(), 1);
    assert_eq!(r[1].as_spans().clone().len(), 1);
}

#[test]
fn sort_unique_orders_and_dedups() {
    let r = sort_unique(vec![5, 3, 5, 1, 3]);
    assert_eq!(r, vec![1, 3, 5]);
}

#[test]
fn pages_only_orders_by_usage() {
    let a: Vec<char> = "a".chars().collect();
    let ab: Vec<char> = "ab".chars().collect();
    let pages = vec![Page::from_chars(&a), Page::from_chars(&ab)];
    let r = case_with_pages_only(10, &pages);
    assert_eq!(r.len(), 1);
    assert_eq!(chars_of(&r[0]), "ab");
}

#[test]
fn usage_order_ascii_first_then_freq() {
    // pages push one base character; ASCII base characters always lead
    let base: Vec<u32> = vec!['a' as u32, 0x4E02, 0x4E01];
    let freq: Vec<u32> = vec![0x4E01, 0x4E02];
    let p: Vec<char> = vec!['\u{4E02}'];
    let pages = vec![Page::from_chars(&p)];
    let order = usage_order(&pages, Some(&freq), Some(&base));
    // 'a' is forced hottest; the page-seen character outranks the unseen
    assert_eq!(order, vec!['a' as u32, 0x4E02, 0x4E01]);
}

#[test]
fn freq_base_order_keeps_freq_order_then_rest() {
    let freq: Vec<u32> = vec![30, 10, 99, 10];
    let base: Vec<u32> = vec![10, 20, 30];
    let r = case_with_charfreq_charbase(10, &freq, &base);
    assert_eq!(r.len(), 1);
    // freq ∩ base in freq order: 30, 10; then the rest of the base: 20
    let spans = r[0].as_spans().clone();
    let mut cps: Vec<u32> = Vec::new();
    for s in spans {
        for c in s.start..=s.end {
            cps.push(c);
        }
    }
    cps.sort();
    assert_eq!(cps, vec![10, 20, 30]);
}

#[test]
fn algorithm_requires_a_source() {
    let ctx = AlgorithmContext {
        part_size: PartSize::Chars(3),
        char_base: None,
        char_freq: None,
        pages: None,
    };
    assert!(SortByOccurrence::new(&ctx).is_err());
    match Algorithm::new(ctx) {
        Err(PartitionError::NoInputData) => {}
        _ => panic!("a context without sources must be rejected"),
    }
}

#[test]
fn algorithm_partitions_base() {
    let ctx = AlgorithmContext {
        part_size: PartSize::Chars(3),
        char_base: Some("abcdefg".chars().map(|c| c as u32).collect()),
        char_freq: None,
        pages: None,
    };
    let algo = Algorithm::new(ctx).unwrap();
    let r = algo.partition();
    assert_eq!(r.len(), 3);
    assert_eq!(chars_of(&r[0]), "abc");
    assert_eq!(chars_of(&r[1]), "def");
    assert_eq!(chars_of(&r[2]), "g");
}

#[test]
fn part_size_default_is_two_hundred() {
    assert_eq!(PartSize::default(), PartSize::Chars(200));
}
