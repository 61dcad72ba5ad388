use rscan::partition::{partition, PartitionError, ScanRange};

fn sizes(plan: &Vec<ScanRange>) -> Vec<u64> {
    let mut out = Vec::new();
    for r in plan.iter() {
        out.push(r.len());
    }
    out
}

#[test]
fn ten_ports_four_workers_last_share_takes_remainder() {
    let plan = partition(10, 4).unwrap();
    assert_eq!(sizes(&plan), vec![2, 2, 2, 4]);
    assert_eq!(
        plan,
        vec![
            ScanRange { start: 0, end: 1 },
            ScanRange { start: 2, end: 3 },
            ScanRange { start: 4, end: 5 },
            ScanRange { start: 6, end: 9 },
        ]
    );
}

#[test]
fn more_workers_than_ports_gives_one_share_per_port() {
    let plan = partition(5, 100).unwrap();
    assert_eq!(plan.len(), 5);
    for i in 0..5u32 {
        assert_eq!(plan[i as usize], ScanRange { start: i, end: i });
    }
}

#[test]
fn single_worker_gets_everything() {
    let plan = partition(7, 1).unwrap();
    assert_eq!(plan, vec![ScanRange { start: 0, end: 6 }]);
}

#[test]
fn single_port_single_share() {
    let plan = partition(1, 8).unwrap();
    assert_eq!(plan, vec![ScanRange { start: 0, end: 0 }]);
}

#[test]
fn even_division_has_no_remainder() {
    let plan = partition(12, 3).unwrap();
    assert_eq!(sizes(&plan), vec![4, 4, 4]);
    assert_eq!(plan[2], ScanRange { start: 8, end: 11 });
}

#[test]
fn zero_ports_is_rejected() {
    assert_eq!(partition(0, 4), Err(PartitionError::InvalidArgument));
}

#[test]
fn zero_workers_is_rejected() {
    assert_eq!(partition(10, 0), Err(PartitionError::InvalidArgument));
}

#[test]
fn zero_ports_and_workers_is_rejected() {
    assert_eq!(partition(0, 0), Err(PartitionError::InvalidArgument));
}

#[test]
fn full_port_range_ends_at_last_port() {
    let plan = partition(65536, 3).unwrap();
    assert_eq!(sizes(&plan), vec![21845, 21845, 21846]);
    assert_eq!(plan[0], ScanRange { start: 0, end: 21844 });
    assert_eq!(plan[1], ScanRange { start: 21845, end: 43689 });
    assert_eq!(plan[2], ScanRange { start: 43690, end: 65535 });
}

#[test]
fn largest_total_does_not_overflow() {
    let plan = partition(u32::MAX, 2).unwrap();
    assert_eq!(plan.len(), 2);
    assert_eq!(plan[0], ScanRange { start: 0, end: 2147483646 });
    assert_eq!(plan[1], ScanRange { start: 2147483647, end: 4294967294 });
    assert_eq!(plan[1].len(), 2147483648);
}

#[test]
fn shares_cover_every_offset_exactly_once() {
    for total in 1..60u32 {
        for workers in 1..70u32 {
            let plan = partition(total, workers).unwrap();
            let mut next: u32 = 0;
            for r in plan.iter() {
                assert!(r.start <= r.end);
                assert_eq!(r.start, next);
                next = r.end + 1;
            }
            assert_eq!(next, total);
            let mut seen = vec![0u32; total as usize];
            for r in plan.iter() {
                for p in r.start..=r.end {
                    seen[p as usize] += 1;
                }
            }
            assert!(seen.iter().all(|n| *n == 1));
        }
    }
}

#[test]
fn share_count_is_the_smaller_of_workers_and_ports() {
    for total in 1..40u32 {
        for workers in 1..50u32 {
            let plan = partition(total, workers).unwrap();
            assert_eq!(plan.len() as u32, total.min(workers));
            assert!(plan.len() as u32 <= workers);
            assert!(plan.len() as u32 <= total);
        }
    }
}

#[test]
fn sizes_are_base_and_base_plus_remainder() {
    for total in 1..40u32 {
        for workers in 1..50u32 {
            let plan = partition(total, workers).unwrap();
            let w = total.min(workers);
            let base = (total / w) as u64;
            let rest = (total % w) as u64;
            let s = sizes(&plan);
            for i in 0..s.len() - 1 {
                assert_eq!(s[i], base);
            }
            assert_eq!(s[s.len() - 1], base + rest);
            assert_eq!(s.iter().sum::<u64>(), total as u64);
        }
    }
}

#[test]
fn sizes_differ_by_at_most_one_where_remainder_is_at_most_one() {
    for total in 1..60u32 {
        for workers in 1..70u32 {
            let w = total.min(workers);
            if total % w > 1 {
                continue;
            }
            let s = sizes(&partition(total, workers).unwrap());
            let largest = *s.iter().max().unwrap();
            let smallest = *s.iter().min().unwrap();
            assert!(largest - smallest <= 1);
        }
    }
}

#[test]
fn range_len_counts_both_ends() {
    assert_eq!(ScanRange { start: 3, end: 3 }.len(), 1);
    assert_eq!(ScanRange { start: 0, end: 65535 }.len(), 65536);
    assert_eq!(ScanRange { start: 0, end: u32::MAX }.len(), 4294967296);
    assert_eq!(ScanRange { start: 5, end: 4 }.len(), 0);
}
