use ordserv::compare::{
    all_permutables_from_preceding_permutables, empirical_all_permutables_translated, observed_order,
    superset_checks,
};
use ordserv::relation::OgRank;
use ordserv::trace::TraceRecord;
use ordserv::transpositions::{CurRank, OgRank2CurRank, StreamingTranspositions};

fn record() -> TraceRecord {
    TraceRecord {
        event: "Sending TAG".to_string(),
        reactor: "RTI".to_string(),
        source: -1,
        destination: 0,
        elapsed_logical_time: 0,
        microstep: 0,
        elapsed_physical_time: 0,
        trigger: "".to_string(),
        extra_delay: 0,
        file_index: 0,
        line_number: 0,
        sequence_number_for_file_and_line: 0,
    }
}

fn sorted(mut v: Vec<u32>) -> Vec<u32> {
    v.sort();
    v
}


/// The growth of the count of pairs at which a point is saved: a tenth of the last saved count.
fn tenth(last: u32) -> u32 {
    (0.1f32 * (last as f32)) as u32
}

#[test]
fn permutables_are_made_symmetric() {
    let ogtrace = vec![record(), record(), record(), record()];
    // Event 2 may move before event 0; event 3 before events 1 and 2.
    let preceding = vec![vec![], vec![], vec![OgRank(0)], vec![OgRank(1), OgRank(2)]];
    let all = all_permutables_from_preceding_permutables(&preceding, &ogtrace);
    assert_eq!(all.len(), 4);
    assert_eq!(all[0].to_sorted_vec(), vec![2]);
    assert_eq!(all[1].to_sorted_vec(), vec![3]);
    assert_eq!(all[2].to_sorted_vec(), vec![0, 3]);
    assert_eq!(all[3].to_sorted_vec(), vec![1, 2]);
    // Fewer lists than events: the remaining events have none of their own.
    let short = all_permutables_from_preceding_permutables(&vec![vec![], vec![OgRank(0)]], &ogtrace);
    assert_eq!(short[0].to_sorted_vec(), vec![1]);
    assert!(short[3].is_empty());
}

#[test]
fn observed_pairs_are_moved_and_compared() {
    let mut st = StreamingTranspositions::new(3, 2);
    // Events 1 and 2 seen in the other order.
    st.record(OgRank2CurRank(vec![CurRank(0), CurRank(2), CurRank(1)]), &tenth);
    // The identity translation keeps the pairs where they are.
    let same = OgRank2CurRank(vec![CurRank(0), CurRank(1), CurRank(2)]);
    let e = empirical_all_permutables_translated(&st, &same, 3);
    assert_eq!(e.len(), 3);
    assert!(e[0].is_empty());
    assert_eq!(e[1], vec![2]);
    assert_eq!(e[2], vec![1]);
    // Moving event 0 to the end, and cutting at two positions: the partner at position 2 of the
    // original order is dropped, the one at position 1 is kept and moved.
    let moved = OgRank2CurRank(vec![CurRank(2), CurRank(0), CurRank(1)]);
    let e2 = empirical_all_permutables_translated(&st, &moved, 2);
    assert_eq!(e2.len(), 2);
    assert!(e2[0].is_empty());
    assert_eq!(e2[1], vec![0]);
    let e3 = empirical_all_permutables_translated(&st, &moved, 3);
    assert_eq!(e3[0], vec![1]);
    assert_eq!(e3[1], vec![0]);
    assert!(e3[2].is_empty());

    let ogtrace = vec![record(), record(), record()];
    let upper = all_permutables_from_preceding_permutables(&vec![vec![], vec![], vec![OgRank(1)]], &ogtrace);
    let checks = superset_checks(&upper, &e);
    assert_eq!(checks, vec![(true, 0, 0), (true, 1, 1), (true, 1, 1)]);
    let too_narrow = all_permutables_from_preceding_permutables(&vec![vec![], vec![], vec![OgRank(0)]], &ogtrace);
    let checks = superset_checks(&too_narrow, &e);
    assert_eq!(checks, vec![(true, 0, 1), (false, 1, 0), (false, 1, 1)]);
    // Only the positions that both lists have are compared.
    assert_eq!(superset_checks(&too_narrow, &e2).len(), 2);
}

#[test]
fn observed_order_sorts_by_rank_and_drops_unobserved_events() {
    let og2cur = vec![CurRank(2), CurRank(5), CurRank(0), CurRank(2), CurRank(1)];
    assert_eq!(observed_order(&og2cur, 5), vec![2, 4, 0, 3]);
    assert_eq!(observed_order(&og2cur, 100), vec![2, 4, 0, 3, 1]);
    assert_eq!(observed_order(&og2cur, 0), Vec::<usize>::new());
    assert_eq!(sorted(vec![3, 1, 2]), vec![1, 2, 3]);
}
