use rayon::iter::{IntoParallelIterator, ParallelIterator};
use ordserv::rankset::RankSet;
use ordserv::render::fmt_ogrank_set;
use ordserv::transpositions::{
    random_traces, BigSmallIterator, CumSum, CurRank, NTraces, OgRank, OgRank2CurRank, StreamingTranspositions,
};

/// The growth of the count of pairs at which a point is saved: a tenth of the last saved count.
fn tenth(last: u32) -> u32 {
    (0.1f32 * (last as f32)) as u32
}

fn members(s: &RankSet) -> Vec<u32> {
    s.to_sorted_vec()
}

#[test]
fn smoketest() {
    let traces = vec![
        vec![CurRank(0), CurRank(1), CurRank(2), CurRank(3)],
        vec![CurRank(0), CurRank(2), CurRank(1), CurRank(3)],
        vec![CurRank(0), CurRank(3), CurRank(2), CurRank(1)],
        vec![CurRank(0), CurRank(1), CurRank(3), CurRank(2)],
    ];
    let mut st = StreamingTranspositions::new(4, 1);
    st.record_all(traces.into_iter().map(OgRank2CurRank).collect(), &tenth);
    let orderings = st.orderings();
    let sets: Vec<Vec<u32>> = orderings.before_and_afters.iter().map(members).collect();
    assert_eq!(sets, vec![vec![], vec![2], vec![1, 3], vec![2]]);
    assert_eq!(
        orderings.to_string(),
        "before_and_afters[0]: {}\nbefore_and_afters[1]: {OgRank(2)}\nbefore_and_afters[2]: {OgRank(1), OgRank(3)}\nbefore_and_afters[3]: {OgRank(2)}\n"
    );
    assert_eq!(
        st.cumsums(),
        vec![
            (NTraces(1), CumSum(0)),
            (NTraces(2), CumSum(1)),
            (NTraces(3), CumSum(2)),
            (NTraces(4), CumSum(2)),
        ]
    );
}

#[test]
fn identity_trace_finds_no_pairs() {
    let mut st = StreamingTranspositions::new(5, 3);
    st.record(OgRank2CurRank((0..5).map(CurRank).collect()), &tenth);
    assert_eq!(st.cumsum(), CumSum(0));
    assert_eq!(st.traces_recorded(), NTraces(1));
    assert!(st.check_invariants_expensive());
    for a in 0..5 {
        for b in 0..5 {
            assert!(!st.contains(OgRank(a), OgRank(b)));
        }
    }
}

#[test]
fn swapped_pair_is_found_in_both_directions() {
    let mut st = StreamingTranspositions::new(3, 1);
    // Original events 1 and 2 observed in the other order.
    st.record(OgRank2CurRank(vec![CurRank(0), CurRank(2), CurRank(1)]), &tenth);
    assert!(st.contains(OgRank(1), OgRank(2)));
    assert!(st.contains(OgRank(2), OgRank(1)));
    assert!(!st.contains(OgRank(0), OgRank(1)));
    assert_eq!(st.cumsum(), CumSum(1));
    assert!(st.check_invariants_expensive());
}

#[test]
fn unobserved_events_sort_last() {
    let mut st = StreamingTranspositions::new(3, 2);
    // Event 0 is not observed: its rank is the trace length, so it counts as the last event.
    st.record(OgRank2CurRank(vec![CurRank(3), CurRank(1), CurRank(0)]), &tenth);
    assert!(st.contains(OgRank(1), OgRank(2)));
    assert!(st.contains(OgRank(0), OgRank(1)));
    assert!(st.contains(OgRank(0), OgRank(2)));
    assert_eq!(st.cumsum(), CumSum(3));
}

#[test]
fn merging_chunks_equals_recording_all() {
    let traces = random_traces(40, 30, 10, 5);
    let mut whole = StreamingTranspositions::new(40, 1);
    whole.record_all(traces.iter().map(|t| OgRank2CurRank(t.clone())).collect(), &tenth);
    let mut merged = StreamingTranspositions::new(40, 1);
    for chunk in traces.chunks(10) {
        let mut part = merged.empty();
        part.record_all(chunk.iter().map(|t| OgRank2CurRank(t.clone())).collect(), &tenth);
        merged.inner.merge(&part.inner, &tenth);
    }
    assert!(merged.check_invariants_expensive());
    for a in 0..40u32 {
        for b in 0..40u32 {
            assert_eq!(whole.contains(OgRank(a), OgRank(b)), merged.contains(OgRank(a), OgRank(b)));
        }
    }
    assert_eq!(whole.traces_recorded(), merged.traces_recorded());
}

#[test]
fn random_traces_are_permutations() {
    let traces = random_traces(20, 5, 7, 4);
    assert_eq!(traces.len(), 5);
    for t in traces {
        let mut seen: Vec<u32> = t.iter().map(|c| c.0).collect();
        seen.sort();
        assert_eq!(seen, (0..20).collect::<Vec<u32>>());
    }
}

#[test]
fn big_small_iterator_gives_pairs_below_the_bound() {
    let mut it = BigSmallIterator::new(OgRank(6));
    assert_eq!(it.max_ogrank_strict(), OgRank(6));
    assert_eq!(it.power(), 0);
    let mut count = 0;
    while let Some((a, b)) = it.next() {
        assert!(a.0 < b.0 && b.0 < 6);
        count += 1;
        if count > 1000 {
            break;
        }
    }
    assert!(count > 0);
}

#[test]
fn ancestors_keep_pairs_out_of_descendants() {
    let mut st = StreamingTranspositions::new(3, 1);
    st.record(OgRank2CurRank(vec![CurRank(0), CurRank(2), CurRank(1)]), &tenth);
    st.update_ancestors(&tenth);
    // The pair is held by the ancestors now; seeing it again finds nothing new.
    st.record(OgRank2CurRank(vec![CurRank(0), CurRank(2), CurRank(1)]), &tenth);
    assert_eq!(st.cumsum(), CumSum(1));
    assert!(!st.contains(OgRank(1), OgRank(2)));
    assert_eq!(st.traces_recorded(), NTraces(2));
}

#[test]
fn update_cumsums_saves_at_threshold() {
    let mut st = StreamingTranspositions::new(3, 1);
    st.record(OgRank2CurRank(vec![CurRank(0), CurRank(2), CurRank(1)]), &|_last: u32| u32::MAX);
    st.inner.update_cumsums_if_needed(2);
    assert!(st.inner.cumsums.is_empty());
    st.inner.update_cumsums_if_needed(1);
    assert_eq!(st.inner.cumsums, vec![(NTraces(1), CumSum(1))]);
}

#[test]
fn og_rank_to_cur_rank_unpacks_pairs() {
    let v = OgRank2CurRank(vec![CurRank(2), CurRank(0), CurRank(1)]);
    assert_eq!(
        v.unpack(),
        vec![(OgRank(0), CurRank(2)), (OgRank(1), CurRank(0)), (OgRank(2), CurRank(1))]
    );
    assert_eq!(OgRank(7).idx(), 7);
}

#[test]
fn rank_sets_hold_members() {
    let mut s = RankSet::new(10);
    assert!(s.is_empty());
    s.insert(3);
    s.insert(7);
    s.insert(3);
    assert_eq!(s.len(), 2);
    assert!(s.contains(3) && s.contains(7) && !s.contains(4));
    s.remove(3);
    assert_eq!(s.to_sorted_vec(), vec![7]);
    let full = RankSet::full(4);
    assert_eq!(full.to_sorted_vec(), vec![0, 1, 2, 3]);
    let mut u = RankSet::new(10);
    u.insert(1);
    u.union_with(&s);
    assert_eq!(u.to_sorted_vec(), vec![1, 7]);
    assert_eq!(u.copy_with_universe(20).universe_len(), 20);
}

#[test]
fn randomized_test() {
    let traces = random_traces(100, 100, 30, 10);
    let mut st = StreamingTranspositions::new(100, 1);
    st.record_all(traces.iter().map(|it| OgRank2CurRank(it.clone())).collect(), &tenth);
    assert!(st.check_invariants_expensive());
    // Each chunk of ten traces is recorded in a stream of its own, in parallel, and the streams
    // are merged.
    let mut st_parallel = StreamingTranspositions::new(100, 1);
    let parts: Vec<StreamingTranspositions> = (0..10usize)
        .into_par_iter()
        .map(|start| {
            let mut part = StreamingTranspositions::new(100, 1);
            part.record_all(
                traces[start * 10..(start * 10 + 10)]
                    .iter()
                    .map(|it| OgRank2CurRank(it.clone()))
                    .collect(),
                &tenth,
            );
            part
        })
        .collect();
    for part in parts.iter() {
        st_parallel.inner.merge(&part.inner, &tenth);
    }
    assert!(st_parallel.check_invariants_expensive());
    let whole = st.orderings();
    let parallel = st_parallel.orderings();
    for (before_and_after, par_before_and_after) in
        whole.before_and_afters.iter().zip(parallel.before_and_afters.iter())
    {
        println!(
            "size difference = {} out of {}",
            before_and_after.len() - par_before_and_after.len(),
            before_and_after.len()
        );
        for other in before_and_after.to_sorted_vec() {
            assert!(par_before_and_after.contains(other));
        }
        for other in par_before_and_after.to_sorted_vec() {
            assert!(before_and_after.contains(other));
        }
    }
    assert_eq!(st.traces_recorded(), st_parallel.traces_recorded());
}

#[test]
fn record_all_on_top_of_ancestors_counts_new_pairs_once() {
    let mut st = StreamingTranspositions::new(3, 1);
    st.record(OgRank2CurRank(vec![CurRank(0), CurRank(2), CurRank(1)]), &tenth);
    st.update_ancestors(&tenth);
    st.record_all(
        vec![
            OgRank2CurRank(vec![CurRank(0), CurRank(2), CurRank(1)]),
            OgRank2CurRank(vec![CurRank(1), CurRank(0), CurRank(2)]),
        ],
        &tenth,
    );
    assert_eq!(st.cumsum(), CumSum(2));
    assert!(st.contains(OgRank(0), OgRank(1)));
    assert!(!st.contains(OgRank(1), OgRank(0)));
    assert!(!st.contains(OgRank(1), OgRank(2)));
    assert_eq!(st.traces_recorded(), NTraces(3));
}

#[test]
fn sets_of_positions_are_written_in_ascending_order() {
    let mut set = RankSet::new(40);
    set.insert(31);
    set.insert(4);
    set.insert(17);
    assert_eq!(fmt_ogrank_set(&set), "{OgRank(4), OgRank(17), OgRank(31)}");
    assert_eq!(fmt_ogrank_set(&RankSet::new(3)), "{}");
}

#[test]
fn merging_saves_a_point_when_the_count_has_grown() {
    let mut a = StreamingTranspositions::new(3, 1);
    let mut b = StreamingTranspositions::new(3, 1);
    b.record(OgRank2CurRank(vec![CurRank(0), CurRank(2), CurRank(1)]), &|_last: u32| u32::MAX);
    assert!(b.inner.cumsums.is_empty());
    a.inner.merge(&b.inner, &tenth);
    assert_eq!(a.cumsum(), CumSum(1));
    assert_eq!(a.inner.cumsums, vec![(NTraces(1), CumSum(1))]);
    let c = StreamingTranspositions::from_deltas(&vec![a.inner, b.inner], &tenth);
    assert_eq!(c.traces_recorded(), NTraces(2));
    assert_eq!(c.cumsums(), vec![(NTraces(1), CumSum(1)), (NTraces(2), CumSum(1))]);
}

#[test]
fn pairs_below_a_large_bound_start_with_neighbours() {
    let m = (1u32 << 29) - 1;
    let mut it = BigSmallIterator::new(OgRank(m));
    assert_eq!(it.next(), Some((OgRank(0), OgRank(1))));
    assert_eq!(it.next(), Some((OgRank(1), OgRank(2))));
    assert_eq!(it.next(), Some((OgRank(2), OgRank(3))));
    assert_eq!(it.power(), 0);
    assert_eq!(it.max_ogrank_strict(), OgRank(m));
}

#[test]
fn rebuilding_from_deltas_holds_the_pairs_of_all_of_them() {
    let traces = random_traces(30, 20, 9, 5);
    let mut whole = StreamingTranspositions::new(30, 1);
    whole.record_all(traces.iter().map(|t| OgRank2CurRank(t.clone())).collect(), &tenth);
    let mut deltas = Vec::new();
    for chunk in traces.chunks(5) {
        let mut part = StreamingTranspositions::new(30, 1);
        part.record_all(chunk.iter().map(|t| OgRank2CurRank(t.clone())).collect(), &tenth);
        deltas.push(part.inner);
    }
    let rebuilt = StreamingTranspositions::from_deltas(&deltas, &tenth);
    let ancestors = rebuilt.all_ancestors.as_ref().unwrap();
    for a in 0..30u32 {
        for b in 0..30u32 {
            assert_eq!(whole.contains(OgRank(a), OgRank(b)), ancestors.contains(OgRank(a), OgRank(b)));
        }
    }
    assert_eq!(rebuilt.traces_recorded(), whole.traces_recorded());
    assert_eq!(rebuilt.cumsum(), whole.cumsum());
}

#[test]
fn walking_the_orderings_gives_the_pairs_of_each_event() {
    let traces = random_traces(12, 6, 4, 3);
    let mut st = StreamingTranspositions::new(12, 2);
    st.record_all(traces.iter().map(|t| OgRank2CurRank(t.clone())).collect(), &tenth);
    let orderings = st.orderings();
    let mut it = orderings.iter();
    let mut i = 0u32;
    while let Some(set) = it.next() {
        for j in 0..12u32 {
            assert_eq!(set.contains(j), st.contains(OgRank(i), OgRank(j)));
        }
        i += 1;
    }
    assert_eq!(i, 12);
}
