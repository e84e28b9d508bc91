use ordserv::computed::ComputedPrecedences;
use ordserv::conninfo::{ConnInfo, FedId, Tag};
use ordserv::rankset::RankSet;
use ordserv::relation::{ConcEvent, EventKind, OgRank};
use ordserv::trace::TraceRecord;

fn record(i: u32) -> TraceRecord {
    TraceRecord {
        event: "Sending TAG".to_string(),
        reactor: "RTI".to_string(),
        source: -1,
        destination: 0,
        elapsed_logical_time: i as i64,
        microstep: 0,
        elapsed_physical_time: i as i64,
        trigger: "NO TRIGGER".to_string(),
        extra_delay: 0,
        file_index: 0,
        line_number: 0,
        sequence_number_for_file_and_line: i,
    }
}

fn event(i: u32) -> ConcEvent {
    ConcEvent { event: EventKind::SendTag, tag: Tag(i as i64, 0), fedid: FedId(0), ogrank: OgRank(i) }
}

fn set(universe: usize, members: &[u32]) -> RankSet {
    let mut s = RankSet::new(universe);
    for m in members {
        s.insert(*m);
    }
    s
}

#[test]
fn records_and_counts_permutables() {
    let ci = ConnInfo::from_strs("1\n0 0\n", &["0 0".to_string()]);
    let mut cp = ComputedPrecedences::default();
    cp.add_test(
        "a".to_string(),
        vec![record(0), record(1), record(2)],
        vec![event(0), event(1), event(2)],
        vec![set(0, &[]), set(1, &[0]), set(2, &[1, 0])],
        ci,
    );
    let entry = cp.get("a");
    assert_eq!(entry.1, vec![vec![], vec![OgRank(0)], vec![OgRank(0), OgRank(1)]]);
    assert_eq!(cp.n_permutables("a"), 3);
    assert_eq!(cp.max_n_permutables("a"), 3);
}

#[test]
fn permutables_are_given_by_original_rank_in_order() {
    let ci = ConnInfo::from_strs("1\n0 0\n", &["0 0".to_string()]);
    let mut cp = ComputedPrecedences::default();
    // The elaborated trace lists the events in another order than their original ranks.
    let etrace = vec![event(1), event(0), event(2)];
    cp.add_test(
        "b".to_string(),
        vec![record(0), record(1), record(2)],
        etrace,
        vec![set(0, &[]), set(1, &[]), set(2, &[0, 1])],
        ci,
    );
    assert_eq!(cp.get("b").1[2], vec![OgRank(0), OgRank(1)]);
}

#[test]
fn the_first_test_of_a_name_is_found() {
    let mut cp = ComputedPrecedences::default();
    for (name, n) in [("x", 1usize), ("y", 2), ("x", 3)] {
        let records: Vec<TraceRecord> = (0..n as u32).map(record).collect();
        let events: Vec<ConcEvent> = (0..n as u32).map(event).collect();
        let perms: Vec<RankSet> = (0..n).map(|k| RankSet::new(k)).collect();
        cp.add_test(name.to_string(), records, events, perms, ConnInfo::from_strs("1\n0 0\n", &["0 0".to_string()]));
    }
    assert_eq!(cp.get("x").0.len(), 1);
    assert_eq!(cp.get("y").0.len(), 2);
    assert_eq!(cp.max_n_permutables("y"), 1);
    assert_eq!(cp.n_permutables("y"), 0);
}
