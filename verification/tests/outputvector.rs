use std::collections::hash_map::DefaultHasher;
use std::collections::HashMap;
use std::hash::{Hash, Hasher};

use rand::seq::SliceRandom;
use rand::Rng;

use ordserv::outputvector::{OutputVector, OutputVectorKey, OvrReg, TracePointId, VectorfyStatus};
use ordserv::trace::TraceRecord;
use ordserv::transpositions::{CurRank, OgRank2CurRank};

fn mock_record() -> TraceRecord {
    let rng = &mut rand::thread_rng();
    TraceRecord {
        event: ["A", "B", "C", "D"].choose(rng).unwrap().to_string(),
        reactor: ["R", "S", "T", "U"].choose(rng).unwrap().to_string(),
        source: rng.gen(),
        destination: rng.gen(),
        elapsed_logical_time: rng.gen(),
        microstep: rng.gen(),
        elapsed_physical_time: rng.gen(),
        trigger: ["W", "X", "Y", "Z"].choose(rng).unwrap().to_string(),
        extra_delay: rng.gen(),
        file_index: rng.gen::<u32>() % 10,
        line_number: rng.gen::<u32>() % 10,
        sequence_number_for_file_and_line: rng.gen::<u32>() % 100,
    }
}

fn tracepoint_id(tr: &TraceRecord) -> TracePointId {
    let mut hash = DefaultHasher::new();
    tr.event.hash(&mut hash);
    tr.reactor.hash(&mut hash);
    tr.source.hash(&mut hash);
    tr.destination.hash(&mut hash);
    tr.elapsed_logical_time.hash(&mut hash);
    tr.microstep.hash(&mut hash);
    tr.trigger.hash(&mut hash);
    tr.extra_delay.hash(&mut hash);
    TracePointId(hash.finish())
}

fn ranks_of(key: &OutputVectorKey, id: TracePointId) -> Vec<u32> {
    key.map.iter().find(|(k, _)| *k == id).map(|(_, v)| v.iter().map(|r| r.0).collect()).unwrap()
}

#[test]
fn test_output_vector() {
    let length = 723;
    let rounded_up = (length - 1) / 32 * 32 + 32;
    let mut ovr = OvrReg::default();
    let og_trace = (0..length).map(|_| mock_record()).collect::<Vec<_>>();
    let mut new_trace = og_trace.clone();
    for _ in 0..23 {
        let start = rand::random::<usize>() % length;
        let end = rand::random::<usize>() % 14;
        new_trace[start..end.max(length)].shuffle(&mut rand::thread_rng());
    }
    let ovk = OutputVectorKey::new(og_trace, 1);
    let (ov, _, _) = ovk.vectorfy(&new_trace);
    let ov = OutputVector::new(ov, &mut ovr);
    let ov = ov.unpack(&ovr);
    let new_trace_og_ranks = new_trace
        .iter()
        .map(|id| ranks_of(&ovk, TracePointId::new(id))[0])
        .enumerate()
        .map(|(i, rank)| (rank, i as u32))
        .collect::<HashMap<_, _>>();
    assert_eq!(
        ov,
        (0..rounded_up)
            .map(|it| *new_trace_og_ranks.get(&(it as u32)).unwrap_or(&(length as u32)))
            .map(CurRank)
            .collect::<Vec<_>>()
    );
}

#[test]
fn vectorfy_places_occurrences_in_order() {
    let ids = vec![TracePointId(5), TracePointId(7), TracePointId(5)];
    let records = (0..3).map(|_| mock_record()).collect::<Vec<_>>();
    let key = OutputVectorKey::from_ids(records, ids, 4);
    assert_eq!(key.len(), 4);
    assert_eq!(ranks_of(&key, TracePointId(5)), vec![0, 2]);
    // The run sees 7, then 5 twice.
    let (ov, status) = key.vectorfy_ids(&vec![TracePointId(7), TracePointId(5), TracePointId(5)]);
    assert_eq!(ov.0, vec![CurRank(1), CurRank(0), CurRank(2), CurRank(4)]);
    assert_eq!(status, VectorfyStatus::Matched);
}

#[test]
fn vectorfy_reports_missing_and_extra_points() {
    let ids = vec![TracePointId(1), TracePointId(2)];
    let records = (0..2).map(|_| mock_record()).collect::<Vec<_>>();
    let key = OutputVectorKey::from_ids(records, ids, 1);
    let (ov, status) = key.vectorfy_ids(&vec![TracePointId(2), TracePointId(9)]);
    assert_eq!(ov.0, vec![CurRank(2), CurRank(0)]);
    assert_eq!(status, VectorfyStatus::MissingTracePointId);
    let (_, status) = key.vectorfy_ids(&vec![TracePointId(9), TracePointId(1), TracePointId(1)]);
    assert_eq!(status, VectorfyStatus::ExtraTracePointId);
}

#[test]
fn equal_orders_share_their_nodes() {
    let mut ovr = OvrReg::default();
    let order: Vec<CurRank> = (0..100).rev().map(CurRank).collect();
    let a = OutputVector::new(OgRank2CurRank(order.clone()), &mut ovr);
    let size = ovr.idx2node.len();
    let b = OutputVector::new(OgRank2CurRank(order.clone()), &mut ovr);
    assert_eq!(ovr.idx2node.len(), size);
    assert_eq!(a.data, b.data);
    let unpacked = b.unpack(&ovr);
    assert_eq!(&unpacked[..100], &order[..]);
    assert!(unpacked[100..].iter().all(|r| *r == CurRank(100)));
}

#[test]
fn earlier_orders_survive_later_ones() {
    let mut ovr = OvrReg::default();
    let first: Vec<CurRank> = (0..40).map(CurRank).collect();
    let a = OutputVector::new(OgRank2CurRank(first.clone()), &mut ovr);
    let second: Vec<CurRank> = (0..40).map(|i| CurRank((i * 7) % 40)).collect();
    let _b = OutputVector::new(OgRank2CurRank(second), &mut ovr);
    let unpacked = a.unpack(&ovr);
    assert_eq!(&unpacked[..40], &first[..]);
    assert_eq!(unpacked.len(), 64);
}

#[test]
fn registry_rebuilds_from_its_deltas() {
    let mut ovr = OvrReg::default();
    let a = OutputVector::new(OgRank2CurRank((0..70).map(CurRank).collect()), &mut ovr);
    let d1 = ovr.delta();
    ovr.update_saved_up_to_for_saving_deltas();
    let b = OutputVector::new(OgRank2CurRank((0..70).rev().map(CurRank).collect()), &mut ovr);
    let d2 = ovr.delta();
    assert_eq!(d1.idx2node.len() + d2.idx2node.len(), ovr.idx2node.len());
    let rebuilt = OvrReg::rebuild(vec![d1, d2]);
    assert_eq!(rebuilt.idx2node.len(), ovr.idx2node.len());
    assert_eq!(rebuilt.idx2node_saved_up_to.0 as usize, rebuilt.idx2node.len());
    assert_eq!(a.unpack(&rebuilt), a.unpack(&ovr));
    assert_eq!(b.unpack(&rebuilt), b.unpack(&ovr));
    for (i, node) in rebuilt.idx2node.iter().enumerate() {
        assert_eq!(rebuilt.index_of(node).map(|it| it.0 as usize), Some(i));
    }
}

#[test]
fn storing_an_order_again_adds_no_node() {
    let mut ovr = OvrReg::default();
    let order: Vec<CurRank> = (0..100).rev().map(CurRank).collect();
    let a = OutputVector::new(OgRank2CurRank(order.clone()), &mut ovr);
    let n = ovr.idx2node.len();
    let b = OutputVector::new(OgRank2CurRank(order), &mut ovr);
    assert_eq!(ovr.idx2node.len(), n);
    assert_eq!(a.data.0, b.data.0);
}

#[test]
fn default_rank_relative_to_its_chunk_is_lost() {
    // In the chunk that starts at 32, rank 32 + 40 is stored as 40, the default rank.
    let mut order: Vec<CurRank> = (0..40).map(CurRank).collect();
    order[33] = CurRank(72);
    let mut ovr = OvrReg::default();
    let v = OutputVector::new(OgRank2CurRank(order), &mut ovr);
    let unpacked = v.unpack(&ovr);
    assert_eq!(unpacked[33], CurRank(40));
}

#[test]
fn trace_point_ids_hash_the_identifying_fields() {
    let a = mock_record();
    assert_eq!(TracePointId::new(&a), tracepoint_id(&a));
    let mut b = a.clone();
    b.elapsed_physical_time = a.elapsed_physical_time.wrapping_add(1);
    b.line_number = a.line_number + 1;
    assert_eq!(TracePointId::new(&b), TracePointId::new(&a));
    let mut c = a.clone();
    c.trigger.push('!');
    assert_ne!(TracePointId::new(&c), TracePointId::new(&a));
}

#[test]
fn runs_are_vectorfied_and_hashed() {
    let og: Vec<TraceRecord> = (0..5).map(|_| mock_record()).collect();
    let key = OutputVectorKey::new(og.clone(), 1);
    let mut run = og.clone();
    run.swap(1, 3);
    let (ov, hash, status) = key.vectorfy(&run);
    assert_eq!(status, VectorfyStatus::Matched);
    assert_eq!(ov.0[1], CurRank(3));
    assert_eq!(ov.0[3], CurRank(1));
    assert_eq!(ov.0[0], CurRank(0));
    assert_eq!(hash, ordserv::harness::trace_hash(&run));
}
