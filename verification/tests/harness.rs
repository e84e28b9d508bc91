use sha2::{Digest, Sha256};
use ordserv::harness::{
    get_valid_port, is_lf_file_name, is_trace_csv_name, is_trace_file_name, stringify_dvec, trace_hash,
    ConstraintList, ExecResult, Status, TestId, TraceHasher,
};
use ordserv::trace::TraceRecord;
use ordserv::transpositions::OgRank;

#[test]
fn statuses() {
    assert_eq!(Status::Termination(3).code(), Some(3));
    assert_eq!(Status::Timeout.code(), None);
    assert!(Status::Termination(0).is_success());
    assert!(!Status::Termination(1).is_success());
    assert!(!Status::TerminatedBySignal.is_success());
    assert!(Status::Timeout.is_timeout());
    assert!(!Status::Termination(0).is_timeout());
    assert_eq!(Status::from_result(None), Status::Timeout);
    assert_eq!(Status::from_result(Some(None)), Status::TerminatedBySignal);
    assert_eq!(Status::from_result(Some(Some(4))), Status::Termination(4));
}

#[test]
fn retain_output_keeps_the_chosen_lines_in_order() {
    let mut r = ExecResult {
        status: Status::Termination(0),
        selected_output: vec!["keep 1".to_string(), "drop".to_string(), "keep 2".to_string()],
        stderr: "e".to_string(),
    };
    r.retain_output(|l: &str| l.starts_with("keep"));
    assert_eq!(r.selected_output, vec!["keep 1".to_string(), "keep 2".to_string()]);
    assert_eq!(r.stderr, "e");
}

#[test]
fn valid_ports_need_a_contiguous_window() {
    let mut ports: Vec<u16> = (1000..1100).collect();
    assert_eq!(get_valid_port(&ports, 0), (1000, 36));
    // A gap at 1010 pushes the window past it.
    ports = (1000..1010).chain(1200..1300).collect();
    assert_eq!(get_valid_port(&ports, 0), (1200, 10 + 36));
}

#[test]
fn delay_vectors_as_text() {
    assert_eq!(stringify_dvec(&[(5, 2), (7, -1)], 3), "2\n2 2\n4 -1\n");
    assert_eq!(stringify_dvec(&[], 0), "0\n");
}

#[test]
fn a_singleton_constraint_list() {
    let c = ConstraintList::singleton(OgRank(3), OgRank(5), 1);
    assert_eq!(c.num_of_pairs(&vec![]), 8);
    let pairs = c.to_pairs_sorted(&vec![]);
    assert_eq!(pairs.len(), 8);
    assert_eq!(pairs[7], (OgRank(3), OgRank(5)));
    assert!(pairs[..7].iter().all(|p| *p == (OgRank(0), OgRank(0))));
}

fn trace_record(event: &str, reactor: &str, time: i64, extra_delay: u64) -> TraceRecord {
    TraceRecord {
        event: event.to_string(),
        reactor: reactor.to_string(),
        source: 1,
        destination: 2,
        elapsed_logical_time: time,
        microstep: 0,
        elapsed_physical_time: 123,
        trigger: "t".to_string(),
        extra_delay,
        file_index: 0,
        line_number: 0,
        sequence_number_for_file_and_line: 0,
    }
}

#[test]
fn trace_hashes_see_what_they_are_meant_to_see() {
    let empty = TraceHasher::default().finish();
    let a = vec![trace_record("Sending TAG", "RTI", 5, 0)];
    let ha = trace_hash(&a);
    assert_ne!(ha.0, empty.0);
    assert_ne!(ha.1, empty.1);
    // The same records hash alike, whether fed one by one or as a trace.
    let mut h = TraceHasher::default();
    h.update(&a[0]);
    assert_eq!(h.finish(), ha);
    // The reactor counts for the fine hash only.
    let b = vec![trace_record("Sending TAG", "fed", 5, 0)];
    let hb = trace_hash(&b);
    assert_eq!(hb.0, ha.0);
    assert_ne!(hb.1, ha.1);
    // Negative times are left out of both.
    let c = trace_hash(&vec![trace_record("Sending TAG", "RTI", -1, 0)]);
    let d = trace_hash(&vec![trace_record("Sending TAG", "RTI", -7, 0)]);
    assert_eq!(c, d);
    // The physical time is left out of both.
    let mut e = trace_record("Sending TAG", "RTI", 5, 0);
    e.elapsed_physical_time = 999;
    assert_eq!(trace_hash(&vec![e]), ha);
}

#[test]
fn file_names_of_traces_and_programs() {
    assert!(is_trace_file_name("rti.lft"));
    assert!(!is_trace_file_name("rti.lft.bak"));
    assert!(is_trace_csv_name("federate__a.csv"));
    assert!(!is_trace_csv_name("trace_summary.csv"));
    assert!(!is_trace_csv_name("rti.lft"));
    assert!(is_lf_file_name("Test.lf"));
    assert!(is_lf_file_name("..lf"));
    assert!(!is_lf_file_name(".lf"));
    assert!(!is_lf_file_name("Test.lfx"));
}

#[test]
fn test_ids_are_the_first_half_of_the_path_digest() {
    let path = b"/src/test/C/federated/DistributedCount.lf";
    let digest = Sha256::digest(path);
    let mut first = [0u8; 16];
    first.copy_from_slice(&digest[0..16]);
    let expected = u128::from_le_bytes(first);
    let id = TestId::new(path);
    assert_eq!(id, TestId(expected));
    assert_eq!(id.to_string(), format!("{:032x}", expected));
    assert_eq!(TestId(0xab).to_string(), "000000000000000000000000000000ab");
}

#[test]
fn trace_hashes_leave_out_where_a_record_was_written() {
    let a = vec![trace_record("Sending TAG", "RTI", 5, 0), trace_record("Receiving NET", "fed", 6, 3)];
    let mut b = a.clone();
    for (k, tr) in b.iter_mut().enumerate() {
        tr.elapsed_physical_time = 77 + k as i64;
        tr.file_index = 4;
        tr.line_number = 99;
        tr.sequence_number_for_file_and_line = 12;
    }
    assert_eq!(trace_hash(&a), trace_hash(&b));
}
