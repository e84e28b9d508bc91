use ordserv::relation::DelayTerm;
use ordserv::conninfo::{
    get_nonnegative_microstep, no_delay, parse_delay, startup, ConnInfo, Delay, Fed2UpstreamDelays, FedId,
    SrcDestPair2Delay, Tag,
};

fn chars(s: &str) -> Vec<char> {
    s.chars().collect()
}

#[test]
fn reads_the_connection_information() {
    let rti = "2\n0 1 1 100\n1 0\n";
    let feds = vec!["0 1 100".to_string(), "1 0".to_string()];
    let ci = ConnInfo::from_strs(rti, &feds);
    assert_eq!(ci.n_federates(), 2);
    assert_eq!(ci.get(FedId(1), FedId(0)), Some(Delay(100, 0)));
    assert_eq!(ci.get(FedId(0), FedId(1)), None);
    assert_eq!(ci.min_delays2dest(FedId(0)), vec![(FedId(1), Delay(100, 0))]);
    assert_eq!(ci.delays_in(FedId(0)), vec![Delay(100, 0)]);
    assert_eq!(ci.delays_in(FedId(1)), vec![]);
    assert_eq!(ci.delays_out(FedId(1)), vec![(FedId(0), Delay(100, 0))]);
    assert_eq!(ci.delays_out(FedId(0)), vec![]);
}

#[test]
fn later_entries_replace_earlier_ones_and_the_table_is_ordered() {
    let rti = "2\n1 2 0 5 0 3\n0 1 1 -9223372036854775808\n";
    let t = SrcDestPair2Delay::from_str(rti).unwrap();
    assert_eq!(t.n_nodes, 2);
    assert_eq!(
        t.entries,
        vec![(FedId(0), FedId(1), Delay(3, 0)), (FedId(1), FedId(0), Delay(0, 0))]
    );
}

#[test]
fn zero_interval_is_a_microstep() {
    assert_eq!(parse_delay(&chars(" 0 ")), Ok(Delay(0, 1)));
    assert_eq!(parse_delay(&chars("-9223372036854775808")), Ok(Delay(0, 0)));
    assert_eq!(parse_delay(&chars("+7 and more")), Ok(Delay(7, 0)));
}

#[test]
fn bad_delays_are_errors() {
    assert!(parse_delay(&chars("")).is_err());
    assert!(parse_delay(&chars("x1")).is_err());
    assert!(parse_delay(&chars("-5")).is_err());
    assert!(parse_delay(&chars("9223372036854775808")).is_err());
}

#[test]
fn bad_tables_are_errors() {
    assert!(SrcDestPair2Delay::from_str("").is_err());
    assert!(SrcDestPair2Delay::from_str("x\n").is_err());
    assert!(SrcDestPair2Delay::from_str("1\n").is_err());
    assert!(SrcDestPair2Delay::from_str("1\n0 2 1 5\n").is_err());
    assert!(SrcDestPair2Delay::from_str("1\n0 1 1\n").is_err());
    assert!(SrcDestPair2Delay::from_str("1 \n0 0\n").is_err());
    assert!(SrcDestPair2Delay::from_str("1\r\n0 0\r\n").is_ok());
    assert!(Fed2UpstreamDelays::from_str("3 2 10").is_err());
    let f = Fed2UpstreamDelays::from_str("3 2 10 0 ignored").unwrap();
    assert_eq!(f.fed, FedId(3));
    assert_eq!(f.delays, vec![Delay(10, 0), Delay(0, 1)]);
}

#[test]
fn error_messages_name_what_could_not_be_read() {
    let e = |r: Result<SrcDestPair2Delay, String>| r.err().unwrap();
    assert_eq!(e(SrcDestPair2Delay::from_str("")), "No number of scheduling nodes");
    assert_eq!(
        e(SrcDestPair2Delay::from_str("x\n")),
        "Invalid number of scheduling nodes: invalid digit found in string"
    );
    assert_eq!(e(SrcDestPair2Delay::from_str("1\n")), "No scheduling node");
    assert_eq!(e(SrcDestPair2Delay::from_str("1\n\n")), "No enclave id");
    assert_eq!(
        e(SrcDestPair2Delay::from_str("1\n99999999999 0\n")),
        "Invalid enclave id: number too large to fit in target type"
    );
    assert_eq!(e(SrcDestPair2Delay::from_str("1\n0\n")), "No number of upstream federates");
    assert_eq!(e(SrcDestPair2Delay::from_str("1\n0 1\n")), "No upstream federate id");
    assert_eq!(e(SrcDestPair2Delay::from_str("1\n0 1 2\n")), "No upstream delay");
    assert_eq!(
        e(SrcDestPair2Delay::from_str("1\n0 1 2 q\n")),
        "Invalid upstream delay: Invalid interval: invalid digit found in string"
    );
    let f = |r: Result<Fed2UpstreamDelays, String>| r.err().unwrap();
    assert_eq!(f(Fed2UpstreamDelays::from_str("")), "No federate id");
    assert_eq!(f(Fed2UpstreamDelays::from_str("3")), "No number of delays");
    assert_eq!(
        f(Fed2UpstreamDelays::from_str("3 -1")),
        "Invalid number of delays: invalid digit found in string"
    );
    assert_eq!(f(Fed2UpstreamDelays::from_str("3 1")), "No delay");
    assert_eq!(
        f(Fed2UpstreamDelays::from_str("3 1 x")),
        "Invalid delay: Invalid interval: invalid digit found in string"
    );
}

#[test]
fn unreadable_federate_lines_are_reported() {
    let r = ConnInfo::try_from_strs("1\n0 0\n", &["0 1".to_string()]);
    assert!(r.is_err());
    let r = ConnInfo::try_from_strs("1\n0 0\n", &["0 0".to_string()]);
    assert!(r.is_ok());
}

#[test]
fn tag_arithmetic() {
    assert_eq!(Tag(10, 2).add(Delay(5, 1)), Tag(15, 3));
    assert_eq!(Tag(i64::MAX, 2).add(Delay(5, 1)), Tag(i64::MAX, 3));
    assert_eq!(Tag(10, 2).add(Delay(u64::MAX, 0)), Tag(i64::MAX, 2));
    assert_eq!(Tag(10, 2).strict_plus(Delay(5, 0)), Tag(14, 1));
    assert_eq!(Tag(10, 0).strict_plus(Delay(5, 0)), Tag(14, u64::MAX));
    assert_eq!(Tag(10, 2).strict_plus(Delay(0, 1)), Tag(10, 3));
    assert!(Tag(1, 5).lt(&Tag(2, 0)));
    assert!(Tag(1, 5).le(&Tag(1, 5)));
    assert!(!Tag(1, 5).lt(&Tag(1, 5)));
    assert_eq!(startup(), Tag(0, 0));
    assert_eq!(no_delay(), Delay(0, 0));
}

#[test]
fn delays_and_intervals_round_trip() {
    for i in [i64::MIN, 0, 1, 77, i64::MAX] {
        assert_eq!(Delay::from_interval(i).to_interval(), i);
    }
    assert_eq!(Delay::from_interval(0), Delay(0, 1));
    assert!(Delay(0, 1).le(&Delay(1, 0)));
}

#[test]
fn microsteps() {
    assert_eq!(get_nonnegative_microstep(-1), u64::MAX);
    assert_eq!(get_nonnegative_microstep(4), 4);
}

#[test]
fn federate_connection_files_are_recognised() {
    assert!(ordserv::conninfo::is_fed_conninfo_file_name("conninfo_0.txt"));
    assert!(ordserv::conninfo::is_fed_conninfo_file_name("conninfo_12.txt"));
    assert!(ordserv::conninfo::is_fed_conninfo_file_name("conninfo_+3.txt"));
    assert!(!ordserv::conninfo::is_fed_conninfo_file_name("conninfo.txt"));
    assert!(!ordserv::conninfo::is_fed_conninfo_file_name("conninfo_.txt"));
    assert!(!ordserv::conninfo::is_fed_conninfo_file_name("conninfo_x.txt"));
    assert!(!ordserv::conninfo::is_fed_conninfo_file_name("conninfo_-1.txt"));
    assert!(!ordserv::conninfo::is_fed_conninfo_file_name("conninfo_4294967296.txt"));
    assert!(ordserv::conninfo::is_fed_conninfo_file_name("conninfo_4294967295.txt"));
    assert!(!ordserv::conninfo::is_fed_conninfo_file_name("conninfo_1.csv"));
}

#[test]
fn tags_are_read_as_written() {
    assert_eq!(Tag::from_str("(1, 2)"), Ok(Tag(1, 2)));
    assert_eq!(Tag::from_str("(-3, 0)"), Ok(Tag(-3, 0)));
    assert_eq!(Tag::from_str("(1, 2, 3)"), Ok(Tag(1, 2)));
    assert_eq!(Tag::from_str("(5, -1)"), Ok(Tag(5, u64::MAX)));
    assert_eq!(Tag::from_str("(1)"), Err("No count".to_string()));
    assert_eq!(
        Tag::from_str("(x, 1)"),
        Err("Invalid time: invalid digit found in string".to_string())
    );
    assert_eq!(
        Tag::from_str("(1, )"),
        Err("Invalid count: cannot parse integer from empty string".to_string())
    );
}

#[test]
fn tag_text_reads_back() {
    for t in [Tag(0, 0), Tag(1, 2), Tag(-7, 3), Tag(i64::MIN, i64::MAX as u64), Tag(i64::MAX, 0)] {
        assert_eq!(Tag::from_str(&t.to_string()), Ok(t));
    }
}

#[test]
fn delays_from_a_federate_are_those_of_its_own_connections() {
    let feds = vec!["0 0".to_string(), "1 0".to_string(), "2 2 1 9".to_string()];
    let c = ConnInfo::from_strs("3\n0 0\n1 0\n2 2 0 1 1 9\n", &feds);
    assert_eq!(c.delays_out(FedId(0)), vec![(FedId(2), Delay(1, 0))]);
    assert_eq!(c.delays_out(FedId(1)), vec![(FedId(2), Delay(9, 0))]);
    assert_eq!(c.delays_out(FedId(2)), vec![]);
    let fedids = (FedId(0), FedId(2));
    assert_eq!(DelayTerm::LargestDelayFrom.eval(FedId(0), fedids, &c), Some(Delay::from_interval(1)));
    assert_eq!(DelayTerm::SmallestDelayFrom.eval(FedId(0), fedids, &c), Some(Delay(1, 0)));
    assert_eq!(DelayTerm::LargestDelayFrom.eval(FedId(1), fedids, &c), Some(Delay(9, 0)));
    assert_eq!(DelayTerm::LargestDelayFrom.eval(FedId(2), fedids, &c), None);
}
