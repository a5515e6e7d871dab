use trustnet::data_loader::edge_from_record;
use trustnet::data_loader::edges_from_records;
use trustnet::data_loader::number::parse_node;
use trustnet::data_loader::read_csv;
use trustnet::data_loader::weight::parse_weight;
use trustnet::data_loader::LoadError;
use trustnet::graph::Edge;
use trustnet::graph::Graph;

fn triples(edges: &[Edge]) -> Vec<(usize, usize, i64)> {
    edges.iter().map(|e| (e.from, e.to, e.weight)).collect()
}

fn record(fields: &[&str]) -> Vec<Vec<u8>> {
    fields.iter().map(|f| f.as_bytes().to_vec()).collect()
}

#[test]
fn read_csv_reads_each_record_as_an_edge() {
    let edges = read_csv(b"7188,1,10,1407470400\n430,1,-2.5,1376539200\n1,7188,+0.000001,0\n").unwrap();
    assert_eq!(
        triples(&edges),
        vec![(7188, 1, 10_000_000), (430, 1, -2_500_000), (1, 7188, 1)]
    );
}

#[test]
fn read_csv_takes_the_first_line_as_a_record() {
    let edges = read_csv(b"1,2,3\n").unwrap();
    assert_eq!(triples(&edges), vec![(1, 2, 3_000_000)]);
    assert!(read_csv(b"").unwrap().is_empty());
}

#[test]
fn read_csv_takes_quoted_fields_and_last_line_without_end() {
    let edges = read_csv(b"\"1\",\"2\",\"0.5\"\r\n3,4,1").unwrap();
    assert_eq!(triples(&edges), vec![(1, 2, 500_000), (3, 4, 1_000_000)]);
}

#[test]
fn read_csv_feeds_the_graph() {
    let edges = read_csv(b"1,2,1.5\n3,2,2.5\n").unwrap();
    let graph = Graph::new(&edges);
    assert_eq!(graph.nodes(), vec![1, 2, 3]);
    assert_eq!(graph.get_trust_score(2), 2_000_000);
}

#[test]
fn read_csv_rejects_records_of_unequal_length() {
    assert_eq!(read_csv(b"1,2,3\n4,5\n").map(|e| triples(&e)), Err(LoadError::Malformed));
}

#[test]
fn read_csv_reports_a_record_without_edge_before_later_bad_data() {
    assert_eq!(
        read_csv(b"1,x,3\n4,5\n").map(|e| triples(&e)),
        Err(LoadError::InvalidNode { record: 0 })
    );
    assert_eq!(
        read_csv(b"1,2,3\n4,5,?\n6,7\n").map(|e| triples(&e)),
        Err(LoadError::InvalidWeight { record: 1 })
    );
}

#[test]
fn read_csv_rejects_bytes_that_are_no_text() {
    assert_eq!(read_csv(b"1,2,3,\xff\xfe\n").map(|e| triples(&e)), Err(LoadError::Malformed));
}

#[test]
fn read_csv_reports_the_first_record_without_an_edge() {
    assert_eq!(
        read_csv(b"1,2,3\n1,x,3\n1,2,y\n").map(|e| triples(&e)),
        Err(LoadError::InvalidNode { record: 1 })
    );
    assert_eq!(
        read_csv(b"1,2,3\n1,2,3\n1,2,y\n").map(|e| triples(&e)),
        Err(LoadError::InvalidWeight { record: 2 })
    );
    assert_eq!(
        read_csv(b"1,2\n3,4\n").map(|e| triples(&e)),
        Err(LoadError::MissingField { record: 0 })
    );
    assert_eq!(
        read_csv(b"-1,2,3\n").map(|e| triples(&e)),
        Err(LoadError::InvalidNode { record: 0 })
    );
}

#[test]
fn record_fields_are_taken_in_order() {
    assert_eq!(edge_from_record(&record(&[]), 4), Err(LoadError::MissingField { record: 4 }));
    assert_eq!(edge_from_record(&record(&["x"]), 4), Err(LoadError::InvalidNode { record: 4 }));
    assert_eq!(edge_from_record(&record(&["1"]), 4), Err(LoadError::MissingField { record: 4 }));
    assert_eq!(edge_from_record(&record(&["1", ""]), 4), Err(LoadError::InvalidNode { record: 4 }));
    assert_eq!(edge_from_record(&record(&["1", "2"]), 4), Err(LoadError::MissingField { record: 4 }));
    assert_eq!(
        edge_from_record(&record(&["1", "2", "1x3"]), 4),
        Err(LoadError::InvalidWeight { record: 4 })
    );
    assert_eq!(
        edge_from_record(&record(&["1", "2", "1e3"]), 4).map(|e| (e.from, e.to, e.weight)),
        Ok((1, 2, 1_000_000_000))
    );
    assert_eq!(
        edge_from_record(&record(&["1", "2", "-7", "more"]), 4).map(|e| (e.from, e.to, e.weight)),
        Ok((1, 2, -7_000_000))
    );
}

#[test]
fn records_give_edges_until_the_first_error() {
    let good = vec![record(&["1", "2", "3"]), record(&["4", "5", "6"])];
    assert_eq!(
        edges_from_records(&good).map(|e| triples(&e)),
        Ok(vec![(1, 2, 3_000_000), (4, 5, 6_000_000)])
    );
    let bad = vec![record(&["1", "2", "3"]), record(&["4", "5", "?"]), record(&["?"])];
    assert_eq!(
        edges_from_records(&bad).map(|e| triples(&e)),
        Err(LoadError::InvalidWeight { record: 1 })
    );
    assert_eq!(edges_from_records(&Vec::new()).map(|e| triples(&e)), Ok(Vec::new()));
}

#[test]
fn nodes_are_decimal_numbers_within_usize() {
    assert_eq!(parse_node(b"0"), Some(0));
    assert_eq!(parse_node(b"007"), Some(7));
    assert_eq!(parse_node(b"+42"), Some(42));
    assert_eq!(parse_node(usize::MAX.to_string().as_bytes()), Some(usize::MAX));
    assert_eq!(parse_node(b"18446744073709551616"), None);
    assert_eq!(parse_node(b"99999999999999999999999999999999999999999999"), None);
    assert_eq!(parse_node(b""), None);
    assert_eq!(parse_node(b"+"), None);
    assert_eq!(parse_node(b"-0"), None);
    assert_eq!(parse_node(b"++1"), None);
    assert_eq!(parse_node(b"1.0"), None);
    assert_eq!(parse_node(b" 1"), None);
    assert_eq!(parse_node(b"1_000"), None);
    assert_eq!(parse_node(b"12a"), None);
    assert_eq!(parse_node("١٢".as_bytes()), None);
}

#[test]
fn weights_are_decimal_numbers_in_millionths() {
    assert_eq!(parse_weight(b"1.5"), Some(1_500_000));
    assert_eq!(parse_weight(b"-10"), Some(-10_000_000));
    assert_eq!(parse_weight(b"+4"), Some(4_000_000));
    assert_eq!(parse_weight(b"0"), Some(0));
    assert_eq!(parse_weight(b"-0"), Some(0));
    assert_eq!(parse_weight(b".5"), Some(500_000));
    assert_eq!(parse_weight(b"5."), Some(5_000_000));
    assert_eq!(parse_weight(b"-.25"), Some(-250_000));
    assert_eq!(parse_weight(b"0.000001"), Some(1));
    assert_eq!(parse_weight(b"000.123456"), Some(123_456));
    assert_eq!(parse_weight(b"12.000"), Some(12_000_000));
}

#[test]
fn weight_digits_behind_the_sixth_are_dropped() {
    assert_eq!(parse_weight(b"1.2345678"), Some(1_234_567));
    assert_eq!(parse_weight(b"-1.2345678"), Some(-1_234_567));
    assert_eq!(parse_weight(b"0.0000009"), Some(0));
    assert_eq!(parse_weight(b"0.9999999999999999999999999999"), Some(999_999));
    assert_eq!(parse_weight(b"0.123456x"), None);
}

#[test]
fn weights_that_do_not_fit_are_rejected() {
    assert_eq!(parse_weight(b"9223372036854.775807"), Some(i64::MAX));
    assert_eq!(parse_weight(b"9223372036854.775808"), None);
    assert_eq!(parse_weight(b"-9223372036854.775808"), Some(i64::MIN));
    assert_eq!(parse_weight(b"-9223372036854.775809"), None);
    assert_eq!(parse_weight(b"9223372036855"), None);
    assert_eq!(parse_weight(b"123456789012345678901234567890123456789012345678901234567890"), None);
}

#[test]
fn other_notations_are_no_weights() {
    assert_eq!(parse_weight(b""), None);
    assert_eq!(parse_weight(b"."), None);
    assert_eq!(parse_weight(b"-"), None);
    assert_eq!(parse_weight(b"+."), None);
    assert_eq!(parse_weight(b"--1"), None);
    assert_eq!(parse_weight(b"1..2"), None);
    assert_eq!(parse_weight(b"1.2.3"), None);
    assert_eq!(parse_weight(b"1e"), None);
    assert_eq!(parse_weight(b"1e+"), None);
    assert_eq!(parse_weight(b"1e-"), None);
    assert_eq!(parse_weight(b"e3"), None);
    assert_eq!(parse_weight(b".e3"), None);
    assert_eq!(parse_weight(b"-e3"), None);
    assert_eq!(parse_weight(b"1e3e4"), None);
    assert_eq!(parse_weight(b"1e3.5"), None);
    assert_eq!(parse_weight(b"1e 3"), None);
    assert_eq!(parse_weight(b"1e++3"), None);
    assert_eq!(parse_weight(b"1.2.3e1"), None);
    assert_eq!(parse_weight(b"infinity"), None);
    assert_eq!(parse_weight(b"-inf"), None);
    assert_eq!(parse_weight(b"nan"), None);
    assert_eq!(parse_weight(b"inf"), None);
    assert_eq!(parse_weight(b"NaN"), None);
    assert_eq!(parse_weight(b" 1"), None);
    assert_eq!(parse_weight(b"1 "), None);
    assert_eq!(parse_weight(b"1,5"), None);
    assert_eq!(parse_weight(b"0x10"), None);
}

#[test]
fn weights_may_have_an_exponent() {
    assert_eq!(parse_weight(b"1e3"), Some(1_000_000_000));
    assert_eq!(parse_weight(b"1E3"), Some(1_000_000_000));
    assert_eq!(parse_weight(b"1e+3"), Some(1_000_000_000));
    assert_eq!(parse_weight(b"-2.5e1"), Some(-25_000_000));
    assert_eq!(parse_weight(b"+2.5E+1"), Some(25_000_000));
    assert_eq!(parse_weight(b"1e0"), Some(1_000_000));
    assert_eq!(parse_weight(b"1e-0"), Some(1_000_000));
    assert_eq!(parse_weight(b"15e-1"), Some(1_500_000));
    assert_eq!(parse_weight(b"5.e3"), Some(5_000_000_000));
    assert_eq!(parse_weight(b".5e3"), Some(500_000_000));
    assert_eq!(parse_weight(b"1e-6"), Some(1));
    assert_eq!(parse_weight(b"1.5e-6"), Some(1));
    assert_eq!(parse_weight(b"1e-7"), Some(0));
    assert_eq!(parse_weight(b"-1e-7"), Some(0));
    assert_eq!(parse_weight(b"123456789e-3"), Some(123_456_789_000));
    assert_eq!(parse_weight(b"0.000123456789e6"), Some(123_456_789));
    assert_eq!(parse_weight(b"1e007"), Some(10_000_000_000_000));
}

#[test]
fn weights_with_an_exponent_fit_or_are_rejected() {
    assert_eq!(parse_weight(b"9.223372036854775807e12"), Some(i64::MAX));
    assert_eq!(parse_weight(b"9.223372036854775808e12"), None);
    assert_eq!(parse_weight(b"-9.223372036854775808e12"), Some(i64::MIN));
    assert_eq!(parse_weight(b"-9.223372036854775809e12"), None);
    assert_eq!(parse_weight(b"1e12"), Some(1_000_000_000_000_000_000));
    assert_eq!(parse_weight(b"1e13"), None);
    assert_eq!(parse_weight(b"1e400"), None);
    assert_eq!(parse_weight(b"1e99999999999999999999999999999999999999"), None);
    assert_eq!(parse_weight(b"0e99999999999999999999999999999999999999"), Some(0));
    assert_eq!(parse_weight(b"0.000e25"), Some(0));
    assert_eq!(parse_weight(b"1e-99999999999999999999999999999999999999"), Some(0));
    assert_eq!(parse_weight(b"123456789012345678901234567890e-20"), Some(1_234_567_890_123_456));
    assert_eq!(parse_weight(b"92233720368547758070000e-10"), Some(i64::MAX));
    assert_eq!(parse_weight(b"0.00000000000000000001e25"), Some(100_000_000_000));
}

#[test]
fn read_csv_takes_weights_with_an_exponent() {
    let edges = read_csv(b"1,2,1e3\n2,3,-2.5E-1\n").unwrap();
    assert_eq!(triples(&edges), vec![(1, 2, 1_000_000_000), (2, 3, -250_000)]);
}
