//! Loading edges from comma-separated data without a header: each record
//! holds the source node, the target node and the weight of one edge.

use crate::graph::Edge;
use vstd::prelude::*;

pub mod number;
pub mod weight;

use number::node_of;
use number::parse_node;
use weight::parse_weight;
use weight::weight_of;

verus! {

/// Why data could not be loaded.
#[derive(Debug, Clone, Copy, PartialEq, Eq)]
pub enum LoadError {
    /// The data is not well-formed comma-separated text.
    Malformed,
    /// A record has fewer than three fields.
    MissingField { record: usize },
    /// The first or the second field of a record names no node.
    InvalidNode { record: usize },
    /// The third field of a record is no weight.
    InvalidWeight { record: usize },
}

/// The error of the csv crate.
#[verifier::external_type_specification]
#[verifier::external_body]
pub struct ExCsvError(csv::Error);

/// The records that the csv crate reads from `data`, taken without a
/// header, up to the first that it reports as an error: each record as the
/// bytes of its fields, and whether an error ended the reading.
pub uninterp spec fn csv_records(data: Seq<u8>) -> (Seq<Seq<Seq<u8>>>, bool);

/// The fields of a record.
pub open spec fn fields_of(record: Vec<Vec<u8>>) -> Seq<Seq<u8>> {
    record@.map_values(|field: Vec<u8>| field@)
}

/// The fields of each record.
pub open spec fn records_of(records: Vec<Vec<Vec<u8>>>) -> Seq<Seq<Seq<u8>>> {
    records@.map_values(|record: Vec<Vec<u8>>| fields_of(record))
}

/// The edge that the record with the number `record` holds, or what is
/// wrong with it: the fields are taken in order.
pub open spec fn edge_of(fields: Seq<Seq<u8>>, record: usize) -> Result<Edge, LoadError> {
    if fields.len() < 1 {
        Err(LoadError::MissingField { record })
    } else if node_of(fields[0]) is None {
        Err(LoadError::InvalidNode { record })
    } else if fields.len() < 2 {
        Err(LoadError::MissingField { record })
    } else if node_of(fields[1]) is None {
        Err(LoadError::InvalidNode { record })
    } else if fields.len() < 3 {
        Err(LoadError::MissingField { record })
    } else if weight_of(fields[2]) is None {
        Err(LoadError::InvalidWeight { record })
    } else {
        Ok(
            (Edge {
                from: node_of(fields[0])->0,
                to: node_of(fields[1])->0,
                weight: weight_of(fields[2])->0,
            }),
        )
    }
}

/// The edges that the records hold, in their order, or what is wrong with
/// the first record that holds none.
pub open spec fn edges_of(records: Seq<Seq<Seq<u8>>>) -> Result<Seq<Edge>, LoadError>
    decreases records.len(),
{
    if records.len() == 0 {
        Ok(Seq::empty())
    } else {
        match edges_of(records.drop_last()) {
            Err(e) => Err(e),
            Ok(edges) => match edge_of(records.last(), (records.len() - 1) as usize) {
                Err(e) => Err(e),
                Ok(edge) => Ok(edges.push(edge)),
            },
        }
    }
}

/// What `read_csv` returns for data of which the csv crate reads
/// `records`, and then reports an error where `failed` is set: the error of
/// the first record that holds no edge; else the error of the data; else
/// the edges.
pub open spec fn loaded(records: Seq<Seq<Seq<u8>>>, failed: bool) -> Result<Seq<Edge>, LoadError> {
    match edges_of(records) {
        Err(e) => Err(e),
        Ok(edges) => if failed {
            Err(LoadError::Malformed)
        } else {
            Ok(edges)
        },
    }
}

/// Whether `result` stands for `expected`.
pub open spec fn gives(
    result: Result<Vec<Edge>, LoadError>,
    expected: Result<Seq<Edge>, LoadError>,
) -> bool {
    match result {
        Ok(edges) => expected == Ok::<Seq<Edge>, LoadError>(edges@),
        Err(e) => expected == Err::<Seq<Edge>, LoadError>(e),
    }
}

/// Reads `data` with `csv::ReaderBuilder` and `csv::Reader::records`,
/// without a header line, and hands out each record as the bytes of its
/// fields, up to the first error that the crate reports, and that error.
/// The result is what the csv crate makes of the bytes, named
/// `csv_records`; nothing else is claimed of it.
#[verifier::external_body]
fn split_records(data: &[u8]) -> (records: (Vec<Vec<Vec<u8>>>, Option<csv::Error>))
    ensures
        csv_records(data@) == (records_of(records.0), records.1 is Some),
{
    let mut reader = csv::ReaderBuilder::new().has_headers(false).from_reader(data);
    let mut rows = Vec::new();
    for record in reader.records() {
        match record {
            Ok(fields) => rows.push(fields.iter().map(|f| f.as_bytes().to_vec()).collect()),
            Err(error) => return (rows, Some(error)),
        }
    }
    (rows, None)
}

/// The edge of one record.
pub fn edge_from_record(fields: &Vec<Vec<u8>>, record: usize) -> (edge: Result<Edge, LoadError>)
    ensures
        edge == edge_of(fields_of(*fields), record),
{
    if fields.len() < 1 {
        return Err(LoadError::MissingField { record });
    }
    let from = match parse_node(fields[0].as_slice()) {
        Some(node) => node,
        None => {
            return Err(LoadError::InvalidNode { record });
        },
    };
    if fields.len() < 2 {
        return Err(LoadError::MissingField { record });
    }
    let to = match parse_node(fields[1].as_slice()) {
        Some(node) => node,
        None => {
            return Err(LoadError::InvalidNode { record });
        },
    };
    if fields.len() < 3 {
        return Err(LoadError::MissingField { record });
    }
    let weight = match parse_weight(fields[2].as_slice()) {
        Some(weight) => weight,
        None => {
            return Err(LoadError::InvalidWeight { record });
        },
    };
    Ok(Edge { from, to, weight })
}

/// The edges of the records, in their order; the error of the first
/// record that holds no edge.
pub fn edges_from_records(records: &Vec<Vec<Vec<u8>>>) -> (edges: Result<Vec<Edge>, LoadError>)
    ensures
        gives(edges, edges_of(records_of(*records))),
{
    let mut edges: Vec<Edge> = Vec::new();
    let mut i: usize = 0;
    while i < records.len()
        invariant
            i <= records.len(),
            edges_of(records_of(*records).take(i as int)) == Ok::<Seq<Edge>, LoadError>(edges@),
        decreases records.len() - i,
    {
        let ghost seen = records_of(*records).take(i as int);
        let ghost next = records_of(*records).take(i as int + 1);
        proof {
            assert(next.drop_last() =~= seen);
        }
        match edge_from_record(&records[i], i) {
            Ok(edge) => {
                edges.push(edge);
            },
            Err(e) => {
                proof {
                    lemma_error_stays(records_of(*records), i as int + 1);
                }
                return Err(e);
            },
        }
        i += 1;
    }
    assert(records_of(*records).take(i as int) =~= records_of(*records));
    Ok(edges)
}

/// An error among the first records is the error of all.
proof fn lemma_error_stays(records: Seq<Seq<Seq<u8>>>, upto: int)
    requires
        0 <= upto <= records.len(),
        edges_of(records.take(upto)) is Err,
    ensures
        edges_of(records) == edges_of(records.take(upto)),
    decreases records.len() - upto,
{
    if upto == records.len() {
        assert(records.take(upto) =~= records);
    } else {
        assert(records.take(upto + 1).drop_last() =~= records.take(upto));
        lemma_error_stays(records, upto + 1);
    }
}

/// Loads the edges from comma-separated data without a header. Each
/// record gives an edge by its first three fields: source, target and
/// weight. The data is split by the csv crate. The first record that holds
/// no edge is an error, and so is data that the crate does not accept to
/// its end.
pub fn read_csv(data: &[u8]) -> (edges: Result<Vec<Edge>, LoadError>)
    ensures
        gives(edges, loaded(csv_records(data@).0, csv_records(data@).1)),
{
    let (records, failure) = split_records(data);
    match edges_from_records(&records) {
        Ok(edges) => match failure {
            Some(_) => Err(LoadError::Malformed),
            None => Ok(edges),
        },
        Err(e) => Err(e),
    }
}

} // verus!
