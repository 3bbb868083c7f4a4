use zarrdf::array::write_index;
use zarrdf::array::IndexArray;
use zarrdf::dictionary::Dictionary;
use zarrdf::error::ZarrDfError;
use zarrdf::index::Index;
use zarrdf::query::expand_row;
use zarrdf::query::BasicGraphPattern;
use zarrdf::query::Query;
use zarrdf::storage::Storage;

fn sample() -> Vec<[u64; 3]> {
    vec![[1, 0, 2], [0, 1, 0], [1, 1, 1], [0, 0, 2], [2, 0, 0], [1, 0, 0], [1, 0, 2]]
}

fn storage_of(triples: &Vec<[u64; 3]>) -> Storage<IndexArray> {
    Storage {
        dictionary: Dictionary::new(Vec::new(), Vec::new(), Vec::new()).unwrap(),
        subject: Some(write_index(triples, Index::Subject).unwrap()),
        predicate: Some(write_index(triples, Index::Predicate).unwrap()),
        object: Some(write_index(triples, Index::Object).unwrap()),
    }
}

fn filtered(
    triples: &Vec<[u64; 3]>,
    subject: Option<u64>,
    predicate: Option<u64>,
    object: Option<u64>,
) -> Vec<[u64; 3]> {
    triples
        .iter()
        .filter(|triple| {
            subject.map_or(true, |s| triple[0] == s)
                && predicate.map_or(true, |p| triple[1] == p)
                && object.map_or(true, |o| triple[2] == o)
        })
        .cloned()
        .collect()
}

#[test]
fn a_row_is_expanded_around_its_leading_id() {
    let row = vec![4, 5, 6, 7];
    assert_eq!(expand_row(Index::Subject, 9, &row, None, None, None), vec![[9, 4, 5], [9, 6, 7]]);
    assert_eq!(expand_row(Index::Predicate, 9, &row, None, None, None), vec![[4, 9, 5], [6, 9, 7]]);
    assert_eq!(expand_row(Index::Object, 9, &row, None, None, None), vec![[4, 5, 9], [6, 7, 9]]);
}

#[test]
fn a_row_is_filtered_by_the_other_bound_components() {
    let row = vec![4, 5, 6, 7, 4, 7];
    assert_eq!(
        expand_row(Index::Subject, 9, &row, Some(9), Some(4), None),
        vec![[9, 4, 5], [9, 4, 7]]
    );
    assert_eq!(
        expand_row(Index::Subject, 9, &row, Some(9), None, Some(7)),
        vec![[9, 6, 7], [9, 4, 7]]
    );
    assert_eq!(expand_row(Index::Subject, 9, &row, Some(9), Some(4), Some(7)), vec![[9, 4, 7]]);
    assert_eq!(
        expand_row(Index::Subject, 9, &row, Some(9), Some(5), None),
        Vec::<[u64; 3]>::new()
    );
    assert_eq!(expand_row(Index::Subject, 9, &row, Some(8), None, None), Vec::<[u64; 3]>::new());
}

#[test]
fn an_element_without_a_partner_stands_for_nothing() {
    assert_eq!(expand_row(Index::Subject, 1, &vec![4, 5, 6], None, None, None), vec![[1, 4, 5]]);
    assert_eq!(expand_row(Index::Subject, 1, &vec![4], None, None, None), Vec::<[u64; 3]>::new());
    assert_eq!(expand_row(Index::Subject, 1, &vec![], None, None, None), Vec::<[u64; 3]>::new());
}

#[test]
fn a_scan_finds_every_triple_grouped_by_subject() {
    let triples = sample();
    let storage = storage_of(&triples);
    let found = storage.triples_matching(None, None, None).unwrap();
    assert_eq!(
        found,
        vec![[0, 1, 0], [0, 0, 2], [1, 0, 2], [1, 1, 1], [1, 0, 0], [1, 0, 2], [2, 0, 0]]
    );
    let mut sorted_found = found.clone();
    sorted_found.sort();
    let mut sorted_all = triples.clone();
    sorted_all.sort();
    assert_eq!(sorted_found, sorted_all);
    assert_eq!(storage.scan().unwrap(), found);
}

#[test]
fn a_scan_can_be_made_row_by_row() {
    let storage = storage_of(&sample());
    assert_eq!(storage.scan_row(0).unwrap(), Some(vec![[0, 1, 0], [0, 0, 2]]));
    assert_eq!(storage.scan_row(2).unwrap(), Some(vec![[2, 0, 0]]));
    assert_eq!(storage.scan_row(3).unwrap(), None);
    assert_eq!(storage.scan_row(0).unwrap(), Some(vec![[0, 1, 0], [0, 0, 2]]));
}

#[test]
fn one_bound_position_finds_the_triples_with_that_id() {
    let triples = sample();
    let storage = storage_of(&triples);
    for id in 0..3 {
        assert_eq!(
            storage.triples_matching(Some(id), None, None).unwrap(),
            filtered(&triples, Some(id), None, None)
        );
        assert_eq!(
            storage.triples_matching(None, None, Some(id)).unwrap(),
            filtered(&triples, None, None, Some(id))
        );
    }
    for id in 0..2 {
        assert_eq!(
            storage.triples_matching(None, Some(id), None).unwrap(),
            filtered(&triples, None, Some(id), None)
        );
    }
    assert_eq!(
        storage.triples_matching(Some(1), None, None).unwrap(),
        vec![[1, 0, 2], [1, 1, 1], [1, 0, 0], [1, 0, 2]]
    );
}

#[test]
fn more_bound_positions_find_what_each_of_them_finds() {
    let triples = sample();
    let storage = storage_of(&triples);
    for s in [None, Some(0), Some(1), Some(2)] {
        for p in [None, Some(0), Some(1)] {
            for o in [None, Some(0), Some(1), Some(2)] {
                if s.is_none() && p.is_none() && o.is_none() {
                    continue;
                }
                let found = storage.triples_matching(s, p, o).unwrap();
                assert_eq!(found, filtered(&triples, s, p, o));
                let by_subject = filtered(&triples, s, None, None);
                let by_predicate = filtered(&triples, None, p, None);
                let by_object = filtered(&triples, None, None, o);
                let shared: Vec<[u64; 3]> = triples
                    .iter()
                    .filter(|t| {
                        by_subject.contains(t) && by_predicate.contains(t) && by_object.contains(t)
                    })
                    .cloned()
                    .collect();
                assert_eq!(found, shared);
            }
        }
    }
    assert_eq!(storage.triples_matching(Some(1), Some(0), Some(2)).unwrap(), vec![[1, 0, 2]; 2]);
}

#[test]
fn an_id_that_leads_no_triple_has_no_chunk() {
    let storage = storage_of(&sample());
    assert!(matches!(
        storage.triples_matching(Some(3), None, None),
        Err(ZarrDfError::ChunkNotFound(3))
    ));
    assert!(matches!(
        storage.triples_matching(None, Some(2), Some(0)),
        Err(ZarrDfError::ChunkNotFound(2))
    ));
    assert!(matches!(
        storage.triples_matching(None, None, Some(7)),
        Err(ZarrDfError::ChunkNotFound(7))
    ));
    assert_eq!(storage.triples_matching(Some(0), Some(9), None).unwrap(), Vec::<[u64; 3]>::new());
}

#[test]
fn the_first_bound_position_selects_the_index() {
    let triples = sample();
    let mut storage = storage_of(&triples);
    storage.predicate = None;
    storage.object = None;
    assert_eq!(
        storage.triples_matching(Some(1), Some(0), Some(2)).unwrap(),
        vec![[1, 0, 2], [1, 0, 2]]
    );
    assert!(matches!(storage.triples_matching(None, Some(0), Some(2)), Err(ZarrDfError::InvalidQuery)));
    assert!(matches!(storage.triples_matching(None, None, Some(2)), Err(ZarrDfError::InvalidQuery)));
    assert_eq!(storage.triples_matching(None, None, None).unwrap().len(), 7);
    let mut storage = storage_of(&triples);
    storage.subject = None;
    assert!(matches!(storage.triples_matching(Some(1), Some(0), None), Err(ZarrDfError::InvalidQuery)));
    assert!(matches!(storage.triples_matching(None, None, None), Err(ZarrDfError::InvalidQuery)));
    assert!(matches!(storage.scan_row(0), Err(ZarrDfError::InvalidQuery)));
    assert_eq!(storage.triples_matching(None, Some(1), None).unwrap(), vec![[0, 1, 0], [1, 1, 1]]);
    storage.predicate = None;
    assert_eq!(storage.triples_matching(None, None, Some(1)).unwrap(), vec![[1, 1, 1]]);
}

struct Rows {
    rows: Vec<Vec<u64>>,
    broken: Option<u64>,
}

impl Query for Rows {
    fn query(&self, chunk: u64) -> Result<Vec<u64>, ZarrDfError> {
        if self.broken == Some(chunk) {
            return Err(ZarrDfError::ChunkStorage(format!("chunk {chunk} is unreadable")));
        }
        match self.rows.get(chunk as usize) {
            Some(row) => Ok(row.clone()),
            None => Err(ZarrDfError::ChunkNotFound(chunk)),
        }
    }
}

fn rows_storage(broken: Option<u64>) -> Storage<Rows> {
    Storage {
        dictionary: Dictionary::new(Vec::new(), Vec::new(), Vec::new()).unwrap(),
        subject: Some(Rows { rows: vec![vec![0, 1], vec![2, 3, 4, 5], vec![6, 7]], broken }),
        predicate: None,
        object: None,
    }
}

#[test]
fn any_array_that_answers_probes_can_be_queried() {
    let storage = rows_storage(None);
    assert_eq!(
        storage.triples_matching(None, None, None).unwrap(),
        vec![[0, 0, 1], [1, 2, 3], [1, 4, 5], [2, 6, 7]]
    );
    assert_eq!(storage.triples_matching(Some(1), None, Some(5)).unwrap(), vec![[1, 4, 5]]);
}

#[test]
fn a_fault_of_the_storage_ends_the_query() {
    let storage = rows_storage(Some(1));
    match storage.triples_matching(None, None, None) {
        Err(ZarrDfError::ChunkStorage(message)) => assert_eq!(message, "chunk 1 is unreadable"),
        _ => panic!("the fault was passed over"),
    }
    assert!(matches!(
        storage.triples_matching(Some(1), None, None),
        Err(ZarrDfError::ChunkStorage(_))
    ));
    assert_eq!(storage.triples_matching(Some(0), None, None).unwrap(), vec![[0, 0, 1]]);
    assert!(matches!(storage.scan_row(1), Err(ZarrDfError::ChunkStorage(_))));
}
