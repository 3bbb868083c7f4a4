//! One index as an array in memory: how it is built of encoded triples, how
//! it answers probes, and how it is handed to a store in bounded writes.

use vstd::prelude::*;

use crate::config::Config;
use crate::config::COLUMNS;
use crate::config::FILL_VALUE;
use crate::error::ZarrDfError;
use crate::index::Index;
use crate::layout::dense;
use crate::layout::group;
use crate::layout::grouped;
use crate::layout::holds;
use crate::layout::id_count;
use crate::layout::led_below;
use crate::layout::lemma_component_below_count;
use crate::layout::lemma_dense_count;
use crate::layout::lemma_group_beyond_count;
use crate::layout::lemma_group_push;
use crate::layout::lemma_id_count_bound;
use crate::layout::lemma_led_below_len;
use crate::layout::lemma_pairs_concat;
use crate::layout::lemma_pairs_push;
use crate::layout::pairs_of;
use crate::layout::stored_chunk;
use crate::query::Query;
use crate::Triple;

verus! {

/// One index held in memory as it is laid out in the store: the rows of all
/// ids one after the other, and where the rows of each id begin and end.
pub struct IndexArray {
    config: Config,
    offsets: Vec<usize>,
    elements: Vec<u64>,
}

/// Whether `offsets` are the rows at which the chunks of `config` begin and
/// end, and `elements` fill the rows between the first and the last of them.
spec fn laid_out(config: Config, offsets: Seq<usize>, elements: Seq<u64>) -> bool {
    let ids = config.chunk_sizes@.len();
    &&& offsets.len() == ids + 1
    &&& offsets[0] == 0
    &&& forall|i: int|
        0 <= i < ids ==> {
            &&& (#[trigger] config.chunk_sizes@[i]) > 0
            &&& offsets[i] + config.chunk_sizes@[i] == offsets[i + 1]
            &&& offsets[i + 1] <= offsets[ids as int]
        }
    &&& elements.len() == 2 * offsets[ids as int]
    &&& config.shape@ == seq![offsets[ids as int] as u64, COLUMNS]
    &&& config.chunk_width == COLUMNS
    &&& config.fill_value == FILL_VALUE
}

impl View for IndexArray {
    type V = Seq<u64>;

    /// The elements of the array, row by row.
    closed spec fn view(&self) -> Seq<u64> {
        self.elements@
    }
}

impl IndexArray {
    #[verifier::type_invariant]
    spec fn well_formed(self) -> bool {
        laid_out(self.config, self.offsets@, self.elements@)
    }

    /// The layout of the array.
    pub closed spec fn layout(&self) -> Config {
        self.config
    }

    /// Whether the array is laid out as the index of `triples` led by
    /// `index`: a row of two columns for each triple, a chunk for each id
    /// that is as long as the triples that the id leads are many, and 0 in
    /// a cell that was never written. Its elements are the residual pairs of
    /// the triples, grouped by the leading id in ascending order: one pair
    /// for each triple.
    pub open spec fn laid_out_for(&self, triples: Seq<Triple>, index: Index) -> bool {
        &&& self@ == pairs_of(index, grouped(triples, index, id_count(triples, index)))
        &&& self@.len() == 2 * triples.len()
        &&& self.layout().index == index
        &&& self.layout().shape@ == seq![triples.len() as u64, COLUMNS]
        &&& self.layout().chunk_width == COLUMNS
        &&& self.layout().fill_value == FILL_VALUE
        &&& self.layout().chunk_sizes@.len() == id_count(triples, index)
        &&& forall|id: int|
            0 <= id < self.layout().chunk_sizes@.len() ==> #[trigger] self.layout().chunk_sizes@[id]
                == group(triples, index, id as u64).len()
    }

    /// The layout of the array: its shape, the lengths of its chunks, and
    /// the position that leads it.
    pub fn config(&self) -> (config: &Config)
        ensures
            *config == self.layout(),
    {
        &self.config
    }

    /// The elements of the array, row by row.
    pub fn elements(&self) -> (elements: &Vec<u64>)
        ensures
            elements@ == self@,
    {
        &self.elements
    }
}

impl Query for IndexArray {
    closed spec fn chunk(&self, chunk: u64) -> Option<Seq<u64>> {
        if chunk < self.config.chunk_sizes@.len() {
            Some(
                self.elements@.subrange(
                    2 * self.offsets@[chunk as int],
                    2 * self.offsets@[chunk as int + 1],
                ),
            )
        } else {
            None
        }
    }

    open spec fn known(&self) -> bool {
        true
    }

    fn query(&self, chunk: u64) -> (result: Result<Vec<u64>, ZarrDfError>) {
        proof {
            use_type_invariant(self);
        }
        if chunk >= self.config.chunk_sizes.len() as u64 {
            return Err(ZarrDfError::ChunkNotFound(chunk));
        }
        let id = chunk as usize;
        let end = self.elements.len();
        assert(self.config.chunk_sizes@[id as int] > 0);
        assert(2 * self.offsets@[id as int] <= 2 * self.offsets@[id + 1] <= end);
        Ok(copy_range(&self.elements, 2 * self.offsets[id], 2 * self.offsets[id + 1]))
    }
}

/// The number of rows that one write to the store holds at most.
pub const CHUNK_SIZE: usize = 10000;

/// One bounded write of the flattened rows of an index: the rectangle of the
/// array that it fills, and the elements that fill it row by row.
pub struct Batch {
    /// The row and the column at which the rectangle begins.
    pub start: [u64; 2],
    /// The rows and the columns of the rectangle.
    pub shape: [u64; 2],
    pub elements: Vec<u64>,
}

/// The row at which the `batch`-th write begins.
pub open spec fn batch_start(batch: nat) -> int {
    batch * CHUNK_SIZE
}

/// The number of rows of the `batch`-th write to an array of `rows` rows: a
/// full batch, or what is left for the last one.
pub open spec fn batch_rows(rows: nat, batch: nat) -> int {
    if batch_start(batch) >= rows {
        0
    } else if rows - batch_start(batch) < CHUNK_SIZE {
        rows - batch_start(batch)
    } else {
        CHUNK_SIZE as int
    }
}

/// The elements of the `batch`-th write of an array that holds `elements`;
/// none where the array ends before that write.
pub open spec fn batch_elements(elements: Seq<u64>, batch: nat) -> Seq<u64> {
    if batch_start(batch) >= elements.len() / 2 {
        Seq::empty()
    } else {
        elements.subrange(
            2 * batch_start(batch),
            2 * (batch_start(batch) + batch_rows(elements.len() / 2, batch)),
        )
    }
}

/// The elements of the writes before the `batches`-th, one after the other.
pub open spec fn written(elements: Seq<u64>, batches: nat) -> Seq<u64>
    decreases batches,
{
    if batches == 0 {
        Seq::empty()
    } else {
        written(elements, (batches - 1) as nat) + batch_elements(elements, (batches - 1) as nat)
    }
}

/// The writes follow each other without a gap: those before the
/// `batches`-th fill the array from its first row up to the row at which
/// that one begins, or all of it where that row is past the end.
pub proof fn lemma_written(elements: Seq<u64>, batches: nat)
    requires
        elements.len() % 2 == 0,
    ensures
        written(elements, batches) == if batch_start(batches) >= elements.len() / 2 {
            elements
        } else {
            elements.take(2 * batch_start(batches))
        },
    decreases batches,
{
    if batches == 0 {
        assert(elements.take(0) =~= Seq::<u64>::empty());
        if elements.len() == 0 {
            assert(elements =~= Seq::<u64>::empty());
        }
    } else {
        let before = (batches - 1) as nat;
        lemma_written(elements, before);
        let rows = elements.len() / 2;
        assert(batch_start(batches) == batch_start(before) + CHUNK_SIZE);
        if batch_start(before) >= rows {
            assert(batch_elements(elements, before) =~= Seq::<u64>::empty());
            assert(written(elements, batches) =~= elements);
        } else if batch_start(batches) >= rows {
            assert(written(elements, batches) =~= elements);
        } else {
            assert(written(elements, batches) =~= elements.take(2 * batch_start(batches)));
        }
    }
}

/// The elements of `elements` from `from` up to `to`.
fn copy_range(elements: &Vec<u64>, from: usize, to: usize) -> (copy: Vec<u64>)
    requires
        from <= to <= elements@.len(),
    ensures
        copy@ == elements@.subrange(from as int, to as int),
{
    let mut copy: Vec<u64> = Vec::new();
    let mut at: usize = from;
    while at < to
        invariant
            from <= at <= to <= elements@.len(),
            copy@ == elements@.subrange(from as int, at as int),
        decreases to - at,
    {
        copy.push(elements[at]);
        at += 1;
        assert(copy@ =~= elements@.subrange(from as int, at as int));
    }
    copy
}

impl IndexArray {
    /// The `batch`-th of the bounded writes that persist the array, counted
    /// from 0, or `None` where the writes before it have filled the array.
    pub fn serialize(&self, batch: usize) -> (write: Option<Batch>)
        ensures
            self@.len() % 2 == 0,
            match write {
                Some(write) => {
                    &&& batch_start(batch as nat) < self@.len() / 2
                    &&& write.start@ == seq![batch_start(batch as nat) as u64, 0u64]
                    &&& write.shape@ == seq![
                        batch_rows(self@.len() / 2, batch as nat) as u64,
                        COLUMNS,
                    ]
                    &&& write.elements@ == batch_elements(self@, batch as nat)
                },
                None => batch_start(batch as nat) >= self@.len() / 2,
            },
    {
        proof {
            use_type_invariant(self);
        }
        let rows: usize = self.elements.len() / 2;
        if batch > rows / CHUNK_SIZE {
            return None;
        }
        let start: usize = batch * CHUNK_SIZE;
        if start >= rows {
            return None;
        }
        let count: usize = if rows - start < CHUNK_SIZE {
            rows - start
        } else {
            CHUNK_SIZE
        };
        let elements = copy_range(&self.elements, 2 * start, 2 * (start + count));
        let write = Batch { start: [start as u64, 0], shape: [count as u64, COLUMNS], elements };
        proof {
            assert(write.start@ =~= seq![batch_start(batch as nat) as u64, 0u64]);
            assert(write.shape@ =~= seq![batch_rows(self@.len() / 2, batch as nat) as u64, COLUMNS]);
        }
        Some(write)
    }
}

fn push_pair(rows: &mut Vec<Vec<u64>>, at: usize, first: u64, second: u64)
    requires
        at < old(rows)@.len(),
    ensures
        final(rows)@.len() == old(rows)@.len(),
        final(rows)@[at as int]@ == old(rows)@[at as int]@.push(first).push(second),
        forall|i: int|
            0 <= i < old(rows)@.len() && i != at ==> (#[trigger] final(rows)@[i]) == old(rows)@[i],
{
    rows[at].push(first);
    rows[at].push(second);
}

/// The number of ids that `triples` span at `index`, or `None` where they
/// span more ids than there are triples.
fn count_ids(triples: &Vec<Triple>, index: Index) -> (ids: Option<usize>)
    ensures
        match ids {
            Some(ids) => ids == id_count(triples@, index) && ids <= triples@.len(),
            None => id_count(triples@, index) > triples@.len(),
        },
{
    let len = triples.len();
    let mut ids: usize = 0;
    let mut j: usize = 0;
    while j < len
        invariant
            len == triples@.len(),
            j <= len,
            ids == id_count(triples@.take(j as int), index),
            ids <= len,
        decreases len - j,
    {
        let component = index.triple_to_component(&triples[j]);
        proof {
            assert(triples@.take(j + 1).drop_last() =~= triples@.take(j as int));
            assert(triples@.take(j + 1).last() == triples@[j as int]);
        }
        if component >= len as u64 {
            proof {
                lemma_component_below_count(triples@, index, j as int);
            }
            return None;
        }
        if component as usize + 1 > ids {
            ids = component as usize + 1;
        }
        j += 1;
    }
    proof {
        assert(triples@.take(len as int) =~= triples@);
    }
    Some(ids)
}

/// The rows of the index of `triples` led by `index`, one for each of the
/// `ids` ids that the triples span: the residual pairs of the triples that
/// the id leads, in the order of `triples`.
fn group_rows(triples: &Vec<Triple>, index: Index, ids: usize) -> (rows: Vec<Vec<u64>>)
    requires
        ids == id_count(triples@, index),
    ensures
        rows@.len() == ids,
        forall|i: int|
            0 <= i < ids ==> (#[trigger] rows@[i])@ == pairs_of(
                index,
                group(triples@, index, i as u64),
            ),
{
    let mut rows: Vec<Vec<u64>> = Vec::new();
    let mut id: usize = 0;
    while id < ids
        invariant
            id <= ids,
            rows@.len() == id,
            forall|i: int| 0 <= i < id ==> (#[trigger] rows@[i])@ == Seq::<u64>::empty(),
        decreases ids - id,
    {
        rows.push(Vec::new());
        id += 1;
    }
    let len = triples.len();
    let mut j: usize = 0;
    while j < len
        invariant
            len == triples@.len(),
            j <= len,
            ids == id_count(triples@, index),
            rows@.len() == ids,
            forall|i: int|
                0 <= i < ids ==> (#[trigger] rows@[i])@ == pairs_of(
                    index,
                    group(triples@.take(j as int), index, i as u64),
                ),
        decreases len - j,
    {
        let triple = triples[j];
        let component = index.triple_to_component(&triple);
        let (first, second) = index.triple_to_pair(&triple);
        proof {
            lemma_component_below_count(triples@, index, j as int);
        }
        let ghost before = rows@;
        let at = component as usize;
        push_pair(&mut rows, at, first, second);
        proof {
            assert(triples@.take(j + 1) =~= triples@.take(j as int).push(triple));
            assert forall|i: int| 0 <= i < ids implies (#[trigger] rows@[i])@ == pairs_of(
                index,
                group(triples@.take(j + 1), index, i as u64),
            ) by {
                lemma_group_push(triples@.take(j as int), triple, index, i as u64);
                assert(before[i]@ == pairs_of(
                    index,
                    group(triples@.take(j as int), index, i as u64),
                ));
                if i == at {
                    lemma_pairs_push(index, group(triples@.take(j as int), index, i as u64), triple);
                }
            }
        }
        j += 1;
    }
    proof {
        assert(triples@.take(len as int) =~= triples@);
    }
    rows
}

/// Builds the index of `triples` led by `index`: the triples are grouped by
/// their leading id, the groups stand in ascending id order, and each keeps
/// the order of `triples`. The row of an id is the chunk at that id, and a
/// chunk cannot be empty: where an id that the triples span leads none of
/// them, the row lengths are no chunk lengths and the build fails.
pub fn write_index(triples: &Vec<Triple>, index: Index) -> (result: Result<IndexArray, ZarrDfError>)
    ensures
        match result {
            Ok(array) => {
                &&& dense(triples@, index)
                &&& holds(array, triples@, index)
                &&& array.laid_out_for(triples@, index)
                &&& forall|id: u64|
                    id < id_count(triples@, index) ==> #[trigger] array.chunk(id) == Some(
                        array@.subrange(
                            2 * (led_below(triples@, index, id as nat) as int),
                            2 * (led_below(triples@, index, (id + 1) as nat) as int),
                        ),
                    )
            },
            Err(e) => e is RectangularDimensionConversion && !dense(triples@, index),
        },
{
    let len = triples.len();
    let total = match count_ids(triples, index) {
        Some(ids) => ids,
        None => {
            proof {
                if dense(triples@, index) {
                    lemma_dense_count(triples@, index);
                }
            }
            return Err(ZarrDfError::RectangularDimensionConversion);
        },
    };
    let rows = group_rows(triples, index, total);
    let mut chunk_sizes: Vec<u64> = Vec::new();
    let mut offsets: Vec<usize> = Vec::new();
    let mut elements: Vec<u64> = Vec::new();
    offsets.push(0);
    let mut g: usize = 0;
    while g < total
        invariant
            len == triples@.len(),
            g <= total,
            total == rows@.len(),
            total == id_count(triples@, index),
            forall|i: int|
                0 <= i < total ==> (#[trigger] rows@[i])@ == pairs_of(
                    index,
                    group(triples@, index, i as u64),
                ),
            chunk_sizes@.len() == g,
            offsets@.len() == g + 1,
            offsets@[0] == 0,
            forall|i: int|
                0 <= i < g ==> {
                    &&& (#[trigger] chunk_sizes@[i]) > 0
                    &&& chunk_sizes@[i] == group(triples@, index, i as u64).len()
                    &&& offsets@[i] == led_below(triples@, index, i as nat)
                    &&& offsets@[i] + chunk_sizes@[i] == offsets@[i + 1]
                    &&& offsets@[i + 1] <= offsets@[g as int]
                    &&& elements@.subrange(2 * offsets@[i], 2 * offsets@[i + 1]) == rows@[i]@
                },
            elements@.len() == 2 * offsets@[g as int],
            offsets@[g as int] == led_below(triples@, index, g as nat),
            elements@ == pairs_of(index, grouped(triples@, index, g as nat)),
        decreases total - g,
    {
        let row = &rows[g];
        let ghost members = group(triples@, index, g as u64);
        proof {
            lemma_led_below_len(triples@, index, (g + 1) as nat);
            assert(row@.len() == 2 * members.len());
        }
        if row.len() == 0 {
            return Err(ZarrDfError::RectangularDimensionConversion);
        }
        let ghost before = elements@;
        let ghost starts = offsets@;
        let ghost sizes = chunk_sizes@;
        chunk_sizes.push((row.len() / 2) as u64);
        elements.extend_from_slice(row.as_slice());
        offsets.push(elements.len() / 2);
        g += 1;
        proof {
            lemma_pairs_concat(index, grouped(triples@, index, (g - 1) as nat), members);
            assert(elements@ == before + row@);
            assert(offsets@ == starts.push((elements@.len() / 2) as usize));
            assert(chunk_sizes@ == sizes.push((row@.len() / 2) as u64));
            assert forall|i: int| 0 <= i < g implies {
                &&& (#[trigger] chunk_sizes@[i]) > 0
                &&& chunk_sizes@[i] == group(triples@, index, i as u64).len()
                &&& offsets@[i] == led_below(triples@, index, i as nat)
                &&& offsets@[i] + chunk_sizes@[i] == offsets@[i + 1]
                &&& offsets@[i + 1] <= offsets@[g as int]
                &&& elements@.subrange(2 * offsets@[i], 2 * offsets@[i + 1]) == rows@[i]@
            } by {
                if i < g - 1 {
                    assert(sizes[i] > 0);
                    assert(chunk_sizes@[i] == sizes[i]);
                    assert(offsets@[i] == starts[i]);
                    assert(offsets@[i + 1] == starts[i + 1]);
                    assert(starts[i + 1] <= starts[g - 1]);
                    assert(elements@.subrange(2 * offsets@[i], 2 * offsets@[i + 1]) =~= before.subrange(
                        2 * starts[i],
                        2 * starts[i + 1],
                    ));
                } else {
                    assert(offsets@[i] == starts[g - 1]);
                    assert(elements@.subrange(2 * offsets@[i], 2 * offsets@[i + 1]) =~= row@);
                }
            }
        }
    }
    proof {
        lemma_id_count_bound(triples@, index);
        lemma_led_below_len(triples@, index, total as nat);
    }
    let mut shape: Vec<u64> = Vec::new();
    shape.push(len as u64);
    shape.push(COLUMNS);
    let config = Config { shape, chunk_sizes, chunk_width: COLUMNS, fill_value: FILL_VALUE, index };
    proof {
        assert(config.shape@ =~= seq![len as u64, COLUMNS]);
        assert forall|id: u64| id < id_count(triples@, index) implies (#[trigger] group(
            triples@,
            index,
            id,
        )).len() > 0 by {
            assert(config.chunk_sizes@[id as int] > 0);
        }
    }
    let array = IndexArray { config, offsets, elements };
    proof {
        assert forall|id: u64| #[trigger] array.chunk(id) == stored_chunk(triples@, index, id) by {
            if id < total {
                assert(array.config.chunk_sizes@[id as int] > 0);
                assert(rows@[id as int]@ == pairs_of(index, group(triples@, index, id)));
            } else {
                lemma_group_beyond_count(triples@, index, id);
            }
        }
        assert forall|id: u64| id < id_count(triples@, index) implies #[trigger] array.chunk(id)
            == Some(
            array@.subrange(
                2 * (led_below(triples@, index, id as nat) as int),
                2 * (led_below(triples@, index, (id + 1) as nat) as int),
            ),
        ) by {
            assert(array.config.chunk_sizes@[id as int] > 0);
            if id + 1 < total {
                assert(array.config.chunk_sizes@[id + 1] > 0);
            }
        }
    }
    Ok(array)
}

} // verus!
