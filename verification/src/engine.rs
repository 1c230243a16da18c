//! The engine's bookkeeping: which id owns which row of the raw vector file,
//! where each id's payload lies in the payload file, which ids the index does
//! not cover yet, and the index itself. The files are read and written by the
//! caller; the engine decides what goes where and what is read back.
use vstd::prelude::*;
use std::collections::HashMap;
use std::collections::HashSet;
use crate::config::{ConfigReq, IndexConfig};
use crate::params::ResolvedParams;
use crate::packing::{search_sign_width, search_sq_width};
use crate::score::{is_nan, is_nan_bits};
use crate::search::{
    append_new, flat_table, flat_top_hits, index_result_hits, is_stable_top, merge_new_hits, rank_hits, Hit,
    IndexHits,
};
use crate::topk::is_top_k;

verus! {

broadcast use vstd::std_specs::hash::group_hash_axioms;

/// Index size past which a search rebuilds the index first.
pub const REBUILD_THRESHOLD: usize = 1000;

/// A built IVF index. Floating-point arrays are held as `f32` bit patterns.
pub struct IndexedSegment {
    pub n_vectors: usize,
    /// `dim x dim` rotation, row-major.
    pub rot_op: Vec<u32>,
    /// SQ codebook.
    pub sq_centroids: Vec<u32>,
    /// Packed SQ codes, one row per indexed vector, in list order.
    pub sq_flat: Vec<u8>,
    /// Packed sign bits, one row per indexed vector, in list order.
    pub signs_flat: Vec<u8>,
    /// Norm of each indexed vector.
    pub norms_sl: Vec<u32>,
    /// Norm of each rotated residual.
    pub res_norms: Vec<u32>,
    /// Stored id of each indexed row.
    pub vector_ids: Vec<i64>,
    /// Coarse centroids, `n_list x dim`, row-major.
    pub coarse_view: Vec<u32>,
    /// Rows of list `c` are `offsets_sl[c]..offsets_sl[c + 1]`.
    pub offsets_sl: Vec<i32>,
}

/// The engine's state.
pub struct TQEngine {
    /// Row of the raw vector file that holds each id's vector.
    pub vector_offsets: HashMap<u64, usize>,
    pub raw_file_path: String,
    /// Byte offset and length of each id's payload in the payload file.
    pub payload_offsets: HashMap<u64, (u64, u32)>,
    pub payload_file_path: String,
    pub indexed_segment: Option<IndexedSegment>,
    /// Ids added since the index was built.
    pub unindexed_ids: HashSet<u64>,
    /// Dimension of the stored vectors; 0 until the first vector arrives.
    pub dim: usize,
    pub index_config: IndexConfig,
}

/// The keys of a map, each once, in some order.
pub fn map_keys<V>(m: &HashMap<u64, V>) -> (keys: Vec<u64>)
    ensures
        keys@.to_set() == m@.dom(),
        keys@.no_duplicates(),
{
    let mut keys: Vec<u64> = Vec::new();
    for k in it: m.keys()
        invariant
            keys@ == it.seq().unref().take(it.index()),
            it.seq().unref().to_set() == m@.dom(),
            it.seq().no_duplicates(),
            it.index() == it.seq().len() ==> keys@.to_set() == m@.dom() && keys@.no_duplicates(),
    {
        keys.push(*k);
        proof {
            assert(it.seq().unref().take(it.seq().len() as int) =~= it.seq().unref());
            assert(keys@.no_duplicates()) by {
                assert forall|a: int, b: int| 0 <= a < b < keys.len() implies keys@[a] != keys@[b] by {
                    assert(keys@[a] == *it.seq()[a]);
                    assert(keys@[b] == *it.seq()[b]);
                }
            }
        }
    }
    keys
}

/// The ids of a set, each once, in some order.
pub fn set_elements(s: &HashSet<u64>) -> (ids: Vec<u64>)
    ensures
        ids@.to_set() == s@,
        ids@.no_duplicates(),
{
    let mut ids: Vec<u64> = Vec::new();
    for k in it: s.iter()
        invariant
            ids@ == it.seq().unref().take(it.index()),
            it.seq().unref().to_set() == s@,
            it.seq().no_duplicates(),
            it.index() == it.seq().len() ==> ids@.to_set() == s@ && ids@.no_duplicates(),
    {
        ids.push(*k);
        proof {
            assert(it.seq().unref().take(it.seq().len() as int) =~= it.seq().unref());
            assert(ids@.no_duplicates()) by {
                assert forall|a: int, b: int| 0 <= a < b < ids.len() implies ids@[a] != ids@[b] by {
                    assert(ids@[a] == *it.seq()[a]);
                    assert(ids@[b] == *it.seq()[b]);
                }
            }
        }
    }
    ids
}

/// The payload table after recording where a payload was written: an
/// empty (or absent) payload leaves the table unchanged.
pub open spec fn record_payload(
    table: Map<u64, (u64, u32)>,
    id: u64,
    payload: Option<(u64, u32)>,
) -> Map<u64, (u64, u32)> {
    match payload {
        Some(loc) => if loc.1 > 0 { table.insert(id, loc) } else { table },
        None => table,
    }
}

/// Where an id's vector lies in a raw file of `raw_len` values: the `dim`
/// values of its row, when the id is known and the row lies within the file.
pub open spec fn spec_vector_range(
    rows: Map<u64, usize>,
    dim: int,
    id: u64,
    raw_len: int,
) -> Option<(usize, usize)> {
    if rows.contains_key(id) && rows[id] * dim + dim <= raw_len {
        Some(((rows[id] * dim) as usize, (rows[id] * dim + dim) as usize))
    } else {
        None
    }
}

/// Where an id's payload lies in a payload file of `file_len` bytes, when
/// the id has one and it lies within the file.
pub open spec fn spec_payload_range(
    table: Map<u64, (u64, u32)>,
    id: u64,
    file_len: int,
) -> Option<(usize, usize)> {
    if table.contains_key(id) && table[id].0 + table[id].1 <= file_len {
        Some((table[id].0 as usize, (table[id].0 + table[id].1) as usize))
    } else {
        None
    }
}

/// What the engine's bookkeeping holds: the row of each id, the payload
/// location of each id, the ids awaiting indexing, and the dimension.
pub type Book = (Map<u64, usize>, Map<u64, (u64, u32)>, Set<u64>, usize);

/// The bookkeeping after one vector (with `vector_len` values) is added:
/// the id gets the row numbered by the count of known ids, its payload
/// location is recorded, it awaits indexing, and the first vector fixes the
/// dimension.
pub open spec fn added(book: Book, id: u64, vector_len: usize, payload: Option<(u64, u32)>) -> Book {
    (
        book.0.insert(id, book.0.len() as usize),
        record_payload(book.1, id, payload),
        book.2.insert(id),
        if book.3 == 0 { vector_len } else { book.3 },
    )
}

/// The bookkeeping after the points are added one by one, in order.
pub open spec fn after_adds(book: Book, points: Seq<(u64, usize, Option<(u64, u32)>)>) -> Book
    decreases points.len(),
{
    if points.len() == 0 {
        book
    } else {
        let last = points.last();
        added(after_adds(book, points.drop_last()), last.0, last.1, last.2)
    }
}

impl TQEngine {
    /// Every id awaiting indexing is a stored id.
    pub open spec fn pending_are_stored(&self) -> bool {
        self.unindexed_ids@.subset_of(self.vector_offsets@.dom())
    }

    /// Every id with a recorded payload is a stored id.
    pub open spec fn payloads_are_stored(&self) -> bool {
        self.payload_offsets@.dom().subset_of(self.vector_offsets@.dom())
    }

    /// An empty engine with the default configuration.
    pub fn new() -> (e: Self)
        ensures
            e.vector_offsets@ == Map::<u64, usize>::empty(),
            e.payload_offsets@ == Map::<u64, (u64, u32)>::empty(),
            e.unindexed_ids@ == Set::<u64>::empty(),
            e.indexed_segment is None,
            e.dim == 0,
            e.index_config.n_list is None,
            e.index_config.quantize_bits == crate::config::DEFAULT_QUANTIZE_BITS,
            e.index_config.max_training_samples is None,
            e.raw_file_path@ == "data/tq_index/raw_vectors.bin"@,
            e.payload_file_path@ == "data/tq_index/payloads.bin"@,
            e.pending_are_stored(),
            e.payloads_are_stored(),
    {
        TQEngine {
            vector_offsets: HashMap::new(),
            raw_file_path: "data/tq_index/raw_vectors.bin".to_owned(),
            payload_offsets: HashMap::new(),
            payload_file_path: "data/tq_index/payloads.bin".to_owned(),
            indexed_segment: None,
            unindexed_ids: HashSet::new(),
            dim: 0,
            index_config: IndexConfig::default(),
        }
    }

    /// Records a vector appended to the raw file (with `vector_len` values)
    /// and, when one was written, the location of its payload. The id gets
    /// the row numbered by the count of known ids; the first vector fixes the
    /// dimension; the id awaits indexing.
    pub fn add(&mut self, id: u64, vector_len: usize, payload: Option<(u64, u32)>)
        ensures
            final(self).dim == (if old(self).dim == 0 { vector_len } else { old(self).dim }),
            final(self).vector_offsets@ == old(self).vector_offsets@.insert(
                id,
                old(self).vector_offsets@.len() as usize,
            ),
            final(self).payload_offsets@ == record_payload(old(self).payload_offsets@, id, payload),
            final(self).unindexed_ids@ == old(self).unindexed_ids@.insert(id),
            final(self).book() == added(old(self).book(), id, vector_len, payload),
            old(self).pending_are_stored() ==> final(self).pending_are_stored(),
            old(self).payloads_are_stored() ==> final(self).payloads_are_stored(),
            final(self).indexed_segment == old(self).indexed_segment,
            final(self).index_config == old(self).index_config,
            final(self).raw_file_path == old(self).raw_file_path,
            final(self).payload_file_path == old(self).payload_file_path,
    {
        if self.dim == 0 {
            self.dim = vector_len;
        }
        let row_idx = self.vector_offsets.len();
        self.vector_offsets.insert(id, row_idx);
        match payload {
            Some(loc) => {
                if loc.1 > 0 {
                    self.payload_offsets.insert(id, loc);
                }
            },
            None => {},
        }
        self.unindexed_ids.insert(id);
    }

    /// The engine's bookkeeping (see `Book`).
    pub open spec fn book(&self) -> Book {
        (self.vector_offsets@, self.payload_offsets@, self.unindexed_ids@, self.dim)
    }

    /// Records a batch of vectors appended to the raw file, each as `(id,
    /// vector_len, payload location)`: the engine ends as after adding the
    /// points one by one, in order.
    pub fn add_batch(&mut self, points: &[(u64, usize, Option<(u64, u32)>)])
        ensures
            final(self).book() == after_adds(old(self).book(), points@),
            old(self).pending_are_stored() ==> final(self).pending_are_stored(),
            old(self).payloads_are_stored() ==> final(self).payloads_are_stored(),
            final(self).indexed_segment == old(self).indexed_segment,
            final(self).index_config == old(self).index_config,
            final(self).raw_file_path == old(self).raw_file_path,
            final(self).payload_file_path == old(self).payload_file_path,
    {
        let mut i: usize = 0;
        while i < points.len()
            invariant
                i <= points.len(),
                self.book() == after_adds(old(self).book(), points@.subrange(0, i as int)),
                old(self).pending_are_stored() ==> self.pending_are_stored(),
                old(self).payloads_are_stored() ==> self.payloads_are_stored(),
                self.indexed_segment == old(self).indexed_segment,
                self.index_config == old(self).index_config,
                self.raw_file_path == old(self).raw_file_path,
                self.payload_file_path == old(self).payload_file_path,
            decreases points.len() - i,
        {
            let (id, vector_len, payload) = points[i];
            proof {
                let pre = points@.subrange(0, i + 1);
                assert(pre.drop_last() == points@.subrange(0, i as int));
                assert(pre.last() == (id, vector_len, payload));
            }
            self.add(id, vector_len, payload);
            i = i + 1;
        }
        assert(points@.subrange(0, points.len() as int) == points@);
    }

    /// Forgets an id: its row, its payload and its pending mark.
    pub fn delete(&mut self, id: u64)
        ensures
            final(self).vector_offsets@ == old(self).vector_offsets@.remove(id),
            final(self).payload_offsets@ == old(self).payload_offsets@.remove(id),
            final(self).unindexed_ids@ == old(self).unindexed_ids@.remove(id),
            old(self).pending_are_stored() ==> final(self).pending_are_stored(),
            old(self).payloads_are_stored() ==> final(self).payloads_are_stored(),
            final(self).indexed_segment == old(self).indexed_segment,
            final(self).dim == old(self).dim,
            final(self).index_config == old(self).index_config,
            final(self).raw_file_path == old(self).raw_file_path,
            final(self).payload_file_path == old(self).payload_file_path,
    {
        self.vector_offsets.remove(&id);
        self.payload_offsets.remove(&id);
        self.unindexed_ids.remove(&id);
    }

    /// Forgets every id and the index (the caller empties the files).
    pub fn clear(&mut self)
        ensures
            final(self).vector_offsets@ == Map::<u64, usize>::empty(),
            final(self).payload_offsets@ == Map::<u64, (u64, u32)>::empty(),
            final(self).unindexed_ids@ == Set::<u64>::empty(),
            final(self).indexed_segment is None,
            final(self).pending_are_stored(),
            final(self).payloads_are_stored(),
            final(self).dim == old(self).dim,
            final(self).index_config == old(self).index_config,
            final(self).raw_file_path == old(self).raw_file_path,
            final(self).payload_file_path == old(self).payload_file_path,
    {
        self.vector_offsets.clear();
        self.payload_offsets.clear();
        self.indexed_segment = None;
        self.unindexed_ids.clear();
    }

    /// Drops the index and marks every known id as awaiting indexing.
    pub fn reset_index(&mut self)
        ensures
            final(self).indexed_segment is None,
            final(self).unindexed_ids@ == old(self).vector_offsets@.dom(),
            final(self).pending_are_stored(),
            final(self).vector_offsets@ == old(self).vector_offsets@,
            final(self).payload_offsets@ == old(self).payload_offsets@,
            final(self).dim == old(self).dim,
            final(self).index_config == old(self).index_config,
            final(self).raw_file_path == old(self).raw_file_path,
            final(self).payload_file_path == old(self).payload_file_path,
    {
        self.indexed_segment = None;
        let keys = map_keys(&self.vector_offsets);
        let mut pending: HashSet<u64> = HashSet::new();
        let mut i: usize = 0;
        while i < keys.len()
            invariant
                i <= keys.len(),
                pending@ == keys@.subrange(0, i as int).to_set(),
            decreases keys.len() - i,
        {
            let ghost before = keys@.subrange(0, i as int);
            pending.insert(keys[i]);
            i = i + 1;
            proof {
                assert(keys@.subrange(0, i as int) == before.push(keys@[i - 1]));
                before.lemma_push_to_set_commute(keys@[i - 1]);
            }
        }
        assert(keys@.subrange(0, keys.len() as int) == keys@);
        self.unindexed_ids = pending;
    }

    /// Whether a search should rebuild the index first: more than
    /// `REBUILD_THRESHOLD` ids await indexing, or some do and there is no index.
    pub fn should_build_index(&self) -> (r: bool)
        ensures
            r == (self.unindexed_ids@.len() > REBUILD_THRESHOLD || (self.indexed_segment is None
                && !self.unindexed_ids@.is_empty())),
    {
        self.unindexed_ids.len() > REBUILD_THRESHOLD || (self.indexed_segment.is_none()
            && !self.unindexed_ids.is_empty())
    }

    /// Applies a configuration request and drops the index so the next
    /// build follows it.
    pub fn configure(&mut self, req: &ConfigReq)
        ensures
            final(self).index_config.n_list == req.n_list,
            final(self).index_config.quantize_bits == req.quantize_bits,
            final(self).index_config.max_training_samples == (match req.max_training_samples {
                Some(m) => Some(m),
                None => old(self).index_config.max_training_samples,
            }),
            final(self).indexed_segment is None,
            final(self).unindexed_ids@ == old(self).vector_offsets@.dom(),
            final(self).pending_are_stored(),
            final(self).vector_offsets@ == old(self).vector_offsets@,
            final(self).payload_offsets@ == old(self).payload_offsets@,
            final(self).dim == old(self).dim,
    {
        self.index_config.apply(req);
        self.reset_index();
    }

    /// Installs a freshly built index; every id is now covered.
    pub fn install_index(&mut self, seg: IndexedSegment)
        ensures
            final(self).indexed_segment == Some(seg),
            final(self).unindexed_ids@ == Set::<u64>::empty(),
            final(self).pending_are_stored(),
            final(self).vector_offsets@ == old(self).vector_offsets@,
            final(self).payload_offsets@ == old(self).payload_offsets@,
            final(self).dim == old(self).dim,
            final(self).index_config == old(self).index_config,
    {
        self.indexed_segment = Some(seg);
        self.unindexed_ids.clear();
    }

    /// Where an id's vector lies in a raw file of `raw_len` values.
    pub fn vector_range(&self, id: u64, raw_len: usize) -> (r: Option<(usize, usize)>)
        ensures
            r == spec_vector_range(self.vector_offsets@, self.dim as int, id, raw_len as int),
    {
        match self.vector_offsets.get(&id) {
            Some(row) => {
                let row = *row;
                if self.dim != 0 && row > raw_len / self.dim {
                    proof {
                        assert(row * self.dim + self.dim > raw_len) by (nonlinear_arith)
                            requires row > raw_len / self.dim, self.dim > 0;
                    }
                    return None;
                }
                proof {
                    assert(row * self.dim <= raw_len) by (nonlinear_arith)
                        requires self.dim == 0 || row <= raw_len / self.dim;
                }
                let start = row * self.dim;
                if self.dim <= raw_len - start {
                    Some((start, start + self.dim))
                } else {
                    None
                }
            },
            None => None,
        }
    }

    /// Where an id's payload lies in a payload file of `file_len` bytes.
    pub fn payload_range(&self, id: u64, file_len: usize) -> (r: Option<(usize, usize)>)
        ensures
            r == spec_payload_range(self.payload_offsets@, id, file_len as int),
    {
        match self.payload_offsets.get(&id) {
            Some(loc) => {
                let (offset, len) = *loc;
                if offset > file_len as u64 {
                    return None;
                }
                let start = offset as usize;
                if (len as usize) <= file_len - start {
                    Some((start, start + len as usize))
                } else {
                    None
                }
            },
            None => None,
        }
    }

    /// The ids a flat scan covers: every known id when `exact` is asked for
    /// or no index exists, otherwise the ids that await indexing.
    pub open spec fn flat_scan_set(&self, exact: bool) -> Set<u64> {
        if exact || self.indexed_segment is None {
            self.vector_offsets@.dom()
        } else {
            self.unindexed_ids@
        }
    }

    /// The ids of the flat scan, each with the range of its vector; ids whose
    /// vector does not lie within the raw file are skipped.
    pub fn flat_candidates(&self, exact: bool, raw_len: usize) -> (c: Vec<(u64, (usize, usize))>)
        ensures
            c@.map_values(|e: (u64, (usize, usize))| e.0).no_duplicates(),
            forall|i: int|
                0 <= i < c.len() ==> {
                    &&& self.flat_scan_set(exact).contains(#[trigger] c@[i].0)
                    &&& spec_vector_range(self.vector_offsets@, self.dim as int, c@[i].0, raw_len as int)
                        == Some(c@[i].1)
                },
            forall|id: u64|
                #[trigger] self.flat_scan_set(exact).contains(id) && spec_vector_range(
                    self.vector_offsets@,
                    self.dim as int,
                    id,
                    raw_len as int,
                ) is Some ==> c@.map_values(|e: (u64, (usize, usize))| e.0).contains(id),
    {
        let ids = if exact || self.indexed_segment.is_none() {
            map_keys(&self.vector_offsets)
        } else {
            set_elements(&self.unindexed_ids)
        };
        let mut c: Vec<(u64, (usize, usize))> = Vec::new();
        let mut i: usize = 0;
        while i < ids.len()
            invariant
                i <= ids.len(),
                ids@.to_set() == self.flat_scan_set(exact),
                ids@.no_duplicates(),
                c@.map_values(|e: (u64, (usize, usize))| e.0).no_duplicates(),
                forall|t: int|
                    0 <= t < c.len() ==> {
                        &&& ids@.subrange(0, i as int).contains(#[trigger] c@[t].0)
                        &&& spec_vector_range(self.vector_offsets@, self.dim as int, c@[t].0, raw_len as int)
                            == Some(c@[t].1)
                    },
                forall|t: int|
                    0 <= t < i && spec_vector_range(
                        self.vector_offsets@,
                        self.dim as int,
                        #[trigger] ids@[t],
                        raw_len as int,
                    ) is Some ==> c@.map_values(|e: (u64, (usize, usize))| e.0).contains(ids@[t]),
            decreases ids.len() - i,
        {
            let id = ids[i];
            let ghost before = c@;
            match self.vector_range(id, raw_len) {
                Some(r) => {
                    c.push((id, r));
                },
                None => {},
            }
            proof {
                let keys = c@.map_values(|e: (u64, (usize, usize))| e.0);
                let old_keys = before.map_values(|e: (u64, (usize, usize))| e.0);
                assert forall|t: int| 0 <= t < c.len() implies ids@.subrange(0, i + 1).contains(
                    #[trigger] c@[t].0,
                ) by {
                    if t < before.len() {
                        assert(before[t] == c@[t]);
                        let w = choose|w: int| 0 <= w < i && ids@.subrange(0, i as int)[w] == c@[t].0;
                        assert(ids@.subrange(0, i + 1)[w] == c@[t].0);
                    } else {
                        assert(ids@.subrange(0, i + 1)[i as int] == id);
                    }
                }
                if c.len() > before.len() {
                    assert(keys == old_keys.push(id));
                    assert forall|t: int| 0 <= t < old_keys.len() implies old_keys[t] != id by {
                        assert(ids@.subrange(0, i as int).contains(before[t].0));
                        let w = choose|w: int| 0 <= w < i && ids@.subrange(0, i as int)[w] == before[t].0;
                        assert(ids@[w] == before[t].0);
                    }
                    assert forall|t: int| 0 <= t < i + 1 && spec_vector_range(
                        self.vector_offsets@,
                        self.dim as int,
                        #[trigger] ids@[t],
                        raw_len as int,
                    ) is Some implies keys.contains(ids@[t]) by {
                        if t < i {
                            let w = choose|w: int| 0 <= w < old_keys.len() && old_keys[w] == ids@[t];
                            assert(keys[w] == ids@[t]);
                        } else {
                            assert(keys[before.len() as int] == id);
                        }
                    }
                } else {
                    assert(keys == old_keys);
                }
            }
            i = i + 1;
        }
        proof {
            assert(ids@.subrange(0, ids.len() as int) == ids@);
            assert forall|id: u64|
                #[trigger] self.flat_scan_set(exact).contains(id) && spec_vector_range(
                    self.vector_offsets@,
                    self.dim as int,
                    id,
                    raw_len as int,
                ) is Some implies c@.map_values(|e: (u64, (usize, usize))| e.0).contains(id) by {
                assert(ids@.to_set().contains(id));
                let w = choose|w: int| 0 <= w < ids.len() && ids@[w] == id;
            }
        }
        c
    }

    /// The entries of an index result that still name a stored vector, in
    /// order: position in the result, id, and range of the vector. Negative
    /// ids (padding) and ids deleted since the build are skipped.
    pub open spec fn live_hits(&self, ids: Seq<i64>, raw_len: int) -> Seq<(usize, u64, (usize, usize))>
        decreases ids.len(),
    {
        if ids.len() == 0 {
            Seq::empty()
        } else {
            let prev = self.live_hits(ids.drop_last(), raw_len);
            let id = ids.last();
            if id >= 0 && spec_vector_range(self.vector_offsets@, self.dim as int, id as u64, raw_len)
                is Some {
                prev.push(
                    (
                        (ids.len() - 1) as usize,
                        id as u64,
                        spec_vector_range(
                            self.vector_offsets@,
                            self.dim as int,
                            id as u64,
                            raw_len,
                        )->0,
                    ),
                )
            } else {
                prev
            }
        }
    }

    /// The live entries of an index result (see `live_hits`).
    pub fn index_hits(&self, ids: &[i64], raw_len: usize) -> (h: Vec<(usize, u64, (usize, usize))>)
        ensures
            h@ == self.live_hits(ids@, raw_len as int),
    {
        let mut h: Vec<(usize, u64, (usize, usize))> = Vec::new();
        let mut i: usize = 0;
        while i < ids.len()
            invariant
                i <= ids.len(),
                h@ == self.live_hits(ids@.subrange(0, i as int), raw_len as int),
            decreases ids.len() - i,
        {
            let id = ids[i];
            proof {
                let pre = ids@.subrange(0, i + 1);
                assert(pre.drop_last() == ids@.subrange(0, i as int));
                assert(pre.last() == id);
            }
            if id >= 0 {
                match self.vector_range(id as u64, raw_len) {
                    Some(r) => h.push((i, id as u64, r)),
                    None => {},
                }
            }
            i = i + 1;
        }
        assert(ids@.subrange(0, ids.len() as int) == ids@);
        h
    }

    /// Every stored id with the range of its vector, or `None` when its row
    /// lies beyond the raw file (the caller then reports zeros); each id once.
    pub fn point_ranges(&self, raw_len: usize) -> (p: Vec<(u64, Option<(usize, usize)>)>)
        ensures
            p@.map_values(|e: (u64, Option<(usize, usize)>)| e.0).no_duplicates(),
            p@.map_values(|e: (u64, Option<(usize, usize)>)| e.0).to_set() == self.vector_offsets@.dom(),
            forall|i: int|
                0 <= i < p.len() ==> (#[trigger] p@[i]).1 == spec_vector_range(
                    self.vector_offsets@,
                    self.dim as int,
                    p@[i].0,
                    raw_len as int,
                ),
    {
        let ids = map_keys(&self.vector_offsets);
        let mut p: Vec<(u64, Option<(usize, usize)>)> = Vec::new();
        let mut i: usize = 0;
        while i < ids.len()
            invariant
                i <= ids.len(),
                p.len() == i,
                forall|t: int| 0 <= t < i ==> (#[trigger] p@[t]).0 == ids@[t],
                forall|t: int|
                    0 <= t < i ==> (#[trigger] p@[t]).1 == spec_vector_range(
                        self.vector_offsets@,
                        self.dim as int,
                        p@[t].0,
                        raw_len as int,
                    ),
            decreases ids.len() - i,
        {
            let id = ids[i];
            p.push((id, self.vector_range(id, raw_len)));
            i = i + 1;
        }
        assert(p@.map_values(|e: (u64, Option<(usize, usize)>)| e.0) =~= ids@);
        p
    }

    /// The stored id of each of the first `n` rows of the raw file (0 where
    /// no id owns the row), `n` being the number of known ids; `None` when
    /// some id owns a row at or past `n`.
    pub fn ids_by_row(&self) -> (r: Option<Vec<i64>>)
        ensures
            match r {
                None => exists|id: u64|
                    #[trigger] self.vector_offsets@.contains_key(id) && self.vector_offsets@[id]
                        >= self.vector_offsets@.len(),
                Some(v) => {
                    &&& v.len() == self.vector_offsets@.len()
                    &&& forall|id: u64|
                        #[trigger] self.vector_offsets@.contains_key(id) ==> self.vector_offsets@[id]
                            < v.len()
                    &&& forall|row: int|
                        0 <= row < v.len() ==> if exists|id: u64|
                            #[trigger] self.vector_offsets@.contains_key(id) && self.vector_offsets@[id]
                                == row {
                            exists|id: u64|
                                #[trigger] self.vector_offsets@.contains_key(id) && self.vector_offsets@[id]
                                    == row && v@[row] == id as i64
                        } else {
                            v@[row] == 0
                        }
                },
            },
    {
        let n = self.vector_offsets.len();
        let ids = map_keys(&self.vector_offsets);
        let mut v: Vec<i64> = Vec::new();
        let mut t: usize = 0;
        while t < n
            invariant
                t <= n,
                v.len() == t,
                forall|r: int| 0 <= r < t ==> #[trigger] v@[r] == 0,
            decreases n - t,
        {
            v.push(0);
            t = t + 1;
        }
        let ghost rows = self.vector_offsets@;
        let mut i: usize = 0;
        while i < ids.len()
            invariant
                i <= ids.len(),
                rows == self.vector_offsets@,
                n == rows.len(),
                v.len() == n,
                ids@.to_set() == rows.dom(),
                ids@.no_duplicates(),
                forall|t: int| 0 <= t < i ==> rows[#[trigger] ids@[t]] < n,
                forall|row: int|
                    0 <= row < n ==> if exists|t: int|
                        0 <= t < i && rows[#[trigger] ids@[t]] == row {
                        exists|t: int| 0 <= t < i && rows[#[trigger] ids@[t]] == row && v@[row] == ids@[t] as i64
                    } else {
                        v@[row] == 0
                    },
            decreases ids.len() - i,
        {
            let id = ids[i];
            assert(ids@.to_set().contains(id));
            let row = *self.vector_offsets.get(&id).unwrap();
            if row >= n {
                return None;
            }
            let ghost before = v@;
            v.set(row, id as i64);
            proof {
                assert forall|r: int|
                    0 <= r < n implies if exists|t: int| 0 <= t < i + 1 && rows[#[trigger] ids@[t]] == r {
                    exists|t: int| 0 <= t < i + 1 && rows[#[trigger] ids@[t]] == r && v@[r] == ids@[t] as i64
                } else {
                    v@[r] == 0
                } by {
                    if r == row {
                        assert(rows[ids@[i as int]] == r && v@[r] == ids@[i as int] as i64);
                    } else {
                        assert(v@[r] == before[r]);
                        if exists|t: int| 0 <= t < i + 1 && rows[#[trigger] ids@[t]] == r {
                            let t = choose|t: int| 0 <= t < i + 1 && rows[#[trigger] ids@[t]] == r;
                            assert(t < i);
                            let t2 = choose|t2: int| 0 <= t2 < i && rows[#[trigger] ids@[t2]] == r && before[r] == ids@[t2] as i64;
                            assert(0 <= t2 < i + 1 && rows[ids@[t2]] == r && v@[r] == ids@[t2] as i64);
                        } else {
                            if exists|t: int| 0 <= t < i && rows[#[trigger] ids@[t]] == r {
                                let t = choose|t: int| 0 <= t < i && rows[#[trigger] ids@[t]] == r;
                                assert(0 <= t < i + 1 && rows[ids@[t]] == r);
                            }
                        }
                    }
                }
            }
            i = i + 1;
        }
        proof {
            assert forall|id: u64| #[trigger] rows.contains_key(id) implies rows[id] < v.len() by {
                assert(ids@.to_set().contains(id));
                let w = choose|w: int| 0 <= w < ids.len() && ids@[w] == id;
            }
            assert forall|row: int|
                0 <= row < v.len() implies if exists|id: u64|
                    #[trigger] rows.contains_key(id) && rows[id] == row {
                    exists|id: u64| #[trigger] rows.contains_key(id) && rows[id] == row && v@[row] == id as i64
                } else {
                    v@[row] == 0
                } by {
                if exists|id: u64| #[trigger] rows.contains_key(id) && rows[id] == row {
                    let id = choose|id: u64| #[trigger] rows.contains_key(id) && rows[id] == row;
                    assert(ids@.to_set().contains(id));
                    let w = choose|w: int| 0 <= w < ids.len() && ids@[w] == id;
                    assert(rows[ids@[w]] == row);
                    let t = choose|t: int| 0 <= t < ids.len() && rows[#[trigger] ids@[t]] == row && v@[row] == ids@[t] as i64;
                    assert(ids@.to_set().contains(ids@[t]));
                    assert(rows.contains_key(ids@[t]));
                } else {
                    if exists|t: int| 0 <= t < ids.len() && rows[#[trigger] ids@[t]] == row {
                        let t = choose|t: int| 0 <= t < ids.len() && rows[#[trigger] ids@[t]] == row;
                        assert(ids@.to_set().contains(ids@[t]));
                        assert(rows.contains_key(ids@[t]));
                    }
                }
            }
        }
        Some(v)
    }
}

/// How a search scans the index.
pub struct IndexScan {
    /// Number of IVF lists.
    pub n_list: usize,
    /// Lists to probe.
    pub n_probe: usize,
    /// Index hits to retrieve (more than asked for when re-ranking).
    pub retrieve_k: usize,
    /// SQ bits per coordinate.
    pub mse_bits: usize,
}

/// Rows the arrays of a segment can serve, for dimension `d` and `mse_bits`.
pub open spec fn segment_rows_fit(seg: IndexedSegment, d: int, mse_bits: int, rows: int) -> bool {
    &&& rows <= seg.vector_ids.len()
    &&& rows <= seg.norms_sl.len()
    &&& rows <= seg.res_norms.len()
    &&& rows * search_sq_width(d, mse_bits) <= seg.sq_flat.len()
    &&& rows * search_sign_width(d) <= seg.signs_flat.len()
}

/// A segment can be scanned for queries of dimension `d` without reading
/// past any of its arrays.
pub open spec fn segment_fits(seg: IndexedSegment, d: int, mse_bits: int) -> bool {
    &&& seg.offsets_sl.len() >= 1
    &&& d * d <= seg.rot_op.len()
    &&& (seg.offsets_sl.len() - 1) * d <= seg.coarse_view.len()
    &&& forall|c: int|
        0 <= c < seg.offsets_sl.len() ==> {
            &&& 0 <= #[trigger] seg.offsets_sl@[c]
            &&& segment_rows_fit(seg, d, mse_bits, seg.offsets_sl@[c] as int)
        }
}

impl IndexedSegment {
    /// Whether the segment can be scanned (see `segment_fits`).
    pub fn fits(&self, d: usize, mse_bits: usize) -> (r: bool)
        ensures
            r == segment_fits(*self, d as int, mse_bits as int),
    {
        if self.offsets_sl.len() < 1 {
            return false;
        }
        if d > 0 && (self.rot_op.len() / d < d) {
            proof {
                assert(d * d > self.rot_op.len()) by (nonlinear_arith)
                    requires self.rot_op.len() / d < d, d > 0;
            }
            return false;
        }
        proof {
            assert(d * d <= self.rot_op.len()) by (nonlinear_arith)
                requires d == 0 || self.rot_op.len() / d >= d;
        }
        let n_list = self.offsets_sl.len() - 1;
        if d > 0 && (self.coarse_view.len() / d < n_list) {
            proof {
                assert(n_list * d > self.coarse_view.len()) by (nonlinear_arith)
                    requires self.coarse_view.len() / d < n_list, d > 0;
            }
            return false;
        }
        proof {
            assert(n_list * d <= self.coarse_view.len()) by (nonlinear_arith)
                requires d == 0 || self.coarse_view.len() / d >= n_list;
        }
        let wq: usize = if mse_bits == 1 { d / 8 } else { d / 2 };
        let ws: usize = d / 8;
        let mut c: usize = 0;
        while c < self.offsets_sl.len()
            invariant
                c <= self.offsets_sl.len(),
                wq == search_sq_width(d as int, mse_bits as int),
                ws == search_sign_width(d as int),
                forall|t: int|
                    0 <= t < c ==> {
                        &&& 0 <= #[trigger] self.offsets_sl@[t]
                        &&& segment_rows_fit(*self, d as int, mse_bits as int, self.offsets_sl@[t] as int)
                    },
            decreases self.offsets_sl.len() - c,
        {
            let o = self.offsets_sl[c];
            if o < 0 {
                return false;
            }
            let rows = o as usize;
            if rows > self.vector_ids.len() || rows > self.norms_sl.len() || rows > self.res_norms.len() {
                return false;
            }
            if wq > 0 && rows > self.sq_flat.len() / wq {
                proof {
                    assert(rows * wq > self.sq_flat.len()) by (nonlinear_arith)
                        requires rows > self.sq_flat.len() / wq, wq > 0;
                }
                return false;
            }
            if ws > 0 && rows > self.signs_flat.len() / ws {
                proof {
                    assert(rows * ws > self.signs_flat.len()) by (nonlinear_arith)
                        requires rows > self.signs_flat.len() / ws, ws > 0;
                }
                return false;
            }
            proof {
                assert(rows * wq <= self.sq_flat.len()) by (nonlinear_arith)
                    requires wq == 0 || rows <= self.sq_flat.len() / wq;
                assert(rows * ws <= self.signs_flat.len()) by (nonlinear_arith)
                    requires ws == 0 || rows <= self.signs_flat.len() / ws;
            }
            c = c + 1;
        }
        true
    }
}

impl TQEngine {
    /// Whether a search of a `query_len`-dimensional query scans the index:
    /// only when there is one, the dimensions agree and no exact scan is
    /// asked for. Then it probes the requested number of lists (all of them
    /// by default) for `top_k` hits, `top_k * rerank_factor` when re-ranking.
    pub fn index_scan(&self, query_len: usize, top_k: usize, p: &ResolvedParams) -> (s: Option<IndexScan>)
        requires
            self.indexed_segment is Some && self.dim == query_len && !p.exact ==> {
                &&& self.indexed_segment->0.offsets_sl.len() >= 1
                &&& self.index_config.quantize_bits >= 1
                &&& p.rerank ==> top_k * p.rerank_factor <= usize::MAX
            },
        ensures
            s is Some <==> (self.indexed_segment is Some && self.dim == query_len && !p.exact),
            s matches Some(scan) ==> {
                &&& scan.n_list == self.indexed_segment->0.offsets_sl.len() - 1
                &&& scan.n_probe == (match p.n_probe {
                    Some(k) => k,
                    None => scan.n_list,
                })
                &&& scan.retrieve_k == (if p.rerank { top_k * p.rerank_factor } else { top_k as int })
                &&& scan.mse_bits == self.index_config.quantize_bits - 1
                &&& (scan.n_probe, scan.retrieve_k, scan.mse_bits) == self.scan_args(top_k, *p)
            },
    {
        match &self.indexed_segment {
            Some(seg) => {
                if self.dim == query_len && !p.exact {
                    let n_list = seg.offsets_sl.len() - 1;
                    let n_probe = match p.n_probe {
                        Some(k) => k,
                        None => n_list,
                    };
                    let retrieve_k = if p.rerank { top_k * p.rerank_factor } else { top_k };
                    Some(IndexScan { n_list, n_probe, retrieve_k, mse_bits: self.index_config.quantize_bits - 1 })
                } else {
                    None
                }
            },
            None => None,
        }
    }
}

impl TQEngine {
    /// Whether a search of a `query_len`-dimensional query scans the index (see `index_scan`).
    pub open spec fn scans_index(&self, query_len: usize, p: ResolvedParams) -> bool {
        self.indexed_segment is Some && self.dim == query_len && !p.exact
    }

    /// The lists to probe, the hits to retrieve and the SQ bits of an index
    /// scan (see `index_scan`).
    pub open spec fn scan_args(&self, top_k: usize, p: ResolvedParams) -> (usize, usize, usize) {
        let n_list = (self.indexed_segment->0.offsets_sl.len() - 1) as usize;
        (
            match p.n_probe {
                Some(k) => k,
                None => n_list,
            },
            (if p.rerank { top_k * p.rerank_factor } else { top_k as int }) as usize,
            (self.index_config.quantize_bits - 1) as usize,
        )
    }

    /// The index's hits of a search: none when the index is not scanned;
    /// otherwise each live entry of what the scan returned, with its index
    /// score, or with an exact score of its stored vector when re-ranking.
    pub open spec fn index_part<S: Fn(usize, usize, usize) -> IndexHits, X: Fn(usize, usize) -> u32>(
        &self,
        query_len: usize,
        top_k: usize,
        p: ResolvedParams,
        raw_len: usize,
        scan: S,
        exact_score: X,
        indexed: Seq<Hit>,
    ) -> bool {
        if !self.scans_index(query_len, p) {
            indexed.len() == 0
        } else {
            exists|found: IndexHits|
                {
                    let live = self.live_hits(found.ids@, raw_len as int);
                    &&& #[trigger] call_ensures(scan, self.scan_args(top_k, p), found)
                    &&& indexed.len() == live.len()
                    &&& forall|t: int|
                        0 <= t < live.len() ==> {
                            &&& (#[trigger] indexed[t]).0 == live[t].1
                            &&& if p.rerank {
                                call_ensures(exact_score, live[t].2, indexed[t].1)
                            } else {
                                indexed[t].1 == found.scores@[live[t].0 as int]
                            }
                        }
                }
        }
    }

    /// The flat scan of a search: every id of `flat_scan_set(exact)` whose
    /// vector lies within the raw file, once each, with a score of its vector.
    pub open spec fn flat_part<D: Fn(usize, usize) -> u32>(
        &self,
        exact: bool,
        raw_len: usize,
        flat_score: D,
        scored: Seq<Hit>,
    ) -> bool {
        &&& scored.map_values(|h: Hit| h.0).no_duplicates()
        &&& forall|i: int|
            0 <= i < scored.len() ==> {
                let range = spec_vector_range(self.vector_offsets@, self.dim as int, scored[i].0, raw_len as int)->0;
                &&& self.flat_scan_set(exact).contains(#[trigger] scored[i].0)
                &&& spec_vector_range(self.vector_offsets@, self.dim as int, scored[i].0, raw_len as int) is Some
                &&& call_ensures(flat_score, range, scored[i].1)
            }
        &&& forall|id: u64|
            #[trigger] self.flat_scan_set(exact).contains(id) && spec_vector_range(
                self.vector_offsets@,
                self.dim as int,
                id,
                raw_len as int,
            ) is Some ==> scored.map_values(|h: Hit| h.0).contains(id)
    }

    /// What a search reports, given the index's hits and the flat scan's
    /// scores (see `search_hits`).
    pub open spec fn search_outcome<
        S: Fn(usize, usize, usize) -> IndexHits,
        X: Fn(usize, usize) -> u32,
        D: Fn(usize, usize) -> u32,
    >(
        &self,
        query_len: usize,
        top_k: usize,
        p: ResolvedParams,
        raw_len: usize,
        scan: S,
        exact_score: X,
        flat_score: D,
        indexed: Seq<Hit>,
        scored: Seq<Hit>,
        r: Option<Vec<Hit>>,
    ) -> bool {
        &&& self.index_part(query_len, top_k, p, raw_len, scan, exact_score, indexed)
        &&& self.flat_part(p.exact, raw_len, flat_score, scored)
        &&& if top_k == 0 && scored.len() > 0 {
            r is None
        } else {
            exists|sel: Seq<usize>|
                {
                    let flat = Seq::new(sel.len(), |i: int| scored[sel[i] as int]);
                    let merged = append_new(indexed, flat);
                    &&& #[trigger] is_top_k(flat_table(scored), sel, top_k as int)
                    &&& if merged.len() >= 2 && exists|i: int| 0 <= i < merged.len() && is_nan_bits(#[trigger] merged[i].1) {
                        r is None
                    } else {
                        r matches Some(out) && is_stable_top(merged, out@, top_k as int)
                    }
                }
        }
    }

    /// One search: the index hits (when the index is scanned, by `scan` with
    /// the lists to probe, the hits to retrieve and the SQ bits), live ones
    /// only, scored by the index or re-scored by `exact_score` over the
    /// stored vector's range; the best `top_k` of the flat scan, scored by
    /// `flat_score`; the flat hits whose id is new appended; all ranked,
    /// best first, and cut to `top_k`. No result (`None`) when `top_k` is 0
    /// and the flat scan found something, or when two or more hits are
    /// merged and one of their scores is NaN. Every result names a stored id:
    /// an id deleted since the index was built is never reported.
    pub fn search_hits<S, X, D>(
        &self,
        query_len: usize,
        top_k: usize,
        p: &ResolvedParams,
        raw_len: usize,
        scan: S,
        exact_score: X,
        flat_score: D,
    ) -> (r: Option<Vec<Hit>>) where
        S: Fn(usize, usize, usize) -> IndexHits,
        X: Fn(usize, usize) -> u32,
        D: Fn(usize, usize) -> u32,

        requires
            self.indexed_segment is Some && self.dim == query_len && !p.exact ==> {
                &&& self.indexed_segment->0.offsets_sl.len() >= 1
                &&& self.index_config.quantize_bits >= 1
                &&& p.rerank ==> top_k * p.rerank_factor <= usize::MAX
            },
            forall|a: usize, b: usize, c: usize| call_requires(scan, (a, b, c)),
            forall|a: usize, b: usize, c: usize, h: IndexHits|
                call_ensures(scan, (a, b, c), h) ==> h.scores.len() == h.ids.len(),
            forall|a: usize, b: usize| call_requires(exact_score, (a, b)),
            forall|a: usize, b: usize| call_requires(flat_score, (a, b)),
        ensures
            exists|indexed: Seq<Hit>, scored: Seq<Hit>|
                #[trigger] self.search_outcome(
                    query_len,
                    top_k,
                    *p,
                    raw_len,
                    scan,
                    exact_score,
                    flat_score,
                    indexed,
                    scored,
                    r,
                ),
            r matches Some(out) ==> forall|t: int|
                0 <= t < out.len() ==> self.vector_offsets@.contains_key(#[trigger] out@[t].0),
    {
        let mut indexed: Vec<Hit> = Vec::new();
        match self.index_scan(query_len, top_k, p) {
            Some(plan) => {
                let found = scan(plan.n_probe, plan.retrieve_k, plan.mse_bits);
                let live = self.index_hits(&found.ids, raw_len);
                proof {
                    self.lemma_live_positions(found.ids@, raw_len as int);
                }
                let mut exact: Vec<u32> = Vec::new();
                if p.rerank {
                    let mut t: usize = 0;
                    while t < live.len()
                        invariant
                            t <= live.len(),
                            exact.len() == t,
                            forall|a: usize, b: usize| call_requires(exact_score, (a, b)),
                            forall|u: int|
                                0 <= u < t ==> call_ensures(
                                    exact_score,
                                    live@[u].2,
                                    #[trigger] exact@[u],
                                ),
                        decreases live.len() - t,
                    {
                        let (_, _, (start, end)) = live[t];
                        exact.push(exact_score(start, end));
                        t = t + 1;
                    }
                }
                indexed = index_result_hits(&live, &found.scores, p.rerank, &exact);
                proof {
                    assert(call_ensures(scan, self.scan_args(top_k, *p), found));
                    assert(self.index_part(query_len, top_k, *p, raw_len, scan, exact_score, indexed@));
                }
            },
            None => {},
        }
        assert(self.index_part(query_len, top_k, *p, raw_len, scan, exact_score, indexed@));
        let cands = self.flat_candidates(p.exact, raw_len);
        let mut scored: Vec<Hit> = Vec::new();
        let mut i: usize = 0;
        while i < cands.len()
            invariant
                i <= cands.len(),
                scored.len() == i,
                forall|a: usize, b: usize| call_requires(flat_score, (a, b)),
                forall|u: int|
                    0 <= u < i ==> {
                        &&& (#[trigger] scored@[u]).0 == cands@[u].0
                        &&& call_ensures(flat_score, cands@[u].1, scored@[u].1)
                    },
            decreases cands.len() - i,
        {
            let (id, (start, end)) = cands[i];
            scored.push((id, flat_score(start, end)));
            i = i + 1;
        }
        proof {
            assert(scored@.map_values(|h: Hit| h.0) =~= cands@.map_values(|e: (u64, (usize, usize))| e.0));
            assert(self.flat_part(p.exact, raw_len, flat_score, scored@));
        }
        if top_k == 0 && scored.len() > 0 {
            proof {
                assert(self.search_outcome(query_len, top_k, *p, raw_len, scan, exact_score, flat_score, indexed@, scored@, None));
            }
            return None;
        }
        let flat = flat_top_hits(&scored, top_k);
        let ghost sel = choose|sel: Seq<usize>|
            {
                &&& is_top_k(flat_table(scored@), sel, top_k as int)
                &&& flat.len() == sel.len()
                &&& forall|i: int| 0 <= i < sel.len() ==> #[trigger] flat@[i] == scored@[sel[i] as int]
            };
        assert(flat@ =~= Seq::new(sel.len(), |i: int| scored@[sel[i] as int]));
        let combined = merge_new_hits(&indexed, &flat);
        let mut has_nan = false;
        let mut j: usize = 0;
        while j < combined.len()
            invariant
                j <= combined.len(),
                has_nan == exists|u: int| 0 <= u < j && is_nan_bits(#[trigger] combined@[u].1),
            decreases combined.len() - j,
        {
            if is_nan(combined[j].1) {
                has_nan = true;
            }
            j = j + 1;
        }
        if combined.len() >= 2 && has_nan {
            proof {
                assert(self.search_outcome(query_len, top_k, *p, raw_len, scan, exact_score, flat_score, indexed@, scored@, None));
            }
            return None;
        }
        let out = rank_hits(&combined, top_k);
        let r = Some(out);
        proof {
            assert(self.search_outcome(query_len, top_k, *p, raw_len, scan, exact_score, flat_score, indexed@, scored@, r));
            let stored = self.vector_offsets@.dom();
            assert forall|t: int| 0 <= t < indexed.len() implies stored.contains(#[trigger] indexed@[t].0) by {
                if self.scans_index(query_len, *p) {
                    let found = choose|found: IndexHits|
                        {
                            let live = self.live_hits(found.ids@, raw_len as int);
                            &&& #[trigger] call_ensures(scan, self.scan_args(top_k, *p), found)
                            &&& indexed@.len() == live.len()
                            &&& forall|t: int|
                                0 <= t < live.len() ==> {
                                    &&& (#[trigger] indexed@[t]).0 == live[t].1
                                    &&& if p.rerank {
                                        call_ensures(exact_score, live[t].2, indexed@[t].1)
                                    } else {
                                        indexed@[t].1 == found.scores@[live[t].0 as int]
                                    }
                                }
                        };
                    self.lemma_live_hits_are_stored(found.ids@, raw_len as int);
                    assert(indexed@[t].0 == self.live_hits(found.ids@, raw_len as int)[t].1);
                }
            }
            assert forall|t: int| 0 <= t < flat.len() implies stored.contains(#[trigger] flat@[t].0) by {
                assert(flat@[t] == scored@[sel[t] as int]);
            }
            crate::search::lemma_results_from_stored_ids(stored, indexed@, flat@, out@, top_k as int);
        }
        r
    }

    /// The index scan of a search probes every list of the segment when the
    /// request names no probe count, and exactly the named count otherwise;
    /// it retrieves `top_k` hits (`top_k * rerank_factor` when re-ranking)
    /// with the SQ bits of the configuration.
    pub proof fn lemma_scan_probes_all_lists_by_default(&self, top_k: usize, p: ResolvedParams)
        requires
            self.indexed_segment is Some,
            self.indexed_segment->0.offsets_sl.len() >= 1,
            self.index_config.quantize_bits >= 1,
            p.rerank ==> top_k * p.rerank_factor <= usize::MAX,
        ensures
            p.n_probe is None ==> self.scan_args(top_k, p).0 == self.indexed_segment->0.offsets_sl.len() - 1,
            p.n_probe matches Some(k) ==> self.scan_args(top_k, p).0 == k,
            self.scan_args(top_k, p).1 == (if p.rerank { top_k * p.rerank_factor } else { top_k as int }),
            self.scan_args(top_k, p).2 == self.index_config.quantize_bits - 1,
    {
    }

    /// Live entries point into the index result they come from.
    proof fn lemma_live_positions(&self, ids: Seq<i64>, raw_len: int)
        ensures
            forall|t: int|
                0 <= t < self.live_hits(ids, raw_len).len() ==> ((#[trigger] self.live_hits(ids, raw_len)[t]).0
                    as int) < ids.len(),
        decreases ids.len(),
    {
        if ids.len() > 0 {
            self.lemma_live_positions(ids.drop_last(), raw_len);
            let prev = self.live_hits(ids.drop_last(), raw_len);
            let now = self.live_hits(ids, raw_len);
            assert forall|t: int| 0 <= t < now.len() implies ((#[trigger] now[t]).0 as int) < ids.len() by {
                if t < prev.len() {
                    assert(now[t] == prev[t]);
                }
            }
        }
    }
}

/// Every id owns a distinct row, and the rows are exactly `0..len`: the
/// layout in which the raw file holds one row per id, in order of arrival.
pub open spec fn rows_dense(rows: Map<u64, usize>) -> bool {
    &&& rows.dom().finite()
    &&& forall|id: u64| #[trigger] rows.contains_key(id) ==> rows[id] < rows.len()
    &&& forall|a: u64, b: u64|
        #[trigger] rows.contains_key(a) && #[trigger] rows.contains_key(b) && a != b ==> rows[a] != rows[b]
}

/// What is written is read back: when the raw file holds one row per known
/// id (`raw_before` values) and a vector of the engine's dimension is
/// appended for an id, the id's range is exactly the appended values.
pub proof fn lemma_added_vector_reads_back(
    rows: Map<u64, usize>,
    dim: usize,
    id: u64,
    vector_len: usize,
    raw_before: int,
)
    requires
        rows.dom().finite(),
        dim == 0 || dim == vector_len,
        raw_before == rows.len() * vector_len,
        raw_before + vector_len <= usize::MAX,
        rows.len() <= usize::MAX,
    ensures
        spec_vector_range(
            rows.insert(id, rows.len() as usize),
            (if dim == 0 { vector_len } else { dim }) as int,
            id,
            raw_before + vector_len,
        ) == Some((raw_before as usize, (raw_before + vector_len) as usize)),
{
}

/// Adding an id that is not yet known keeps one row per id.
pub proof fn lemma_fresh_add_keeps_rows_dense(rows: Map<u64, usize>, id: u64)
    requires
        rows_dense(rows),
        !rows.contains_key(id),
        rows.len() < usize::MAX,
    ensures
        rows_dense(rows.insert(id, rows.len() as usize)),
{
    let new_rows = rows.insert(id, rows.len() as usize);
    assert(new_rows.len() == rows.len() + 1);
}

/// With one row per id, the table of ids by row is complete: every id is
/// found at its own row.
pub proof fn lemma_dense_rows_invert(rows: Map<u64, usize>, v: Seq<i64>)
    requires
        rows_dense(rows),
        v.len() == rows.len(),
        forall|row: int|
            0 <= row < v.len() ==> if exists|id: u64|
                #[trigger] rows.contains_key(id) && rows[id] == row {
                exists|id: u64| #[trigger] rows.contains_key(id) && rows[id] == row && v[row] == id as i64
            } else {
                v[row] == 0
            },
    ensures
        forall|id: u64| #[trigger] rows.contains_key(id) ==> v[rows[id] as int] == id as i64,
{
    assert forall|id: u64| #[trigger] rows.contains_key(id) implies v[rows[id] as int] == id as i64 by {
        let row = rows[id] as int;
        assert(rows.contains_key(id) && rows[id] == row);
        let other = choose|o: u64| #[trigger] rows.contains_key(o) && rows[o] == row && v[row] == o as i64;
        if other != id {
            assert(rows[other] != rows[id]);
        }
    }
}

/// A deleted id has no vector and no payload any more.
pub proof fn lemma_deleted_id_is_gone(
    rows: Map<u64, usize>,
    payloads: Map<u64, (u64, u32)>,
    dim: int,
    id: u64,
    raw_len: int,
    file_len: int,
)
    ensures
        spec_vector_range(rows.remove(id), dim, id, raw_len) is None,
        spec_payload_range(payloads.remove(id), id, file_len) is None,
{
}

/// A recorded payload is read back: after recording a non-empty payload at
/// `(offset, len)`, the id's payload range is that span whenever the
/// payload file reaches its end.
pub proof fn lemma_recorded_payload_reads_back(
    payloads: Map<u64, (u64, u32)>,
    id: u64,
    offset: u64,
    len: u32,
    file_len: int,
)
    requires
        len > 0,
        offset + len <= file_len,
    ensures
        spec_payload_range(record_payload(payloads, id, Some((offset, len))), id, file_len)
            == Some((offset as usize, (offset + len) as usize)),
{
}

/// An empty payload is never recorded: the id keeps whatever it had.
pub proof fn lemma_empty_payload_not_recorded(payloads: Map<u64, (u64, u32)>, id: u64, offset: u64)
    ensures
        record_payload(payloads, id, Some((offset, 0u32))) == payloads,
        record_payload(payloads, id, None) == payloads,
{
}

impl TQEngine {
    /// Right after the index is reset, a search rebuilds it whenever any
    /// vector is stored; right after an index is installed, none is pending.
    pub proof fn lemma_reset_then_rebuild(&self)
        requires
            self.indexed_segment is None,
            self.unindexed_ids@ == self.vector_offsets@.dom(),
            !self.vector_offsets@.dom().is_empty(),
        ensures
            self.unindexed_ids@.len() > REBUILD_THRESHOLD || (self.indexed_segment is None
                && !self.unindexed_ids@.is_empty()),
    {
    }

    /// With an index installed and nothing pending, no rebuild is due.
    pub proof fn lemma_installed_index_is_current(&self)
        requires
            self.indexed_segment is Some,
            self.unindexed_ids@ == Set::<u64>::empty(),
        ensures
            !(self.unindexed_ids@.len() > REBUILD_THRESHOLD || (self.indexed_segment is None
                && !self.unindexed_ids@.is_empty())),
    {
    }
}

impl TQEngine {
    /// Live index hits name stored ids only: a deleted id never comes back
    /// from the index.
    pub proof fn lemma_live_hits_are_stored(&self, ids: Seq<i64>, raw_len: int)
        ensures
            forall|t: int|
                0 <= t < self.live_hits(ids, raw_len).len() ==> self.vector_offsets@.contains_key(
                    (#[trigger] self.live_hits(ids, raw_len)[t]).1,
                ),
        decreases ids.len(),
    {
        if ids.len() > 0 {
            self.lemma_live_hits_are_stored(ids.drop_last(), raw_len);
            let prev = self.live_hits(ids.drop_last(), raw_len);
            let now = self.live_hits(ids, raw_len);
            assert forall|t: int| 0 <= t < now.len() implies self.vector_offsets@.contains_key(
                (#[trigger] now[t]).1,
            ) by {
                if t < prev.len() {
                    assert(now[t] == prev[t]);
                }
            }
        }
    }

    /// The flat scan covers stored ids only, as long as every pending id is stored.
    pub proof fn lemma_flat_scan_is_stored(&self, exact: bool)
        requires
            self.pending_are_stored(),
        ensures
            self.flat_scan_set(exact).subset_of(self.vector_offsets@.dom()),
    {
    }
}

} // verus!
