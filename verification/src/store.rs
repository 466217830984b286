//! The store: tags, the chunks of each tag and the chunks' vectors.
//!
//! On disk the store is two files: the tags file, which says which chunk ids
//! belong to which tag and holds the exact vectors, and the image of the vector
//! index. Where the two do not go together the index is built anew from the exact
//! vectors.
use crate::config::Config;
use crate::tag::{tag_text, uuid_text};
use crate::tags_file::{
    decode_tags, encode_tags, lemma_lists_inserted, lemma_lists_removed, lists, tags_decoded,
};
use crate::text::{decimal, joined, push_decimal};
use crate::vector_index::{
    add_outcome, has_size, image_refusal, index_params, index_without, is_image, new_index,
    params_refusal, reads_as, same_index, IndexState, VectorError, VectorFault, VectorIndex,
};
use std::collections::HashMap;
use vstd::prelude::*;
use vstd::string::StringExecFns;

verus! {

broadcast use vstd::std_specs::hash::group_hash_axioms;

/// What goes wrong with the store.
#[derive(Debug)]
pub enum StoreError {
    /// The tags could not be written as bytes.
    Serialize(String),
    /// The tags file could not be read.
    Deserialize(String),
    /// A file, or what is to be stored, is not as it should be.
    Io(String),
    /// The vector index refused something.
    Vector(VectorError),
    /// There is no such tag.
    TagNotFound(u128),
}

/// A `StoreError` with its texts as sequences of characters.
pub enum StoreFault {
    Serialize(Seq<char>),
    Deserialize(Seq<char>),
    Io(Seq<char>),
    Vector(VectorFault),
    TagNotFound(u128),
}

impl View for StoreError {
    type V = StoreFault;

    open spec fn view(&self) -> StoreFault {
        match *self {
            StoreError::Serialize(m) => StoreFault::Serialize(m@),
            StoreError::Deserialize(m) => StoreFault::Deserialize(m@),
            StoreError::Io(m) => StoreFault::Io(m@),
            StoreError::Vector(e) => StoreFault::Vector(e@),
            StoreError::TagNotFound(tag) => StoreFault::TagNotFound(tag),
        }
    }
}

impl StoreFault {
    /// The text shown for the error.
    pub open spec fn message(self) -> Seq<char> {
        match self {
            StoreFault::Serialize(m) => "序列化失败: "@ + m,
            StoreFault::Deserialize(m) => "反序列化失败: "@ + m,
            StoreFault::Io(m) => "IO 错误: "@ + m,
            StoreFault::Vector(f) => "向量索引错误: "@ + f.message(),
            StoreFault::TagNotFound(tag) => "tag 不存在: "@ + tag_text(tag),
        }
    }
}

impl StoreError {
    /// The text shown for the error.
    pub fn message(&self) -> (s: String)
        ensures
            s@ == self@.message(),
    {
        match self {
            StoreError::Serialize(m) => joined("序列化失败: ", m.as_str()),
            StoreError::Deserialize(m) => joined("反序列化失败: ", m.as_str()),
            StoreError::Io(m) => joined("IO 错误: ", m.as_str()),
            StoreError::Vector(e) => joined("向量索引错误: ", e.message().as_str()),
            StoreError::TagNotFound(tag) => joined("tag 不存在: ", uuid_text(*tag).as_str()),
        }
    }
}

/// What the store holds.
#[verifier::ext_equal]
pub struct StoreState {
    /// What the index holds, by chunk id.
    pub index: IndexState,
    /// The chunk ids of each tag, in the order of the chunks.
    pub tags: Map<u128, Seq<u64>>,
    /// The next chunk id to hand out.
    pub next_id: u64,
    /// The exact vectors, by chunk id.
    pub raw: Map<u64, Seq<u32>>,
    /// Whether the exact vectors are kept on disk.
    pub keep_raw: bool,
}

/// The store: what the writer alone changes.
pub struct TagStore {
    index: VectorIndex,
    tag_to_ids: HashMap<u128, Vec<u64>>,
    next_id: u64,
    raw_vectors: HashMap<u64, Vec<u32>>,
    keep_raw: bool,
}

impl View for TagStore {
    type V = StoreState;

    closed spec fn view(&self) -> StoreState {
        StoreState {
            index: self.index@,
            tags: lists(self.tag_to_ids@),
            next_id: self.next_id,
            raw: lists(self.raw_vectors@),
            keep_raw: self.keep_raw,
        }
    }
}

// ---------- writing ----------

/// The store without the chunks `ids`.
pub open spec fn without(s: StoreState, ids: Seq<u64>) -> StoreState {
    StoreState {
        index: index_without(s.index, ids.to_set()),
        raw: s.raw.remove_keys(ids.to_set()),
        ..s
    }
}

/// The store without a tag and the tag's chunks.
pub open spec fn dropped(s: StoreState, tag: u128) -> StoreState {
    if s.tags.contains_key(tag) {
        without(StoreState { tags: s.tags.remove(tag), ..s }, s.tags[tag])
    } else {
        s
    }
}

/// The `n` chunk ids from `next` on.
pub open spec fn fresh_ids(next: u64, n: nat) -> Seq<u64> {
    Seq::new(n, |i: int| (next + i) as u64)
}

/// The store after `n` chunk ids have been handed out.
pub open spec fn allocated(s: StoreState, n: nat) -> StoreState {
    StoreState { next_id: (s.next_id + n) as u64, ..s }
}

/// The exact vectors with these ones under the ids from `next` on.
pub open spec fn noted(raw: Map<u64, Seq<u32>>, next: u64, rows: Seq<Seq<u32>>) -> Map<
    u64,
    Seq<u32>,
> {
    raw.union_prefer_right(
        Map::new(|id: u64| next <= id < next + rows.len(), |id: u64| rows[id - next]),
    )
}

/// The vectors' coordinates behind each other.
pub open spec fn laid_out(rows: Seq<Seq<u32>>) -> Seq<u32>
    decreases rows.len(),
{
    if rows.len() == 0 {
        Seq::empty()
    } else {
        laid_out(rows.drop_last()) + rows.last()
    }
}

/// The number of vectors before the first that has not `dim` coordinates.
pub open spec fn fitting(rows: Seq<Seq<u32>>, dim: usize) -> nat
    decreases rows.len(),
{
    if rows.len() == 0 || rows[0].len() != dim {
        0
    } else {
        1 + fitting(rows.drop_first(), dim)
    }
}

/// The complaint about a vector of `actual` coordinates.
pub open spec fn misfit_text(actual: nat, dim: usize) -> Seq<char> {
    "向量维度 "@ + decimal(actual) + "(实际) != "@ + decimal(dim as nat) + "(期望)"@
}

/// Filing these vectors under a tag: the store afterwards, and the number of
/// chunks or the error. What the tag had before is gone in any case. The tag and the
/// vectors, in the index and exact, are there only after success; a failure leaves
/// nothing behind but chunk ids that are not handed out again.
pub open spec fn upsert_outcome(s: StoreState, tag: u128, rows: Seq<Seq<u32>>) -> (
    StoreState,
    Result<nat, StoreFault>,
) {
    let base = dropped(s, tag);
    let fit = fitting(rows, s.index.dim);
    if fit < rows.len() {
        (
            allocated(base, fit),
            Err(StoreFault::Io(misfit_text(rows[fit as int].len(), s.index.dim))),
        )
    } else {
        let ids = fresh_ids(base.next_id, rows.len());
        let after = allocated(base, rows.len());
        match add_outcome(base.index, laid_out(rows), ids) {
            Ok(index) => (
                StoreState {
                    index,
                    tags: base.tags.insert(tag, ids),
                    raw: noted(base.raw, base.next_id, rows),
                    ..after
                },
                Ok(rows.len()),
            ),
            Err(f) => (after, Err(StoreFault::Vector(f))),
        }
    }
}

/// Deleting a tag: the store afterwards, and the error where there is no such tag.
pub open spec fn delete_outcome(s: StoreState, tag: u128) -> (StoreState, Result<(), StoreFault>) {
    if s.tags.contains_key(tag) {
        (dropped(s, tag), Ok(()))
    } else {
        (s, Err(StoreFault::TagNotFound(tag)))
    }
}

/// The vectors as sequences of coordinates.
pub open spec fn rows_of(vectors: Seq<Vec<u32>>) -> Seq<Seq<u32>> {
    vectors.map_values(|v: Vec<u32>| v@)
}

proof fn lemma_fitting(rows: Seq<Seq<u32>>, dim: usize, n: int)
    requires
        0 <= n <= rows.len(),
        forall|i: int| 0 <= i < n ==> (#[trigger] rows[i]).len() == dim,
        n < rows.len() ==> rows[n].len() != dim,
    ensures
        fitting(rows, dim) == n,
    decreases n,
{
    if n > 0 {
        let rest = rows.drop_first();
        assert forall|i: int| 0 <= i < n - 1 implies (#[trigger] rest[i]).len() == dim by {
            assert(rest[i] == rows[i + 1]);
        }
        assert(rows[0].len() == dim);
        lemma_fitting(rest, dim, n - 1);
    }
}

/// Filing vectors hands out no more chunk ids than there are vectors.
pub(crate) proof fn lemma_next_id(s: StoreState, tag: u128, rows: Seq<Seq<u32>>)
    requires
        s.next_id + rows.len() <= u64::MAX,
    ensures
        upsert_outcome(s, tag, rows).0.next_id <= s.next_id + rows.len(),
{
    lemma_fitting_bound(rows, s.index.dim);
}

proof fn lemma_fitting_bound(rows: Seq<Seq<u32>>, dim: usize)
    ensures
        fitting(rows, dim) <= rows.len(),
    decreases rows.len(),
{
    if rows.len() > 0 {
        lemma_fitting_bound(rows.drop_first(), dim);
    }
}

impl TagStore {
    /// Takes the chunks `ids` out.
    fn remove_chunks(&mut self, ids: &Vec<u64>)
        ensures
            final(self)@ == without(old(self)@, ids@),
            final(self).tag_to_ids == old(self).tag_to_ids,
    {
        let mut i: usize = 0;
        let ghost before = self@;
        proof {
            assert(ids@.take(0).to_set() =~= Set::<u64>::empty());
            assert(index_without(before.index, Set::<u64>::empty()) =~= before.index);
            assert(before.raw.remove_keys(Set::<u64>::empty()) =~= before.raw);
        }
        while i < ids.len()
            invariant
                i <= ids@.len(),
                self@ == without(before, ids@.take(i as int)),
                self.tag_to_ids == old(self).tag_to_ids,
            decreases ids@.len() - i,
        {
            let id: u64 = ids[i];
            let ghost raw = self.raw_vectors@;
            self.index.remove(id);
            self.raw_vectors.remove(&id);
            proof {
                lemma_lists_removed(raw, id);
                let s = ids@.take(i as int).to_set();
                let t = ids@.take(i as int + 1).to_set();
                assert(ids@.take(i as int + 1) =~= ids@.take(i as int).push(id));
                assert(t =~= s.insert(id)) by {
                    assert forall|x: u64| t.contains(x) == s.insert(id).contains(x) by {
                        let a = ids@.take(i as int);
                        if s.contains(x) {
                            let j = a.index_of(x);
                            assert(a.push(id)[j] == x);
                        }
                        assert(a.push(id)[i as int] == id);
                    }
                }
                assert(self@.index =~= index_without(before.index, t));
                assert(self@.raw =~= before.raw.remove_keys(t));
            }
            i += 1;
        }
        proof {
            assert(ids@.take(i as int) =~= ids@);
        }
    }

    /// Notes the exact vectors under the ids from `next` on.
    fn note_vectors(&mut self, next: u64, vectors: &[Vec<u32>])
        requires
            next + vectors@.len() <= u64::MAX,
        ensures
            final(self)@ == (StoreState {
                raw: noted(old(self)@.raw, next, rows_of(vectors@)),
                ..old(self)@
            }),
            final(self).tag_to_ids == old(self).tag_to_ids,
    {
        let ghost s = self@;
        let ghost rows = rows_of(vectors@);
        let mut i: usize = 0;
        proof {
            assert(noted(s.raw, next, rows.take(0)) =~= s.raw);
        }
        while i < vectors.len()
            invariant
                i <= vectors@.len(),
                next + vectors@.len() <= u64::MAX,
                s == old(self)@,
                rows == rows_of(vectors@),
                self@ == (StoreState { raw: noted(s.raw, next, rows.take(i as int)), ..s }),
                self.tag_to_ids == old(self).tag_to_ids,
            decreases vectors@.len() - i,
        {
            let ghost raw = self.raw_vectors@;
            let id: u64 = next + i as u64;
            let copy = vectors[i].clone();
            self.raw_vectors.insert(id, copy);
            proof {
                lemma_lists_inserted(raw, id, copy);
                assert(copy@ =~= vectors@[i as int]@);
                assert(rows[i as int] == vectors@[i as int]@);
                assert(self@.raw =~= noted(s.raw, next, rows.take(i as int + 1)));
            }
            i += 1;
        }
        proof {
            assert(rows.take(i as int) =~= rows);
        }
    }

    /// Files chunks under a tag, `vectors[i]` being the vector of `chunks[i]`, in
    /// place of what the tag had, and says how many there are.
    pub fn upsert(&mut self, tag: u128, chunks: &[String], vectors: &[Vec<u32>]) -> (r: Result<
        usize,
        StoreError,
    >)
        requires
            chunks@.len() == vectors@.len(),
            old(self)@.next_id + vectors@.len() <= u64::MAX,
        ensures
            final(self)@ == upsert_outcome(old(self)@, tag, rows_of(vectors@)).0,
            match (r, upsert_outcome(old(self)@, tag, rows_of(vectors@)).1) {
                (Ok(n), Ok(m)) => n == m,
                (Err(e), Err(f)) => e@ == f,
                _ => false,
            },
    {
        let dim: usize = self.index.dim();
        let ghost s = self@;
        let ghost rows = rows_of(vectors@);
        let ghost tags = self.tag_to_ids@;
        match self.tag_to_ids.remove(&tag) {
            Some(old_ids) => {
                proof {
                    lemma_lists_removed(tags, tag);
                }
                self.remove_chunks(&old_ids);
            },
            None => {
                proof {
                    lemma_lists_removed(tags, tag);
                    assert(lists(tags).remove(tag) =~= lists(tags));
                }
            },
        }
        let ghost base = self@;
        assert(base == dropped(s, tag));
        let base_id: u64 = self.next_id;
        let mut ids: Vec<u64> = Vec::new();
        let mut flat: Vec<u32> = Vec::new();
        let mut i: usize = 0;
        proof {
            assert(allocated(base, 0) =~= base);
        }
        while i < vectors.len()
            invariant
                i <= vectors@.len(),
                s == old(self)@,
                dim == s.index.dim,
                base == dropped(s, tag),
                rows == rows_of(vectors@),
                base.next_id + vectors@.len() <= u64::MAX,
                self@ == allocated(base, i as nat),
                ids@ == fresh_ids(base.next_id, i as nat),
                flat@ == laid_out(rows.take(i as int)),
                forall|j: int| 0 <= j < i ==> (#[trigger] rows[j]).len() == dim,
            decreases vectors@.len() - i,
        {
            assert(rows[i as int] == vectors@[i as int]@);
            if vectors[i].len() != dim {
                let mut text = "向量维度 ".to_owned();
                push_decimal(&mut text, vectors[i].len() as u64);
                text.append("(实际) != ");
                push_decimal(&mut text, dim as u64);
                text.append("(期望)");
                proof {
                    lemma_fitting(rows, dim, i as int);
                }
                return Err(StoreError::Io(text));
            }
            let id: u64 = self.next_id;
            self.next_id = self.next_id + 1;
            ids.push(id);
            flat.extend_from_slice(vectors[i].as_slice());
            proof {
                let taken = rows.take(i as int + 1);
                assert(taken.drop_last() =~= rows.take(i as int));
                assert(taken.last() == rows[i as int]);
                assert(self@ =~= allocated(base, i as nat + 1));
                assert(ids@ =~= fresh_ids(base.next_id, i as nat + 1));
            }
            i += 1;
        }
        proof {
            assert(rows.take(i as int) =~= rows);
            lemma_fitting(rows, dim, rows.len() as int);
        }
        match self.index.add_with_ids(flat.as_slice(), ids.as_slice()) {
            Ok(_) => {
                self.note_vectors(base_id, vectors);
                let ghost tags = self.tag_to_ids@;
                let ghost listed = ids;
                self.tag_to_ids.insert(tag, ids);
                proof {
                    lemma_lists_inserted(tags, tag, listed);
                }
                Ok(vectors.len())
            },
            Err(e) => Err(StoreError::Vector(e)),
        }
    }

    /// Deletes a tag and its chunks.
    pub fn delete(&mut self, tag: u128) -> (r: Result<(), StoreError>)
        ensures
            final(self)@ == delete_outcome(old(self)@, tag).0,
            match (r, delete_outcome(old(self)@, tag).1) {
                (Ok(_), Ok(_)) => true,
                (Err(e), Err(f)) => e@ == f,
                _ => false,
            },
    {
        let ghost tags = self.tag_to_ids@;
        match self.tag_to_ids.remove(&tag) {
            Some(ids) => {
                proof {
                    lemma_lists_removed(tags, tag);
                }
                self.remove_chunks(&ids);
                Ok(())
            },
            None => {
                proof {
                    lemma_lists_removed(tags, tag);
                    assert(lists(tags).remove(tag) =~= lists(tags));
                }
                Err(StoreError::TagNotFound(tag))
            },
        }
    }
}

// ---------- loading and saving ----------

/// The bytes of a file that is there.
pub open spec fn bytes_of(file: Option<Vec<u8>>) -> Option<Seq<u8>> {
    match file {
        Some(b) => Some(b@),
        None => None,
    }
}

/// A store without tags.
pub open spec fn empty_state(config: Config) -> StoreState {
    StoreState {
        index: new_index(config.dim, config.bit_width),
        tags: Map::empty(),
        next_id: 0,
        raw: Map::empty(),
        keep_raw: config.store_raw_vectors,
    }
}

/// An image that is there and can be read.
pub open spec fn usable(index: Option<Seq<u8>>) -> bool {
    index is Some && image_refusal(index->0) is None
}

/// Why no store can be made of the files: the tags file says nothing, or there is
/// no index to start from and the configuration allows none.
pub open spec fn open_fault(
    config: Config,
    tags: Option<Seq<u8>>,
    index: Option<Seq<u8>>,
) -> Option<StoreFault> {
    if tags is Some && tags_decoded(tags->0) is Err {
        Some(StoreFault::Deserialize(tags_decoded(tags->0)->Err_0))
    } else if (tags is None || !usable(index)) && !index_params(config.dim, config.bit_width) {
        Some(
            StoreFault::Vector(
                VectorFault::Construct(params_refusal(config.dim, config.bit_width)),
            ),
        )
    } else {
        None
    }
}

/// `s` is what the files say: an empty store where there is no tags file, else
/// what the tags file holds, with the index that the image holds or, where there
/// is none that can be read, an empty one.
pub open spec fn opened(
    config: Config,
    tags: Option<Seq<u8>>,
    index: Option<Seq<u8>>,
    s: StoreState,
) -> bool {
    match tags {
        None => s == empty_state(config),
        Some(bytes) => {
            &&& tags_decoded(bytes) == Ok::<_, Seq<char>>((s.tags, s.next_id, s.raw))
            &&& s.keep_raw == config.store_raw_vectors
            &&& if usable(index) {
                reads_as(index->0, s.index)
            } else {
                s.index == new_index(config.dim, config.bit_width)
            }
        },
    }
}

/// The number of chunks that the tags have.
pub open spec fn chunk_total(tags: Map<u128, Seq<u64>>) -> nat
    decreases tags.dom().len(),
    when tags.dom().finite()
{
    if tags.dom().is_empty() {
        0
    } else {
        let tag = tags.dom().choose();
        tags[tag].len() + chunk_total(tags.remove(tag))
    }
}

/// The chunks that the tags have.
pub open spec fn chunk_ids(tags: Map<u128, Seq<u64>>) -> Set<u64> {
    Set::new(|id: u64| live(tags, id))
}

/// The index holds as many vectors as the tags have chunks.
pub open spec fn counts_agree(s: StoreState) -> bool {
    has_size(s.index.vectors.dom(), chunk_total(s.tags))
}

/// The index holds the chunks of the tags, each once, and no others.
pub open spec fn consistent(s: StoreState) -> bool {
    counts_agree(s) && s.index.vectors.dom() == chunk_ids(s.tags)
}

/// The index is to be built anew: it has more or fewer vectors than the tags have
/// chunks, or it has other ones and the exact vectors of the chunks are there. Without
/// them an index of the right size is the best there is.
pub open spec fn needs_rebuild(s: StoreState) -> bool {
    ||| !counts_agree(s)
    ||| s.index.vectors.dom() != chunk_ids(s.tags) && s.raw.dom() == chunk_ids(s.tags)
}

/// `order` names each of the ids once.
pub open spec fn enumerates(order: Seq<u64>, ids: Set<u64>) -> bool {
    order.no_duplicates() && order.to_set() == ids
}

/// The exact vectors in this order.
pub open spec fn raw_rows(raw: Map<u64, Seq<u32>>, order: Seq<u64>) -> Seq<Seq<u32>> {
    order.map_values(|id: u64| raw[id])
}

/// The store with an index built anew from the exact vectors, taken in this
/// order and quantised to so many bits, or the error. A store with tags needs them.
pub open spec fn rebuild_outcome(s: StoreState, bits: usize, order: Seq<u64>) -> Result<
    StoreState,
    StoreFault,
> {
    let empty = new_index(s.index.dim, bits);
    if !index_params(s.index.dim, bits) {
        Err(StoreFault::Vector(VectorFault::Construct(params_refusal(s.index.dim, bits))))
    } else if s.raw.dom().is_empty() && !s.tags.dom().is_empty() {
        Err(StoreFault::Io("原始向量未持久化，无法重建索引（需 Agent 重推全文）"@))
    } else if order.len() == 0 {
        Ok(StoreState { index: empty, ..s })
    } else {
        match add_outcome(empty, laid_out(raw_rows(s.raw, order)), order) {
            Ok(index) => Ok(StoreState { index, ..s }),
            Err(f) => Err(StoreFault::Vector(f)),
        }
    }
}

/// `s` is the store that the files hold, as they say where they go together, or
/// with its index built anew at the configured bit width.
pub open spec fn loaded(
    config: Config,
    tags: Option<Seq<u8>>,
    index: Option<Seq<u8>>,
    s: StoreState,
    rebuilt: bool,
) -> bool {
    if rebuilt {
        exists|read: StoreState, order: Seq<u64>|
            #![trigger rebuild_outcome(read, config.bit_width, order)]
            opened(config, tags, index, read) && needs_rebuild(read) && enumerates(
                order,
                read.raw.dom(),
            ) && rebuild_outcome(read, config.bit_width, order) == Ok::<_, StoreFault>(s)
    } else {
        opened(config, tags, index, s) && !needs_rebuild(s)
    }
}

/// The files do not go together, and building the index anew fails with `f`.
pub open spec fn load_fails(
    config: Config,
    tags: Option<Seq<u8>>,
    index: Option<Seq<u8>>,
    f: StoreFault,
) -> bool {
    exists|read: StoreState, order: Seq<u64>|
        #![trigger rebuild_outcome(read, config.bit_width, order)]
        opened(config, tags, index, read) && needs_rebuild(read) && enumerates(
            order,
            read.raw.dom(),
        ) && rebuild_outcome(read, config.bit_width, order) == Err::<StoreState, _>(f)
}

/// The two files of a store.
pub struct SnapshotFiles {
    /// The tags file.
    pub tags: Vec<u8>,
    /// The image of the index.
    pub index: Vec<u8>,
}

/// The bytes are the two files of the store: the exact vectors are among them only
/// where they are to be kept.
pub open spec fn saved_as(s: StoreState, tags: Seq<u8>, index: Seq<u8>) -> bool {
    &&& tags_decoded(tags) == Ok::<_, Seq<char>>(
        (
            s.tags,
            s.next_id,
            if s.keep_raw {
                s.raw
            } else {
                Map::empty()
            },
        ),
    )
    &&& is_image(s.index, index)
}

/// The tag has the chunk.
pub open spec fn has_chunk(tags: Map<u128, Seq<u64>>, tag: u128, id: u64) -> bool {
    tags.contains_key(tag) && tags[tag].contains(id)
}

/// Some tag has the chunk.
pub open spec fn live(tags: Map<u128, Seq<u64>>, id: u64) -> bool {
    exists|tag: u128| has_chunk(tags, tag, id)
}

/// `owner` gives for each chunk of a tag a tag that has it, and nothing else.
pub open spec fn owners_of(tags: Map<u128, Seq<u64>>, owner: Map<u64, u128>) -> bool {
    &&& forall|id: u64| #[trigger] owner.contains_key(id) ==> has_chunk(tags, owner[id], id)
    &&& forall|tag: u128, id: u64| #[trigger] has_chunk(tags, tag, id) ==> owner.contains_key(id)
}

/// What readers search in: it does not change any more.
pub struct IndexSnapshot {
    pub index: VectorIndex,
    /// The chunk ids of each tag.
    pub tag_to_ids: HashMap<u128, Vec<u64>>,
    /// The tag of each chunk.
    pub chunk_owner: HashMap<u64, u128>,
    pub next_id: u64,
}

impl IndexSnapshot {
    /// The number of tags.
    pub fn tag_count(&self) -> (n: usize)
        ensures
            n == self.tag_to_ids@.dom().len(),
    {
        self.tag_to_ids.len()
    }

    /// The number of chunks.
    pub fn chunk_count(&self) -> (n: usize)
        ensures
            has_size(self.index@.vectors.dom(), n as nat),
    {
        self.index.len()
    }
}

/// `snap` shows the store `s`.
pub open spec fn shows(snap: IndexSnapshot, s: StoreState) -> bool {
    &&& same_index(s.index, snap.index@)
    &&& lists(snap.tag_to_ids@) == s.tags
    &&& owners_of(s.tags, snap.chunk_owner@)
    &&& snap.next_id == s.next_id
}

proof fn lemma_chunk_total(tags: Map<u128, Seq<u64>>, tag: u128)
    requires
        tags.dom().finite(),
        tags.contains_key(tag),
    ensures
        chunk_total(tags) == tags[tag].len() + chunk_total(tags.remove(tag)),
    decreases tags.dom().len(),
{
    let first = tags.dom().choose();
    if first != tag {
        lemma_chunk_total(tags.remove(first), tag);
        lemma_chunk_total(tags.remove(tag), first);
        assert(tags.remove(first).remove(tag) =~= tags.remove(tag).remove(first));
    }
}

proof fn lemma_owner_ids(tags: Map<u128, Seq<u64>>, owner: Map<u64, u128>)
    requires
        owners_of(tags, owner),
    ensures
        owner.dom() == chunk_ids(tags),
{
    assert forall|id: u64| owner.dom().contains(id) == chunk_ids(tags).contains(id) by {
        if owner.contains_key(id) {
            assert(has_chunk(tags, owner[id], id));
        }
        if live(tags, id) {
            let tag = choose|tag: u128| has_chunk(tags, tag, id);
            assert(has_chunk(tags, tag, id));
        }
    }
    assert(owner.dom() =~= chunk_ids(tags));
}

/// A map is walked key by key.
proof fn lemma_different_keys<K, V>(m: Map<K, V>, walk: Seq<(&K, &V)>)
    requires
        walk.no_duplicates(),
        forall|i: int| 0 <= i < walk.len() ==> m[*(#[trigger] walk[i]).0] == *walk[i].1,
    ensures
        forall|i: int, j: int|
            0 <= i < j < walk.len() ==> *(#[trigger] walk[i]).0 != *(#[trigger] walk[j]).0,
{
    assert forall|i: int, j: int| 0 <= i < j < walk.len() implies *(#[trigger] walk[i]).0 != *(
    #[trigger] walk[j]).0 by {
        assert(m[*walk[i].0] == *walk[i].1 && m[*walk[j].0] == *walk[j].1);
        if *walk[i].0 == *walk[j].0 {
            assert(walk[i] == walk[j]);
        }
    }
}

proof fn lemma_enumeration(ids: Set<u64>) -> (order: Seq<u64>)
    requires
        ids.finite(),
    ensures
        enumerates(order, ids),
    decreases ids.len(),
{
    if ids.is_empty() {
        assert(Seq::<u64>::empty().to_set() =~= ids);
        Seq::empty()
    } else {
        let id = ids.choose();
        let rest = lemma_enumeration(ids.remove(id));
        let order = rest.push(id);
        assert(!rest.contains(id)) by {
            if rest.contains(id) {
                assert(rest.to_set().contains(id));
            }
        }
        assert forall|x: u64| order.to_set().contains(x) == ids.contains(x) by {
            if rest.to_set().contains(x) {
                let i = rest.index_of(x);
                assert(order[i] == x);
            }
            assert(order[rest.len() as int] == id);
            if order.contains(x) && x != id {
                let i = order.index_of(x);
                assert(rest[i] == x);
                assert(rest.to_set().contains(x));
            }
        }
        assert(order.to_set() =~= ids);
        order
    }
}

impl TagStore {
    /// A store without tags.
    pub fn empty(config: &Config) -> (r: Result<Self, StoreError>)
        ensures
            match r {
                Ok(store) => index_params(config.dim, config.bit_width) && store@ == empty_state(
                    *config,
                ),
                Err(e) => !index_params(config.dim, config.bit_width) && e@ == StoreFault::Vector(
                    VectorFault::Construct(params_refusal(config.dim, config.bit_width)),
                ),
            },
    {
        match VectorIndex::new(config.dim, config.bit_width) {
            Ok(index) => {
                let store = Self {
                    index,
                    tag_to_ids: HashMap::new(),
                    next_id: 0,
                    raw_vectors: HashMap::new(),
                    keep_raw: config.store_raw_vectors,
                };
                assert(store@ =~= empty_state(*config));
                Ok(store)
            },
            Err(e) => Err(StoreError::Vector(e)),
        }
    }

    /// What the two files hold, without looking whether they go together.
    fn load_tags(config: &Config, tags: &Vec<u8>, index: &Option<Vec<u8>>) -> (r: Result<
        Self,
        StoreError,
    >)
        ensures
            match r {
                Ok(store) => {
                    &&& open_fault(*config, Some(tags@), bytes_of(*index)) is None
                    &&& opened(*config, Some(tags@), bytes_of(*index), store@)
                },
                Err(e) => open_fault(*config, Some(tags@), bytes_of(*index)) == Some(e@),
            },
    {
        let file = match decode_tags(tags.as_slice()) {
            Ok(f) => f,
            Err(m) => return Err(StoreError::Deserialize(m)),
        };
        let mut found: Option<VectorIndex> = None;
        if let Some(bytes) = index {
            if let Ok(x) = VectorIndex::load(bytes.as_slice()) {
                found = Some(x);
            }
        }
        let index = match found {
            Some(x) => x,
            None => match VectorIndex::new(config.dim, config.bit_width) {
                Ok(x) => x,
                Err(e) => return Err(StoreError::Vector(e)),
            },
        };
        Ok(
            Self {
                index,
                tag_to_ids: file.tag_to_ids,
                next_id: file.next_id,
                raw_vectors: file.raw_vectors,
                keep_raw: config.store_raw_vectors,
            },
        )
    }

    /// Whether the tags have `n` chunks.
    fn has_chunk_total(&self, n: usize) -> (r: bool)
        ensures
            r == (n == chunk_total(self@.tags)),
    {
        let ghost tags = lists(self.tag_to_ids@);
        let mut total: usize = 0;
        let ghost mut rest = tags;
        proof {
            assert(tags.dom() =~= self.tag_to_ids@.dom());
        }
        for (tag, ids) in it: self.tag_to_ids.iter()
            invariant
                tags == lists(self.tag_to_ids@),
                tags.dom().finite(),
                total <= n,
                rest.dom().finite(),
                total + chunk_total(rest) == chunk_total(tags),
                it.seq().no_duplicates(),
                forall|i: int|
                    0 <= i < it.seq().len() ==> self.tag_to_ids@[*(#[trigger] it.seq()[i]).0]
                        == *it.seq()[i].1,
                forall|i: int|
                    it.index() <= i < it.seq().len() ==> rest.contains_key(
                        *(#[trigger] it.seq()[i]).0,
                    ) && rest[*it.seq()[i].0] == it.seq()[i].1@,
                rest.dom().len() + it.index() == it.seq().len(),
        {
            proof {
                lemma_different_keys(self.tag_to_ids@, it.seq());
                lemma_chunk_total(rest, *tag);
            }
            if ids.len() > n - total {
                return false;
            }
            total = total + ids.len();
            proof {
                rest = rest.remove(*tag);
            }
        }
        proof {
            assert(rest.dom().is_empty());
        }
        total == n
    }

    /// The tag of each chunk.
    fn owners(&self) -> (chunk_owner: HashMap<u64, u128>)
        ensures
            owners_of(self@.tags, chunk_owner@),
    {
        let ghost tags = self@.tags;
        let mut chunk_owner: HashMap<u64, u128> = HashMap::new();
        for (tag, ids) in it: self.tag_to_ids.iter()
            invariant
                tags == lists(self.tag_to_ids@),
                forall|i: int|
                    0 <= i < it.seq().len() ==> tags.contains_key(*(#[trigger] it.seq()[i]).0)
                        && tags[*it.seq()[i].0] == it.seq()[i].1@,
                forall|t: u128|
                    #[trigger] tags.contains_key(t) ==> exists|i: int|
                        0 <= i < it.seq().len() && *(#[trigger] it.seq()[i]).0 == t,
                forall|id: u64| #[trigger]
                    chunk_owner@.contains_key(id) ==> has_chunk(tags, chunk_owner@[id], id),
                forall|i: int, id: u64|
                    0 <= i < it.index() && (#[trigger] it.seq()[i]).1@.contains(id)
                        ==> #[trigger] chunk_owner@.contains_key(id),
        {
            let ghost before = chunk_owner@;
            let mut j: usize = 0;
            while j < ids.len()
                invariant
                    j <= ids@.len(),
                    tags.contains_key(*tag),
                    tags[*tag] == ids@,
                    before.dom().subset_of(chunk_owner@.dom()),
                    forall|id: u64| #[trigger]
                        chunk_owner@.contains_key(id) ==> has_chunk(tags, chunk_owner@[id], id),
                    forall|m: int| 0 <= m < j ==> chunk_owner@.contains_key(#[trigger] ids@[m]),
                decreases ids@.len() - j,
            {
                assert(has_chunk(tags, *tag, ids@[j as int]));
                chunk_owner.insert(ids[j], *tag);
                j += 1;
            }
            assert forall|id: u64| ids@.contains(id) implies chunk_owner@.contains_key(id) by {
                assert(ids@[ids@.index_of(id)] == id);
            }
        }
        chunk_owner
    }

    /// Whether the index is to be built anew.
    fn is_stale(&self) -> (r: bool)
        ensures
            r == needs_rebuild(self@),
    {
        let n: usize = self.index.len();
        if !self.has_chunk_total(n) {
            return true;
        }
        let owner = self.owners();
        let ghost ids = chunk_ids(self@.tags);
        let ghost held = self@.index.vectors.dom();
        let ghost exact = self@.raw.dom();
        proof {
            lemma_owner_ids(self@.tags, owner@);
            assert(exact =~= self.raw_vectors@.dom());
        }
        let mut all_held = owner.len() == n;
        let mut all_exact = owner.len() == self.raw_vectors.len();
        for (id, tag) in it: owner.iter()
            invariant
                ids == owner@.dom(),
                held == self@.index.vectors.dom(),
                exact == self.raw_vectors@.dom(),
                has_size(held, n as nat),
                exact.finite(),
                forall|i: int|
                    0 <= i < it.seq().len() ==> owner@.contains_key(*(#[trigger] it.seq()[i]).0),
                all_held ==> ids.len() == held.len(),
                all_exact ==> ids.len() == exact.len(),
                !all_held ==> ids != held,
                !all_exact ==> ids != exact,
                forall|i: int|
                    0 <= i < it.index() ==> (all_held ==> held.contains(
                        *(#[trigger] it.seq()[i]).0,
                    )) && (all_exact ==> exact.contains(*it.seq()[i].0)),
        {
            assert(ids.contains(*id));
            if !self.index.contains(*id) {
                all_held = false;
            }
            if !self.raw_vectors.contains_key(id) {
                all_exact = false;
            }
        }
        proof {
            if all_held {
                assert(ids.subset_of(held));
                vstd::set_lib::lemma_subset_equality(ids, held);
            }
            if all_exact {
                assert(ids.subset_of(exact));
                vstd::set_lib::lemma_subset_equality(ids, exact);
            }
        }
        !all_held && all_exact
    }

    /// Builds the index anew from the exact vectors, quantised to `bit_width` bits.
    fn rebuild_index(&mut self, bit_width: usize) -> (r: Result<(), StoreError>)
        ensures
            exists|order: Seq<u64>|
                enumerates(order, old(self)@.raw.dom()) && match (r, #[trigger] rebuild_outcome(
                    old(self)@,
                    bit_width,
                    order,
                )) {
                    (Ok(_), Ok(t)) => final(self)@ == t,
                    (Err(e), Err(f)) => e@ == f && final(self)@ == old(self)@,
                    _ => false,
                },
    {
        let ghost s = self@;
        proof {
            assert(s.raw.dom() =~= self.raw_vectors@.dom());
            assert(s.tags.dom() =~= self.tag_to_ids@.dom());
        }
        let mut new_index = match VectorIndex::new(self.index.dim(), bit_width) {
            Ok(x) => x,
            Err(e) => {
                proof {
                    let order = lemma_enumeration(s.raw.dom());
                    assert(rebuild_outcome(s, bit_width, order) is Err);
                }
                return Err(StoreError::Vector(e));
            },
        };
        if self.raw_vectors.is_empty() && !self.tag_to_ids.is_empty() {
            proof {
                let order = lemma_enumeration(s.raw.dom());
                assert(rebuild_outcome(s, bit_width, order) is Err);
            }
            return Err(
                StoreError::Io("原始向量未持久化，无法重建索引（需 Agent 重推全文）".to_owned()),
            );
        }
        let mut vectors: Vec<u32> = Vec::new();
        let mut ids: Vec<u64> = Vec::new();
        for (id, v) in it: self.raw_vectors.iter()
            invariant
                s.raw == lists(self.raw_vectors@),
                it.seq().no_duplicates(),
                it.seq().len() == s.raw.dom().len(),
                forall|i: int|
                    0 <= i < it.seq().len() ==> self.raw_vectors@.contains_key(
                        *(#[trigger] it.seq()[i]).0,
                    ) && self.raw_vectors@[*it.seq()[i].0] == *it.seq()[i].1,
                ids@.no_duplicates(),
                ids@.to_set().subset_of(s.raw.dom()),
                ids@.len() == it.index(),
                forall|i: int| 0 <= i < ids@.len() ==> #[trigger] ids@[i] == *it.seq()[i].0,
                vectors@ == laid_out(raw_rows(s.raw, ids@)),
        {
            let ghost before = ids@;
            proof {
                lemma_different_keys(self.raw_vectors@, it.seq());
            }
            vectors.extend_from_slice(v.as_slice());
            ids.push(*id);
            proof {
                let rows = raw_rows(s.raw, ids@);
                assert(rows.drop_last() =~= raw_rows(s.raw, before));
                assert(rows.last() == v@);
            }
        }
        proof {
            assert(ids@.no_duplicates());
            let all = ids@.to_set();
            ids@.unique_seq_to_set();
            assert(all.subset_of(s.raw.dom()));
            vstd::set_lib::lemma_subset_equality(all, s.raw.dom());
            assert(enumerates(ids@, s.raw.dom()));
        }
        let ghost order = ids@;
        if ids.len() > 0 {
            if let Err(e) = new_index.add_with_ids(vectors.as_slice(), ids.as_slice()) {
                assert(rebuild_outcome(s, bit_width, order) is Err);
                return Err(StoreError::Vector(e));
            }
        }
        new_index.prepare();
        self.index = new_index;
        assert(rebuild_outcome(s, bit_width, order) is Ok);
        assert(rebuild_outcome(s, bit_width, order)->Ok_0 =~= self@);
        Ok(())
    }

    /// The store that the files hold, where they are there, and whether its index
    /// had to be built anew: then the files are to be written again.
    pub fn load(config: &Config, tags: &Option<Vec<u8>>, index: &Option<Vec<u8>>) -> (r: Result<
        (Self, bool),
        StoreError,
    >)
        ensures
            match r {
                Ok((store, rebuilt)) => {
                    &&& open_fault(*config, bytes_of(*tags), bytes_of(*index)) is None
                    &&& loaded(*config, bytes_of(*tags), bytes_of(*index), store@, rebuilt)
                },
                Err(e) => match open_fault(*config, bytes_of(*tags), bytes_of(*index)) {
                    Some(f) => e@ == f,
                    None => load_fails(*config, bytes_of(*tags), bytes_of(*index), e@),
                },
            },
    {
        let mut store = match tags {
            Some(bytes) => Self::load_tags(config, bytes, index)?,
            None => Self::empty(config)?,
        };
        let ghost s = store@;
        assert(opened(*config, bytes_of(*tags), bytes_of(*index), s));
        if !store.is_stale() {
            return Ok((store, false));
        }
        match store.rebuild_index(config.bit_width) {
            Ok(_) => Ok((store, true)),
            Err(e) => Err(e),
        }
    }

    /// The two files of the store.
    pub fn persist(&self) -> (r: Result<SnapshotFiles, StoreError>)
        ensures
            match r {
                Ok(files) => saved_as(self@, files.tags@, files.index@),
                Err(_) => false,
            },
    {
        let none: HashMap<u64, Vec<u32>> = HashMap::new();
        proof {
            assert(lists(none@) =~= Map::<u64, Seq<u32>>::empty());
        }
        let raw = if self.keep_raw {
            &self.raw_vectors
        } else {
            &none
        };
        match encode_tags(&self.tag_to_ids, self.next_id, raw) {
            Ok(tags) => Ok(SnapshotFiles { tags, index: self.index.write() }),
            Err(m) => Err(StoreError::Serialize(m)),
        }
    }

    /// What readers are shown of the store as it is now.
    pub fn snapshot(&self) -> (r: Result<IndexSnapshot, StoreError>)
        ensures
            match r {
                Ok(snap) => shows(snap, self@),
                Err(_) => false,
            },
    {
        let index = match self.index.copy() {
            Ok(x) => x,
            Err(e) => return Err(StoreError::Vector(e)),
        };
        let chunk_owner = self.owners();
        let snap = IndexSnapshot {
            index,
            tag_to_ids: self.tag_to_ids.clone(),
            chunk_owner,
            next_id: self.next_id,
        };
        Ok(snap)
    }

    /// The number of tags.
    pub fn tag_count(&self) -> (n: usize)
        ensures
            n == self@.tags.dom().len(),
    {
        proof {
            assert(self@.tags.dom() =~= self.tag_to_ids@.dom());
        }
        self.tag_to_ids.len()
    }

    /// The number of chunks in the index.
    pub fn chunk_count(&self) -> (n: usize)
        ensures
            has_size(self@.index.vectors.dom(), n as nat),
    {
        self.index.len()
    }

    /// The next chunk id to hand out.
    pub fn next_id(&self) -> (n: u64)
        ensures
            n == self@.next_id,
    {
        self.next_id
    }
}

} // verus!
