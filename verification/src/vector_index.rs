//! The vector index: vectors under `u64` ids, searched for the nearest ones.
//!
//! A vector is a sequence of coordinates, each the bit pattern of a
//! single-precision number.
use crate::bits::{magnitude, magnitude_of, rank};
use crate::ranking::{is_ranked, law_ranking_sorts, lemma_found, ranked};
use crate::text::{decimal, joined, push_decimal};
use vstd::prelude::*;
use vstd::string::StringExecFns;

verus! {

/// turbovec's index of quantised vectors under external ids.
#[verifier::external_type_specification]
#[verifier::external_body]
pub struct ExIdMapIndex(turbovec::IdMapIndex);

/// The vectors that an index was given, by id.
pub uninterp spec fn index_vectors(index: turbovec::IdMapIndex) -> Map<u64, Seq<u32>>;

/// What an index keeps of its vectors, by id: the quantised code and the scale.
pub uninterp spec fn index_codes(index: turbovec::IdMapIndex) -> Map<u64, Seq<u8>>;

/// The number of coordinates of an index's vectors, 0 while it has none fixed.
pub uninterp spec fn index_dim(index: turbovec::IdMapIndex) -> usize;

/// The number of bits to which an index quantises a coordinate.
pub uninterp spec fn index_bits(index: turbovec::IdMapIndex) -> usize;

/// The calibration under which an index reads and makes its codes, empty where it
/// has none. Only an image can bring one: adding and removing vectors sets none.
pub uninterp spec fn index_calibration(index: turbovec::IdMapIndex) -> Seq<u8>;

/// What `add_with_ids` keeps of a vector, at so many bits and under this
/// calibration.
pub uninterp spec fn vector_code(row: Seq<u32>, bits: usize, calibration: Seq<u8>) -> Seq<u8>;

/// The text with which `add_with_ids` refuses these rows and ids on an index of
/// this dimension that holds these ids.
pub uninterp spec fn add_refusal(
    held: Set<u64>,
    dim: usize,
    rows: Seq<u32>,
    ids: Seq<u64>,
) -> Seq<char>;

/// Whether `search` may answer this query for `k` neighbours with these scores
/// and ids, on an index with these codes.
pub uninterp spec fn search_outcome(
    codes: Map<u64, Seq<u8>>,
    dim: usize,
    bits: usize,
    calibration: Seq<u8>,
    query: Seq<u32>,
    k: usize,
    scores: Seq<u32>,
    ids: Seq<u64>,
) -> bool;

/// Whether `to_bytes` may write `bytes` as the `.tvim` image of an index with these
/// ids and codes.
pub uninterp spec fn index_image(
    ids: Set<u64>,
    codes: Map<u64, Seq<u8>>,
    dim: usize,
    bits: usize,
    calibration: Seq<u8>,
    bytes: Seq<u8>,
) -> bool;

/// The text with which `from_bytes` refuses `bytes`, or `None` where it reads
/// an index from them.
pub uninterp spec fn image_refusal(bytes: Seq<u8>) -> Option<Seq<char>>;

/// The dimensions and bit widths that an index can be made with.
pub open spec fn index_params(dim: usize, bit_width: usize) -> bool {
    &&& 2 <= bit_width <= 4
    &&& 0 < dim <= 16384
    &&& dim % 8 == 0
}

/// The text with which `IdMapIndex::new` refuses a dimension and a bit width.
pub open spec fn params_refusal(dim: usize, bit_width: usize) -> Seq<char> {
    if bit_width < 2 || bit_width > 4 {
        "bit_width must be 2, 3, or 4, got "@ + decimal(bit_width as nat)
    } else if dim == 0 || dim % 8 != 0 {
        "dim must be a positive multiple of 8, got "@ + decimal(dim as nat)
    } else {
        "dim "@ + decimal(dim as nat) + " exceeds maximum 16384"@
    }
}

/// A coordinate that the index takes: a number below ten to the sixteenth in
/// absolute value.
pub open spec fn is_coord(b: u32) -> bool {
    magnitude(b) < 0x5a0e_1bca
}

/// Coordinates that the index takes.
pub open spec fn are_coords(s: Seq<u32>) -> bool {
    forall|i: int| 0 <= i < s.len() ==> is_coord(#[trigger] s[i])
}

/// What `add_with_ids` takes on an index of dimension `dim` that holds the ids
/// `held`: whole rows, one new id for each, and coordinates in range.
pub open spec fn addable(held: Set<u64>, dim: usize, rows: Seq<u32>, ids: Seq<u64>) -> bool {
    &&& rows.len() == ids.len() * dim
    &&& ids.no_duplicates()
    &&& forall|i: int| 0 <= i < ids.len() ==> !held.contains(#[trigger] ids[i])
    &&& are_coords(rows)
}

/// Row `i` of rows of `dim` coordinates that lie behind each other.
pub open spec fn row(rows: Seq<u32>, dim: nat, i: int) -> Seq<u32> {
    rows.subrange(i * dim, (i + 1) * dim)
}

/// The rows by their ids.
pub open spec fn rows_by_id(rows: Seq<u32>, dim: nat, ids: Seq<u64>) -> Map<u64, Seq<u32>> {
    Map::new(|id: u64| ids.contains(id), |id: u64| row(rows, dim, ids.index_of(id)))
}

/// The codes of vectors, by id.
pub open spec fn coded(
    vectors: Map<u64, Seq<u32>>,
    bits: usize,
    calibration: Seq<u8>,
) -> Map<u64, Seq<u8>> {
    vectors.map_values(|row: Seq<u32>| vector_code(row, bits, calibration))
}

/// A set of `n` ids.
pub open spec fn has_size(ids: Set<u64>, n: nat) -> bool {
    ids.finite() && ids.len() == n
}

/// `IdMapIndex::new`: an empty index of the given dimension and bit width, without
/// a calibration, or, where the arguments are out of bounds, an error with a text
/// that names the bound.
#[verifier::external_body]
fn tv_new(dim: usize, bit_width: usize) -> (r: Result<turbovec::IdMapIndex, String>)
    ensures
        match r {
            Ok(i) => {
                &&& index_params(dim, bit_width)
                &&& index_vectors(i) == Map::<u64, Seq<u32>>::empty()
                &&& index_codes(i) == Map::<u64, Seq<u8>>::empty()
                &&& index_dim(i) == dim
                &&& index_bits(i) == bit_width
                &&& index_calibration(i) == Seq::<u8>::empty()
            },
            Err(m) => !index_params(dim, bit_width) && m@ == params_refusal(dim, bit_width),
        },
{
    turbovec::IdMapIndex::new(dim, bit_width).map_err(|e| e.to_string())
}

/// `IdMapIndex::add_with_ids`: adds each row under its id, or refuses all of
/// them and leaves the index as it was. What it keeps of a row depends on the row,
/// the bit width and the calibration alone. On an index without a dimension it
/// panics.
#[verifier::external_body]
fn tv_add(index: &mut turbovec::IdMapIndex, rows: &[u32], ids: &[u64]) -> (r: Result<(), String>)
    requires
        index_dim(*old(index)) > 0,
    ensures
        index_dim(*final(index)) == index_dim(*old(index)),
        index_bits(*final(index)) == index_bits(*old(index)),
        index_calibration(*final(index)) == index_calibration(*old(index)),
        match r {
            Ok(_) => {
                &&& addable(
                    index_vectors(*old(index)).dom(),
                    index_dim(*old(index)),
                    rows@,
                    ids@,
                )
                &&& index_vectors(*final(index)) == index_vectors(*old(index)).union_prefer_right(
                    rows_by_id(rows@, index_dim(*old(index)) as nat, ids@),
                )
                &&& index_codes(*final(index)) == index_codes(*old(index)).union_prefer_right(
                    rows_by_id(rows@, index_dim(*old(index)) as nat, ids@).map_values(
                        |v: Seq<u32>|
                            vector_code(
                                v,
                                index_bits(*old(index)),
                                index_calibration(*old(index)),
                            ),
                    ),
                )
            },
            Err(m) => {
                &&& !addable(
                    index_vectors(*old(index)).dom(),
                    index_dim(*old(index)),
                    rows@,
                    ids@,
                )
                &&& index_vectors(*final(index)) == index_vectors(*old(index))
                &&& index_codes(*final(index)) == index_codes(*old(index))
                &&& m@ == add_refusal(
                    index_vectors(*old(index)).dom(),
                    index_dim(*old(index)),
                    rows@,
                    ids@,
                )
            },
        },
{
    index.add_with_ids(bytemuck::cast_slice(rows), ids).map_err(|e| e.to_string())
}

/// `IdMapIndex::remove`: takes the vector under `id` out, and says whether there
/// was one.
#[verifier::external_body]
fn tv_remove(index: &mut turbovec::IdMapIndex, id: u64) -> (r: bool)
    ensures
        r == index_vectors(*old(index)).contains_key(id),
        index_vectors(*final(index)) == index_vectors(*old(index)).remove(id),
        index_codes(*final(index)) == index_codes(*old(index)).remove(id),
        index_dim(*final(index)) == index_dim(*old(index)),
        index_bits(*final(index)) == index_bits(*old(index)),
        index_calibration(*final(index)) == index_calibration(*old(index)),
{
    index.remove(id)
}

/// `IdMapIndex::contains`: whether a vector stands under `id`.
#[verifier::external_body]
fn tv_contains(index: &turbovec::IdMapIndex, id: u64) -> (r: bool)
    ensures
        r == index_vectors(*index).contains_key(id),
{
    index.contains(id)
}

/// `IdMapIndex::len`: the number of vectors.
#[verifier::external_body]
fn tv_len(index: &turbovec::IdMapIndex) -> (n: usize)
    ensures
        has_size(index_vectors(*index).dom(), n as nat),
{
    index.len()
}

/// `IdMapIndex::is_empty`: whether there are no vectors.
#[verifier::external_body]
fn tv_is_empty(index: &turbovec::IdMapIndex) -> (r: bool)
    ensures
        r == index_vectors(*index).dom().is_empty(),
{
    index.is_empty()
}

/// `IdMapIndex::dim_opt`: the dimension, if one is fixed.
#[verifier::external_body]
fn tv_dim(index: &turbovec::IdMapIndex) -> (r: Option<usize>)
    ensures
        r == if index_dim(*index) > 0 {
            Some(index_dim(*index))
        } else {
            None
        },
{
    index.dim_opt()
}

/// `IdMapIndex::prepare`: builds what the first search would build.
#[verifier::external_body]
fn tv_prepare(index: &turbovec::IdMapIndex) {
    index.prepare()
}

/// `IdMapIndex::search`: for each query row `min(k, len)` scores and ids, the
/// ids among those held; a single row for which at least as many are asked for as are
/// held is answered with all of them. It panics where the query is no whole number of rows or
/// a coordinate is out of range. The answer rests on the codes, the dimension, the
/// bit width, the calibration, the query and `k`. Which ids come, and the exact
/// scores, also depend on the machine's arithmetic: that two machines answer alike
/// is left unsaid.
#[verifier::external_body]
fn tv_search(index: &turbovec::IdMapIndex, query: &[u32], k: usize) -> (r: (Vec<u32>, Vec<u64>))
    requires
        index_dim(*index) > 0 ==> query@.len() % (index_dim(*index) as nat) == 0 && are_coords(
            query@,
        ),
    ensures
        r.0@.len() == r.1@.len(),
        index_dim(*index) == 0 ==> r.1@.len() == 0,
        index_dim(*index) > 0 ==> r.1@.len() == (query@.len() / (index_dim(*index) as nat)) * (
        if k <= index_vectors(*index).dom().len() {
            k as nat
        } else {
            index_vectors(*index).dom().len()
        }),
        forall|i: int|
            0 <= i < r.1@.len() ==> index_vectors(*index).contains_key(#[trigger] r.1@[i]),
        index_dim(*index) > 0 && query@.len() == index_dim(*index) && index_vectors(
            *index,
        ).dom().len() <= k ==> forall|id: u64| #[trigger]
            index_vectors(*index).contains_key(id) ==> r.1@.contains(id),
        search_outcome(
            index_codes(*index),
            index_dim(*index),
            index_bits(*index),
            index_calibration(*index),
            query@,
            k,
            r.0@,
            r.1@,
        ),
{
    let (scores, ids) = index.search(bytemuck::cast_slice(query), k);
    (scores.into_iter().map(|s| s.to_bits()).collect(), ids)
}

/// `IdMapIndex::to_bytes`: the index's `.tvim` image, which `from_bytes` reads
/// back.
#[verifier::external_body]
fn tv_to_bytes(index: &turbovec::IdMapIndex) -> (r: Vec<u8>)
    ensures
        index_image(
            index_vectors(*index).dom(),
            index_codes(*index),
            index_dim(*index),
            index_bits(*index),
            index_calibration(*index),
            r@,
        ),
        image_refusal(r@) is None,
{
    index.to_bytes()
}

/// `IdMapIndex::from_bytes`: an index read from the bytes. Where they are the image
/// that an index wrote, it has the ids, the codes, the dimension, the bit width and the
/// calibration of that index. The vectors that the codes were made of are not in the
/// image: of them only the ids are known.
#[verifier::external_body]
fn tv_from_bytes(bytes: &[u8]) -> (r: Result<turbovec::IdMapIndex, String>)
    ensures
        match r {
            Ok(i) => {
                &&& image_refusal(bytes@) is None
                &&& forall|
                    ids: Set<u64>,
                    codes: Map<u64, Seq<u8>>,
                    dim: usize,
                    bits: usize,
                    calibration: Seq<u8>,
                | #[trigger]
                    index_image(ids, codes, dim, bits, calibration, bytes@) ==> {
                        &&& ids == index_vectors(i).dom()
                        &&& codes == index_codes(i)
                        &&& dim == index_dim(i)
                        &&& bits == index_bits(i)
                        &&& calibration == index_calibration(i)
                    }
            },
            Err(m) => image_refusal(bytes@) == Some(m@),
        },
{
    turbovec::IdMapIndex::from_bytes(bytes).map_err(|e| e.to_string())
}

/// What goes wrong with an index.
#[derive(Debug)]
pub enum VectorError {
    /// The index could not be made.
    Construct(String),
    /// The vectors could not be added.
    Add(String),
    /// The image could not be read.
    Io(String),
    /// The coordinates are no whole number of vectors.
    DimMismatch { expected: usize, actual: usize },
    /// There is no vector to add.
    Empty,
}

/// A `VectorError` with its texts as sequences of characters.
pub enum VectorFault {
    Construct(Seq<char>),
    Add(Seq<char>),
    Io(Seq<char>),
    DimMismatch { expected: usize, actual: usize },
    Empty,
}

impl View for VectorError {
    type V = VectorFault;

    open spec fn view(&self) -> VectorFault {
        match *self {
            VectorError::Construct(m) => VectorFault::Construct(m@),
            VectorError::Add(m) => VectorFault::Add(m@),
            VectorError::Io(m) => VectorFault::Io(m@),
            VectorError::DimMismatch { expected, actual } => VectorFault::DimMismatch {
                expected,
                actual,
            },
            VectorError::Empty => VectorFault::Empty,
        }
    }
}

impl VectorFault {
    /// The text shown for the error.
    pub open spec fn message(self) -> Seq<char> {
        match self {
            VectorFault::Construct(m) => "构造索引失败: "@ + m,
            VectorFault::Add(m) => "添加向量失败: "@ + m,
            VectorFault::Io(m) => "序列化失败: "@ + m,
            VectorFault::DimMismatch { expected, actual } => "向量维度不符: 期望 "@ + decimal(
                expected as nat,
            ) + ", 实际 "@ + decimal(actual as nat),
            VectorFault::Empty => "输入向量为空"@,
        }
    }
}

impl VectorError {
    /// The text shown for the error.
    pub fn message(&self) -> (s: String)
        ensures
            s@ == self@.message(),
    {
        match self {
            VectorError::Construct(m) => joined("构造索引失败: ", m.as_str()),
            VectorError::Add(m) => joined("添加向量失败: ", m.as_str()),
            VectorError::Io(m) => joined("序列化失败: ", m.as_str()),
            VectorError::DimMismatch { expected, actual } => {
                let mut s = "向量维度不符: 期望 ".to_owned();
                push_decimal(&mut s, *expected as u64);
                s.append(", 实际 ");
                push_decimal(&mut s, *actual as u64);
                s
            },
            VectorError::Empty => "输入向量为空".to_owned(),
        }
    }
}

/// Whether the coordinate can be given to an index.
pub fn coord(b: u32) -> (r: bool)
    ensures
        r == is_coord(b),
{
    magnitude_of(b) < 0x5a0e_1bca
}

/// Whether all the coordinates can be given to an index.
pub fn coords(v: &[u32]) -> (r: bool)
    ensures
        r == are_coords(v@),
{
    let mut i: usize = 0;
    while i < v.len()
        invariant
            i <= v@.len(),
            forall|j: int| 0 <= j < i ==> is_coord(#[trigger] v@[j]),
        decreases v@.len() - i,
    {
        if !coord(v[i]) {
            return false;
        }
        i += 1;
    }
    true
}

/// What an index holds.
#[verifier::ext_equal]
pub struct IndexState {
    /// The vectors that it was given, by id.
    pub vectors: Map<u64, Seq<u32>>,
    /// What it keeps of them.
    pub codes: Map<u64, Seq<u8>>,
    /// The number of coordinates of a vector, 0 while it is not fixed.
    pub dim: usize,
    /// The number of bits to which a coordinate is quantised.
    pub bits: usize,
    /// The calibration of the codes, empty where there is none.
    pub calibration: Seq<u8>,
}

/// An index without vectors.
pub open spec fn new_index(dim: usize, bits: usize) -> IndexState {
    IndexState {
        vectors: Map::empty(),
        codes: Map::empty(),
        dim,
        bits,
        calibration: Seq::empty(),
    }
}

/// The index without the vectors under these ids.
pub open spec fn index_without(x: IndexState, ids: Set<u64>) -> IndexState {
    IndexState { vectors: x.vectors.remove_keys(ids), codes: x.codes.remove_keys(ids), ..x }
}

/// What adding rows under ids gives: what the index holds then, or the error.
pub open spec fn add_outcome(x: IndexState, rows: Seq<u32>, ids: Seq<u64>) -> Result<
    IndexState,
    VectorFault,
> {
    if rows.len() == 0 {
        Err(VectorFault::Empty)
    } else if x.dim == 0 || rows.len() % (x.dim as nat) != 0 {
        Err(VectorFault::DimMismatch { expected: x.dim, actual: rows.len() as usize })
    } else if addable(x.vectors.dom(), x.dim, rows, ids) {
        let new = rows_by_id(rows, x.dim as nat, ids);
        Ok(
            IndexState {
                vectors: x.vectors.union_prefer_right(new),
                codes: x.codes.union_prefer_right(coded(new, x.bits, x.calibration)),
                ..x
            },
        )
    } else {
        Err(VectorFault::Add(add_refusal(x.vectors.dom(), x.dim, rows, ids)))
    }
}

/// `bytes` is an image that an index which holds `x` may write.
pub open spec fn is_image(x: IndexState, bytes: Seq<u8>) -> bool {
    &&& index_image(x.vectors.dom(), x.codes, x.dim, x.bits, x.calibration, bytes)
    &&& image_refusal(bytes) is None
}

/// Two indexes with the same ids, codes, dimension, bit width and calibration: an image
/// does not tell them apart, and they may answer every query alike.
pub open spec fn same_index(x: IndexState, y: IndexState) -> bool {
    &&& x.vectors.dom() == y.vectors.dom()
    &&& x.codes == y.codes
    &&& x.dim == y.dim
    &&& x.bits == y.bits
    &&& x.calibration == y.calibration
}

/// `bytes` is read as an index that holds `x`: the same index as every one that has
/// `bytes` as its image.
pub open spec fn reads_as(bytes: Seq<u8>, x: IndexState) -> bool {
    &&& image_refusal(bytes) is None
    &&& forall|y: IndexState| #[trigger] is_image(y, bytes) ==> same_index(y, x)
}

/// The index can be asked for vectors near those in `query`: they are whole vectors with
/// coordinates in range.
pub open spec fn askable(x: IndexState, query: Seq<u32>) -> bool {
    x.dim > 0 ==> query.len() % (x.dim as nat) == 0 && are_coords(query)
}

/// An index that holds `x` may answer the query with these ids and scores, best score
/// first.
pub open spec fn may_answer(
    x: IndexState,
    query: Seq<u32>,
    k: usize,
    hits: Seq<(u64, u32)>,
) -> bool {
    exists|scores: Seq<u32>, ids: Seq<u64>|
        ids.len() == scores.len() && #[trigger] search_outcome(
            x.codes,
            x.dim,
            x.bits,
            x.calibration,
            query,
            k,
            scores,
            ids,
        ) && is_ranked(paired(ids, scores), hits)
}

/// How many vectors are answered to a query for `k` near each of its vectors: as many, or
/// all where fewer are held.
pub open spec fn answer_size(x: IndexState, query: Seq<u32>, k: nat) -> nat {
    if x.dim == 0 {
        0
    } else {
        (query.len() / (x.dim as nat)) * at_most(k, x.vectors.dom().len())
    }
}

/// Each vector that is held is among the hits.
pub open spec fn all_answered(x: IndexState, hits: Seq<(u64, u32)>) -> bool {
    forall|id: u64| #[trigger]
        x.vectors.contains_key(id) ==> exists|i: int|
            0 <= i < hits.len() && (#[trigger] hits[i]).0 == id
}

/// The id may come first in an answer to the query.
pub open spec fn may_lead(x: IndexState, query: Seq<u32>, k: usize, id: u64) -> bool {
    exists|hits: Seq<(u64, u32)>| #[trigger]
        may_answer(x, query, k, hits) && hits.len() > 0 && hits[0].0 == id
}

/// Ids and scores, paired place by place.
pub open spec fn paired(ids: Seq<u64>, scores: Seq<u32>) -> Seq<(u64, u32)> {
    Seq::new(ids.len(), |i: int| (ids[i], scores[i]))
}

/// The lesser of two numbers.
pub open spec fn at_most(a: nat, b: nat) -> nat {
    if a <= b {
        a
    } else {
        b
    }
}

/// The index of chunk vectors.
pub struct VectorIndex {
    index: turbovec::IdMapIndex,
}

impl View for VectorIndex {
    type V = IndexState;

    closed spec fn view(&self) -> IndexState {
        IndexState {
            vectors: index_vectors(self.index),
            codes: index_codes(self.index),
            dim: index_dim(self.index),
            bits: index_bits(self.index),
            calibration: index_calibration(self.index),
        }
    }
}

impl VectorIndex {
    /// An empty index for vectors of `dim` coordinates, quantised to
    /// `bit_width` bits each.
    pub fn new(dim: usize, bit_width: usize) -> (r: Result<Self, VectorError>)
        ensures
            match r {
                Ok(x) => index_params(dim, bit_width) && x@ == new_index(dim, bit_width),
                Err(e) => {
                    &&& !index_params(dim, bit_width)
                    &&& e@ == VectorFault::Construct(params_refusal(dim, bit_width))
                },
            },
    {
        match tv_new(dim, bit_width) {
            Ok(index) => Ok(Self { index }),
            Err(m) => Err(VectorError::Construct(m)),
        }
    }

    /// The index whose image the bytes are.
    pub fn load(bytes: &[u8]) -> (r: Result<Self, VectorError>)
        ensures
            match r {
                Ok(x) => reads_as(bytes@, x@),
                Err(e) => image_refusal(bytes@) is Some && e@ == VectorFault::Io(
                    image_refusal(bytes@)->0,
                ),
            },
    {
        match tv_from_bytes(bytes) {
            Ok(index) => Ok(Self { index }),
            Err(m) => Err(VectorError::Io(m)),
        }
    }

    /// The number of coordinates of a vector.
    pub fn dim(&self) -> (d: usize)
        ensures
            d == self@.dim,
    {
        match tv_dim(&self.index) {
            Some(d) => d,
            None => 0,
        }
    }

    /// The number of vectors.
    pub fn len(&self) -> (n: usize)
        ensures
            has_size(self@.vectors.dom(), n as nat),
    {
        tv_len(&self.index)
    }

    /// Whether there is no vector.
    pub fn is_empty(&self) -> (r: bool)
        ensures
            r == self@.vectors.dom().is_empty(),
    {
        tv_is_empty(&self.index)
    }

    /// Whether a vector stands under `id`.
    pub fn contains(&self, id: u64) -> (r: bool)
        ensures
            r == self@.vectors.contains_key(id),
    {
        tv_contains(&self.index, id)
    }

    /// Adds vectors, given as their coordinates behind each other, under ids:
    /// all of them, or none.
    pub fn add_with_ids(&mut self, vectors: &[u32], ids: &[u64]) -> (r: Result<(), VectorError>)
        ensures
            match (r, add_outcome(old(self)@, vectors@, ids@)) {
                (Ok(_), Ok(x)) => final(self)@ == x,
                (Err(e), Err(f)) => e@ == f && final(self)@ == old(self)@,
                _ => false,
            },
    {
        if vectors.len() == 0 {
            return Err(VectorError::Empty);
        }
        let dim: usize = self.dim();
        if dim == 0 || vectors.len() % dim != 0 {
            return Err(VectorError::DimMismatch { expected: dim, actual: vectors.len() });
        }
        let ghost x = self@;
        match tv_add(&mut self.index, vectors, ids) {
            Ok(_) => {
                proof {
                    let new = rows_by_id(vectors@, dim as nat, ids@);
                    assert(coded(new, x.bits, x.calibration) =~= new.map_values(
                        |v: Seq<u32>| vector_code(v, x.bits, x.calibration),
                    ));
                    assert(self@ =~= add_outcome(x, vectors@, ids@)->Ok_0);
                }
                Ok(())
            },
            Err(m) => Err(VectorError::Add(m)),
        }
    }

    /// Takes the vector under `id` out, and says whether there was one.
    pub fn remove(&mut self, id: u64) -> (r: bool)
        ensures
            r == old(self)@.vectors.contains_key(id),
            final(self)@ == index_without(old(self)@, set![id]),
    {
        let r = tv_remove(&mut self.index, id);
        proof {
            let x = old(self)@;
            assert(x.vectors.remove(id) =~= x.vectors.remove_keys(set![id]));
            assert(x.codes.remove(id) =~= x.codes.remove_keys(set![id]));
        }
        r
    }

    /// The nearest vectors, as ids and scores, best score first: `k` of them, or
    /// all where fewer are held, for each vector in `query`.
    pub fn search(&self, query: &[u32], k: usize) -> (r: Vec<(u64, u32)>)
        requires
            askable(self@, query@),
        ensures
            may_answer(self@, query@, k, r@),
            r@.len() == answer_size(self@, query@, k as nat),
            forall|i: int| 0 <= i < r@.len() ==> self@.vectors.contains_key((#[trigger] r@[i]).0),
            self@.dim > 0 && query@.len() == self@.dim && self@.vectors.dom().len() <= k
                ==> all_answered(self@, r@),
    {
        let (scores, ids) = tv_search(&self.index, query, k);
        let mut pairs: Vec<(u64, u32)> = Vec::new();
        let mut i: usize = 0;
        while i < ids.len()
            invariant
                i <= ids@.len(),
                ids@.len() == scores@.len(),
                pairs@ == paired(ids@, scores@).take(i as int),
            decreases ids@.len() - i,
        {
            pairs.push((ids[i], scores[i]));
            proof {
                assert(paired(ids@, scores@).take(i as int + 1) =~= paired(ids@, scores@).take(
                    i as int,
                ).push(paired(ids@, scores@)[i as int]));
            }
            i += 1;
        }
        proof {
            assert(paired(ids@, scores@).take(i as int) =~= paired(ids@, scores@));
        }
        let out = ranked(&pairs);
        proof {
            assert(is_ranked(paired(ids@, scores@), out@));
            let x = self@;
            assert(search_outcome(
                x.codes,
                x.dim,
                x.bits,
                x.calibration,
                query@,
                k,
                scores@,
                ids@,
            ));
            let p = choose|p: Seq<int>| crate::ranking::ranks_by(pairs@, out@, p);
            assert forall|i: int| 0 <= i < out@.len() implies self@.vectors.contains_key(
                (#[trigger] out@[i]).0,
            ) by {
                assert(0 <= p[i] < pairs@.len() && out@[i] == pairs@[p[i]]);
                assert(pairs@[p[i]].0 == ids@[p[i]]);
            }
            if x.dim > 0 && query@.len() == x.dim && x.vectors.dom().len() <= k {
                assert forall|id: u64| #[trigger] x.vectors.contains_key(id) implies exists|i: int|
                    0 <= i < out@.len() && (#[trigger] out@[i]).0 == id by {
                    assert(ids@.contains(id));
                    let j = ids@.index_of(id);
                    let i = lemma_found(p, pairs@.len(), j);
                    assert(out@[i] == pairs@[j]);
                    assert(pairs@[j].0 == id);
                }
            }
        }
        out
    }

    /// Builds what the first search would build.
    pub fn prepare(&self) {
        tv_prepare(&self.index)
    }

    /// The image of the index.
    pub fn write(&self) -> (r: Vec<u8>)
        ensures
            is_image(self@, r@),
    {
        tv_to_bytes(&self.index)
    }

    /// An index of its own that holds what this one holds.
    pub fn copy(&self) -> (r: Result<Self, VectorError>)
        ensures
            match r {
                Ok(c) => same_index(self@, c@),
                Err(_) => false,
            },
    {
        let bytes = self.write();
        Self::load(bytes.as_slice())
    }
}

/// An image that an index wrote is read as the same index: with its ids, its codes, its
/// dimension and its bit width.
pub proof fn law_image_read_back(x: IndexState, bytes: Seq<u8>, read: IndexState)
    requires
        is_image(x, bytes),
        reads_as(bytes, read),
    ensures
        same_index(x, read),
{
}

/// A copy answers as the index that it was made of: it holds the same ids at the same bit
/// width, and what either may answer to a query, ids, scores and their order, the other may
/// answer, with the same id in front.
pub proof fn law_copy_answers_alike(
    x: IndexState,
    copy: IndexState,
    query: Seq<u32>,
    k: usize,
    hits: Seq<(u64, u32)>,
    id: u64,
)
    requires
        same_index(x, copy),
    ensures
        x.vectors.contains_key(id) == copy.vectors.contains_key(id),
        x.vectors.dom().len() == copy.vectors.dom().len(),
        x.dim == copy.dim,
        x.bits == copy.bits,
        askable(x, query) == askable(copy, query),
        answer_size(x, query, k as nat) == answer_size(copy, query, k as nat),
        may_answer(x, query, k, hits) == may_answer(copy, query, k, hits),
        may_lead(x, query, k, id) == may_lead(copy, query, k, id),
{
    assert(x.vectors.dom().contains(id) == copy.vectors.dom().contains(id));
    if may_lead(x, query, k, id) {
        let h = choose|h: Seq<(u64, u32)>| #[trigger]
            may_answer(x, query, k, h) && h.len() > 0 && h[0].0 == id;
        assert(may_answer(copy, query, k, h));
    }
    if may_lead(copy, query, k, id) {
        let h = choose|h: Seq<(u64, u32)>| #[trigger]
            may_answer(copy, query, k, h) && h.len() > 0 && h[0].0 == id;
        assert(may_answer(x, query, k, h));
    }
}

/// Vectors added under ids are held under them, and the others stay as they were.
pub proof fn law_added_vectors_held(
    x: IndexState,
    rows: Seq<u32>,
    ids: Seq<u64>,
    i: int,
    other: u64,
)
    requires
        add_outcome(x, rows, ids) is Ok,
        0 <= i < ids.len(),
        !ids.contains(other),
    ensures
        ({
            let after = add_outcome(x, rows, ids)->Ok_0;
            let v = row(rows, x.dim as nat, i);
            &&& after.vectors.contains_key(ids[i])
            &&& after.vectors[ids[i]] == v
            &&& after.codes[ids[i]] == vector_code(v, x.bits, x.calibration)
            &&& after.vectors.contains_key(other) == x.vectors.contains_key(other)
            &&& x.vectors.contains_key(other) ==> after.vectors[other] == x.vectors[other]
            &&& x.codes.contains_key(other) ==> after.codes[other] == x.codes[other]
            &&& after.dim == x.dim && after.bits == x.bits
        }),
{
    assert(ids.contains(ids[i]));
    assert(ids.index_of(ids[i]) == i);
}

/// An index takes vectors of a positive multiple of 8 coordinates, up to 16384, each quantised to
/// 2, 3 or 4 bits.
pub proof fn law_index_kinds(dim: usize, bit_width: usize)
    ensures
        index_params(dim, bit_width) <==> (bit_width == 2 || bit_width == 3 || bit_width == 4)
            && dim >= 8 && dim <= 16384 && dim % 8 == 0,
{
}

/// A coordinate is taken where it is a number below ten to the sixteenth, of either sign.
pub proof fn law_coordinates(b: u32)
    ensures
        is_coord(b) <==> b < 0x5a0e_1bca || 0x8000_0000 <= b < 0xda0e_1bca,
{
}

/// Coordinate `c` of the vector that was added under `ids[i]` is the one at place
/// `i * dim + c` of the coordinates that were given, and adding is all or nothing: it succeeds
/// exactly where they are whole vectors, one for each id, the ids are new and different, and the
/// coordinates are in range.
pub proof fn law_added_coordinates(
    x: IndexState,
    rows: Seq<u32>,
    ids: Seq<u64>,
    i: int,
    c: int,
)
    requires
        x.dim > 0,
    ensures
        add_outcome(x, rows, ids) is Ok <==> {
            &&& ids.len() > 0
            &&& rows.len() == ids.len() * x.dim
            &&& forall|a: int, b: int|
                0 <= a < b < ids.len() ==> #[trigger] ids[a] != #[trigger] ids[b]
            &&& forall|a: int| 0 <= a < ids.len() ==> !x.vectors.contains_key(#[trigger] ids[a])
            &&& forall|a: int|
                0 <= a < rows.len() ==> (#[trigger] rows[a]) < 0x5a0e_1bca || 0x8000_0000 <= rows[a]
                    < 0xda0e_1bca
        },
        add_outcome(x, rows, ids) is Ok && 0 <= i < ids.len() && 0 <= c < x.dim ==> {
            let after = add_outcome(x, rows, ids)->Ok_0;
            &&& after.vectors.contains_key(ids[i])
            &&& after.vectors[ids[i]].len() == x.dim
            &&& after.vectors[ids[i]][c] == rows[i * x.dim + c]
        },
{
    let d = x.dim as nat;
    assert(ids.len() == 0 ==> ids.len() * d == 0) by (nonlinear_arith);
    assert(ids.len() > 0 ==> ids.len() * d > 0) by (nonlinear_arith)
        requires
            d > 0,
    ;
    vstd::arithmetic::div_mod::lemma_mod_multiples_basic(ids.len() as int, d as int);
    assert(are_coords(rows) <==> forall|a: int|
        0 <= a < rows.len() ==> (#[trigger] rows[a]) < 0x5a0e_1bca || 0x8000_0000 <= rows[a]
            < 0xda0e_1bca);
    if forall|a: int, b: int| 0 <= a < b < ids.len() ==> #[trigger] ids[a] != #[trigger] ids[b] {
        assert forall|a: int, b: int| 0 <= a < ids.len() && 0 <= b < ids.len() && a
            != b implies ids[a] != ids[b] by {
            if b < a {
                assert(ids[b] != ids[a]);
            }
        }
        assert(ids.no_duplicates());
    }
    if add_outcome(x, rows, ids) is Ok && 0 <= i < ids.len() && 0 <= c < x.dim {
        assert(ids.contains(ids[i]));
        assert(ids.index_of(ids[i]) == i);
        assert((i + 1) * d == i * d + d) by (nonlinear_arith);
        assert(0 <= i * d && (i + 1) * d <= ids.len() * d) by (nonlinear_arith)
            requires
                0 <= i < ids.len(),
        ;
        let v = row(rows, d, i);
        assert(v.len() == d);
        assert(v[c] == rows[i * d + c]);
    }
}

/// Taking a vector out leaves the others as they are.
pub proof fn law_removed_vector_gone(x: IndexState, id: u64, other: u64)
    ensures
        ({
            let after = index_without(x, set![id]);
            &&& !after.vectors.contains_key(id) && !after.codes.contains_key(id)
            &&& other != id ==> after.vectors.contains_key(other) == x.vectors.contains_key(other)
            &&& other != id && x.vectors.contains_key(other) ==> after.vectors[other]
                == x.vectors[other]
            &&& other != id && x.codes.contains_key(other) ==> after.codes.contains_key(other)
                && after.codes[other] == x.codes[other]
            &&& after.dim == x.dim && after.bits == x.bits && after.calibration == x.calibration
        }),
{
}

/// A search gives for one vector as many hits as are asked for, or all where fewer are held; hits
/// come best score first, and scores are those that the index gave for their ids.
pub proof fn law_search_hits(
    x: IndexState,
    query: Seq<u32>,
    k: usize,
    hits: Seq<(u64, u32)>,
    i: int,
)
    requires
        x.dim > 0,
        query.len() == x.dim,
        may_answer(x, query, k, hits),
        hits.len() == answer_size(x, query, k as nat),
    ensures
        k <= x.vectors.dom().len() ==> hits.len() == k,
        k > x.vectors.dom().len() ==> hits.len() == x.vectors.dom().len(),
        0 <= i < hits.len() - 1 ==> rank(hits[i].1) >= rank(hits[i + 1].1),
        exists|scores: Seq<u32>, ids: Seq<u64>|
            search_outcome(x.codes, x.dim, x.bits, x.calibration, query, k, scores, ids)
                && ids.len() == scores.len() == hits.len() && (0 <= i < hits.len() ==> exists|
                j: int,
            |
                0 <= j < ids.len() && #[trigger] ids[j] == hits[i].0 && scores[j] == hits[i].1),
{
    let rows = query.len() / (x.dim as nat);
    let most = at_most(k as nat, x.vectors.dom().len());
    assert(rows == 1) by {
        vstd::arithmetic::div_mod::lemma_div_by_self(query.len() as int);
    }
    assert(rows * most == most) by (nonlinear_arith)
        requires
            rows == 1,
    ;
    let (scores, ids) = choose|scores: Seq<u32>, ids: Seq<u64>|
        ids.len() == scores.len() && #[trigger] search_outcome(
            x.codes,
            x.dim,
            x.bits,
            x.calibration,
            query,
            k,
            scores,
            ids,
        ) && is_ranked(paired(ids, scores), hits);
    let pairs = paired(ids, scores);
    law_ranking_sorts(pairs, hits, hits[i], i);
    if 0 <= i < hits.len() {
        assert(hits.contains(hits[i]));
        let j = pairs.index_of(hits[i]);
        assert(pairs[j] == hits[i]);
        assert(ids[j] == hits[i].0);
    }
}

/// The texts of the errors.
pub proof fn law_vector_error_texts(m: Seq<char>, expected: usize, actual: usize)
    ensures
        VectorFault::Construct(m).message() == "构造索引失败: "@ + m,
        VectorFault::Add(m).message() == "添加向量失败: "@ + m,
        VectorFault::Io(m).message() == "序列化失败: "@ + m,
        (VectorFault::DimMismatch { expected, actual }).message() == "向量维度不符: 期望 "@ + decimal(
            expected as nat,
        ) + ", 实际 "@ + decimal(actual as nat),
        VectorFault::Empty.message() == "输入向量为空"@,
{
}

/// An index can be asked for one or more whole vectors whose coordinates are numbers below ten to
/// the sixteenth.
pub proof fn law_what_can_be_asked(x: IndexState, query: Seq<u32>)
    requires
        x.dim > 0,
    ensures
        askable(x, query) <==> query.len() % (x.dim as nat) == 0 && forall|i: int|
            0 <= i < query.len() ==> (#[trigger] query[i]) < 0x5a0e_1bca || 0x8000_0000 <= query[i]
                < 0xda0e_1bca,
{
    assert(are_coords(query) <==> forall|i: int|
        0 <= i < query.len() ==> (#[trigger] query[i]) < 0x5a0e_1bca || 0x8000_0000 <= query[i]
            < 0xda0e_1bca);
}

} // verus!
