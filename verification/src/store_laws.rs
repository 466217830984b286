//! What holds of every store, and of what is done to one after another.
use crate::config::Config;
use crate::store::{
    allocated, bytes_of, chunk_ids, chunk_total, consistent, delete_outcome, dropped, empty_state,
    enumerates, fitting, fresh_ids, has_chunk, laid_out, live, load_fails, loaded, needs_rebuild,
    noted, open_fault, opened, owners_of, raw_rows, rebuild_outcome, rows_of, saved_as, shows,
    upsert_outcome, usable, IndexSnapshot, StoreError, StoreFault, StoreState,
};
use crate::tag::tag_text;
use crate::tags_file::{lists, tags_decoded};
use crate::text::decimal;
use crate::vector_index::{
    add_outcome, are_coords, coded, has_size, index_params, is_coord, is_image, new_index, row,
    rows_by_id, same_index, IndexState, VectorError, VectorFault,
};
use vstd::prelude::*;

verus! {

/// The invariant of the store: every tag has a chunk, no chunk occurs twice, the index
/// holds the chunks of the tags and no others, and no chunk id is in use that is yet to
/// be handed out.
pub open spec fn sound(s: StoreState) -> bool {
    &&& s.tags.dom().finite()
    &&& forall|tag: u128| #[trigger]
        s.tags.contains_key(tag) ==> s.tags[tag].len() > 0 && s.tags[tag].no_duplicates()
    &&& forall|a: u128, b: u128, id: u64| #[trigger]
        has_chunk(s.tags, a, id) && #[trigger] has_chunk(s.tags, b, id) ==> a == b
    &&& forall|tag: u128, id: u64| #[trigger]
        has_chunk(s.tags, tag, id) ==> id < s.next_id && s.index.vectors.contains_key(id)
    &&& forall|id: u64| #[trigger] s.index.vectors.contains_key(id) ==> live(s.tags, id)
    &&& forall|id: u64| #[trigger] s.raw.contains_key(id) ==> id < s.next_id
}

/// The vectors of each tag, in the order of its chunks.
pub open spec fn contents(s: StoreState) -> Map<u128, Seq<Seq<u32>>> {
    s.tags.map_values(|ids: Seq<u64>| ids.map_values(|id: u64| s.index.vectors[id]))
}

/// Vectors that can be filed: at least one, each of `dim` coordinates in range.
pub open spec fn storable(rows: Seq<Seq<u32>>, dim: usize) -> bool {
    &&& dim > 0
    &&& rows.len() > 0
    &&& forall|i: int|
        0 <= i < rows.len() ==> (#[trigger] rows[i]).len() == dim && are_coords(rows[i])
}

proof fn lemma_laid_out(rows: Seq<Seq<u32>>, dim: nat)
    requires
        forall|i: int| 0 <= i < rows.len() ==> (#[trigger] rows[i]).len() == dim,
    ensures
        laid_out(rows).len() == rows.len() * dim,
        forall|i: int| 0 <= i < rows.len() ==> #[trigger] row(laid_out(rows), dim, i) == rows[i],
        forall|i: int, j: int|
            0 <= i < rows.len() && 0 <= j < dim ==> (#[trigger] rows[i])[j] == #[trigger] laid_out(
                rows,
            )[i * dim + j],
    decreases rows.len(),
{
    if rows.len() > 0 {
        let most = rows.drop_last();
        assert forall|i: int| 0 <= i < most.len() implies (#[trigger] most[i]).len() == dim by {
            assert(most[i] == rows[i]);
        }
        lemma_laid_out(most, dim);
        let n = most.len() as int;
        assert(rows.last() == rows[n]);
        assert(rows.len() * dim == most.len() * dim + dim) by (nonlinear_arith)
            requires
                rows.len() == most.len() + 1,
        ;
        assert forall|i: int| 0 <= i < rows.len() implies #[trigger] row(laid_out(rows), dim, i)
            == rows[i] by {
            assert((i + 1) * dim == i * dim + dim) by (nonlinear_arith);
            assert(0 <= i * dim) by (nonlinear_arith)
                requires
                    0 <= i,
            ;
            if i < n {
                assert((i + 1) * dim <= n * dim) by (nonlinear_arith)
                    requires
                        i + 1 <= n,
                ;
                assert(row(laid_out(rows), dim, i) =~= row(laid_out(most), dim, i));
                assert(most[i] == rows[i]);
            } else {
                assert(row(laid_out(rows), dim, i) =~= rows[i]);
            }
        }
        assert forall|i: int, j: int| 0 <= i < rows.len() && 0 <= j < dim implies (#[trigger]
        rows[i])[j] == #[trigger] laid_out(rows)[i * dim + j] by {
            assert(0 <= i * dim) by (nonlinear_arith)
                requires
                    0 <= i,
            ;
            if i < n {
                assert(most[i] == rows[i]);
                assert(i * dim + dim <= n * dim) by (nonlinear_arith)
                    requires
                        i + 1 <= n,
                ;
            }
        }
    }
}

proof fn lemma_fits(rows: Seq<Seq<u32>>, dim: usize)
    ensures
        fitting(rows, dim) <= rows.len(),
        fitting(rows, dim) == rows.len() <==> (forall|i: int|
            0 <= i < rows.len() ==> (#[trigger] rows[i]).len() == dim),
    decreases rows.len(),
{
    if rows.len() > 0 {
        let rest = rows.drop_first();
        lemma_fits(rest, dim);
        assert(forall|i: int| 0 <= i < rest.len() ==> #[trigger] rest[i] == rows[i + 1]);
        if rows[0].len() == dim && fitting(rest, dim) == rest.len() {
            assert forall|i: int| 0 <= i < rows.len() implies (#[trigger] rows[i]).len() == dim by {
                if i > 0 {
                    assert(rest[i - 1] == rows[i]);
                }
            }
        }
        if forall|i: int| 0 <= i < rows.len() ==> (#[trigger] rows[i]).len() == dim {
            assert(rows[0].len() == dim);
            assert forall|i: int| 0 <= i < rest.len() implies (#[trigger] rest[i]).len() == dim by {
                assert(rest[i] == rows[i + 1]);
            }
        }
    }
}

/// The coordinates behind each other are in range where those of each vector are.
proof fn lemma_coords(rows: Seq<Seq<u32>>, dim: nat)
    requires
        dim > 0,
        forall|i: int| 0 <= i < rows.len() ==> (#[trigger] rows[i]).len() == dim,
    ensures
        are_coords(laid_out(rows)) <==> (forall|i: int|
            0 <= i < rows.len() ==> are_coords(#[trigger] rows[i])),
{
    lemma_laid_out(rows, dim);
    let flat = laid_out(rows);
    if are_coords(flat) {
        assert forall|i: int| 0 <= i < rows.len() implies are_coords(#[trigger] rows[i]) by {
            assert forall|j: int| 0 <= j < rows[i].len() implies is_coord(
                #[trigger] rows[i][j],
            ) by {
                assert(0 <= i * dim + j < flat.len()) by (nonlinear_arith)
                    requires
                        0 <= i < rows.len(),
                        0 <= j < dim,
                        flat.len() == rows.len() * dim,
                ;
                assert(rows[i][j] == flat[i * dim + j]);
            }
        }
    }
    if forall|i: int| 0 <= i < rows.len() ==> are_coords(#[trigger] rows[i]) {
        assert forall|m: int| 0 <= m < flat.len() implies is_coord(#[trigger] flat[m]) by {
            let i = m / dim as int;
            let j = m % dim as int;
            vstd::arithmetic::div_mod::lemma_fundamental_div_mod(m, dim as int);
            assert(0 <= i < rows.len() && 0 <= j < dim && m == i * dim + j) by (nonlinear_arith)
                requires
                    0 <= m < rows.len() * dim,
                    dim > 0,
                    m == dim as int * (m / dim as int) + m % dim as int,
                    i == m / dim as int,
                    j == m % dim as int,
            ;
            assert(rows[i][j] == flat[i * dim + j]);
            assert(are_coords(rows[i]));
        }
    }
}

proof fn lemma_dropped(s: StoreState, tag: u128)
    requires
        sound(s),
    ensures
        sound(dropped(s, tag)),
        forall|t: u128, id: u64| #[trigger]
            has_chunk(dropped(s, tag).tags, t, id) <==> t != tag && has_chunk(s.tags, t, id),
        contents(dropped(s, tag)) == contents(s).remove(tag),
{
    let d = dropped(s, tag);
    if s.tags.contains_key(tag) {
        let ids = s.tags[tag];
        assert(d.tags == s.tags.remove(tag));
        assert forall|t: u128, id: u64| #[trigger] has_chunk(d.tags, t, id) <==> t != tag
            && has_chunk(s.tags, t, id) by {
            if t != tag && s.tags.contains_key(t) {
                assert(d.tags[t] == s.tags[t]);
            }
        }
        assert forall|t: u128, id: u64| #[trigger] has_chunk(d.tags, t, id) implies id < d.next_id
            && d.index.vectors.contains_key(id) by {
            assert(has_chunk(s.tags, t, id));
            if ids.contains(id) {
                assert(has_chunk(s.tags, tag, id));
            }
        }
        assert forall|id: u64| #[trigger] d.index.vectors.contains_key(id) implies live(
            d.tags,
            id,
        ) by {
            assert(s.index.vectors.contains_key(id));
            let t = choose|t: u128| has_chunk(s.tags, t, id);
            if t == tag {
                assert(ids.to_set().contains(id));
            }
            assert(has_chunk(d.tags, t, id));
        }
        assert forall|a: u128, b: u128, id: u64| #[trigger]
            has_chunk(d.tags, a, id) && #[trigger] has_chunk(d.tags, b, id) implies a == b by {
            assert(has_chunk(s.tags, a, id) && has_chunk(s.tags, b, id));
        }
        assert forall|t: u128| #[trigger] d.tags.contains_key(t) implies d.tags[t].len() > 0
            && d.tags[t].no_duplicates() by {
            assert(s.tags.contains_key(t));
        }
        assert(contents(d) =~= contents(s).remove(tag)) by {
            assert forall|t: u128| #[trigger] d.tags.contains_key(t) implies contents(d)[t]
                == contents(s)[t] by {
                assert forall|i: int| 0 <= i < d.tags[t].len() implies d.index.vectors[#[trigger]
                d.tags[t][i]] == s.index.vectors[s.tags[t][i]] by {
                    assert(has_chunk(d.tags, t, d.tags[t][i]));
                    assert(d.index.vectors.contains_key(d.tags[t][i]));
                }
                assert(contents(d)[t] =~= contents(s)[t]);
            }
        }
    } else {
        assert(contents(s).remove(tag) =~= contents(s));
    }
}

/// Handing out chunk ids changes nothing else.
proof fn lemma_allocated(s: StoreState, n: nat)
    requires
        sound(s),
        s.next_id + n <= u64::MAX,
    ensures
        sound(allocated(s, n)),
        contents(allocated(s, n)) == contents(s),
{
    let a = allocated(s, n);
    assert forall|t: u128, id: u64| #[trigger] has_chunk(a.tags, t, id) implies id < a.next_id
        && a.index.vectors.contains_key(id) by {
        assert(has_chunk(s.tags, t, id));
    }
}

/// New chunk ids are all different, and none of them was handed out before.
proof fn lemma_fresh(next: u64, n: nat)
    requires
        next + n <= u64::MAX,
    ensures
        fresh_ids(next, n).no_duplicates(),
        forall|id: u64| #[trigger]
            fresh_ids(next, n).contains(id) <==> next <= id < next + n,
        forall|i: int|
            0 <= i < n ==> fresh_ids(next, n)[i] == next + i && fresh_ids(next, n).index_of(
                #[trigger] fresh_ids(next, n)[i],
            ) == i,
{
    let ids = fresh_ids(next, n);
    assert forall|id: u64| #[trigger] ids.contains(id) <==> next <= id < next + n by {
        if next <= id < next + n {
            assert(ids[id - next] == id);
        }
    }
}

/// Vectors can be filed under a tag exactly where there is at least one and each has
/// as many coordinates as the index takes, all in range. Then as many chunks are
/// filed as there are vectors.
pub proof fn law_upsert_succeeds(s: StoreState, tag: u128, rows: Seq<Seq<u32>>)
    requires
        sound(s),
        s.next_id + rows.len() <= u64::MAX,
    ensures
        upsert_outcome(s, tag, rows).1 is Ok <==> storable(rows, s.index.dim),
        storable(rows, s.index.dim) ==> upsert_outcome(s, tag, rows).1 == Ok::<_, StoreFault>(
            rows.len(),
        ),
{
    let base = dropped(s, tag);
    lemma_dropped(s, tag);
    lemma_fits(rows, s.index.dim);
    lemma_fresh(base.next_id, rows.len());
    let ids = fresh_ids(base.next_id, rows.len());
    if fitting(rows, s.index.dim) == rows.len() {
        lemma_laid_out(rows, s.index.dim as nat);
        let flat = laid_out(rows);
        if s.index.dim > 0 {
            lemma_coords(rows, s.index.dim as nat);
            assert(flat.len() % (s.index.dim as nat) == 0) by {
                vstd::arithmetic::div_mod::lemma_mod_multiples_basic(
                    rows.len() as int,
                    s.index.dim as int,
                );
            }
            assert(rows.len() > 0 ==> flat.len() > 0) by (nonlinear_arith)
                requires
                    flat.len() == rows.len() * s.index.dim,
                    s.index.dim > 0,
            ;
            assert forall|i: int| 0 <= i < ids.len() implies !base.index.vectors.dom().contains(
                #[trigger] ids[i],
            ) by {
                assert(ids.contains(ids[i]));
                if base.index.vectors.contains_key(ids[i]) {
                    let t = choose|t: u128| has_chunk(base.tags, t, ids[i]);
                    assert(has_chunk(base.tags, t, ids[i]));
                }
            }
        }
    }
}

/// The vectors that a successful write leaves: the new ones under the new ids, and
/// the others as they were.
proof fn lemma_written(s: StoreState, tag: u128, rows: Seq<Seq<u32>>)
    requires
        sound(s),
        s.next_id + rows.len() <= u64::MAX,
        storable(rows, s.index.dim),
    ensures
        ({
            let base = dropped(s, tag);
            let after = upsert_outcome(s, tag, rows).0;
            let ids = fresh_ids(s.next_id, rows.len());
            &&& after.tags == base.tags.insert(tag, ids)
            &&& after.next_id == s.next_id + rows.len()
            &&& after.raw == noted(base.raw, s.next_id, rows)
            &&& forall|id: u64| #[trigger]
                after.index.vectors.contains_key(id) <==> base.index.vectors.contains_key(id)
                    || ids.contains(id)
            &&& forall|id: u64| #[trigger]
                base.index.vectors.contains_key(id) ==> after.index.vectors[id]
                    == base.index.vectors[id]
            &&& forall|i: int|
                0 <= i < rows.len() ==> after.index.vectors[#[trigger] ids[i]] == rows[i]
        }),
{
    law_upsert_succeeds(s, tag, rows);
    lemma_dropped(s, tag);
    lemma_fits(rows, s.index.dim);
    lemma_laid_out(rows, s.index.dim as nat);
    let base = dropped(s, tag);
    let ids = fresh_ids(s.next_id, rows.len());
    lemma_fresh(s.next_id, rows.len());
    let after = upsert_outcome(s, tag, rows).0;
    let new = rows_by_id(laid_out(rows), s.index.dim as nat, ids);
    assert(after.index.vectors == base.index.vectors.union_prefer_right(new));
    assert forall|id: u64| #[trigger]
        base.index.vectors.contains_key(id) implies after.index.vectors[id]
        == base.index.vectors[id] by {
        if ids.contains(id) {
            let t = choose|t: u128| has_chunk(base.tags, t, id);
            assert(has_chunk(base.tags, t, id));
        }
    }
    assert forall|i: int| 0 <= i < rows.len() implies after.index.vectors[#[trigger] ids[i]]
        == rows[i] by {
        assert(ids.contains(ids[i]));
        assert(new.contains_key(ids[i]));
        assert(row(laid_out(rows), s.index.dim as nat, i) == rows[i]);
    }
}

/// A new store keeps the invariant, and its exact vectors are those of its index.
pub proof fn law_empty_store_sound(config: Config)
    ensures
        sound(empty_state(config)),
        exact(empty_state(config)),
{
    let s = empty_state(config);
    assert(s.index.codes =~= coded(s.raw, s.index.bits, s.index.calibration));
}

/// Filing vectors under a tag keeps the invariant, whether it succeeds or not.
pub proof fn law_upsert_keeps_sound(s: StoreState, tag: u128, rows: Seq<Seq<u32>>)
    requires
        sound(s),
        s.next_id + rows.len() <= u64::MAX,
    ensures
        sound(upsert_outcome(s, tag, rows).0),
{
    lemma_dropped(s, tag);
    lemma_fits(rows, s.index.dim);
    let base = dropped(s, tag);
    lemma_allocated(base, fitting(rows, s.index.dim));
    law_upsert_succeeds(s, tag, rows);
    if storable(rows, s.index.dim) {
        lemma_written(s, tag, rows);
        let after = upsert_outcome(s, tag, rows).0;
        let ids = fresh_ids(s.next_id, rows.len());
        lemma_fresh(s.next_id, rows.len());
        assert forall|t: u128, id: u64| #[trigger] has_chunk(after.tags, t, id) implies (if t
            == tag {
            ids.contains(id)
        } else {
            has_chunk(base.tags, t, id)
        }) by {}
        assert forall|t: u128, id: u64| #[trigger] has_chunk(after.tags, t, id) implies id
            < after.next_id && after.index.vectors.contains_key(id) by {
            if t != tag {
                assert(has_chunk(base.tags, t, id));
                assert(base.index.vectors.contains_key(id));
            }
        }
        assert forall|a: u128, b: u128, id: u64| #[trigger]
            has_chunk(after.tags, a, id) && #[trigger] has_chunk(after.tags, b, id) implies a
            == b by {
            if a != tag {
                assert(has_chunk(base.tags, a, id));
            }
            if b != tag {
                assert(has_chunk(base.tags, b, id));
            }
        }
        assert forall|id: u64| #[trigger] after.index.vectors.contains_key(id) implies live(
            after.tags,
            id,
        ) by {
            if ids.contains(id) {
                assert(has_chunk(after.tags, tag, id));
            } else {
                let t = choose|t: u128| has_chunk(base.tags, t, id);
                assert(has_chunk(base.tags, t, id));
                assert(has_chunk(after.tags, t, id));
            }
        }
        assert forall|t: u128| #[trigger] after.tags.contains_key(t) implies after.tags[t].len() > 0
            && after.tags[t].no_duplicates() by {
            if t != tag {
                assert(base.tags.contains_key(t));
            }
        }
    }
}

/// Deleting a tag keeps the invariant.
pub proof fn law_delete_keeps_sound(s: StoreState, tag: u128)
    requires
        sound(s),
    ensures
        sound(delete_outcome(s, tag).0),
{
    lemma_dropped(s, tag);
}

/// Filed vectors replace what the tag had, in their order, and the other tags keep
/// what they have. Where filing fails, the tag is gone.
pub proof fn law_upsert_replaces(s: StoreState, tag: u128, rows: Seq<Seq<u32>>)
    requires
        sound(s),
        s.next_id + rows.len() <= u64::MAX,
    ensures
        contents(upsert_outcome(s, tag, rows).0) == if storable(rows, s.index.dim) {
            contents(s).insert(tag, rows)
        } else {
            contents(s).remove(tag)
        },
{
    lemma_dropped(s, tag);
    lemma_fits(rows, s.index.dim);
    let base = dropped(s, tag);
    lemma_allocated(base, fitting(rows, s.index.dim));
    law_upsert_succeeds(s, tag, rows);
    if storable(rows, s.index.dim) {
        lemma_written(s, tag, rows);
        let after = upsert_outcome(s, tag, rows).0;
        let ids = fresh_ids(s.next_id, rows.len());
        let want = contents(s).insert(tag, rows);
        assert(contents(after).dom() =~= want.dom());
        assert forall|t: u128| #[trigger] contents(after).contains_key(t) implies contents(after)[t]
            == want[t] by {
            if t == tag {
                assert(contents(after)[t] =~= rows);
            } else {
                assert(contents(base).contains_key(t));
                assert forall|i: int|
                    0 <= i < base.tags[t].len() implies after.index.vectors[#[trigger]
                base.tags[t][i]] == base.index.vectors[base.tags[t][i]] by {
                    assert(has_chunk(base.tags, t, base.tags[t][i]));
                }
                assert(contents(after)[t] =~= contents(base)[t]);
            }
        }
        assert(contents(after) =~= want);
    }
}

/// Deleting a tag takes it and its chunks out, and the other tags keep what they
/// have.
pub proof fn law_delete_removes(s: StoreState, tag: u128)
    requires
        sound(s),
    ensures
        contents(delete_outcome(s, tag).0) == contents(s).remove(tag),
        delete_outcome(s, tag).1 is Ok <==> contents(s).contains_key(tag),
{
    lemma_dropped(s, tag);
    assert(!contents(s).contains_key(tag) ==> contents(s).remove(tag) =~= contents(s));
}

/// Filing the same vectors under the same tag again changes nothing of what the tags
/// have.
pub proof fn law_upsert_idempotent(s: StoreState, tag: u128, rows: Seq<Seq<u32>>)
    requires
        sound(s),
        s.next_id + 2 * rows.len() <= u64::MAX,
    ensures
        ({
            let once = upsert_outcome(s, tag, rows).0;
            contents(upsert_outcome(once, tag, rows).0) == contents(once)
        }),
{
    let once = upsert_outcome(s, tag, rows).0;
    law_upsert_replaces(s, tag, rows);
    law_upsert_keeps_sound(s, tag, rows);
    law_ids_not_reused(s, tag, rows);
    law_upsert_replaces(once, tag, rows);
    assert(contents(once).insert(tag, rows) =~= contents(s).insert(tag, rows));
    assert(contents(once).remove(tag) =~= contents(s).remove(tag));
}

/// Deleting a tag undoes having filed something under it for the first time.
pub proof fn law_delete_undoes_upsert(s: StoreState, tag: u128, rows: Seq<Seq<u32>>)
    requires
        sound(s),
        s.next_id + rows.len() <= u64::MAX,
        !s.tags.contains_key(tag),
    ensures
        contents(delete_outcome(upsert_outcome(s, tag, rows).0, tag).0) == contents(s),
{
    law_upsert_replaces(s, tag, rows);
    law_upsert_keeps_sound(s, tag, rows);
    law_delete_removes(upsert_outcome(s, tag, rows).0, tag);
    assert(contents(s).insert(tag, rows).remove(tag) =~= contents(s));
    assert(contents(s).remove(tag).remove(tag) =~= contents(s));
}

/// A chunk id that was handed out once is not handed out again: the next one never
/// goes back, and new chunks take ids from it on.
pub proof fn law_ids_not_reused(s: StoreState, tag: u128, rows: Seq<Seq<u32>>)
    requires
        sound(s),
        s.next_id + rows.len() <= u64::MAX,
    ensures
        ({
            let after = upsert_outcome(s, tag, rows).0;
            &&& s.next_id <= after.next_id <= s.next_id + rows.len()
            &&& after.index.dim == s.index.dim
            &&& upsert_outcome(s, tag, rows).1 is Ok ==> after.tags[tag] == fresh_ids(
                s.next_id,
                rows.len(),
            )
            &&& upsert_outcome(s, tag, rows).1 is Ok ==> {
                &&& after.next_id == s.next_id + rows.len()
                &&& after.tags[tag].len() == rows.len()
                &&& forall|i: int|
                    0 <= i < rows.len() ==> #[trigger] after.tags[tag][i] == s.next_id + i
            }
        }),
        delete_outcome(s, tag).0.next_id == s.next_id,
{
    lemma_fits(rows, s.index.dim);
}

proof fn lemma_live_size(tags: Map<u128, Seq<u64>>, ids: Set<u64>)
    requires
        tags.dom().finite(),
        forall|tag: u128| #[trigger] tags.contains_key(tag) ==> tags[tag].no_duplicates(),
        forall|a: u128, b: u128, id: u64| #[trigger]
            has_chunk(tags, a, id) && #[trigger] has_chunk(tags, b, id) ==> a == b,
        forall|id: u64| #[trigger] ids.contains(id) <==> live(tags, id),
    ensures
        has_size(ids, chunk_total(tags)),
    decreases tags.dom().len(),
{
    if tags.dom().is_empty() {
        assert forall|id: u64| !ids.contains(id) by {
            if live(tags, id) {
                let t = choose|t: u128| has_chunk(tags, t, id);
                assert(tags.dom().contains(t));
            }
        }
        assert(ids =~= Set::empty());
    } else {
        let tag = tags.dom().choose();
        let rest = tags.remove(tag);
        let own = tags[tag].to_set();
        let others = ids.difference(own);
        tags[tag].unique_seq_to_set();
        assert forall|t: u128, id: u64| #[trigger] has_chunk(rest, t, id) implies has_chunk(
            tags,
            t,
            id,
        ) by {}
        assert forall|id: u64| #[trigger] others.contains(id) <==> live(rest, id) by {
            if others.contains(id) {
                let t = choose|t: u128| has_chunk(tags, t, id);
                assert(has_chunk(rest, t, id));
            }
            if live(rest, id) {
                let t = choose|t: u128| has_chunk(rest, t, id);
                assert(has_chunk(tags, t, id));
                if own.contains(id) {
                    assert(has_chunk(tags, tag, id));
                }
            }
        }
        assert forall|t: u128| #[trigger] rest.contains_key(t) implies rest[t].no_duplicates() by {
            assert(tags.contains_key(t));
        }
        lemma_live_size(rest, others);
        assert forall|id: u64| own.contains(id) implies ids.contains(id) by {
            assert(has_chunk(tags, tag, id));
        }
        assert(ids =~= others + own);
        vstd::set_lib::lemma_set_disjoint_lens(others, own);
    }
}

/// The index of a store holds the chunks of its tags: it does not have to be built anew.
pub proof fn law_sound_store_consistent(s: StoreState)
    requires
        sound(s),
    ensures
        consistent(s),
        !needs_rebuild(s),
{
    assert forall|id: u64| #[trigger] s.index.vectors.dom().contains(id) <==> live(s.tags, id) by {
        if live(s.tags, id) {
            let t = choose|t: u128| has_chunk(s.tags, t, id);
            assert(has_chunk(s.tags, t, id));
        }
    }
    lemma_live_size(s.tags, s.index.vectors.dom());
    assert(s.index.vectors.dom() =~= chunk_ids(s.tags));
}

/// There are at least as many chunks as tags.
pub proof fn law_no_fewer_chunks_than_tags(s: StoreState)
    requires
        sound(s),
    ensures
        s.tags.dom().len() <= s.index.vectors.dom().len(),
{
    law_sound_store_consistent(s);
    lemma_chunk_per_tag(s.tags);
}

proof fn lemma_chunk_per_tag(tags: Map<u128, Seq<u64>>)
    requires
        tags.dom().finite(),
        forall|tag: u128| #[trigger] tags.contains_key(tag) ==> tags[tag].len() > 0,
    ensures
        tags.dom().len() <= chunk_total(tags),
    decreases tags.dom().len(),
{
    if !tags.dom().is_empty() {
        let tag = tags.dom().choose();
        assert(tags.contains_key(tag));
        let rest = tags.remove(tag);
        assert forall|t: u128| #[trigger] rest.contains_key(t) implies rest[t].len() > 0 by {
            assert(tags.contains_key(t));
        }
        lemma_chunk_per_tag(rest);
    }
}

/// A store that was saved is loaded again: with its tags, its chunk ids and an index
/// that answers as it did, and without building the index anew. Nothing can go wrong
/// on the way. The exact vectors come back where they were kept.
pub proof fn law_saved_store_loads(
    config: Config,
    s: StoreState,
    tags: Seq<u8>,
    index: Seq<u8>,
    read: StoreState,
    rebuilt: bool,
)
    requires
        sound(s),
        saved_as(s, tags, index),
    ensures
        open_fault(config, Some(tags), Some(index)) is None,
        forall|f: StoreFault| !load_fails(config, Some(tags), Some(index), f),
        loaded(config, Some(tags), Some(index), read, rebuilt) ==> {
            &&& !rebuilt
            &&& read.tags == s.tags
            &&& read.next_id == s.next_id
            &&& same_index(s.index, read.index)
            &&& s.keep_raw ==> read.raw == s.raw
            &&& !s.keep_raw ==> read.raw.dom().is_empty()
            &&& read.keep_raw == config.store_raw_vectors
            &&& sound(read)
            &&& s.keep_raw && exact(s) ==> exact(read)
        },
{
    law_sound_store_consistent(s);
    assert forall|t: StoreState| #[trigger]
        opened(config, Some(tags), Some(index), t) implies !needs_rebuild(t) && t.tags == s.tags
        && same_index(s.index, t.index) by {
        assert(is_image(s.index, index));
    }
    if loaded(config, Some(tags), Some(index), read, rebuilt) {
        if !rebuilt {
            assert(opened(config, Some(tags), Some(index), read));
            assert forall|id: u64|
                read.index.vectors.contains_key(id) == s.index.vectors.contains_key(id) by {
                assert(read.index.vectors.dom().contains(id) == s.index.vectors.dom().contains(id));
            }
        }
    }
}

/// The exact vectors are those that the codes in the index were made of, all of the right
/// length and in range.
pub open spec fn exact(s: StoreState) -> bool {
    &&& s.raw.dom() == s.index.vectors.dom()
    &&& s.index.codes == coded(s.raw, s.index.bits, s.index.calibration)
    &&& s.index.calibration.len() == 0
    &&& forall|id: u64| #[trigger]
        s.raw.contains_key(id) ==> s.raw[id].len() == s.index.dim && are_coords(s.raw[id])
}

/// An index that was given these vectors.
pub open spec fn index_of(vectors: Map<u64, Seq<u32>>, dim: usize, bits: usize) -> IndexState {
    IndexState {
        vectors,
        codes: coded(vectors, bits, Seq::empty()),
        dim,
        bits,
        calibration: Seq::empty(),
    }
}

proof fn lemma_rebuilt(s: StoreState, bits: usize, order: Seq<u64>)
    requires
        index_params(s.index.dim, bits),
        s.raw.dom().is_empty() ==> s.tags.dom().is_empty(),
        forall|id: u64| #[trigger]
            s.raw.contains_key(id) ==> s.raw[id].len() == s.index.dim && are_coords(s.raw[id]),
        enumerates(order, s.raw.dom()),
    ensures
        rebuild_outcome(s, bits, order) == Ok::<_, StoreFault>(
            StoreState { index: index_of(s.raw, s.index.dim, bits), ..s },
        ),
{
    let want = index_of(s.raw, s.index.dim, bits);
    if order.len() == 0 {
        assert forall|id: u64| !s.raw.contains_key(id) by {
            assert(order.to_set().contains(id) == s.raw.dom().contains(id));
        }
        assert(s.raw =~= Map::empty());
        assert(new_index(s.index.dim, bits) =~= want);
    } else {
        let rows = raw_rows(s.raw, order);
        let flat = laid_out(rows);
        assert forall|i: int| 0 <= i < order.len() implies s.raw.contains_key(
            #[trigger] order[i],
        ) by {
            assert(order.to_set().contains(order[i]));
        }
        assert forall|i: int| 0 <= i < rows.len() implies (#[trigger] rows[i]).len() == s.index.dim
            && are_coords(rows[i]) by {
            assert(rows[i] == s.raw[order[i]]);
        }
        lemma_laid_out(rows, s.index.dim as nat);
        lemma_coords(rows, s.index.dim as nat);
        assert(flat.len() > 0) by (nonlinear_arith)
            requires
                flat.len() == rows.len() * s.index.dim,
                rows.len() > 0,
                s.index.dim > 0,
        ;
        assert(flat.len() % (s.index.dim as nat) == 0) by {
            vstd::arithmetic::div_mod::lemma_mod_multiples_basic(
                rows.len() as int,
                s.index.dim as int,
            );
        }
        let new = rows_by_id(flat, s.index.dim as nat, order);
        assert forall|id: u64| #[trigger] new.contains_key(id) implies new[id] == s.raw[id] by {
            let i = order.index_of(id);
            assert(order[i] == id);
            assert(row(flat, s.index.dim as nat, i) == rows[i]);
        }
        assert forall|id: u64| new.contains_key(id) == s.raw.contains_key(id) by {
            assert(order.to_set().contains(id) == s.raw.dom().contains(id));
        }
        assert(new =~= s.raw);
        assert(add_outcome(new_index(s.index.dim, bits), flat, order)->Ok_0 =~= want);
        assert(s.raw.dom().contains(order[0]));
    }
}

/// Building the index anew from the exact vectors gives an index that holds them,
/// quantised to the bits that are asked for, in whichever order they are taken. At the
/// bits that the index had it is the same index again.
pub proof fn law_rebuild_restores(s: StoreState, bits: usize, order: Seq<u64>)
    requires
        sound(s),
        exact(s),
        index_params(s.index.dim, bits),
        enumerates(order, s.raw.dom()),
    ensures
        rebuild_outcome(s, bits, order) == Ok::<_, StoreFault>(
            StoreState { index: index_of(s.raw, s.index.dim, bits), ..s },
        ),
        bits == s.index.bits ==> same_index(s.index, index_of(s.raw, s.index.dim, bits)),
{
    lemma_some_chunk(s);
    lemma_rebuilt(s, bits, order);
    assert(s.index.calibration =~= Seq::<u8>::empty());
}

/// A store without vectors has no tags.
proof fn lemma_some_chunk(s: StoreState)
    requires
        sound(s),
    ensures
        s.index.vectors.dom().is_empty() ==> s.tags.dom().is_empty(),
{
    if !s.tags.dom().is_empty() {
        let tag = s.tags.dom().choose();
        assert(s.tags.contains_key(tag));
        assert(has_chunk(s.tags, tag, s.tags[tag][0]));
        assert(s.index.vectors.dom().contains(s.tags[tag][0]));
    }
}

/// What a damaged store is recovered to: what it was, with an index of the configured bit
/// width and the configured way of keeping the exact vectors.
pub open spec fn recovered(s: StoreState, config: Config) -> StoreState {
    StoreState {
        index: index_of(s.raw, s.index.dim, config.bit_width),
        keep_raw: config.store_raw_vectors,
        ..s
    }
}

/// A recovered store has the tags, the chunk ids and the exact vectors that it had, and
/// keeps the invariant. Where the configured bit width is the one that the index had, it
/// has the same index: it may answer every query as before.
pub proof fn law_recovered_store_whole(s: StoreState, config: Config)
    requires
        sound(s),
        exact(s),
    ensures
        sound(recovered(s, config)),
        exact(recovered(s, config)),
        recovered(s, config).index.bits == config.bit_width,
        config.bit_width == s.index.bits ==> same_index(s.index, recovered(s, config).index),
{
    let t = recovered(s, config);
    assert(s.index.calibration =~= Seq::<u8>::empty());
    assert forall|id: u64| t.index.vectors.contains_key(id) == s.index.vectors.contains_key(id) by {
        assert(s.raw.dom().contains(id) == s.index.vectors.dom().contains(id));
    }
}

proof fn lemma_recovered(
    config: Config,
    s: StoreState,
    tags: Seq<u8>,
    image: Seq<u8>,
    found: Option<Seq<u8>>,
)
    requires
        sound(s),
        exact(s),
        s.keep_raw,
        saved_as(s, tags, image),
        index_params(s.index.dim, config.bit_width),
        forall|t: StoreState| #[trigger]
            opened(config, Some(tags), found, t) ==> t.index.dim == s.index.dim && needs_rebuild(t),
    ensures
        forall|f: StoreFault| !load_fails(config, Some(tags), found, f),
        forall|read: StoreState, rebuilt: bool| #[trigger]
            loaded(config, Some(tags), found, read, rebuilt) ==> rebuilt && read == recovered(
                s,
                config,
            ),
{
    lemma_some_chunk(s);
    assert forall|t: StoreState, order: Seq<u64>|
        opened(config, Some(tags), found, t) && enumerates(order, t.raw.dom()) implies #[trigger]
    rebuild_outcome(t, config.bit_width, order) == Ok::<_, StoreFault>(recovered(s, config)) by {
        assert(t.raw == s.raw && t.tags == s.tags && t.next_id == s.next_id);
        lemma_rebuilt(t, config.bit_width, order);
    }
}

/// A saved store whose index image is lost or damaged is recovered from the tags file. The
/// index is built anew unless it was empty.
pub proof fn law_lost_index_recovered(
    config: Config,
    s: StoreState,
    tags: Seq<u8>,
    image: Seq<u8>,
    found: Option<Seq<u8>>,
    read: StoreState,
    rebuilt: bool,
)
    requires
        sound(s),
        exact(s),
        s.keep_raw,
        saved_as(s, tags, image),
        !usable(found),
        config.dim == s.index.dim,
        index_params(config.dim, config.bit_width),
    ensures
        open_fault(config, Some(tags), found) is None,
        forall|f: StoreFault| !load_fails(config, Some(tags), found, f),
        loaded(config, Some(tags), found, read, rebuilt) ==> {
            &&& read == recovered(s, config)
            &&& rebuilt == !s.index.vectors.dom().is_empty()
        },
{
    law_sound_store_consistent(s);
    let whole = recovered(s, config);
    let bare = StoreState { index: new_index(config.dim, config.bit_width), ..whole };
    assert forall|t: StoreState| #[trigger] opened(config, Some(tags), found, t) implies t
        == bare by {}
    assert(!needs_rebuild(bare) <==> s.index.vectors.dom().is_empty()) by {
        assert(s.index.vectors.dom().len() == chunk_total(s.tags));
        assert(bare.index.vectors.dom() =~= Set::<u64>::empty());
        if s.index.vectors.dom().is_empty() {
            assert(s.index.vectors.dom() =~= Set::<u64>::empty());
        }
    }
    if s.index.vectors.dom().is_empty() {
        assert(s.raw =~= Map::empty()) by {
            assert forall|id: u64| !s.raw.contains_key(id) by {
                assert(!s.raw.dom().contains(id));
            }
        }
        assert(bare.index =~= whole.index);
        assert(bare == whole);
    } else {
        lemma_recovered(config, s, tags, image, found);
    }
}

/// A saved store beside which the image of another index lies, with other vectors or with
/// more or fewer, is recovered from the tags file: the index is built anew.
pub proof fn law_stale_index_replaced(
    config: Config,
    s: StoreState,
    tags: Seq<u8>,
    image: Seq<u8>,
    stale: IndexState,
    found: Seq<u8>,
    read: StoreState,
    rebuilt: bool,
)
    requires
        sound(s),
        exact(s),
        s.keep_raw,
        saved_as(s, tags, image),
        is_image(stale, found),
        stale.dim == s.index.dim,
        index_params(s.index.dim, config.bit_width),
        stale.vectors.dom() != s.index.vectors.dom(),
    ensures
        open_fault(config, Some(tags), Some(found)) is None,
        forall|f: StoreFault| !load_fails(config, Some(tags), Some(found), f),
        loaded(config, Some(tags), Some(found), read, rebuilt) ==> rebuilt && read == recovered(
            s,
            config,
        ),
{
    law_sound_store_consistent(s);
    assert forall|t: StoreState| #[trigger]
        opened(config, Some(tags), Some(found), t) implies t.index.dim == s.index.dim
        && needs_rebuild(t) by {
        assert(is_image(stale, found));
        assert(t.index.vectors.dom() == stale.vectors.dom());
    }
    lemma_recovered(config, s, tags, image, Some(found));
}

/// Writes keep the exact vectors and the index in step, whether they succeed or not.
pub proof fn law_writes_keep_exact(s: StoreState, tag: u128, rows: Seq<Seq<u32>>)
    requires
        sound(s),
        exact(s),
        s.next_id + rows.len() <= u64::MAX,
    ensures
        exact(upsert_outcome(s, tag, rows).0),
        exact(delete_outcome(s, tag).0),
{
    law_upsert_succeeds(s, tag, rows);
    lemma_dropped(s, tag);
    let base = dropped(s, tag);
    assert(base.raw.dom() =~= base.index.vectors.dom());
    assert(base.index.codes =~= coded(base.raw, base.index.bits, base.index.calibration));
    assert forall|id: u64| #[trigger] base.raw.contains_key(id) implies base.raw[id].len()
        == base.index.dim && are_coords(base.raw[id]) by {
        assert(s.raw.contains_key(id));
    }
    if storable(rows, s.index.dim) {
        lemma_written(s, tag, rows);
        lemma_fresh(s.next_id, rows.len());
        let after = upsert_outcome(s, tag, rows).0;
        let ids = fresh_ids(s.next_id, rows.len());
        assert forall|id: u64| #[trigger] after.raw.contains_key(id) implies after.raw[id].len()
            == s.index.dim && are_coords(after.raw[id]) by {
            if ids.contains(id) {
                let i = id - s.next_id;
                assert(ids[i] == id);
                assert(after.raw[id] == rows[i]);
            } else {
                assert(base.raw.contains_key(id));
            }
        }
        assert(after.raw.dom() =~= after.index.vectors.dom());
        assert(after.index.codes =~= coded(after.raw, after.index.bits, after.index.calibration));
    }
}

/// `s` can have come of `was` by writes: it has an index of the same kind, and under a
/// chunk id that was already handed out it has the vector that `was` had there, or none.
pub open spec fn follows(was: StoreState, s: StoreState) -> bool {
    &&& was.next_id <= s.next_id
    &&& was.keep_raw == s.keep_raw
    &&& was.index.dim == s.index.dim
    &&& was.index.bits == s.index.bits
    &&& was.index.calibration == s.index.calibration
    &&& forall|id: u64| #[trigger]
        s.raw.contains_key(id) && id < was.next_id ==> was.raw.contains_key(id) && was.raw[id]
            == s.raw[id]
}

/// What a write leaves follows what was there before, whether the write succeeds or not.
pub proof fn law_writes_follow(s: StoreState, tag: u128, rows: Seq<Seq<u32>>)
    requires
        sound(s),
        s.next_id + rows.len() <= u64::MAX,
    ensures
        follows(s, s),
        follows(s, upsert_outcome(s, tag, rows).0),
        follows(s, delete_outcome(s, tag).0),
{
    lemma_fits(rows, s.index.dim);
}

/// What follows a store that follows another follows that other one.
pub proof fn law_follows_all_before(a: StoreState, b: StoreState, c: StoreState)
    requires
        follows(a, b),
        follows(b, c),
    ensures
        follows(a, c),
{
    assert forall|id: u64| #[trigger] c.raw.contains_key(id) && id < a.next_id implies a.raw[id]
        == c.raw[id] && a.raw.contains_key(id) by {
        assert(b.raw.contains_key(id));
    }
}

/// Stores that follow one another and have the same chunks have the same index: no chunk id
/// stands for two vectors.
proof fn lemma_same_chunks(was: StoreState, s: StoreState)
    requires
        sound(was),
        exact(was),
        exact(s),
        follows(was, s),
        was.index.vectors.dom() == s.index.vectors.dom(),
    ensures
        same_index(was.index, s.index),
{
    assert(was.raw =~= s.raw) by {
        assert forall|id: u64| was.raw.contains_key(id) == s.raw.contains_key(id) by {
            assert(was.raw.dom().contains(id) == s.raw.dom().contains(id));
        }
    }
}

/// A crash loses the last write at most. The tags file is replaced first and the image of
/// the index after it, so a crash leaves both old files, the new tags file beside the old
/// image, or both new ones. Each of these is loaded: as the store before the last writes, or
/// as the one after them, with the index that belongs to it.
pub proof fn law_interrupted_save_recovered(
    config: Config,
    was: StoreState,
    s: StoreState,
    old_files: (Seq<u8>, Seq<u8>),
    new_files: (Seq<u8>, Seq<u8>),
    found: (Seq<u8>, Seq<u8>),
    read: StoreState,
    rebuilt: bool,
)
    requires
        sound(was),
        exact(was),
        sound(s),
        exact(s),
        follows(was, s),
        s.keep_raw,
        saved_as(was, old_files.0, old_files.1),
        saved_as(s, new_files.0, new_files.1),
        found == old_files || found == (new_files.0, old_files.1) || found == new_files,
        index_params(s.index.dim, config.bit_width),
    ensures
        open_fault(config, Some(found.0), Some(found.1)) is None,
        forall|f: StoreFault| !load_fails(config, Some(found.0), Some(found.1), f),
        loaded(config, Some(found.0), Some(found.1), read, rebuilt) ==> {
            let kept = if found.0 == new_files.0 {
                s
            } else {
                was
            };
            &&& read.tags == kept.tags
            &&& read.next_id == kept.next_id
            &&& read.raw == kept.raw
            &&& sound(read)
            &&& exact(read)
            &&& if rebuilt {
                read == recovered(s, config)
            } else {
                same_index(kept.index, read.index)
            }
        },
{
    if found == new_files {
        law_saved_store_loads(config, s, found.0, found.1, read, rebuilt);
    } else if found == old_files {
        law_saved_store_loads(config, was, found.0, found.1, read, rebuilt);
        assert(found.0 == new_files.0 ==> was.tags == s.tags);
        if found.0 == new_files.0 {
            law_sound_store_consistent(was);
            law_sound_store_consistent(s);
            lemma_same_chunks(was, s);
        }
    } else if was.index.vectors.dom() == s.index.vectors.dom() {
        lemma_same_chunks(was, s);
        assert(saved_as(s, found.0, found.1));
        law_saved_store_loads(config, s, found.0, found.1, read, rebuilt);
    } else {
        law_stale_index_replaced(
            config,
            s,
            new_files.0,
            new_files.1,
            was.index,
            found.1,
            read,
            rebuilt,
        );
        law_recovered_store_whole(s, config);
    }
}

/// In a snapshot each chunk in the index has the one tag that it belongs to as its
/// owner, and nothing else has an owner.
pub proof fn law_owners_exact(s: StoreState, owner: Map<u64, u128>, tag: u128, id: u64)
    requires
        sound(s),
        owners_of(s.tags, owner),
    ensures
        owner.dom() == s.index.vectors.dom(),
        has_chunk(s.tags, tag, id) <==> owner.contains_key(id) && owner[id] == tag,
{
    assert forall|x: u64| owner.contains_key(x) == s.index.vectors.contains_key(x) by {
        if s.index.vectors.contains_key(x) {
            let t = choose|t: u128| has_chunk(s.tags, t, x);
            assert(has_chunk(s.tags, t, x));
        }
        if owner.contains_key(x) {
            assert(has_chunk(s.tags, owner[x], x));
        }
    }
    assert(owner.dom() =~= s.index.vectors.dom());
    if owner.contains_key(id) {
        assert(has_chunk(s.tags, owner[id], id));
    }
}

/// A snapshot is complete: the chunks of each tag are in its index, and each chunk in its
/// index has the tag that it belongs to as its owner.
pub proof fn law_snapshot_complete(snap: IndexSnapshot, s: StoreState, tag: u128, id: u64)
    requires
        sound(s),
        shows(snap, s),
    ensures
        has_chunk(s.tags, tag, id) ==> snap.index@.vectors.contains_key(id),
        snap.index@.vectors.contains_key(id) ==> {
            &&& snap.chunk_owner@.contains_key(id)
            &&& has_chunk(s.tags, snap.chunk_owner@[id], id)
        },
        snap.chunk_owner@.dom() == snap.index@.vectors.dom(),
        has_chunk(s.tags, tag, id) ==> snap.chunk_owner@[id] == tag,
        snap.next_id == s.next_id,
        snap.tag_to_ids@.dom() == s.tags.dom(),
        snap.tag_to_ids@.contains_key(tag) ==> snap.tag_to_ids@[tag]@ == s.tags[tag],
        snap.index@.vectors.contains_key(id) <==> s.index.vectors.contains_key(id),
        snap.index@.dim == s.index.dim && snap.index@.bits == s.index.bits,
{
    assert(lists(snap.tag_to_ids@).dom() =~= snap.tag_to_ids@.dom());
    assert(snap.index@.vectors.dom().contains(id) == s.index.vectors.dom().contains(id));
    law_owners_exact(s, snap.chunk_owner@, tag, id);
    if snap.index@.vectors.contains_key(id) {
        assert(snap.index@.vectors.dom().contains(id));
        assert(snap.chunk_owner@.dom().contains(id));
    }
    if has_chunk(s.tags, tag, id) {
        assert(s.index.vectors.dom().contains(id));
        assert(snap.index@.vectors.dom().contains(id));
    }
}

/// Without a tags file the store is empty, whatever else lies there: no tag, no chunk, the first
/// chunk id still to hand out, an index of the configured kind, and nothing is built anew.
pub proof fn law_no_tags_file_empty_store(
    config: Config,
    index: Option<Seq<u8>>,
    read: StoreState,
    rebuilt: bool,
)
    requires
        loaded(config, None, index, read, rebuilt),
    ensures
        read.tags.dom().is_empty(),
        read.raw.dom().is_empty(),
        read.index.vectors.dom().is_empty(),
        read.next_id == 0,
        read.index.dim == config.dim,
        read.index.bits == config.bit_width,
        read.index.calibration.len() == 0,
        read.keep_raw == config.store_raw_vectors,
        !rebuilt,
{
    law_empty_store_sound(config);
    law_sound_store_consistent(empty_state(config));
}

/// Filing vectors succeeds exactly where there is at least one and each has as many coordinates
/// as the index takes, all of them numbers below ten to the sixteenth; the first vector of
/// another length is complained about with both lengths.
pub proof fn law_what_can_be_filed(
    s: StoreState,
    tag: u128,
    rows: Seq<Seq<u32>>,
    i: int,
    d: int,
)
    requires
        sound(s),
        s.next_id + rows.len() <= u64::MAX,
        s.index.dim > 0,
    ensures
        rows.len() == 0 ==> upsert_outcome(s, tag, rows).1 is Err,
        0 <= i < rows.len() && rows[i].len() != s.index.dim ==> upsert_outcome(s, tag, rows).1
            is Err,
        0 <= i < rows.len() && rows[i].len() != s.index.dim && (forall|k: int|
            0 <= k < i ==> (#[trigger] rows[k]).len() == s.index.dim) ==> upsert_outcome(
            s,
            tag,
            rows,
        ).1 == Err::<nat, _>(
            StoreFault::Io(
                "向量维度 "@ + decimal(rows[i].len()) + "(实际) != "@ + decimal(s.index.dim as nat)
                    + "(期望)"@,
            ),
        ),
        0 <= i < rows.len() && 0 <= d < rows[i].len() && (0x5a0e_1bca <= rows[i][d] < 0x8000_0000
            || 0xda0e_1bca <= rows[i][d]) ==> upsert_outcome(s, tag, rows).1 is Err,
        rows.len() > 0 && (forall|k: int|
            0 <= k < rows.len() ==> (#[trigger] rows[k]).len() == s.index.dim && forall|c: int|
                0 <= c < rows[k].len() ==> (#[trigger] rows[k][c]) < 0x5a0e_1bca || 0x8000_0000
                    <= rows[k][c] < 0xda0e_1bca) ==> upsert_outcome(s, tag, rows).1 == Ok::<
            _,
            StoreFault,
        >(rows.len()),
{
    law_upsert_succeeds(s, tag, rows);
    if 0 <= i < rows.len() && 0 <= d < rows[i].len() && (0x5a0e_1bca <= rows[i][d] < 0x8000_0000
        || 0xda0e_1bca <= rows[i][d]) {
        assert(!is_coord(rows[i][d]));
        assert(!are_coords(rows[i]));
    }
    if 0 <= i < rows.len() && rows[i].len() != s.index.dim && (forall|k: int|
        0 <= k < i ==> (#[trigger] rows[k]).len() == s.index.dim) {
        lemma_first_misfit(rows, s.index.dim, i);
    }
    if rows.len() > 0 && (forall|k: int|
        0 <= k < rows.len() ==> (#[trigger] rows[k]).len() == s.index.dim && forall|c: int|
            0 <= c < rows[k].len() ==> (#[trigger] rows[k][c]) < 0x5a0e_1bca || 0x8000_0000
                <= rows[k][c] < 0xda0e_1bca) {
        assert forall|k: int| 0 <= k < rows.len() implies are_coords(#[trigger] rows[k]) by {
            assert forall|c: int| 0 <= c < rows[k].len() implies is_coord(
                #[trigger] rows[k][c],
            ) by {}
        }
    }
}

proof fn lemma_first_misfit(rows: Seq<Seq<u32>>, dim: usize, i: int)
    requires
        0 <= i < rows.len(),
        rows[i].len() != dim,
        forall|k: int| 0 <= k < i ==> (#[trigger] rows[k]).len() == dim,
    ensures
        fitting(rows, dim) == i,
    decreases i,
{
    if i > 0 {
        let rest = rows.drop_first();
        assert(rows[0].len() == dim);
        assert forall|k: int| 0 <= k < i - 1 implies (#[trigger] rest[k]).len() == dim by {
            assert(rest[k] == rows[k + 1]);
        }
        lemma_first_misfit(rest, dim, i - 1);
    }
}

/// Deleting a tag that is there takes it out, with its chunks, and nothing else; one that is not
/// there is named in the error, and the store stays as it is.
pub proof fn law_delete_touches_one_tag(s: StoreState, tag: u128, other: u128, id: u64)
    requires
        sound(s),
    ensures
        ({
            let (after, r) = delete_outcome(s, tag);
            &&& r is Ok <==> s.tags.contains_key(tag)
            &&& !s.tags.contains_key(tag) ==> after == s && r == Err::<(), _>(
                StoreFault::TagNotFound(tag),
            )
            &&& !after.tags.contains_key(tag)
            &&& other != tag ==> after.tags.contains_key(other) == s.tags.contains_key(other)
            &&& other != tag && s.tags.contains_key(other) ==> after.tags[other] == s.tags[other]
            &&& after.index.vectors.contains_key(id) <==> s.index.vectors.contains_key(id)
                && !has_chunk(s.tags, tag, id)
            &&& after.raw.contains_key(id) <==> s.raw.contains_key(id) && !has_chunk(
                s.tags,
                tag,
                id,
            )
            &&& after.next_id == s.next_id
        }),
{
    if s.tags.contains_key(tag) {
        assert(s.tags[tag].to_set().contains(id) == s.tags[tag].contains(id));
    }
}

/// The texts of the errors.
pub proof fn law_store_error_texts(m: Seq<char>, tag: u128)
    ensures
        StoreFault::Serialize(m).message() == "序列化失败: "@ + m,
        StoreFault::Deserialize(m).message() == "反序列化失败: "@ + m,
        StoreFault::Io(m).message() == "IO 错误: "@ + m,
        StoreFault::TagNotFound(tag).message() == "tag 不存在: "@ + tag_text(tag),
{
}

/// A tags file that cannot be read is an error, with the reason, whatever else lies there: it is
/// never taken for an empty store.
pub proof fn law_unreadable_tags_refused(
    config: Config,
    tags: Seq<u8>,
    index: Option<Seq<u8>>,
    reason: Seq<char>,
    read: StoreState,
    rebuilt: bool,
)
    requires
        tags_decoded(tags) == Err::<(Map<u128, Seq<u64>>, u64, Map<u64, Seq<u32>>), _>(reason),
    ensures
        open_fault(config, Some(tags), index) == Some(StoreFault::Deserialize(reason)),
        !loaded(config, Some(tags), index, read, rebuilt),
{
}

/// A saved store without exact vectors whose index image is lost cannot be recovered: that is an
/// error, and no store with fewer chunks is made of it.
pub proof fn law_lost_index_without_vectors(
    config: Config,
    s: StoreState,
    tags: Seq<u8>,
    image: Seq<u8>,
    found: Option<Seq<u8>>,
    read: StoreState,
    rebuilt: bool,
)
    requires
        sound(s),
        !s.keep_raw,
        !s.tags.dom().is_empty(),
        saved_as(s, tags, image),
        !usable(found),
        index_params(config.dim, config.bit_width),
    ensures
        open_fault(config, Some(tags), found) is None,
        load_fails(
            config,
            Some(tags),
            found,
            StoreFault::Io("原始向量未持久化，无法重建索引（需 Agent 重推全文）"@),
        ),
        !loaded(config, Some(tags), found, read, rebuilt),
{
    law_sound_store_consistent(s);
    lemma_some_chunk(s);
    let bare = StoreState {
        index: new_index(config.dim, config.bit_width),
        tags: s.tags,
        next_id: s.next_id,
        raw: Map::empty(),
        keep_raw: config.store_raw_vectors,
    };
    assert(opened(config, Some(tags), found, bare));
    assert forall|t: StoreState| #[trigger] opened(config, Some(tags), found, t) implies t
        == bare by {}
    assert(bare.index.vectors.dom() =~= Set::<u64>::empty());
    assert(s.index.vectors.dom().len() > 0) by {
        if s.index.vectors.dom().len() == 0 {
            s.index.vectors.dom().lemma_len0_is_empty();
        }
    }
    assert(needs_rebuild(bare));
    assert(bare.raw.dom() =~= Set::<u64>::empty());
    let order = Seq::<u64>::empty();
    assert(order.to_set() =~= bare.raw.dom());
    assert(enumerates(order, bare.raw.dom()));
    assert(rebuild_outcome(bare, config.bit_width, order) is Err);
}

/// Files are read as they are, and vectors filed as they are: neither their bytes, nor a
/// coordinate, nor an entry of a list is changed on the way.
pub proof fn law_contents_unchanged(
    file: Option<Vec<u8>>,
    vectors: Seq<Vec<u32>>,
    m: Map<u128, Vec<u64>>,
    tag: u128,
    i: int,
)
    ensures
        file is Some ==> bytes_of(file) == Some(file->0@),
        file is None ==> bytes_of(file) is None,
        rows_of(vectors).len() == vectors.len(),
        0 <= i < vectors.len() ==> rows_of(vectors)[i] == vectors[i]@,
        lists(m).contains_key(tag) == m.contains_key(tag),
        m.contains_key(tag) ==> lists(m)[tag] == m[tag]@,
{
}

/// Errors keep their texts.
pub proof fn law_store_errors_seen(m: String, e: VectorError, tag: u128)
    ensures
        StoreError::Serialize(m)@ == StoreFault::Serialize(m@),
        StoreError::Deserialize(m)@ == StoreFault::Deserialize(m@),
        StoreError::Io(m)@ == StoreFault::Io(m@),
        StoreError::Vector(e)@ == StoreFault::Vector(e@),
        StoreError::TagNotFound(tag)@ == StoreFault::TagNotFound(tag),
        VectorError::Construct(m)@ == VectorFault::Construct(m@),
        VectorError::Add(m)@ == VectorFault::Add(m@),
        VectorError::Io(m)@ == VectorFault::Io(m@),
        VectorError::Empty@ == VectorFault::Empty,
{
}

} // verus!
