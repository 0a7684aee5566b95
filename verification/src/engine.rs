//! The admission protocol and conversion pipeline, as decisions over plain
//! values.
//!
//! Decoding, hashing and re-encoding of images happen outside the library;
//! they hand in, per candidate, the computed hash (or nothing, when the image
//! could not be decoded) and whether re-encoding produced output bytes. The
//! engine decides admission, keeps the store, and yields the log lines to
//! append — all of it atomic per item with respect to the store.

use crate::codec::{encode_b64, lemma_reload_exact, loaded_hashes};
use crate::phash::{hamming, lemma_hamming_self, lemma_hamming_sym, HashVal};
use crate::store::{is_duplicate, lemma_duplicate_prefix, HashStore};
use vstd::prelude::*;

verus! {

/// What processing one candidate came to.
#[derive(Clone, Copy, Debug, PartialEq, Eq, Structural)]
pub enum ItemOutcome {
    /// The image was judged new, re-encoded, and its hash recorded.
    Admitted,
    /// A near-duplicate was already stored; no side effects.
    Rejected,
    /// The image could not be decoded, or re-encoding failed; no side
    /// effects.
    Failed,
}

/// One candidate image, reduced to what the decision needs: its perceptual
/// hash, if the image decoded at all, and whether re-encoding it succeeds.
pub struct ItemInput {
    pub hash: Option<HashVal>,
    pub encode_ok: bool,
}

/// Whether processing this item against the given store contents admits it.
pub open spec fn item_admits(entries: Seq<Seq<u8>>, it: ItemInput, t: u32) -> bool {
    &&& it.hash is Some
    &&& !is_duplicate(it.hash.unwrap()@, entries, t)
    &&& it.encode_ok
}

/// The store contents after processing one item.
pub open spec fn step_store(entries: Seq<Seq<u8>>, it: ItemInput, t: u32) -> Seq<Seq<u8>> {
    if item_admits(entries, it, t) {
        entries.push(it.hash.unwrap()@)
    } else {
        entries
    }
}

/// The reported outcome of processing one item.
pub open spec fn step_outcome(entries: Seq<Seq<u8>>, it: ItemInput, t: u32) -> ItemOutcome {
    if it.hash is None {
        ItemOutcome::Failed
    } else if is_duplicate(it.hash.unwrap()@, entries, t) {
        ItemOutcome::Rejected
    } else if !it.encode_ok {
        ItemOutcome::Failed
    } else {
        ItemOutcome::Admitted
    }
}

/// The store contents after a whole run, items processed in order.
pub open spec fn run_store(entries: Seq<Seq<u8>>, items: Seq<ItemInput>, t: u32) -> Seq<Seq<u8>>
    decreases items.len(),
{
    if items.len() == 0 {
        entries
    } else {
        step_store(run_store(entries, items.drop_last(), t), items.last(), t)
    }
}

/// The outcome reported for each item of a run, in order.
pub open spec fn run_outcomes(entries: Seq<Seq<u8>>, items: Seq<ItemInput>, t: u32) -> Seq<
    ItemOutcome,
>
    decreases items.len(),
{
    if items.len() == 0 {
        Seq::<ItemOutcome>::empty()
    } else {
        run_outcomes(entries, items.drop_last(), t).push(
            step_outcome(run_store(entries, items.drop_last(), t), items.last(), t),
        )
    }
}

/// The lines a run appends to the log file: one per admitted item, in order.
pub open spec fn run_lines(entries: Seq<Seq<u8>>, items: Seq<ItemInput>, t: u32) -> Seq<Seq<u8>>
    decreases items.len(),
{
    if items.len() == 0 {
        Seq::<Seq<u8>>::empty()
    } else {
        let pre = run_lines(entries, items.drop_last(), t);
        if item_admits(run_store(entries, items.drop_last(), t), items.last(), t) {
            pre.push(encode_b64(items.last().hash.unwrap()@))
        } else {
            pre
        }
    }
}

/// The hashes admitted during a run, in admission order.
pub open spec fn run_admitted(entries: Seq<Seq<u8>>, items: Seq<ItemInput>, t: u32) -> Seq<Seq<u8>>
    decreases items.len(),
{
    if items.len() == 0 {
        Seq::<Seq<u8>>::empty()
    } else {
        let pre = run_admitted(entries, items.drop_last(), t);
        if item_admits(run_store(entries, items.drop_last(), t), items.last(), t) {
            pre.push(items.last().hash.unwrap()@)
        } else {
            pre
        }
    }
}

/// Process one decoded candidate: scan the store and, only if the candidate
/// is new and its re-encoding succeeded, record its hash and hand back the
/// log line to append. All-or-nothing per item: on a duplicate or on an
/// encode failure the store is untouched and no line is produced.
pub fn process_item(store: &mut HashStore, h: &HashVal, t: u32, encode_ok: bool) -> (r: (
    ItemOutcome,
    Option<Vec<u8>>,
))
    requires
        old(store).wf(),
        h@.len() > 0,
    ensures
        final(store).wf(),
        is_duplicate(h@, old(store)@, t) ==> r.0 == ItemOutcome::Rejected && r.1 is None
            && final(store)@ == old(store)@,
        !is_duplicate(h@, old(store)@, t) && !encode_ok ==> r.0 == ItemOutcome::Failed && r.1
            is None && final(store)@ == old(store)@,
        !is_duplicate(h@, old(store)@, t) && encode_ok ==> r.0 == ItemOutcome::Admitted
            && final(store)@ == old(store)@.push(h@) && (r.1 matches Some(line) && line@
            == encode_b64(h@)),
{
    if store.scan(h, t) {
        (ItemOutcome::Rejected, None)
    } else if !encode_ok {
        (ItemOutcome::Failed, None)
    } else {
        let line = crate::codec::encode_line(h.bytes());
        store.insert(h.duplicate());
        (ItemOutcome::Admitted, Some(line))
    }
}

/// One whole run of the conversion pipeline over prepared items: the
/// single-threaded admission order. Returns the per-item outcomes and the
/// log lines appended, and leaves the store at the run's final contents.
pub fn run_batch(store: &mut HashStore, items: &Vec<ItemInput>, t: u32) -> (r: (
    Vec<ItemOutcome>,
    Vec<Vec<u8>>,
))
    requires
        old(store).wf(),
        forall|k: int|
            0 <= k < items@.len() && items@[k].hash is Some ==> items@[k].hash.unwrap()@.len() > 0,
    ensures
        final(store).wf(),
        final(store)@ == run_store(old(store)@, items@, t),
        r.0@ == run_outcomes(old(store)@, items@, t),
        r.1@.map_values(|l: Vec<u8>| l@) == run_lines(old(store)@, items@, t),
{
    let ghost entries0 = store@;
    let mut outcomes: Vec<ItemOutcome> = Vec::new();
    let mut lines: Vec<Vec<u8>> = Vec::new();
    let mut i: usize = 0;
    proof {
        assert(items@.take(0) =~= Seq::<ItemInput>::empty());
        assert(lines@.map_values(|l: Vec<u8>| l@) =~= Seq::<Seq<u8>>::empty());
    }
    while i < items.len()
        invariant
            0 <= i <= items@.len(),
            store.wf(),
            forall|k: int|
                0 <= k < items@.len() && items@[k].hash is Some ==> items@[k].hash.unwrap()@.len()
                    > 0,
            store@ == run_store(entries0, items@.take(i as int), t),
            outcomes@ == run_outcomes(entries0, items@.take(i as int), t),
            lines@.map_values(|l: Vec<u8>| l@) == run_lines(entries0, items@.take(i as int), t),
        decreases items@.len() - i,
    {
        proof {
            assert(items@.take(i as int + 1).drop_last() =~= items@.take(i as int));
            assert(items@.take(i as int + 1).last() == items@[i as int]);
        }
        let ghost before = store@;
        let it = &items[i];
        match &it.hash {
            Some(h) => {
                let ghost lines_before = lines@.map_values(|l: Vec<u8>| l@);
                let (oc, maybe_line) = process_item(store, h, t, it.encode_ok);
                outcomes.push(oc);
                match maybe_line {
                    Some(line) => {
                        let ghost lv = line@;
                        lines.push(line);
                        proof {
                            assert(lines@.map_values(|l: Vec<u8>| l@) =~= lines_before.push(lv));
                        }
                    },
                    None => {},
                }
                proof {
                    assert(items@[i as int].hash.unwrap() == *h);
                    assert(oc == step_outcome(before, items@[i as int], t));
                    assert(store@ == step_store(before, items@[i as int], t));
                }
            },
            None => {
                outcomes.push(ItemOutcome::Failed);
                proof {
                    assert(!item_admits(before, items@[i as int], t));
                    assert(step_outcome(before, items@[i as int], t) == ItemOutcome::Failed);
                }
            },
        }
        i = i + 1;
    }
    proof {
        assert(items@.take(items@.len() as int) =~= items@);
    }
    (outcomes, lines)
}

/// The Rebuild Tool's core: the full new contents of the log file, exactly
/// one line per output file's recomputed hash, duplicates among outputs
/// kept.
pub fn rebuild_log_lines(hashes: &Vec<HashVal>) -> (lines: Vec<Vec<u8>>)
    ensures
        lines@.len() == hashes@.len(),
        forall|k: int| 0 <= k < hashes@.len() ==> lines@[k]@ == encode_b64(hashes@[k]@),
{
    let mut lines: Vec<Vec<u8>> = Vec::new();
    let mut i: usize = 0;
    while i < hashes.len()
        invariant
            0 <= i <= hashes@.len(),
            lines@.len() == i,
            forall|k: int| 0 <= k < i ==> lines@[k]@ == encode_b64(hashes@[k]@),
        decreases hashes@.len() - i,
    {
        lines.push(crate::codec::encode_line(hashes[i].bytes()));
        i = i + 1;
    }
    lines
}

/// Dedup invariant: every hash admitted during a run is at Hamming distance
/// at least the threshold from every hash before it — in particular, any two
/// hashes admitted during a single run are at least the threshold apart.
pub proof fn lemma_dedup_invariant(entries: Seq<Seq<u8>>, items: Seq<ItemInput>, t: u32)
    ensures
        ({
            let r = run_store(entries, items, t);
            &&& entries.is_prefix_of(r)
            &&& forall|i: int, j: int|
                #![trigger r[i], r[j]]
                0 <= i < j < r.len() && entries.len() <= j ==> hamming(r[i], r[j]) >= t && hamming(
                    r[j],
                    r[i],
                ) >= t
        }),
    decreases items.len(),
{
    if items.len() == 0 {
    } else {
        lemma_dedup_invariant(entries, items.drop_last(), t);
        let r0 = run_store(entries, items.drop_last(), t);
        let it = items.last();
        let r = run_store(entries, items, t);
        if item_admits(r0, it, t) {
            let h = it.hash.unwrap()@;
            assert(r == r0.push(h));
            assert forall|k: int| 0 <= k < r0.len() implies hamming(h, r0[k]) >= t by {
                if hamming(h, r0[k]) < t {
                    assert(is_duplicate(h, r0, t));
                }
            }
            assert forall|i: int, j: int|
                #![trigger r[i], r[j]]
                0 <= i < j < r.len() && entries.len() <= j implies hamming(r[i], r[j]) >= t
                && hamming(r[j], r[i]) >= t by {
                if j == r.len() - 1 {
                    assert(r[j] == h);
                    assert(r[i] == r0[i]);
                    lemma_hamming_sym(h, r0[i]);
                } else {
                    assert(r[i] == r0[i] && r[j] == r0[j]);
                }
            }
        } else {
            assert(r == r0);
        }
    }
}

/// After a run in which re-encoding succeeded for every item, every item's
/// hash has a near-duplicate in the final store (itself, if it was admitted).
proof fn lemma_all_dup_after(entries: Seq<Seq<u8>>, items: Seq<ItemInput>, t: u32)
    requires
        t >= 1,
        forall|k: int| 0 <= k < items.len() ==> items[k].encode_ok,
    ensures
        ({
            let r = run_store(entries, items, t);
            forall|k: int|
                #![trigger items[k]]
                0 <= k < items.len() && items[k].hash is Some ==> is_duplicate(
                    items[k].hash.unwrap()@,
                    r,
                    t,
                )
        }),
    decreases items.len(),
{
    if items.len() > 0 {
        let pre = items.drop_last();
        assert(forall|k: int| 0 <= k < pre.len() ==> pre[k] == items[k]);
        lemma_all_dup_after(entries, pre, t);
        let r0 = run_store(entries, pre, t);
        let it = items.last();
        let r = run_store(entries, items, t);
        assert(r0.is_prefix_of(r)) by {
            if item_admits(r0, it, t) {
                assert(r == r0.push(it.hash.unwrap()@));
            }
        }
        assert forall|k: int|
            #![trigger items[k]]
            0 <= k < items.len() && items[k].hash is Some implies is_duplicate(
            items[k].hash.unwrap()@,
            r,
            t,
        ) by {
            if k < items.len() - 1 {
                assert(items[k] == pre[k]);
                lemma_duplicate_prefix(items[k].hash.unwrap()@, r0, r, t);
            } else {
                let h = it.hash.unwrap()@;
                if is_duplicate(h, r0, t) {
                    lemma_duplicate_prefix(h, r0, r, t);
                } else {
                    assert(it.encode_ok);
                    assert(item_admits(r0, it, t));
                    assert(r == r0.push(h));
                    lemma_hamming_self(h);
                    assert(r[r.len() - 1] == h);
                    assert(is_duplicate(h, r, t));
                }
            }
        }
    }
}

/// A run over items whose hashes all already have near-duplicates in the
/// store admits nothing and changes nothing.
proof fn lemma_run_stagnant(base: Seq<Seq<u8>>, items: Seq<ItemInput>, t: u32)
    requires
        forall|k: int|
            #![trigger items[k]]
            0 <= k < items.len() && items[k].hash is Some ==> is_duplicate(
                items[k].hash.unwrap()@,
                base,
                t,
            ),
    ensures
        run_store(base, items, t) == base,
        run_outcomes(base, items, t).len() == items.len(),
        forall|k: int|
            0 <= k < items.len() ==> run_outcomes(base, items, t)[k] != ItemOutcome::Admitted,
        run_lines(base, items, t) == Seq::<Seq<u8>>::empty(),
    decreases items.len(),
{
    if items.len() > 0 {
        let pre = items.drop_last();
        assert(forall|k: int| 0 <= k < pre.len() ==> pre[k] == items[k]);
        lemma_run_stagnant(base, pre, t);
        let it = items.last();
        assert(it == items[items.len() - 1]);
        assert(!item_admits(base, it, t));
        assert(run_store(base, items, t) == base);
        let oc = step_outcome(base, it, t);
        assert(oc != ItemOutcome::Admitted);
        assert(run_outcomes(base, items, t) == run_outcomes(base, pre, t).push(oc));
        assert(run_lines(base, items, t) == run_lines(base, pre, t));
    }
}

/// Idempotence: running the engine a second time over the same items,
/// against the store the first run left behind, admits zero items, appends
/// no log line and leaves the store unchanged.
pub proof fn lemma_rerun_admits_nothing(entries: Seq<Seq<u8>>, items: Seq<ItemInput>, t: u32)
    requires
        t >= 1,
        forall|k: int| 0 <= k < items.len() ==> items[k].encode_ok,
    ensures
        ({
            let r1 = run_store(entries, items, t);
            &&& run_store(r1, items, t) == r1
            &&& run_outcomes(r1, items, t).len() == items.len()
            &&& forall|k: int|
                0 <= k < items.len() ==> run_outcomes(r1, items, t)[k] != ItemOutcome::Admitted
            &&& run_lines(r1, items, t) == Seq::<Seq<u8>>::empty()
        }),
{
    let r1 = run_store(entries, items, t);
    lemma_all_dup_after(entries, items, t);
    lemma_run_stagnant(r1, items, t);
}

/// A run's final store is what it started with, followed by exactly the
/// hashes it admitted.
proof fn lemma_run_store_split(entries: Seq<Seq<u8>>, items: Seq<ItemInput>, t: u32)
    ensures
        run_store(entries, items, t) == entries + run_admitted(entries, items, t),
    decreases items.len(),
{
    if items.len() == 0 {
        assert(run_store(entries, items, t) =~= entries + run_admitted(entries, items, t));
    } else {
        lemma_run_store_split(entries, items.drop_last(), t);
        assert(run_store(entries, items, t) =~= entries + run_admitted(entries, items, t));
    }
}

/// The lines a run appends are exactly the encodings of the hashes it
/// admitted, in order.
proof fn lemma_run_lines_encode_admitted(entries: Seq<Seq<u8>>, items: Seq<ItemInput>, t: u32)
    ensures
        run_lines(entries, items, t) == run_admitted(entries, items, t).map_values(
            |b: Seq<u8>| encode_b64(b),
        ),
    decreases items.len(),
{
    if items.len() == 0 {
        assert(run_lines(entries, items, t) =~= run_admitted(entries, items, t).map_values(
            |b: Seq<u8>| encode_b64(b),
        ));
    } else {
        lemma_run_lines_encode_admitted(entries, items.drop_last(), t);
        assert(run_lines(entries, items, t) =~= run_admitted(entries, items, t).map_values(
            |b: Seq<u8>| encode_b64(b),
        ));
    }
}

/// Every hash admitted during a run came from an item, so it is nonempty
/// whenever the items' hashes are.
proof fn lemma_run_admitted_nonempty(entries: Seq<Seq<u8>>, items: Seq<ItemInput>, t: u32)
    requires
        forall|k: int|
            0 <= k < items.len() && items[k].hash is Some ==> items[k].hash.unwrap()@.len() > 0,
    ensures
        forall|k: int|
            0 <= k < run_admitted(entries, items, t).len() ==> run_admitted(
                entries,
                items,
                t,
            )[k].len() > 0,
    decreases items.len(),
{
    if items.len() > 0 {
        let pre = items.drop_last();
        assert(forall|k: int| 0 <= k < pre.len() ==> pre[k] == items[k]);
        lemma_run_admitted_nonempty(entries, pre, t);
        let adm = run_admitted(entries, items, t);
        let padm = run_admitted(entries, pre, t);
        if item_admits(run_store(entries, pre, t), items.last(), t) {
            assert(adm == padm.push(items.last().hash.unwrap()@));
            assert(items.last() == items[items.len() - 1]);
            assert forall|k: int| 0 <= k < adm.len() implies adm[k].len() > 0 by {
                if k < padm.len() {
                    assert(adm[k] == padm[k]);
                } else {
                    assert(adm[k] == items.last().hash.unwrap()@);
                }
            }
        } else {
            assert(adm == padm);
        }
    }
}

/// Loading a log file is line by line: the hashes of two stretches of lines
/// in sequence are the hashes of the one followed by those of the other.
proof fn lemma_loaded_concat(l1: Seq<Seq<u8>>, l2: Seq<Seq<u8>>)
    ensures
        loaded_hashes(l1 + l2) == loaded_hashes(l1) + loaded_hashes(l2),
    decreases l2.len(),
{
    if l2.len() == 0 {
        assert(l1 + l2 =~= l1);
        assert(loaded_hashes(l1) + loaded_hashes(l2) =~= loaded_hashes(l1));
    } else {
        lemma_loaded_concat(l1, l2.drop_last());
        assert((l1 + l2).drop_last() =~= l1 + l2.drop_last());
        assert((l1 + l2).last() == l2.last());
        assert(loaded_hashes(l1 + l2) =~= loaded_hashes(l1) + loaded_hashes(l2));
    }
}

/// The log file remains the durable projection of the store: start from the
/// store some lines load to, run the engine, append the run's lines to those
/// lines, and the log loads to exactly the store the run left behind.
pub proof fn lemma_log_tracks_store(lines: Seq<Seq<u8>>, items: Seq<ItemInput>, t: u32)
    requires
        forall|k: int|
            0 <= k < items.len() && items[k].hash is Some ==> items[k].hash.unwrap()@.len() > 0,
    ensures
        ({
            let entries = loaded_hashes(lines);
            loaded_hashes(lines + run_lines(entries, items, t)) == run_store(entries, items, t)
        }),
{
    let entries = loaded_hashes(lines);
    let admitted = run_admitted(entries, items, t);
    lemma_run_store_split(entries, items, t);
    lemma_run_lines_encode_admitted(entries, items, t);
    lemma_run_admitted_nonempty(entries, items, t);
    lemma_loaded_concat(lines, run_lines(entries, items, t));
    lemma_reload_exact(admitted);
}

} // verus!
