//! The hash store: the in-memory collection of perceptual hashes of all
//! admitted images, with its duplicate scan, its atomic scan-and-admit
//! operation, and its loading from and saving to log-file lines.

use crate::codec::{
    decode_line, encode_b64, encode_line, lemma_decode_nonempty, lemma_reload_exact,
    line_ok, loaded_hashes,
};
use crate::phash::{hamming, within_distance, HashVal};
use vstd::prelude::*;

verus! {

/// Whether the candidate hash `h` is a near-duplicate of some stored hash:
/// within Hamming distance `t` of at least one entry.
pub open spec fn is_duplicate(h: Seq<u8>, entries: Seq<Seq<u8>>, t: u32) -> bool {
    exists|k: int| 0 <= k < entries.len() && hamming(h, entries[k]) < t
}

/// Anything duplicated in a store stays duplicated when the store grows.
pub proof fn lemma_duplicate_prefix(h: Seq<u8>, pre: Seq<Seq<u8>>, entries: Seq<Seq<u8>>, t: u32)
    requires
        pre.is_prefix_of(entries),
        is_duplicate(h, pre, t),
    ensures
        is_duplicate(h, entries, t),
{
    let k: int = choose|k: int| 0 <= k < pre.len() && hamming(h, pre[k]) < t;
    assert(entries[k] == pre[k]);
}

/// The store of perceptual hashes admitted so far. Entries are only ever
/// added, never removed; every entry is a nonempty bit vector.
pub struct HashStore {
    entries: Vec<HashVal>,
}

impl View for HashStore {
    type V = Seq<Seq<u8>>;

    closed spec fn view(&self) -> Seq<Seq<u8>> {
        self.entries@.map_values(|h: HashVal| h@)
    }
}

impl HashStore {
    /// Every stored hash is a nonempty bit vector.
    pub open spec fn wf(&self) -> bool {
        forall|k: int| 0 <= k < self@.len() ==> self@[k].len() > 0
    }

    /// A store that has seen nothing.
    pub fn new() -> (s: HashStore)
        ensures
            s@ == Seq::<Seq<u8>>::empty(),
            s.wf(),
    {
        let s = HashStore { entries: Vec::new() };
        proof {
            assert(s@ =~= Seq::<Seq<u8>>::empty());
        }
        s
    }

    pub fn len(&self) -> (n: usize)
        ensures
            n == self@.len(),
    {
        self.entries.len()
    }

    pub fn hash_at(&self, k: usize) -> (h: &HashVal)
        requires
            k < self@.len(),
        ensures
            h@ == self@[k as int],
    {
        &self.entries[k]
    }

    /// The read-only decision phase: scan every stored hash and report
    /// whether the candidate is within distance `t` of any of them.
    pub fn scan(&self, h: &HashVal, t: u32) -> (dup: bool)
        ensures
            dup == is_duplicate(h@, self@, t),
    {
        let mut k: usize = 0;
        while k < self.entries.len()
            invariant
                0 <= k <= self.entries.len(),
                forall|j: int| 0 <= j < k ==> hamming(h@, self@[j]) >= t,
            decreases self.entries.len() - k,
        {
            if within_distance(h, &self.entries[k], t) {
                proof {
                    assert(0 <= k < self@.len() && hamming(h@, self@[k as int]) < t);
                }
                return true;
            }
            k = k + 1;
        }
        false
    }

    /// Record a hash without any duplicate check; used when loading the log
    /// and when the admission decision has already been taken.
    pub fn insert(&mut self, h: HashVal)
        requires
            old(self).wf(),
            h@.len() > 0,
        ensures
            final(self)@ == old(self)@.push(h@),
            final(self).wf(),
    {
        let ghost hv = h@;
        self.entries.push(h);
        proof {
            assert(self@ =~= old(self)@.push(hv));
        }
    }

    /// The scan-and-insert critical section as one atomic operation: decide
    /// whether the candidate is new and, only then, record it. Run under
    /// mutual exclusion, this cannot admit two near-duplicates.
    pub fn try_admit(&mut self, h: &HashVal, t: u32) -> (admitted: bool)
        requires
            old(self).wf(),
            h@.len() > 0,
        ensures
            admitted == !is_duplicate(h@, old(self)@, t),
            admitted ==> final(self)@ == old(self)@.push(h@),
            !admitted ==> final(self)@ == old(self)@,
            final(self).wf(),
    {
        if self.scan(h, t) {
            false
        } else {
            self.insert(h.duplicate());
            true
        }
    }

    /// Load a store from the lines of the log file. Malformed lines are
    /// skipped individually; well-formed lines load in order, and lines that
    /// came from `to_log_lines` reproduce the saved hashes exactly.
    pub fn load_from_lines(lines: &Vec<Vec<u8>>) -> (s: HashStore)
        ensures
            s@ == loaded_hashes(lines@.map_values(|l: Vec<u8>| l@)),
            s.wf(),
    {
        let ghost lv = lines@.map_values(|l: Vec<u8>| l@);
        let mut s = HashStore::new();
        let mut i: usize = 0;
        proof {
            assert(lv.take(0) =~= Seq::<Seq<u8>>::empty());
        }
        while i < lines.len()
            invariant
                0 <= i <= lines.len(),
                lv == lines@.map_values(|l: Vec<u8>| l@),
                lv.len() == lines@.len(),
                s@ == loaded_hashes(lv.take(i as int)),
                s.wf(),
            decreases lines.len() - i,
        {
            proof {
                assert(lv.take(i as int + 1).drop_last() =~= lv.take(i as int));
                assert(lv.take(i as int + 1).last() == lv[i as int]);
                assert(lv[i as int] == lines@[i as int]@);
            }
            if lines[i].len() > 0 {
                match decode_line(&lines[i]) {
                    Some(v) => {
                        proof {
                            lemma_decode_nonempty(lv[i as int]);
                            assert(line_ok(lv[i as int]));
                        }
                        s.insert(HashVal::from_bytes(v));
                    },
                    None => {
                        proof {
                            assert(!line_ok(lv[i as int]));
                        }
                    },
                }
            } else {
                proof {
                    assert(!line_ok(lv[i as int]));
                }
            }
            i = i + 1;
        }
        proof {
            assert(lv.take(lines@.len() as int) =~= lv);
        }
        s
    }

    /// The log-file contents for this store: one line per stored hash.
    pub fn to_log_lines(&self) -> (lines: Vec<Vec<u8>>)
        ensures
            lines@.len() == self@.len(),
            forall|k: int| 0 <= k < self@.len() ==> lines@[k]@ == encode_b64(self@[k]),
    {
        let mut lines: Vec<Vec<u8>> = Vec::new();
        let mut i: usize = 0;
        while i < self.entries.len()
            invariant
                0 <= i <= self.entries.len(),
                lines@.len() == i,
                forall|k: int| 0 <= k < i ==> lines@[k]@ == encode_b64(self@[k]),
            decreases self.entries.len() - i,
        {
            lines.push(encode_line(self.entries[i].bytes()));
            i = i + 1;
        }
        lines
    }
}

/// Round-trip of persistence: reloading the saved log lines of a store
/// rebuilds exactly its contents, so a fresh store loaded from the log
/// rejects exactly the candidates the saved store rejected.
pub proof fn lemma_log_round_trip(entries: Seq<Seq<u8>>, cand: Seq<u8>, t: u32)
    requires
        forall|k: int| 0 <= k < entries.len() ==> entries[k].len() > 0,
    ensures
        loaded_hashes(entries.map_values(|b: Seq<u8>| encode_b64(b))) == entries,
        is_duplicate(cand, loaded_hashes(entries.map_values(|b: Seq<u8>| encode_b64(b))), t)
            == is_duplicate(cand, entries, t),
{
    lemma_reload_exact(entries);
}

} // verus!
