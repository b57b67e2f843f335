//! The versioned state-storage adapter: a node store, a preimage index and
//! a versioned value store behind the two contracts an external Merkle-tree
//! algorithm requires (node read/write, value read/write-by-version),
//! together with the point-in-time lookup algorithm.
//!
//! All three tables are append-only: an overwrite is a later entry that
//! shadows an earlier one, and a deletion is a later tombstone entry. The
//! value table is kept ordered by composite key, preimage bytes first and
//! version second, so that the seek-for-previous primitive the lookup
//! algorithm rests on is a suffix scan.

use vstd::prelude::*;

use crate::codec::bytes_eq;
use crate::codec::key_le;
use crate::codec::key_lt;
use crate::codec::key_lt_exec;
use crate::codec::lemma_key_asym;
use crate::codec::lemma_key_le_trans;
use crate::codec::lemma_lex_trichotomy;
use crate::codec::lemma_lex_trans;
use crate::codec::lex_lt;
use crate::codec::lex_lt_exec;

verus! {

/// A fixed-size digest of an application-level key.
#[derive(Debug, Clone, PartialEq, Eq)]
pub struct KeyHash(pub [u8; 32]);

impl View for KeyHash {
    type V = Seq<u8>;

    open spec fn view(&self) -> Seq<u8> {
        self.0@
    }
}

/// Errors of the state store.
#[derive(Debug, Clone, Copy, PartialEq, Eq, Structural)]
pub enum StateDbError {
    /// A batch wrote a value for a key hash with no resolvable preimage.
    MissingPreimage,
    /// The seek primitive surfaced an entry beyond the requested version
    /// bound: a structural invariant of the ordering layer was broken.
    InvariantViolation,
}

/// A unit of work: node writes plus versioned value writes, applied
/// together.
pub struct NodeBatch {
    /// (node key, node payload) pairs to persist.
    pub nodes: Vec<(Vec<u8>, Vec<u8>)>,
    /// (version, key hash, value or tombstone) triples to persist.
    pub values: Vec<(u64, KeyHash, Option<Vec<u8>>)>,
}

/// The view of a stored optional byte string.
pub open spec fn opt_bytes_view(o: Option<Vec<u8>>) -> Option<Seq<u8>> {
    match o {
        Some(v) => Some(v@),
        None => None,
    }
}

/// The payload stored under a key in an append-only keyed table: the last
/// matching entry wins.
pub open spec fn nodes_lookup(s: Seq<(Vec<u8>, Vec<u8>)>, k: Seq<u8>) -> Option<Seq<u8>>
    decreases s.len(),
{
    if s.len() == 0 {
        None
    } else if s.last().0@ == k {
        Some(s.last().1@)
    } else {
        nodes_lookup(s.drop_last(), k)
    }
}

/// The preimage stored under a key hash: the last matching entry wins.
pub open spec fn preimages_lookup(s: Seq<(KeyHash, Vec<u8>)>, h: Seq<u8>) -> Option<Seq<u8>>
    decreases s.len(),
{
    if s.len() == 0 {
        None
    } else if s.last().0@ == h {
        Some(s.last().1@)
    } else {
        preimages_lookup(s.drop_last(), h)
    }
}

/// The entry stored at exactly (preimage, version): `None` when nothing was
/// written there, `Some(None)` for a tombstone, `Some(Some(v))` for a value.
pub open spec fn value_entry(
    s: Seq<(Vec<u8>, u64, Option<Vec<u8>>)>,
    p: Seq<u8>,
    v: u64,
) -> Option<Option<Seq<u8>>>
    decreases s.len(),
{
    if s.len() == 0 {
        None
    } else if s.last().0@ == p && s.last().1 == v {
        Some(opt_bytes_view(s.last().2))
    } else {
        value_entry(s.drop_last(), p, v)
    }
}

/// The latest entry for preimage `p` at or before version `v`: the last
/// entry, scanning backwards, whose preimage is `p` and whose version does
/// not exceed `v`.
pub open spec fn value_lookup(
    s: Seq<(Vec<u8>, u64, Option<Vec<u8>>)>,
    p: Seq<u8>,
    v: u64,
) -> Option<Option<Seq<u8>>>
    decreases s.len(),
{
    if s.len() == 0 {
        None
    } else if s.last().0@ == p && s.last().1 <= v {
        Some(opt_bytes_view(s.last().2))
    } else {
        value_lookup(s.drop_last(), p, v)
    }
}

/// The value table is ordered by composite key: preimage bytes first, then
/// version; later duplicates of a key sit after their predecessors.
pub open spec fn values_sorted(s: Seq<(Vec<u8>, u64, Option<Vec<u8>>)>) -> bool {
    forall|i: int, j: int|
        0 <= i < j < s.len() ==> key_le(s[i].0@, s[i].1, s[j].0@, s[j].1)
}

/// The versioned state store over three append-only tables.
pub struct StateDB {
    /// Node key to node payload.
    pub nodes: Vec<(Vec<u8>, Vec<u8>)>,
    /// Key hash to preimage.
    pub preimages: Vec<(KeyHash, Vec<u8>)>,
    /// Composite (preimage, version) key to value or tombstone, ordered.
    pub values: Vec<(Vec<u8>, u64, Option<Vec<u8>>)>,
}

impl StateDB {
    /// The store's structural invariant.
    pub open spec fn wf(&self) -> bool {
        values_sorted(self.values@)
    }

    /// The node stored under a node key.
    pub open spec fn spec_get_node(&self, k: Seq<u8>) -> Option<Seq<u8>> {
        nodes_lookup(self.nodes@, k)
    }

    /// The preimage a key hash resolves to.
    pub open spec fn spec_preimage(&self, h: Seq<u8>) -> Option<Seq<u8>> {
        preimages_lookup(self.preimages@, h)
    }

    /// What a point-in-time read returns: resolve the hash, take the latest
    /// entry at or before the version, and collapse a tombstone to `None`.
    pub open spec fn spec_get_value(&self, version: u64, h: Seq<u8>) -> Option<Seq<u8>> {
        match self.spec_preimage(h) {
            None => None,
            Some(p) => match value_lookup(self.values@, p, version) {
                None => None,
                Some(stored) => stored,
            },
        }
    }

    /// An empty store.
    pub fn new() -> (r: StateDB)
        ensures
            r.wf(),
            r.nodes@.len() == 0,
            r.preimages@.len() == 0,
            r.values@.len() == 0,
    {
        StateDB { nodes: Vec::new(), preimages: Vec::new(), values: Vec::new() }
    }

    /// An ephemeral store, for tests and tools that need no persistence.
    pub fn temporary() -> (r: StateDB)
        ensures
            r.wf(),
            r.nodes@.len() == 0,
            r.preimages@.len() == 0,
            r.values@.len() == 0,
    {
        StateDB::new()
    }

    /// The preimage recorded for a key hash, if any.
    pub fn get_preimage(&self, key_hash: &KeyHash) -> (r: Option<Vec<u8>>)
        ensures
            opt_bytes_view(r) == self.spec_preimage(key_hash@),
    {
        let n = self.preimages.len();
        let mut i: usize = n;
        proof {
            assert(self.preimages@.subrange(0, n as int) =~= self.preimages@);
        }
        while i > 0
            invariant
                i <= n,
                n == self.preimages@.len(),
                preimages_lookup(self.preimages@, key_hash@)
                    == preimages_lookup(self.preimages@.subrange(0, i as int), key_hash@),
            decreases i,
        {
            let ghost pre = self.preimages@.subrange(0, i as int);
            proof {
                assert(pre.last() == self.preimages@[i - 1]);
                assert(pre.drop_last() =~= self.preimages@.subrange(0, i - 1));
            }
            if key_hash_eq(&self.preimages[i - 1].0, key_hash) {
                return Some(copy_bytes(&self.preimages[i - 1].1));
            }
            i -= 1;
        }
        None
    }

    /// Records the preimage for a key hash. The index is write-once per
    /// hash: callers must not rebind an existing hash to different bytes.
    pub fn put_preimage(&mut self, key_hash: KeyHash, preimage: Vec<u8>)
        requires
            old(self).wf(),
            match old(self).spec_preimage(key_hash@) {
                Some(p) => p == preimage@,
                None => true,
            },
        ensures
            final(self).wf(),
            final(self).spec_preimage(key_hash@) == Some(preimage@),
            forall|h: Seq<u8>|
                h != key_hash@ ==> final(self).spec_preimage(h) == old(self).spec_preimage(h),
            final(self).nodes@ == old(self).nodes@,
            final(self).values@ == old(self).values@,
    {
        let ghost pre = self.preimages@;
        self.preimages.push((key_hash, preimage));
        proof {
            assert(self.preimages@.drop_last() =~= pre);
        }
    }

    /// The value visible for a key hash as of a version: resolves the hash,
    /// seeks the greatest stored composite key at or before (preimage,
    /// version), and returns the value found there, with a tombstone
    /// reported as `None`. The version bound of the found entry is checked
    /// defensively; a well-formed store never trips it.
    pub fn get_value_option(&self, version: u64, key_hash: &KeyHash) -> (r: Result<
        Option<Vec<u8>>,
        StateDbError,
    >)
        requires
            self.wf(),
        ensures
            r matches Ok(v) && opt_bytes_view(v) == self.spec_get_value(version, key_hash@),
    {
        let p = match self.get_preimage(key_hash) {
            Some(p) => p,
            None => {
                return Ok(None);
            },
        };
        let n = self.values.len();
        let mut i: usize = n;
        proof {
            assert(self.values@.subrange(0, n as int) =~= self.values@);
        }
        while i > 0
            invariant
                i <= n,
                n == self.values@.len(),
                self.wf(),
                self.spec_preimage(key_hash@) == Some(p@),
                value_lookup(self.values@, p@, version) == value_lookup(
                    self.values@.subrange(0, i as int),
                    p@,
                    version,
                ),
            decreases i,
        {
            let ghost pre = self.values@.subrange(0, i as int);
            let ghost e = self.values@[i - 1];
            proof {
                assert(pre.last() == e);
                assert(pre.drop_last() =~= self.values@.subrange(0, i - 1));
            }
            let entry_v = self.values[i - 1].1;
            if key_lt_exec(&p, version, &self.values[i - 1].0, entry_v) {
                proof {
                    lemma_lex_trichotomy(p@, e.0@);
                    assert(!(e.0@ == p@ && e.1 <= version));
                }
                i -= 1;
            } else {
                if bytes_eq(&self.values[i - 1].0, &p) {
                    if entry_v > version {
                        // defense against a broken ordering layer; on a
                        // well-formed store this branch is proved dead
                        proof {
                            assert(false);
                        }
                        return Err(StateDbError::InvariantViolation);
                    }
                    return Ok(copy_opt_bytes(&self.values[i - 1].2));
                }
                proof {
                    lemma_lex_trichotomy(e.0@, p@);
                    assert(lex_lt(e.0@, p@));
                    assert forall|j: int| 0 <= j < pre.len() implies pre[j].0@ != p@ by {
                        assert(pre[j] == self.values@[j]);
                        if j < i - 1 {
                            assert(key_le(
                                self.values@[j].0@,
                                self.values@[j].1,
                                e.0@,
                                e.1,
                            ));
                            if lex_lt(self.values@[j].0@, e.0@) {
                                lemma_lex_trans(self.values@[j].0@, e.0@, p@);
                                lemma_lex_trichotomy(self.values@[j].0@, p@);
                            } else {
                                assert(self.values@[j].0@ == e.0@);
                            }
                        }
                    }
                    lemma_value_lookup_absent(pre, p@, version);
                }
                return Ok(None);
            }
        }
        proof {
            assert(self.values@.subrange(0, 0).len() == 0);
        }
        Ok(None)
    }

    /// The node stored under a node key, or `None`.
    pub fn get_node_option(&self, node_key: &Vec<u8>) -> (r: Option<Vec<u8>>)
        ensures
            opt_bytes_view(r) == self.spec_get_node(node_key@),
    {
        let n = self.nodes.len();
        let mut i: usize = n;
        proof {
            assert(self.nodes@.subrange(0, n as int) =~= self.nodes@);
        }
        while i > 0
            invariant
                i <= n,
                n == self.nodes@.len(),
                nodes_lookup(self.nodes@, node_key@)
                    == nodes_lookup(self.nodes@.subrange(0, i as int), node_key@),
            decreases i,
        {
            let ghost pre = self.nodes@.subrange(0, i as int);
            proof {
                assert(pre.last() == self.nodes@[i - 1]);
                assert(pre.drop_last() =~= self.nodes@.subrange(0, i - 1));
            }
            if bytes_eq(&self.nodes[i - 1].0, node_key) {
                return Some(copy_bytes(&self.nodes[i - 1].1));
            }
            i -= 1;
        }
        None
    }
    /// The node on the rightmost path at the latest committed state: the
    /// entry with the lexicographically greatest node key, the newest write
    /// winning ties, or `None` for an empty tree. The node table is scanned
    /// on demand; no auxiliary index is kept.
    pub fn get_rightmost_leaf(&self) -> (r: Option<(Vec<u8>, Vec<u8>)>)
        ensures
            match r {
                None => self.nodes@.len() == 0,
                Some(kn) => self.spec_get_node(kn.0@) == Some(kn.1@) && (forall|i: int|
                    0 <= i < self.nodes@.len() ==> !lex_lt(kn.0@, #[trigger] self.nodes@[i].0@)),
            },
    {
        if self.nodes.len() == 0 {
            return None;
        }
        let mut best_key = copy_bytes(&self.nodes[0].0);
        let mut best_node = copy_bytes(&self.nodes[0].1);
        let mut i: usize = 1;
        proof {
            assert(self.nodes@.subrange(0, 1).last() == self.nodes@[0]);
            lemma_lex_trichotomy(best_key@, self.nodes@[0].0@);
        }
        while i < self.nodes.len()
            invariant
                1 <= i <= self.nodes@.len(),
                nodes_lookup(self.nodes@.subrange(0, i as int), best_key@) == Some(best_node@),
                forall|j: int| 0 <= j < i ==> !lex_lt(best_key@, #[trigger] self.nodes@[j].0@),
            decreases self.nodes@.len() - i,
        {
            let ghost pre1 = self.nodes@.subrange(0, i + 1);
            proof {
                assert(pre1.last() == self.nodes@[i as int]);
                assert(pre1.drop_last() =~= self.nodes@.subrange(0, i as int));
            }
            if lex_lt_exec(&best_key, &self.nodes[i].0) {
                let ghost ob = best_key@;
                best_key = copy_bytes(&self.nodes[i].0);
                best_node = copy_bytes(&self.nodes[i].1);
                proof {
                    assert forall|j: int| 0 <= j <= i implies !lex_lt(
                        best_key@,
                        #[trigger] self.nodes@[j].0@,
                    ) by {
                        lemma_lex_trichotomy(best_key@, self.nodes@[j].0@);
                        if j < i && lex_lt(best_key@, self.nodes@[j].0@) {
                            lemma_lex_trans(ob, best_key@, self.nodes@[j].0@);
                        }
                    }
                }
            } else if bytes_eq(&self.nodes[i].0, &best_key) {
                best_node = copy_bytes(&self.nodes[i].1);
            }
            i += 1;
        }
        proof {
            assert(self.nodes@.subrange(0, self.nodes@.len() as int) =~= self.nodes@);
        }
        Some((best_key, best_node))
    }

    /// Applies a batch: every node entry is written to the node store, and
    /// every value entry is written to the versioned value store under the
    /// composite key of its hash's preimage. A batch holding a value write
    /// for an unresolvable hash fails whole with `MissingPreimage`, leaving
    /// the store unchanged; the batch is validated before any write.
    pub fn write_node_batch(&mut self, batch: &NodeBatch) -> (r: Result<(), StateDbError>)
        requires
            old(self).wf(),
        ensures
            final(self).wf(),
            match r {
                Ok(_) => batch_applied(*old(self), *batch, *final(self)) && (forall|k: int|
                    0 <= k < batch.values@.len() ==> old(self).spec_preimage(
                        batch.values@[k].1@,
                    ) is Some),
                Err(e) => e == StateDbError::MissingPreimage && final(self).nodes@ == old(
                    self,
                ).nodes@ && final(self).preimages@ == old(self).preimages@ && final(self).values@
                    == old(self).values@ && (exists|k: int|
                    0 <= k < batch.values@.len() && old(self).spec_preimage(
                        batch.values@[k].1@,
                    ) is None),
            },
    {
        let m = batch.values.len();
        let mut k: usize = 0;
        while k < m
            invariant
                k <= m,
                m == batch.values@.len(),
                self.nodes@ == old(self).nodes@,
                self.preimages@ == old(self).preimages@,
                self.values@ == old(self).values@,
                self.wf(),
                forall|j: int|
                    0 <= j < k ==> old(self).spec_preimage(batch.values@[j].1@) is Some,
            decreases m - k,
        {
            if self.get_preimage(&batch.values[k].1).is_none() {
                return Err(StateDbError::MissingPreimage);
            }
            k += 1;
        }
        let nn = batch.nodes.len();
        let mut a: usize = 0;
        proof {
            assert(batch.nodes@.subrange(0, 0).len() == 0);
        }
        while a < nn
            invariant
                a <= nn,
                nn == batch.nodes@.len(),
                self.preimages@ == old(self).preimages@,
                self.values@ == old(self).values@,
                self.wf(),
                forall|key: Seq<u8>|
                    #![auto]
                    nodes_lookup(self.nodes@, key) == match nodes_lookup(
                        batch.nodes@.subrange(0, a as int),
                        key,
                    ) {
                        Some(n) => Some(n),
                        None => nodes_lookup(old(self).nodes@, key),
                    },
            decreases nn - a,
        {
            let ghost prev_nodes = self.nodes@;
            let key = copy_bytes(&batch.nodes[a].0);
            let node = copy_bytes(&batch.nodes[a].1);
            self.nodes.push((key, node));
            proof {
                assert(self.nodes@.drop_last() =~= prev_nodes);
                let bn1 = batch.nodes@.subrange(0, a + 1);
                assert(bn1.last() == batch.nodes@[a as int]);
                assert(bn1.drop_last() =~= batch.nodes@.subrange(0, a as int));
                assert(self.nodes@.last().0@ == bn1.last().0@);
                assert(self.nodes@.last().1@ == bn1.last().1@);
                assert forall|key: Seq<u8>|
                    #![auto]
                    nodes_lookup(self.nodes@, key) == match nodes_lookup(bn1, key) {
                        Some(n) => Some(n),
                        None => nodes_lookup(old(self).nodes@, key),
                    } by {
                    if key == self.nodes@.last().0@ {
                        assert(nodes_lookup(self.nodes@, key) == Some(self.nodes@.last().1@));
                        assert(nodes_lookup(bn1, key) == Some(bn1.last().1@));
                    } else {
                        assert(nodes_lookup(self.nodes@, key) == nodes_lookup(prev_nodes, key));
                        assert(nodes_lookup(bn1, key) == nodes_lookup(bn1.drop_last(), key));
                    }
                }
            }
            a += 1;
        }
        proof {
            assert(batch.nodes@.subrange(0, nn as int) =~= batch.nodes@);
            assert(batch.values@.subrange(0, 0).len() == 0);
        }
        let ghost nodes_after = self.nodes@;
        let mut b: usize = 0;
        while b < m
            invariant
                b <= m,
                m == batch.values@.len(),
                self.preimages@ == old(self).preimages@,
                self.nodes@ == nodes_after,
                self.wf(),
                forall|j: int|
                    0 <= j < m ==> old(self).spec_preimage(batch.values@[j].1@) is Some,
                forall|key: Seq<u8>|
                    #![auto]
                    nodes_lookup(nodes_after, key) == match nodes_lookup(batch.nodes@, key) {
                        Some(n) => Some(n),
                        None => nodes_lookup(old(self).nodes@, key),
                    },
                forall|q: Seq<u8>, w: u64|
                    #![auto]
                    value_entry(self.values@, q, w) == match batch_value_for(
                        batch.values@.subrange(0, b as int),
                        *old(self),
                        q,
                        w,
                    ) {
                        Some(x) => Some(x),
                        None => value_entry(old(self).values@, q, w),
                    },
            decreases m - b,
        {
            let ver = batch.values[b].0;
            let p = match self.get_preimage(&batch.values[b].1) {
                Some(p) => p,
                None => {
                    // validation resolved every hash of the batch and the
                    // index only grows, so this branch is proved dead
                    proof {
                        assert(false);
                    }
                    return Err(StateDbError::MissingPreimage);
                },
            };
            let ghost pview = p@;
            let ghost vals_prev = self.values@;
            let value = copy_opt_bytes(&batch.values[b].2);
            self.insert_value(p, ver, value);
            proof {
                let bv1 = batch.values@.subrange(0, b + 1);
                assert(bv1.last() == batch.values@[b as int]);
                assert(bv1.drop_last() =~= batch.values@.subrange(0, b as int));
                assert(old(self).spec_preimage(batch.values@[b as int].1@) == Some(pview));
            }
            b += 1;
        }
        proof {
            assert(batch.values@.subrange(0, m as int) =~= batch.values@);
        }
        Ok(())
    }

    /// Inserts a value entry at its ordered position, after any existing
    /// entries of the same composite key, so that the newest write wins.
    fn insert_value(&mut self, preimage: Vec<u8>, version: u64, value: Option<Vec<u8>>)
        requires
            old(self).wf(),
        ensures
            final(self).wf(),
            final(self).nodes@ == old(self).nodes@,
            final(self).preimages@ == old(self).preimages@,
            value_entry(final(self).values@, preimage@, version) == Some(opt_bytes_view(value)),
            forall|q: Seq<u8>, w: u64|
                !(q == preimage@ && w == version) ==> value_entry(final(self).values@, q, w)
                    == value_entry(old(self).values@, q, w),
    {
        let n = self.values.len();
        let mut idx: usize = n;
        while idx > 0 && key_lt_exec(&preimage, version, &self.values[idx - 1].0, self.values[idx - 1].1)
            invariant
                idx <= n,
                n == self.values@.len(),
                self.nodes@ == old(self).nodes@,
                self.preimages@ == old(self).preimages@,
                self.values@ == old(self).values@,
                self.wf(),
                forall|k: int|
                    idx <= k < n ==> key_lt(
                        preimage@,
                        version,
                        self.values@[k].0@,
                        self.values@[k].1,
                    ),
            decreases idx,
        {
            idx -= 1;
        }
        proof {
            let vals = self.values@;
            if idx > 0 {
                lemma_key_asym(preimage@, version, vals[idx - 1].0@, vals[idx - 1].1);
            }
            assert forall|k: int| 0 <= k < idx implies key_le(
                vals[k].0@,
                vals[k].1,
                preimage@,
                version,
            ) by {
                assert(key_le(vals[idx - 1].0@, vals[idx - 1].1, preimage@, version));
                if k < idx - 1 {
                    assert(key_le(vals[k].0@, vals[k].1, vals[idx - 1].0@, vals[idx - 1].1));
                    lemma_key_le_trans(
                        vals[k].0@,
                        vals[k].1,
                        vals[idx - 1].0@,
                        vals[idx - 1].1,
                        preimage@,
                        version,
                    );
                }
            }
        }
        let ghost vals0 = self.values@;
        let ghost e = (preimage, version, value);
        let ghost s1 = vals0.subrange(0, idx as int);
        let ghost s2 = vals0.subrange(idx as int, n as int);
        self.values.insert(idx, (preimage, version, value));
        proof {
            assert(self.values@ =~= s1.push(e) + s2);
            assert(vals0 =~= s1 + s2);
            // ordering is preserved around the insertion point
            assert forall|a: int, b: int| 0 <= a < b < self.values@.len() implies key_le(
                self.values@[a].0@,
                self.values@[a].1,
                self.values@[b].0@,
                self.values@[b].1,
            ) by {
                let ia = idx as int;
                if a < ia && b == ia {
                } else if a == ia && b > ia {
                    assert(self.values@[b] == vals0[b - 1]);
                    assert(key_lt(preimage@, version, vals0[b - 1].0@, vals0[b - 1].1));
                } else if a < ia && b > ia {
                    assert(self.values@[a] == vals0[a]);
                    assert(self.values@[b] == vals0[b - 1]);
                    assert(key_le(vals0[a].0@, vals0[a].1, vals0[b - 1].0@, vals0[b - 1].1));
                } else if b < ia {
                    assert(self.values@[a] == vals0[a]);
                    assert(self.values@[b] == vals0[b]);
                } else if a > ia {
                    assert(self.values@[a] == vals0[a - 1]);
                    assert(self.values@[b] == vals0[b - 1]);
                }
            }
            // nothing after the new entry carries its key
            assert forall|i: int| 0 <= i < s2.len() implies !(s2[i].0@ == e.0@ && s2[i].1
                == e.1) by {
                assert(s2[i] == vals0[idx + i]);
                assert(key_lt(preimage@, version, vals0[idx + i].0@, vals0[idx + i].1));
                lemma_lex_trichotomy(preimage@, vals0[idx + i].0@);
            }
            lemma_value_entry_mid_hit(s1, e, s2);
            assert forall|q: Seq<u8>, w: u64| !(q == preimage@ && w == version) implies value_entry(
                self.values@,
                q,
                w,
            ) == value_entry(vals0, q, w) by {
                lemma_value_entry_mid_skip(s1, e, s2, q, w);
            }
        }
    }
}

/// The entry a batch writes for composite key (p, ver): its last value
/// write whose version is `ver` and whose hash resolves to `p` through the
/// preimage index of `db`.
pub open spec fn batch_value_for(
    vals: Seq<(u64, KeyHash, Option<Vec<u8>>)>,
    db: StateDB,
    p: Seq<u8>,
    ver: u64,
) -> Option<Option<Seq<u8>>>
    decreases vals.len(),
{
    if vals.len() == 0 {
        None
    } else if vals.last().0 == ver && db.spec_preimage(vals.last().1@) == Some(p) {
        Some(opt_bytes_view(vals.last().2))
    } else {
        batch_value_for(vals.drop_last(), db, p, ver)
    }
}

/// The full effect of applying a batch to a store: the preimage index is
/// untouched, node keys the batch wrote read back as written, and exactly
/// the composite keys the batch wrote carry its entries.
pub open spec fn batch_applied(pre: StateDB, batch: NodeBatch, post: StateDB) -> bool {
    &&& post.preimages@ == pre.preimages@
    &&& post.wf()
    &&& forall|k: Seq<u8>|
        #![auto]
        post.spec_get_node(k) == match nodes_lookup(batch.nodes@, k) {
            Some(n) => Some(n),
            None => pre.spec_get_node(k),
        }
    &&& forall|p: Seq<u8>, w: u64|
        #![auto]
        value_entry(post.values@, p, w) == match batch_value_for(batch.values@, pre, p, w) {
            Some(x) => Some(x),
            None => value_entry(pre.values@, p, w),
        }
}

/// An entry whose key differs from the queried composite key does not
/// change what a point query finds, wherever it sits in the table.
proof fn lemma_value_entry_mid_skip(
    s1: Seq<(Vec<u8>, u64, Option<Vec<u8>>)>,
    e: (Vec<u8>, u64, Option<Vec<u8>>),
    s2: Seq<(Vec<u8>, u64, Option<Vec<u8>>)>,
    q: Seq<u8>,
    w: u64,
)
    requires
        !(e.0@ == q && e.1 == w),
    ensures
        value_entry(s1.push(e) + s2, q, w) == value_entry(s1 + s2, q, w),
    decreases s2.len(),
{
    if s2.len() == 0 {
        assert(s1.push(e) + s2 =~= s1.push(e));
        assert(s1 + s2 =~= s1);
        assert(s1.push(e).drop_last() =~= s1);
    } else {
        assert((s1.push(e) + s2).last() == s2.last());
        assert((s1 + s2).last() == s2.last());
        assert((s1.push(e) + s2).drop_last() =~= s1.push(e) + s2.drop_last());
        assert((s1 + s2).drop_last() =~= s1 + s2.drop_last());
        lemma_value_entry_mid_skip(s1, e, s2.drop_last(), q, w);
    }
}

/// A point query for an entry's own key finds it, provided nothing after
/// it carries the same key.
proof fn lemma_value_entry_mid_hit(
    s1: Seq<(Vec<u8>, u64, Option<Vec<u8>>)>,
    e: (Vec<u8>, u64, Option<Vec<u8>>),
    s2: Seq<(Vec<u8>, u64, Option<Vec<u8>>)>,
)
    requires
        forall|i: int| 0 <= i < s2.len() ==> !(s2[i].0@ == e.0@ && s2[i].1 == e.1),
    ensures
        value_entry(s1.push(e) + s2, e.0@, e.1) == Some(opt_bytes_view(e.2)),
    decreases s2.len(),
{
    if s2.len() == 0 {
        assert(s1.push(e) + s2 =~= s1.push(e));
        assert(s1.push(e).last() == e);
    } else {
        assert((s1.push(e) + s2).last() == s2.last());
        assert(s2.last() == s2[s2.len() - 1]);
        assert((s1.push(e) + s2).drop_last() =~= s1.push(e) + s2.drop_last());
        assert forall|i: int| 0 <= i < s2.drop_last().len() implies !(s2.drop_last()[i].0@
            == e.0@ && s2.drop_last()[i].1 == e.1) by {
            assert(s2.drop_last()[i] == s2[i]);
        }
        lemma_value_entry_mid_hit(s1, e, s2.drop_last());
    }
}

/// If no entry of the table carries preimage `p`, no lookup for `p` finds
/// anything.
proof fn lemma_value_lookup_absent(s: Seq<(Vec<u8>, u64, Option<Vec<u8>>)>, p: Seq<u8>, v: u64)
    requires
        forall|i: int| 0 <= i < s.len() ==> s[i].0@ != p,
    ensures
        value_lookup(s, p, v) is None,
    decreases s.len(),
{
    if s.len() > 0 {
        assert(s.last() == s[s.len() - 1]);
        assert forall|i: int| 0 <= i < s.drop_last().len() implies s.drop_last()[i].0@ != p by {
            assert(s.drop_last()[i] == s[i]);
        }
        lemma_value_lookup_absent(s.drop_last(), p, v);
    }
}

/// A `Some` point query names an actual entry of the table.
proof fn lemma_value_entry_some_index(s: Seq<(Vec<u8>, u64, Option<Vec<u8>>)>, p: Seq<u8>, v: u64)
    requires
        value_entry(s, p, v) is Some,
    ensures
        exists|j: int|
            0 <= j < s.len() && s[j].0@ == p && s[j].1 == v && value_entry(s, p, v) == Some(
                opt_bytes_view(s[j].2),
            ),
    decreases s.len(),
{
    if s.last().0@ == p && s.last().1 == v {
        assert(s.last() == s[s.len() - 1]);
    } else {
        lemma_value_entry_some_index(s.drop_last(), p, v);
        let j = choose|j: int|
            0 <= j < s.drop_last().len() && s.drop_last()[j].0@ == p && s.drop_last()[j].1 == v
                && value_entry(s.drop_last(), p, v) == Some(opt_bytes_view(s.drop_last()[j].2));
        assert(s.drop_last()[j] == s[j]);
    }
}

/// The seek-based lookup as of version `big` finds the entry written at
/// `vi`, provided `vi` is at or before `big` and no version strictly
/// between `vi` and `big` carries an entry for the same preimage.
pub proof fn lemma_lookup_from_entry(
    s: Seq<(Vec<u8>, u64, Option<Vec<u8>>)>,
    p: Seq<u8>,
    vi: u64,
    big: u64,
)
    requires
        values_sorted(s),
        value_entry(s, p, vi) is Some,
        vi <= big,
        forall|w: u64| vi < w <= big ==> value_entry(s, p, w) is None,
    ensures
        value_lookup(s, p, big) == value_entry(s, p, vi),
    decreases s.len(),
{
    let last = s.last();
    if last.0@ == p && last.1 <= big {
        if last.1 > vi {
            assert(value_entry(s, p, last.1) == Some(opt_bytes_view(last.2)));
            assert(false);
        }
        if last.1 < vi {
            lemma_value_entry_some_index(s, p, vi);
            let j = choose|j: int|
                0 <= j < s.len() && s[j].0@ == p && s[j].1 == vi && value_entry(s, p, vi) == Some(
                    opt_bytes_view(s[j].2),
                );
            assert(s.last() == s[s.len() - 1]);
            assert(j < s.len() - 1);
            assert(key_le(s[j].0@, s[j].1, last.0@, last.1));
            lemma_lex_trichotomy(p, p);
            assert(false);
        }
    } else {
        assert forall|a: int, b: int| 0 <= a < b < s.drop_last().len() implies key_le(
            s.drop_last()[a].0@,
            s.drop_last()[a].1,
            s.drop_last()[b].0@,
            s.drop_last()[b].1,
        ) by {
            assert(s.drop_last()[a] == s[a]);
            assert(s.drop_last()[b] == s[b]);
            assert(key_le(s[a].0@, s[a].1, s[b].0@, s[b].1));
        }
        assert(value_entry(s.drop_last(), p, vi) == value_entry(s, p, vi));
        assert forall|w: u64| vi < w <= big implies value_entry(s.drop_last(), p, w) is None by {
            assert(value_entry(s, p, w) is None);
        }
        lemma_lookup_from_entry(s.drop_last(), p, vi, big);
    }
}

/// The seek-based lookup finds nothing when no version at or before the
/// bound carries an entry for the preimage.
pub proof fn lemma_lookup_before_first(
    s: Seq<(Vec<u8>, u64, Option<Vec<u8>>)>,
    p: Seq<u8>,
    big: u64,
)
    requires
        forall|w: u64| w <= big ==> value_entry(s, p, w) is None,
    ensures
        value_lookup(s, p, big) is None,
    decreases s.len(),
{
    if s.len() > 0 {
        let last = s.last();
        if last.0@ == p && last.1 <= big {
            assert(value_entry(s, p, last.1) == Some(opt_bytes_view(last.2)));
            assert(false);
        }
        assert forall|w: u64| w <= big implies value_entry(s.drop_last(), p, w) is None by {
            assert(value_entry(s, p, w) is None);
        }
        lemma_lookup_before_first(s.drop_last(), p, big);
    }
}

/// Monotone lookup law, early half: before a key's first write, a read
/// sees nothing even though the preimage already resolves.
pub proof fn lemma_lookup_before_first_write(db: StateDB, h: Seq<u8>, p: Seq<u8>, big: u64)
    requires
        db.wf(),
        db.spec_preimage(h) == Some(p),
        forall|w: u64| w <= big ==> value_entry(db.values@, p, w) is None,
    ensures
        db.spec_get_value(big, h) is None,
{
    lemma_lookup_before_first(db.values@, p, big);
}

/// Monotone lookup law: when a write for a key's preimage exists at
/// version `vi` and no write exists in (vi, big], a read as of `big` sees
/// exactly the value written at `vi`.
pub proof fn lemma_monotone_lookup(
    db: StateDB,
    h: Seq<u8>,
    p: Seq<u8>,
    vi: u64,
    big: u64,
    x: Seq<u8>,
)
    requires
        db.wf(),
        db.spec_preimage(h) == Some(p),
        value_entry(db.values@, p, vi) == Some(Some(x)),
        vi <= big,
        forall|w: u64| vi < w <= big ==> value_entry(db.values@, p, w) is None,
    ensures
        db.spec_get_value(big, h) == Some(x),
{
    lemma_lookup_from_entry(db.values@, p, vi, big);
}

/// Unknown-key law: a hash the preimage index has never seen reads as
/// absent at every version.
pub proof fn lemma_unknown_key(db: StateDB, h: Seq<u8>, version: u64)
    requires
        db.spec_preimage(h) is None,
    ensures
        db.spec_get_value(version, h) is None,
{
}

/// Tombstone law: after a deletion marker at `v2`, a read at or past `v2`
/// sees nothing, while a read before `v2` still sees the value written at
/// `v1`, absent other writes in between.
pub proof fn lemma_tombstone(
    db: StateDB,
    h: Seq<u8>,
    p: Seq<u8>,
    v1: u64,
    v2: u64,
    x: Seq<u8>,
    low: u64,
    high: u64,
)
    requires
        db.wf(),
        db.spec_preimage(h) == Some(p),
        value_entry(db.values@, p, v1) == Some(Some(x)),
        value_entry(db.values@, p, v2) == Some(None::<Seq<u8>>),
        v1 <= low < v2 <= high,
        forall|w: u64| v1 < w <= low ==> value_entry(db.values@, p, w) is None,
        forall|w: u64| v2 < w <= high ==> value_entry(db.values@, p, w) is None,
    ensures
        db.spec_get_value(high, h) is None,
        db.spec_get_value(low, h) == Some(x),
{
    lemma_lookup_from_entry(db.values@, p, v2, high);
    lemma_lookup_from_entry(db.values@, p, v1, low);
}

/// Node round-trip law: a node key written by an applied batch reads back
/// exactly the payload the batch wrote for it.
pub proof fn lemma_node_round_trip(
    pre: StateDB,
    batch: NodeBatch,
    post: StateDB,
    k: Seq<u8>,
    n: Seq<u8>,
)
    requires
        batch_applied(pre, batch, post),
        nodes_lookup(batch.nodes@, k) == Some(n),
    ensures
        post.spec_get_node(k) == Some(n),
{
}

/// Byte-wise equality of two key hashes.
pub fn key_hash_eq(a: &KeyHash, b: &KeyHash) -> (r: bool)
    ensures
        r == (a@ == b@),
{
    let mut i: usize = 0;
    while i < 32
        invariant
            i <= 32,
            forall|j: int| 0 <= j < i ==> a.0@[j] == b.0@[j],
        decreases 32 - i,
    {
        if a.0[i] != b.0[i] {
            return false;
        }
        i += 1;
    }
    proof {
        assert(a@ =~= b@);
    }
    true
}

/// A fresh copy of a byte vector.
pub fn copy_bytes(v: &Vec<u8>) -> (r: Vec<u8>)
    ensures
        r@ == v@,
{
    let mut out: Vec<u8> = Vec::new();
    let mut i: usize = 0;
    while i < v.len()
        invariant
            i <= v@.len(),
            out@ == v@.subrange(0, i as int),
        decreases v@.len() - i,
    {
        out.push(v[i]);
        proof {
            assert(v@.subrange(0, i + 1) =~= v@.subrange(0, i as int).push(v@[i as int]));
        }
        i += 1;
    }
    proof {
        assert(v@.subrange(0, v@.len() as int) =~= v@);
    }
    out
}

/// A fresh copy of a stored value or tombstone.
pub fn copy_opt_bytes(v: &Option<Vec<u8>>) -> (r: Option<Vec<u8>>)
    ensures
        opt_bytes_view(r) == opt_bytes_view(*v),
{
    match v {
        Some(b) => Some(copy_bytes(b)),
        None => None,
    }
}

} // verus!
