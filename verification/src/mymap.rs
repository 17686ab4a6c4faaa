//! A fixed-capacity hash table with chained collision resolution.
//!
//! The table owns a fixed array of buckets; each bucket is a chain of
//! entries. An entry records the derived hash of its key alongside the
//! key and the value, so that lookups never re-hash stored keys. The
//! abstract model of a table is a `Map<u64, Seq<char>>` from keys to
//! the character sequences of their values.

use vstd::prelude::*;
use vstd::string::StrSliceExecFns;

verus! {

/// Starting value of every hash accumulation.
pub const HASH_OFFSET: u64 = 0xcbf2_9ce4_8422_2325;

/// Multiplier of every mixing step.
pub const HASH_PRIME: u64 = 0x100_0000_01b3;

/// Number of buckets of every table; fixed for the table's lifetime.
/// The table never resizes: under heavy load the chains grow and
/// lookups degrade to linear scans, by design.
pub const MAP_CAPACITY: usize = 16;

/// One round of the mixing function: the product of `x` and `m`,
/// truncated to 64 bits.
pub closed spec fn mul_mod64(x: u64, m: u64) -> u64 {
    ((x as int * m as int) % 0x1_0000_0000_0000_0000) as u64
}

/// The derived hash of a key: a 64-bit finalizer built from
/// xor-shifts and two multiplications. Any well-spread,
/// non-cryptographic hash serves here; this one is fully defined, so
/// every fact about the table is proved down to the hash itself.
#[verifier::opaque]
pub closed spec fn key_hash(k: u64) -> u64 {
    let a = k ^ (k >> 33);
    let b = mul_mod64(a, 0xff51_afd7_ed55_8ccd);
    let c = b ^ (b >> 33);
    let d = mul_mod64(c, 0xc4ce_b9fe_1a85_ec53);
    d ^ (d >> 33)
}

/// The bucket that holds a key: its derived hash, reduced modulo the
/// bucket count.
pub open spec fn bucket_of(k: u64) -> int {
    key_hash(k) as int % (MAP_CAPACITY as int)
}

/// The bucket of a key is always one of the table's buckets.
pub proof fn lemma_bucket_range(k: u64)
    ensures
        0 <= bucket_of(k) < MAP_CAPACITY as int,
{
    assert(0 <= key_hash(k) as int % (MAP_CAPACITY as int) < MAP_CAPACITY as int)
        by (nonlinear_arith);
}

/// Multiplies two 64-bit values and truncates the product to 64 bits.
fn mul_mod64_exec(x: u64, m: u64) -> (r: u64)
    ensures
        r == mul_mod64(x, m),
{
    proof {
        assert(x as int * m as int <= 0xffff_ffff_ffff_ffff * 0xffff_ffff_ffff_ffff)
            by (nonlinear_arith)
            requires
                x as int <= 0xffff_ffff_ffff_ffff,
                m as int <= 0xffff_ffff_ffff_ffff,
        ;
    }
    let p: u128 = (x as u128) * (m as u128);
    (p % 0x1_0000_0000_0000_0000u128) as u64
}

/// Computes the derived hash of a key together with the index of the
/// bucket that must hold it, from a single hash derivation.
fn hash_and_index(hashee: &u64) -> (r: (u64, usize))
    ensures
        r.0 == key_hash(*hashee),
        r.1 as int == bucket_of(*hashee),
        r.1 < MAP_CAPACITY,
{
    proof {
        reveal(key_hash);
    }
    let k = *hashee;
    let a = k ^ (k >> 33);
    let b = mul_mod64_exec(a, 0xff51_afd7_ed55_8ccd);
    let c = b ^ (b >> 33);
    let d = mul_mod64_exec(c, 0xc4ce_b9fe_1a85_ec53);
    let h = d ^ (d >> 33);
    let idx = (h % (MAP_CAPACITY as u64)) as usize;
    (h, idx)
}

/// One mixing step: folds a 64-bit token into an accumulator.
pub closed spec fn mix_step(acc: u64, x: u64) -> u64 {
    mul_mod64(acc ^ x, HASH_PRIME)
}

/// Folds the characters of `s`, left to right, into `acc`.
pub closed spec fn str_hash_acc(acc: u64, s: Seq<char>) -> u64
    decreases s.len(),
{
    if s.len() == 0 {
        acc
    } else {
        mix_step(str_hash_acc(acc, s.drop_last()), s.last() as u64)
    }
}

/// The hash of a character sequence.
pub closed spec fn str_hash(s: Seq<char>) -> u64 {
    str_hash_acc(HASH_OFFSET, s)
}

/// Folds one 64-bit token into an accumulator.
fn mix_step_exec(acc: u64, x: u64) -> (r: u64)
    ensures
        r == mix_step(acc, x),
{
    mul_mod64_exec(acc ^ x, HASH_PRIME)
}

/// Computes the hash of a string's characters.
fn string_hash(s: &String) -> (h: u64)
    ensures
        h == str_hash(s@),
{
    let st = s.as_str();
    let n = st.unicode_len();
    let mut acc: u64 = HASH_OFFSET;
    let mut i: usize = 0;
    while i < n
        invariant
            n == s@.len(),
            st@ == s@,
            i <= n,
            acc == str_hash_acc(HASH_OFFSET, s@.subrange(0, i as int)),
        decreases n - i,
    {
        let c = st.get_char(i);
        acc = mix_step_exec(acc, c as u64);
        proof {
            assert(s@.subrange(0, i as int + 1).drop_last() =~= s@.subrange(0, i as int));
            assert(s@.subrange(0, i as int + 1).last() == s@[i as int]);
        }
        i += 1;
    }
    proof {
        assert(s@.subrange(0, n as int) =~= s@);
    }
    acc
}

/// One stored key/value pair, together with the derived hash of its
/// key, kept so that scans compare hashes before keys and never
/// re-hash a stored key.
#[derive(Debug, Clone, PartialEq, Eq)]
pub(crate) struct Entry {
    pub(crate) hash: u64,
    pub(crate) key: u64,
    pub(crate) value: String,
}

/// Whether `e` is a well-formed resident of bucket `i`: its recorded
/// hash is the derived hash of its key, and `i` is the bucket that
/// hash selects.
pub(crate) open spec fn entry_in_bucket(e: Entry, i: int) -> bool {
    &&& e.hash == key_hash(e.key)
    &&& bucket_of(e.key) == i
}

/// An associative container from `u64` keys to `String` values:
/// a fixed-length array of buckets, each a chain of entries.
#[derive(Debug, Clone, PartialEq, Eq)]
pub struct MyMap {
    entries: Vec<Vec<Entry>>,
}

impl MyMap {
    /// The chains of the table, as a sequence of sequences of entries.
    pub(crate) closed spec fn buckets(&self) -> Seq<Seq<Entry>> {
        Seq::new(self.entries@.len(), |i: int| self.entries@[i]@)
    }

    /// Well-formedness: the bucket array has the fixed length, every
    /// entry sits in the bucket its derived hash selects with its
    /// recorded hash correct, and no two entries of one bucket share
    /// a key.
    pub closed spec fn inv(&self) -> bool {
        &&& self.buckets().len() == MAP_CAPACITY as int
        &&& forall|i: int, j: int|
            0 <= i < self.buckets().len() && 0 <= j < self.buckets()[i].len()
                ==> entry_in_bucket(#[trigger] self.buckets()[i][j], i)
        &&& forall|i: int, j1: int, j2: int|
            0 <= i < self.buckets().len() && 0 <= j1 < self.buckets()[i].len() && 0 <= j2
                < self.buckets()[i].len() && j1 != j2 ==> (#[trigger] self.buckets()[i][j1]).key
                != (#[trigger] self.buckets()[i][j2]).key
    }

    /// The chain that would hold key `k`.
    pub(crate) open spec fn chain_for(&self, k: u64) -> Seq<Entry> {
        self.buckets()[bucket_of(k)]
    }

    /// Whether some entry of the table carries key `k`.
    pub(crate) open spec fn has_key(&self, k: u64) -> bool {
        exists|j: int| 0 <= j < self.chain_for(k).len() && (#[trigger] self.chain_for(k)[j]).key == k
    }

    /// The position of the entry that carries key `k` in its chain.
    pub(crate) open spec fn key_index(&self, k: u64) -> int {
        choose|j: int| 0 <= j < self.chain_for(k).len() && (#[trigger] self.chain_for(k)[j]).key == k
    }

    /// The abstract content of the table: the map from each stored
    /// key to the character sequence of its value.
    pub closed spec fn view(&self) -> Map<u64, Seq<char>> {
        Map::new(|k: u64| self.has_key(k), |k: u64| self.chain_for(k)[self.key_index(k)].value@)
    }

    /// How many entries of the table, across all buckets, carry key
    /// `k`.
    pub closed spec fn key_count(&self, k: u64) -> nat {
        buckets_key_count(self.buckets(), k)
    }

    /// In a well-formed table, the entry found for a key is unique:
    /// any chain position carrying `k` is `key_index(k)`.
    proof fn lemma_key_index(&self, k: u64, j: int)
        requires
            self.inv(),
            0 <= j < self.chain_for(k).len(),
            self.chain_for(k)[j].key == k,
        ensures
            self.has_key(k),
            self.key_index(k) == j,
            self@.contains_key(k),
            self@[k] == self.chain_for(k)[j].value@,
    {
        assert(self.has_key(k));
        let j2 = self.key_index(k);
        assert(0 <= j2 < self.chain_for(k).len() && self.chain_for(k)[j2].key == k);
        lemma_bucket_range(k);
        assert(j2 == j);
    }

    /// Returns an empty table: every bucket present, every bucket
    /// empty, so the abstract content is the empty map.
    pub fn new() -> (r: Self)
        ensures
            r.inv(),
            r@ == Map::<u64, Seq<char>>::empty(),
    {
        let mut entries: Vec<Vec<Entry>> = Vec::with_capacity(MAP_CAPACITY);
        for _i in 0..MAP_CAPACITY
            invariant
                entries@.len() == _i,
                forall|b: int| 0 <= b < _i ==> (#[trigger] entries@[b])@.len() == 0,
        {
            entries.push(Vec::new());
        }
        let r = Self { entries };
        proof {
            assert forall|k: u64| !r.has_key(k) by {
                if 0 <= bucket_of(k) < r.buckets().len() {
                    assert(r.chain_for(k).len() == 0);
                }
            }
            assert(r@ =~= Map::<u64, Seq<char>>::empty());
        }
        r
    }

    /// Inserts a key/value pair. The bucket the key's derived hash
    /// selects is scanned for an entry carrying the key: if one
    /// exists, its key and value are replaced in place (last write
    /// wins); otherwise a new entry is appended to the chain. Never
    /// resizes and never fails.
    #[verifier::rlimit(50)]
    pub fn insert(&mut self, key: u64, value: String)
        requires
            old(self).inv(),
        ensures
            final(self).inv(),
            final(self)@ == old(self)@.insert(key, value@),
            final(self).key_count(key) == 1,
    {
        let ghost m0 = *old(self);
        let (hash, idx) = hash_and_index(&key);
        let mut target = self.entries.remove(idx);
        let n = target.len();
        let mut j: usize = 0;
        let mut found = false;
        while !found && j < n
            invariant
                m0.inv(),
                n == target@.len(),
                target@ == m0.buckets()[idx as int],
                idx as int == bucket_of(key),
                idx < MAP_CAPACITY,
                hash == key_hash(key),
                j <= n,
                forall|j0: int| 0 <= j0 < j ==> (#[trigger] target@[j0]).key != key,
                found ==> j < n && target@[j as int].key == key,
            decreases n - j, (if found { 0int } else { 1int }),
        {
            if target[j].hash == hash && target[j].key == key {
                found = true;
            } else {
                proof {
                    // an entry carrying `key` would also carry its hash
                    assert(entry_in_bucket(m0.buckets()[idx as int][j as int], idx as int));
                }
                j += 1;
            }
        }
        let new_entry = Entry { hash, key, value };
        if found {
            target[j] = new_entry;
        } else {
            target.push(new_entry);
        }
        self.entries.insert(idx, target);
        proof {
            let m1 = *self;
            let b0 = m0.buckets();
            let b1 = m1.buckets();
            let i = idx as int;
            let t0 = b0[i];
            let t1 = b1[i];
            assert(b1 =~= b0.update(i, t1));
            if found {
                assert(t1 =~= t0.update(j as int, new_entry));
            } else {
                assert(t1 =~= t0.push(new_entry));
            }
            assert(m1.inv()) by {
                assert forall|bi: int, bj: int|
                    0 <= bi < b1.len() && 0 <= bj < b1[bi].len() implies entry_in_bucket(
                    #[trigger] b1[bi][bj],
                    bi,
                ) by {
                    if bi != i || (found && bj != j as int) || (!found && bj < t0.len()) {
                        assert(entry_in_bucket(b0[bi][bj], bi));
                    }
                }
                assert forall|bi: int, j1: int, j2: int|
                    0 <= bi < b1.len() && 0 <= j1 < b1[bi].len() && 0 <= j2 < b1[bi].len() && j1
                    != j2 implies (#[trigger] b1[bi][j1]).key != (#[trigger] b1[bi][j2]).key by {
                    if bi != i {
                        assert(b1[bi][j1] == b0[bi][j1] && b1[bi][j2] == b0[bi][j2]);
                    } else if found {
                        // the keys of the chain are unchanged position by position
                        assert(forall|j0: int|
                            0 <= j0 < t1.len() ==> (#[trigger] t1[j0]).key == t0[j0].key);
                    } else {
                        // appended key absent from the old chain; old keys distinct
                        assert(forall|j0: int|
                            0 <= j0 < t0.len() ==> (#[trigger] t1[j0]) == t0[j0]);
                    }
                }
            }
            let jn: int = if found {
                j as int
            } else {
                t0.len() as int
            };
            assert(t1[jn] == new_entry);
            m1.lemma_key_index(key, jn);
            assert forall|k: u64| k != key && #[trigger] m0@.contains_key(k) implies
                m1@.contains_key(k) && m1@[k] == m0@[k] by {
                lemma_bucket_range(k);
                let j0 = m0.key_index(k);
                m0.lemma_key_index(k, j0);
                if bucket_of(k) == i {
                    assert(t1[j0] == t0[j0]);
                }
                m1.lemma_key_index(k, j0);
            }
            assert forall|k: u64| k != key && #[trigger] m1@.contains_key(k) implies
                m0@.contains_key(k) by {
                lemma_bucket_range(k);
                let j1 = m1.key_index(k);
                m1.lemma_key_index(k, j1);
                if bucket_of(k) == i {
                    assert(j1 != jn);
                    assert(m1.chain_for(k)[j1] == m0.chain_for(k)[j1]);
                } else {
                    assert(m1.chain_for(k) == m0.chain_for(k));
                }
                assert(m0.chain_for(k)[j1].key == k);
                assert(m0.has_key(k));
            }
            assert(m1@ =~= m0@.insert(key, value@));
            lemma_key_count(m1, key);
        }
    }

    /// Computes the content hash of the table: every bucket and
    /// every entry's key and value, folded in the deterministic
    /// traversal order that `content_hash` fixes.
    pub(crate) fn compute_content_hash(&self) -> (h: u64)
        requires
            self.inv(),
        ensures
            h == content_hash(*self),
    {
        let mut acc: u64 = HASH_OFFSET;
        let nb = self.entries.len();
        let mut i: usize = 0;
        while i < nb
            invariant
                self.inv(),
                nb == self.buckets().len(),
                i <= nb,
                acc == buckets_fold(HASH_OFFSET, self.buckets().subrange(0, i as int)),
            decreases nb - i,
        {
            let bucket = &self.entries[i];
            let ghost outer = acc;
            let nc = bucket.len();
            let mut j: usize = 0;
            while j < nc
                invariant
                    self.inv(),
                    i < nb,
                    nb == self.buckets().len(),
                    bucket@ == self.buckets()[i as int],
                    nc == bucket@.len(),
                    j <= nc,
                    acc == chain_fold(outer, bucket@.subrange(0, j as int)),
                decreases nc - j,
            {
                let e = &bucket[j];
                let vh = string_hash(&e.value);
                acc = mix_step_exec(mix_step_exec(acc, e.hash), vh);
                proof {
                    // the recorded hash is the key's derived hash
                    assert(entry_in_bucket(self.buckets()[i as int][j as int], i as int));
                    assert(bucket@.subrange(0, j as int + 1).drop_last() =~= bucket@.subrange(
                        0,
                        j as int,
                    ));
                    assert(bucket@.subrange(0, j as int + 1).last() == bucket@[j as int]);
                }
                j += 1;
            }
            proof {
                assert(bucket@.subrange(0, nc as int) =~= bucket@);
                assert(self.buckets().subrange(0, i as int + 1).drop_last() =~= self.buckets()
                    .subrange(0, i as int));
                assert(self.buckets().subrange(0, i as int + 1).last() == self.buckets()[i as int]);
            }
            i += 1;
        }
        proof {
            assert(self.buckets().subrange(0, nb as int) =~= self.buckets());
        }
        acc
    }

    /// Removes the entry carrying a key from its chain and returns
    /// the owned value, or returns absence when no entry carries the
    /// key and leaves the table unchanged.
    pub fn remove(&mut self, key: &u64) -> (r: Option<String>)
        requires
            old(self).inv(),
        ensures
            final(self).inv(),
            final(self)@ == old(self)@.remove(*key),
            match r {
                Some(v) => old(self)@.contains_key(*key) && v@ == old(self)@[*key],
                None => !old(self)@.contains_key(*key),
            },
    {
        let ghost m0 = *old(self);
        let (hash, idx) = hash_and_index(key);
        let search = &self.entries[idx];
        let n = search.len();
        let mut j: usize = 0;
        let mut found = false;
        while !found && j < n
            invariant
                m0.inv(),
                n == search@.len(),
                search@ == m0.buckets()[idx as int],
                idx as int == bucket_of(*key),
                idx < MAP_CAPACITY,
                hash == key_hash(*key),
                j <= n,
                forall|j0: int| 0 <= j0 < j ==> (#[trigger] search@[j0]).key != *key,
                found ==> j < n && search@[j as int].key == *key,
            decreases n - j, (if found { 0int } else { 1int }),
        {
            if search[j].hash == hash && search[j].key == *key {
                found = true;
            } else {
                proof {
                    assert(entry_in_bucket(m0.buckets()[idx as int][j as int], idx as int));
                }
                j += 1;
            }
        }
        if !found {
            proof {
                assert(!m0.has_key(*key));
                assert(m0@ =~= m0@.remove(*key));
            }
            return None;
        }
        let mut target = self.entries.remove(idx);
        let removed = target.remove(j);
        self.entries.insert(idx, target);
        proof {
            let m1 = *self;
            let b0 = m0.buckets();
            let b1 = m1.buckets();
            let i = idx as int;
            assert(b1[i] =~= b0[i].remove(j as int));
            assert(b1 =~= b0.update(i, b0[i].remove(j as int)));
            m0.lemma_key_index(*key, j as int);
            lemma_remove_effect(m0, m1, *key, j as int);
        }
        Some(removed.value)
    }

    /// Looks a key up: scans the bucket the key's derived hash
    /// selects and returns a reference to the stored value, or
    /// absence when no entry carries the key. Read-only.
    pub fn get(&self, key: &u64) -> (r: Option<&String>)
        requires
            self.inv(),
        ensures
            match r {
                Some(v) => self@.contains_key(*key) && v@ == self@[*key],
                None => !self@.contains_key(*key),
            },
    {
        let (hash, idx) = hash_and_index(key);
        let target = &self.entries[idx];
        let n = target.len();
        let mut j: usize = 0;
        while j < n
            invariant
                self.inv(),
                n == target@.len(),
                target@ == self.chain_for(*key),
                idx as int == bucket_of(*key),
                hash == key_hash(*key),
                j <= n,
                forall|j0: int| 0 <= j0 < j ==> (#[trigger] target@[j0]).key != *key,
            decreases n - j,
        {
            let e = &target[j];
            if e.hash == hash && e.key == *key {
                proof {
                    self.lemma_key_index(*key, j as int);
                }
                return Some(&e.value);
            }
            proof {
                // a matching key would also match the recorded hash
                assert(entry_in_bucket(self.chain_for(*key)[j as int], idx as int));
            }
            j += 1;
        }
        proof {
            assert(!self.has_key(*key));
        }
        None
    }
}

/// Folds one entry into an accumulator: first the derived hash of
/// its key, then the hash of its value.
pub(crate) closed spec fn entry_fold(acc: u64, e: Entry) -> u64 {
    mix_step(mix_step(acc, key_hash(e.key)), str_hash(e.value@))
}

/// Folds the entries of one chain, in chain order, into `acc`.
pub(crate) closed spec fn chain_fold(acc: u64, es: Seq<Entry>) -> u64
    decreases es.len(),
{
    if es.len() == 0 {
        acc
    } else {
        entry_fold(chain_fold(acc, es.drop_last()), es.last())
    }
}

/// Folds whole chains, in bucket order, into `acc`.
pub(crate) closed spec fn buckets_fold(acc: u64, bs: Seq<Seq<Entry>>) -> u64
    decreases bs.len(),
{
    if bs.len() == 0 {
        acc
    } else {
        chain_fold(buckets_fold(acc, bs.drop_last()), bs.last())
    }
}

/// The content hash of a whole table: every entry's key and value,
/// folded in a fixed deterministic traversal order — bucket by
/// bucket, chain position by chain position. Value-identical tables
/// therefore hash alike.
pub closed spec fn content_hash(m: MyMap) -> u64 {
    buckets_fold(HASH_OFFSET, m.buckets())
}

/// How many entries of `es` carry key `k`.
pub(crate) closed spec fn chain_key_count(es: Seq<Entry>, k: u64) -> nat
    decreases es.len(),
{
    if es.len() == 0 {
        0
    } else {
        chain_key_count(es.drop_last(), k) + (if es.last().key == k {
            1nat
        } else {
            0nat
        })
    }
}

/// How many entries of all of `bs`'s chains together carry key `k`.
pub(crate) closed spec fn buckets_key_count(bs: Seq<Seq<Entry>>, k: u64) -> nat
    decreases bs.len(),
{
    if bs.len() == 0 {
        0
    } else {
        buckets_key_count(bs.drop_last(), k) + chain_key_count(bs.last(), k)
    }
}

/// Removing the one entry that carries key `k` from its chain drops
/// exactly `k` from the table's content and preserves
/// well-formedness.
#[verifier::rlimit(50)]
proof fn lemma_remove_effect(m0: MyMap, m1: MyMap, k: u64, j: int)
    requires
        m0.inv(),
        0 <= j < m0.chain_for(k).len(),
        m0.chain_for(k)[j].key == k,
        m1.buckets() == m0.buckets().update(bucket_of(k), m0.chain_for(k).remove(j)),
    ensures
        m1.inv(),
        m1@ == m0@.remove(k),
{
    let b0 = m0.buckets();
    let b1 = m1.buckets();
    let i = bucket_of(k);
    lemma_bucket_range(k);
    let t0 = b0[i];
    let t1 = b1[i];
    // every new chain position holds an old entry
    assert(forall|j1: int|
        0 <= j1 < t1.len() ==> (#[trigger] t1[j1]) == (if j1 < j {
            t0[j1]
        } else {
            t0[j1 + 1]
        }));
    assert(m1.inv()) by {
        assert forall|bi: int, bj: int|
            0 <= bi < b1.len() && 0 <= bj < b1[bi].len() implies entry_in_bucket(
            #[trigger] b1[bi][bj],
            bi,
        ) by {
            if bi != i {
                assert(entry_in_bucket(b0[bi][bj], bi));
            } else {
                let bj0: int = if bj < j {
                    bj
                } else {
                    bj + 1
                };
                assert(entry_in_bucket(b0[bi][bj0], bi));
            }
        }
    }
    assert(!m1.has_key(k)) by {
        assert forall|j1: int| 0 <= j1 < t1.len() implies (#[trigger] t1[j1]).key != k by {
            let j0: int = if j1 < j {
                j1
            } else {
                j1 + 1
            };
            if t0[j0].key == k {
                m0.lemma_key_index(k, j0);
            }
        }
    }
    assert forall|k2: u64| k2 != k && #[trigger] m0@.contains_key(k2) implies m1@.contains_key(k2)
        && m1@[k2] == m0@[k2] by {
        lemma_bucket_range(k2);
        let j0 = m0.key_index(k2);
        m0.lemma_key_index(k2, j0);
        if bucket_of(k2) == i {
            assert(j0 != j);
            let j1: int = if j0 < j {
                j0
            } else {
                j0 - 1
            };
            assert(t1[j1] == t0[j0]);
            m1.lemma_key_index(k2, j1);
        } else {
            m1.lemma_key_index(k2, j0);
        }
    }
    assert forall|k2: u64| k2 != k && #[trigger] m1@.contains_key(k2) implies m0@.contains_key(
        k2,
    ) by {
        lemma_bucket_range(k2);
        let j1 = m1.key_index(k2);
        m1.lemma_key_index(k2, j1);
        if bucket_of(k2) == i {
            let j0: int = if j1 < j {
                j1
            } else {
                j1 + 1
            };
            assert(m0.chain_for(k2)[j0].key == k2);
        } else {
            assert(m1.chain_for(k2) == m0.chain_for(k2));
            assert(m0.chain_for(k2)[j1].key == k2);
        }
        assert(m0.has_key(k2));
    }
    assert(m1@ =~= m0@.remove(k));
}

proof fn lemma_chain_count_zero(es: Seq<Entry>, k: u64)
    requires
        forall|j: int| 0 <= j < es.len() ==> (#[trigger] es[j]).key != k,
    ensures
        chain_key_count(es, k) == 0,
    decreases es.len(),
{
    if es.len() > 0 {
        lemma_chain_count_zero(es.drop_last(), k);
    }
}

proof fn lemma_chain_count_one(es: Seq<Entry>, k: u64, j: int)
    requires
        0 <= j < es.len(),
        es[j].key == k,
        forall|j2: int| 0 <= j2 < es.len() && j2 != j ==> (#[trigger] es[j2]).key != k,
    ensures
        chain_key_count(es, k) == 1,
    decreases es.len(),
{
    if j == es.len() - 1 {
        lemma_chain_count_zero(es.drop_last(), k);
    } else {
        lemma_chain_count_one(es.drop_last(), k, j);
    }
}

proof fn lemma_buckets_count_zero(bs: Seq<Seq<Entry>>, k: u64)
    requires
        forall|i: int, j: int|
            0 <= i < bs.len() && 0 <= j < bs[i].len() ==> (#[trigger] bs[i][j]).key != k,
    ensures
        buckets_key_count(bs, k) == 0,
    decreases bs.len(),
{
    if bs.len() > 0 {
        lemma_buckets_count_zero(bs.drop_last(), k);
        lemma_chain_count_zero(bs.last(), k);
    }
}

proof fn lemma_buckets_count_single(bs: Seq<Seq<Entry>>, k: u64, t: int)
    requires
        0 <= t < bs.len(),
        forall|i: int, j: int|
            0 <= i < bs.len() && i != t && 0 <= j < bs[i].len() ==> (#[trigger] bs[i][j]).key != k,
    ensures
        buckets_key_count(bs, k) == chain_key_count(bs[t], k),
    decreases bs.len(),
{
    if t == bs.len() - 1 {
        lemma_buckets_count_zero(bs.drop_last(), k);
    } else {
        lemma_buckets_count_single(bs.drop_last(), k, t);
        lemma_chain_count_zero(bs.last(), k);
    }
}

/// In a well-formed table each key is carried by exactly one entry
/// when the content maps it, and by none when it does not: the
/// physical chains never alias or duplicate a key.
pub proof fn lemma_key_count(m: MyMap, k: u64)
    requires
        m.inv(),
    ensures
        m@.contains_key(k) ==> m.key_count(k) == 1,
        !m@.contains_key(k) ==> m.key_count(k) == 0,
{
    let b = bucket_of(k);
    lemma_bucket_range(k);
    assert forall|i: int, j: int|
        0 <= i < m.buckets().len() && i != b && 0 <= j < m.buckets()[i].len() implies (
    #[trigger] m.buckets()[i][j]).key != k by {
        assert(entry_in_bucket(m.buckets()[i][j], i));
    }
    if m.has_key(k) {
        let j = m.key_index(k);
        m.lemma_key_index(k, j);
        lemma_chain_count_one(m.chain_for(k), k, j);
        lemma_buckets_count_single(m.buckets(), k, b);
    } else {
        assert forall|i: int, j: int|
            0 <= i < m.buckets().len() && 0 <= j < m.buckets()[i].len() implies (
        #[trigger] m.buckets()[i][j]).key != k by {
            assert(entry_in_bucket(m.buckets()[i][j], i));
        }
        lemma_buckets_count_zero(m.buckets(), k);
    }
}

/// Table round-trip: once (k, v) is inserted, the table's content
/// maps k to v, and keeps doing so across operations on any other
/// key, until k is overwritten or removed.
pub proof fn lemma_table_round_trip(
    t: Map<u64, Seq<char>>,
    k: u64,
    v: Seq<char>,
    k2: u64,
    v2: Seq<char>,
)
    requires
        k2 != k,
    ensures
        t.insert(k, v).contains_key(k),
        t.insert(k, v)[k] == v,
        t.insert(k, v).insert(k2, v2)[k] == v,
        t.insert(k, v).remove(k2)[k] == v,
        t.insert(k, v).insert(k, v2)[k] == v2,
        !t.insert(k, v).remove(k).contains_key(k),
{
}

/// Table overwrite: inserting the same key twice keeps exactly one
/// binding for it, carrying the later value. (That exactly one
/// physical entry remains is `insert`'s `key_count` postcondition,
/// backed by `lemma_key_count`.)
pub proof fn lemma_table_overwrite(t: Map<u64, Seq<char>>, k: u64, v1: Seq<char>, v2: Seq<char>)
    ensures
        t.insert(k, v1).insert(k, v2) == t.insert(k, v2),
        t.insert(k, v2)[k] == v2,
{
    assert(t.insert(k, v1).insert(k, v2) =~= t.insert(k, v2));
}

/// Table absence: a key never inserted, or removed since, is not in
/// the content, so `get` reports absence and never fabricates a
/// value.
pub proof fn lemma_table_absence(t: Map<u64, Seq<char>>, k: u64, k2: u64, v2: Seq<char>)
    requires
        k2 != k,
    ensures
        !Map::<u64, Seq<char>>::empty().contains_key(k),
        !t.contains_key(k) ==> !t.insert(k2, v2).contains_key(k),
        !t.remove(k).contains_key(k),
{
}

} // verus!
