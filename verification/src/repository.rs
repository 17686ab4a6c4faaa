//! A content-addressed, append-only snapshot repository.
//!
//! The repository owns an ordered sequence of immutable snapshots of
//! a table, each tagged by the content hash of the whole table, plus
//! a single "head" tag naming the currently active snapshot. It is a
//! flat version list: snapshots carry no parent links, and navigating
//! means moving the head tag. The model of a repository is the
//! sequence of its (tag, table) pairs together with the head tag.

use crate::mymap::{content_hash, MyMap};
use vstd::prelude::*;

verus! {

/// An immutable pairing of a content hash and the table it tags,
/// produced by a repository exclusively at checkpoint time.
#[derive(Debug, Clone)]
struct Snapshot {
    hash: u64,
    map: MyMap,
}

/// The (tag, table) pairs of a snapshot sequence, in order.
spec fn pairs_of(s: Seq<Snapshot>) -> Seq<(u64, MyMap)> {
    Seq::new(s.len(), |i: int| (s[i].hash, s[i].map))
}

impl Snapshot {
    /// Wraps a table together with the content hash of its contents.
    fn new(map: MyMap) -> (s: Self)
        requires
            map.inv(),
        ensures
            s.hash == content_hash(map),
            s.map == map,
    {
        let hash = hash(&map);
        Self { hash, map }
    }
}

/// Whether position `i` holds the first snapshot of `s` tagged `t`.
pub open spec fn first_match(s: Seq<(u64, MyMap)>, t: u64, i: int) -> bool {
    &&& 0 <= i < s.len()
    &&& s[i].0 == t
    &&& forall|j: int| 0 <= j < i ==> (#[trigger] s[j]).0 != t
}

/// As soon as any snapshot carries tag `t`, a first one does.
proof fn lemma_first_match_exists(s: Seq<(u64, MyMap)>, t: u64, i: int)
    requires
        0 <= i < s.len(),
        s[i].0 == t,
    ensures
        exists|f: int| #[trigger] first_match(s, t, f),
    decreases i,
{
    if forall|j: int| 0 <= j < i ==> (#[trigger] s[j]).0 != t {
        assert(first_match(s, t, i));
    } else {
        let j = choose|j: int| 0 <= j < i && (#[trigger] s[j]).0 == t;
        lemma_first_match_exists(s, t, j);
    }
}

/// The snapshots of `s` tagged `t`, in their stored order.
pub open spec fn keep_tag(s: Seq<(u64, MyMap)>, t: u64) -> Seq<(u64, MyMap)>
    decreases s.len(),
{
    if s.len() == 0 {
        s
    } else if s.last().0 == t {
        keep_tag(s.drop_last(), t).push(s.last())
    } else {
        keep_tag(s.drop_last(), t)
    }
}

/// A repository: an ordered, append-only sequence of snapshots and
/// the head tag. It grows only by `checkpoint` and shrinks only by
/// `prune`.
#[derive(Debug)]
pub struct Repository {
    repository: Vec<Snapshot>,
    head: u64,
}

impl Repository {
    /// The stored snapshots: the tag and table of each, in insertion
    /// order.
    pub closed spec fn snaps(&self) -> Seq<(u64, MyMap)> {
        pairs_of(self.repository@)
    }

    /// The current head tag.
    pub closed spec fn head_tag(&self) -> u64 {
        self.head
    }

    /// Whether some stored snapshot is tagged `t`.
    pub open spec fn has_tag(&self, t: u64) -> bool {
        exists|i: int| 0 <= i < self.snaps().len() && (#[trigger] self.snaps()[i]).0 == t
    }

    /// Whether `head()` resolves to table `m`: the first stored
    /// snapshot whose tag equals the head tag holds `m`.
    pub open spec fn head_resolves_to(&self, m: MyMap) -> bool {
        exists|i: int|
            #[trigger] first_match(self.snaps(), self.head_tag(), i) && self.snaps()[i].1 == m
    }

    /// Well-formedness: every snapshot is tagged by the content hash
    /// of its own well-formed table, and once the repository is
    /// non-empty the head tag names a stored snapshot.
    pub open spec fn inv(&self) -> bool {
        &&& forall|i: int|
            0 <= i < self.snaps().len() ==> (#[trigger] self.snaps()[i]).0 == content_hash(
                self.snaps()[i].1,
            ) && self.snaps()[i].1.inv()
        &&& self.snaps().len() > 0 ==> self.has_tag(self.head_tag())
    }

    /// Returns a repository with no snapshots and a sentinel head
    /// tag that corresponds to no real snapshot.
    pub fn init_empty() -> (r: Self)
        ensures
            r.inv(),
            r.snaps().len() == 0,
            r.head_tag() == 0,
    {
        Repository { repository: Vec::new(), head: 0 }
    }

    /// Returns the table of the first stored snapshot whose tag
    /// equals the current head. Calling this on a freshly
    /// initialized, never-checkpointed repository is a usage error:
    /// the precondition rules the sentinel head out instead of
    /// letting the call fail at run time.
    pub fn head(&self) -> (r: &MyMap)
        requires
            self.inv(),
            self.has_tag(self.head_tag()),
        ensures
            self.head_resolves_to(*r),
            r.inv(),
    {
        let n = self.repository.len();
        let mut i: usize = 0;
        while i < n && self.repository[i].hash != self.head
            invariant
                n == self.snaps().len(),
                i <= n,
                forall|j: int| 0 <= j < i ==> (#[trigger] self.snaps()[j]).0 != self.head_tag(),
            decreases n - i,
        {
            i += 1;
        }
        proof {
            if i == n {
                let w = choose|w: int|
                    0 <= w < self.snaps().len() && (#[trigger] self.snaps()[w]).0
                        == self.head_tag();
                assert(self.snaps()[w].0 != self.head_tag());
            }
            assert(first_match(self.snaps(), self.head_tag(), i as int));
        }
        &self.repository[i].map
    }

    /// The number of retained snapshots. Pure read; never fails.
    pub fn repository_size(&self) -> (n: usize)
        ensures
            n == self.snaps().len(),
    {
        self.repository.len()
    }

    /// Records a new version: computes the content hash over the
    /// entire table, appends (hash, table) to the sequence, moves
    /// head to that hash and returns it. Always succeeds, and takes
    /// ownership of the table; the stored copy is never mutated
    /// again. Unless an earlier snapshot of a different table already
    /// carries the new tag — a content-hash collision — `head()`
    /// resolves to the table just stored.
    pub fn checkpoint(&mut self, map: MyMap) -> (h: u64)
        requires
            old(self).inv(),
            map.inv(),
        ensures
            h == content_hash(map),
            final(self).snaps() == old(self).snaps().push((h, map)),
            final(self).head_tag() == h,
            final(self).inv(),
            (forall|i: int|
                0 <= i < old(self).snaps().len() && (#[trigger] old(self).snaps()[i]).0
                    == content_hash(map) ==> old(self).snaps()[i].1 == map)
                ==> final(self).head_resolves_to(map),
    {
        let snap = Snapshot::new(map);
        let h = snap.hash;
        self.repository.push(snap);
        self.head = h;
        proof {
            let s0 = old(self).snaps();
            let s1 = self.snaps();
            assert(s1 =~= s0.push((h, map)));
            assert(self.has_tag(h)) by {
                assert(s1[s0.len() as int].0 == h);
            }
            if forall|i: int|
                0 <= i < s0.len() && (#[trigger] s0[i]).0 == content_hash(map) ==> s0[i].1
                    == map {
                lemma_first_match_exists(s1, h, s0.len() as int);
                let f = choose|f: int| #[trigger] first_match(s1, h, f);
                if f < s0.len() {
                    assert(s0[f].0 == h);
                }
                assert(s1[f].1 == map);
            }
        }
        h
    }

    /// Moves head to `head` and reports success when some stored
    /// snapshot carries that tag; otherwise reports failure and
    /// leaves the head unchanged. Never removes or reorders
    /// snapshots, and an unknown tag is always recoverable.
    pub fn rollback(&mut self, head: u64) -> (b: bool)
        requires
            old(self).inv(),
        ensures
            b == old(self).has_tag(head),
            final(self).snaps() == old(self).snaps(),
            final(self).head_tag() == (if old(self).has_tag(head) {
                head
            } else {
                old(self).head_tag()
            }),
            final(self).inv(),
    {
        let n = self.repository.len();
        let mut i: usize = 0;
        while i < n && self.repository[i].hash != head
            invariant
                n == self.snaps().len(),
                i <= n,
                forall|j: int| 0 <= j < i ==> (#[trigger] self.snaps()[j]).0 != head,
            decreases n - i,
        {
            i += 1;
        }
        if i < n {
            self.head = head;
            proof {
                assert(old(self).snaps()[i as int].0 == head);
            }
            true
        } else {
            false
        }
    }

    /// Discards, irreversibly, every snapshot whose tag differs from
    /// the current head, keeping the matching ones in their stored
    /// order. The head tag does not move, and when it named a stored
    /// snapshot before it still names one afterwards.
    pub fn prune(&mut self)
        requires
            old(self).inv(),
        ensures
            final(self).head_tag() == old(self).head_tag(),
            final(self).snaps() == keep_tag(old(self).snaps(), old(self).head_tag()),
            final(self).inv(),
            old(self).has_tag(old(self).head_tag()) ==> final(self).has_tag(
                final(self).head_tag(),
            ),
    {
        let head = self.head;
        let ghost s0 = self.snaps();
        let mut kept: Vec<Snapshot> = Vec::new();
        while self.repository.len() > 0
            invariant
                self.head == head,
                old(self).inv(),
                s0 == old(self).snaps(),
                self.repository@.len() <= s0.len(),
                self.snaps() == s0.subrange(
                    s0.len() - self.repository@.len(),
                    s0.len() as int,
                ),
                pairs_of(kept@) == keep_tag(
                    s0.subrange(0, s0.len() - self.repository@.len()),
                    head,
                ),
                forall|j: int| 0 <= j < kept@.len() ==> (#[trigger] kept@[j]).hash == head,
            decreases self.repository@.len(),
        {
            let ghost c = s0.len() - self.repository@.len();
            let ghost prefix = s0.subrange(0, c);
            let ghost pre = self.repository@;
            let s = self.repository.remove(0);
            proof {
                assert(pairs_of(pre)[0] == s0.subrange(c, s0.len() as int)[0]);
                assert((s.hash, s.map) == s0[c]);
                assert(self.repository@ =~= pre.subrange(1, pre.len() as int));
                assert forall|j: int| 0 <= j < self.repository@.len() implies #[trigger] self.snaps()[j] == s0.subrange(c + 1, s0.len() as int)[j] by {
                    assert(pairs_of(pre)[j + 1] == s0.subrange(c, s0.len() as int)[j + 1]);
                }
                assert(self.snaps() =~= s0.subrange(c + 1, s0.len() as int));
                assert(s0.subrange(0, c + 1).drop_last() =~= prefix);
                assert(s0.subrange(0, c + 1).last() == s0[c]);
            }
            if s.hash == head {
                kept.push(s);
                proof {
                    assert(pairs_of(kept@) =~= keep_tag(prefix, head).push(s0[c]));
                    assert(pairs_of(kept@) =~= keep_tag(s0.subrange(0, c + 1), head));
                }
            } else {
                proof {
                    assert(keep_tag(s0.subrange(0, c + 1), head) == keep_tag(prefix, head));
                }
            }
        }
        self.repository = kept;
        proof {
            assert(s0.subrange(0, s0.len() as int) =~= s0);
            assert(self.snaps() == keep_tag(s0, head));
            assert forall|i: int|
                0 <= i < self.snaps().len() implies (#[trigger] self.snaps()[i]).0 == content_hash(
                self.snaps()[i].1,
            ) && self.snaps()[i].1.inv() by {
                lemma_keep_tag_member(s0, head, i);
            }
            if old(self).has_tag(old(self).head_tag()) {
                let w = choose|w: int|
                    0 <= w < s0.len() && (#[trigger] s0[w]).0 == old(self).head_tag();
                lemma_keep_tag_keeps_match(s0, head, w);
                assert(self.snaps()[0].0 == head);
            }
        }
    }
}

/// Every snapshot that `keep_tag` retains is one of the stored
/// snapshots, and carries the tag that was kept.
proof fn lemma_keep_tag_member(s: Seq<(u64, MyMap)>, t: u64, i: int)
    requires
        0 <= i < keep_tag(s, t).len(),
    ensures
        keep_tag(s, t)[i].0 == t,
        exists|j: int| 0 <= j < s.len() && #[trigger] s[j] == keep_tag(s, t)[i],
    decreases s.len(),
{
    if s.len() > 0 {
        if s.last().0 == t && i == keep_tag(s, t).len() - 1 {
            assert(s[s.len() - 1] == keep_tag(s, t)[i]);
        } else {
            lemma_keep_tag_member(s.drop_last(), t, i);
            let j = choose|j: int|
                0 <= j < s.drop_last().len() && #[trigger] s.drop_last()[j] == keep_tag(
                    s.drop_last(),
                    t,
                )[i];
            assert(s[j] == keep_tag(s, t)[i]);
        }
    }
}

/// When some stored snapshot carries tag `t`, pruning to `t` keeps at
/// least one snapshot.
proof fn lemma_keep_tag_keeps_match(s: Seq<(u64, MyMap)>, t: u64, i: int)
    requires
        0 <= i < s.len(),
        s[i].0 == t,
    ensures
        keep_tag(s, t).len() > 0,
    decreases s.len(),
{
    if i < s.len() - 1 {
        lemma_keep_tag_keeps_match(s.drop_last(), t, i);
    }
}

/// Computes the content hash of a table's entire contents: every
/// bucket and every entry's key and value, in a deterministic
/// traversal order.
fn hash(hashee: &MyMap) -> (h: u64)
    requires
        hashee.inv(),
    ensures
        h == content_hash(*hashee),
{
    hashee.compute_content_hash()
}

/// Monotonic append law: a checkpoint grows the snapshot sequence by
/// exactly one, whatever was stored before and whatever the table is;
/// n checkpoints after `init_empty` therefore leave exactly n
/// snapshots.
pub proof fn lemma_monotonic_append(r0: Repository, r1: Repository, m: MyMap)
    requires
        r1.snaps() == r0.snaps().push((content_hash(m), m)),
    ensures
        r1.snaps().len() == r0.snaps().len() + 1,
{
}

/// Head is unambiguous: the head tag resolves to at most one stored
/// table.
pub proof fn lemma_head_unique(r: Repository, a: MyMap, b: MyMap)
    requires
        r.head_resolves_to(a),
        r.head_resolves_to(b),
    ensures
        a == b,
{
    let s = r.snaps();
    let t = r.head_tag();
    let i = choose|i: int| #[trigger] first_match(s, t, i) && s[i].1 == a;
    let j = choose|j: int| #[trigger] first_match(s, t, j) && s[j].1 == b;
    if i < j {
        assert(s[i].0 != t);
    }
    if j < i {
        assert(s[j].0 != t);
    }
}

/// Rollback correctness law: after checkpointing table A and then
/// table B, a head tag moved back to A's tag resolves to A — even
/// when B happens to share the tag, the first stored match is A's
/// snapshot. (That `rollback` accepts exactly the stored tags, and
/// leaves the head alone on failure, is its own postcondition.)
pub proof fn lemma_rollback_head(r: Repository, a: MyMap, b: MyMap)
    requires
        r.snaps() == seq![(content_hash(a), a), (content_hash(b), b)],
        r.head_tag() == content_hash(a),
    ensures
        r.head_resolves_to(a),
{
    assert(first_match(r.snaps(), r.head_tag(), 0));
}

/// Prune correctness law: in the rollback scenario above — tables A
/// then B checkpointed with distinct tags, head moved back to A's
/// tag — pruning retains exactly A's snapshot, and head still
/// resolves to A.
pub proof fn lemma_prune_correct(r0: Repository, r1: Repository, a: MyMap, b: MyMap)
    requires
        r0.snaps() == seq![(content_hash(a), a), (content_hash(b), b)],
        r0.head_tag() == content_hash(a),
        content_hash(b) != content_hash(a),
        r1.snaps() == keep_tag(r0.snaps(), r0.head_tag()),
        r1.head_tag() == r0.head_tag(),
    ensures
        r1.snaps().len() == 1,
        r1.head_resolves_to(a),
{
    let s = r0.snaps();
    let t = content_hash(a);
    let one = seq![(t, a)];
    assert(s.drop_last() =~= one);
    assert(one.drop_last() =~= Seq::<(u64, MyMap)>::empty());
    assert(keep_tag(Seq::<(u64, MyMap)>::empty(), t) =~= Seq::<(u64, MyMap)>::empty());
    assert(keep_tag(one, t) =~= one);
    assert(keep_tag(s, t) =~= one);
    assert(first_match(r1.snaps(), t, 0));
}

} // verus!
