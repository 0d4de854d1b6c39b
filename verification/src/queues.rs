//! The sampling-queue structure: an inverted index over the person population
//! supporting staged relaxed matching.
//!
//! Each index maps a key (middle-area plus some of age, sex, ethnicity) to a
//! queue of person identifiers, shuffled once at construction and consumed
//! from the tail. The authoritative `matched` / `unmatched` sets are kept
//! eagerly; queues may hold stale entries of already-matched persons, which
//! the pop-and-skip filter discards, so a person is taken at most once.

use vstd::prelude::*;

use crate::person::Person;
use crate::rng::shuffle_pids;
use crate::{Age, Eth, Sex, MSOA};

verus! {

broadcast use vstd::seq_lib::group_seq_properties;

/// A set of person identifiers, backed by a hash set of the `hashbrown`
/// crate. The abstract contents are named by [`pid_set_view`]; every
/// operation states its effect on that view.
#[verifier::external_body]
pub struct PidSet {
    inner: hashbrown::HashSet<usize>,
}

/// The contents of a [`PidSet`].
pub uninterp spec fn pid_set_view(s: PidSet) -> Set<usize>;

impl PidSet {
    /// Relies on `hashbrown::HashSet::new`: the new set is empty.
    #[verifier::external_body]
    pub fn new() -> (s: Self)
        ensures
            pid_set_view(s) == Set::<usize>::empty(),
    {
        PidSet { inner: hashbrown::HashSet::new() }
    }

    /// Relies on `hashbrown::HashSet::insert`: afterwards the set holds the
    /// given value and everything it held before.
    #[verifier::external_body]
    pub fn insert(&mut self, pid: usize)
        ensures
            pid_set_view(*final(self)) == pid_set_view(*old(self)).insert(pid),
    {
        self.inner.insert(pid);
    }

    /// Relies on `hashbrown::HashSet::remove`: afterwards the set holds
    /// everything it held before but the given value.
    #[verifier::external_body]
    pub fn remove(&mut self, pid: usize)
        ensures
            pid_set_view(*final(self)) == pid_set_view(*old(self)).remove(pid),
    {
        self.inner.remove(&pid);
    }

    /// Relies on `hashbrown::HashSet::contains`: membership in the contents.
    #[verifier::external_body]
    pub fn contains(&self, pid: usize) -> (r: bool)
        ensures
            r == pid_set_view(*self).contains(pid),
    {
        self.inner.contains(&pid)
    }
}

/// A queue key: a middle-area and as much of (age, sex, ethnicity) as the
/// index distinguishes; unused components are zero.
#[derive(Hash, Copy, Clone, Debug, PartialEq, Eq, Structural)]
pub struct QKey {
    pub area: usize,
    pub age: usize,
    pub sex: usize,
    pub eth: i32,
}

/// One keyed queue of person identifiers.
pub struct QEntry {
    pub key: QKey,
    pub pids: Vec<usize>,
}

/// The position of the first entry with the given key, or -1.
pub open spec fn key_index(s: Seq<QEntry>, k: QKey) -> int
    decreases s.len(),
{
    if s.len() == 0 {
        -1
    } else if s[0].key == k {
        0
    } else {
        let r = key_index(s.drop_first(), k);
        if r < 0 {
            -1
        } else {
            r + 1
        }
    }
}

/// Basic facts about [`key_index`]: it is a position of the key when one
/// exists, and -1 exactly when the key is absent.
proof fn lemma_key_index(s: Seq<QEntry>, k: QKey)
    ensures
        -1 <= key_index(s, k) < s.len(),
        key_index(s, k) >= 0 ==> s[key_index(s, k)].key == k,
        key_index(s, k) == -1 ==> forall|i: int| 0 <= i < s.len() ==> s[i].key != k,
        forall|i: int| 0 <= i < key_index(s, k) ==> s[i].key != k,
    decreases s.len(),
{
    if s.len() > 0 && s[0].key != k {
        lemma_key_index(s.drop_first(), k);
        assert forall|i: int| 0 <= i < s.len() && key_index(s, k) == -1 implies s[i].key
            != k by {
            if i > 0 {
                assert(s.drop_first()[i - 1] == s[i]);
            }
        }
        assert forall|i: int| 0 <= i < key_index(s, k) implies s[i].key != k by {
            if i > 0 {
                assert(s.drop_first()[i - 1] == s[i]);
            }
        }
    }
}

/// With pairwise-distinct keys, any position holding the key is the first.
proof fn lemma_key_index_unique(s: Seq<QEntry>, k: QKey, i: int)
    requires
        unique_keys(s),
        0 <= i < s.len(),
        s[i].key == k,
    ensures
        key_index(s, k) == i,
{
    lemma_key_index(s, k);
}

/// [`key_index`] depends only on the sequence of keys.
proof fn lemma_key_index_same_keys(s1: Seq<QEntry>, s2: Seq<QEntry>, k: QKey)
    requires
        s1.len() == s2.len(),
        forall|i: int| 0 <= i < s1.len() ==> s1[i].key == s2[i].key,
    ensures
        key_index(s1, k) == key_index(s2, k),
    decreases s1.len(),
{
    if s1.len() > 0 {
        assert forall|i: int| 0 <= i < s1.drop_first().len() implies s1.drop_first()[i].key
            == s2.drop_first()[i].key by {
            assert(s1.drop_first()[i] == s1[i + 1]);
            assert(s2.drop_first()[i] == s2[i + 1]);
        }
        lemma_key_index_same_keys(s1.drop_first(), s2.drop_first(), k);
    }
}

/// Appending an entry leaves earlier keys where they were and places a fresh
/// key at the end.
proof fn lemma_key_index_push(s: Seq<QEntry>, e: QEntry, k: QKey)
    ensures
        key_index(s, k) >= 0 ==> key_index(s.push(e), k) == key_index(s, k),
        key_index(s, k) == -1 && e.key == k ==> key_index(s.push(e), k) == s.len(),
        key_index(s, k) == -1 && e.key != k ==> key_index(s.push(e), k) == -1,
    decreases s.len(),
{
    if s.len() == 0 {
        assert(s.push(e).drop_first() =~= Seq::<QEntry>::empty());
    } else {
        assert(s.push(e).drop_first() =~= s.drop_first().push(e));
        lemma_key_index_push(s.drop_first(), e, k);
    }
}

/// The absolute difference of two ages.
pub open spec fn abs_diff(a: int, b: int) -> int {
    if a >= b {
        a - b
    } else {
        b - a
    }
}

/// Whether all keys are pairwise distinct.
pub open spec fn unique_keys(s: Seq<QEntry>) -> bool {
    forall|i: int, j: int| 0 <= i < j < s.len() ==> s[i].key != s[j].key
}

/// One inverted index: an association list from keys to queues, with
/// pairwise-distinct keys kept in first-encounter order (deterministic, since
/// the person table is walked in order at construction).
pub struct QueueMap {
    entries: Vec<QEntry>,
}

impl QueueMap {
    /// Pairwise-distinct keys.
    pub closed spec fn wf(self) -> bool {
        unique_keys(self.entries@)
    }

    /// The queue under a key; empty when the key is absent.
    pub closed spec fn spec_get(self, k: QKey) -> Seq<usize> {
        if key_index(self.entries@, k) < 0 {
            Seq::empty()
        } else {
            self.entries@[key_index(self.entries@, k)].pids@
        }
    }

    /// An empty index.
    pub fn new() -> (r: Self)
        ensures
            r.wf(),
            forall|k: QKey| r.spec_get(k) == Seq::<usize>::empty(),
    {
        let r = QueueMap { entries: Vec::new() };
        proof {
            assert forall|k: QKey| r.spec_get(k) == Seq::<usize>::empty() by {
                lemma_key_index(r.entries@, k);
            }
        }
        r
    }

    /// The position of the entry with the given key, if present.
    fn find(&self, k: QKey) -> (r: Option<usize>)
        requires
            self.wf(),
        ensures
            match r {
                Some(i) => i < self.entries@.len() && self.entries@[i as int].key == k
                    && key_index(self.entries@, k) == i,
                None => key_index(self.entries@, k) == -1,
            },
    {
        let mut i: usize = 0;
        while i < self.entries.len()
            invariant
                self.wf(),
                0 <= i <= self.entries@.len(),
                forall|j: int| 0 <= j < i ==> self.entries@[j].key != k,
            decreases self.entries@.len() - i,
        {
            if self.entries[i].key == k {
                proof {
                    lemma_key_index_unique(self.entries@, k, i as int);
                }
                return Some(i);
            }
            i += 1;
        }
        proof {
            lemma_key_index(self.entries@, k);
        }
        None
    }

    /// Appends a person to the queue under the key, creating the queue if the
    /// key is new. All other queues are untouched.
    pub fn add_pid(&mut self, k: QKey, pid: usize)
        requires
            old(self).wf(),
        ensures
            final(self).wf(),
            final(self).spec_get(k) == old(self).spec_get(k).push(pid),
            forall|k2: QKey| k2 != k ==> final(self).spec_get(k2) == old(self).spec_get(k2),
    {
        let found = self.find(k);
        match found {
            Some(i) => {
                self.entries[i].pids.push(pid);
                proof {
                    let olde = old(self).entries@;
                    let newe = self.entries@;
                    assert(newe.len() == olde.len());
                    assert(forall|j: int| 0 <= j < olde.len() ==> newe[j].key == olde[j].key);
                    assert forall|k2: QKey| true implies key_index(newe, k2) == key_index(
                        olde,
                        k2,
                    ) by {
                        lemma_key_index_same_keys(newe, olde, k2);
                    }
                    assert(final(self).spec_get(k) == old(self).spec_get(k).push(pid));
                    assert forall|k2: QKey| k2 != k implies final(self).spec_get(k2) == old(self).spec_get(k2) by {
                        lemma_key_index(olde, k2);
                    }
                }
            },
            None => {
                let mut pids: Vec<usize> = Vec::new();
                pids.push(pid);
                let e = QEntry { key: k, pids };
                self.entries.push(e);
                proof {
                    let olde = old(self).entries@;
                    let newe = self.entries@;
                    assert(newe =~= olde.push(e));
                    lemma_key_index(olde, k);
                    assert forall|i: int, j: int| 0 <= i < j < newe.len() implies newe[i].key
                        != newe[j].key by {
                        if j == newe.len() - 1 {
                            assert(newe[j].key == k);
                        }
                    }
                    lemma_key_index_push(olde, e, k);
                    assert(old(self).spec_get(k) == Seq::<usize>::empty());
                    assert(final(self).spec_get(k) =~= old(self).spec_get(k).push(pid));
                    assert forall|k2: QKey| k2 != k implies final(self).spec_get(k2) == old(self).spec_get(k2) by {
                        lemma_key_index_push(olde, e, k2);
                        lemma_key_index(olde, k2);
                    }
                }
            },
        }
    }

    /// Takes a person from the tail of the queue under the key: pops until an
    /// entry not yet matched is found, discarding stale entries, and moves
    /// the found person from `unmatched` to `matched`. Returns nothing only
    /// when every entry of the queue was stale (in particular when the key is
    /// absent); a person still unmatched never leaves the queue unreturned.
    pub fn take(&mut self, k: QKey, matched: &mut PidSet, unmatched: &mut PidSet) -> (r: Option<
        usize,
    >)
        requires
            old(self).wf(),
        ensures
            final(self).wf(),
            forall|k2: QKey| k2 != k ==> final(self).spec_get(k2) == old(self).spec_get(k2),
            forall|q: usize|
                final(self).spec_get(k).contains(q) ==> old(self).spec_get(k).contains(q),
            match r {
                Some(p) => old(self).spec_get(k).contains(p) && !pid_set_view(
                    *old(matched),
                ).contains(p) && pid_set_view(*final(matched)) == pid_set_view(
                    *old(matched),
                ).insert(p) && pid_set_view(*final(unmatched)) == pid_set_view(
                    *old(unmatched),
                ).remove(p) && (forall|q: usize|
                    old(self).spec_get(k).contains(q) && !pid_set_view(*old(matched)).contains(q)
                        && q != p ==> final(self).spec_get(k).contains(q)) && (exists|jx: int|
                    0 <= jx < old(self).spec_get(k).len() && old(self).spec_get(k)[jx] == p
                        && final(self).spec_get(k) == old(self).spec_get(k).take(jx) && (forall|
                        lx: int,
                    |
                        jx < lx < old(self).spec_get(k).len() ==> pid_set_view(
                            *old(matched),
                        ).contains(old(self).spec_get(k)[lx]))),
                None => (forall|j: int|
                    0 <= j < old(self).spec_get(k).len() ==> pid_set_view(*old(matched)).contains(
                        old(self).spec_get(k)[j],
                    )) && final(self).spec_get(k).len() == 0 && pid_set_view(*final(matched))
                    == pid_set_view(*old(matched)) && pid_set_view(*final(unmatched))
                    == pid_set_view(*old(unmatched)),
            },
    {
        let found = self.find(k);
        let i = match found {
            Some(i) => i,
            None => {
                proof {
                    lemma_key_index(self.entries@, k);
                }
                return None;
            },
        };
        let ghost old_q = old(self).spec_get(k);
        let ghost olde = old(self).entries@;
        let ghost mview = pid_set_view(*old(matched));
        proof {
            assert(old_q == olde[i as int].pids@);
            assert(old_q.take(old_q.len() as int) =~= old_q);
        }
        while self.entries[i].pids.len() > 0
            invariant
                self.wf(),
                i < self.entries@.len(),
                olde == old(self).entries@,
                old_q == old(self).spec_get(k),
                mview == pid_set_view(*old(matched)),
                key_index(olde, k) == i,
                self.entries@.len() == olde.len(),
                forall|j: int| 0 <= j < olde.len() ==> self.entries@[j].key == olde[j].key,
                forall|j: int| 0 <= j < olde.len() && j != i ==> self.entries@[j] == olde[j],
                key_index(self.entries@, k) == i,
                self.entries@[i as int].pids@.len() <= old_q.len(),
                self.entries@[i as int].pids@ == old_q.take(
                    self.entries@[i as int].pids@.len() as int,
                ),
                forall|l: int|
                    self.entries@[i as int].pids@.len() <= l < old_q.len() ==> mview.contains(
                        #[trigger] old_q[l],
                    ),
                pid_set_view(*matched) == mview,
                pid_set_view(*unmatched) == pid_set_view(*old(unmatched)),
            decreases self.entries@[i as int].pids@.len(),
        {
            let ghost cur_q = self.entries@[i as int].pids@;
            let popped = self.entries[i].pids.pop();
            let p = popped.unwrap();
            proof {
                assert(cur_q[cur_q.len() - 1] == old_q[cur_q.len() - 1]);
                assert(p == old_q[cur_q.len() - 1]);
                assert(self.entries@[i as int].pids@ =~= old_q.take(cur_q.len() - 1));
                lemma_key_index_same_keys(self.entries@, olde, k);
            }
            if !matched.contains(p) {
                matched.insert(p);
                unmatched.remove(p);
                proof {
                    assert(old_q.contains(p));
                    let new_q = self.spec_get(k);
                    assert(new_q == old_q.take(cur_q.len() - 1));
                    assert forall|q: usize|
                        old_q.contains(q) && !mview.contains(q) && q != p implies new_q.contains(
                        q,
                    ) by {
                        let j = choose|j: int| 0 <= j < old_q.len() && old_q[j] == q;
                        assert(j < cur_q.len() - 1);
                        assert(new_q[j] == q);
                    }
                    assert forall|k2: QKey| k2 != k implies self.spec_get(k2) == old(self).spec_get(k2) by {
                        lemma_key_index_same_keys(self.entries@, olde, k2);
                        lemma_key_index(olde, k2);
                        lemma_key_index(olde, k);
                        let j = key_index(olde, k2);
                        if j >= 0 {
                            assert(olde[j].key == k2);
                            assert(olde[i as int].key == k);
                            assert(j != i);
                            assert(self.entries@[j] == olde[j]);
                        }
                    }
                    assert forall|q: usize| new_q.contains(q) implies old_q.contains(q) by {
                        let j = choose|j: int| 0 <= j < new_q.len() && new_q[j] == q;
                        assert(old_q[j] == q);
                    }
                    let jx = cur_q.len() - 1;
                    assert(0 <= jx < old_q.len() && old_q[jx] == p && self.spec_get(k) == old_q.take(
                        jx,
                    ) && (forall|lx: int| jx < lx < old_q.len() ==> mview.contains(old_q[lx])));
                }
                return Some(p);
            }
        }
        proof {
            assert(self.entries@[i as int].pids@.len() == 0);
            assert forall|k2: QKey| k2 != k implies final(self).spec_get(k2) == old(self).spec_get(k2) by {
                lemma_key_index_same_keys(self.entries@, olde, k2);
                lemma_key_index(olde, k2);
            }
        }
        None
    }

    /// The relaxed take used at the last level of sampling: discards every
    /// stale entry of the queue under the key, then removes and returns the
    /// still-unmatched person whose age differs least from the requested age,
    /// ties broken by encounter order.
    pub fn take_closest(
        &mut self,
        k: QKey,
        age: usize,
        matched: &mut PidSet,
        unmatched: &mut PidSet,
        p_data: &Vec<Person>,
    ) -> (r: Option<usize>)
        requires
            old(self).wf(),
            forall|j: int|
                0 <= j < old(self).spec_get(k).len() ==> #[trigger] old(self).spec_get(k)[j]
                    < p_data@.len(),
        ensures
            final(self).wf(),
            forall|k2: QKey| k2 != k ==> final(self).spec_get(k2) == old(self).spec_get(k2),
            forall|q: usize|
                final(self).spec_get(k).contains(q) ==> old(self).spec_get(k).contains(q),
            match r {
                Some(p) => old(self).spec_get(k).contains(p) && !pid_set_view(
                    *old(matched),
                ).contains(p) && p < p_data@.len() && pid_set_view(*final(matched)) == pid_set_view(
                    *old(matched),
                ).insert(p) && pid_set_view(*final(unmatched)) == pid_set_view(
                    *old(unmatched),
                ).remove(p) && (forall|q: usize|
                    old(self).spec_get(k).contains(q) && !pid_set_view(*old(matched)).contains(q)
                        && q != p ==> final(self).spec_get(k).contains(q)) && (forall|q: usize|
                    old(self).spec_get(k).contains(q) && !pid_set_view(*old(matched)).contains(q)
                        ==> abs_diff(p_data@[q as int].age.0 as int, age as int) >= abs_diff(
                        p_data@[p as int].age.0 as int,
                        age as int,
                    )) && (exists|jx: int|
                    0 <= jx < old(self).spec_get(k).len() && old(self).spec_get(k)[jx] == p && (
                    forall|lx: int|
                        0 <= lx < jx && !pid_set_view(*old(matched)).contains(
                            #[trigger] old(self).spec_get(k)[lx],
                        ) ==> abs_diff(
                            p_data@[old(self).spec_get(k)[lx] as int].age.0 as int,
                            age as int,
                        ) > abs_diff(p_data@[p as int].age.0 as int, age as int))),
                None => (forall|j: int|
                    0 <= j < old(self).spec_get(k).len() ==> pid_set_view(*old(matched)).contains(
                        old(self).spec_get(k)[j],
                    )) && pid_set_view(*final(matched)) == pid_set_view(*old(matched))
                    && pid_set_view(*final(unmatched)) == pid_set_view(*old(unmatched)),
            },
    {
        broadcast use vstd::seq_lib::group_to_multiset_ensures;

        let found = self.find(k);
        let i = match found {
            Some(i) => i,
            None => {
                return None;
            },
        };
        let ghost old_q = old(self).spec_get(k);
        let ghost olde = old(self).entries@;
        let ghost mview = pid_set_view(*old(matched));
        proof {
            assert(old_q == olde[i as int].pids@);
        }
        // Discard every stale entry, keeping encounter order.
        proof {
            assert forall|l: int| 0 <= l < old_q.len() implies #[trigger] old_q[l]
                < p_data@.len() by {
                assert(old(self).spec_get(k)[l] < p_data@.len());
            }
        }
        let n = self.entries[i].pids.len();
        let mut kept: Vec<usize> = Vec::new();
        let ghost mut pos: Seq<int> = Seq::empty();
        let mut j: usize = 0;
        while j < n
            invariant
                j <= n,
                i < self.entries@.len(),
                self.entries@ == olde,
                old_q == olde[i as int].pids@,
                mview == pid_set_view(*old(matched)),
                n == old_q.len(),
                pid_set_view(*matched) == mview,
                forall|l: int| 0 <= l < old_q.len() ==> #[trigger] old_q[l] < p_data@.len(),
                forall|l: int|
                    0 <= l < kept@.len() ==> old_q.contains(#[trigger] kept@[l]) && !mview.contains(
                        kept@[l],
                    ) && kept@[l] < p_data@.len(),
                forall|l: int|
                    0 <= l < j && !mview.contains(#[trigger] old_q[l]) ==> kept@.contains(old_q[l]),
                pos.len() == kept@.len(),
                forall|x: int|
                    0 <= x < pos.len() ==> 0 <= #[trigger] pos[x] < j && old_q[pos[x]] == kept@[x],
                forall|x: int, y: int| 0 <= x < y < pos.len() ==> pos[x] < pos[y],
                forall|l: int|
                    0 <= l < j && !mview.contains(#[trigger] old_q[l]) ==> (exists|x: int|
                        0 <= x < pos.len() && pos[x] == l),
            decreases n - j,
        {
            let q = self.entries[i].pids[j];
            if !matched.contains(q) {
                kept.push(q);
                proof {
                    let pos0 = pos;
                    pos = pos.push(j as int);
                    assert(old_q.contains(old_q[j as int]));
                    assert(pos[pos.len() - 1] == j as int);
                    assert forall|l: int|
                        0 <= l < j + 1 && !mview.contains(#[trigger] old_q[l]) implies (exists|
                        x: int,
                    |
                        0 <= x < pos.len() && pos[x] == l) by {
                        if l == j {
                            assert(pos[pos.len() - 1] == l);
                        } else {
                            let x = choose|x: int| 0 <= x < pos0.len() && pos0[x] == l;
                            assert(pos[x] == l);
                        }
                    }
                }
            }
            j += 1;
        }
        if kept.len() == 0 {
            proof {
                assert forall|l: int| 0 <= l < old_q.len() implies mview.contains(
                    #[trigger] old_q[l],
                ) by {
                    if !mview.contains(old_q[l]) {
                        assert(kept@.contains(old_q[l]));
                    }
                }
            }
            self.entries[i] = QEntry { key: k, pids: kept };
            proof {
                lemma_key_index_same_keys(self.entries@, olde, k);
                assert forall|k2: QKey| k2 != k implies final(self).spec_get(k2) == old(self).spec_get(k2) by {
                    lemma_key_index_same_keys(self.entries@, olde, k2);
                    lemma_key_index(olde, k2);
                }
            }
            return None;
        }
        // Select the still-unmatched person with the smallest age difference.
        let target = p_data[kept[0]].age.0;
        let mut best_idx: usize = 0;
        let mut best_diff: usize = if target > age {
            target - age
        } else {
            age - target
        };
        let mut l: usize = 1;
        while l < kept.len()
            invariant
                kept@.len() > 0,
                1 <= l <= kept@.len(),
                best_idx < l,
                forall|m: int|
                    0 <= m < kept@.len() ==> #[trigger] kept@[m] < p_data@.len(),
                best_diff == abs_diff(p_data@[kept@[best_idx as int] as int].age.0 as int, age as int),
                forall|m: int|
                    0 <= m < l ==> best_diff <= abs_diff(
                        p_data@[#[trigger] kept@[m] as int].age.0 as int,
                        age as int,
                    ),
                forall|m: int|
                    0 <= m < best_idx ==> abs_diff(
                        p_data@[#[trigger] kept@[m] as int].age.0 as int,
                        age as int,
                    ) > best_diff,
            decreases kept@.len() - l,
        {
            let a = p_data[kept[l]].age.0;
            let d = if a > age {
                a - age
            } else {
                age - a
            };
            if d < best_diff {
                best_idx = l;
                best_diff = d;
            }
            l += 1;
        }
        let ghost kept_before = kept@;
        let p = kept.remove(best_idx);
        matched.insert(p);
        unmatched.remove(p);
        self.entries[i] = QEntry { key: k, pids: kept };
        proof {
            assert(kept@ =~= kept_before.remove(best_idx as int));
            lemma_key_index_same_keys(self.entries@, olde, k);
            let new_q = final(self).spec_get(k);
            assert(new_q == kept@);
            assert forall|k2: QKey| k2 != k implies final(self).spec_get(k2) == old(self).spec_get(k2) by {
                lemma_key_index_same_keys(self.entries@, olde, k2);
                lemma_key_index(olde, k2);
            }
            assert forall|q: usize|
                old_q.contains(q) && !mview.contains(q) && q != p implies new_q.contains(q) by {
                let m = choose|m: int| 0 <= m < old_q.len() && old_q[m] == q;
                assert(kept_before.contains(q));
                let m2 = choose|m2: int| 0 <= m2 < kept_before.len() && kept_before[m2] == q;
                if m2 < best_idx {
                    assert(new_q[m2] == kept_before[m2]);
                } else {
                    assert(m2 > best_idx);
                    assert(new_q[m2 - 1] == kept_before[m2]);
                }
            }
            assert forall|q: usize| new_q.contains(q) implies old_q.contains(q) by {
                let m = choose|m: int| 0 <= m < new_q.len() && new_q[m] == q;
                if m < best_idx {
                    assert(kept_before[m] == q);
                } else {
                    assert(kept_before[m + 1] == q);
                }
            }
            assert forall|q: usize|
                old_q.contains(q) && !mview.contains(q) implies abs_diff(
                p_data@[q as int].age.0 as int,
                age as int,
            ) >= abs_diff(p_data@[p as int].age.0 as int, age as int) by {
                let lq = choose|lq: int| 0 <= lq < old_q.len() && old_q[lq] == q;
                assert(kept_before.contains(q));
                let m = choose|m: int| 0 <= m < kept_before.len() && kept_before[m] == q;
                assert(abs_diff(p_data@[kept_before[m] as int].age.0 as int, age as int)
                    >= abs_diff(p_data@[kept_before[best_idx as int] as int].age.0 as int, age as int));
            }
            // Ties go to the earliest entry: everything before the chosen
            // position that is still unmatched differs strictly more in age.
            let jx = pos[best_idx as int];
            assert(old_q[jx] == kept_before[best_idx as int]);
            assert forall|lx: int|
                0 <= lx < jx && !mview.contains(#[trigger] old_q[lx]) implies abs_diff(
                p_data@[old_q[lx] as int].age.0 as int,
                age as int,
            ) > abs_diff(p_data@[p as int].age.0 as int, age as int) by {
                let x = choose|x: int| 0 <= x < pos.len() && pos[x] == lx;
                assert(x != best_idx);
                if x > best_idx {
                    assert(pos[best_idx as int] < pos[x]);
                }
                assert(x < best_idx);
                assert(kept_before[x] == old_q[lx]);
                assert(abs_diff(p_data@[kept_before[x] as int].age.0 as int, age as int)
                    > best_diff);
            }
            assert(0 <= jx < old_q.len() && old_q[jx] == p);
        }
        Some(p)
    }

    /// Shuffles every queue in place with the shared random source; each
    /// queue keeps exactly its elements, in some new order.
    pub fn shuffle(&mut self, rng: &mut rand::rngs::StdRng)
        requires
            old(self).wf(),
        ensures
            final(self).wf(),
            forall|k: QKey| (#[trigger] final(self).spec_get(k)).to_multiset() == old(self).spec_get(k).to_multiset(),
    {
        let ghost olde = old(self).entries@;
        let mut i: usize = 0;
        while i < self.entries.len()
            invariant
                self.entries@.len() == olde.len(),
                forall|j: int| 0 <= j < olde.len() ==> self.entries@[j].key == olde[j].key,
                forall|j: int|
                    0 <= j < olde.len() ==> (#[trigger] self.entries@[j].pids@).to_multiset()
                        == olde[j].pids@.to_multiset(),
                unique_keys(olde),
            decreases self.entries@.len() - i,
        {
            shuffle_pids(rng, &mut self.entries[i].pids);
            i += 1;
        }
        proof {
            let newe = self.entries@;
            assert forall|a: int, b: int| 0 <= a < b < newe.len() implies newe[a].key
                != newe[b].key by {
                assert(newe[a].key == olde[a].key);
                assert(newe[b].key == olde[b].key);
            }
            assert forall|k: QKey| (#[trigger] final(self).spec_get(k)).to_multiset() == old(self).spec_get(k).to_multiset() by {
                lemma_key_index_same_keys(newe, olde, k);
                lemma_key_index(olde, k);
            }
        }
    }
}

/// Appending to a queue keeps every element it held, and adds the new one.
proof fn lemma_push_contains(s: Seq<usize>, x: usize)
    ensures
        forall|q: usize| s.contains(q) ==> s.push(x).contains(q),
        s.push(x).contains(x),
{
    assert(s.push(x)[s.len() as int] == x);
    assert forall|q: usize| s.contains(q) implies s.push(x).contains(q) by {
        let j = choose|j: int| 0 <= j < s.len() && s[j] == q;
        assert(s.push(x)[j] == q);
    }
}

/// Stepping a suffix forward drops exactly its head.
pub proof fn lemma_skip_step(s: Seq<usize>, i: int, q: usize)
    requires
        0 <= i < s.len(),
    ensures
        s.skip(i).contains(q) <==> (q == s[i] || s.skip(i + 1).contains(q)),
{
    let a = s.skip(i);
    let b = s.skip(i + 1);
    assert(a =~= seq![s[i]] + b);
    if b.contains(q) {
        let j = choose|j: int| 0 <= j < b.len() && b[j] == q;
        assert(a[j + 1] == q);
    }
    if a.contains(q) {
        let j = choose|j: int| 0 <= j < a.len() && a[j] == q;
        if j == 0 {
            assert(q == s[i]);
        } else {
            assert(b[j - 1] == q);
        }
    }
}

/// A suffix past a position never holds the element at that position when
/// all elements are pairwise distinct.
pub proof fn lemma_skip_distinct(s: Seq<usize>, i: int)
    requires
        0 <= i < s.len(),
        forall|a: int, b: int| 0 <= a < b < s.len() ==> s[a] != s[b],
    ensures
        !s.skip(i + 1).contains(s[i]),
{
    let b = s.skip(i + 1);
    if b.contains(s[i]) {
        let j = choose|j: int| 0 <= j < b.len() && b[j] == s[i];
        assert(s[i + 1 + j] == s[i]);
    }
}

/// Sequences with equal multisets hold the same elements.
proof fn lemma_multiset_same_contains(s1: Seq<usize>, s2: Seq<usize>)
    requires
        s1.to_multiset() == s2.to_multiset(),
    ensures
        forall|q: usize| s1.contains(q) <==> s2.contains(q),
{
    broadcast use vstd::seq_lib::group_to_multiset_ensures;

    assert forall|q: usize| s1.contains(q) <==> s2.contains(q) by {
        assert(s1.contains(q) <==> s1.to_multiset().count(q) > 0);
        assert(s2.contains(q) <==> s2.to_multiset().count(q) > 0);
    }
}

/// Whether the full demographic key is asked for by the all-ages index.
pub open spec fn key_ase(p: Person) -> QKey {
    QKey { area: p.msoa.0, age: p.age.0, sex: p.sex.0, eth: p.eth.0 }
}

/// The (area, sex, ethnicity) key of the first relaxation level.
pub open spec fn key_se(p: Person) -> QKey {
    QKey { area: p.msoa.0, age: 0, sex: p.sex.0, eth: p.eth.0 }
}

/// The (area, sex) key of the second relaxation level.
pub open spec fn key_s(p: Person) -> QKey {
    QKey { area: p.msoa.0, age: 0, sex: p.sex.0, eth: 0 }
}

/// The area-only key.
pub open spec fn key_area(area: usize) -> QKey {
    QKey { area, age: 0, sex: 0, eth: 0 }
}

/// Whether sampling asks for an adult or for a child.
pub enum AdultOrChild {
    Adult,
    Child,
}

/// The inverted index over the person population: several keyed queue maps
/// plus the authoritative `matched` / `unmatched` sets.
pub struct Queues {
    /// Persons already taken by the assignment.
    pub matched: PidSet,
    /// Persons still available; always the complement of `matched` within
    /// the population.
    pub unmatched: PidSet,
    pub people_by_area_ase: QueueMap,
    pub adults_by_area_se: QueueMap,
    pub adults_by_area_s: QueueMap,
    pub adults_by_area: QueueMap,
    pub children_by_area_se: QueueMap,
    pub children_by_area_s: QueueMap,
    pub people_by_area_over_75: QueueMap,
    pub people_by_area_19_to_25: QueueMap,
    pub people_by_area_over_16: QueueMap,
}

/// Every queue entry of the map is a valid person of the right kind filed
/// under its own key.
pub open spec fn map_entries_ok(
    m: QueueMap,
    people: Seq<Person>,
    app: spec_fn(Person) -> bool,
    keyf: spec_fn(Person) -> QKey,
) -> bool {
    forall|k: QKey, j: int|
        0 <= j < m.spec_get(k).len() ==> (#[trigger] m.spec_get(k)[j]) < people.len() && app(
            people[m.spec_get(k)[j] as int],
        ) && keyf(people[m.spec_get(k)[j] as int]) == k
}

/// Every unmatched person of the right kind is still somewhere in their
/// queue, so they can be found until they are taken.
pub open spec fn map_covers(
    m: QueueMap,
    people: Seq<Person>,
    matchedv: Set<usize>,
    app: spec_fn(Person) -> bool,
    keyf: spec_fn(Person) -> QKey,
) -> bool {
    forall|i: int|
        0 <= i < people.len() && !matchedv.contains(i as usize) && app(#[trigger] people[i])
            ==> m.spec_get(keyf(people[i])).contains(i as usize)
}

/// Soundness of a map survives appending a valid person under their own key.
proof fn lemma_entries_ok_add(
    m_old: QueueMap,
    m_new: QueueMap,
    people: Seq<Person>,
    app: spec_fn(Person) -> bool,
    keyf: spec_fn(Person) -> QKey,
    k: QKey,
    pid: usize,
)
    requires
        map_entries_ok(m_old, people, app, keyf),
        m_new.spec_get(k) == m_old.spec_get(k).push(pid),
        forall|k2: QKey| k2 != k ==> m_new.spec_get(k2) == m_old.spec_get(k2),
        pid < people.len(),
        app(people[pid as int]),
        keyf(people[pid as int]) == k,
    ensures
        map_entries_ok(m_new, people, app, keyf),
{
    assert forall|k2: QKey, j: int| 0 <= j < m_new.spec_get(k2).len() implies (
    #[trigger] m_new.spec_get(k2)[j]) < people.len() && app(people[m_new.spec_get(k2)[j] as int])
        && keyf(people[m_new.spec_get(k2)[j] as int]) == k2 by {
        if k2 == k {
            if j < m_old.spec_get(k).len() {
                assert(m_new.spec_get(k)[j] == m_old.spec_get(k)[j]);
            } else {
                assert(m_new.spec_get(k)[j] == pid);
            }
        } else {
            assert(m_new.spec_get(k2) == m_old.spec_get(k2));
        }
    }
}

/// Membership in any queue survives appending to one of them.
proof fn lemma_contains_after_add(m_old: QueueMap, m_new: QueueMap, k: QKey, pid: usize)
    requires
        m_new.spec_get(k) == m_old.spec_get(k).push(pid),
        forall|k2: QKey| k2 != k ==> m_new.spec_get(k2) == m_old.spec_get(k2),
    ensures
        forall|k2: QKey, q: usize|
            m_old.spec_get(k2).contains(q) ==> #[trigger] m_new.spec_get(k2).contains(q),
        m_new.spec_get(k).contains(pid),
{
    lemma_push_contains(m_old.spec_get(k), pid);
    assert forall|k2: QKey, q: usize| m_old.spec_get(k2).contains(q) implies #[trigger] m_new
        .spec_get(k2)
        .contains(q) by {
        if k2 == k {
            lemma_push_contains(m_old.spec_get(k), pid);
        }
    }
}

/// Soundness of a map survives dropping queue entries.
proof fn lemma_entries_ok_shrink(
    m_old: QueueMap,
    m_new: QueueMap,
    people: Seq<Person>,
    app: spec_fn(Person) -> bool,
    keyf: spec_fn(Person) -> QKey,
)
    requires
        map_entries_ok(m_old, people, app, keyf),
        forall|k: QKey, q: usize|
            #[trigger] m_new.spec_get(k).contains(q) ==> m_old.spec_get(k).contains(q),
    ensures
        map_entries_ok(m_new, people, app, keyf),
{
    assert forall|k: QKey, j: int| 0 <= j < m_new.spec_get(k).len() implies (
    #[trigger] m_new.spec_get(k)[j]) < people.len() && app(people[m_new.spec_get(k)[j] as int])
        && keyf(people[m_new.spec_get(k)[j] as int]) == k by {
        let q = m_new.spec_get(k)[j];
        assert(m_new.spec_get(k).contains(q));
        assert(m_old.spec_get(k).contains(q));
        let j2 = choose|j2: int| 0 <= j2 < m_old.spec_get(k).len() && m_old.spec_get(k)[j2] == q;
        assert(m_old.spec_get(k)[j2] == q);
    }
}

/// Soundness and completeness of a map survive a per-queue permutation.
proof fn lemma_map_after_permute(
    m_old: QueueMap,
    m_new: QueueMap,
    people: Seq<Person>,
    app: spec_fn(Person) -> bool,
    keyf: spec_fn(Person) -> QKey,
)
    requires
        forall|k: QKey| (#[trigger] m_new.spec_get(k)).to_multiset() == m_old.spec_get(
            k,
        ).to_multiset(),
    ensures
        forall|k: QKey, q: usize|
            #[trigger] m_new.spec_get(k).contains(q) <==> m_old.spec_get(k).contains(q),
{
    assert forall|k: QKey, q: usize| #[trigger]
        m_new.spec_get(k).contains(q) <==> m_old.spec_get(k).contains(q) by {
        lemma_multiset_same_contains(m_old.spec_get(k), m_new.spec_get(k));
    }
}

/// What soundness of a map gives for one member of a queue.
proof fn lemma_entry_props(
    m: QueueMap,
    people: Seq<Person>,
    app: spec_fn(Person) -> bool,
    keyf: spec_fn(Person) -> QKey,
    k: QKey,
    q: usize,
)
    requires
        map_entries_ok(m, people, app, keyf),
        m.spec_get(k).contains(q),
    ensures
        q < people.len(),
        app(people[q as int]),
        keyf(people[q as int]) == k,
{
    let j = choose|j: int| 0 <= j < m.spec_get(k).len() && m.spec_get(k)[j] == q;
    assert(m.spec_get(k)[j] == q);
}

/// Completeness of a map survives a take on it: whoever is still unmatched
/// afterwards is still in their queue.
proof fn lemma_covers_after_take(
    m_old: QueueMap,
    m_new: QueueMap,
    people: Seq<Person>,
    matched_old: Set<usize>,
    matched_new: Set<usize>,
    app: spec_fn(Person) -> bool,
    keyf: spec_fn(Person) -> QKey,
    k: QKey,
    taken: Option<usize>,
)
    requires
        map_covers(m_old, people, matched_old, app, keyf),
        forall|k2: QKey| k2 != k ==> m_new.spec_get(k2) == m_old.spec_get(k2),
        match taken {
            Some(p) => matched_new == matched_old.insert(p) && (forall|q: usize|
                m_old.spec_get(k).contains(q) && !matched_old.contains(q) && q != p
                    ==> m_new.spec_get(k).contains(q)),
            None => matched_new == matched_old && (forall|j: int|
                0 <= j < m_old.spec_get(k).len() ==> matched_old.contains(m_old.spec_get(k)[j])),
        },
    ensures
        map_covers(m_new, people, matched_new, app, keyf),
{
    assert forall|i: int|
        0 <= i < people.len() && !matched_new.contains(i as usize) && app(
            #[trigger] people[i],
        ) implies m_new.spec_get(keyf(people[i])).contains(i as usize) by {
        assert(!matched_old.contains(i as usize));
        assert(m_old.spec_get(keyf(people[i])).contains(i as usize));
        if keyf(people[i]) == k {
            match taken {
                Some(p) => {
                    assert(i as usize != p);
                },
                None => {
                    let q = i as usize;
                    let j = choose|j: int|
                        0 <= j < m_old.spec_get(k).len() && m_old.spec_get(k)[j] == q;
                    assert(matched_old.contains(m_old.spec_get(k)[j]));
                },
            }
        }
    }
}

/// The matched/unmatched partition survives moving one person across.
proof fn lemma_sets_after_take(
    m1: Set<usize>,
    u1: Set<usize>,
    m2: Set<usize>,
    u2: Set<usize>,
    n: int,
    p: usize,
)
    requires
        m1.finite(),
        u1.finite(),
        forall|q: usize| m1.contains(q) ==> q < n,
        forall|q: usize| u1.contains(q) <==> (q < n && !m1.contains(q)),
        p < n,
        m2 == m1.insert(p),
        u2 == u1.remove(p),
    ensures
        m2.finite(),
        u2.finite(),
        forall|q: usize| m2.contains(q) ==> q < n,
        forall|q: usize| u2.contains(q) <==> (q < n && !m2.contains(q)),
{
}

/// Completeness of a map survives the matched set growing.
proof fn lemma_covers_matched_grow(
    m: QueueMap,
    people: Seq<Person>,
    m1: Set<usize>,
    m2: Set<usize>,
    app: spec_fn(Person) -> bool,
    keyf: spec_fn(Person) -> QKey,
)
    requires
        map_covers(m, people, m1, app, keyf),
        forall|q: usize| m1.contains(q) ==> m2.contains(q),
    ensures
        map_covers(m, people, m2, app, keyf),
{
}

impl Queues {
    /// The contents of the matched set.
    pub open spec fn matched_set(self) -> Set<usize> {
        pid_set_view(self.matched)
    }

    /// The contents of the unmatched set.
    pub open spec fn unmatched_set(self) -> Set<usize> {
        pid_set_view(self.unmatched)
    }

    /// Whether the person is indexed by the all-ages queue map (everyone is).
    pub open spec fn app_all() -> spec_fn(Person) -> bool {
        |p: Person| true
    }

    /// Adults: strictly older than 16.
    pub open spec fn app_adult() -> spec_fn(Person) -> bool {
        |p: Person| p.is_adult()
    }

    /// Children: 16 or younger.
    pub open spec fn app_child() -> spec_fn(Person) -> bool {
        |p: Person| !p.is_adult()
    }

    /// The over-75 age band of communal sampling.
    pub open spec fn app_over_75() -> spec_fn(Person) -> bool {
        |p: Person| p.age.0 > 75
    }

    /// The 19-to-25 age band of communal sampling.
    pub open spec fn app_19_to_25() -> spec_fn(Person) -> bool {
        |p: Person| p.age.0 > 18 && p.age.0 < 26
    }

    /// The well-formedness of the whole structure against the person table:
    /// the sets partition the population, and every index is sound (entries
    /// are of the right kind, under the right key) and complete (unmatched
    /// persons remain findable). The age-band maps are sound but need not be
    /// complete: a put-back after a failed communal draw restores only the
    /// band that was drawn from.
    pub open spec fn wf(self, people: Seq<Person>) -> bool {
        &&& self.matched_set().finite()
        &&& self.unmatched_set().finite()
        &&& (forall|p: usize| self.matched_set().contains(p) ==> p < people.len())
        &&& (forall|p: usize|
            self.unmatched_set().contains(p) <==> (p < people.len() && !self.matched_set().contains(
                p,
            )))
        &&& self.people_by_area_ase.wf()
        &&& self.adults_by_area_se.wf()
        &&& self.adults_by_area_s.wf()
        &&& self.adults_by_area.wf()
        &&& self.children_by_area_se.wf()
        &&& self.children_by_area_s.wf()
        &&& self.people_by_area_over_75.wf()
        &&& self.people_by_area_19_to_25.wf()
        &&& self.people_by_area_over_16.wf()
        &&& map_entries_ok(self.people_by_area_ase, people, Self::app_all(), |p: Person| key_ase(p))
        &&& map_entries_ok(
            self.adults_by_area_se,
            people,
            Self::app_adult(),
            |p: Person| key_se(p),
        )
        &&& map_entries_ok(self.adults_by_area_s, people, Self::app_adult(), |p: Person| key_s(p))
        &&& map_entries_ok(
            self.adults_by_area,
            people,
            Self::app_adult(),
            |p: Person| key_area(p.msoa.0),
        )
        &&& map_entries_ok(
            self.children_by_area_se,
            people,
            Self::app_child(),
            |p: Person| key_se(p),
        )
        &&& map_entries_ok(self.children_by_area_s, people, Self::app_child(), |p: Person| key_s(p))
        &&& map_entries_ok(
            self.people_by_area_over_75,
            people,
            Self::app_over_75(),
            |p: Person| key_area(p.msoa.0),
        )
        &&& map_entries_ok(
            self.people_by_area_19_to_25,
            people,
            Self::app_19_to_25(),
            |p: Person| key_area(p.msoa.0),
        )
        &&& map_entries_ok(
            self.people_by_area_over_16,
            people,
            Self::app_adult(),
            |p: Person| key_area(p.msoa.0),
        )
        &&& map_covers(
            self.people_by_area_ase,
            people,
            self.matched_set(),
            Self::app_all(),
            |p: Person| key_ase(p),
        )
        &&& map_covers(
            self.adults_by_area_se,
            people,
            self.matched_set(),
            Self::app_adult(),
            |p: Person| key_se(p),
        )
        &&& map_covers(
            self.adults_by_area_s,
            people,
            self.matched_set(),
            Self::app_adult(),
            |p: Person| key_s(p),
        )
        &&& map_covers(
            self.adults_by_area,
            people,
            self.matched_set(),
            Self::app_adult(),
            |p: Person| key_area(p.msoa.0),
        )
        &&& map_covers(
            self.children_by_area_se,
            people,
            self.matched_set(),
            Self::app_child(),
            |p: Person| key_se(p),
        )
        &&& map_covers(
            self.children_by_area_s,
            people,
            self.matched_set(),
            Self::app_child(),
            |p: Person| key_s(p),
        )
    }

    /// Whether a person matches the full requested demographic.
    pub open spec fn matches_demo(p: Person, msoa: MSOA, age: Age, sex: Sex, eth: Eth) -> bool {
        p.msoa == msoa && p.age == age && p.sex == sex && p.eth == eth
    }

    /// Samples one unmatched person for the requested demographic, relaxing
    /// the match in stages. A returned person is moved to `matched`; nothing
    /// is returned only when no admissible unmatched person exists in the
    /// middle-area.
    pub fn sample_person(
        &mut self,
        msoa: MSOA,
        age: Age,
        sex: Sex,
        eth: Eth,
        adult_or_child: AdultOrChild,
        p_data: &Vec<Person>,
    ) -> (r: Option<usize>)
        requires
            old(self).wf(p_data@),
        ensures
            final(self).wf(p_data@),
            (match r {
                Some(p) => p < p_data@.len() && !old(self).matched_set().contains(p) && final(self).matched_set() == old(self).matched_set().insert(p) && final(self).unmatched_set() == old(self).unmatched_set().remove(p) && p_data@[p as int].msoa
                    == msoa && (Self::matches_demo(p_data@[p as int], msoa, age, sex, eth) || (
                match adult_or_child {
                    AdultOrChild::Adult => p_data@[p as int].is_adult(),
                    AdultOrChild::Child => !p_data@[p as int].is_adult() && p_data@[p as int].sex
                        == sex,
                })) && (!Self::matches_demo(p_data@[p as int], msoa, age, sex, eth) ==> (forall|
                    l: int,
                |
                    0 <= l < p_data@.len() && old(self).unmatched_set().contains(l as usize)
                        ==> !Self::matches_demo(#[trigger] p_data@[l], msoa, age, sex, eth))),
                None => final(self).matched_set() == old(self).matched_set() && final(self).unmatched_set() == old(self).unmatched_set() && (forall|l: int|
                    0 <= l < p_data@.len() && old(self).unmatched_set().contains(l as usize)
                        ==> !Self::matches_demo(#[trigger] p_data@[l], msoa, age, sex, eth))
                    && (match adult_or_child {
                    AdultOrChild::Adult => forall|l: int|
                        0 <= l < p_data@.len() && old(self).unmatched_set().contains(l as usize)
                            ==> !((#[trigger] p_data@[l]).msoa == msoa && p_data@[l].is_adult()),
                    AdultOrChild::Child => forall|l: int|
                        0 <= l < p_data@.len() && old(self).unmatched_set().contains(l as usize)
                            ==> !((#[trigger] p_data@[l]).msoa == msoa && !p_data@[l].is_adult()
                            && p_data@[l].sex == sex),
                }),
            }),
    {
        match adult_or_child {
            AdultOrChild::Adult => self.sample_adults(msoa, age, sex, eth, p_data),
            AdultOrChild::Child => self.sample_children(msoa, age, sex, eth, p_data),
        }
    }

    /// The adult cascade: exact demographic, then (sex, ethnicity), then
    /// sex, then the age-closest adult of the area.
    fn sample_adults(
        &mut self,
        msoa: MSOA,
        age: Age,
        sex: Sex,
        eth: Eth,
        p_data: &Vec<Person>,
    ) -> (r: Option<usize>)
        requires
            old(self).wf(p_data@),
        ensures
            final(self).wf(p_data@),
            (match r {
                Some(p) => p < p_data@.len() && !old(self).matched_set().contains(p) && final(self).matched_set() == old(self).matched_set().insert(p) && final(self).unmatched_set() == old(self).unmatched_set().remove(p) && p_data@[p as int].msoa
                    == msoa && (Self::matches_demo(p_data@[p as int], msoa, age, sex, eth)
                    || p_data@[p as int].is_adult()) && (!Self::matches_demo(
                    p_data@[p as int],
                    msoa,
                    age,
                    sex,
                    eth,
                ) ==> (forall|l: int|
                    0 <= l < p_data@.len() && old(self).unmatched_set().contains(l as usize)
                        ==> !Self::matches_demo(#[trigger] p_data@[l], msoa, age, sex, eth))),
                None => final(self).matched_set() == old(self).matched_set() && final(self).unmatched_set() == old(self).unmatched_set() && (forall|l: int|
                    0 <= l < p_data@.len() && old(self).unmatched_set().contains(l as usize)
                        ==> !Self::matches_demo(#[trigger] p_data@[l], msoa, age, sex, eth)) && (
                forall|l: int|
                    0 <= l < p_data@.len() && old(self).unmatched_set().contains(l as usize) ==> !((
                    #[trigger] p_data@[l]).msoa == msoa && p_data@[l].is_adult())),
            }),
    {
        let ghost people = p_data@;
        let ghost m0 = self.matched_set();
        let ghost u0 = self.unmatched_set();
        // Exact match over all ages.
        let k1 = QKey { area: msoa.0, age: age.0, sex: sex.0, eth: eth.0 };
        let ghost x1 = self.people_by_area_ase;
        let r1 = self.people_by_area_ase.take(k1, &mut self.matched, &mut self.unmatched);
        proof {
            assert forall|k2: QKey, q: usize| #[trigger]
                self.people_by_area_ase.spec_get(k2).contains(q) implies x1.spec_get(k2).contains(
                q,
            ) by {}
            lemma_entries_ok_shrink(
                x1,
                self.people_by_area_ase,
                people,
                Self::app_all(),
                |p: Person| key_ase(p),
            );
            lemma_covers_after_take(
                x1,
                self.people_by_area_ase,
                people,
                m0,
                self.matched_set(),
                Self::app_all(),
                |p: Person| key_ase(p),
                k1,
                r1,
            );
            if let Some(p) = r1 {
                lemma_entry_props(x1, people, Self::app_all(), |p2: Person| key_ase(p2), k1, p);
                lemma_sets_after_take(
                    m0,
                    u0,
                    self.matched_set(),
                    self.unmatched_set(),
                    people.len() as int,
                    p,
                );
                lemma_covers_matched_grow(self.adults_by_area_se, people, m0, self.matched_set(), Self::app_adult(), |p2: Person| key_se(p2));
                lemma_covers_matched_grow(self.adults_by_area_s, people, m0, self.matched_set(), Self::app_adult(), |p2: Person| key_s(p2));
                lemma_covers_matched_grow(self.adults_by_area, people, m0, self.matched_set(), Self::app_adult(), |p2: Person| key_area(p2.msoa.0));
                lemma_covers_matched_grow(self.children_by_area_se, people, m0, self.matched_set(), Self::app_child(), |p2: Person| key_se(p2));
                lemma_covers_matched_grow(self.children_by_area_s, people, m0, self.matched_set(), Self::app_child(), |p2: Person| key_s(p2));
            }
            assert(self.wf(people));
        }
        if let Some(p) = r1 {
            return Some(p);
        }
        // The exact level failed: no unmatched person of the full demographic
        // exists, so a relaxed result never shadows an exact match.
        proof {
            assert forall|l: int|
                0 <= l < people.len() && u0.contains(l as usize) implies !Self::matches_demo(
                #[trigger] people[l],
                msoa,
                age,
                sex,
                eth,
            ) by {
                assert(!m0.contains(l as usize));
                if Self::matches_demo(people[l], msoa, age, sex, eth) {
                    assert(key_ase(people[l]) == k1);
                    assert(x1.spec_get(k1).contains(l as usize));
                    let jx = choose|jx: int|
                        0 <= jx < x1.spec_get(k1).len() && x1.spec_get(k1)[jx] == l as usize;
                    assert(m0.contains(x1.spec_get(k1)[jx]));
                }
            }
        }
        // Relax ethnicity away: adults by (area, sex, ethnicity).
        let k2 = QKey { area: msoa.0, age: 0, sex: sex.0, eth: eth.0 };
        let ghost x2 = self.adults_by_area_se;
        let r2 = self.adults_by_area_se.take(k2, &mut self.matched, &mut self.unmatched);
        proof {
            assert forall|kk: QKey, q: usize| #[trigger]
                self.adults_by_area_se.spec_get(kk).contains(q) implies x2.spec_get(kk).contains(
                q,
            ) by {}
            lemma_entries_ok_shrink(
                x2,
                self.adults_by_area_se,
                people,
                Self::app_adult(),
                |p: Person| key_se(p),
            );
            lemma_covers_after_take(
                x2,
                self.adults_by_area_se,
                people,
                m0,
                self.matched_set(),
                Self::app_adult(),
                |p: Person| key_se(p),
                k2,
                r2,
            );
            if let Some(p) = r2 {
                lemma_entry_props(x2, people, Self::app_adult(), |p2: Person| key_se(p2), k2, p);
                lemma_sets_after_take(
                    m0,
                    u0,
                    self.matched_set(),
                    self.unmatched_set(),
                    people.len() as int,
                    p,
                );
                lemma_covers_matched_grow(self.people_by_area_ase, people, m0, self.matched_set(), Self::app_all(), |p2: Person| key_ase(p2));
                lemma_covers_matched_grow(self.adults_by_area_s, people, m0, self.matched_set(), Self::app_adult(), |p2: Person| key_s(p2));
                lemma_covers_matched_grow(self.adults_by_area, people, m0, self.matched_set(), Self::app_adult(), |p2: Person| key_area(p2.msoa.0));
                lemma_covers_matched_grow(self.children_by_area_se, people, m0, self.matched_set(), Self::app_child(), |p2: Person| key_se(p2));
                lemma_covers_matched_grow(self.children_by_area_s, people, m0, self.matched_set(), Self::app_child(), |p2: Person| key_s(p2));
            }
            assert(self.wf(people));
        }
        if let Some(p) = r2 {
            return Some(p);
        }
        // Relax ethnicity and sex: adults by (area, sex).
        let k3 = QKey { area: msoa.0, age: 0, sex: sex.0, eth: 0 };
        let ghost x3 = self.adults_by_area_s;
        let r3 = self.adults_by_area_s.take(k3, &mut self.matched, &mut self.unmatched);
        proof {
            assert forall|kk: QKey, q: usize| #[trigger]
                self.adults_by_area_s.spec_get(kk).contains(q) implies x3.spec_get(kk).contains(
                q,
            ) by {}
            lemma_entries_ok_shrink(
                x3,
                self.adults_by_area_s,
                people,
                Self::app_adult(),
                |p: Person| key_s(p),
            );
            lemma_covers_after_take(
                x3,
                self.adults_by_area_s,
                people,
                m0,
                self.matched_set(),
                Self::app_adult(),
                |p: Person| key_s(p),
                k3,
                r3,
            );
            if let Some(p) = r3 {
                lemma_entry_props(x3, people, Self::app_adult(), |p2: Person| key_s(p2), k3, p);
                lemma_sets_after_take(
                    m0,
                    u0,
                    self.matched_set(),
                    self.unmatched_set(),
                    people.len() as int,
                    p,
                );
                lemma_covers_matched_grow(self.people_by_area_ase, people, m0, self.matched_set(), Self::app_all(), |p2: Person| key_ase(p2));
                lemma_covers_matched_grow(self.adults_by_area_se, people, m0, self.matched_set(), Self::app_adult(), |p2: Person| key_se(p2));
                lemma_covers_matched_grow(self.adults_by_area, people, m0, self.matched_set(), Self::app_adult(), |p2: Person| key_area(p2.msoa.0));
                lemma_covers_matched_grow(self.children_by_area_se, people, m0, self.matched_set(), Self::app_child(), |p2: Person| key_se(p2));
                lemma_covers_matched_grow(self.children_by_area_s, people, m0, self.matched_set(), Self::app_child(), |p2: Person| key_s(p2));
            }
            assert(self.wf(people));
        }
        if let Some(p) = r3 {
            return Some(p);
        }
        // Last level: the age-closest still-unmatched adult of the area.
        let k4 = QKey { area: msoa.0, age: 0, sex: 0, eth: 0 };
        let ghost x4 = self.adults_by_area;
        proof {
            assert forall|j: int| 0 <= j < self.adults_by_area.spec_get(k4).len() implies #[trigger] self.adults_by_area.spec_get(k4)[j] < p_data@.len() by {}
        }
        let r4 = self.adults_by_area.take_closest(
            k4,
            age.0,
            &mut self.matched,
            &mut self.unmatched,
            p_data,
        );
        proof {
            assert forall|kk: QKey, q: usize| #[trigger]
                self.adults_by_area.spec_get(kk).contains(q) implies x4.spec_get(kk).contains(
                q,
            ) by {}
            lemma_entries_ok_shrink(
                x4,
                self.adults_by_area,
                people,
                Self::app_adult(),
                |p: Person| key_area(p.msoa.0),
            );
            lemma_covers_after_take(
                x4,
                self.adults_by_area,
                people,
                m0,
                self.matched_set(),
                Self::app_adult(),
                |p: Person| key_area(p.msoa.0),
                k4,
                r4,
            );
            if let Some(p) = r4 {
                lemma_entry_props(x4, people, Self::app_adult(), |p2: Person| key_area(p2.msoa.0), k4, p);
                lemma_sets_after_take(
                    m0,
                    u0,
                    self.matched_set(),
                    self.unmatched_set(),
                    people.len() as int,
                    p,
                );
                lemma_covers_matched_grow(self.people_by_area_ase, people, m0, self.matched_set(), Self::app_all(), |p2: Person| key_ase(p2));
                lemma_covers_matched_grow(self.adults_by_area_se, people, m0, self.matched_set(), Self::app_adult(), |p2: Person| key_se(p2));
                lemma_covers_matched_grow(self.adults_by_area_s, people, m0, self.matched_set(), Self::app_adult(), |p2: Person| key_s(p2));
                lemma_covers_matched_grow(self.children_by_area_se, people, m0, self.matched_set(), Self::app_child(), |p2: Person| key_se(p2));
                lemma_covers_matched_grow(self.children_by_area_s, people, m0, self.matched_set(), Self::app_child(), |p2: Person| key_s(p2));
            }
            assert(self.wf(people));
        }
        if let Some(p) = r4 {
            return Some(p);
        }
        // All four levels exhausted: nobody admissible is left unmatched.
        proof {
            assert forall|l: int|
                0 <= l < people.len() && old(self).unmatched_set().contains(l as usize) implies
                !Self::matches_demo(#[trigger] people[l], msoa, age, sex, eth) && !(people[l].msoa
                == msoa && people[l].is_adult()) by {
                assert(!m0.contains(l as usize));
                if Self::matches_demo(people[l], msoa, age, sex, eth) {
                    assert(key_ase(people[l]) == k1);
                    assert(x1.spec_get(k1).contains(l as usize));
                    let j = choose|j: int|
                        0 <= j < x1.spec_get(k1).len() && x1.spec_get(k1)[j] == l as usize;
                    assert(m0.contains(x1.spec_get(k1)[j]));
                }
                if people[l].msoa == msoa && people[l].is_adult() {
                    assert(key_area(people[l].msoa.0) == k4);
                    assert(x4.spec_get(k4).contains(l as usize));
                    let j = choose|j: int|
                        0 <= j < x4.spec_get(k4).len() && x4.spec_get(k4)[j] == l as usize;
                    assert(m0.contains(x4.spec_get(k4)[j]));
                }
            }
        }
        None
    }

    /// The child cascade: exact demographic, then children by (area, sex,
    /// ethnicity), then the age-closest child of the area with the requested
    /// sex. There is no relaxation past sex for children.
    fn sample_children(
        &mut self,
        msoa: MSOA,
        age: Age,
        sex: Sex,
        eth: Eth,
        p_data: &Vec<Person>,
    ) -> (r: Option<usize>)
        requires
            old(self).wf(p_data@),
        ensures
            final(self).wf(p_data@),
            (match r {
                Some(p) => p < p_data@.len() && !old(self).matched_set().contains(p) && final(self).matched_set() == old(self).matched_set().insert(p) && final(self).unmatched_set() == old(self).unmatched_set().remove(p) && p_data@[p as int].msoa
                    == msoa && (Self::matches_demo(p_data@[p as int], msoa, age, sex, eth) || (
                !p_data@[p as int].is_adult() && p_data@[p as int].sex == sex)) && (
                !Self::matches_demo(p_data@[p as int], msoa, age, sex, eth) ==> (forall|l: int|
                    0 <= l < p_data@.len() && old(self).unmatched_set().contains(l as usize)
                        ==> !Self::matches_demo(#[trigger] p_data@[l], msoa, age, sex, eth))),
                None => final(self).matched_set() == old(self).matched_set() && final(self).unmatched_set() == old(self).unmatched_set() && (forall|l: int|
                    0 <= l < p_data@.len() && old(self).unmatched_set().contains(l as usize)
                        ==> !Self::matches_demo(#[trigger] p_data@[l], msoa, age, sex, eth)) && (
                forall|l: int|
                    0 <= l < p_data@.len() && old(self).unmatched_set().contains(l as usize) ==> !((
                    #[trigger] p_data@[l]).msoa == msoa && !p_data@[l].is_adult() && p_data@[l].sex
                        == sex)),
            }),
    {
        let ghost people = p_data@;
        let ghost m0 = self.matched_set();
        let ghost u0 = self.unmatched_set();
        // Exact match over all ages.
        let k1 = QKey { area: msoa.0, age: age.0, sex: sex.0, eth: eth.0 };
        let ghost x1 = self.people_by_area_ase;
        let r1 = self.people_by_area_ase.take(k1, &mut self.matched, &mut self.unmatched);
        proof {
            assert forall|k2: QKey, q: usize| #[trigger]
                self.people_by_area_ase.spec_get(k2).contains(q) implies x1.spec_get(k2).contains(
                q,
            ) by {}
            lemma_entries_ok_shrink(
                x1,
                self.people_by_area_ase,
                people,
                Self::app_all(),
                |p: Person| key_ase(p),
            );
            lemma_covers_after_take(
                x1,
                self.people_by_area_ase,
                people,
                m0,
                self.matched_set(),
                Self::app_all(),
                |p: Person| key_ase(p),
                k1,
                r1,
            );
            if let Some(p) = r1 {
                lemma_entry_props(x1, people, Self::app_all(), |p2: Person| key_ase(p2), k1, p);
                lemma_sets_after_take(
                    m0,
                    u0,
                    self.matched_set(),
                    self.unmatched_set(),
                    people.len() as int,
                    p,
                );
                lemma_covers_matched_grow(self.adults_by_area_se, people, m0, self.matched_set(), Self::app_adult(), |p2: Person| key_se(p2));
                lemma_covers_matched_grow(self.adults_by_area_s, people, m0, self.matched_set(), Self::app_adult(), |p2: Person| key_s(p2));
                lemma_covers_matched_grow(self.adults_by_area, people, m0, self.matched_set(), Self::app_adult(), |p2: Person| key_area(p2.msoa.0));
                lemma_covers_matched_grow(self.children_by_area_se, people, m0, self.matched_set(), Self::app_child(), |p2: Person| key_se(p2));
                lemma_covers_matched_grow(self.children_by_area_s, people, m0, self.matched_set(), Self::app_child(), |p2: Person| key_s(p2));
            }
            assert(self.wf(people));
        }
        if let Some(p) = r1 {
            return Some(p);
        }
        // The exact level failed: no unmatched person of the full demographic
        // exists, so a relaxed result never shadows an exact match.
        proof {
            assert forall|l: int|
                0 <= l < people.len() && u0.contains(l as usize) implies !Self::matches_demo(
                #[trigger] people[l],
                msoa,
                age,
                sex,
                eth,
            ) by {
                assert(!m0.contains(l as usize));
                if Self::matches_demo(people[l], msoa, age, sex, eth) {
                    assert(key_ase(people[l]) == k1);
                    assert(x1.spec_get(k1).contains(l as usize));
                    let jx = choose|jx: int|
                        0 <= jx < x1.spec_get(k1).len() && x1.spec_get(k1)[jx] == l as usize;
                    assert(m0.contains(x1.spec_get(k1)[jx]));
                }
            }
        }
        // Relax ethnicity away: children by (area, sex, ethnicity).
        let k2 = QKey { area: msoa.0, age: 0, sex: sex.0, eth: eth.0 };
        let ghost x2 = self.children_by_area_se;
        let r2 = self.children_by_area_se.take(k2, &mut self.matched, &mut self.unmatched);
        proof {
            assert forall|kk: QKey, q: usize| #[trigger]
                self.children_by_area_se.spec_get(kk).contains(q) implies x2.spec_get(kk).contains(
                q,
            ) by {}
            lemma_entries_ok_shrink(
                x2,
                self.children_by_area_se,
                people,
                Self::app_child(),
                |p: Person| key_se(p),
            );
            lemma_covers_after_take(
                x2,
                self.children_by_area_se,
                people,
                m0,
                self.matched_set(),
                Self::app_child(),
                |p: Person| key_se(p),
                k2,
                r2,
            );
            if let Some(p) = r2 {
                lemma_entry_props(x2, people, Self::app_child(), |p2: Person| key_se(p2), k2, p);
                lemma_sets_after_take(
                    m0,
                    u0,
                    self.matched_set(),
                    self.unmatched_set(),
                    people.len() as int,
                    p,
                );
                lemma_covers_matched_grow(self.people_by_area_ase, people, m0, self.matched_set(), Self::app_all(), |p2: Person| key_ase(p2));
                lemma_covers_matched_grow(self.adults_by_area_se, people, m0, self.matched_set(), Self::app_adult(), |p2: Person| key_se(p2));
                lemma_covers_matched_grow(self.adults_by_area_s, people, m0, self.matched_set(), Self::app_adult(), |p2: Person| key_s(p2));
                lemma_covers_matched_grow(self.adults_by_area, people, m0, self.matched_set(), Self::app_adult(), |p2: Person| key_area(p2.msoa.0));
                lemma_covers_matched_grow(self.children_by_area_s, people, m0, self.matched_set(), Self::app_child(), |p2: Person| key_s(p2));
            }
            assert(self.wf(people));
        }
        if let Some(p) = r2 {
            return Some(p);
        }
        // Last level: the age-closest still-unmatched child of the area with
        // the requested sex.
        let k3 = QKey { area: msoa.0, age: 0, sex: sex.0, eth: 0 };
        let ghost x3 = self.children_by_area_s;
        proof {
            assert forall|j: int| 0 <= j < self.children_by_area_s.spec_get(k3).len() implies #[trigger] self.children_by_area_s.spec_get(k3)[j] < p_data@.len() by {}
        }
        let r3 = self.children_by_area_s.take_closest(
            k3,
            age.0,
            &mut self.matched,
            &mut self.unmatched,
            p_data,
        );
        proof {
            assert forall|kk: QKey, q: usize| #[trigger]
                self.children_by_area_s.spec_get(kk).contains(q) implies x3.spec_get(kk).contains(
                q,
            ) by {}
            lemma_entries_ok_shrink(
                x3,
                self.children_by_area_s,
                people,
                Self::app_child(),
                |p: Person| key_s(p),
            );
            lemma_covers_after_take(
                x3,
                self.children_by_area_s,
                people,
                m0,
                self.matched_set(),
                Self::app_child(),
                |p: Person| key_s(p),
                k3,
                r3,
            );
            if let Some(p) = r3 {
                lemma_entry_props(x3, people, Self::app_child(), |p2: Person| key_s(p2), k3, p);
                lemma_sets_after_take(
                    m0,
                    u0,
                    self.matched_set(),
                    self.unmatched_set(),
                    people.len() as int,
                    p,
                );
                lemma_covers_matched_grow(self.people_by_area_ase, people, m0, self.matched_set(), Self::app_all(), |p2: Person| key_ase(p2));
                lemma_covers_matched_grow(self.adults_by_area_se, people, m0, self.matched_set(), Self::app_adult(), |p2: Person| key_se(p2));
                lemma_covers_matched_grow(self.adults_by_area_s, people, m0, self.matched_set(), Self::app_adult(), |p2: Person| key_s(p2));
                lemma_covers_matched_grow(self.adults_by_area, people, m0, self.matched_set(), Self::app_adult(), |p2: Person| key_area(p2.msoa.0));
                lemma_covers_matched_grow(self.children_by_area_se, people, m0, self.matched_set(), Self::app_child(), |p2: Person| key_se(p2));
            }
            assert(self.wf(people));
        }
        if let Some(p) = r3 {
            return Some(p);
        }
        // All three levels exhausted.
        proof {
            assert forall|l: int|
                0 <= l < people.len() && old(self).unmatched_set().contains(l as usize) implies
                !Self::matches_demo(#[trigger] people[l], msoa, age, sex, eth) && !(people[l].msoa
                == msoa && !people[l].is_adult() && people[l].sex == sex) by {
                assert(!m0.contains(l as usize));
                if Self::matches_demo(people[l], msoa, age, sex, eth) {
                    assert(key_ase(people[l]) == k1);
                    assert(x1.spec_get(k1).contains(l as usize));
                    let j = choose|j: int|
                        0 <= j < x1.spec_get(k1).len() && x1.spec_get(k1)[j] == l as usize;
                    assert(m0.contains(x1.spec_get(k1)[j]));
                }
                if people[l].msoa == msoa && !people[l].is_adult() && people[l].sex == sex {
                    assert(key_s(people[l]) == k3);
                    assert(x3.spec_get(k3).contains(l as usize));
                    let j = choose|j: int|
                        0 <= j < x3.spec_get(k3).len() && x3.spec_get(k3)[j] == l as usize;
                    assert(m0.contains(x3.spec_get(k3)[j]));
                }
            }
        }
        None
    }

    /// Pops one unmatched adult of the area, with no demographic filter.
    /// Nothing is returned only when no unmatched adult is left in the area.
    pub fn sample_adult_any(&mut self, msoa: MSOA, p_data: &Vec<Person>) -> (r: Option<usize>)
        requires
            old(self).wf(p_data@),
        ensures
            final(self).wf(p_data@),
            (match r {
                Some(p) => p < p_data@.len() && !old(self).matched_set().contains(p) && final(self).matched_set() == old(self).matched_set().insert(p) && final(self).unmatched_set() == old(self).unmatched_set().remove(p) && p_data@[p as int].msoa
                    == msoa && p_data@[p as int].is_adult(),
                None => final(self).matched_set() == old(self).matched_set() && final(self).unmatched_set() == old(self).unmatched_set() && (forall|l: int|
                    0 <= l < p_data@.len() && old(self).unmatched_set().contains(l as usize) ==> !((
                    #[trigger] p_data@[l]).msoa == msoa && p_data@[l].is_adult())),
            }),
    {
        let ghost people = p_data@;
        let ghost m0 = self.matched_set();
        let ghost u0 = self.unmatched_set();
        let k = QKey { area: msoa.0, age: 0, sex: 0, eth: 0 };
        let ghost x = self.adults_by_area;
        let r = self.adults_by_area.take(k, &mut self.matched, &mut self.unmatched);
        proof {
            assert forall|kk: QKey, q: usize| #[trigger]
                self.adults_by_area.spec_get(kk).contains(q) implies x.spec_get(kk).contains(
                q,
            ) by {}
            lemma_entries_ok_shrink(
                x,
                self.adults_by_area,
                people,
                Self::app_adult(),
                |p: Person| key_area(p.msoa.0),
            );
            lemma_covers_after_take(
                x,
                self.adults_by_area,
                people,
                m0,
                self.matched_set(),
                Self::app_adult(),
                |p: Person| key_area(p.msoa.0),
                k,
                r,
            );
            if let Some(p) = r {
                lemma_entry_props(x, people, Self::app_adult(), |p2: Person| key_area(p2.msoa.0), k, p);
                lemma_sets_after_take(
                    m0,
                    u0,
                    self.matched_set(),
                    self.unmatched_set(),
                    people.len() as int,
                    p,
                );
                lemma_covers_matched_grow(self.people_by_area_ase, people, m0, self.matched_set(), Self::app_all(), |p2: Person| key_ase(p2));
                lemma_covers_matched_grow(self.adults_by_area_se, people, m0, self.matched_set(), Self::app_adult(), |p2: Person| key_se(p2));
                lemma_covers_matched_grow(self.adults_by_area_s, people, m0, self.matched_set(), Self::app_adult(), |p2: Person| key_s(p2));
                lemma_covers_matched_grow(self.children_by_area_se, people, m0, self.matched_set(), Self::app_child(), |p2: Person| key_se(p2));
                lemma_covers_matched_grow(self.children_by_area_s, people, m0, self.matched_set(), Self::app_child(), |p2: Person| key_s(p2));
            } else {
                assert forall|l: int|
                    0 <= l < people.len() && u0.contains(l as usize) implies !((
                    #[trigger] people[l]).msoa == msoa && people[l].is_adult()) by {
                    if people[l].msoa == msoa && people[l].is_adult() {
                        assert(key_area(people[l].msoa.0) == k);
                        assert(x.spec_get(k).contains(l as usize));
                        let j = choose|j: int|
                            0 <= j < x.spec_get(k).len() && x.spec_get(k)[j] == l as usize;
                        assert(m0.contains(x.spec_get(k)[j]));
                    }
                }
            }
            assert(self.wf(people));
        }
        r
    }

    /// Pops one unmatched person of the area older than 75.
    pub fn sample_person_over_75(&mut self, msoa: MSOA, p_data: &Vec<Person>) -> (r: Option<usize>)
        requires
            old(self).wf(p_data@),
        ensures
            final(self).wf(p_data@),
            final(self).people_by_area_ase == old(self).people_by_area_ase,
            final(self).adults_by_area_se == old(self).adults_by_area_se,
            final(self).adults_by_area_s == old(self).adults_by_area_s,
            final(self).adults_by_area == old(self).adults_by_area,
            final(self).children_by_area_se == old(self).children_by_area_se,
            final(self).children_by_area_s == old(self).children_by_area_s,
            final(self).people_by_area_19_to_25 == old(self).people_by_area_19_to_25,
            final(self).people_by_area_over_16 == old(self).people_by_area_over_16,
            (forall|q: usize|
                final(self).people_by_area_over_75.spec_get(key_area(msoa.0)).contains(q) ==> old(self).people_by_area_over_75.spec_get(key_area(msoa.0)).contains(q)),
            (match r {
                Some(p) => p < p_data@.len() && !old(self).matched_set().contains(p) && final(self).matched_set() == old(self).matched_set().insert(p) && final(self).unmatched_set() == old(self).unmatched_set().remove(p) && p_data@[p as int].msoa
                    == msoa && p_data@[p as int].age.0 > 75 && (forall|q: usize|
                    old(self).people_by_area_over_75.spec_get(key_area(msoa.0)).contains(q) && !old(self).matched_set().contains(q) && q != p ==> final(self).people_by_area_over_75.spec_get(key_area(msoa.0)).contains(q)),
                None => final(self).matched_set() == old(self).matched_set() && final(self).unmatched_set() == old(self).unmatched_set() && (forall|j: int|
                    0 <= j < old(self).people_by_area_over_75.spec_get(key_area(msoa.0)).len()
                        ==> old(self).matched_set().contains(
                        old(self).people_by_area_over_75.spec_get(key_area(msoa.0))[j],
                    )),
            }),
    {
        let ghost people = p_data@;
        let ghost m0 = self.matched_set();
        let ghost u0 = self.unmatched_set();
        let k = QKey { area: msoa.0, age: 0, sex: 0, eth: 0 };
        let ghost x = self.people_by_area_over_75;
        let r = self.people_by_area_over_75.take(k, &mut self.matched, &mut self.unmatched);
        proof {
            assert forall|kk: QKey, q: usize| #[trigger]
                self.people_by_area_over_75.spec_get(kk).contains(q) implies x.spec_get(
                kk,
            ).contains(q) by {}
            lemma_entries_ok_shrink(
                x,
                self.people_by_area_over_75,
                people,
                Self::app_over_75(),
                |p: Person| key_area(p.msoa.0),
            );
            if let Some(p) = r {
                lemma_entry_props(x, people, Self::app_over_75(), |p2: Person| key_area(p2.msoa.0), k, p);
                lemma_sets_after_take(
                    m0,
                    u0,
                    self.matched_set(),
                    self.unmatched_set(),
                    people.len() as int,
                    p,
                );
                lemma_covers_matched_grow(self.people_by_area_ase, people, m0, self.matched_set(), Self::app_all(), |p2: Person| key_ase(p2));
                lemma_covers_matched_grow(self.adults_by_area_se, people, m0, self.matched_set(), Self::app_adult(), |p2: Person| key_se(p2));
                lemma_covers_matched_grow(self.adults_by_area_s, people, m0, self.matched_set(), Self::app_adult(), |p2: Person| key_s(p2));
                lemma_covers_matched_grow(self.adults_by_area, people, m0, self.matched_set(), Self::app_adult(), |p2: Person| key_area(p2.msoa.0));
                lemma_covers_matched_grow(self.children_by_area_se, people, m0, self.matched_set(), Self::app_child(), |p2: Person| key_se(p2));
                lemma_covers_matched_grow(self.children_by_area_s, people, m0, self.matched_set(), Self::app_child(), |p2: Person| key_s(p2));
            }
            assert(self.wf(people));
        }
        r
    }

    /// Pops one unmatched person of the area aged 19 to 25.
    pub fn sample_person_19_to_25(&mut self, msoa: MSOA, p_data: &Vec<Person>) -> (r: Option<
        usize,
    >)
        requires
            old(self).wf(p_data@),
        ensures
            final(self).wf(p_data@),
            final(self).people_by_area_ase == old(self).people_by_area_ase,
            final(self).adults_by_area_se == old(self).adults_by_area_se,
            final(self).adults_by_area_s == old(self).adults_by_area_s,
            final(self).adults_by_area == old(self).adults_by_area,
            final(self).children_by_area_se == old(self).children_by_area_se,
            final(self).children_by_area_s == old(self).children_by_area_s,
            final(self).people_by_area_over_75 == old(self).people_by_area_over_75,
            final(self).people_by_area_over_16 == old(self).people_by_area_over_16,
            (forall|q: usize|
                final(self).people_by_area_19_to_25.spec_get(key_area(msoa.0)).contains(q) ==> old(self).people_by_area_19_to_25.spec_get(key_area(msoa.0)).contains(q)),
            (match r {
                Some(p) => p < p_data@.len() && !old(self).matched_set().contains(p) && final(self).matched_set() == old(self).matched_set().insert(p) && final(self).unmatched_set() == old(self).unmatched_set().remove(p) && p_data@[p as int].msoa
                    == msoa && p_data@[p as int].age.0 > 18 && p_data@[p as int].age.0 < 26 && (forall|q: usize|
                    old(self).people_by_area_19_to_25.spec_get(key_area(msoa.0)).contains(q) && !old(self).matched_set().contains(q) && q != p ==> final(self).people_by_area_19_to_25.spec_get(key_area(msoa.0)).contains(q)),
                None => final(self).matched_set() == old(self).matched_set() && final(self).unmatched_set() == old(self).unmatched_set() && (forall|j: int|
                    0 <= j < old(self).people_by_area_19_to_25.spec_get(key_area(msoa.0)).len()
                        ==> old(self).matched_set().contains(
                        old(self).people_by_area_19_to_25.spec_get(key_area(msoa.0))[j],
                    )),
            }),
    {
        let ghost people = p_data@;
        let ghost m0 = self.matched_set();
        let ghost u0 = self.unmatched_set();
        let k = QKey { area: msoa.0, age: 0, sex: 0, eth: 0 };
        let ghost x = self.people_by_area_19_to_25;
        let r = self.people_by_area_19_to_25.take(k, &mut self.matched, &mut self.unmatched);
        proof {
            assert forall|kk: QKey, q: usize| #[trigger]
                self.people_by_area_19_to_25.spec_get(kk).contains(q) implies x.spec_get(
                kk,
            ).contains(q) by {}
            lemma_entries_ok_shrink(
                x,
                self.people_by_area_19_to_25,
                people,
                Self::app_19_to_25(),
                |p: Person| key_area(p.msoa.0),
            );
            if let Some(p) = r {
                lemma_entry_props(x, people, Self::app_19_to_25(), |p2: Person| key_area(p2.msoa.0), k, p);
                lemma_sets_after_take(
                    m0,
                    u0,
                    self.matched_set(),
                    self.unmatched_set(),
                    people.len() as int,
                    p,
                );
                lemma_covers_matched_grow(self.people_by_area_ase, people, m0, self.matched_set(), Self::app_all(), |p2: Person| key_ase(p2));
                lemma_covers_matched_grow(self.adults_by_area_se, people, m0, self.matched_set(), Self::app_adult(), |p2: Person| key_se(p2));
                lemma_covers_matched_grow(self.adults_by_area_s, people, m0, self.matched_set(), Self::app_adult(), |p2: Person| key_s(p2));
                lemma_covers_matched_grow(self.adults_by_area, people, m0, self.matched_set(), Self::app_adult(), |p2: Person| key_area(p2.msoa.0));
                lemma_covers_matched_grow(self.children_by_area_se, people, m0, self.matched_set(), Self::app_child(), |p2: Person| key_se(p2));
                lemma_covers_matched_grow(self.children_by_area_s, people, m0, self.matched_set(), Self::app_child(), |p2: Person| key_s(p2));
            }
            assert(self.wf(people));
        }
        r
    }

    /// Pops one unmatched person of the area older than 16.
    pub fn sample_person_over_16(&mut self, msoa: MSOA, p_data: &Vec<Person>) -> (r: Option<usize>)
        requires
            old(self).wf(p_data@),
        ensures
            final(self).wf(p_data@),
            final(self).people_by_area_ase == old(self).people_by_area_ase,
            final(self).adults_by_area_se == old(self).adults_by_area_se,
            final(self).adults_by_area_s == old(self).adults_by_area_s,
            final(self).adults_by_area == old(self).adults_by_area,
            final(self).children_by_area_se == old(self).children_by_area_se,
            final(self).children_by_area_s == old(self).children_by_area_s,
            final(self).people_by_area_over_75 == old(self).people_by_area_over_75,
            final(self).people_by_area_19_to_25 == old(self).people_by_area_19_to_25,
            (forall|q: usize|
                final(self).people_by_area_over_16.spec_get(key_area(msoa.0)).contains(q) ==> old(self).people_by_area_over_16.spec_get(key_area(msoa.0)).contains(q)),
            (match r {
                Some(p) => p < p_data@.len() && !old(self).matched_set().contains(p) && final(self).matched_set() == old(self).matched_set().insert(p) && final(self).unmatched_set() == old(self).unmatched_set().remove(p) && p_data@[p as int].msoa
                    == msoa && p_data@[p as int].is_adult() && (forall|q: usize|
                    old(self).people_by_area_over_16.spec_get(key_area(msoa.0)).contains(q) && !old(self).matched_set().contains(q) && q != p ==> final(self).people_by_area_over_16.spec_get(key_area(msoa.0)).contains(q)),
                None => final(self).matched_set() == old(self).matched_set() && final(self).unmatched_set() == old(self).unmatched_set() && (forall|j: int|
                    0 <= j < old(self).people_by_area_over_16.spec_get(key_area(msoa.0)).len()
                        ==> old(self).matched_set().contains(
                        old(self).people_by_area_over_16.spec_get(key_area(msoa.0))[j],
                    )),
            }),
    {
        let ghost people = p_data@;
        let ghost m0 = self.matched_set();
        let ghost u0 = self.unmatched_set();
        let k = QKey { area: msoa.0, age: 0, sex: 0, eth: 0 };
        let ghost x = self.people_by_area_over_16;
        let r = self.people_by_area_over_16.take(k, &mut self.matched, &mut self.unmatched);
        proof {
            assert forall|kk: QKey, q: usize| #[trigger]
                self.people_by_area_over_16.spec_get(kk).contains(q) implies x.spec_get(
                kk,
            ).contains(q) by {}
            lemma_entries_ok_shrink(
                x,
                self.people_by_area_over_16,
                people,
                Self::app_adult(),
                |p: Person| key_area(p.msoa.0),
            );
            if let Some(p) = r {
                lemma_entry_props(x, people, Self::app_adult(), |p2: Person| key_area(p2.msoa.0), k, p);
                lemma_sets_after_take(
                    m0,
                    u0,
                    self.matched_set(),
                    self.unmatched_set(),
                    people.len() as int,
                    p,
                );
                lemma_covers_matched_grow(self.people_by_area_ase, people, m0, self.matched_set(), Self::app_all(), |p2: Person| key_ase(p2));
                lemma_covers_matched_grow(self.adults_by_area_se, people, m0, self.matched_set(), Self::app_adult(), |p2: Person| key_se(p2));
                lemma_covers_matched_grow(self.adults_by_area_s, people, m0, self.matched_set(), Self::app_adult(), |p2: Person| key_s(p2));
                lemma_covers_matched_grow(self.adults_by_area, people, m0, self.matched_set(), Self::app_adult(), |p2: Person| key_area(p2.msoa.0));
                lemma_covers_matched_grow(self.children_by_area_se, people, m0, self.matched_set(), Self::app_child(), |p2: Person| key_se(p2));
                lemma_covers_matched_grow(self.children_by_area_s, people, m0, self.matched_set(), Self::app_child(), |p2: Person| key_s(p2));
            }
            assert(self.wf(people));
        }
        r
    }

    /// The band queue map a communal-establishment type draws from.
    pub open spec fn band_map(self, ctype: i32) -> QueueMap {
        if ctype < 22 {
            self.people_by_area_over_75
        } else if ctype < 27 {
            self.people_by_area_19_to_25
        } else {
            self.people_by_area_over_16
        }
    }

    /// The age band a communal-establishment type draws from.
    pub open spec fn communal_band(ctype: i32, p: Person) -> bool {
        if ctype < 22 {
            p.age.0 > 75
        } else if ctype < 27 {
            p.age.0 > 18 && p.age.0 < 26
        } else {
            p.is_adult()
        }
    }

    /// One draw from the band queue of the given communal type.
    fn take_band(&mut self, ctype: i32, msoa: MSOA, p_data: &Vec<Person>) -> (r: Option<usize>)
        requires
            old(self).wf(p_data@),
        ensures
            final(self).wf(p_data@),
            final(self).people_by_area_ase == old(self).people_by_area_ase,
            final(self).adults_by_area_se == old(self).adults_by_area_se,
            final(self).adults_by_area_s == old(self).adults_by_area_s,
            final(self).adults_by_area == old(self).adults_by_area,
            final(self).children_by_area_se == old(self).children_by_area_se,
            final(self).children_by_area_s == old(self).children_by_area_s,
            (forall|q: usize|
                final(self).band_map(ctype).spec_get(key_area(msoa.0)).contains(q) ==> old(self).band_map(ctype).spec_get(key_area(msoa.0)).contains(q)),
            ctype >= 22 ==> final(self).people_by_area_over_75 == old(self).people_by_area_over_75,
            ctype < 22 || ctype >= 27 ==> final(self).people_by_area_19_to_25 == old(self).people_by_area_19_to_25,
            ctype < 27 ==> final(self).people_by_area_over_16 == old(self).people_by_area_over_16,
            (match r {
                Some(p) => p < p_data@.len() && !old(self).matched_set().contains(p) && final(self).matched_set() == old(self).matched_set().insert(p) && final(self).unmatched_set() == old(self).unmatched_set().remove(p) && p_data@[p as int].msoa
                    == msoa && Self::communal_band(ctype, p_data@[p as int]) && (forall|q: usize|
                    old(self).band_map(ctype).spec_get(key_area(msoa.0)).contains(q) && !old(self).matched_set().contains(q) && q != p ==> final(self).band_map(ctype).spec_get(key_area(msoa.0)).contains(q)),
                None => final(self).matched_set() == old(self).matched_set() && final(self).unmatched_set() == old(self).unmatched_set() && (forall|j: int|
                    0 <= j < old(self).band_map(ctype).spec_get(key_area(msoa.0)).len()
                        ==> old(self).matched_set().contains(
                        old(self).band_map(ctype).spec_get(key_area(msoa.0))[j],
                    )),
            }),
    {
        if ctype < 22 {
            self.sample_person_over_75(msoa, p_data)
        } else if ctype < 27 {
            self.sample_person_19_to_25(msoa, p_data)
        } else {
            self.sample_person_over_16(msoa, p_data)
        }
    }

    /// Returns one drawn person to the band queue of the given communal type
    /// and moves them back from `matched` to `unmatched`.
    fn put_back_one(&mut self, ctype: i32, msoa: MSOA, p: usize, p_data: &Vec<Person>)
        requires
            old(self).wf(p_data@),
            p < p_data@.len(),
            old(self).matched_set().contains(p),
            p_data@[p as int].msoa == msoa,
            Self::communal_band(ctype, p_data@[p as int]),
            old(self).people_by_area_ase.spec_get(key_ase(p_data@[p as int])).contains(p),
            p_data@[p as int].is_adult() ==> old(self).adults_by_area_se.spec_get(
                key_se(p_data@[p as int]),
            ).contains(p) && old(self).adults_by_area_s.spec_get(key_s(p_data@[p as int])).contains(
                p,
            ) && old(self).adults_by_area.spec_get(key_area(p_data@[p as int].msoa.0)).contains(p),
            !p_data@[p as int].is_adult() ==> old(self).children_by_area_se.spec_get(
                key_se(p_data@[p as int]),
            ).contains(p) && old(self).children_by_area_s.spec_get(
                key_s(p_data@[p as int]),
            ).contains(p),
        ensures
            final(self).wf(p_data@),
            final(self).matched_set() == old(self).matched_set().remove(p),
            final(self).unmatched_set() == old(self).unmatched_set().insert(p),
            final(self).people_by_area_ase == old(self).people_by_area_ase,
            final(self).adults_by_area_se == old(self).adults_by_area_se,
            final(self).adults_by_area_s == old(self).adults_by_area_s,
            final(self).adults_by_area == old(self).adults_by_area,
            final(self).children_by_area_se == old(self).children_by_area_se,
            final(self).children_by_area_s == old(self).children_by_area_s,
            ctype >= 22 ==> final(self).people_by_area_over_75 == old(self).people_by_area_over_75,
            ctype < 22 || ctype >= 27 ==> final(self).people_by_area_19_to_25 == old(self).people_by_area_19_to_25,
            ctype < 27 ==> final(self).people_by_area_over_16 == old(self).people_by_area_over_16,
            forall|q: usize|
                old(self).band_map(ctype).spec_get(key_area(msoa.0)).contains(q) ==> final(self).band_map(ctype).spec_get(key_area(msoa.0)).contains(q),
            final(self).band_map(ctype).spec_get(key_area(msoa.0)).contains(p),
    {
        let ghost people = p_data@;
        let ghost m0 = self.matched_set();
        let n_people = p_data.len();
        proof {
            assert(people.len() == n_people);
        }
        self.matched.remove(p);
        self.unmatched.insert(p);
        let k = QKey { area: msoa.0, age: 0, sex: 0, eth: 0 };
        if ctype < 22 {
            let ghost x = self.people_by_area_over_75;
            self.people_by_area_over_75.add_pid(k, p);
            proof {
                lemma_entries_ok_add(x, self.people_by_area_over_75, people, Self::app_over_75(), |p2: Person| key_area(p2.msoa.0), k, p);
                lemma_contains_after_add(x, self.people_by_area_over_75, k, p);
            }
        } else if ctype < 27 {
            let ghost x = self.people_by_area_19_to_25;
            self.people_by_area_19_to_25.add_pid(k, p);
            proof {
                lemma_entries_ok_add(x, self.people_by_area_19_to_25, people, Self::app_19_to_25(), |p2: Person| key_area(p2.msoa.0), k, p);
                lemma_contains_after_add(x, self.people_by_area_19_to_25, k, p);
            }
        } else {
            let ghost x = self.people_by_area_over_16;
            self.people_by_area_over_16.add_pid(k, p);
            proof {
                lemma_entries_ok_add(x, self.people_by_area_over_16, people, Self::app_adult(), |p2: Person| key_area(p2.msoa.0), k, p);
                lemma_contains_after_add(x, self.people_by_area_over_16, k, p);
            }
        }
        proof {
            assert forall|i: int|
                0 <= i < people.len() && !self.matched_set().contains(i as usize) && Queues::app_all()(
                    #[trigger] people[i],
                ) implies self.people_by_area_ase.spec_get(key_ase(people[i])).contains(
                i as usize,
            ) by {
                if i as usize != p {
                    assert(!m0.contains(i as usize));
                    assert(map_covers(old(self).people_by_area_ase, people, m0, Queues::app_all(), |p2: Person| key_ase(p2)));
                } else {
                    assert(old(self).people_by_area_ase.spec_get(key_ase(people[i])).contains(p));
                }
            }
            assert forall|i: int|
                0 <= i < people.len() && !self.matched_set().contains(i as usize) && Queues::app_adult()(
                    #[trigger] people[i],
                ) implies self.adults_by_area_se.spec_get(key_se(people[i])).contains(i as usize)
                && self.adults_by_area_s.spec_get(key_s(people[i])).contains(i as usize)
                && self.adults_by_area.spec_get(key_area(people[i].msoa.0)).contains(
                i as usize,
            ) by {
                if i as usize != p {
                    assert(!m0.contains(i as usize));
                    assert(map_covers(old(self).adults_by_area_se, people, m0, Queues::app_adult(), |p2: Person| key_se(p2)));
                    assert(map_covers(old(self).adults_by_area_s, people, m0, Queues::app_adult(), |p2: Person| key_s(p2)));
                    assert(map_covers(old(self).adults_by_area, people, m0, Queues::app_adult(), |p2: Person| key_area(p2.msoa.0)));
                }
            }
            assert forall|i: int|
                0 <= i < people.len() && !self.matched_set().contains(i as usize) && Queues::app_child()(
                    #[trigger] people[i],
                ) implies self.children_by_area_se.spec_get(key_se(people[i])).contains(i as usize)
                && self.children_by_area_s.spec_get(key_s(people[i])).contains(i as usize) by {
                if i as usize != p {
                    assert(!m0.contains(i as usize));
                    assert(map_covers(old(self).children_by_area_se, people, m0, Queues::app_child(), |p2: Person| key_se(p2)));
                    assert(map_covers(old(self).children_by_area_s, people, m0, Queues::app_child(), |p2: Person| key_s(p2)));
                }
            }
            assert(self.wf(people));
        }
    }

    /// Draws the asked number of persons for a communal establishment from
    /// the band of its type. If the band runs out first, every drawn person
    /// is returned to the band queue and nothing is taken at all.
    pub fn sample_communal(
        &mut self,
        ctype: i32,
        msoa: MSOA,
        nocc: usize,
        p_data: &Vec<Person>,
    ) -> (r: Option<Vec<usize>>)
        requires
            old(self).wf(p_data@),
        ensures
            final(self).wf(p_data@),
            forall|q: usize|
                old(self).people_by_area_over_75.spec_get(key_area(msoa.0)).contains(q) && !final(self).matched_set().contains(q) ==> final(self).people_by_area_over_75.spec_get(
                    key_area(msoa.0),
                ).contains(q),
            forall|q: usize|
                old(self).people_by_area_19_to_25.spec_get(key_area(msoa.0)).contains(q) && !final(self).matched_set().contains(q) ==> final(self).people_by_area_19_to_25.spec_get(
                    key_area(msoa.0),
                ).contains(q),
            forall|q: usize|
                old(self).people_by_area_over_16.spec_get(key_area(msoa.0)).contains(q) && !final(self).matched_set().contains(q) ==> final(self).people_by_area_over_16.spec_get(
                    key_area(msoa.0),
                ).contains(q),
            (match r {
                Some(pids) => pids@.len() == nocc && (forall|j: int|
                    0 <= j < pids@.len() ==> (#[trigger] pids@[j]) < p_data@.len() && !old(self).matched_set().contains(pids@[j]) && p_data@[pids@[j] as int].msoa == msoa
                        && Self::communal_band(ctype, p_data@[pids@[j] as int])) && (forall|
                    i: int,
                    j: int,
                |
                    0 <= i < j < pids@.len() ==> pids@[i] != pids@[j]) && final(self).matched_set() == old(self).matched_set().union(pids@.to_set()) && final(self).unmatched_set() == old(self).unmatched_set().difference(pids@.to_set()),
                None => final(self).matched_set() == old(self).matched_set() && final(self).unmatched_set() == old(self).unmatched_set() && (exists|taken: Seq<usize>|
                    taken.len() < nocc && (forall|q: usize|
                        old(self).band_map(ctype).spec_get(key_area(msoa.0)).contains(q) && !old(self).matched_set().contains(q) ==> taken.contains(q))),
            }),
    {
        let ghost people = p_data@;
        let ghost m0 = self.matched_set();
        let ghost u0 = self.unmatched_set();
        let ghost band0 = self.band_map(ctype).spec_get(key_area(msoa.0));
        let mut pids: Vec<usize> = Vec::new();
        let mut short = false;
        while pids.len() < nocc && !short
            invariant
                self.wf(people),
                people == p_data@,
                m0 == old(self).matched_set(),
                u0 == old(self).unmatched_set(),
                old(self).wf(people),
                pids@.len() <= nocc,
                !short ==> pids@.len() <= nocc,
                self.people_by_area_ase == old(self).people_by_area_ase,
                self.adults_by_area_se == old(self).adults_by_area_se,
                self.adults_by_area_s == old(self).adults_by_area_s,
                self.adults_by_area == old(self).adults_by_area,
                self.children_by_area_se == old(self).children_by_area_se,
                self.children_by_area_s == old(self).children_by_area_s,
                forall|j: int|
                    0 <= j < pids@.len() ==> (#[trigger] pids@[j]) < people.len() && !m0.contains(
                        pids@[j],
                    ) && people[pids@[j] as int].msoa == msoa && Self::communal_band(
                        ctype,
                        people[pids@[j] as int],
                    ),
                forall|i: int, j: int| 0 <= i < j < pids@.len() ==> pids@[i] != pids@[j],
                forall|q: usize|
                    self.matched_set().contains(q) <==> (m0.contains(q) || pids@.contains(q)),
                forall|q: usize|
                    self.unmatched_set().contains(q) <==> (u0.contains(q) && !pids@.contains(q)),
                band0 == old(self).band_map(ctype).spec_get(key_area(msoa.0)),
                ctype >= 22 ==> self.people_by_area_over_75 == old(self).people_by_area_over_75,
                ctype < 22 || ctype >= 27 ==> self.people_by_area_19_to_25 == old(self).people_by_area_19_to_25,
                ctype < 27 ==> self.people_by_area_over_16 == old(self).people_by_area_over_16,
                forall|q: usize|
                    band0.contains(q) && !self.matched_set().contains(q) ==> self.band_map(
                        ctype,
                    ).spec_get(key_area(msoa.0)).contains(q),
                short ==> pids@.len() < nocc,
                short ==> (forall|q: usize|
                    band0.contains(q) && !m0.contains(q) ==> pids@.contains(q)),
            decreases nocc - pids@.len() + (if short { 0int } else { 1int }),
        {
            let ghost bq_pre = self.band_map(ctype).spec_get(key_area(msoa.0));
            let ghost m_pre = self.matched_set();
            let r = self.take_band(ctype, msoa, p_data);
            match r {
                Some(p) => {
                    proof {
                        assert(!pids@.contains(p));
                        lemma_push_contains(pids@, p);
                        assert forall|q: usize| pids@.push(p).contains(q) implies (pids@.contains(q)
                            || q == p) by {
                            let j = choose|j: int|
                                0 <= j < pids@.push(p).len() && pids@.push(p)[j] == q;
                            if j < pids@.len() {
                                assert(pids@[j] == q);
                            }
                        }
                        assert forall|q: usize|
                            band0.contains(q) && !self.matched_set().contains(q) implies self.band_map(
                            ctype,
                        ).spec_get(key_area(msoa.0)).contains(q) by {
                            assert(!m_pre.contains(q));
                            assert(bq_pre.contains(q));
                            assert(q != p);
                        }
                    }
                    pids.push(p);
                },
                None => {
                    proof {
                        assert forall|q: usize|
                            band0.contains(q) && !m0.contains(q) implies pids@.contains(q) by {
                            if !self.matched_set().contains(q) {
                                assert(bq_pre.contains(q));
                                let jq = choose|jq: int|
                                    0 <= jq < bq_pre.len() && bq_pre[jq] == q;
                                assert(self.matched_set().contains(bq_pre[jq]));
                            }
                        }
                    }
                    short = true;
                },
            }
        }
        if !short {
            proof {
                assert(pids@.len() == nocc);
                assert(self.matched_set() =~= m0.union(pids@.to_set()));
                assert(self.unmatched_set() =~= u0.difference(pids@.to_set()));
            }
            return Some(pids);
        }
        // The band ran out: put every drawn person back.
        let mut i: usize = 0;
        while i < pids.len()
            invariant
                self.wf(people),
                people == p_data@,
                m0 == old(self).matched_set(),
                u0 == old(self).unmatched_set(),
                old(self).wf(people),
                i <= pids@.len(),
                self.people_by_area_ase == old(self).people_by_area_ase,
                self.adults_by_area_se == old(self).adults_by_area_se,
                self.adults_by_area_s == old(self).adults_by_area_s,
                self.adults_by_area == old(self).adults_by_area,
                self.children_by_area_se == old(self).children_by_area_se,
                self.children_by_area_s == old(self).children_by_area_s,
                forall|j: int|
                    0 <= j < pids@.len() ==> (#[trigger] pids@[j]) < people.len() && !m0.contains(
                        pids@[j],
                    ) && people[pids@[j] as int].msoa == msoa && Self::communal_band(
                        ctype,
                        people[pids@[j] as int],
                    ),
                forall|a: int, b: int| 0 <= a < b < pids@.len() ==> pids@[a] != pids@[b],
                forall|q: usize|
                    self.matched_set().contains(q) <==> (m0.contains(q) || pids@.skip(
                        i as int,
                    ).contains(q)),
                forall|q: usize|
                    self.unmatched_set().contains(q) <==> (u0.contains(q) && !pids@.skip(
                        i as int,
                    ).contains(q)),
                band0 == old(self).band_map(ctype).spec_get(key_area(msoa.0)),
                ctype >= 22 ==> self.people_by_area_over_75 == old(self).people_by_area_over_75,
                ctype < 22 || ctype >= 27 ==> self.people_by_area_19_to_25 == old(self).people_by_area_19_to_25,
                ctype < 27 ==> self.people_by_area_over_16 == old(self).people_by_area_over_16,
                pids@.len() < nocc,
                forall|q: usize| band0.contains(q) && !m0.contains(q) ==> pids@.contains(q),
                forall|q: usize|
                    band0.contains(q) && !self.matched_set().contains(q) ==> self.band_map(
                        ctype,
                    ).spec_get(key_area(msoa.0)).contains(q),
            decreases pids@.len() - i,
        {
            let p = pids[i];
            proof {
                assert(pids@.skip(i as int)[0] == p);
                assert(pids@.skip(i as int).contains(p));
                assert(self.matched_set().contains(p));
                // The person was unmatched at entry, so the entry-state
                // completeness places them in each applicable queue, and
                // those queues have not changed since.
                assert(u0.contains(p));
                assert(!m0.contains(p));
            }
            let ghost mcur = self.matched_set();
            let ghost ucur = self.unmatched_set();
            let ghost band_pre = self.band_map(ctype).spec_get(key_area(msoa.0));
            self.put_back_one(ctype, msoa, p, p_data);
            proof {
                assert forall|q: usize|
                    band0.contains(q) && !self.matched_set().contains(q) implies self.band_map(
                    ctype,
                ).spec_get(key_area(msoa.0)).contains(q) by {
                    if q == p {
                        assert(self.band_map(ctype).spec_get(key_area(msoa.0)).contains(p));
                    } else {
                        assert(!mcur.contains(q));
                        assert(band_pre.contains(q));
                    }
                }
                lemma_skip_distinct(pids@, i as int);
                assert forall|q: usize|
                    self.matched_set().contains(q) <==> (m0.contains(q) || pids@.skip(
                        i as int + 1,
                    ).contains(q)) by {
                    lemma_skip_step(pids@, i as int, q);
                }
                assert forall|q: usize|
                    self.unmatched_set().contains(q) <==> (u0.contains(q) && !pids@.skip(
                        i as int + 1,
                    ).contains(q)) by {
                    lemma_skip_step(pids@, i as int, q);
                }
            }
            i += 1;
        }
        proof {
            assert(pids@.skip(pids@.len() as int) =~= Seq::<usize>::empty());
            assert forall|q: usize| self.matched_set().contains(q) <==> m0.contains(q) by {
                assert(!pids@.skip(pids@.len() as int).contains(q));
            }
            assert(self.matched_set() =~= m0);
            assert forall|q: usize| self.unmatched_set().contains(q) <==> u0.contains(q) by {
                assert(!pids@.skip(pids@.len() as int).contains(q));
            }
            assert(self.unmatched_set() =~= u0);
            assert forall|q: usize|
                band0.contains(q) && !self.matched_set().contains(q) implies self.band_map(
                ctype,
            ).spec_get(key_area(msoa.0)).contains(q) by {}
            assert(pids@.len() < nocc);
            assert(exists|taken: Seq<usize>|
                taken.len() < nocc && (forall|q: usize|
                    band0.contains(q) && !m0.contains(q) ==> taken.contains(q))) by {
                assert(pids@.len() < nocc && (forall|q: usize|
                    band0.contains(q) && !m0.contains(q) ==> pids@.contains(q)));
            }
        }
        None
    }

    /// Marks a person matched directly, as the surplus stages do when they
    /// assign a person without drawing from a queue.
    pub fn mark_matched(&mut self, pid: usize, p_data: &Vec<Person>)
        requires
            old(self).wf(p_data@),
            pid < p_data@.len(),
            !old(self).matched_set().contains(pid),
        ensures
            final(self).wf(p_data@),
            final(self).matched_set() == old(self).matched_set().insert(pid),
            final(self).unmatched_set() == old(self).unmatched_set().remove(pid),
    {
        let ghost people = p_data@;
        let ghost m0 = self.matched_set();
        let ghost u0 = self.unmatched_set();
        self.matched.insert(pid);
        self.unmatched.remove(pid);
        proof {
            lemma_sets_after_take(
                m0,
                u0,
                self.matched_set(),
                self.unmatched_set(),
                people.len() as int,
                pid,
            );
            lemma_covers_matched_grow(self.people_by_area_ase, people, m0, self.matched_set(), Self::app_all(), |p2: Person| key_ase(p2));
            lemma_covers_matched_grow(self.adults_by_area_se, people, m0, self.matched_set(), Self::app_adult(), |p2: Person| key_se(p2));
            lemma_covers_matched_grow(self.adults_by_area_s, people, m0, self.matched_set(), Self::app_adult(), |p2: Person| key_s(p2));
            lemma_covers_matched_grow(self.adults_by_area, people, m0, self.matched_set(), Self::app_adult(), |p2: Person| key_area(p2.msoa.0));
            lemma_covers_matched_grow(self.children_by_area_se, people, m0, self.matched_set(), Self::app_child(), |p2: Person| key_se(p2));
            lemma_covers_matched_grow(self.children_by_area_s, people, m0, self.matched_set(), Self::app_child(), |p2: Person| key_s(p2));
            assert(self.wf(people));
        }
    }

    /// Queue well-formedness reads only the demographic fields of persons,
    /// so it survives household assignments being written into the table.
    pub proof fn lemma_wf_same_demo(self, p1: Seq<Person>, p2: Seq<Person>)
        requires
            self.wf(p1),
            p2.len() == p1.len(),
            forall|i: int|
                0 <= i < p1.len() ==> (#[trigger] p2[i]).msoa == p1[i].msoa && p2[i].age == p1[i].age
                    && p2[i].sex == p1[i].sex && p2[i].eth == p1[i].eth,
        ensures
            self.wf(p2),
    {
        assert forall|i: int| 0 <= i < p1.len() implies key_ase(#[trigger] p2[i]) == key_ase(p1[i])
            && key_se(p2[i]) == key_se(p1[i]) && key_s(p2[i]) == key_s(p1[i]) && p2[i].is_adult()
            == p1[i].is_adult() && (p2[i].age.0 > 75) == (p1[i].age.0 > 75) && (p2[i].age.0 > 18
            && p2[i].age.0 < 26) == (p1[i].age.0 > 18 && p1[i].age.0 < 26) by {}
        assert(self.wf(p2));
    }

    /// Builds the queues for sampling and matching: walks the person table
    /// in order, files every person in each index that applies to them, then
    /// shuffles every queue once with the shared random source. Everybody
    /// starts unmatched.
    pub fn new(p_data: &Vec<Person>, rng: &mut rand::rngs::StdRng) -> (q: Queues)
        ensures
            q.wf(p_data@),
            q.matched_set() == Set::<usize>::empty(),
            forall|p: usize| q.unmatched_set().contains(p) <==> p < p_data@.len(),
            forall|l: int|
                0 <= l < p_data@.len() && (#[trigger] p_data@[l]).age.0 > 75
                    ==> q.people_by_area_over_75.spec_get(key_area(p_data@[l].msoa.0)).contains(
                    l as usize,
                ),
            forall|l: int|
                0 <= l < p_data@.len() && (#[trigger] p_data@[l]).age.0 > 18 && p_data@[l].age.0
                    < 26 ==> q.people_by_area_19_to_25.spec_get(key_area(p_data@[l].msoa.0)).contains(
                    l as usize,
                ),
            forall|l: int|
                0 <= l < p_data@.len() && (#[trigger] p_data@[l]).age.0 > 16
                    ==> q.people_by_area_over_16.spec_get(key_area(p_data@[l].msoa.0)).contains(
                    l as usize,
                ),
    {
        let ghost people = p_data@;
        let mut q = Queues {
            matched: PidSet::new(),
            unmatched: PidSet::new(),
            people_by_area_ase: QueueMap::new(),
            adults_by_area_se: QueueMap::new(),
            adults_by_area_s: QueueMap::new(),
            adults_by_area: QueueMap::new(),
            children_by_area_se: QueueMap::new(),
            children_by_area_s: QueueMap::new(),
            people_by_area_over_75: QueueMap::new(),
            people_by_area_19_to_25: QueueMap::new(),
            people_by_area_over_16: QueueMap::new(),
        };
        let mut i: usize = 0;
        while i < p_data.len()
            invariant
                people == p_data@,
                i <= people.len(),
                pid_set_view(q.matched) == Set::<usize>::empty(),
                pid_set_view(q.unmatched).finite(),
                forall|p: usize| pid_set_view(q.unmatched).contains(p) <==> p < i,
                q.people_by_area_ase.wf(),
                q.adults_by_area_se.wf(),
                q.adults_by_area_s.wf(),
                q.adults_by_area.wf(),
                q.children_by_area_se.wf(),
                q.children_by_area_s.wf(),
                q.people_by_area_over_75.wf(),
                q.people_by_area_19_to_25.wf(),
                q.people_by_area_over_16.wf(),
                map_entries_ok(q.people_by_area_ase, people, Self::app_all(), |p: Person| key_ase(p)),
                map_entries_ok(q.adults_by_area_se, people, Self::app_adult(), |p: Person| key_se(p)),
                map_entries_ok(q.adults_by_area_s, people, Self::app_adult(), |p: Person| key_s(p)),
                map_entries_ok(q.adults_by_area, people, Self::app_adult(), |p: Person| key_area(p.msoa.0)),
                map_entries_ok(q.children_by_area_se, people, Self::app_child(), |p: Person| key_se(p)),
                map_entries_ok(q.children_by_area_s, people, Self::app_child(), |p: Person| key_s(p)),
                map_entries_ok(q.people_by_area_over_75, people, Self::app_over_75(), |p: Person| key_area(p.msoa.0)),
                map_entries_ok(q.people_by_area_19_to_25, people, Self::app_19_to_25(), |p: Person| key_area(p.msoa.0)),
                map_entries_ok(q.people_by_area_over_16, people, Self::app_adult(), |p: Person| key_area(p.msoa.0)),
                forall|l: int|
                    0 <= l < i ==> q.people_by_area_ase.spec_get(key_ase(#[trigger] people[l])).contains(l as usize),
                forall|l: int|
                    0 <= l < i && people[l].is_adult() ==> q.adults_by_area_se.spec_get(key_se(#[trigger] people[l])).contains(l as usize),
                forall|l: int|
                    0 <= l < i && people[l].is_adult() ==> q.adults_by_area_s.spec_get(key_s(#[trigger] people[l])).contains(l as usize),
                forall|l: int|
                    0 <= l < i && people[l].is_adult() ==> q.adults_by_area.spec_get(key_area(#[trigger] people[l].msoa.0)).contains(l as usize),
                forall|l: int|
                    0 <= l < i && !people[l].is_adult() ==> q.children_by_area_se.spec_get(key_se(#[trigger] people[l])).contains(l as usize),
                forall|l: int|
                    0 <= l < i && !people[l].is_adult() ==> q.children_by_area_s.spec_get(key_s(#[trigger] people[l])).contains(l as usize),
                forall|l: int|
                    0 <= l < i && (#[trigger] people[l]).age.0 > 75
                        ==> q.people_by_area_over_75.spec_get(key_area(people[l].msoa.0)).contains(
                        l as usize,
                    ),
                forall|l: int|
                    0 <= l < i && (#[trigger] people[l]).age.0 > 18 && people[l].age.0 < 26
                        ==> q.people_by_area_19_to_25.spec_get(key_area(people[l].msoa.0)).contains(
                        l as usize,
                    ),
                forall|l: int|
                    0 <= l < i && (#[trigger] people[l]).age.0 > 16
                        ==> q.people_by_area_over_16.spec_get(key_area(people[l].msoa.0)).contains(
                        l as usize,
                    ),
            decreases people.len() - i,
        {
            q.unmatched.insert(i);
            let area = p_data[i].msoa.0;
            let page = p_data[i].age.0;
            let psex = p_data[i].sex.0;
            let peth = p_data[i].eth.0;
            let ghost m0 = q.people_by_area_ase;
            q.people_by_area_ase.add_pid(QKey { area, age: page, sex: psex, eth: peth }, i);
            proof {
                lemma_entries_ok_add(m0, q.people_by_area_ase, people, Self::app_all(), |p: Person| key_ase(p), key_ase(people[i as int]), i);
                lemma_contains_after_add(m0, q.people_by_area_ase, key_ase(people[i as int]), i);
            }
            if page > 75 {
                let ghost m1 = q.people_by_area_over_75;
                q.people_by_area_over_75.add_pid(QKey { area, age: 0, sex: 0, eth: 0 }, i);
                proof {
                    lemma_entries_ok_add(m1, q.people_by_area_over_75, people, Self::app_over_75(), |p: Person| key_area(p.msoa.0), key_area(people[i as int].msoa.0), i);
                    lemma_contains_after_add(m1, q.people_by_area_over_75, key_area(people[i as int].msoa.0), i);
                }
            }
            if page > 18 && page < 26 {
                let ghost m2 = q.people_by_area_19_to_25;
                q.people_by_area_19_to_25.add_pid(QKey { area, age: 0, sex: 0, eth: 0 }, i);
                proof {
                    lemma_entries_ok_add(m2, q.people_by_area_19_to_25, people, Self::app_19_to_25(), |p: Person| key_area(p.msoa.0), key_area(people[i as int].msoa.0), i);
                    lemma_contains_after_add(m2, q.people_by_area_19_to_25, key_area(people[i as int].msoa.0), i);
                }
            }
            if page > crate::ADULT_AGE {
                let ghost m3 = q.people_by_area_over_16;
                q.people_by_area_over_16.add_pid(QKey { area, age: 0, sex: 0, eth: 0 }, i);
                proof {
                    lemma_entries_ok_add(m3, q.people_by_area_over_16, people, Self::app_adult(), |p: Person| key_area(p.msoa.0), key_area(people[i as int].msoa.0), i);
                    lemma_contains_after_add(m3, q.people_by_area_over_16, key_area(people[i as int].msoa.0), i);
                }
                let ghost m4 = q.adults_by_area_se;
                q.adults_by_area_se.add_pid(QKey { area, age: 0, sex: psex, eth: peth }, i);
                proof {
                    lemma_entries_ok_add(m4, q.adults_by_area_se, people, Self::app_adult(), |p: Person| key_se(p), key_se(people[i as int]), i);
                    lemma_contains_after_add(m4, q.adults_by_area_se, key_se(people[i as int]), i);
                }
                let ghost m5 = q.adults_by_area_s;
                q.adults_by_area_s.add_pid(QKey { area, age: 0, sex: psex, eth: 0 }, i);
                proof {
                    lemma_entries_ok_add(m5, q.adults_by_area_s, people, Self::app_adult(), |p: Person| key_s(p), key_s(people[i as int]), i);
                    lemma_contains_after_add(m5, q.adults_by_area_s, key_s(people[i as int]), i);
                }
                let ghost m6 = q.adults_by_area;
                q.adults_by_area.add_pid(QKey { area, age: 0, sex: 0, eth: 0 }, i);
                proof {
                    lemma_entries_ok_add(m6, q.adults_by_area, people, Self::app_adult(), |p: Person| key_area(p.msoa.0), key_area(people[i as int].msoa.0), i);
                    lemma_contains_after_add(m6, q.adults_by_area, key_area(people[i as int].msoa.0), i);
                }
            } else {
                let ghost m7 = q.children_by_area_se;
                q.children_by_area_se.add_pid(QKey { area, age: 0, sex: psex, eth: peth }, i);
                proof {
                    lemma_entries_ok_add(m7, q.children_by_area_se, people, Self::app_child(), |p: Person| key_se(p), key_se(people[i as int]), i);
                    lemma_contains_after_add(m7, q.children_by_area_se, key_se(people[i as int]), i);
                }
                let ghost m8 = q.children_by_area_s;
                q.children_by_area_s.add_pid(QKey { area, age: 0, sex: psex, eth: 0 }, i);
                proof {
                    lemma_entries_ok_add(m8, q.children_by_area_s, people, Self::app_child(), |p: Person| key_s(p), key_s(people[i as int]), i);
                    lemma_contains_after_add(m8, q.children_by_area_s, key_s(people[i as int]), i);
                }
            }
            i += 1;
        }
        // Shuffle every queue once, in a fixed order.
        let ghost s1 = q.people_by_area_ase;
        q.people_by_area_ase.shuffle(rng);
        proof {
            lemma_map_after_permute(s1, q.people_by_area_ase, people, Self::app_all(), |p: Person| key_ase(p));
            lemma_entries_ok_shrink(s1, q.people_by_area_ase, people, Self::app_all(), |p: Person| key_ase(p));
        }
        let ghost s2 = q.adults_by_area_se;
        q.adults_by_area_se.shuffle(rng);
        proof {
            lemma_map_after_permute(s2, q.adults_by_area_se, people, Self::app_adult(), |p: Person| key_se(p));
            lemma_entries_ok_shrink(s2, q.adults_by_area_se, people, Self::app_adult(), |p: Person| key_se(p));
        }
        let ghost s3 = q.adults_by_area_s;
        q.adults_by_area_s.shuffle(rng);
        proof {
            lemma_map_after_permute(s3, q.adults_by_area_s, people, Self::app_adult(), |p: Person| key_s(p));
            lemma_entries_ok_shrink(s3, q.adults_by_area_s, people, Self::app_adult(), |p: Person| key_s(p));
        }
        let ghost s4 = q.adults_by_area;
        q.adults_by_area.shuffle(rng);
        proof {
            lemma_map_after_permute(s4, q.adults_by_area, people, Self::app_adult(), |p: Person| key_area(p.msoa.0));
            lemma_entries_ok_shrink(s4, q.adults_by_area, people, Self::app_adult(), |p: Person| key_area(p.msoa.0));
        }
        let ghost s5 = q.children_by_area_se;
        q.children_by_area_se.shuffle(rng);
        proof {
            lemma_map_after_permute(s5, q.children_by_area_se, people, Self::app_child(), |p: Person| key_se(p));
            lemma_entries_ok_shrink(s5, q.children_by_area_se, people, Self::app_child(), |p: Person| key_se(p));
        }
        let ghost s6 = q.children_by_area_s;
        q.children_by_area_s.shuffle(rng);
        proof {
            lemma_map_after_permute(s6, q.children_by_area_s, people, Self::app_child(), |p: Person| key_s(p));
            lemma_entries_ok_shrink(s6, q.children_by_area_s, people, Self::app_child(), |p: Person| key_s(p));
        }
        let ghost s7 = q.people_by_area_over_75;
        q.people_by_area_over_75.shuffle(rng);
        proof {
            lemma_map_after_permute(s7, q.people_by_area_over_75, people, Self::app_over_75(), |p: Person| key_area(p.msoa.0));
            lemma_entries_ok_shrink(s7, q.people_by_area_over_75, people, Self::app_over_75(), |p: Person| key_area(p.msoa.0));
        }
        let ghost s8 = q.people_by_area_19_to_25;
        q.people_by_area_19_to_25.shuffle(rng);
        proof {
            lemma_map_after_permute(s8, q.people_by_area_19_to_25, people, Self::app_19_to_25(), |p: Person| key_area(p.msoa.0));
            lemma_entries_ok_shrink(s8, q.people_by_area_19_to_25, people, Self::app_19_to_25(), |p: Person| key_area(p.msoa.0));
        }
        let ghost s9 = q.people_by_area_over_16;
        q.people_by_area_over_16.shuffle(rng);
        proof {
            lemma_map_after_permute(s9, q.people_by_area_over_16, people, Self::app_adult(), |p: Person| key_area(p.msoa.0));
            lemma_entries_ok_shrink(s9, q.people_by_area_over_16, people, Self::app_adult(), |p: Person| key_area(p.msoa.0));
        }
        q
    }
}

} // verus!
