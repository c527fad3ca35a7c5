//! Grouping of hashed files by digest, and reduction of the groups to the
//! sets of duplicates.
use crate::digest::{digest_of, file_digest, Mode};
use std::collections::HashMap;
use vstd::prelude::*;

verus! {

/// What became of one input file: a digest, or the error met reading it.
pub enum FileOutcome<P, E> {
    Hashed { path: P, digest: u64 },
    Failed { path: P, error: E },
}

/// The paths, in input order, of the files hashed to digest `d`.
pub open spec fn group_of<P, E>(items: Seq<FileOutcome<P, E>>, d: u64) -> Seq<P>
    decreases items.len(),
{
    if items.len() == 0 {
        Seq::empty()
    } else {
        let rest = group_of(items.drop_last(), d);
        match items.last() {
            FileOutcome::Hashed { path, digest } => if digest == d {
                rest.push(path)
            } else {
                rest
            },
            FileOutcome::Failed { .. } => rest,
        }
    }
}

/// The files that could not be hashed, with their errors, in input order.
pub open spec fn failures_of<P, E>(items: Seq<FileOutcome<P, E>>) -> Seq<(P, E)>
    decreases items.len(),
{
    if items.len() == 0 {
        Seq::empty()
    } else {
        let rest = failures_of(items.drop_last());
        match items.last() {
            FileOutcome::Hashed { .. } => rest,
            FileOutcome::Failed { path, error } => rest.push((path, error)),
        }
    }
}

/// Every digest that some input file hashed to, with the paths of its files.
pub open spec fn grouping_of<P, E>(items: Seq<FileOutcome<P, E>>) -> Map<u64, Seq<P>> {
    Map::new(|d: u64| group_of(items, d).len() > 0, |d: u64| group_of(items, d))
}

/// Files that share a digest: two or more of them.
pub struct DuplicateSet<P> {
    pub digest: u64,
    pub paths: Vec<P>,
}

/// The outcome of a run: the sets of duplicates, and the files that could
/// not be hashed, with their errors.
pub struct Report<P, E> {
    pub duplicates: Vec<DuplicateSet<P>>,
    pub failures: Vec<(P, E)>,
}

/// `sets` holds exactly the buckets of `table` that have two or more paths,
/// one set per digest.
pub open spec fn duplicates_match<P>(sets: Seq<DuplicateSet<P>>, table: Map<u64, Seq<P>>) -> bool {
    &&& forall|i: int|
        0 <= i < sets.len() ==> {
            &&& table.contains_key(#[trigger] sets[i].digest)
            &&& sets[i].paths@ == table[sets[i].digest]
            &&& sets[i].paths@.len() >= 2
        }
    &&& forall|i: int, j: int|
        0 <= i < sets.len() && 0 <= j < sets.len() && i != j ==> #[trigger] sets[i].digest
            != #[trigger] sets[j].digest
    &&& forall|d: u64|
        #[trigger] table.contains_key(d) && table[d].len() >= 2 ==> exists|i: int|
            0 <= i < sets.len() && #[trigger] sets[i].digest == d
}

/// A table from digest to the paths that share it, filled one file at a time.
pub struct GroupingTable<P> {
    slots: HashMap<u64, usize>,
    digests: Vec<u64>,
    buckets: Vec<Vec<P>>,
}

impl<P> View for GroupingTable<P> {
    type V = Map<u64, Seq<P>>;

    closed spec fn view(&self) -> Map<u64, Seq<P>> {
        Map::new(
            |d: u64| self.slots@.contains_key(d),
            |d: u64| self.buckets@[self.slots@[d] as int]@,
        )
    }
}

impl<P> GroupingTable<P> {
    /// Each digest has one slot, the slot holds that digest, and no bucket is
    /// empty.
    pub closed spec fn wf(&self) -> bool {
        &&& self.digests@.len() == self.buckets@.len()
        &&& forall|i: int|
            0 <= i < self.digests@.len() ==> {
                &&& #[trigger] self.slots@.contains_key(self.digests@[i])
                &&& self.slots@[self.digests@[i]] == i
                &&& self.buckets@[i]@.len() > 0
            }
        &&& forall|d: u64| #[trigger]
            self.slots@.contains_key(d) ==> {
                &&& self.slots@[d] < self.digests@.len()
                &&& self.digests@[self.slots@[d] as int] == d
            }
    }

    /// An empty table.
    pub fn new() -> (r: Self)
        ensures
            r.wf(),
            r@ == Map::<u64, Seq<P>>::empty(),
    {
        let r = GroupingTable { slots: HashMap::new(), digests: Vec::new(), buckets: Vec::new() };
        assert(r@ =~= Map::<u64, Seq<P>>::empty());
        r
    }

    /// Appends `path` to the bucket of `digest`, opening the bucket if needed.
    pub fn insert(&mut self, digest: u64, path: P)
        requires
            old(self).wf(),
        ensures
            final(self).wf(),
            final(self)@ == old(self)@.insert(
                digest,
                if old(self)@.contains_key(digest) {
                    old(self)@[digest].push(path)
                } else {
                    seq![path]
                },
            ),
    {
        proof {
            broadcast use vstd::std_specs::hash::group_hash_axioms;
        }
        let ghost before = self@;
        match self.slots.get(&digest) {
            Some(slot) => {
                let i: usize = *slot;
                self.buckets[i].push(path);
                assert(self@ =~= before.insert(digest, before[digest].push(path)));
            },
            None => {
                let i: usize = self.digests.len();
                self.slots.insert(digest, i);
                self.digests.push(digest);
                let ghost earlier_buckets = self.buckets@;
                self.buckets.push(vec![path]);
                assert(self.buckets@[i as int]@ =~= seq![path]);
                assert forall|d: u64| #[trigger] self.slots@.contains_key(d) && d != digest implies
                    self.buckets@[self.slots@[d] as int] == earlier_buckets[self.slots@[d] as int]
                by {}
                assert(self@ =~= before.insert(digest, seq![path]));
            },
        }
    }

    /// The buckets with two or more paths; single files are dropped.
    pub fn into_duplicate_sets(self) -> (r: Vec<DuplicateSet<P>>)
        requires
            self.wf(),
        ensures
            duplicates_match(r@, self@),
    {
        let ghost table = self@;
        let ghost digests0 = self.digests@;
        let ghost buckets0 = self.buckets@;
        let ghost slots0 = self.slots@;
        assert forall|j: int| 0 <= j < digests0.len() implies {
            &&& slots0.contains_key(#[trigger] digests0[j])
            &&& slots0[digests0[j]] == j
            &&& table.contains_key(digests0[j])
            &&& table[digests0[j]] == buckets0[j]@
        } by {
            assert(self.slots@.contains_key(self.digests@[j]));
        }
        let GroupingTable { slots, mut digests, mut buckets } = self;
        let mut out: Vec<DuplicateSet<P>> = Vec::new();
        // `origin[i]` is the bucket that `out[i]` was taken from.
        let ghost mut origin: Seq<int> = Seq::empty();
        let mut k: usize = digests.len();
        while k > 0
            invariant
                k <= digests0.len(),
                digests0.len() == buckets0.len(),
                digests@ == digests0.take(k as int),
                buckets@ == buckets0.take(k as int),
                forall|j: int|
                    0 <= j < digests0.len() ==> {
                        &&& slots0.contains_key(#[trigger] digests0[j])
                        &&& slots0[digests0[j]] == j
                        &&& table.contains_key(digests0[j])
                        &&& table[digests0[j]] == buckets0[j]@
                    },
                origin.len() == out@.len(),
                forall|i: int|
                    0 <= i < out@.len() ==> {
                        &&& k <= #[trigger] origin[i] < digests0.len()
                        &&& out@[i].digest == digests0[origin[i]]
                        &&& out@[i].paths@ == buckets0[origin[i]]@
                        &&& buckets0[origin[i]]@.len() >= 2
                    },
                forall|i: int, j: int|
                    0 <= i < out@.len() && 0 <= j < out@.len() && i != j ==> #[trigger] origin[i]
                        != #[trigger] origin[j],
                forall|j: int|
                    k <= j < digests0.len() && buckets0[j]@.len() >= 2 ==> exists|i: int|
                        0 <= i < out@.len() && #[trigger] origin[i] == j,
            decreases k,
        {
            let d = digests.pop().unwrap();
            let b = buckets.pop().unwrap();
            k = k - 1;
            assert(d == digests0[k as int]);
            assert(b@ == buckets0[k as int]@);
            assert(digests@ =~= digests0.take(k as int));
            assert(buckets@ =~= buckets0.take(k as int));
            if b.len() >= 2 {
                let ghost n = out@.len() as int;
                out.push(DuplicateSet { digest: d, paths: b });
                proof {
                    let prev = origin;
                    origin = origin.push(k as int);
                    assert forall|j: int|
                        k <= j < digests0.len() && buckets0[j]@.len() >= 2 implies exists|i: int|
                            0 <= i < out@.len() && #[trigger] origin[i] == j by {
                        if j == k {
                            assert(origin[n] == j);
                        } else {
                            let i = choose|i: int| 0 <= i < prev.len() && #[trigger] prev[i] == j;
                            assert(origin[i] == j);
                        }
                    }
                }
            }
        }
        assert forall|i: int| 0 <= i < out@.len() implies {
            &&& table.contains_key(#[trigger] out@[i].digest)
            &&& out@[i].paths@ == table[out@[i].digest]
            &&& out@[i].paths@.len() >= 2
        } by {
            assert(origin[i] < digests0.len());
        }
        assert forall|i: int, j: int|
            0 <= i < out@.len() && 0 <= j < out@.len() && i != j implies #[trigger] out@[i].digest
                != #[trigger] out@[j].digest by {
            assert(origin[i] != origin[j]);
            assert(slots0[digests0[origin[i]]] == origin[i]);
            assert(slots0[digests0[origin[j]]] == origin[j]);
        }
        assert forall|d: u64| #[trigger] table.contains_key(d) && table[d].len() >= 2 implies exists|i: int|
            0 <= i < out@.len() && #[trigger] out@[i].digest == d by {
            let j = slots0[d] as int;
            assert(digests0[j] == d);
            let i = choose|i: int| 0 <= i < out@.len() && #[trigger] origin[i] == j;
            assert(out@[i].digest == d);
        }
        out
    }
}

/// Builds the table of every hashed file and the list of failures.
pub fn group_outcomes<P, E>(items: Vec<FileOutcome<P, E>>) -> (r: (GroupingTable<P>, Vec<(P, E)>))
    ensures
        r.0.wf(),
        r.0@ == grouping_of(items@),
        r.1@ == failures_of(items@),
{
    let ghost all = items@;
    let mut table: GroupingTable<P> = GroupingTable::new();
    let mut failures: Vec<(P, E)> = Vec::new();
    for item in it: items
        invariant
            it.seq() == all,
            table.wf(),
            table@ =~= grouping_of(all.take(it.index() as int)),
            failures@ == failures_of(all.take(it.index() as int)),
    {
        let ghost pre = all.take(it.index() as int);
        let ghost next = all.take(it.index() + 1);
        let ghost cur = item;
        proof {
            assert(next.drop_last() =~= pre);
            assert(next.last() == cur);
        }
        match item {
            FileOutcome::Hashed { path, digest } => {
                let ghost before = table@;
                table.insert(digest, path);
                assert forall|d: u64| #[trigger] group_of(next, d) == if d == digest {
                    group_of(pre, d).push(path)
                } else {
                    group_of(pre, d)
                } by {}
                proof {
                    if group_of(pre, digest).len() == 0 {
                        assert(group_of(pre, digest).push(path) =~= seq![path]);
                    }
                    assert(before =~= grouping_of(pre));
                }
                assert(table@ =~= grouping_of(next));
            },
            FileOutcome::Failed { path, error } => {
                failures.push((path, error));
                assert forall|d: u64| #[trigger] group_of(next, d) == group_of(pre, d) by {}
                assert(table@ =~= grouping_of(next));
            },
        }
    }
    assert(all.take(all.len() as int) =~= all);
    (table, failures)
}

/// Groups the outcomes of a run by digest and keeps the groups of two or
/// more files, beside the files that could not be hashed.
pub fn find_duplicates<P, E>(items: Vec<FileOutcome<P, E>>) -> (r: Report<P, E>)
    ensures
        duplicates_match(r.duplicates@, grouping_of(items@)),
        r.failures@ == failures_of(items@),
{
    let (table, failures) = group_outcomes(items);
    let duplicates = table.into_duplicate_sets();
    Report { duplicates, failures }
}

/// The outcome for one file, from what reading it gave: its digest in the
/// given mode, or the read error.
pub fn hash_outcome<P, E>(path: P, read: Result<Vec<u8>, E>, parent: &[u8], mode: Mode) -> (r:
    FileOutcome<P, E>)
    ensures
        match read {
            Ok(bytes) => r == FileOutcome::<P, E>::Hashed {
                path,
                digest: digest_of(bytes@, parent@, mode),
            },
            Err(error) => r == FileOutcome::<P, E>::Failed { path, error },
        },
{
    match read {
        Ok(bytes) => {
            let digest = file_digest(bytes.as_slice(), parent, mode);
            FileOutcome::Hashed { path, digest }
        },
        Err(error) => FileOutcome::Failed { path, error },
    }
}

} // verus!
