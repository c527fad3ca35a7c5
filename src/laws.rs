//! What holds of every run, whatever the order in which files were hashed.
use crate::digest::{digest_of, Mode};
use crate::grouping::{failures_of, group_of, grouping_of, FileOutcome};
use vstd::prelude::*;

verus! {

broadcast use vstd::seq_lib::group_to_multiset_ensures;

/// Each bucket and the failure list hold each input exactly as often as the
/// input sequence does.
proof fn lemma_counts<P, E>(items: Seq<FileOutcome<P, E>>)
    ensures
        forall|d: u64, p: P| #[trigger]
            group_of(items, d).to_multiset().count(p) == items.to_multiset().count(
                FileOutcome::Hashed { path: p, digest: d },
            ),
        forall|p: P, e: E| #[trigger]
            failures_of(items).to_multiset().count((p, e)) == items.to_multiset().count(
                FileOutcome::Failed { path: p, error: e },
            ),
    decreases items.len(),
{
    if items.len() > 0 {
        let rest = items.drop_last();
        let x = items.last();
        lemma_counts(rest);
        assert(items =~= rest.push(x));
        assert(items.to_multiset() =~= rest.to_multiset().insert(x));
        assert forall|d: u64, p: P| #[trigger]
            group_of(items, d).to_multiset().count(p) == items.to_multiset().count(
                FileOutcome::Hashed { path: p, digest: d },
            ) by {
            let h = FileOutcome::<P, E>::Hashed { path: p, digest: d };
            assert(rest.to_multiset().count(h) == group_of(rest, d).to_multiset().count(p));
            match x {
                FileOutcome::Hashed { path, digest } => {
                    if digest == d {
                        assert(group_of(items, d) == group_of(rest, d).push(path));
                    } else {
                        assert(group_of(items, d) == group_of(rest, d));
                    }
                },
                FileOutcome::Failed { .. } => {
                    assert(group_of(items, d) == group_of(rest, d));
                },
            }
        }
        assert forall|p: P, e: E| #[trigger]
            failures_of(items).to_multiset().count((p, e)) == items.to_multiset().count(
                FileOutcome::Failed { path: p, error: e },
            ) by {
            let f = FileOutcome::<P, E>::Failed { path: p, error: e };
            assert(rest.to_multiset().count(f) == failures_of(rest).to_multiset().count((p, e)));
            match x {
                FileOutcome::Hashed { .. } => {
                    assert(failures_of(items) == failures_of(rest));
                },
                FileOutcome::Failed { path, error } => {
                    assert(failures_of(items) == failures_of(rest).push((path, error)));
                },
            }
        }
    }
}

/// Every input file is accounted for exactly once: a path hashed to digest
/// `d` stands in the bucket of `d` as often as it was given with that digest,
/// and in no other bucket; a file that could not be hashed stands among the
/// failures, with its error, as often as it was given. No bucket is empty.
pub proof fn lemma_every_file_accounted<P, E>(items: Seq<FileOutcome<P, E>>)
    ensures
        forall|d: u64, p: P| #[trigger]
            group_of(items, d).to_multiset().count(p) == items.to_multiset().count(
                FileOutcome::Hashed { path: p, digest: d },
            ),
        forall|p: P, e: E| #[trigger]
            failures_of(items).to_multiset().count((p, e)) == items.to_multiset().count(
                FileOutcome::Failed { path: p, error: e },
            ),
        forall|d: u64| #[trigger]
            grouping_of(items).contains_key(d) ==> grouping_of(items)[d] == group_of(items, d)
                && group_of(items, d).len() > 0,
        forall|d: u64| !#[trigger] grouping_of(items).contains_key(d) ==> group_of(items, d).len() == 0,
{
    lemma_counts(items);
}

/// The order in which files finish hashing does not matter: two runs whose
/// outcomes are the same up to order have buckets for the same digests,
/// holding the same paths up to order, and the same failures up to order.
pub proof fn lemma_order_does_not_matter<P, E>(
    a: Seq<FileOutcome<P, E>>,
    b: Seq<FileOutcome<P, E>>,
)
    requires
        a.to_multiset() == b.to_multiset(),
    ensures
        forall|d: u64| #[trigger]
            grouping_of(a).contains_key(d) == grouping_of(b).contains_key(d),
        forall|d: u64| #[trigger]
            group_of(a, d).to_multiset() == group_of(b, d).to_multiset(),
        forall|d: u64| #[trigger] group_of(a, d).len() == group_of(b, d).len(),
        failures_of(a).to_multiset() == failures_of(b).to_multiset(),
{
    lemma_counts(a);
    lemma_counts(b);
    assert forall|d: u64| #[trigger]
        group_of(a, d).to_multiset() == group_of(b, d).to_multiset() by {
        assert(group_of(a, d).to_multiset() =~= group_of(b, d).to_multiset());
    }
    assert forall|d: u64| #[trigger] group_of(a, d).len() == group_of(b, d).len() by {
        assert(group_of(a, d).to_multiset() == group_of(b, d).to_multiset());
        assert(group_of(a, d).to_multiset().len() == group_of(a, d).len());
        assert(group_of(b, d).to_multiset().len() == group_of(b, d).len());
    }
    assert forall|f: (P, E)| #[trigger] failures_of(a).to_multiset().count(f)
        == failures_of(b).to_multiset().count(f) by {
        assert(failures_of(a).to_multiset().count((f.0, f.1)) == failures_of(b).to_multiset().count((f.0, f.1)));
    }
    assert(failures_of(a).to_multiset() =~= failures_of(b).to_multiset());
}

/// Two files with the same bytes land in the same bucket in content-only
/// mode; in combined mode they do when their parent directories are the same
/// too.
pub proof fn lemma_equal_files_share_bucket<P, E>(
    items: Seq<FileOutcome<P, E>>,
    i: int,
    j: int,
    contents_a: Seq<u8>,
    parent_a: Seq<u8>,
    contents_b: Seq<u8>,
    parent_b: Seq<u8>,
    mode: Mode,
)
    requires
        0 <= i < items.len(),
        0 <= j < items.len(),
        items[i] matches FileOutcome::Hashed { digest, .. } && digest == digest_of(
            contents_a,
            parent_a,
            mode,
        ),
        items[j] matches FileOutcome::Hashed { digest, .. } && digest == digest_of(
            contents_b,
            parent_b,
            mode,
        ),
        contents_a == contents_b,
        mode == Mode::ContentOnly || parent_a == parent_b,
    ensures
        ({
            let d = digest_of(contents_a, parent_a, mode);
            &&& grouping_of(items).contains_key(d)
            &&& grouping_of(items)[d].contains(items[i]->Hashed_path)
            &&& grouping_of(items)[d].contains(items[j]->Hashed_path)
        }),
{
    let d = digest_of(contents_a, parent_a, mode);
    assert(digest_of(contents_b, parent_b, mode) == d);
    lemma_counts(items);
    let pa = items[i]->Hashed_path;
    let pb = items[j]->Hashed_path;
    assert(items.contains(items[i]));
    assert(items.contains(items[j]));
    assert(items[i] == FileOutcome::<P, E>::Hashed { path: pa, digest: d });
    assert(items[j] == FileOutcome::<P, E>::Hashed { path: pb, digest: d });
    assert(group_of(items, d).to_multiset().count(pa) > 0);
    assert(group_of(items, d).to_multiset().count(pb) > 0);
}

/// A file that could not be hashed changes no bucket: the run without it has
/// the same buckets, holding the same paths, and one failure fewer.
pub proof fn lemma_failure_changes_no_bucket<P, E>(items: Seq<FileOutcome<P, E>>, j: int)
    requires
        0 <= j < items.len(),
        items[j] is Failed,
    ensures
        forall|d: u64| #[trigger]
            grouping_of(items.remove(j)).contains_key(d) == grouping_of(items).contains_key(d),
        forall|d: u64| #[trigger]
            group_of(items.remove(j), d).to_multiset() == group_of(items, d).to_multiset(),
        failures_of(items.remove(j)).len() + 1 == failures_of(items).len(),
        failures_of(items).to_multiset() == failures_of(items.remove(j)).to_multiset().insert(
            (items[j]->Failed_path, items[j]->Failed_error),
        ),
{
    let rest = items.remove(j);
    let x = items[j];
    let f = (x->Failed_path, x->Failed_error);
    lemma_counts(items);
    lemma_counts(rest);
    assert(rest.to_multiset() =~= items.to_multiset().remove(x));
    assert forall|d: u64| #[trigger]
        group_of(rest, d).to_multiset() == group_of(items, d).to_multiset() by {
        assert(group_of(rest, d).to_multiset() =~= group_of(items, d).to_multiset());
    }
    assert forall|d: u64| #[trigger]
        grouping_of(rest).contains_key(d) == grouping_of(items).contains_key(d) by {
        assert(group_of(rest, d).to_multiset() == group_of(items, d).to_multiset());
        assert(group_of(rest, d).to_multiset().len() == group_of(rest, d).len());
        assert(group_of(items, d).to_multiset().len() == group_of(items, d).len());
    }
    assert forall|g: (P, E)| #[trigger] failures_of(items).to_multiset().count(g)
        == failures_of(rest).to_multiset().insert(f).count(g) by {
        assert(failures_of(items).to_multiset().count((g.0, g.1)) == failures_of(rest).to_multiset().insert(f).count((g.0, g.1)));
    }
    assert(failures_of(items).to_multiset() =~= failures_of(rest).to_multiset().insert(f));
    assert(failures_of(items).to_multiset().len() == failures_of(items).len());
    assert(failures_of(rest).to_multiset().len() == failures_of(rest).len());
    assert(failures_of(items).to_multiset().len() == failures_of(rest).to_multiset().len() + 1);
}

} // verus!
