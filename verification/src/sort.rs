//! Deterministic ordering of resolved commits.
//!
//! [`sorted_commit_set`] sorts commits topologically where ancestry decides,
//! and by (commit time, oid) where it does not. The comparator is not a
//! total order on the ancestry relation — incomparable pairs fall back to
//! (time, oid), which need not respect transitivity through ancestry — so
//! the result is pinned exactly by the insertion model [`sort_rec`]: each
//! commit is placed before the first already-placed commit that compares
//! greater. Commits missing from the object store (a `None` time) are
//! skipped.

use vstd::prelude::*;

use crate::dag::Dag;
use crate::index::{is_ancestor_of, lex_less};
use crate::oid::{CommitVertex, NonZeroOid};

verus! {

/// A commit resolved from the object store: its identifier and commit time.
#[derive(Debug)]
pub struct CommitRecord {
    /// The commit's identifier.
    pub oid: NonZeroOid,
    /// The commit's time, in seconds.
    pub time_seconds: i64,
}

/// Strict order on the (time, oid) tie-break key.
pub open spec fn time_oid_less(t1: int, o1: Seq<u8>, t2: int, o2: Seq<u8>) -> bool {
    t1 < t2 || (t1 == t2 && lex_less(o1, o2))
}

/// Whether `a` compares greater than `b`: `a` is not an ancestor of `b`,
/// and either `b` is an ancestor of `a` or `b`'s (time, oid) key is the
/// smaller one.
pub open spec fn record_greater_spec(
    g: Map<Seq<u8>, Set<Seq<u8>>>,
    a: CommitRecord,
    b: CommitRecord,
) -> bool {
    !is_ancestor_of(g, a.oid@, b.oid@) && (is_ancestor_of(g, b.oid@, a.oid@) || time_oid_less(
        b.time_seconds as int,
        b.oid@,
        a.time_seconds as int,
        a.oid@,
    ))
}

/// Insert `x` before the first member of the sorted list `s` that compares
/// greater than `x`.
pub open spec fn insert_rec(
    g: Map<Seq<u8>, Set<Seq<u8>>>,
    x: CommitRecord,
    s: Seq<CommitRecord>,
) -> Seq<CommitRecord>
    decreases s.len(),
{
    if s.len() == 0 {
        seq![x]
    } else if record_greater_spec(g, s.first(), x) {
        seq![x] + s
    } else {
        seq![s.first()] + insert_rec(g, x, s.drop_first())
    }
}

/// Insertion sort under the commit comparator, processing left to right.
pub open spec fn sort_rec(g: Map<Seq<u8>, Set<Seq<u8>>>, s: Seq<CommitRecord>) -> Seq<CommitRecord>
    decreases s.len(),
{
    if s.len() == 0 {
        Seq::empty()
    } else {
        insert_rec(g, s.last(), sort_rec(g, s.drop_last()))
    }
}

/// The commits that resolved, in order: a `None` time is a commit missing
/// from the object store and is skipped.
pub open spec fn resolved_records(lookups: Seq<(NonZeroOid, Option<i64>)>) -> Seq<CommitRecord>
    decreases lookups.len(),
{
    if lookups.len() == 0 {
        Seq::empty()
    } else {
        resolved_records(lookups.drop_last()) + (match lookups.last().1 {
            Some(t) => seq![CommitRecord { oid: lookups.last().0, time_seconds: t }],
            None => Seq::empty(),
        })
    }
}

/// Inserting at the first position whose element compares greater matches
/// the recursive insertion model.
proof fn lemma_insert_rec_at(
    g: Map<Seq<u8>, Set<Seq<u8>>>,
    x: CommitRecord,
    s: Seq<CommitRecord>,
    pos: int,
)
    requires
        0 <= pos <= s.len(),
        forall|k: int| 0 <= k < pos ==> !record_greater_spec(g, #[trigger] s[k], x),
        pos < s.len() ==> record_greater_spec(g, s[pos], x),
    ensures
        insert_rec(g, x, s) == s.insert(pos, x),
    decreases s.len(),
{
    if pos == 0 {
        if s.len() == 0 {
            assert(insert_rec(g, x, s) =~= s.insert(0, x));
        } else {
            assert(record_greater_spec(g, s.first(), x));
            assert(insert_rec(g, x, s) == seq![x] + s);
            assert(seq![x] + s =~= s.insert(0, x));
        }
    } else {
        assert(!record_greater_spec(g, s[0], x));
        let rest = s.drop_first();
        assert forall|k: int| 0 <= k < pos - 1 implies !record_greater_spec(
            g,
            #[trigger] rest[k],
            x,
        ) by {
            assert(rest[k] == s[k + 1]);
        }
        if pos - 1 < rest.len() {
            assert(rest[pos - 1] == s[pos]);
        }
        lemma_insert_rec_at(g, x, rest, pos - 1);
        assert(insert_rec(g, x, s) == seq![s.first()] + rest.insert(pos - 1, x));
        assert(seq![s.first()] + rest.insert(pos - 1, x) =~= s.insert(pos, x)) by {
            rest.insert_ensures(pos - 1, x);
            s.insert_ensures(pos, x);
        }
    }
}

/// Whether `a` comes after `b` under the deterministic comparator.
fn record_greater(dag: &Dag, a: &CommitRecord, b: &CommitRecord) -> (r: bool)
    requires
        dag.wf(),
    ensures
        r == record_greater_spec(dag.graph(), *a, *b),
{
    let av = CommitVertex::from_oid(&a.oid);
    let bv = CommitVertex::from_oid(&b.oid);
    if dag.query().is_ancestor(&av, &bv) {
        false
    } else if dag.query().is_ancestor(&bv, &av) {
        true
    } else if b.time_seconds < a.time_seconds {
        true
    } else if b.time_seconds == a.time_seconds {
        crate::index::lex_less_exec(b.oid.as_bytes(), a.oid.as_bytes())
    } else {
        false
    }
}

/// Sort the given commits topologically where ancestry decides, breaking
/// ties deterministically by (commit time, oid); skip commits the object
/// store no longer has. The exact order is the insertion model
/// [`sort_rec`] over the resolved commits.
pub fn sorted_commit_set(dag: &Dag, lookups: Vec<(NonZeroOid, Option<i64>)>) -> (r: Vec<
    CommitRecord,
>)
    requires
        dag.wf(),
    ensures
        r@ == sort_rec(dag.graph(), resolved_records(lookups@)),
{
    let ghost g = dag.graph();
    let ghost all = lookups@;
    let mut rest = lookups;
    let mut acc: Vec<CommitRecord> = Vec::new();
    proof {
        assert(all.skip(0int) =~= all);
        assert(all.take(0int) =~= Seq::<(NonZeroOid, Option<i64>)>::empty());
        assert(acc@ =~= sort_rec(g, resolved_records(all.take(0int))));
    }
    while rest.len() > 0
        invariant
            dag.wf(),
            g == dag.graph(),
            rest@.len() <= all.len(),
            rest@ =~= all.skip(all.len() - rest@.len()),
            acc@ == sort_rec(g, resolved_records(all.take(all.len() - rest@.len()))),
        decreases rest@.len(),
    {
        let ghost done = all.len() - rest@.len();
        let entry = rest.remove(0);
        proof {
            assert(all.skip(done)[0] == all[done]);
            assert(entry == all[done]);
            assert forall|k: int| 0 <= k < rest@.len() implies rest@[k] == all.skip(done + 1)[k] by {
                assert(rest@[k] == all.skip(done)[k + 1]);
                assert(all.skip(done)[k + 1] == all[done + 1 + k]);
                assert(all.skip(done + 1)[k] == all[done + 1 + k]);
            }
            assert(rest@ =~= all.skip(done + 1));
            assert(all.take(done + 1).drop_last() =~= all.take(done));
            assert(all.take(done + 1).last() == all[done]);
        }
        match entry.1 {
            Some(t) => {
                let x = CommitRecord { oid: entry.0, time_seconds: t };
                let m = acc.len();
                let mut pos: usize = 0;
                let mut found = false;
                while pos < m && !found
                    invariant
                        dag.wf(),
                        g == dag.graph(),
                        m == acc@.len(),
                        0 <= pos <= m,
                        forall|k: int|
                            0 <= k < pos ==> !record_greater_spec(g, #[trigger] acc@[k], x),
                        found ==> pos < m && record_greater_spec(g, acc@[pos as int], x),
                    decreases m - pos + (if found {
                        0int
                    } else {
                        1int
                    }),
                {
                    if record_greater(dag, &acc[pos], &x) {
                        found = true;
                    } else {
                        pos += 1;
                    }
                }
                let ghost old_acc = acc@;
                let ghost xv = x;
                acc.insert(pos, x);
                proof {
                    lemma_insert_rec_at(g, xv, old_acc, pos as int);
                    let resolved_pre = resolved_records(all.take(done));
                    let resolved_post = resolved_records(all.take(done + 1));
                    assert(resolved_post == resolved_pre + seq![xv]);
                    assert(resolved_post.len() > 0);
                    assert(resolved_post.last() == xv) by {
                        assert((resolved_pre + seq![xv]).last() == xv);
                    }
                    assert(resolved_post.drop_last() =~= resolved_pre);
                    assert(sort_rec(g, resolved_post) == insert_rec(
                        g,
                        xv,
                        sort_rec(g, resolved_pre),
                    ));
                    assert(acc@ == old_acc.insert(pos as int, xv));
                }
            },
            None => {
                proof {
                    let resolved_pre = resolved_records(all.take(done));
                    let resolved_post = resolved_records(all.take(done + 1));
                    assert(resolved_post == resolved_pre + Seq::<CommitRecord>::empty());
                    assert(resolved_post =~= resolved_pre);
                }
            },
        }
    }
    proof {
        assert(all.take(all.len() as int) =~= all);
    }
    acc
}

} // verus!
