//! Tests for the raw index query surface, reached through the façade.

use commit_dag::commit_set::CommitSet;
use commit_dag::dag::{Dag, ReferenceSnapshot};
use commit_dag::index::{DagIndex, SyncState};
use commit_dag::oid::{CommitVertex, NonZeroOid};

fn oid(n: u8) -> NonZeroOid {
    let mut bytes = vec![0u8; 20];
    bytes[19] = n;
    NonZeroOid::from_bytes(bytes).unwrap()
}

fn vertex(n: u8) -> CommitVertex {
    CommitVertex::from_oid(&oid(n))
}

/// The graph A <- B <- C, A <- D: one root, two leaves.
fn forked_index() -> DagIndex {
    let parents: Vec<(u8, Vec<u8>)> =
        vec![(1, vec![]), (2, vec![1]), (3, vec![2]), (4, vec![1])];
    let heads = CommitSet::from_oids(&vec![oid(3), oid(4)]);
    let mut state = SyncState::start_sync(DagIndex::empty(), &heads);
    while let Some(o) = state.next_request() {
        let wanted = o.as_bytes()[19];
        let mut answer: Option<Vec<NonZeroOid>> = None;
        for (commit, ps) in &parents {
            if *commit == wanted {
                answer = Some(ps.iter().map(|p| oid(*p)).collect());
            }
        }
        state.resolve(answer.as_ref());
    }
    state.finish()
}

fn forked_dag() -> Dag {
    let refs = ReferenceSnapshot {
        head_oid: Some(oid(3)),
        main_branch_oid: oid(3),
        branch_oids: Vec::new(),
    };
    Dag::open_without_syncing(forked_index(), &Vec::new(), &refs)
}

#[test]
fn ancestors_and_descendants() {
    let dag = forked_dag();
    let index = dag.query();

    let anc = index.ancestors(&CommitSet::from_oids(&vec![oid(3)]));
    assert_eq!(anc.count(), 3);
    assert!(anc.contains(&vertex(1)));
    assert!(anc.contains(&vertex(2)));
    assert!(anc.contains(&vertex(3)));
    assert!(!anc.contains(&vertex(4)));

    let desc = index.descendants(&CommitSet::from_oids(&vec![oid(1)]));
    assert_eq!(desc.count(), 4);
}

#[test]
fn heads_and_roots_are_transitive_extremes() {
    let dag = forked_dag();
    let index = dag.query();
    let all = CommitSet::from_oids(&vec![oid(1), oid(2), oid(3), oid(4)]);

    let heads = index.heads(&all);
    assert_eq!(heads.count(), 2);
    assert!(heads.contains(&vertex(3)));
    assert!(heads.contains(&vertex(4)));

    let roots = index.roots(&all);
    assert_eq!(roots.count(), 1);
    assert!(roots.contains(&vertex(1)));
}

#[test]
fn only_subtracts_base_ancestors() {
    let dag = forked_dag();
    let index = dag.query();
    let only = index.only(
        &CommitSet::from_oids(&vec![oid(3)]),
        &CommitSet::from_oids(&vec![oid(4)]),
    );
    assert_eq!(only.count(), 2);
    assert!(only.contains(&vertex(2)));
    assert!(only.contains(&vertex(3)));
}

#[test]
fn is_ancestor_is_reflexive_and_follows_edges() {
    let dag = forked_dag();
    let index = dag.query();
    assert!(index.is_ancestor(&vertex(1), &vertex(3)));
    assert!(index.is_ancestor(&vertex(2), &vertex(2)));
    assert!(!index.is_ancestor(&vertex(3), &vertex(1)));
    assert!(!index.is_ancestor(&vertex(2), &vertex(4)));
}

#[test]
fn parents_and_children_are_one_step() {
    let dag = forked_dag();
    let index = dag.query();
    let parents = index.parents(&CommitSet::from_oids(&vec![oid(3), oid(4)]));
    assert_eq!(parents.count(), 2);
    assert!(parents.contains(&vertex(2)));
    assert!(parents.contains(&vertex(1)));

    let children = index.children(&CommitSet::from_oids(&vec![oid(1)]));
    assert_eq!(children.count(), 2);
    assert!(children.contains(&vertex(2)));
    assert!(children.contains(&vertex(4)));
}

#[test]
fn sort_lists_ancestors_first() {
    let dag = forked_dag();
    let index = dag.query();
    let sorted = index.sort(&CommitSet::from_oids(&vec![oid(3), oid(1), oid(2)]));
    let mut order: Vec<u8> = Vec::new();
    let mut i = 0;
    while i < sorted.count() {
        order.push(sorted.get(i).as_bytes()[19]);
        i += 1;
    }
    assert_eq!(order, vec![1, 2, 3]);
}
