//! End-to-end scenarios over small commit graphs.

use commit_dag::commit_set::{commit_set_to_vec, CommitSet};
use commit_dag::dag::{CommitActivityStatus, Dag, ObservedCommit, ReferenceSnapshot};
use commit_dag::error::DagError;
use commit_dag::index::{DagIndex, SyncState};
use commit_dag::oid::{CommitVertex, NonZeroOid};
use commit_dag::sort::sorted_commit_set;

fn oid(n: u8) -> NonZeroOid {
    let mut bytes = vec![0u8; 20];
    bytes[19] = n;
    NonZeroOid::from_bytes(bytes).unwrap()
}

/// Walk the sync state machine against an in-memory parent table.
fn sync(index: DagIndex, heads: &CommitSet, parents: &[(u8, Vec<u8>)]) -> DagIndex {
    let mut state = SyncState::start_sync(index, heads);
    while let Some(o) = state.next_request() {
        let wanted = o.as_bytes()[19];
        let mut answer: Option<Vec<NonZeroOid>> = None;
        for (commit, ps) in parents {
            if *commit == wanted {
                answer = Some(ps.iter().map(|p| oid(*p)).collect());
            }
        }
        state.resolve(answer.as_ref());
    }
    state.finish()
}

/// The linear chain A <- B <- C <- D (1 <- 2 <- 3 <- 4), plus any extra
/// commits given, synchronized into a fresh index.
fn chain_index(extra: &[(u8, Vec<u8>)], heads: &[u8]) -> DagIndex {
    let mut parents: Vec<(u8, Vec<u8>)> =
        vec![(1, vec![]), (2, vec![1]), (3, vec![2]), (4, vec![3])];
    parents.extend_from_slice(extra);
    let head_oids: Vec<NonZeroOid> = heads.iter().map(|h| oid(*h)).collect();
    let head_set = CommitSet::from_oids(&head_oids);
    sync(DagIndex::empty(), &head_set, &parents)
}

fn refs_main_and_head(main: u8, head: u8) -> ReferenceSnapshot {
    ReferenceSnapshot {
        head_oid: Some(oid(head)),
        main_branch_oid: oid(main),
        branch_oids: Vec::new(),
    }
}

fn contains(set: &CommitSet, n: u8) -> bool {
    set.contains(&CommitVertex::from_oid(&oid(n)))
}

#[test]
fn s1_linear_chain_classification() {
    let index = chain_index(&[], &[4]);
    let mut dag = Dag::open_without_syncing(index, &Vec::new(), &refs_main_and_head(4, 4));

    let visible = dag.query_visible_commits_slow();
    assert_eq!(visible.count(), 4);
    for n in 1..=4 {
        assert!(contains(&visible, n));
    }

    let public = dag.query_public_commits_slow();
    assert_eq!(public.count(), 4);

    let draft = dag.query_draft_commits();
    assert!(draft.is_empty());

    let obsolete = dag.query_obsolete_commits();
    assert!(obsolete.is_empty());
}

#[test]
fn s2_observed_child_is_draft() {
    // E (5) is a child of B (2), observed and active.
    let index = chain_index(&[(5, vec![2])], &[4, 5]);
    let observed = vec![ObservedCommit { oid: oid(5), status: CommitActivityStatus::Active }];
    let mut dag = Dag::open_without_syncing(index, &observed, &refs_main_and_head(4, 4));

    let heads = dag.query_visible_heads();
    assert_eq!(heads.count(), 2);
    assert!(contains(&heads, 4));
    assert!(contains(&heads, 5));

    let visible = dag.query_visible_commits_slow();
    assert_eq!(visible.count(), 5);

    let public = dag.query_public_commits_slow();
    assert_eq!(public.count(), 4);
    assert!(!contains(&public, 5));

    let draft = dag.query_draft_commits();
    assert_eq!(draft.count(), 1);
    assert!(contains(&draft, 5));
}

#[test]
fn s3_obsolete_child_disappears() {
    let index = chain_index(&[(5, vec![2])], &[4, 5]);
    let observed = vec![ObservedCommit { oid: oid(5), status: CommitActivityStatus::Obsolete }];
    let mut dag = Dag::open_without_syncing(index, &observed, &refs_main_and_head(4, 4));

    let heads = dag.query_visible_heads();
    assert_eq!(heads.count(), 1);
    assert!(contains(&heads, 4));

    let draft = dag.query_draft_commits();
    assert!(draft.is_empty());

    let obsolete = dag.query_obsolete_commits();
    assert_eq!(obsolete.count(), 1);
    assert!(contains(&obsolete, 5));

    assert!(!dag.is_public_commit(&oid(5)));
    assert!(dag.is_public_commit(&oid(2)));
}

#[test]
fn s4_only_parent_errors() {
    // M (6) is a merge of C (3) and E (5).
    let index = chain_index(&[(5, vec![2]), (6, vec![3, 5])], &[4, 6]);
    let dag = Dag::open_without_syncing(index, &Vec::new(), &refs_main_and_head(4, 4));

    assert_eq!(dag.get_only_parent_oid(&oid(1)), Err(DagError::NoParents));
    assert_eq!(dag.get_only_parent_oid(&oid(6)), Err(DagError::MultipleParents));
    assert_eq!(dag.get_only_parent_oid(&oid(2)), Ok(oid(1)));
}

#[test]
fn s5_connected_components() {
    // The chain A-B-C-D-E-F; {B, C, E} splits into {B, C} and {E}: E's
    // neighbours D and F are not in the queried set.
    let index = chain_index(&[(5, vec![4]), (6, vec![5])], &[6]);
    let dag = Dag::open_without_syncing(index, &Vec::new(), &refs_main_and_head(6, 6));

    let set = CommitSet::from_oids(&vec![oid(2), oid(3), oid(5)]);
    let components = dag.get_connected_components(&set);
    assert_eq!(components.len(), 2);
    let first = &components[0];
    let second = &components[1];
    assert_eq!(first.count(), 2);
    assert!(contains(first, 2));
    assert!(contains(first, 3));
    assert_eq!(second.count(), 1);
    assert!(contains(second, 5));
}

#[test]
fn s5_component_of_adjacent_commits_is_one() {
    let index = chain_index(&[], &[4]);
    let dag = Dag::open_without_syncing(index, &Vec::new(), &refs_main_and_head(4, 4));
    let set = CommitSet::from_oids(&vec![oid(1), oid(2), oid(3), oid(4)]);
    let components = dag.get_connected_components(&set);
    assert_eq!(components.len(), 1);
    assert_eq!(components[0].count(), 4);
}

#[test]
fn s6_sorted_commit_set_is_topological_then_tie_broken() {
    let index = chain_index(&[], &[4]);
    let dag = Dag::open_without_syncing(index, &Vec::new(), &refs_main_and_head(4, 4));

    let lookups = vec![
        (oid(3), Some(50i64)),
        (oid(2), Some(50i64)),
        (oid(4), Some(50i64)),
        (oid(1), Some(50i64)),
    ];
    let sorted = sorted_commit_set(&dag, lookups);
    let order: Vec<u8> = sorted.iter().map(|r| r.oid.as_bytes()[19]).collect();
    assert_eq!(order, vec![1, 2, 3, 4]);
}

#[test]
fn s6_siblings_with_equal_time_sort_by_oid() {
    // E (5) and F (6) are both children of B with the same commit time.
    let index = chain_index(&[(5, vec![2]), (6, vec![2])], &[4, 5, 6]);
    let dag = Dag::open_without_syncing(index, &Vec::new(), &refs_main_and_head(4, 4));

    let lookups = vec![(oid(6), Some(9i64)), (oid(5), Some(9i64))];
    let sorted = sorted_commit_set(&dag, lookups);
    let order: Vec<u8> = sorted.iter().map(|r| r.oid.as_bytes()[19]).collect();
    assert_eq!(order, vec![5, 6]);
}

#[test]
fn sorted_commit_set_skips_missing_commits() {
    let index = chain_index(&[], &[4]);
    let dag = Dag::open_without_syncing(index, &Vec::new(), &refs_main_and_head(4, 4));
    let lookups = vec![(oid(2), Some(5i64)), (oid(3), None), (oid(1), Some(5i64))];
    let sorted = sorted_commit_set(&dag, lookups);
    let order: Vec<u8> = sorted.iter().map(|r| r.oid.as_bytes()[19]).collect();
    assert_eq!(order, vec![1, 2]);
}

#[test]
fn get_range_is_sorted_and_non_zero() {
    let index = chain_index(&[], &[4]);
    let dag = Dag::open_without_syncing(index, &Vec::new(), &refs_main_and_head(4, 4));
    let range = dag.get_range(&oid(1), &oid(4));
    let order: Vec<u8> = range.iter().map(|o| o.as_bytes()[19]).collect();
    assert_eq!(order, vec![1, 2, 3, 4]);
    for o in &range {
        assert!(o.as_bytes().iter().any(|b| *b != 0));
    }
    // A range between unrelated commits is empty.
    let index2 = chain_index(&[(5, vec![2])], &[4, 5]);
    let dag2 = Dag::open_without_syncing(index2, &Vec::new(), &refs_main_and_head(4, 4));
    assert!(dag2.get_range(&oid(4), &oid(5)).is_empty());
}

#[test]
fn sync_is_idempotent() {
    let parents: Vec<(u8, Vec<u8>)> = vec![(1, vec![]), (2, vec![1]), (3, vec![2]), (4, vec![3])];
    let heads = CommitSet::from_oids(&vec![oid(4)]);
    let index = sync(DagIndex::empty(), &heads, &parents);

    // A second walk with unchanged heads schedules nothing.
    let state = SyncState::start_sync(index, &heads);
    assert!(state.done());
    let index = state.finish();

    // Query answers are unchanged.
    let dag = Dag::open_without_syncing(index, &Vec::new(), &refs_main_and_head(4, 4));
    let range = dag.get_range(&oid(1), &oid(4));
    assert_eq!(range.len(), 4);
}

#[test]
fn sync_absorbs_missing_commits() {
    // D's parent C is missing from the object store: the walk absorbs it as
    // parentless instead of failing.
    let parents: Vec<(u8, Vec<u8>)> = vec![(4, vec![3])];
    let heads = CommitSet::from_oids(&vec![oid(4)]);
    let index = sync(DagIndex::empty(), &heads, &parents);
    let dag = Dag::open_without_syncing(index, &Vec::new(), &refs_main_and_head(4, 4));
    assert_eq!(dag.get_only_parent_oid(&oid(4)), Ok(oid(3)));
    assert_eq!(dag.get_only_parent_oid(&oid(3)), Err(DagError::NoParents));
}

#[test]
fn set_cursor_reclassifies_without_resyncing() {
    // Move from the S2 cursor (E active) to the S3 cursor (E obsolete).
    let index = chain_index(&[(5, vec![2])], &[4, 5]);
    let observed_s2 = vec![ObservedCommit { oid: oid(5), status: CommitActivityStatus::Active }];
    let mut dag = Dag::open_without_syncing(index, &observed_s2, &refs_main_and_head(4, 4));
    assert_eq!(dag.query_draft_commits().count(), 1);

    let observed_s3 = vec![ObservedCommit { oid: oid(5), status: CommitActivityStatus::Obsolete }];
    let mut later = dag.set_cursor(&observed_s3, &refs_main_and_head(4, 4));
    assert!(later.query_draft_commits().is_empty());
    assert_eq!(later.query_obsolete_commits().count(), 1);
}

#[test]
fn queries_are_memoized() {
    let index = chain_index(&[(5, vec![2])], &[4, 5]);
    let observed = vec![ObservedCommit { oid: oid(5), status: CommitActivityStatus::Active }];
    let mut dag = Dag::open_without_syncing(index, &observed, &refs_main_and_head(4, 4));

    let first = dag.query_draft_commits();
    let second = dag.query_draft_commits();
    assert_eq!(
        commit_set_to_vec(&first).unwrap(),
        commit_set_to_vec(&second).unwrap()
    );
    let heads1 = dag.query_visible_heads();
    let heads2 = dag.query_visible_heads();
    assert_eq!(
        commit_set_to_vec(&heads1).unwrap(),
        commit_set_to_vec(&heads2).unwrap()
    );
}

#[test]
fn filter_visible_commits_keeps_reachable_members() {
    let index = chain_index(&[(5, vec![2])], &[4, 5]);
    let observed = vec![ObservedCommit { oid: oid(5), status: CommitActivityStatus::Obsolete }];
    let mut dag = Dag::open_without_syncing(index, &observed, &refs_main_and_head(4, 4));

    // E (5) is obsolete with no descendants: filtered out. B (2) is visible.
    let set = CommitSet::from_oids(&vec![oid(2), oid(5)]);
    let filtered = dag.filter_visible_commits(&set);
    assert!(contains(&filtered, 2));
    assert!(!contains(&filtered, 5));
}
