//! The query façade: a synchronized index plus the event-sourced
//! classification of commits.
//!
//! The five derived sets follow the event cursor and the reference snapshot:
//! observed commits come from the replayer, obsolete ones are the observed
//! commits it marks obsolete, public commits are the ancestors of the main
//! branch, the visible heads are the heads of everything still interesting,
//! and draft commits are visible but not public. The four classification
//! queries memoize their answer in single-assignment cells.

use vstd::prelude::*;

use crate::commit_set::{union_all_contents, CommitSet};
use crate::error::DagError;
use crate::index::{
    ancestor_closure, child_targets, component_connected, connected_within, connected_within_n,
    in_ancestors, in_descendants, is_head_within, lemma_connected_mono, lemma_connected_step,
    lemma_seed_connects_component, linked, parent_targets, set_one, topo_key_lt, DagIndex,
};
use crate::oid::{valid_oid_seq, CommitVertex, NonZeroOid};

verus! {

/// The byte strings of a list of oids, in order.
pub open spec fn oid_views(os: Seq<NonZeroOid>) -> Seq<Seq<u8>> {
    os.map_values(|o: NonZeroOid| o@)
}

/// The activity status the event replayer reports for an observed commit.
#[derive(Debug, Clone, Copy, PartialEq, Eq, Structural)]
pub enum CommitActivityStatus {
    /// The commit is live.
    Active,
    /// The commit is no longer pointed at, but not hidden.
    Inactive,
    /// The commit was rewritten or explicitly hidden.
    Obsolete,
}

/// One commit the event replayer has emitted through the cursor.
#[derive(Debug)]
pub struct ObservedCommit {
    /// The commit's identifier.
    pub oid: NonZeroOid,
    /// Its activity status at the cursor.
    pub status: CommitActivityStatus,
}

/// A snapshot of the repo's references: HEAD (absent when unborn), the main
/// branch tip, and the commits that local branches point to.
#[derive(Debug)]
pub struct ReferenceSnapshot {
    /// The commit HEAD points to, if any.
    pub head_oid: Option<NonZeroOid>,
    /// The commit the main branch points to. Always present.
    pub main_branch_oid: NonZeroOid,
    /// The commits local branches point to.
    pub branch_oids: Vec<NonZeroOid>,
}

impl ReferenceSnapshot {
    /// All identifiers in the snapshot are well-formed.
    pub open spec fn wf(&self) -> bool {
        &&& (match self.head_oid {
            Some(h) => h.wf(),
            None => true,
        })
        &&& self.main_branch_oid.wf()
        &&& forall|j: int| 0 <= j < self.branch_oids@.len() ==> (#[trigger] self.branch_oids@[j]).wf()
    }
}

/// The commit-graph query façade.
#[derive(Debug)]
pub struct Dag {
    inner: DagIndex,
    /// The commit HEAD points to; empty when HEAD is unborn.
    pub head_commit: CommitSet,
    /// The commit the main branch points to.
    pub main_branch_commit: CommitSet,
    /// The commits local branches point to.
    pub branch_commits: CommitSet,
    observed_commits: CommitSet,
    obsolete_commits: CommitSet,
    public_commits: Option<CommitSet>,
    visible_heads: Option<CommitSet>,
    visible_commits: Option<CommitSet>,
    draft_commits: Option<CommitSet>,
}

impl Dag {
    /// The graph of the underlying index.
    pub closed spec fn graph(&self) -> Map<Seq<u8>, Set<Seq<u8>>> {
        self.inner.graph()
    }

    /// The commits the replayer has observed.
    pub closed spec fn observed(&self) -> Set<Seq<u8>> {
        self.observed_commits.contents()
    }

    /// The observed commits marked obsolete.
    pub closed spec fn obsolete(&self) -> Set<Seq<u8>> {
        self.obsolete_commits.contents()
    }

    /// The HEAD commit as a set.
    pub closed spec fn head_set(&self) -> Set<Seq<u8>> {
        self.head_commit.contents()
    }

    /// The main-branch commit as a set.
    pub closed spec fn main_set(&self) -> Set<Seq<u8>> {
        self.main_branch_commit.contents()
    }

    /// The branch commits as a set.
    pub closed spec fn branch_set(&self) -> Set<Seq<u8>> {
        self.branch_commits.contents()
    }

    /// The candidates from which the visible heads are taken: observed but
    /// not obsolete commits, HEAD, the main branch, and all branches.
    pub open spec fn visible_head_candidates(&self) -> Set<Seq<u8>> {
        self.observed().difference(self.obsolete()).union(self.head_set()).union(
            self.main_set(),
        ).union(self.branch_set())
    }

    /// The visible heads: the candidates with no strict descendant among the
    /// candidates.
    pub open spec fn visible_heads_spec(&self) -> Set<Seq<u8>> {
        Set::new(|x: Seq<u8>| is_head_within(self.graph(), self.visible_head_candidates(), x))
    }

    /// The public commits: the ancestors of the main-branch commit.
    pub open spec fn public_spec(&self) -> Set<Seq<u8>> {
        ancestor_closure(self.graph(), self.main_set())
    }

    /// The visible commits: the ancestors of the visible heads.
    pub open spec fn visible_spec(&self) -> Set<Seq<u8>> {
        ancestor_closure(self.graph(), self.visible_heads_spec())
    }

    /// The draft commits: reachable from a visible head but not an ancestor
    /// of the main branch.
    pub open spec fn draft_spec(&self) -> Set<Seq<u8>> {
        Set::new(
            |x: Seq<u8>|
                in_ancestors(self.graph(), self.visible_heads_spec(), x) && !in_ancestors(
                    self.graph(),
                    self.main_set(),
                    x,
                ),
        )
    }

    /// The memoization cells, observable for the memoization contract.
    pub closed spec fn public_cell(&self) -> Option<CommitSet> {
        self.public_commits
    }

    /// See [`Dag::public_cell`].
    pub closed spec fn visible_heads_cell(&self) -> Option<CommitSet> {
        self.visible_heads
    }

    /// See [`Dag::public_cell`].
    pub closed spec fn visible_cell(&self) -> Option<CommitSet> {
        self.visible_commits
    }

    /// See [`Dag::public_cell`].
    pub closed spec fn draft_cell(&self) -> Option<CommitSet> {
        self.draft_commits
    }

    /// Well-formed: the index and all sets are well-formed, the obsolete
    /// commits are observed, and every filled memoization cell holds exactly
    /// the set it stands for.
    pub closed spec fn wf(&self) -> bool {
        &&& self.inner.wf()
        &&& self.head_commit.wf()
        &&& self.main_branch_commit.wf()
        &&& self.branch_commits.wf()
        &&& self.observed_commits.wf()
        &&& self.obsolete_commits.wf()
        &&& self.obsolete().subset_of(self.observed())
        &&& (match self.public_commits {
            Some(c) => c.wf() && c.contents() == self.public_spec(),
            None => true,
        })
        &&& (match self.visible_heads {
            Some(c) => c.wf() && c.contents() == self.visible_heads_spec(),
            None => true,
        })
        &&& (match self.visible_commits {
            Some(c) => c.wf() && c.contents() == self.visible_spec(),
            None => true,
        })
        &&& (match self.draft_commits {
            Some(c) => c.wf() && c.contents() == self.draft_spec(),
            None => true,
        })
    }

    /// The base state two façades share when only memoization differs.
    pub open spec fn same_base(&self, other: &Dag) -> bool {
        &&& self.graph() == other.graph()
        &&& self.observed() == other.observed()
        &&& self.obsolete() == other.obsolete()
        &&& self.head_set() == other.head_set()
        &&& self.main_set() == other.main_set()
        &&& self.branch_set() == other.branch_set()
    }

    /// Build a façade from an index, the commits the replayer observed at
    /// the cursor, and the reference snapshot. No memoized set is computed
    /// yet. The index should already cover the given commits; see
    /// [`crate::index::SyncState`].
    pub fn open_without_syncing(
        index: DagIndex,
        observed: &Vec<ObservedCommit>,
        refs: &ReferenceSnapshot,
    ) -> (d: Dag)
        requires
            index.wf(),
            forall|j: int| 0 <= j < observed@.len() ==> (#[trigger] observed@[j]).oid.wf(),
            refs.wf(),
        ensures
            d.wf(),
            d.graph() == index.graph(),
            forall|x: Seq<u8>| #[trigger] d.observed().contains(x) <==> exists|j: int|
                0 <= j < observed@.len() && (#[trigger] observed@[j]).oid@ == x,
            forall|x: Seq<u8>| #[trigger] d.obsolete().contains(x) <==> exists|j: int|
                0 <= j < observed@.len() && (#[trigger] observed@[j]).oid@ == x && observed@[j].status
                    == CommitActivityStatus::Obsolete,
            d.head_set() =~= (match refs.head_oid {
                Some(h) => set_one(h@),
                None => Set::<Seq<u8>>::empty(),
            }),
            d.main_set() =~= set_one(refs.main_branch_oid@),
            forall|x: Seq<u8>| #[trigger] d.branch_set().contains(x) <==> refs.branch_oids@.map_values(
                |o: NonZeroOid| o@,
            ).contains(x),
            d.public_cell() is None && d.visible_heads_cell() is None && d.visible_cell() is None
                && d.draft_cell() is None,
    {
        let n = observed.len();
        let mut observed_set = CommitSet::empty();
        let mut obsolete_set = CommitSet::empty();
        let mut i: usize = 0;
        while i < n
            invariant
                n == observed@.len(),
                forall|j: int| 0 <= j < n ==> (#[trigger] observed@[j]).oid.wf(),
                0 <= i <= n,
                observed_set.wf(),
                obsolete_set.wf(),
                forall|x: Seq<u8>| #[trigger] observed_set.contents().contains(x) <==> exists|j: int|
                    0 <= j < i && (#[trigger] observed@[j]).oid@ == x,
                forall|x: Seq<u8>| #[trigger] obsolete_set.contents().contains(x) <==> exists|j: int|
                    0 <= j < i && (#[trigger] observed@[j]).oid@ == x && observed@[j].status
                        == CommitActivityStatus::Obsolete,
            decreases n - i,
        {
            let v = CommitVertex::from_oid(&observed[i].oid);
            let is_obsolete = match observed[i].status {
                CommitActivityStatus::Obsolete => true,
                CommitActivityStatus::Active => false,
                CommitActivityStatus::Inactive => false,
            };
            let ghost prev_observed = observed_set.contents();
            let ghost prev_obsolete = obsolete_set.contents();
            if is_obsolete {
                obsolete_set = obsolete_set.insert_new(v.duplicate());
            }
            observed_set = observed_set.insert_new(v);
            proof {
                assert forall|x: Seq<u8>| #[trigger] observed_set.contents().contains(x) <==>
                    exists|j: int| 0 <= j < i + 1 && (#[trigger] observed@[j]).oid@ == x by {
                    if observed_set.contents().contains(x) {
                        if prev_observed.contains(x) {
                            let j = choose|j: int|
                                0 <= j < i && (#[trigger] observed@[j]).oid@ == x;
                            assert(0 <= j < i + 1 && observed@[j].oid@ == x);
                        } else {
                            assert(observed@[i as int].oid@ == x);
                        }
                    }
                    if exists|j: int| 0 <= j < i + 1 && (#[trigger] observed@[j]).oid@ == x {
                        let j = choose|j: int| 0 <= j < i + 1 && (#[trigger] observed@[j]).oid@ == x;
                        if j < i {
                            assert(prev_observed.contains(x));
                        }
                        assert(observed_set.contents().contains(x));
                    }
                }
                assert forall|x: Seq<u8>| #[trigger] obsolete_set.contents().contains(x) <==>
                    exists|j: int|
                        0 <= j < i + 1 && (#[trigger] observed@[j]).oid@ == x && observed@[j].status
                            == CommitActivityStatus::Obsolete by {
                    if obsolete_set.contents().contains(x) {
                        if prev_obsolete.contains(x) {
                            let j = choose|j: int|
                                0 <= j < i && (#[trigger] observed@[j]).oid@ == x
                                    && observed@[j].status == CommitActivityStatus::Obsolete;
                            assert(0 <= j < i + 1 && observed@[j].oid@ == x && observed@[j].status
                                == CommitActivityStatus::Obsolete);
                        } else {
                            assert(is_obsolete && observed@[i as int].oid@ == x);
                        }
                    }
                    if exists|j: int|
                        0 <= j < i + 1 && (#[trigger] observed@[j]).oid@ == x && observed@[j].status
                            == CommitActivityStatus::Obsolete {
                        let j = choose|j: int|
                            0 <= j < i + 1 && (#[trigger] observed@[j]).oid@ == x
                                && observed@[j].status == CommitActivityStatus::Obsolete;
                        if j < i {
                            assert(prev_obsolete.contains(x));
                        } else {
                            assert(is_obsolete);
                        }
                        assert(obsolete_set.contents().contains(x));
                    }
                }
            }
            i += 1;
        }
        let head_commit = match &refs.head_oid {
            Some(h) => CommitSet::from_oid(h),
            None => CommitSet::empty(),
        };
        let main_branch_commit = CommitSet::from_oid(&refs.main_branch_oid);
        let branch_commits = CommitSet::from_oids(&refs.branch_oids);
        let d = Dag {
            inner: index,
            head_commit,
            main_branch_commit,
            branch_commits,
            observed_commits: observed_set,
            obsolete_commits: obsolete_set,
            public_commits: None,
            visible_heads: None,
            visible_commits: None,
            draft_commits: None,
        };
        proof {
            assert(d.main_set() =~= set_one(refs.main_branch_oid@)) by {
                assert(d.main_branch_commit@ =~= seq![refs.main_branch_oid@]);
                assert(d.main_branch_commit@[0] == refs.main_branch_oid@);
                assert forall|x: Seq<u8>| d.main_branch_commit@.contains(x) <==> x
                    == refs.main_branch_oid@ by {
                    if d.main_branch_commit@.contains(x) {
                        let c = choose|c: int|
                            0 <= c < d.main_branch_commit@.len() && d.main_branch_commit@[c] == x;
                    }
                    if x == refs.main_branch_oid@ {
                        assert(d.main_branch_commit@[0] == x);
                    }
                }
            }
            match &refs.head_oid {
                Some(h) => {
                    assert(d.head_set() =~= set_one(h@)) by {
                        assert(d.head_commit@ =~= seq![h@]);
                        assert(d.head_commit@[0] == h@);
                        assert forall|x: Seq<u8>| d.head_commit@.contains(x) <==> x == h@ by {
                            if d.head_commit@.contains(x) {
                                let c = choose|c: int|
                                    0 <= c < d.head_commit@.len() && d.head_commit@[c] == x;
                            }
                            if x == h@ {
                                assert(d.head_commit@[0] == x);
                            }
                        }
                    }
                },
                None => {
                    assert(d.head_set() =~= Set::<Seq<u8>>::empty());
                },
            }
            assert(d.obsolete().subset_of(d.observed())) by {
                assert forall|x: Seq<u8>| d.obsolete().contains(x) implies d.observed().contains(
                    x,
                ) by {
                    let j = choose|j: int|
                        0 <= j < n && (#[trigger] observed@[j]).oid@ == x && observed@[j].status
                            == CommitActivityStatus::Obsolete;
                }
            }
        }
        d
    }

    /// A new façade over the same index at a different event cursor: the
    /// caller replays the events to the new cursor and hands in what the
    /// replayer reports there. All memoized sets start out empty again.
    pub fn set_cursor(self, observed: &Vec<ObservedCommit>, refs: &ReferenceSnapshot) -> (d: Dag)
        requires
            self.wf(),
            forall|j: int| 0 <= j < observed@.len() ==> (#[trigger] observed@[j]).oid.wf(),
            refs.wf(),
        ensures
            d.wf(),
            d.graph() == self.graph(),
            forall|x: Seq<u8>| #[trigger] d.observed().contains(x) <==> exists|j: int|
                0 <= j < observed@.len() && (#[trigger] observed@[j]).oid@ == x,
            forall|x: Seq<u8>| #[trigger] d.obsolete().contains(x) <==> exists|j: int|
                0 <= j < observed@.len() && (#[trigger] observed@[j]).oid@ == x && observed@[j].status
                    == CommitActivityStatus::Obsolete,
            d.main_set() =~= set_one(refs.main_branch_oid@),
            d.public_cell() is None && d.visible_heads_cell() is None && d.visible_cell() is None
                && d.draft_cell() is None,
    {
        let Dag { inner, .. } = self;
        Dag::open_without_syncing(inner, observed, refs)
    }

    /// Expose the underlying index for arbitrary queries.
    pub fn query(&self) -> (r: &DagIndex)
        requires
            self.wf(),
        ensures
            r.wf(),
            r.graph() == self.graph(),
    {
        &self.inner
    }

    /// Whether the commit is public: an ancestor of the main-branch commit.
    /// The fast path for a single commit; the full set is
    /// [`Dag::query_public_commits_slow`].
    pub fn is_public_commit(&self, commit_oid: &NonZeroOid) -> (r: bool)
        requires
            self.wf(),
        ensures
            r == self.public_spec().contains(commit_oid@),
    {
        let anc = self.inner.ancestors(&self.main_branch_commit);
        anc.contains(&CommitVertex::from_oid(commit_oid))
    }

    /// The set of public commits: the ancestors of the main-branch commit.
    /// Memoized; prefer [`Dag::is_public_commit`] for one commit.
    pub fn query_public_commits_slow(&mut self) -> (r: CommitSet)
        requires
            old(self).wf(),
        ensures
            final(self).wf(),
            final(self).same_base(old(self)),
            r.wf(),
            r.contents() =~= old(self).public_spec(),
            final(self).public_cell() matches Some(c) && c@ == r@,
            old(self).public_cell() matches Some(c) ==> r@ == c@ && *final(self) == *old(self),
            final(self).visible_heads_cell() == old(self).visible_heads_cell(),
            final(self).visible_cell() == old(self).visible_cell(),
            final(self).draft_cell() == old(self).draft_cell(),
    {
        match &self.public_commits {
            Some(c) => c.duplicate(),
            None => {
                let c = self.inner.ancestors(&self.main_branch_commit);
                proof {
                    assert(c.contents() =~= self.public_spec());
                }
                let r = c.duplicate();
                self.public_commits = Some(c);
                r
            },
        }
    }

    /// The visible heads: the heads of the observed-but-not-obsolete
    /// commits together with HEAD, the main branch and all branches.
    /// Memoized.
    pub fn query_visible_heads(&mut self) -> (r: CommitSet)
        requires
            old(self).wf(),
        ensures
            final(self).wf(),
            final(self).same_base(old(self)),
            r.wf(),
            r.contents() =~= old(self).visible_heads_spec(),
            final(self).visible_heads_cell() matches Some(c) && c@ == r@,
            old(self).visible_heads_cell() matches Some(c) ==> r@ == c@ && *final(self) == *old(
                self,
            ),
            final(self).public_cell() == old(self).public_cell(),
            final(self).visible_cell() == old(self).visible_cell(),
            final(self).draft_cell() == old(self).draft_cell(),
    {
        match &self.visible_heads {
            Some(c) => c.duplicate(),
            None => {
                let candidates = self.observed_commits.difference(&self.obsolete_commits).union(
                    &self.head_commit,
                ).union(&self.main_branch_commit).union(&self.branch_commits);
                proof {
                    assert(candidates.contents() =~= self.visible_head_candidates());
                }
                let c = self.inner.heads(&candidates);
                proof {
                    assert(c.contents() =~= self.visible_heads_spec());
                }
                let r = c.duplicate();
                self.visible_heads = Some(c);
                r
            },
        }
    }

    /// The set of all visible commits: the ancestors of the visible heads.
    /// Memoized; prefer [`Dag::query_visible_heads`] where possible.
    pub fn query_visible_commits_slow(&mut self) -> (r: CommitSet)
        requires
            old(self).wf(),
        ensures
            final(self).wf(),
            final(self).same_base(old(self)),
            r.wf(),
            r.contents() =~= old(self).visible_spec(),
            final(self).visible_cell() matches Some(c) && c@ == r@,
            old(self).visible_cell() matches Some(c) ==> r@ == c@ && *final(self) == *old(self),
    {
        match &self.visible_commits {
            Some(c) => c.duplicate(),
            None => {
                let heads = self.query_visible_heads();
                let c = self.inner.ancestors(&heads);
                proof {
                    assert(c.contents() =~= self.visible_spec());
                }
                let r = c.duplicate();
                self.visible_commits = Some(c);
                r
            },
        }
    }

    /// Keep only the members of `commits` that lie on a path from a member
    /// of `commits` to a visible head.
    pub fn filter_visible_commits(&mut self, commits: &CommitSet) -> (r: CommitSet)
        requires
            old(self).wf(),
            commits.wf(),
        ensures
            final(self).wf(),
            final(self).same_base(old(self)),
            r.wf(),
            forall|x: Seq<u8>| #[trigger] r.contents().contains(x) <==> (commits.contents(
            ).contains(x) && in_descendants(old(self).graph(), commits.contents(), x)
                && in_ancestors(old(self).graph(), old(self).visible_heads_spec(), x)),
    {
        let heads = self.query_visible_heads();
        let range = self.inner.range(commits, &heads);
        commits.intersection(&range)
    }

    /// The obsolete commits, exactly as the event replayer classified them.
    pub fn query_obsolete_commits(&self) -> (r: CommitSet)
        requires
            self.wf(),
        ensures
            r.wf(),
            r.contents() =~= self.obsolete(),
    {
        self.obsolete_commits.duplicate()
    }

    /// The draft commits: reachable from a visible head but not public.
    /// Memoized.
    pub fn query_draft_commits(&mut self) -> (r: CommitSet)
        requires
            old(self).wf(),
        ensures
            final(self).wf(),
            final(self).same_base(old(self)),
            r.wf(),
            r.contents() =~= old(self).draft_spec(),
            final(self).draft_cell() matches Some(c) && c@ == r@,
            old(self).draft_cell() matches Some(c) ==> r@ == c@ && *final(self) == *old(self),
    {
        match &self.draft_commits {
            Some(c) => c.duplicate(),
            None => {
                let heads = self.query_visible_heads();
                let c = self.inner.only(&heads, &self.main_branch_commit);
                proof {
                    assert(c.contents() =~= self.draft_spec());
                }
                let r = c.duplicate();
                self.draft_commits = Some(c);
                r
            },
        }
    }

    /// The unique parent of `oid`. Fails with [`DagError::NoParents`] when
    /// the commit has none and [`DagError::MultipleParents`] when it has
    /// more than one: the result is `Ok(p)` exactly when the parent set of
    /// `oid` is the singleton of `p`.
    pub fn get_only_parent_oid(&self, oid: &NonZeroOid) -> (r: Result<NonZeroOid, DagError>)
        requires
            self.wf(),
            oid.wf(),
        ensures
            (match r {
                Ok(p) => p.wf() && parent_targets(self.graph(), set_one(oid@)) =~= set_one(p@),
                Err(DagError::NoParents) => parent_targets(self.graph(), set_one(oid@))
                    =~= Set::<Seq<u8>>::empty(),
                Err(DagError::MultipleParents) => exists|a: Seq<u8>, b: Seq<u8>|
                    a != b && #[trigger] parent_targets(self.graph(), set_one(oid@)).contains(a)
                        && #[trigger] parent_targets(self.graph(), set_one(oid@)).contains(b),
                Err(_) => false,
            }),
    {
        let ghost g = self.graph();
        proof {
            self.inner.lemma_wf_graph();
        }
        let single = self.inner.singleton(&CommitVertex::from_oid(oid));
        let parents = self.inner.parents(&single);
        proof {
            // Every parent vertex is a valid non-zero oid.
            assert forall|j: int| 0 <= j < parents@.len() implies valid_oid_seq(
                #[trigger] parents@[j],
            ) by {
                assert(parents@.contains(parents@[j]));
                assert(parents.contents().contains(parents@[j]));
                assert(parent_targets(g, single.contents()).contains(parents@[j]));
                let v = choose|v: Seq<u8>|
                    single.contents().contains(v) && g.dom().contains(v) && #[trigger] g[v].contains(
                        parents@[j],
                    );
            }
        }
        let oids = match crate::commit_set::commit_set_to_vec(&parents) {
            Ok(oids) => oids,
            Err(_) => {
                proof {
                    assert(false);
                }
                return Err(DagError::NoParents);
            },
        };
        if oids.len() == 1 {
            let p = oids[0].duplicate();
            proof {
                assert(oids@.map_values(|o: NonZeroOid| o@)[0] == p@);
                assert(parents@[0] == p@);
                assert(parents.contents() =~= set_one(p@)) by {
                    assert forall|x: Seq<u8>| parents@.contains(x) <==> x == p@ by {
                        if parents@.contains(x) {
                            let c = choose|c: int|
                                0 <= c < parents@.len() && parents@[c] == x;
                        }
                        if x == p@ {
                            assert(parents@[0] == x);
                        }
                    }
                }
                assert(parent_targets(g, set_one(oid@)) =~= set_one(p@)) by {
                    assert(single.contents() =~= set_one(oid@));
                }
            }
            Ok(p)
        } else if oids.len() == 0 {
            proof {
                assert(single.contents() =~= set_one(oid@));
                assert forall|x: Seq<u8>|
                    !(#[trigger] parent_targets(g, set_one(oid@)).contains(x)) by {
                    if parent_targets(g, set_one(oid@)).contains(x) {
                        assert(parent_targets(g, single.contents()).contains(x));
                        assert(parents.contents().contains(x));
                        assert(parents@.contains(x));
                        let c = choose|c: int| 0 <= c < parents@.len() && parents@[c] == x;
                        assert(false);
                    }
                }
                assert(parent_targets(g, set_one(oid@)) =~= Set::<Seq<u8>>::empty());
            }
            Err(DagError::NoParents)
        } else {
            proof {
                assert(parents@[0] != parents@[1]);
                assert(parents.contents().contains(parents@[0])) by {
                    assert(parents@.contains(parents@[0]));
                }
                assert(parents.contents().contains(parents@[1])) by {
                    assert(parents@.contains(parents@[1]));
                }
                assert(single.contents() =~= set_one(oid@));
                assert(parent_targets(g, set_one(oid@)).contains(parents@[0]));
                assert(parent_targets(g, set_one(oid@)).contains(parents@[1]));
            }
            Err(DagError::MultipleParents)
        }
    }

    /// The commits from `parent_oid` up to `child_oid`, in deterministic
    /// topological order (see [`crate::index::DagIndex::sort`]): exactly the
    /// commits that descend from `parent_oid` and reach `child_oid`. The
    /// result holds valid non-zero oids only.
    pub fn get_range(&self, parent_oid: &NonZeroOid, child_oid: &NonZeroOid) -> (r: Vec<
        NonZeroOid,
    >)
        requires
            self.wf(),
            parent_oid.wf(),
            child_oid.wf(),
        ensures
            forall|x: Seq<u8>| #[trigger] oid_views(r@).contains(x) <==> (in_descendants(
                self.graph(),
                set_one(parent_oid@),
                x,
            ) && in_ancestors(self.graph(), set_one(child_oid@), x)),
            forall|p: int, q: int|
                0 <= p < q < r@.len() ==> #[trigger] topo_key_lt(
                    self.graph(),
                    r@[p]@,
                    r@[q]@,
                ),
            forall|j: int| 0 <= j < r@.len() ==> (#[trigger] r@[j]).wf(),
    {
        let ghost g = self.graph();
        proof {
            self.inner.lemma_wf_graph();
        }
        let roots = self.inner.singleton(&CommitVertex::from_oid(parent_oid));
        let heads = self.inner.singleton(&CommitVertex::from_oid(child_oid));
        let range = self.inner.range(&roots, &heads);
        let sorted = self.inner.sort(&range);
        proof {
            // Every member is reachable toward `child_oid`, hence a valid
            // oid: it is the child itself or a graph vertex.
            assert forall|j: int| 0 <= j < sorted@.len() implies valid_oid_seq(
                #[trigger] sorted@[j],
            ) by {
                assert(sorted@.contains(sorted@[j]));
                assert(sorted.contents().contains(sorted@[j]));
                assert(range.contents().contains(sorted@[j]));
                assert(in_ancestors(g, heads.contents(), sorted@[j]));
                let n = choose|n: nat| crate::index::in_closure_n(g, heads.contents(), sorted@[j], n);
                crate::index::lemma_ancestors_in_bound(g, heads.contents(), sorted@[j], n);
                assert(heads.contents() =~= set_one(child_oid@));
            }
        }
        let oids = match crate::commit_set::commit_set_to_vec(&sorted) {
            Ok(oids) => oids,
            Err(_) => {
                proof {
                    assert(false);
                }
                return Vec::new();
            },
        };
        proof {
            assert(roots.contents() =~= set_one(parent_oid@));
            assert(heads.contents() =~= set_one(child_oid@));
            let views = oid_views(oids@);
            assert(views =~= sorted@);
            assert forall|x: Seq<u8>| #[trigger] views.contains(x) <==> (in_descendants(
                g,
                set_one(parent_oid@),
                x,
            ) && in_ancestors(g, set_one(child_oid@), x)) by {
                if views.contains(x) {
                    let c = choose|c: int| 0 <= c < views.len() && views[c] == x;
                    assert(sorted@[c] == x);
                    assert(sorted@.contains(x));
                    assert(sorted.contents().contains(x));
                    assert(range.contents().contains(x));
                }
                if in_descendants(g, set_one(parent_oid@), x) && in_ancestors(
                    g,
                    set_one(child_oid@),
                    x,
                ) {
                    assert(range.contents().contains(x));
                    assert(sorted.contents().contains(x));
                    assert(sorted@.contains(x));
                    let c = choose|c: int| 0 <= c < sorted@.len() && sorted@[c] == x;
                    assert(views[c] == x);
                    assert(views.contains(x));
                }
            }
            assert forall|p: int, q: int| 0 <= p < q < oids@.len() implies #[trigger] topo_key_lt(
                g,
                oids@[p]@,
                oids@[q]@,
            ) by {
                assert(views[p] == oids@[p]@);
                assert(views[q] == oids@[q]@);
                assert(topo_key_lt(g, sorted@[p], sorted@[q]));
            }
        }
        oids
    }

    /// Split `commit_set` into its connected components under the
    /// parent-or-child relation: the returned sets are non-empty, pairwise
    /// disjoint, and together hold exactly the members of `commit_set`.
    pub fn get_connected_components(&self, commit_set: &CommitSet) -> (r: Vec<CommitSet>)
        requires
            self.wf(),
            commit_set.wf(),
        ensures
            forall|k: int| 0 <= k < r@.len() ==> (#[trigger] r@[k]).wf() && r@[k]@.len() > 0
                && r@[k].contents().subset_of(commit_set.contents()),
            union_all_contents(r@) =~= commit_set.contents(),
            forall|p: int, q: int|
                0 <= p < q < r@.len() ==> (#[trigger] r@[p]).contents().intersect(
                    (#[trigger] r@[q]).contents(),
                ) =~= Set::<Seq<u8>>::empty(),
            forall|k: int|
                0 <= k < r@.len() ==> component_connected(
                    self.graph(),
                    (#[trigger] r@[k]).contents(),
                ),
    {
        let ghost g = self.graph();
        let mut components: Vec<CommitSet> = Vec::new();
        let mut remaining = commit_set.duplicate();
        let n = commit_set.count();
        let mut i: usize = 0;
        proof {
            assert(union_all_contents(components@) =~= commit_set.contents().difference(
                remaining.contents(),
            ));
        }
        while i < n
            invariant
                n == commit_set@.len(),
                self.wf(),
                commit_set.wf(),
                g == self.graph(),
                0 <= i <= n,
                remaining.wf(),
                remaining.contents().subset_of(commit_set.contents()),
                forall|j: int| 0 <= j < i ==> !remaining.contents().contains(
                    #[trigger] commit_set@[j],
                ),
                union_all_contents(components@) =~= commit_set.contents().difference(
                    remaining.contents(),
                ),
                forall|k: int| 0 <= k < components@.len() ==> (#[trigger] components@[k]).wf()
                    && components@[k]@.len() > 0 && components@[k].contents().subset_of(
                    commit_set.contents(),
                ) && components@[k].contents().disjoint(remaining.contents()),
                forall|p: int, q: int|
                    0 <= p < q < components@.len() ==> (#[trigger] components@[p]).contents(
                    ).intersect((#[trigger] components@[q]).contents())
                        =~= Set::<Seq<u8>>::empty(),
                forall|k: int|
                    0 <= k < components@.len() ==> component_connected(
                        g,
                        (#[trigger] components@[k]).contents(),
                    ),
            decreases n - i,
        {
            let seed = commit_set.get(i).duplicate();
            if remaining.contains(&seed) {
                let ghost entry_remaining = remaining.contents();
                let ghost prev_components = components@;
                let mut component = CommitSet::empty();
                let mut frontier = self.inner.singleton(&seed);
                proof {
                    assert(connected_within_n(
                        g,
                        component.contents().union(frontier.contents()),
                        seed@,
                        seed@,
                        0,
                    ));
                }
                while !frontier.is_empty()
                    invariant
                        self.wf(),
                        g == self.graph(),
                        commit_set.wf(),
                        remaining.wf(),
                        component.wf(),
                        frontier.wf(),
                        frontier.contents().subset_of(remaining.contents()),
                        component.contents().disjoint(remaining.contents()),
                        remaining.contents().subset_of(entry_remaining),
                        entry_remaining.subset_of(commit_set.contents()),
                        component.contents().subset_of(entry_remaining),
                        component.contents().union(remaining.contents()).subset_of(
                            commit_set.contents(),
                        ),
                        component.contents().union(frontier.contents()).contains(seed@),
                        component.contents() =~= entry_remaining.difference(remaining.contents()),
                        forall|x: Seq<u8>|
                            #[trigger] component.contents().union(frontier.contents()).contains(x)
                                ==> connected_within(
                                g,
                                component.contents().union(frontier.contents()),
                                seed@,
                                x,
                            ),
                    decreases remaining@.len() + (if frontier@.len() == 0 {
                        0int
                    } else {
                        1int
                    }),
                {
                    let ghost u_old = component.contents().union(frontier.contents());
                    let ghost frontier_old = frontier.contents();
                    let ghost old_remaining = remaining.contents();
                    let ghost old_remaining_len = remaining@.len();
                    proof {
                        vstd::prelude::Seq::unique_seq_to_set(remaining@);
                        assert(old_remaining.len() == old_remaining_len);
                    }
                    component = component.union(&frontier);
                    remaining = remaining.difference(&frontier);
                    proof {
                        // The frontier is non-empty, so `remaining` shrinks.
                        assert(frontier.contents().contains(frontier@[0])) by {
                            assert(frontier@.contains(frontier@[0]));
                        }
                        vstd::prelude::Seq::unique_seq_to_set(remaining@);
                        assert(remaining.contents().subset_of(old_remaining.remove(frontier@[0])));
                        vstd::set_lib::lemma_len_subset(
                            remaining.contents(),
                            old_remaining.remove(frontier@[0]),
                        );
                        assert(old_remaining.contains(frontier@[0]));
                        assert(old_remaining.finite()) by {
                            vstd::prelude::Seq::unique_seq_to_set(frontier@);
                        }
                        assert(old_remaining.remove(frontier@[0]).len() == old_remaining.len()
                            - 1);
                    }
                    let pars = self.inner.parents(&frontier);
                    let chls = self.inner.children(&frontier);
                    let adjacent = pars.union(&chls);
                    frontier = adjacent.intersection(&remaining);
                    proof {
                        let u_new = component.contents().union(frontier.contents());
                        assert(u_old.subset_of(u_new));
                        assert forall|x: Seq<u8>| #[trigger] u_new.contains(x) implies
                            connected_within(g, u_new, seed@, x) by {
                            if u_old.contains(x) {
                                let m = choose|m: nat|
                                    connected_within_n(g, u_old, seed@, x, m);
                                lemma_connected_mono(g, u_old, u_new, seed@, x, m);
                            } else {
                                // A fresh frontier member is adjacent to a
                                // member of the previous frontier.
                                assert(frontier.contents().contains(x));
                                assert(adjacent.contents().contains(x));
                                let w: Seq<u8> = if pars.contents().contains(x) {
                                    choose|v: Seq<u8>|
                                        frontier_old.contains(v) && g.dom().contains(v)
                                            && #[trigger] g[v].contains(x)
                                } else {
                                    choose|q: Seq<u8>| #[trigger] g[x].contains(q)
                                        && frontier_old.contains(q)
                                };
                                assert(frontier_old.contains(w) && linked(g, w, x)) by {
                                    if pars.contents().contains(x) {
                                    } else {
                                        assert(chls.contents().contains(x));
                                        assert(child_targets(g, frontier_old).contains(x));
                                    }
                                }
                                assert(u_old.contains(w));
                                let m = choose|m: nat|
                                    connected_within_n(g, u_old, seed@, w, m);
                                lemma_connected_mono(g, u_old, u_new, seed@, w, m);
                                lemma_connected_step(g, u_new, seed@, w, x);
                            }
                        }
                    }
                }
                proof {
                    assert(component.contents().contains(seed@));
                    assert(component@.len() > 0) by {
                        if component@.len() == 0 {
                            assert(!component@.contains(seed@));
                        }
                    }
                    // With the frontier empty, the component is exactly the
                    // connected set grown from the seed.
                    assert(component.contents().union(frontier.contents())
                        =~= component.contents());
                    assert forall|x: Seq<u8>| component.contents().contains(x) implies
                        #[trigger] connected_within(g, component.contents(), seed@, x) by {
                        assert(component.contents().union(frontier.contents()).contains(x));
                        assert(connected_within(
                            g,
                            component.contents().union(frontier.contents()),
                            seed@,
                            x,
                        ));
                        let m = choose|m: nat|
                            connected_within_n(
                                g,
                                component.contents().union(frontier.contents()),
                                seed@,
                                x,
                                m,
                            );
                        lemma_connected_mono(
                            g,
                            component.contents().union(frontier.contents()),
                            component.contents(),
                            seed@,
                            x,
                            m,
                        );
                    }
                    lemma_seed_connects_component(g, component.contents(), seed@);
                }
                let ghost comp_contents = component.contents();
                components.push(component);
                proof {
                    assert(components@.drop_last() =~= prev_components);
                    assert(components@.last().contents() == comp_contents);
                    assert(union_all_contents(components@) =~= commit_set.contents().difference(
                        remaining.contents(),
                    )) by {
                        assert(union_all_contents(components@) == union_all_contents(
                            prev_components,
                        ).union(comp_contents));
                        assert forall|x: Seq<u8>|
                            union_all_contents(prev_components).union(comp_contents).contains(x)
                                <==> commit_set.contents().contains(x)
                                && !remaining.contents().contains(x) by {
                            if union_all_contents(prev_components).contains(x) {
                                assert(commit_set.contents().contains(x));
                                assert(!entry_remaining.contains(x));
                            }
                            if comp_contents.contains(x) {
                                assert(entry_remaining.contains(x));
                                assert(commit_set.contents().contains(x));
                                assert(!remaining.contents().contains(x));
                            }
                            if commit_set.contents().contains(x) && !remaining.contents().contains(
                                x,
                            ) {
                                if entry_remaining.contains(x) {
                                    assert(comp_contents.contains(x));
                                } else {
                                    assert(union_all_contents(prev_components).contains(x));
                                }
                            }
                        }
                    }
                    assert forall|k: int|
                        0 <= k < components@.len() implies component_connected(
                        g,
                        (#[trigger] components@[k]).contents(),
                    ) by {
                        if k < components@.len() - 1 {
                            assert(components@[k] == prev_components[k]);
                        } else {
                            assert(components@[k].contents() == comp_contents);
                        }
                    }
                    assert forall|p: int, q: int|
                        0 <= p < q < components@.len() implies (#[trigger] components@[p]).contents(
                    ).intersect((#[trigger] components@[q]).contents())
                        =~= Set::<Seq<u8>>::empty() by {
                        if q < components@.len() - 1 {
                            assert(components@[p] == prev_components[p]);
                            assert(components@[q] == prev_components[q]);
                        } else {
                            assert(components@[q].contents() == comp_contents);
                            assert(components@[p] == prev_components[p]);
                            assert forall|x: Seq<u8>|
                                !(prev_components[p].contents().contains(x)
                                    && comp_contents.contains(x)) by {
                                if comp_contents.contains(x) {
                                    assert(entry_remaining.contains(x));
                                    assert(prev_components[p].contents().disjoint(
                                        entry_remaining,
                                    ));
                                }
                            }
                        }
                    }
                }
            }
            proof {
                if remaining.contents().contains(commit_set@[i as int]) {
                    assert(false);
                }
            }
            i += 1;
        }
        proof {
            // Everything was consumed: each member's turn came.
            assert(remaining.contents() =~= Set::<Seq<u8>>::empty()) by {
                if remaining@.len() > 0 {
                    assert(remaining.contents().contains(remaining@[0])) by {
                        assert(remaining@.contains(remaining@[0]));
                    }
                    assert(commit_set.contents().contains(remaining@[0]));
                    let j = choose|j: int|
                        0 <= j < commit_set@.len() && commit_set@[j] == remaining@[0];
                    assert(!remaining.contents().contains(commit_set@[j]));
                } else {
                    if exists|x: Seq<u8>| remaining.contents().contains(x) {
                        let x = choose|x: Seq<u8>| remaining.contents().contains(x);
                        assert(remaining@.contains(x));
                    }
                }
            }
            assert(union_all_contents(components@) =~= commit_set.contents());
        }
        components
    }
}

/// Law: the obsolete commits are observed commits.
pub proof fn lemma_obsolete_subset_observed(d: &Dag)
    requires
        d.wf(),
    ensures
        d.obsolete().subset_of(d.observed()),
{
}

/// Law: the public commits are exactly the ancestors of the main-branch
/// commit.
pub proof fn lemma_public_is_main_ancestors(d: &Dag)
    requires
        d.wf(),
    ensures
        d.public_spec() == ancestor_closure(d.graph(), d.main_set()),
{
}

/// Law: the visible commits are exactly the ancestors of the visible heads.
pub proof fn lemma_visible_is_head_ancestors(d: &Dag)
    requires
        d.wf(),
    ensures
        d.visible_spec() == ancestor_closure(d.graph(), d.visible_heads_spec()),
{
}

/// Law: no draft commit is public.
pub proof fn lemma_draft_public_disjoint(d: &Dag)
    requires
        d.wf(),
    ensures
        d.draft_spec().intersect(d.public_spec()) =~= Set::<Seq<u8>>::empty(),
{
    assert forall|x: Seq<u8>|
        !(d.draft_spec().contains(x) && d.public_spec().contains(x)) by {
        if d.draft_spec().contains(x) {
            assert(!in_ancestors(d.graph(), d.main_set(), x));
        }
    }
}

/// Law: the draft commits are exactly the visible commits that are not
/// ancestors of the main branch.
pub proof fn lemma_draft_partition(d: &Dag)
    requires
        d.wf(),
    ensures
        d.draft_spec() =~= d.visible_spec().difference(d.public_spec()),
{
}

} // verus!
