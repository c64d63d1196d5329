//! An eager, ordered set of vertex names with set algebra.
//!
//! A [`CommitSet`] holds its vertices in a definite order and never holds the
//! same byte string twice. The set algebra pins iteration order exactly:
//! `union` keeps the left order and appends the right operand's new members,
//! `intersection` and `difference` keep the left order.

use vstd::prelude::*;

use crate::error::DagError;
use crate::oid::{bytes_eq, valid_oid_seq, CommitVertex, NonZeroOid};

verus! {

broadcast use vstd::prelude::Seq::lemma_push_map_commute, vstd::prelude::Seq::lemma_push_to_set_commute;

/// An ordered, duplicate-free set of vertex names.
#[derive(Debug)]
pub struct CommitSet {
    vertices: Vec<CommitVertex>,
}

impl View for CommitSet {
    type V = Seq<Seq<u8>>;

    closed spec fn view(&self) -> Seq<Seq<u8>> {
        self.vertices@.map_values(|v: CommitVertex| v@)
    }
}

/// The subsequence of `s` that keeps the first occurrence of each byte
/// string and drops later repetitions.
pub open spec fn first_occurrences(s: Seq<Seq<u8>>) -> Seq<Seq<u8>>
    decreases s.len(),
{
    if s.len() == 0 {
        Seq::empty()
    } else {
        let rest = first_occurrences(s.drop_last());
        if s.drop_last().contains(s.last()) {
            rest
        } else {
            rest.push(s.last())
        }
    }
}

/// Pushing a fresh element onto a duplicate-free sequence keeps it
/// duplicate-free.
proof fn lemma_push_no_duplicates(s: Seq<Seq<u8>>, x: Seq<u8>)
    requires
        s.no_duplicates(),
        !s.contains(x),
    ensures
        s.push(x).no_duplicates(),
{
    let t = s.push(x);
    assert forall|i: int, j: int|
        0 <= i < t.len() && 0 <= j < t.len() && i != j implies t[i] != t[j] by {
        if i < s.len() && j < s.len() {
        } else if i == s.len() {
            assert(t[i] == x);
            if t[j] == x {
                assert(s[j] == x);
                assert(s.contains(x));
            }
        } else {
            assert(t[j] == x);
            if t[i] == x {
                assert(s[i] == x);
                assert(s.contains(x));
            }
        }
    }
}

/// A filtered duplicate-free sequence stays duplicate-free.
proof fn lemma_filter_no_duplicates(s: Seq<Seq<u8>>, keep: spec_fn(Seq<u8>) -> bool)
    requires
        s.no_duplicates(),
    ensures
        s.filter(keep).no_duplicates(),
    decreases s.len(),
{
    reveal(Seq::filter);
    if s.len() > 0 {
        assert(s.drop_last().no_duplicates());
        lemma_filter_no_duplicates(s.drop_last(), keep);
        if keep(s.last()) {
            let f = s.drop_last().filter(keep);
            if f.contains(s.last()) {
                s.drop_last().lemma_filter_contains_rev(keep, s.last());
                let k = choose|k: int|
                    0 <= k < s.drop_last().len() && s.drop_last()[k] == s.last();
                assert(s[k] == s[s.len() - 1]);
                assert(false);
            }
            lemma_push_no_duplicates(f, s.last());
        }
    }
}

impl CommitSet {
    /// The members of the set, without their order.
    pub open spec fn contents(&self) -> Set<Seq<u8>> {
        self@.to_set()
    }

    /// Well-formed: no byte string occurs twice.
    pub open spec fn wf(&self) -> bool {
        self@.no_duplicates()
    }

    /// The empty set.
    pub fn empty() -> (r: CommitSet)
        ensures
            r@ =~= Seq::<Seq<u8>>::empty(),
            r.wf(),
    {
        CommitSet { vertices: Vec::new() }
    }

    /// The singleton set of the vertex encoding `oid`.
    pub fn from_oid(oid: &NonZeroOid) -> (r: CommitSet)
        ensures
            r@ =~= seq![oid@],
            r.wf(),
    {
        let mut vertices: Vec<CommitVertex> = Vec::new();
        vertices.push(CommitVertex::from_oid(oid));
        CommitSet { vertices }
    }

    /// The set of the vertices encoding `oids`: first occurrences, in order.
    pub fn from_oids(oids: &Vec<NonZeroOid>) -> (r: CommitSet)
        ensures
            r.wf(),
            r@ == first_occurrences(oids@.map_values(|o: NonZeroOid| o@)),
            r.contents() =~= oids@.map_values(|o: NonZeroOid| o@).to_set(),
    {
        let mut vertices: Vec<CommitVertex> = Vec::new();
        let n = oids.len();
        let mut i: usize = 0;
        while i < n
            invariant
                n == oids@.len(),
                0 <= i <= n,
                vertices@.map_values(|v: CommitVertex| v@) == first_occurrences(
                    oids@.map_values(|o: NonZeroOid| o@).take(i as int),
                ),
                vertices@.map_values(|v: CommitVertex| v@).to_set() =~= oids@.map_values(
                    |o: NonZeroOid| o@,
                ).take(i as int).to_set(),
            decreases n - i,
        {
            let ghost mapped = oids@.map_values(|o: NonZeroOid| o@);
            let ghost prev = vertices@.map_values(|v: CommitVertex| v@);
            let v = CommitVertex::from_oid(&oids[i]);
            let mut seen = false;
            let m = vertices.len();
            let mut j: usize = 0;
            while j < m
                invariant
                    m == vertices@.len(),
                    0 <= j <= m,
                    prev == vertices@.map_values(|v: CommitVertex| v@),
                    v@ == oids@[i as int]@,
                    i < n,
                    n == oids@.len(),
                    seen <==> exists|k: int| 0 <= k < j && prev[k] == v@,
                decreases m - j,
            {
                if bytes_eq(vertices[j].as_bytes(), v.as_bytes()) {
                    seen = true;
                    proof {
                        assert(prev[j as int] == v@);
                    }
                }
                j += 1;
            }
            proof {
                assert(seen <==> prev.contains(v@));
            }
            if !seen {
                vertices.push(v);
            }
            proof {
                let pre = mapped.take(i as int);
                let post = mapped.take(i + 1);
                assert(post.drop_last() =~= pre);
                assert(post.last() == mapped[i as int]);
                assert(mapped[i as int] == oids@[i as int]@);
                // `prev` holds exactly the members of `pre`.
                assert(pre.contains(v@) <==> prev.contains(v@)) by {
                    assert(pre.to_set().contains(v@) <==> prev.to_set().contains(v@));
                }
                if seen {
                    assert(first_occurrences(post) == first_occurrences(pre));
                    assert(vertices@.map_values(|x: CommitVertex| x@) == prev);
                } else {
                    assert(first_occurrences(post) == first_occurrences(pre).push(
                        mapped[i as int],
                    ));
                    assert(vertices@.map_values(|x: CommitVertex| x@) =~= prev.push(v@));
                }
                assert(vertices@.map_values(|x: CommitVertex| x@).to_set() =~= post.to_set()) by {
                    assert forall|x: Seq<u8>| post.contains(x) <==> pre.contains(x) || x
                        == mapped[i as int] by {
                        if post.contains(x) {
                            let k = choose|k: int| 0 <= k < post.len() && post[k] == x;
                            if k < pre.len() {
                                assert(pre.contains(x));
                            }
                        }
                        if pre.contains(x) {
                            let k = choose|k: int| 0 <= k < pre.len() && pre[k] == x;
                            assert(post[k] == x);
                        }
                        if x == mapped[i as int] {
                            assert(post[post.len() - 1] == x);
                        }
                    }
                }
            }
            i += 1;
        }
        let r = CommitSet { vertices };
        proof {
            let mapped = oids@.map_values(|o: NonZeroOid| o@);
            assert(mapped.take(n as int) =~= mapped);
            lemma_first_occurrences_no_duplicates(mapped);
        }
        r
    }

    /// Explicitly construct a set from raw vertex names: first occurrences,
    /// in order. This is the one door through which a zero or malformed
    /// vertex can enter a set.
    pub fn from_vertices(raw: &Vec<CommitVertex>) -> (r: CommitSet)
        ensures
            r.wf(),
            r@ == first_occurrences(raw@.map_values(|v: CommitVertex| v@)),
            r.contents() =~= raw@.map_values(|v: CommitVertex| v@).to_set(),
    {
        let mut vertices: Vec<CommitVertex> = Vec::new();
        let n = raw.len();
        let mut i: usize = 0;
        while i < n
            invariant
                n == raw@.len(),
                0 <= i <= n,
                vertices@.map_values(|v: CommitVertex| v@) == first_occurrences(
                    raw@.map_values(|v: CommitVertex| v@).take(i as int),
                ),
                vertices@.map_values(|v: CommitVertex| v@).to_set() =~= raw@.map_values(
                    |v: CommitVertex| v@,
                ).take(i as int).to_set(),
            decreases n - i,
        {
            let ghost mapped = raw@.map_values(|v: CommitVertex| v@);
            let ghost prev = vertices@.map_values(|v: CommitVertex| v@);
            let v = raw[i].duplicate();
            let mut seen = false;
            let m = vertices.len();
            let mut j: usize = 0;
            while j < m
                invariant
                    m == vertices@.len(),
                    0 <= j <= m,
                    prev == vertices@.map_values(|v: CommitVertex| v@),
                    v@ == raw@[i as int]@,
                    i < n,
                    n == raw@.len(),
                    seen <==> exists|k: int| 0 <= k < j && prev[k] == v@,
                decreases m - j,
            {
                if bytes_eq(vertices[j].as_bytes(), v.as_bytes()) {
                    seen = true;
                    proof {
                        assert(prev[j as int] == v@);
                    }
                }
                j += 1;
            }
            proof {
                assert(seen <==> prev.contains(v@));
            }
            if !seen {
                vertices.push(v);
            }
            proof {
                let pre = mapped.take(i as int);
                let post = mapped.take(i + 1);
                assert(post.drop_last() =~= pre);
                assert(post.last() == mapped[i as int]);
                assert(mapped[i as int] == raw@[i as int]@);
                assert(pre.contains(v@) <==> prev.contains(v@)) by {
                    assert(pre.to_set().contains(v@) <==> prev.to_set().contains(v@));
                }
                if seen {
                    assert(first_occurrences(post) == first_occurrences(pre));
                    assert(vertices@.map_values(|x: CommitVertex| x@) == prev);
                } else {
                    assert(first_occurrences(post) == first_occurrences(pre).push(
                        mapped[i as int],
                    ));
                    assert(vertices@.map_values(|x: CommitVertex| x@) =~= prev.push(v@));
                }
                assert(vertices@.map_values(|x: CommitVertex| x@).to_set() =~= post.to_set()) by {
                    assert forall|x: Seq<u8>| post.contains(x) <==> pre.contains(x) || x
                        == mapped[i as int] by {
                        if post.contains(x) {
                            let k = choose|k: int| 0 <= k < post.len() && post[k] == x;
                            if k < pre.len() {
                                assert(pre.contains(x));
                            }
                        }
                        if pre.contains(x) {
                            let k = choose|k: int| 0 <= k < pre.len() && pre[k] == x;
                            assert(post[k] == x);
                        }
                        if x == mapped[i as int] {
                            assert(post[post.len() - 1] == x);
                        }
                    }
                }
            }
            i += 1;
        }
        let r = CommitSet { vertices };
        proof {
            let mapped = raw@.map_values(|v: CommitVertex| v@);
            assert(mapped.take(n as int) =~= mapped);
            lemma_first_occurrences_no_duplicates(mapped);
        }
        r
    }

    /// Add one vertex at the end unless it is already a member.
    pub fn insert_new(self, v: CommitVertex) -> (r: CommitSet)
        requires
            self.wf(),
        ensures
            r.wf(),
            self.contents().contains(v@) ==> r@ == self@,
            !self.contents().contains(v@) ==> r@ == self@.push(v@),
            r.contents() =~= self.contents().insert(v@),
    {
        if self.contains_bytes(v.as_bytes()) {
            proof {
                assert(self.contents().insert(v@) =~= self.contents());
            }
            self
        } else {
            let CommitSet { mut vertices } = self;
            let ghost old_view = vertices@.map_values(|x: CommitVertex| x@);
            let ghost vv = v@;
            vertices.push(v);
            let r = CommitSet { vertices };
            proof {
                assert(r@ =~= old_view.push(vv));
                assert(!old_view.contains(vv)) by {
                    if old_view.contains(vv) {
                        assert(old_view.to_set().contains(vv));
                    }
                }
                lemma_push_no_duplicates(old_view, vv);
                assert(r.contents() =~= old_view.to_set().insert(vv));
            }
            r
        }
    }

    /// Whether the set holds a vertex with exactly these bytes.
    pub fn contains_bytes(&self, bytes: &Vec<u8>) -> (r: bool)
        ensures
            r <==> self.contents().contains(bytes@),
    {
        let n = self.vertices.len();
        let mut i: usize = 0;
        while i < n
            invariant
                n == self.vertices@.len(),
                0 <= i <= n,
                forall|j: int| 0 <= j < i ==> self@[j] != bytes@,
            decreases n - i,
        {
            if bytes_eq(self.vertices[i].as_bytes(), bytes) {
                proof {
                    assert(self@[i as int] == bytes@);
                }
                return true;
            }
            i += 1;
        }
        proof {
            if self.contents().contains(bytes@) {
                let j = choose|j: int| 0 <= j < self@.len() && self@[j] == bytes@;
                assert(false);
            }
        }
        false
    }

    /// Whether the set holds this vertex.
    pub fn contains(&self, v: &CommitVertex) -> (r: bool)
        ensures
            r <==> self.contents().contains(v@),
    {
        self.contains_bytes(v.as_bytes())
    }

    /// Whether the set has no members.
    pub fn is_empty(&self) -> (r: bool)
        ensures
            r <==> self@.len() == 0,
            r <==> self.contents() =~= Set::<Seq<u8>>::empty(),
    {
        proof {
            if self@.len() > 0 {
                assert(self.contents().contains(self@[0]));
            }
        }
        self.vertices.len() == 0
    }

    /// The number of members.
    pub fn count(&self) -> (r: usize)
        ensures
            r == self@.len(),
    {
        self.vertices.len()
    }

    /// The member at position `i` in iteration order.
    pub fn get(&self, i: usize) -> (r: &CommitVertex)
        requires
            i < self@.len(),
        ensures
            r@ == self@[i as int],
    {
        &self.vertices[i]
    }

    /// An owned copy of the set, same members in the same order.
    pub fn duplicate(&self) -> (r: CommitSet)
        ensures
            r@ == self@,
    {
        let mut vertices: Vec<CommitVertex> = Vec::new();
        let n = self.vertices.len();
        let mut i: usize = 0;
        while i < n
            invariant
                n == self.vertices@.len(),
                0 <= i <= n,
                vertices@.map_values(|v: CommitVertex| v@) =~= self@.take(i as int),
            decreases n - i,
        {
            vertices.push(self.vertices[i].duplicate());
            proof {
                assert(vertices@.map_values(|v: CommitVertex| v@) =~= self@.take(i + 1));
            }
            i += 1;
        }
        let r = CommitSet { vertices };
        proof {
            assert(self@.take(n as int) =~= self@);
            assert(r@ =~= self@);
        }
        r
    }

    /// Union: the members of `self` in order, then the members of `other`
    /// that are not in `self`, in `other`'s order.
    pub fn union(&self, other: &CommitSet) -> (r: CommitSet)
        requires
            self.wf(),
            other.wf(),
        ensures
            r.wf(),
            r@ == self@ + other@.filter(|x: Seq<u8>| !self.contents().contains(x)),
            r.contents() =~= self.contents().union(other.contents()),
    {
        let ghost keep = |x: Seq<u8>| !self.contents().contains(x);
        let mut vertices = self.to_vertex_vec();
        let n = other.vertices.len();
        let mut i: usize = 0;
        proof {
            reveal(Seq::filter);
            assert(other@.take(0int).filter(keep) =~= Seq::<Seq<u8>>::empty());
            assert(vertices@.map_values(|v: CommitVertex| v@) =~= self@ + other@.take(
                0int,
            ).filter(keep));
        }
        while i < n
            invariant
                n == other@.len(),
                0 <= i <= n,
                self.wf(),
                other.wf(),
                vertices@.map_values(|v: CommitVertex| v@) == self@ + other@.take(
                    i as int,
                ).filter(keep),
                keep == (|x: Seq<u8>| !self.contents().contains(x)),
            decreases n - i,
        {
            let ghost prev = vertices@.map_values(|v: CommitVertex| v@);
            let v = other.vertices[i].duplicate();
            let is_member = self.contains_bytes(v.as_bytes());
            proof {
                reveal(Seq::filter);
                let pre = other@.take(i as int);
                let post = other@.take(i + 1);
                assert(post.drop_last() =~= pre);
                assert(post.last() == other@[i as int]);
                if is_member {
                    assert(!keep(other@[i as int]));
                    assert(post.filter(keep) == pre.filter(keep));
                } else {
                    assert(keep(other@[i as int]));
                    assert(post.filter(keep) == pre.filter(keep).push(other@[i as int]));
                }
            }
            if !is_member {
                vertices.push(v);
                proof {
                    assert(vertices@.map_values(|x: CommitVertex| x@) =~= prev.push(
                        other@[i as int],
                    ));
                    assert(prev.push(other@[i as int]) =~= self@ + other@.take(i + 1).filter(
                        keep,
                    ));
                }
            }
            i += 1;
        }
        let r = CommitSet { vertices };
        proof {
            assert(other@.take(n as int) =~= other@);
            let f = other@.filter(keep);
            // No duplicates: `self@` has none, the filtered tail has none,
            // and the tail's members are exactly the non-members of `self`.
            assert(r@.no_duplicates()) by {
                lemma_filter_no_duplicates(other@, keep);
                assert forall|a: int, b: int|
                    0 <= a < r@.len() && 0 <= b < r@.len() && a != b implies r@[a] != r@[b] by {
                    if a < self@.len() && b < self@.len() {
                    } else if a >= self@.len() && b >= self@.len() {
                        assert(f[a - self@.len()] == r@[a]);
                        assert(f[b - self@.len()] == r@[b]);
                    } else {
                        let (sa, fb) = if a < self@.len() {
                            (a, b - self@.len())
                        } else {
                            (b, a - self@.len())
                        };
                        assert(r@[sa] == self@[sa]);
                        assert(r@[fb + self@.len()] == f[fb]);
                        other@.lemma_filter_pred(keep, fb);
                        if self@[sa] == f[fb] {
                            assert(self.contents().contains(f[fb])) by {
                                assert(self@.contains(self@[sa]));
                            }
                            assert(false);
                        }
                    }
                }
            }
            // Membership is the union of memberships.
            assert(r.contents() =~= self.contents().union(other.contents())) by {
                assert forall|x: Seq<u8>|
                    r@.contains(x) <==> self@.contains(x) || other@.contains(x) by {
                    if r@.contains(x) {
                        let j = choose|j: int| 0 <= j < r@.len() && r@[j] == x;
                        if j < self@.len() {
                            assert(self@.contains(x));
                        } else {
                            assert(f[j - self@.len()] == x);
                            assert(f.contains(x));
                            other@.lemma_filter_contains_rev(keep, x);
                        }
                    }
                    if self@.contains(x) {
                        let j = choose|j: int| 0 <= j < self@.len() && self@[j] == x;
                        assert(r@[j] == x);
                        assert(r@.contains(x));
                    }
                    if other@.contains(x) && !self@.contains(x) {
                        let k = choose|k: int| 0 <= k < other@.len() && other@[k] == x;
                        assert(keep(x)) by {
                            if self.contents().contains(x) {
                                assert(self@.contains(x));
                            }
                        }
                        other@.lemma_filter_contains(keep, k);
                        let m = choose|m: int| 0 <= m < f.len() && f[m] == x;
                        assert(r@[self@.len() + m] == x);
                        assert(r@.contains(x));
                    }
                }
            }
        }
        r
    }

    /// Intersection: the members of `self` that are in `other`, in `self`'s
    /// order.
    pub fn intersection(&self, other: &CommitSet) -> (r: CommitSet)
        requires
            self.wf(),
        ensures
            r.wf(),
            r@ == self@.filter(|x: Seq<u8>| other.contents().contains(x)),
            r.contents() =~= self.contents().intersect(other.contents()),
    {
        let r = self.filtered(other, true);
        proof {
            let keep = |x: Seq<u8>| other.contents().contains(x) == true;
            let keep2 = |x: Seq<u8>| other.contents().contains(x);
            assert(keep == keep2) by {
                assert forall|x: Seq<u8>| #[trigger] keep(x) == keep2(x) by {}
            }
            assert(r.contents() =~= self.contents().intersect(other.contents()));
        }
        r
    }

    /// Difference: the members of `self` that are not in `other`, in
    /// `self`'s order.
    pub fn difference(&self, other: &CommitSet) -> (r: CommitSet)
        requires
            self.wf(),
        ensures
            r.wf(),
            r@ == self@.filter(|x: Seq<u8>| !other.contents().contains(x)),
            r.contents() =~= self.contents().difference(other.contents()),
    {
        let r = self.filtered(other, false);
        proof {
            let keep = |x: Seq<u8>| other.contents().contains(x) == false;
            let keep2 = |x: Seq<u8>| !other.contents().contains(x);
            assert(keep == keep2) by {
                assert forall|x: Seq<u8>| #[trigger] keep(x) == keep2(x) by {}
            }
            assert(r.contents() =~= self.contents().difference(other.contents()));
        }
        r
    }

    /// Keep the members of `self` whose membership in `other` equals
    /// `sense`.
    fn filtered(&self, other: &CommitSet, sense: bool) -> (r: CommitSet)
        requires
            self.wf(),
        ensures
            r.wf(),
            r@ == self@.filter(|x: Seq<u8>| other.contents().contains(x) == sense),
            forall|x: Seq<u8>|
                r.contents().contains(x) <==> self.contents().contains(x)
                    && other.contents().contains(x) == sense,
    {
        let ghost keep = |x: Seq<u8>| other.contents().contains(x) == sense;
        let mut vertices: Vec<CommitVertex> = Vec::new();
        let n = self.vertices.len();
        let mut i: usize = 0;
        proof {
            reveal(Seq::filter);
            assert(self@.take(0int).filter(keep) =~= Seq::<Seq<u8>>::empty());
            assert(vertices@.map_values(|v: CommitVertex| v@) =~= self@.take(0int).filter(keep));
        }
        while i < n
            invariant
                n == self@.len(),
                self.wf(),
                0 <= i <= n,
                vertices@.map_values(|v: CommitVertex| v@) == self@.take(i as int).filter(keep),
                keep == (|x: Seq<u8>| other.contents().contains(x) == sense),
            decreases n - i,
        {
            let ghost prev = vertices@.map_values(|v: CommitVertex| v@);
            let v = self.vertices[i].duplicate();
            let is_member = other.contains(&v);
            proof {
                reveal(Seq::filter);
                let pre = self@.take(i as int);
                let post = self@.take(i + 1);
                assert(post.drop_last() =~= pre);
                assert(post.last() == self@[i as int]);
                if is_member == sense {
                    assert(keep(self@[i as int]));
                    assert(post.filter(keep) == pre.filter(keep).push(self@[i as int]));
                } else {
                    assert(!keep(self@[i as int]));
                    assert(post.filter(keep) == pre.filter(keep));
                }
            }
            if is_member == sense {
                vertices.push(v);
                proof {
                    assert(vertices@.map_values(|x: CommitVertex| x@) =~= prev.push(
                        self@[i as int],
                    ));
                }
            }
            i += 1;
        }
        let r = CommitSet { vertices };
        proof {
            assert(self@.take(n as int) =~= self@);
            assert(r.wf()) by {
                lemma_filter_no_duplicates(self@, keep);
            }
            assert forall|x: Seq<u8>|
                r.contents().contains(x) <==> self.contents().contains(x) && other.contents(
                ).contains(x) == sense by {
                if r@.contains(x) {
                    let j = choose|j: int| 0 <= j < r@.len() && r@[j] == x;
                    self@.lemma_filter_pred(keep, j);
                    self@.lemma_filter_contains_rev(keep, x);
                }
                if self@.contains(x) && keep(x) {
                    let k = choose|k: int| 0 <= k < self@.len() && self@[k] == x;
                    self@.lemma_filter_contains(keep, k);
                }
            }
        }
        r
    }

    /// Whether the two sets share a member.
    pub fn intersects(&self, other: &CommitSet) -> (r: bool)
        ensures
            r <==> exists|x: Seq<u8>| #[trigger] self.contents().contains(x)
                && other.contents().contains(x),
    {
        let n = self.vertices.len();
        let mut i: usize = 0;
        while i < n
            invariant
                n == self.vertices@.len(),
                0 <= i <= n,
                forall|j: int| 0 <= j < i ==> !other.contents().contains(#[trigger] self@[j]),
            decreases n - i,
        {
            if other.contains(&self.vertices[i]) {
                proof {
                    assert(self@.contains(self@[i as int]));
                    assert(self.contents().contains(self@[i as int]));
                }
                return true;
            }
            i += 1;
        }
        proof {
            if exists|x: Seq<u8>| #[trigger] self.contents().contains(x)
                && other.contents().contains(x) {
                let x = choose|x: Seq<u8>| #[trigger] self.contents().contains(x)
                    && other.contents().contains(x);
                let j = choose|j: int| 0 <= j < self@.len() && self@[j] == x;
                assert(false);
            }
        }
        false
    }

    /// The members as owned vertex names, in iteration order.
    pub fn to_vertex_vec(&self) -> (r: Vec<CommitVertex>)
        ensures
            r@.map_values(|v: CommitVertex| v@) == self@,
    {
        let mut r: Vec<CommitVertex> = Vec::new();
        let n = self.vertices.len();
        let mut i: usize = 0;
        while i < n
            invariant
                n == self.vertices@.len(),
                0 <= i <= n,
                r@.map_values(|v: CommitVertex| v@) =~= self@.take(i as int),
            decreases n - i,
        {
            r.push(self.vertices[i].duplicate());
            proof {
                assert(r@.map_values(|v: CommitVertex| v@) =~= self@.take(i + 1));
            }
            i += 1;
        }
        proof {
            assert(self@.take(n as int) =~= self@);
            assert(r@.map_values(|v: CommitVertex| v@) == self@);
        }
        r
    }
}

/// The kept subsequence of a sequence has no duplicates.
proof fn lemma_first_occurrences_no_duplicates(s: Seq<Seq<u8>>)
    ensures
        first_occurrences(s).no_duplicates(),
        forall|x: Seq<u8>| first_occurrences(s).contains(x) <==> s.contains(x),
    decreases s.len(),
{
    if s.len() == 0 {
    } else {
        let rest = s.drop_last();
        lemma_first_occurrences_no_duplicates(rest);
        let fo = first_occurrences(s);
        let fr = first_occurrences(rest);
        assert forall|x: Seq<u8>| fo.contains(x) <==> s.contains(x) by {
            if rest.contains(s.last()) {
                assert(fo == fr);
                if s.contains(x) {
                    let k = choose|k: int| 0 <= k < s.len() && s[k] == x;
                    if k == s.len() - 1 {
                        let m = choose|m: int| 0 <= m < rest.len() && rest[m] == s.last();
                        assert(rest.contains(x));
                    } else {
                        assert(rest[k] == x);
                        assert(rest.contains(x));
                    }
                }
                if rest.contains(x) {
                    let k = choose|k: int| 0 <= k < rest.len() && rest[k] == x;
                    assert(s[k] == x);
                    assert(s.contains(x));
                }
            } else {
                assert(fo == fr.push(s.last()));
                if s.contains(x) {
                    let k = choose|k: int| 0 <= k < s.len() && s[k] == x;
                    if k == s.len() - 1 {
                        assert(fo[fo.len() - 1] == x);
                        assert(fo.contains(x));
                    } else {
                        assert(rest[k] == x);
                        assert(rest.contains(x));
                        assert(fr.contains(x));
                        let m = choose|m: int| 0 <= m < fr.len() && fr[m] == x;
                        assert(fo[m] == x);
                        assert(fo.contains(x));
                    }
                }
                if fo.contains(x) {
                    let k = choose|k: int| 0 <= k < fo.len() && fo[k] == x;
                    if k == fo.len() - 1 {
                        assert(x == s.last());
                        assert(s[s.len() - 1] == x);
                        assert(s.contains(x));
                    } else {
                        assert(fr[k] == x);
                        assert(fr.contains(x));
                        assert(rest.contains(x));
                        let m = choose|m: int| 0 <= m < rest.len() && rest[m] == x;
                        assert(s[m] == x);
                        assert(s.contains(x));
                    }
                }
            }
        }
        if rest.contains(s.last()) {
        } else {
            assert(!fr.contains(s.last()));
            lemma_push_no_duplicates(fr, s.last());
        }
    }
}

/// On a duplicate-free sequence, keeping first occurrences changes nothing.
pub proof fn lemma_first_occurrences_identity(s: Seq<Seq<u8>>)
    requires
        s.no_duplicates(),
    ensures
        first_occurrences(s) == s,
    decreases s.len(),
{
    if s.len() == 0 {
        assert(first_occurrences(s) =~= s);
    } else {
        let rest = s.drop_last();
        assert(rest.no_duplicates());
        lemma_first_occurrences_identity(rest);
        assert(!rest.contains(s.last())) by {
            if rest.contains(s.last()) {
                let k = choose|k: int| 0 <= k < rest.len() && rest[k] == s.last();
                assert(s[k] == s[s.len() - 1]);
            }
        }
        assert(first_occurrences(s) == rest.push(s.last()));
        assert(rest.push(s.last()) =~= s);
    }
}

/// Eagerly convert a set to a vector of non-zero oids, preserving order.
/// Fails when a member is not a valid non-zero oid.
pub fn commit_set_to_vec(commit_set: &CommitSet) -> (r: Result<Vec<NonZeroOid>, DagError>)
    ensures
        r is Ok <==> (forall|j: int|
            0 <= j < commit_set@.len() ==> valid_oid_seq(#[trigger] commit_set@[j])),
        (match r {
            Ok(oids) => oids@.map_values(|o: NonZeroOid| o@) == commit_set@ && forall|j: int|
                0 <= j < oids@.len() ==> (#[trigger] oids@[j]).wf(),
            Err(e) => (e == DagError::Codec || e == DagError::UnexpectedZeroOid) && exists|j: int|
                0 <= j < commit_set@.len() && !valid_oid_seq(#[trigger] commit_set@[j]),
        }),
{
    let mut r: Vec<NonZeroOid> = Vec::new();
    let n = commit_set.count();
    let mut i: usize = 0;
    while i < n
        invariant
            n == commit_set@.len(),
            0 <= i <= n,
            r@.map_values(|o: NonZeroOid| o@) =~= commit_set@.take(i as int),
            forall|j: int| 0 <= j < i ==> valid_oid_seq(#[trigger] commit_set@[j]),
            forall|j: int| 0 <= j < r@.len() ==> (#[trigger] r@[j]).wf(),
        decreases n - i,
    {
        let v = commit_set.get(i);
        match crate::oid::vertex_to_nonzero_oid(v) {
            Ok(oid) => {
                r.push(oid);
                proof {
                    assert(r@.map_values(|o: NonZeroOid| o@) =~= commit_set@.take(i + 1));
                }
            },
            Err(e) => {
                return Err(e);
            },
        }
        i += 1;
    }
    proof {
        assert(commit_set@.take(n as int) =~= commit_set@);
        assert(r@.map_values(|o: NonZeroOid| o@) == commit_set@);
    }
    Ok(r)
}

/// The members of the union of a list of sets.
pub open spec fn union_all_contents(sets: Seq<CommitSet>) -> Set<Seq<u8>>
    decreases sets.len(),
{
    if sets.len() == 0 {
        Set::empty()
    } else {
        union_all_contents(sets.drop_last()).union(sets.last().contents())
    }
}

/// Union together a list of sets, folding union from the empty set.
pub fn union_all(commits: &Vec<CommitSet>) -> (r: CommitSet)
    requires
        forall|j: int| 0 <= j < commits@.len() ==> (#[trigger] commits@[j]).wf(),
    ensures
        r.wf(),
        r.contents() =~= union_all_contents(commits@),
{
    let mut r = CommitSet::empty();
    let n = commits.len();
    let mut i: usize = 0;
    proof {
        assert(r.contents() =~= union_all_contents(commits@.take(0int)));
    }
    while i < n
        invariant
            n == commits@.len(),
            0 <= i <= n,
            forall|j: int| 0 <= j < n ==> (#[trigger] commits@[j]).wf(),
            r.wf(),
            r.contents() == union_all_contents(commits@.take(i as int)),
        decreases n - i,
    {
        r = r.union(&commits[i]);
        proof {
            let post = commits@.take(i + 1);
            assert(post.drop_last() =~= commits@.take(i as int));
            assert(post.last() == commits@[i as int]);
            assert(r.contents() =~= union_all_contents(post));
        }
        i += 1;
    }
    proof {
        assert(commits@.take(n as int) =~= commits@);
        assert(r.contents() =~= union_all_contents(commits@));
    }
    r
}

} // verus!
