//! Clustering around medoids: vectors that stand for the vectors around them.
//!
//! The medoids are drawn at random at first. In each round every vector goes to the medoid that
//! is most alike to it, and each cluster takes the one of its vectors as its new medoid that is
//! most alike to all of them. How alike vectors are comes in as keys that order as the
//! similarities do.

use rand::seq::SliceRandom;

use vstd::prelude::*;

use crate::rank::{first_above, is_first_above};

verus! {

/// The most rounds of a clustering.
pub const MAX_ROUNDS: u32 = 10;

/// The key of the least finite number in single precision. A similarity counts only above it.
pub const LEAST_SIMILARITY: u64 = 0x3810_0000_2000_0000;

/// How a number of clusters is found.
#[derive(Clone, Copy, Debug, PartialEq, Eq, Structural)]
pub enum ClusterPlan {
    /// There are no clusters.
    Nothing,
    /// There is one cluster, around the average of the vectors.
    Average,
    /// Every vector is a cluster of its own.
    All,
    /// The clusters are looked for around medoids.
    Medoids,
}

/// How `k` clusters of `n` vectors are found.
pub fn cluster_plan(n: usize, k: usize) -> (plan: ClusterPlan)
    ensures
        plan == if k == 0 || n == 0 {
            ClusterPlan::Nothing
        } else if k == 1 {
            ClusterPlan::Average
        } else if k >= n {
            ClusterPlan::All
        } else {
            ClusterPlan::Medoids
        },
{
    if k == 0 || n == 0 {
        ClusterPlan::Nothing
    } else if k == 1 {
        ClusterPlan::Average
    } else if k >= n {
        ClusterPlan::All
    } else {
        ClusterPlan::Medoids
    }
}

/// The number of clusters for a number of samples: one more than its whole square root.
pub open spec fn is_cluster_count(n: nat, k: nat) -> bool {
    k > 0 && (k - 1) * (k - 1) <= n < k * k
}

/// One more than the whole square root of a number.
pub fn cluster_count(n: usize) -> (k: usize)
    ensures
        is_cluster_count(n as nat, k as nat),
{
    let mut k: usize = 1;
    while k <= n / k
        invariant
            k > 0,
            (k - 1) * (k - 1) <= n,
            k - 1 <= n,
        decreases n - k + 1,
    {
        proof {
            lemma_square_by_quotient(n as int, k as int);
        }
        k = k + 1;
    }
    proof {
        lemma_square_by_quotient(n as int, k as int);
    }
    k
}

proof fn lemma_square_by_quotient(n: int, k: int)
    requires
        n >= 0,
        k > 0,
    ensures
        k <= n / k <==> k * k <= n,
        k * k <= n ==> k <= n && (k > 1 ==> k < n),
{
    vstd::arithmetic::div_mod::lemma_fundamental_div_mod(n, k);
    vstd::arithmetic::div_mod::lemma_mod_bound(n, k);
    let q = n / k;
    if k <= q {
        assert(k * k <= k * q) by (nonlinear_arith)
            requires
                0 < k <= q,
        ;
    } else {
        assert(k * (q + 1) <= k * k) by (nonlinear_arith)
            requires
                k > 0,
                q + 1 <= k,
        ;
        assert(k * (q + 1) == k * q + k) by (nonlinear_arith);
    }
    if k > 1 {
        assert(k * k > k) by (nonlinear_arith)
            requires
                k > 1,
        ;
    }
}

/// `rand::seq::SliceRandom::shuffle` with the generator of the thread: the same items in some
/// order. Which order it is, is left to chance.
#[verifier::external_body]
fn shuffle(items: &mut Vec<usize>)
    ensures
        final(items)@.to_multiset() == old(items)@.to_multiset(),
{
    items.shuffle(&mut rand::rng());
}

/// The state of a clustering.
pub struct ClusterState {
    /// The number of vectors.
    pub n: nat,
    /// The medoids of the clusters.
    pub medoids: Seq<usize>,
    /// The number of rounds so far.
    pub rounds: nat,
    /// The last round left the medoids as they were.
    pub converged: bool,
}

/// A clustering of vectors around medoids.
#[derive(Debug)]
pub struct Clustering {
    n: usize,
    medoids: Vec<usize>,
    rounds: u32,
    converged: bool,
}

impl View for Clustering {
    type V = ClusterState;

    closed spec fn view(&self) -> ClusterState {
        ClusterState {
            n: self.n as nat,
            medoids: self.medoids@,
            rounds: self.rounds as nat,
            converged: self.converged,
        }
    }
}

/// The vectors of a cluster, in ascending order.
pub open spec fn members_of(assignments: Seq<usize>, cluster: int) -> Seq<usize>
    decreases assignments.len(),
{
    if assignments.len() == 0 {
        Seq::empty()
    } else {
        let before = members_of(assignments.drop_last(), cluster);
        if assignments.last() == cluster {
            before.push((assignments.len() - 1) as usize)
        } else {
            before
        }
    }
}

/// Every vector goes to the first of the medoids that are most alike to it.
pub open spec fn is_assignment(similarities: Seq<Vec<u64>>, assignments: Seq<usize>) -> bool {
    &&& assignments.len() == similarities.len()
    &&& forall|v: int|
        0 <= v < assignments.len() ==> is_first_above(
            (#[trigger] similarities[v])@,
            LEAST_SIMILARITY,
            assignments[v] as int,
        )
}

/// The vectors, split into clusters: every vector goes to the first of the medoids that are most
/// alike to it.
pub open spec fn is_split(similarities: Seq<Vec<u64>>, clusters: Seq<Vec<usize>>) -> bool {
    exists|assignments: Seq<usize>| #[trigger]
        is_assignment(similarities, assignments) && forall|c: int|
            0 <= c < clusters.len() ==> (#[trigger] clusters[c])@ == members_of(assignments, c)
}

/// The new medoid of a cluster: the first of its vectors that are most alike to all of them; or
/// the old one, if no vector counts as alike.
pub open spec fn is_new_medoid(current: usize, members: Seq<usize>, totals: Seq<u64>, medoid: usize) -> bool {
    if forall|i: int| 0 <= i < totals.len() ==> (#[trigger] totals[i]) <= LEAST_SIMILARITY {
        medoid == current
    } else {
        exists|i: int| #[trigger] is_first_above(totals, LEAST_SIMILARITY, i) && medoid == members[i]
    }
}

/// The vectors of a cluster are vectors.
pub proof fn lemma_members_in_range(assignments: Seq<usize>, cluster: int)
    requires
        assignments.len() <= usize::MAX,
    ensures
        forall|i: int|
            0 <= i < members_of(assignments, cluster).len() ==> (#[trigger] members_of(assignments, cluster)[i])
                < assignments.len(),
    decreases assignments.len(),
{
    if assignments.len() > 0 {
        let before = members_of(assignments.drop_last(), cluster);
        let after = members_of(assignments, cluster);
        lemma_members_in_range(assignments.drop_last(), cluster);
        assert forall|i: int| 0 <= i < after.len() implies (#[trigger] after[i]) < assignments.len() by {
            if i < before.len() {
                assert(after[i] == before[i]);
            }
        }
    }
}

/// A vector is listed in exactly the cluster that it was assigned to.
pub proof fn law_members_partition_the_vectors(assignments: Seq<usize>, cluster: int, v: usize)
    requires
        assignments.len() <= usize::MAX,
    ensures
        members_of(assignments, cluster).contains(v) <==> v < assignments.len() && assignments[v as int] == cluster,
        members_of(assignments, cluster).no_duplicates(),
    decreases assignments.len(),
{
    if assignments.len() > 0 {
        let init = assignments.drop_last();
        let before = members_of(init, cluster);
        let after = members_of(assignments, cluster);
        let last = (assignments.len() - 1) as usize;
        law_members_partition_the_vectors(init, cluster, v);
        lemma_members_in_range(init, cluster);
        if assignments.last() == cluster {
            assert(after[before.len() as int] == last);
            if before.contains(v) {
                let i = choose|i: int| 0 <= i < before.len() && before[i] == v;
                assert(after[i] == v);
            }
        }
    }
}

/// The vectors of the clusters are vectors.
pub open spec fn clusters_in_range(clusters: Seq<Vec<usize>>, n: nat) -> bool {
    forall|c: int, i: int|
        0 <= c < clusters.len() && 0 <= i < clusters[c]@.len() ==> (#[trigger] clusters[c]@[i]) < n
}

impl Clustering {
    /// There are medoids, and they are vectors.
    pub open spec fn wf(&self) -> bool {
        &&& self@.medoids.len() > 0
        &&& forall|i: int| 0 <= i < self@.medoids.len() ==> (#[trigger] self@.medoids[i]) < self@.n
        &&& self@.rounds <= MAX_ROUNDS
        &&& self@.n <= usize::MAX
    }

    /// Starts a clustering with the first `k` vectors of an order as medoids.
    pub fn with_order(n: usize, k: usize, order: Vec<usize>) -> (c: Self)
        requires
            0 < k <= order@.len(),
            forall|i: int| 0 <= i < order@.len() ==> (#[trigger] order@[i]) < n,
        ensures
            c.wf(),
            c@ == (ClusterState { n: n as nat, medoids: order@.take(k as int), rounds: 0, converged: false }),
    {
        let mut medoids = order;
        medoids.truncate(k);
        assert(medoids@ =~= order@.take(k as int));
        Clustering { n, medoids, rounds: 0, converged: false }
    }

    /// Starts a clustering with `k` vectors, drawn at random, as medoids.
    pub fn start(n: usize, k: usize) -> (c: Self)
        requires
            0 < k <= n,
        ensures
            c.wf(),
            c@.n == n,
            c@.medoids.len() == k,
            c@.medoids.no_duplicates(),
            c@.rounds == 0,
            !c@.converged,
    {
        let mut order: Vec<usize> = Vec::new();
        let mut i: usize = 0;
        while i < n
            invariant
                i <= n,
                order@.len() == i,
                forall|j: int| 0 <= j < i ==> (#[trigger] order@[j]) == j,
            decreases n - i,
        {
            order.push(i);
            i = i + 1;
        }
        let ghost before = order@;
        shuffle(&mut order);
        proof {
            lemma_same_items(before, order@);
            assert forall|j: int| 0 <= j < order@.len() implies (#[trigger] order@[j]) < n by {
                assert(order@.contains(order@[j]));
                assert(before.contains(order@[j]));
            }
        }
        let ghost shuffled = order@;
        let c = Clustering::with_order(n, k, order);
        assert(c@.medoids.no_duplicates()) by {
            assert forall|a: int, b: int|
                0 <= a < c@.medoids.len() && 0 <= b < c@.medoids.len() && a != b implies c@.medoids[a]
                != c@.medoids[b] by {
                assert(c@.medoids[a] == shuffled[a] && c@.medoids[b] == shuffled[b]);
            }
        }
        c
    }

    /// The medoids of the clusters.
    pub fn medoids(&self) -> (medoids: &Vec<usize>)
        ensures
            medoids@ == self@.medoids,
    {
        &self.medoids
    }

    /// Whether there is no further round: the last one changed nothing, or there have been
    /// enough.
    pub fn is_done(&self) -> (done: bool)
        requires
            self.wf(),
        ensures
            done == (self@.converged || self@.rounds == MAX_ROUNDS),
    {
        self.converged || self.rounds >= MAX_ROUNDS
    }

    /// Assigns every vector to the medoid that is most alike to it. `similarities` holds, for each
    /// vector, how alike it is to each medoid.
    pub fn assign(&self, similarities: &Vec<Vec<u64>>) -> (assignments: Vec<usize>)
        requires
            self.wf(),
            forall|v: int|
                0 <= v < similarities@.len() ==> (#[trigger] similarities@[v])@.len() == self@.medoids.len(),
        ensures
            is_assignment(similarities@, assignments@),
            forall|v: int| 0 <= v < assignments@.len() ==> (#[trigger] assignments@[v]) < self@.medoids.len(),
    {
        let mut assignments: Vec<usize> = Vec::new();
        let mut v: usize = 0;
        while v < similarities.len()
            invariant
                self.wf(),
                v <= similarities@.len(),
                assignments@.len() == v,
                forall|u: int|
                    0 <= u < similarities@.len() ==> (#[trigger] similarities@[u])@.len() == self@.medoids.len(),
                forall|u: int|
                    0 <= u < v ==> is_first_above(
                        (#[trigger] similarities@[u])@,
                        LEAST_SIMILARITY,
                        assignments@[u] as int,
                    ),
                forall|u: int| 0 <= u < v ==> (#[trigger] assignments@[u]) < self@.medoids.len(),
            decreases similarities@.len() - v,
        {
            assert(similarities@[v as int]@.len() == self@.medoids.len());
            let c: usize = first_above(&similarities[v], LEAST_SIMILARITY);
            assignments.push(c);
            v = v + 1;
        }
        assignments
    }

    /// The vectors of a cluster, in ascending order.
    pub fn members(&self, assignments: &Vec<usize>, cluster: usize) -> (members: Vec<usize>)
        ensures
            members@ == members_of(assignments@, cluster as int),
    {
        let mut members: Vec<usize> = Vec::new();
        let ghost all = assignments@;
        let mut v: usize = 0;
        assert(all.take(0) =~= Seq::<usize>::empty());
        while v < assignments.len()
            invariant
                v <= assignments@.len(),
                all == assignments@,
                members@ == members_of(all.take(v as int), cluster as int),
            decreases assignments@.len() - v,
        {
            assert(all.take(v + 1).drop_last() =~= all.take(v as int));
            if assignments[v] == cluster {
                members.push(v);
            }
            v = v + 1;
        }
        assert(all.take(v as int) =~= all);
        members
    }

    /// The new medoid of a cluster. `totals` holds, for each of its vectors, how alike it is to
    /// all of them.
    pub fn choose_medoid(&self, cluster: usize, members: &Vec<usize>, totals: &Vec<u64>) -> (medoid: usize)
        requires
            self.wf(),
            cluster < self@.medoids.len(),
            totals@.len() == members@.len(),
            forall|i: int| 0 <= i < members@.len() ==> (#[trigger] members@[i]) < self@.n,
        ensures
            is_new_medoid(self@.medoids[cluster as int], members@, totals@, medoid),
            medoid < self@.n,
    {
        let i: usize = first_above(totals, LEAST_SIMILARITY);
        let current: usize = self.medoids[cluster];
        assert(current == self@.medoids[cluster as int]);
        if i < totals.len() && totals[i] > LEAST_SIMILARITY {
            assert(is_first_above(totals@, LEAST_SIMILARITY, i as int));
            assert(totals@[i as int] > LEAST_SIMILARITY);
            members[i]
        } else {
            current
        }
    }

    /// Splits the vectors into clusters, one around each medoid. `similarities` holds, for each
    /// vector, how alike it is to each medoid.
    pub fn split(&self, similarities: &Vec<Vec<u64>>) -> (clusters: Vec<Vec<usize>>)
        requires
            self.wf(),
            similarities@.len() == self@.n,
            forall|v: int|
                0 <= v < similarities@.len() ==> (#[trigger] similarities@[v])@.len() == self@.medoids.len(),
        ensures
            clusters@.len() == self@.medoids.len(),
            is_split(similarities@, clusters@),
            clusters_in_range(clusters@, self@.n),
    {
        let assignments = self.assign(similarities);
        let mut clusters: Vec<Vec<usize>> = Vec::new();
        let mut c: usize = 0;
        while c < self.medoids.len()
            invariant
                c <= self.medoids@.len(),
                assignments@.len() == self@.n,
                self@.n <= usize::MAX,
                clusters@.len() == c,
                forall|d: int| 0 <= d < c ==> (#[trigger] clusters@[d])@ == members_of(assignments@, d),
                clusters_in_range(clusters@, self@.n),
            decreases self.medoids@.len() - c,
        {
            let members = self.members(&assignments, c);
            proof {
                lemma_members_in_range(assignments@, c as int);
            }
            clusters.push(members);
            c = c + 1;
        }
        assert(is_assignment(similarities@, assignments@));
        clusters
    }

    /// Ends a round: each cluster gets its new medoid. `totals` holds, for each vector of each
    /// cluster, how alike it is to all vectors of the cluster.
    pub fn reselect(&mut self, clusters: &Vec<Vec<usize>>, totals: &Vec<Vec<u64>>)
        requires
            old(self).wf(),
            old(self)@.rounds < MAX_ROUNDS,
            clusters@.len() == old(self)@.medoids.len(),
            clusters_in_range(clusters@, old(self)@.n),
            totals@.len() == clusters@.len(),
            forall|c: int| 0 <= c < totals@.len() ==> (#[trigger] totals@[c])@.len() == clusters@[c]@.len(),
        ensures
            final(self).wf(),
            final(self)@.n == old(self)@.n,
            final(self)@.rounds == old(self)@.rounds + 1,
            final(self)@.medoids.len() == old(self)@.medoids.len(),
            forall|c: int|
                0 <= c < final(self)@.medoids.len() ==> is_new_medoid(
                    old(self)@.medoids[c],
                    clusters@[c]@,
                    totals@[c]@,
                    #[trigger] final(self)@.medoids[c],
                ),
            final(self)@.converged == (old(self)@.converged || final(self)@.medoids == old(self)@.medoids),
    {
        let mut next: Vec<usize> = Vec::new();
        let mut c: usize = 0;
        while c < clusters.len()
            invariant
                self.wf(),
                *self == *old(self),
                c <= clusters@.len(),
                clusters@.len() == self@.medoids.len(),
                clusters_in_range(clusters@, self@.n),
                totals@.len() == clusters@.len(),
                forall|d: int| 0 <= d < totals@.len() ==> (#[trigger] totals@[d])@.len() == clusters@[d]@.len(),
                next@.len() == c,
                forall|d: int|
                    0 <= d < c ==> is_new_medoid(
                        self@.medoids[d],
                        clusters@[d]@,
                        totals@[d]@,
                        #[trigger] next@[d],
                    ),
                forall|d: int| 0 <= d < c ==> (#[trigger] next@[d]) < self@.n,
            decreases clusters@.len() - c,
        {
            assert(totals@[c as int]@.len() == clusters@[c as int]@.len());
            let medoid: usize = self.choose_medoid(c, &clusters[c], &totals[c]);
            next.push(medoid);
            c = c + 1;
        }
        self.finish_round(next);
    }

    /// Ends a round with new medoids.
    pub fn finish_round(&mut self, new_medoids: Vec<usize>)
        requires
            old(self).wf(),
            old(self)@.rounds < MAX_ROUNDS,
            new_medoids@.len() == old(self)@.medoids.len(),
            forall|i: int| 0 <= i < new_medoids@.len() ==> (#[trigger] new_medoids@[i]) < old(self)@.n,
        ensures
            final(self).wf(),
            final(self)@ == (ClusterState {
                n: old(self)@.n,
                medoids: new_medoids@,
                rounds: old(self)@.rounds + 1,
                converged: old(self)@.converged || new_medoids@ == old(self)@.medoids,
            }),
    {
        let mut same: bool = true;
        let mut i: usize = 0;
        while i < new_medoids.len()
            invariant
                i <= new_medoids@.len(),
                new_medoids@.len() == self.medoids@.len(),
                same <==> forall|j: int| 0 <= j < i ==> (#[trigger] new_medoids@[j]) == self.medoids@[j],
            decreases new_medoids@.len() - i,
        {
            if new_medoids[i] != self.medoids[i] {
                same = false;
            }
            i = i + 1;
        }
        if same {
            assert(new_medoids@ =~= self.medoids@);
            self.converged = true;
        }
        self.medoids = new_medoids;
        self.rounds = self.rounds + 1;
    }
}

proof fn lemma_same_items(a: Seq<usize>, b: Seq<usize>)
    requires
        a.to_multiset() == b.to_multiset(),
        forall|j: int| 0 <= j < a.len() ==> (#[trigger] a[j]) == j,
    ensures
        b.len() == a.len(),
        b.no_duplicates(),
        forall|x: usize| #[trigger] b.contains(x) ==> a.contains(x),
{
    a.to_multiset_ensures();
    b.to_multiset_ensures();
    assert(a.no_duplicates());
    a.lemma_multiset_has_no_duplicates();
    b.lemma_multiset_has_no_duplicates_conv();
    assert forall|x: usize| #[trigger] b.contains(x) implies a.contains(x) by {
        assert(b.to_multiset().count(x) > 0);
        assert(a.to_multiset().count(x) > 0);
    }
}

/// A number of vectors has only one number of clusters, one more than its whole square root, which
/// grows with it.
pub proof fn law_cluster_count_is_unique(n: nat, k: nat, m: nat, j: nat)
    requires
        is_cluster_count(n, k),
        is_cluster_count(m, j),
    ensures
        k >= 1,
        (k - 1) * (k - 1) <= n,
        n < k * k,
        n == m ==> k == j,
        n <= m ==> k <= j,
        k <= n + 1,
{
    if n <= m && k > j {
        assert(j * j <= (k - 1) * (k - 1)) by (nonlinear_arith)
            requires
                0 <= j <= k - 1,
        ;
    }
    if n == m && j > k {
        assert(k * k <= (j - 1) * (j - 1)) by (nonlinear_arith)
            requires
                0 <= k <= j - 1,
        ;
    }
    assert(k - 1 <= (k - 1) * (k - 1)) by (nonlinear_arith)
        requires
            k >= 1,
    ;
}

/// Every vector is in exactly one of the clusters that the vectors are split into, and there is no
/// medoid that it is more alike to than that of its cluster, if any counts as alike.
pub proof fn law_every_vector_is_in_one_cluster(
    similarities: Seq<Vec<u64>>,
    clusters: Seq<Vec<usize>>,
    v: usize,
    c: int,
    other: int,
)
    requires
        is_split(similarities, clusters),
        clusters.len() > 0,
        forall|u: int| 0 <= u < similarities.len() ==> (#[trigger] similarities[u])@.len() == clusters.len(),
        v < similarities.len() <= usize::MAX,
        0 <= c < clusters.len(),
        0 <= other < clusters.len(),
    ensures
        exists|d: int| 0 <= d < clusters.len() && (#[trigger] clusters[d])@.contains(v),
        clusters[c]@.contains(v) && clusters[other]@.contains(v) ==> c == other,
        clusters[c]@.contains(v) && similarities[v as int]@[other] > LEAST_SIMILARITY ==> similarities[v as int]@[c]
            >= similarities[v as int]@[other] && (similarities[v as int]@[c] == similarities[v as int]@[other] ==> c
            <= other),
{
    let assignments = choose|assignments: Seq<usize>| #[trigger]
        is_assignment(similarities, assignments) && forall|d: int|
            0 <= d < clusters.len() ==> (#[trigger] clusters[d])@ == members_of(assignments, d);
    let a = assignments[v as int] as int;
    let row = similarities[v as int]@;
    assert(is_first_above(row, LEAST_SIMILARITY, a));
    assert(row.len() == clusters.len());
    law_members_partition_the_vectors(assignments, a, v);
    law_members_partition_the_vectors(assignments, c, v);
    law_members_partition_the_vectors(assignments, other, v);
    assert(clusters[a]@ == members_of(assignments, a));
    assert(clusters[c]@ == members_of(assignments, c));
    assert(clusters[other]@ == members_of(assignments, other));
}

/// The new medoid of a cluster is one of its vectors, and no other of them is more alike to all of
/// them; it stays the old one only if no vector counts as alike.
pub proof fn law_new_medoid_is_most_alike(current: usize, members: Seq<usize>, totals: Seq<u64>, medoid: usize, i: int)
    requires
        is_new_medoid(current, members, totals, medoid),
        totals.len() == members.len(),
        0 <= i < members.len(),
    ensures
        totals[i] > LEAST_SIMILARITY ==> exists|j: int|
            0 <= j < members.len() && (#[trigger] members[j]) == medoid && totals[j] >= totals[i] && (totals[j]
                == totals[i] ==> j <= i),
        (forall|j: int| 0 <= j < totals.len() ==> (#[trigger] totals[j]) <= LEAST_SIMILARITY) ==> medoid == current,
{
    if totals[i] > LEAST_SIMILARITY {
        let j = choose|j: int| #[trigger] is_first_above(totals, LEAST_SIMILARITY, j) && medoid == members[j];
        assert(members[j] == medoid);
    }
}

} // verus!
