//! Sensor processing that needs no arithmetic on readings: picking the colour
//! channels out of a camera frame, and grouping lidar points that lie close
//! together into clusters, the candidates for obstacles.
//!
//! Which points lie close together is measured on the readings themselves;
//! here it comes in as a square relation `close`, where `close[i][j]` says
//! that point `j` lies within the clustering threshold of point `i`.
use vstd::prelude::*;

verus! {

/// The colour reported for a frame too short to hold three channels.
pub const NEUTRAL_GREY: u8 = 128;

/// The fewest points a cluster must exceed to count as an obstacle.
pub const MIN_OBSTACLE_POINTS: usize = 5;

/// The colour channels of a camera frame: its first three bytes, or mid grey
/// on every channel when the frame is shorter than that.
pub open spec fn rgb_of(raw: Seq<u8>) -> (u8, u8, u8) {
    if raw.len() >= 3 {
        (raw[0], raw[1], raw[2])
    } else {
        (NEUTRAL_GREY, NEUTRAL_GREY, NEUTRAL_GREY)
    }
}

/// Reads the colour channels of a camera frame.
pub fn extract_rgb(raw: &[u8]) -> (rgb: (u8, u8, u8))
    ensures
        rgb == rgb_of(raw@),
{
    if raw.len() >= 3 {
        (raw[0], raw[1], raw[2])
    } else {
        (NEUTRAL_GREY, NEUTRAL_GREY, NEUTRAL_GREY)
    }
}

/// `close` relates every point of the cloud to every point.
pub open spec fn is_square(close: Seq<Vec<bool>>) -> bool {
    forall|i: int| 0 <= i < close.len() ==> #[trigger] close[i]@.len() == close.len()
}

/// Whether point `j` already belongs to a cluster once the points before `k`
/// have been visited. Points are visited in order; a point that belongs to no
/// cluster yet when it is visited opens one (it is a seed), and takes in
/// every point that is close to it and free at that moment.
pub open spec fn claimed(close: Seq<Vec<bool>>, k: nat, j: int) -> bool
    decreases k,
{
    if k == 0 {
        false
    } else {
        let i = k - 1;
        claimed(close, (k - 1) as nat, j) || (!claimed(close, (k - 1) as nat, i) && (j == i
            || close[i]@[j]))
    }
}

/// Point `i` opens a cluster of its own.
pub open spec fn is_seed(close: Seq<Vec<bool>>, i: int) -> bool {
    !claimed(close, i as nat, i)
}

/// Point `j` joins the cluster that seed `i` opens.
pub open spec fn joins(close: Seq<Vec<bool>>, i: int, j: int) -> bool {
    j != i && !claimed(close, i as nat, j) && close[i]@[j]
}

/// The points below `m` that join the cluster of seed `i`, in order.
pub open spec fn members(close: Seq<Vec<bool>>, i: int, m: nat) -> Seq<usize>
    decreases m,
{
    if m == 0 {
        seq![]
    } else {
        let rest = members(close, i, (m - 1) as nat);
        if joins(close, i, m - 1) {
            rest.push((m - 1) as usize)
        } else {
            rest
        }
    }
}

/// The cluster that seed `i` opens: the seed, then the points that join it.
pub open spec fn cluster_of(close: Seq<Vec<bool>>, i: int) -> Seq<usize> {
    seq![i as usize] + members(close, i, close.len())
}

/// The clusters opened by the seeds below `k`, in the order of their seeds.
pub open spec fn clusters_upto(close: Seq<Vec<bool>>, k: nat) -> Seq<Seq<usize>>
    decreases k,
{
    if k == 0 {
        seq![]
    } else {
        let rest = clusters_upto(close, (k - 1) as nat);
        if is_seed(close, k - 1) {
            rest.push(cluster_of(close, k - 1))
        } else {
            rest
        }
    }
}

/// All the clusters of the point cloud.
pub open spec fn clusters(close: Seq<Vec<bool>>) -> Seq<Seq<usize>> {
    clusters_upto(close, close.len())
}

/// The index views of a list of clusters.
pub open spec fn cluster_views(cs: Seq<Vec<usize>>) -> Seq<Seq<usize>> {
    cs.map_values(|c: Vec<usize>| c@)
}

/// Groups the points of a cloud into clusters: each point not yet taken,
/// in order, opens a cluster and takes in the free points close to it.
pub fn cluster_points(close: &Vec<Vec<bool>>) -> (result: Vec<Vec<usize>>)
    requires
        is_square(close@),
    ensures
        cluster_views(result@) == clusters(close@),
{
    let n = close.len();
    let mut used: Vec<bool> = Vec::new();
    let mut u: usize = 0;
    while u < n
        invariant
            u <= n,
            used@.len() == u,
            forall|x: int| 0 <= x < u ==> !used@[x],
        decreases n - u,
    {
        used.push(false);
        u += 1;
    }
    let mut result: Vec<Vec<usize>> = Vec::new();
    let mut i: usize = 0;
    while i < n
        invariant
            i <= n,
            n == close@.len(),
            is_square(close@),
            used@.len() == n,
            forall|x: int| 0 <= x < n ==> used@[x] == claimed(close@, i as nat, x),
            cluster_views(result@) == clusters_upto(close@, i as nat),
        decreases n - i,
    {
        if !used[i] {
            let mut cluster: Vec<usize> = Vec::new();
            cluster.push(i);
            used.set(i, true);
            let mut j: usize = 0;
            while j < n
                invariant
                    i < n,
                    j <= n,
                    n == close@.len(),
                    is_square(close@),
                    used@.len() == n,
                    is_seed(close@, i as int),
                    forall|x: int|
                        0 <= x < n ==> used@[x] == if x == i {
                            true
                        } else if x < j {
                            claimed(close@, (i + 1) as nat, x)
                        } else {
                            claimed(close@, i as nat, x)
                        },
                    cluster@ == seq![i as usize] + members(close@, i as int, j as nat),
                decreases n - j,
            {
                assert(close@[i as int]@.len() == n);
                if !used[j] && close[i][j] {
                    cluster.push(j);
                    used.set(j, true);
                }
                proof {
                    assert(seq![i as usize] + members(close@, i as int, (j + 1) as nat) =~= cluster@);
                }
                j += 1;
            }
            proof {
                let before = cluster_views(result@);
                assert(cluster_views(result@.push(cluster)) =~= before.push(cluster@));
            }
            result.push(cluster);
        }
        assert(forall|x: int| 0 <= x < n ==> used@[x] == claimed(close@, (i + 1) as nat, x));
        i += 1;
    }
    result
}

/// A cluster large enough to stand for an obstacle.
pub open spec fn is_obstacle(c: Seq<usize>) -> bool {
    c.len() > MIN_OBSTACLE_POINTS
}

/// Keeps, in order, the clusters with more than `MIN_OBSTACLE_POINTS` points.
pub fn obstacle_clusters(clusters: Vec<Vec<usize>>) -> (result: Vec<Vec<usize>>)
    ensures
        result@ == clusters@.filter(|c: Vec<usize>| is_obstacle(c@)),
{
    let ghost all = clusters@;
    let mut result: Vec<Vec<usize>> = Vec::new();
    for c in it: clusters.into_iter()
        invariant
            it.seq() == all,
            result@ == all.take(it.index() as int).filter(|c: Vec<usize>| is_obstacle(c@)),
    {
        proof {
            let k = it.index() as int;
            assert(all.take(k + 1).drop_last() =~= all.take(k));
            reveal(Seq::filter);
        }
        if c.len() > MIN_OBSTACLE_POINTS {
            result.push(c);
        }
    }
    proof {
        assert(all.take(all.len() as int) =~= all);
    }
    result
}

/// Index `x` occurs somewhere in the clusters `cs`.
pub open spec fn occurs(cs: Seq<Seq<usize>>, x: int) -> bool {
    exists|k: int, p: int| 0 <= k < cs.len() && 0 <= p < cs[k].len() && cs[k][p] == x
}

/// Every index in the clusters `cs` is below `n`.
pub open spec fn entries_below(cs: Seq<Seq<usize>>, n: int) -> bool {
    forall|k: int, p: int| 0 <= k < cs.len() && 0 <= p < cs[k].len() ==> cs[k][p] < n
}

/// No index occurs twice in the clusters `cs`, within one cluster or across two.
pub open spec fn no_repeats(cs: Seq<Seq<usize>>) -> bool {
    forall|k1: int, p1: int, k2: int, p2: int|
        0 <= k1 < cs.len() && 0 <= p1 < cs[k1].len() && 0 <= k2 < cs.len() && 0 <= p2
            < cs[k2].len() && #[trigger] cs[k1][p1] == #[trigger] cs[k2][p2] ==> k1 == k2 && p1
            == p2
}

proof fn lemma_members(close: Seq<Vec<bool>>, i: int, m: nat)
    requires
        m <= usize::MAX + 1,
    ensures
        forall|p: int|
            0 <= p < members(close, i, m).len() ==> #[trigger] members(close, i, m)[p] < m
                && joins(close, i, members(close, i, m)[p] as int),
        forall|p: int, q: int|
            0 <= p < q < members(close, i, m).len() ==> #[trigger] members(close, i, m)[p]
                < #[trigger] members(close, i, m)[q],
        forall|j: int|
            0 <= j < m && #[trigger] joins(close, i, j) ==> exists|p: int|
                0 <= p < members(close, i, m).len() && members(close, i, m)[p] == j,
    decreases m,
{
    if m > 0 {
        lemma_members(close, i, (m - 1) as nat);
        let rest = members(close, i, (m - 1) as nat);
        if joins(close, i, m - 1) {
            let cur = rest.push((m - 1) as usize);
            assert(members(close, i, m) == cur);
            assert forall|j: int| 0 <= j < m && #[trigger] joins(close, i, j) implies exists|p: int|
                0 <= p < cur.len() && cur[p] == j by {
                if j == m - 1 {
                    assert(cur[rest.len() as int] == j);
                } else {
                    let p = choose|p: int| 0 <= p < rest.len() && rest[p] == j;
                    assert(cur[p] == j);
                }
            }
        } else {
            assert(members(close, i, m) == rest);
            assert forall|j: int| 0 <= j < m && #[trigger] joins(close, i, j) implies exists|p: int|
                0 <= p < rest.len() && rest[p] == j by {
                assert(j != m - 1);
            }
        }
    }
}

proof fn lemma_claimed_own_step(close: Seq<Vec<bool>>, j: int, k: nat)
    requires
        0 <= j < k,
    ensures
        claimed(close, k, j),
    decreases k,
{
    if k > j + 1 {
        lemma_claimed_own_step(close, j, (k - 1) as nat);
    }
}

proof fn lemma_clusters_upto(close: Seq<Vec<bool>>, k: nat)
    requires
        is_square(close),
        close.len() <= usize::MAX,
        k <= close.len(),
    ensures
        entries_below(clusters_upto(close, k), close.len() as int),
        no_repeats(clusters_upto(close, k)),
        forall|x: int|
            0 <= x < close.len() ==> (#[trigger] occurs(clusters_upto(close, k), x) <==> claimed(
                close,
                k,
                x,
            )),
    decreases k,
{
    let n = close.len() as int;
    if k > 0 {
        let i = k - 1;
        lemma_clusters_upto(close, (k - 1) as nat);
        let old_cs = clusters_upto(close, (k - 1) as nat);
        if is_seed(close, i) {
            let ms = members(close, i, n as nat);
            lemma_members(close, i, n as nat);
            let c = cluster_of(close, i);
            let cs = old_cs.push(c);
            assert(clusters_upto(close, k) == cs);
            assert forall|p: int| 0 <= p < c.len() implies #[trigger] c[p] < n && !claimed(
                close,
                i as nat,
                c[p] as int,
            ) by {
                if p > 0 {
                    assert(c[p] == ms[p - 1]);
                }
            }
            assert forall|p: int, q: int| 0 <= p < c.len() && 0 <= q < c.len() && #[trigger] c[p]
                == #[trigger] c[q] implies p == q by {
                if p > 0 {
                    assert(c[p] == ms[p - 1]);
                }
                if q > 0 {
                    assert(c[q] == ms[q - 1]);
                }
                if p > 0 && q > 0 && p != q {
                    if p < q {
                        assert(ms[p - 1] < ms[q - 1]);
                    } else {
                        assert(ms[q - 1] < ms[p - 1]);
                    }
                }
            }
            assert forall|x: int| 0 <= x < n implies (#[trigger] occurs(cs, x) <==> claimed(
                close,
                k,
                x,
            )) by {
                if occurs(cs, x) {
                    let (kk, pp) = choose|kk: int, pp: int|
                        0 <= kk < cs.len() && 0 <= pp < cs[kk].len() && cs[kk][pp] == x;
                    if kk < old_cs.len() {
                        assert(old_cs[kk][pp] == x);
                        assert(occurs(old_cs, x));
                    } else {
                        if pp > 0 {
                            assert(c[pp] == ms[pp - 1]);
                        }
                    }
                }
                if claimed(close, k, x) {
                    if claimed(close, (k - 1) as nat, x) {
                        assert(occurs(old_cs, x));
                        let (kk, pp) = choose|kk: int, pp: int|
                            0 <= kk < old_cs.len() && 0 <= pp < old_cs[kk].len() && old_cs[kk][pp]
                                == x;
                        assert(cs[kk][pp] == x);
                    } else if x == i {
                        assert(cs[old_cs.len() as int][0] == x);
                    } else {
                        assert(joins(close, i, x));
                        let p = choose|p: int| 0 <= p < ms.len() && ms[p] == x;
                        assert(c[p + 1] == x);
                        assert(cs[old_cs.len() as int][p + 1] == x);
                    }
                }
            }
            assert forall|k1: int, p1: int, k2: int, p2: int|
                0 <= k1 < cs.len() && 0 <= p1 < cs[k1].len() && 0 <= k2 < cs.len() && 0 <= p2
                    < cs[k2].len() && #[trigger] cs[k1][p1] == #[trigger] cs[k2][p2] implies k1
                == k2 && p1 == p2 by {
                if k1 < old_cs.len() && k2 == old_cs.len() {
                    assert(occurs(old_cs, old_cs[k1][p1] as int));
                    assert(c[p2] < n);
                } else if k2 < old_cs.len() && k1 == old_cs.len() {
                    assert(occurs(old_cs, old_cs[k2][p2] as int));
                    assert(c[p1] < n);
                } else if k1 == old_cs.len() && k2 == old_cs.len() {
                    assert(c[p1] == c[p2]);
                } else {
                    assert(old_cs[k1][p1] == old_cs[k2][p2]);
                }
            }
        } else {
            assert(clusters_upto(close, k) == old_cs);
        }
    }
}

/// Clustering partitions the cloud: every index it puts in a cluster names a
/// point of the cloud, every point lies in some cluster, and none in two (nor
/// twice in one).
pub proof fn lemma_clusters_partition(close: Seq<Vec<bool>>)
    requires
        is_square(close),
        close.len() <= usize::MAX,
    ensures
        entries_below(clusters(close), close.len() as int),
        no_repeats(clusters(close)),
        forall|j: int| 0 <= j < close.len() ==> #[trigger] occurs(clusters(close), j),
{
    lemma_clusters_upto(close, close.len());
    assert forall|j: int| 0 <= j < close.len() implies #[trigger] occurs(clusters(close), j) by {
        lemma_claimed_own_step(close, j, close.len());
    }
}

proof fn lemma_anchored_upto(close: Seq<Vec<bool>>, k: nat)
    requires
        is_square(close),
        close.len() <= usize::MAX,
        k <= close.len(),
    ensures
        forall|c: int|
            0 <= c < clusters_upto(close, k).len() ==> #[trigger] clusters_upto(close, k)[c].len()
                > 0 && clusters_upto(close, k)[c][0] < k,
        forall|c: int, d: int|
            0 <= c < d < clusters_upto(close, k).len() ==> #[trigger] clusters_upto(close, k)[c][0]
                < #[trigger] clusters_upto(close, k)[d][0],
        forall|c: int, p: int|
            0 <= c < clusters_upto(close, k).len() && 0 < p < clusters_upto(close, k)[c].len()
                ==> close[clusters_upto(close, k)[c][0] as int]@[#[trigger] clusters_upto(
                close,
                k,
            )[c][p] as int],
    decreases k,
{
    if k > 0 {
        let i = k - 1;
        lemma_anchored_upto(close, (k - 1) as nat);
        let old_cs = clusters_upto(close, (k - 1) as nat);
        if is_seed(close, i) {
            let ms = members(close, i, close.len());
            lemma_members(close, i, close.len());
            let c = cluster_of(close, i);
            let cs = old_cs.push(c);
            assert(clusters_upto(close, k) == cs);
            assert(c[0] == i);
            assert forall|p: int| 0 < p < c.len() implies close[i]@[#[trigger] c[p] as int] by {
                assert(c[p] == ms[p - 1]);
            }
            assert forall|a: int, b: int| 0 <= a < b < cs.len() implies #[trigger] cs[a][0]
                < #[trigger] cs[b][0] by {
                if b == old_cs.len() {
                    assert(old_cs[a].len() > 0);
                    assert(old_cs[a][0] < i);
                } else {
                    assert(old_cs[a][0] < old_cs[b][0]);
                }
            }
        } else {
            assert(clusters_upto(close, k) == old_cs);
        }
    }
}

/// Clusters are anchored at their seeds: each cluster is nonempty, every point
/// in it after the first lies close to the first, and the first points of the
/// clusters come in increasing order.
pub proof fn lemma_clusters_anchored(close: Seq<Vec<bool>>)
    requires
        is_square(close),
        close.len() <= usize::MAX,
    ensures
        forall|c: int| 0 <= c < clusters(close).len() ==> #[trigger] clusters(close)[c].len() > 0,
        forall|c: int, d: int|
            0 <= c < d < clusters(close).len() ==> #[trigger] clusters(close)[c][0]
                < #[trigger] clusters(close)[d][0],
        forall|c: int, p: int|
            0 <= c < clusters(close).len() && 0 < p < clusters(close)[c].len() ==> close[clusters(
                close,
            )[c][0] as int]@[#[trigger] clusters(close)[c][p] as int],
{
    lemma_anchored_upto(close, close.len());
}

} // verus!
