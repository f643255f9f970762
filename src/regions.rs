//! Grouping labelled edge points into clusters and boxing each cluster.
use vstd::prelude::*;
use crate::edges::EdgePoint;

verus! {

/// The label that density-based clustering gives a point.
#[derive(Clone, Copy, PartialEq, Eq, Structural, Debug)]
pub enum Label {
    /// Too sparse to belong to any cluster.
    Noise,
    /// A dense point of the cluster with this id.
    Core(usize),
    /// A point within reach of a dense point of the cluster with this id.
    Edge(usize),
}

/// The cluster id a label names, if any.
pub open spec fn cluster_of(l: Label) -> Option<usize> {
    match l {
        Label::Noise => None,
        Label::Core(c) => Some(c),
        Label::Edge(c) => Some(c),
    }
}

/// One more than the largest cluster id among `labels`, or zero.
pub open spec fn cluster_count(labels: Seq<Label>) -> nat
    decreases labels.len(),
{
    if labels.len() == 0 {
        0
    } else {
        let m = cluster_count(labels.drop_last());
        match cluster_of(labels.last()) {
            Some(c) => if c + 1 > m {
                (c + 1) as nat
            } else {
                m
            },
            None => m,
        }
    }
}

/// The points of the first `k` whose label names cluster `c`, in order.
pub open spec fn members(points: Seq<EdgePoint>, labels: Seq<Label>, c: usize, k: int) -> Seq<
    EdgePoint,
>
    decreases k,
{
    if k <= 0 {
        Seq::empty()
    } else {
        members(points, labels, c, k - 1) + if cluster_of(labels[k - 1]) == Some(c) {
            seq![points[k - 1]]
        } else {
            Seq::<EdgePoint>::empty()
        }
    }
}

/// Every cluster id is below the number of labels, as density-based
/// clustering numbers its clusters from zero.
pub open spec fn ids_in_range(labels: Seq<Label>) -> bool {
    forall|i: int|
        0 <= i < labels.len() ==> match #[trigger] cluster_of(labels[i]) {
            Some(c) => c < labels.len(),
            None => true,
        }
}

/// Groups the points by cluster id: entry `c` holds, in order, the points
/// labelled with cluster `c`; noise points are left out.
pub fn group_clusters(points: &Vec<EdgePoint>, labels: &Vec<Label>) -> (r: Vec<Vec<EdgePoint>>)
    requires
        points.len() == labels.len(),
        ids_in_range(labels@),
    ensures
        r.len() == cluster_count(labels@),
        forall|c: int|
            0 <= c < r.len() ==> #[trigger] r[c]@ == members(
                points@,
                labels@,
                c as usize,
                labels.len() as int,
            ),
{
    let n = labels.len();
    let mut count: usize = 0;
    let mut k: usize = 0;
    while k < n
        invariant
            n == labels.len(),
            ids_in_range(labels@),
            k <= n,
            count <= n,
            count == cluster_count(labels@.subrange(0, k as int)),
        decreases n - k,
    {
        assert(labels@.subrange(0, (k + 1) as int).drop_last() =~= labels@.subrange(0, k as int));
        assert(cluster_of(labels@[k as int]) == cluster_of(labels[k as int]));
        match labels[k] {
            Label::Core(c) | Label::Edge(c) => {
                if c + 1 > count {
                    count = c + 1;
                }
            },
            Label::Noise => {},
        }
        k = k + 1;
    }
    assert(labels@.subrange(0, n as int) =~= labels@);
    let mut out: Vec<Vec<EdgePoint>> = Vec::new();
    let mut c: usize = 0;
    while c < count
        invariant
            n == labels.len(),
            n == points.len(),
            c <= count,
            out.len() == c,
            forall|c2: int|
                0 <= c2 < c ==> #[trigger] out[c2]@ == members(
                    points@,
                    labels@,
                    c2 as usize,
                    n as int,
                ),
        decreases count - c,
    {
        let mut group: Vec<EdgePoint> = Vec::new();
        let mut j: usize = 0;
        while j < n
            invariant
                n == labels.len(),
                n == points.len(),
                j <= n,
                group@ == members(points@, labels@, c, j as int),
            decreases n - j,
        {
            let hit = match labels[j] {
                Label::Core(id) | Label::Edge(id) => id == c,
                Label::Noise => false,
            };
            if hit {
                group.push(points[j]);
            }
            assert(group@ =~= members(points@, labels@, c, (j + 1) as int));
            j = j + 1;
        }
        out.push(group);
        c = c + 1;
    }
    out
}

/// The smallest value of a non-empty sequence.
pub open spec fn seq_min(s: Seq<u32>) -> u32
    decreases s.len(),
{
    if s.len() <= 1 {
        s[0]
    } else {
        let m = seq_min(s.drop_last());
        if s.last() < m {
            s.last()
        } else {
            m
        }
    }
}

/// The largest value of a non-empty sequence.
pub open spec fn seq_max(s: Seq<u32>) -> u32
    decreases s.len(),
{
    if s.len() <= 1 {
        s[0]
    } else {
        let m = seq_max(s.drop_last());
        if s.last() > m {
            s.last()
        } else {
            m
        }
    }
}

/// The smallest and the largest value, or `None` for no values.
pub fn find_min_max(values: &Vec<u32>) -> (r: Option<(u32, u32)>)
    ensures
        r is None <==> values.len() == 0,
        r matches Some((lo, hi)) ==> lo == seq_min(values@) && hi == seq_max(values@),
{
    if values.len() == 0 {
        return None;
    }
    let mut lo = values[0];
    let mut hi = values[0];
    let mut k: usize = 1;
    while k < values.len()
        invariant
            1 <= k <= values.len(),
            lo == seq_min(values@.subrange(0, k as int)),
            hi == seq_max(values@.subrange(0, k as int)),
        decreases values.len() - k,
    {
        assert(values@.subrange(0, (k + 1) as int).drop_last() =~= values@.subrange(0, k as int));
        if values[k] < lo {
            lo = values[k];
        }
        if values[k] > hi {
            hi = values[k];
        }
        k = k + 1;
    }
    assert(values@.subrange(0, k as int) =~= values@);
    Some((lo, hi))
}

/// `seq_min` and `seq_max` are the extremes: every value lies between them,
/// and both are values of the sequence.
pub proof fn lemma_min_max_are_extremes(s: Seq<u32>)
    requires
        s.len() > 0,
    ensures
        forall|i: int| 0 <= i < s.len() ==> seq_min(s) <= #[trigger] s[i] <= seq_max(s),
        exists|i: int| 0 <= i < s.len() && s[i] == seq_min(s),
        exists|i: int| 0 <= i < s.len() && s[i] == seq_max(s),
    decreases s.len(),
{
    if s.len() > 1 {
        let t = s.drop_last();
        lemma_min_max_are_extremes(t);
        assert forall|i: int| 0 <= i < s.len() implies seq_min(s) <= #[trigger] s[i] <= seq_max(
            s,
        ) by {
            if i < t.len() {
                assert(s[i] == t[i]);
            }
        }
        let a = choose|i: int| 0 <= i < t.len() && t[i] == seq_min(t);
        let b = choose|i: int| 0 <= i < t.len() && t[i] == seq_max(t);
        assert(s[a] == t[a] && s[b] == t[b]);
        assert(s[s.len() - 1] == s.last());
    } else {
        assert(s[0] == seq_min(s));
    }
}

/// The axis-aligned box spanned by a cluster's points, bounds included.
#[derive(Clone, Copy, PartialEq, Eq, Structural, Debug)]
pub struct BoundingBox {
    pub min_x: u32,
    pub max_x: u32,
    pub min_y: u32,
    pub max_y: u32,
}

/// The x coordinates of the points, in order.
pub open spec fn xs_of(points: Seq<EdgePoint>) -> Seq<u32> {
    points.map_values(|p: EdgePoint| p.x)
}

/// The y coordinates of the points, in order.
pub open spec fn ys_of(points: Seq<EdgePoint>) -> Seq<u32> {
    points.map_values(|p: EdgePoint| p.y)
}

/// The smallest box around a non-empty set of points.
pub open spec fn box_of(points: Seq<EdgePoint>) -> BoundingBox {
    BoundingBox {
        min_x: seq_min(xs_of(points)),
        max_x: seq_max(xs_of(points)),
        min_y: seq_min(ys_of(points)),
        max_y: seq_max(ys_of(points)),
    }
}

/// The bounding box of some points, or `None` for no points.
pub fn bounding_box(points: &Vec<EdgePoint>) -> (r: Option<BoundingBox>)
    ensures
        r is None <==> points.len() == 0,
        r matches Some(b) ==> b == box_of(points@),
{
    let mut xs: Vec<u32> = Vec::new();
    let mut ys: Vec<u32> = Vec::new();
    let mut k: usize = 0;
    while k < points.len()
        invariant
            k <= points.len(),
            xs@ == xs_of(points@.subrange(0, k as int)),
            ys@ == ys_of(points@.subrange(0, k as int)),
        decreases points.len() - k,
    {
        xs.push(points[k].x);
        ys.push(points[k].y);
        assert(xs@ =~= xs_of(points@.subrange(0, (k + 1) as int)));
        assert(ys@ =~= ys_of(points@.subrange(0, (k + 1) as int)));
        k = k + 1;
    }
    assert(points@.subrange(0, k as int) =~= points@);
    match (find_min_max(&xs), find_min_max(&ys)) {
        (Some((min_x, max_x)), Some((min_y, max_y))) => Some(
            BoundingBox { min_x, max_x, min_y, max_y },
        ),
        _ => None,
    }
}

/// Every point lies inside `box_of`, and each of its four sides touches a point.
pub proof fn lemma_box_is_tight(points: Seq<EdgePoint>)
    requires
        points.len() > 0,
    ensures
        forall|i: int|
            0 <= i < points.len() ==> box_of(points).min_x <= (#[trigger] points[i]).x <= box_of(
                points,
            ).max_x && box_of(points).min_y <= points[i].y <= box_of(points).max_y,
        exists|i: int| 0 <= i < points.len() && points[i].x == box_of(points).min_x,
        exists|i: int| 0 <= i < points.len() && points[i].x == box_of(points).max_x,
        exists|i: int| 0 <= i < points.len() && points[i].y == box_of(points).min_y,
        exists|i: int| 0 <= i < points.len() && points[i].y == box_of(points).max_y,
{
    let xs = xs_of(points);
    let ys = ys_of(points);
    lemma_min_max_are_extremes(xs);
    lemma_min_max_are_extremes(ys);
    assert forall|i: int| 0 <= i < points.len() implies box_of(points).min_x <= (
    #[trigger] points[i]).x <= box_of(points).max_x && box_of(points).min_y <= points[i].y
        <= box_of(points).max_y by {
        assert(xs[i] == points[i].x && ys[i] == points[i].y);
    }
    let a = choose|i: int| 0 <= i < xs.len() && xs[i] == seq_min(xs);
    let b = choose|i: int| 0 <= i < xs.len() && xs[i] == seq_max(xs);
    let c = choose|i: int| 0 <= i < ys.len() && ys[i] == seq_min(ys);
    let d = choose|i: int| 0 <= i < ys.len() && ys[i] == seq_max(ys);
    assert(points[a].x == xs[a] && points[b].x == xs[b] && points[c].y == ys[c] && points[d].y
        == ys[d]);
}

impl BoundingBox {
    /// The crop rectangle `(x, y, width, height)` taken for this box: its
    /// top-left corner and its extents `max - min` on each axis.
    pub fn crop_rect(&self) -> (r: (u32, u32, u32, u32))
        requires
            self.min_x <= self.max_x,
            self.min_y <= self.max_y,
        ensures
            r == (self.min_x, self.min_y, (self.max_x - self.min_x) as u32, (self.max_y
                - self.min_y) as u32),
    {
        (self.min_x, self.min_y, self.max_x - self.min_x, self.max_y - self.min_y)
    }
}

/// A cluster of edge points with its bounding box.
pub struct Cluster {
    pub id: usize,
    pub points: Vec<EdgePoint>,
    pub bbox: BoundingBox,
}

/// The clusters of a labelled point set, by ascending id, each with its
/// bounding box; ids that no point carries give no cluster.
pub fn cluster_regions(points: &Vec<EdgePoint>, labels: &Vec<Label>) -> (r: Vec<Cluster>)
    requires
        points.len() == labels.len(),
        ids_in_range(labels@),
    ensures
        forall|i: int|
            0 <= i < r.len() ==> {
                let cl = #[trigger] r[i];
                &&& cl.id < cluster_count(labels@)
                &&& cl.points@ == members(points@, labels@, cl.id, labels.len() as int)
                &&& cl.points@.len() > 0
                &&& cl.bbox == box_of(cl.points@)
            },
        forall|i: int, j: int| 0 <= i < j < r.len() ==> r[i].id < r[j].id,
        forall|c: int|
            0 <= c < cluster_count(labels@) && (#[trigger] members(points@, labels@, c as usize, labels.len() as int)).len() > 0
                ==> exists|i: int| 0 <= i < r.len() && #[trigger] r[i].id == c,
{
    let groups = group_clusters(points, labels);
    let mut out: Vec<Cluster> = Vec::new();
    let mut c: usize = 0;
    while c < groups.len()
        invariant
            c <= groups.len(),
            groups.len() == cluster_count(labels@),
            forall|c2: int|
                0 <= c2 < groups.len() ==> #[trigger] groups[c2]@ == members(
                    points@,
                    labels@,
                    c2 as usize,
                    labels.len() as int,
                ),
            forall|i: int|
                0 <= i < out.len() ==> {
                    let cl = #[trigger] out[i];
                    &&& cl.id < c
                    &&& cl.points@ == members(points@, labels@, cl.id, labels.len() as int)
                    &&& cl.points@.len() > 0
                    &&& cl.bbox == box_of(cl.points@)
                },
            forall|i: int, j: int| 0 <= i < j < out.len() ==> out[i].id < out[j].id,
            forall|c2: int|
                0 <= c2 < c && (#[trigger] members(points@, labels@, c2 as usize, labels.len() as int)).len() > 0
                    ==> exists|i: int| 0 <= i < out.len() && #[trigger] out[i].id == c2,
        decreases groups.len() - c,
    {
        let pts = groups[c].clone();
        assert(pts@ == groups[c as int]@);
        match bounding_box(&pts) {
            Some(b) => {
                let ghost before = out@;
                out.push(Cluster { id: c, points: pts, bbox: b });
                assert forall|c2: int|
                    0 <= c2 < c + 1 && (#[trigger] members(points@, labels@, c2 as usize, labels.len() as int)).len() > 0
                        implies exists|i: int| 0 <= i < out.len() && #[trigger] out[i].id == c2 by {
                    if c2 < c {
                        let i = choose|i: int| 0 <= i < before.len() && #[trigger] before[i].id == c2;
                        assert(out[i].id == c2);
                    } else {
                        assert(out[out.len() - 1].id == c2);
                    }
                }
            },
            None => {},
        }
        c = c + 1;
    }
    out
}

proof fn lemma_members_before(
    points: Seq<EdgePoint>,
    labels: Seq<Label>,
    c: usize,
    k: int,
    m: int,
)
    requires
        points.len() == labels.len(),
        0 <= m <= k < labels.len(),
    ensures
        members(points, labels, c, m) == members(points.remove(k), labels.remove(k), c, m),
    decreases m,
{
    if m > 0 {
        lemma_members_before(points, labels, c, k, m - 1);
        assert(points.remove(k)[m - 1] == points[m - 1]);
        assert(labels.remove(k)[m - 1] == labels[m - 1]);
    }
}

proof fn lemma_members_after(
    points: Seq<EdgePoint>,
    labels: Seq<Label>,
    c: usize,
    k: int,
    m: int,
)
    requires
        points.len() == labels.len(),
        0 <= k < m <= labels.len(),
        labels[k] == Label::Noise,
    ensures
        members(points, labels, c, m) == members(points.remove(k), labels.remove(k), c, m - 1),
    decreases m,
{
    if m == k + 1 {
        lemma_members_before(points, labels, c, k, k);
        assert(members(points, labels, c, m) =~= members(points, labels, c, k));
    } else {
        lemma_members_after(points, labels, c, k, m - 1);
        assert(points.remove(k)[m - 2] == points[m - 1]);
        assert(labels.remove(k)[m - 2] == labels[m - 1]);
    }
}

/// A point labelled noise belongs to no cluster: taking it out of the input
/// leaves the members of every cluster, and so every cluster's bounding box,
/// exactly as they were.
pub proof fn lemma_noise_point_ignored(points: Seq<EdgePoint>, labels: Seq<Label>, k: int, c: usize)
    requires
        points.len() == labels.len(),
        0 <= k < labels.len(),
        labels[k] == Label::Noise,
    ensures
        members(points, labels, c, labels.len() as int) == members(
            points.remove(k),
            labels.remove(k),
            c,
            labels.len() - 1,
        ),
        members(points, labels, c, labels.len() as int).len() > 0 ==> box_of(
            members(points, labels, c, labels.len() as int),
        ) == box_of(members(points.remove(k), labels.remove(k), c, labels.len() - 1)),
{
    lemma_members_after(points, labels, c, k, labels.len() as int);
}

} // verus!
