//! Edge maps: deciding whether a page carries text, and listing its edge points.
use vstd::prelude::*;

verus! {

/// Edge count above which a page is taken to carry text.
pub const DEFAULT_EDGE_THRESHOLD: usize = 50_000;

/// A binary mask over a page, row by row; a non-zero pixel marks an edge.
pub struct EdgeMap {
    pub width: u32,
    pub height: u32,
    pub pixels: Vec<u8>,
}

impl EdgeMap {
    /// One pixel per position of the page.
    pub open spec fn wf(&self) -> bool {
        self.pixels@.len() == self.width as int * self.height as int
    }
}

/// Number of non-zero pixels in `px`.
pub open spec fn count_set(px: Seq<u8>) -> nat
    decreases px.len(),
{
    if px.len() == 0 {
        0
    } else {
        count_set(px.drop_last()) + if px.last() > 0 {
            1nat
        } else {
            0nat
        }
    }
}

proof fn lemma_count_set_bound(px: Seq<u8>)
    ensures
        count_set(px) <= px.len(),
    decreases px.len(),
{
    if px.len() > 0 {
        lemma_count_set_bound(px.drop_last());
    }
}

/// Counts the set pixels of an edge map.
pub fn count_edges(map: &EdgeMap) -> (r: usize)
    ensures
        r == count_set(map.pixels@),
{
    let mut c: usize = 0;
    let mut k: usize = 0;
    while k < map.pixels.len()
        invariant
            k <= map.pixels.len(),
            c == count_set(map.pixels@.subrange(0, k as int)),
        decreases map.pixels.len() - k,
    {
        assert(map.pixels@.subrange(0, (k + 1) as int).drop_last() =~= map.pixels@.subrange(
            0,
            k as int,
        ));
        proof {
            lemma_count_set_bound(map.pixels@.subrange(0, k as int));
        }
        if map.pixels[k] > 0 {
            c = c + 1;
        }
        k = k + 1;
    }
    assert(map.pixels@.subrange(0, k as int) =~= map.pixels@);
    c
}

/// Settings of the text-bearing decision.
pub struct ClassifierConfig {
    /// A page carries text when its edge count is strictly above this.
    pub edge_threshold: usize,
}

impl ClassifierConfig {
    /// The default threshold of 50,000 edge pixels.
    pub fn new() -> (r: ClassifierConfig)
        ensures
            r.edge_threshold == DEFAULT_EDGE_THRESHOLD,
    {
        ClassifierConfig { edge_threshold: DEFAULT_EDGE_THRESHOLD }
    }
}

/// Keeps the edge map of a page whose edge count is strictly above the
/// threshold, and drops the page otherwise.
pub fn has_text(edges: EdgeMap, config: &ClassifierConfig) -> (r: Option<EdgeMap>)
    ensures
        r is Some <==> count_set(edges.pixels@) > config.edge_threshold,
        r matches Some(m) ==> m == edges,
{
    let n = count_edges(&edges);
    if n > config.edge_threshold {
        Some(edges)
    } else {
        None
    }
}

/// A pixel coordinate.
#[derive(Clone, Copy, PartialEq, Eq, Structural, Debug)]
pub struct EdgePoint {
    pub x: u32,
    pub y: u32,
}

/// The coordinates of the set pixels among the first `px.len()` pixels of a
/// map `w` pixels wide, in row-major order.
pub open spec fn edge_points_of(px: Seq<u8>, w: int) -> Seq<EdgePoint>
    decreases px.len(),
{
    if px.len() == 0 {
        Seq::empty()
    } else {
        let k = px.len() - 1;
        edge_points_of(px.drop_last(), w) + if px.last() > 0 {
            seq![EdgePoint { x: (k % w) as u32, y: (k / w) as u32 }]
        } else {
            Seq::<EdgePoint>::empty()
        }
    }
}

/// Lists the set pixels of an edge map, row by row.
pub fn edge_points(map: &EdgeMap) -> (r: Vec<EdgePoint>)
    requires
        map.wf(),
    ensures
        r@ == edge_points_of(map.pixels@, map.width as int),
{
    let n = map.pixels.len();
    let mut out: Vec<EdgePoint> = Vec::new();
    let mut k: usize = 0;
    let mut x: u32 = 0;
    let mut y: u32 = 0;
    while k < n
        invariant
            n == map.pixels.len(),
            map.wf(),
            k <= n,
            n > 0 ==> map.width > 0,
            n > 0 ==> x < map.width,
            y <= map.height,
            k < n ==> y < map.height,
            k == y as int * map.width as int + x as int,
            out@ == edge_points_of(map.pixels@.subrange(0, k as int), map.width as int),
        decreases n - k,
    {
        let ghost w = map.width as int;
        proof {
            vstd::arithmetic::div_mod::lemma_fundamental_div_mod_converse(
                k as int,
                w,
                y as int,
                x as int,
            );
        }
        assert(map.pixels@.subrange(0, (k + 1) as int).drop_last() =~= map.pixels@.subrange(
            0,
            k as int,
        ));
        if map.pixels[k] > 0 {
            out.push(EdgePoint { x, y });
        }
        assert(out@ =~= edge_points_of(map.pixels@.subrange(0, (k + 1) as int), w));
        k = k + 1;
        if x + 1 < map.width {
            x = x + 1;
        } else {
            assert(k == (y + 1) * w) by (nonlinear_arith)
                requires
                    k == y * w + x + 1,
                    x + 1 == w,
            ;
            assert(y + 1 <= map.height && (k < n ==> y + 1 < map.height)) by (nonlinear_arith)
                requires
                    k <= n,
                    n == map.height as int * w,
                    k == (y + 1) * w,
                    w > 0,
            ;
            x = 0;
            y = y + 1;
        }
    }
    assert(map.pixels@.subrange(0, k as int) =~= map.pixels@);
    out
}

} // verus!
