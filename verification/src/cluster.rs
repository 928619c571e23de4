//! The cluster reducer: from a cloud of differing pixels to a few circular
//! markers, one per group of neighbouring grid cells.

use std::collections::HashMap;
use vstd::prelude::*;
use crate::diff::DiffPixel;

verus! {

/// A circular marker over one cluster of differing pixels.
///
/// The centre of a bounding box falls on half pixels, so the centre and the
/// radius are kept as twice their value: `twice_x = 2 * x`.
#[derive(Debug, Clone, Copy, PartialEq, Eq, Structural)]
pub struct DiffMarker {
    pub twice_x: u64,
    pub twice_y: u64,
    pub twice_radius: u64,
    pub count: usize,
}

/// The grid column of a pixel for cells of `g` by `g` pixels.
pub open spec fn cell_x(p: DiffPixel, g: int) -> int {
    p.x as int / g
}

/// The grid row of a pixel for cells of `g` by `g` pixels.
pub open spec fn cell_y(p: DiffPixel, g: int) -> int {
    p.y as int / g
}

/// Whether two grid cells touch: their coordinates differ by at most 1 on
/// each axis.
pub open spec fn neighbours(ax: int, ay: int, bx: int, by: int) -> bool {
    -1 <= ax - bx <= 1 && -1 <= ay - by <= 1
}

/// Whether the cells of points `i` and `j` touch.
pub open spec fn near(points: Seq<DiffPixel>, g: int, i: int, j: int) -> bool {
    neighbours(
        cell_x(points[i], g),
        cell_y(points[i], g),
        cell_x(points[j], g),
        cell_y(points[j], g),
    )
}

/// The label that a labelling of grid cells gives to point `i`.
pub open spec fn label_of(
    points: Seq<DiffPixel>,
    g: int,
    lab: spec_fn(int, int) -> int,
    i: int,
) -> int {
    lab(cell_x(points[i], g), cell_y(points[i], g))
}

/// Whether a labelling of grid cells gives one label to any two points
/// whose cells touch.
pub open spec fn keeps_neighbours(
    points: Seq<DiffPixel>,
    g: int,
    lab: spec_fn(int, int) -> int,
) -> bool {
    forall|i: int, j: int|
        0 <= i < points.len() && 0 <= j < points.len() && #[trigger] near(points, g, i, j)
            ==> label_of(points, g, lab, i) == label_of(points, g, lab, j)
}

/// Whether points `i` and `j` belong to one cluster: every labelling that
/// keeps touching cells together keeps the two together.  The clusters are
/// thus the connected groups of occupied cells under the 8-neighbourhood.
pub open spec fn same_cluster(points: Seq<DiffPixel>, g: int, i: int, j: int) -> bool {
    forall|lab: spec_fn(int, int) -> int| #[trigger]
        keeps_neighbours(points, g, lab) ==> label_of(points, g, lab, i) == label_of(
            points,
            g,
            lab,
            j,
        )
}

/// The count and the bounding box of a set of pixels.  Of no pixel the count
/// is 0, the minima are `u32::MAX` and the maxima 0.
pub struct Extent {
    pub count: int,
    pub min_x: int,
    pub max_x: int,
    pub min_y: int,
    pub max_y: int,
}

/// The extent of no pixel.
pub open spec fn no_extent() -> Extent {
    Extent { count: 0, min_x: 0xffff_ffff, max_x: 0, min_y: 0xffff_ffff, max_y: 0 }
}

/// The smaller of two integers.
pub open spec fn least(a: int, b: int) -> int {
    if a <= b {
        a
    } else {
        b
    }
}

/// The greater of two integers.
pub open spec fn most(a: int, b: int) -> int {
    if a >= b {
        a
    } else {
        b
    }
}

/// The extent `e` with the pixel `p` added.
pub open spec fn absorb(e: Extent, p: DiffPixel) -> Extent {
    Extent {
        count: e.count + 1,
        min_x: least(e.min_x, p.x as int),
        max_x: most(e.max_x, p.x as int),
        min_y: least(e.min_y, p.y as int),
        max_y: most(e.max_y, p.y as int),
    }
}

/// The extent of the pixels of `e` and `f` together.
pub open spec fn merge(e: Extent, f: Extent) -> Extent {
    Extent {
        count: e.count + f.count,
        min_x: least(e.min_x, f.min_x),
        max_x: most(e.max_x, f.max_x),
        min_y: least(e.min_y, f.min_y),
        max_y: most(e.max_y, f.max_y),
    }
}

/// The extent of the points picked by `pick` among the first `upto`.
pub open spec fn gather(points: Seq<DiffPixel>, pick: spec_fn(int) -> bool, upto: int) -> Extent
    decreases upto,
{
    if upto <= 0 {
        no_extent()
    } else {
        let before = gather(points, pick, upto - 1);
        if pick(upto - 1) {
            absorb(before, points[upto - 1])
        } else {
            before
        }
    }
}

/// The points of the cluster of point `i`.
pub open spec fn in_cluster(points: Seq<DiffPixel>, g: int, i: int) -> spec_fn(int) -> bool {
    |j: int| same_cluster(points, g, i, j)
}

/// The count and the bounding box of the cluster of point `i`.
pub open spec fn cluster_extent(points: Seq<DiffPixel>, g: int, i: int) -> Extent {
    gather(points, in_cluster(points, g, i), points.len() as int)
}

/// The padding added to half the bounding box: 100 where the minimum radius
/// exceeds 200, else 60.
pub open spec fn padding(min_radius: int) -> int {
    if min_radius > 200 {
        100
    } else {
        60
    }
}

/// The marker over an extent: centred on the bounding box, with the radius
/// `max(min_radius, half_width + padding, half_height + padding)`.
pub open spec fn marker_of(e: Extent, min_radius: int) -> DiffMarker {
    DiffMarker {
        twice_x: (e.min_x + e.max_x) as u64,
        twice_y: (e.min_y + e.max_y) as u64,
        twice_radius: most(
            2 * min_radius,
            most(
                e.max_x - e.min_x + 2 * padding(min_radius),
                e.max_y - e.min_y + 2 * padding(min_radius),
            ),
        ) as u64,
        count: e.count as usize,
    }
}

/// Whether `markers` are the markers of the clusters of `points` that hold
/// at least `min_cluster` points, one marker per cluster, with `reps[k]` a
/// point of the cluster of marker `k`.
pub open spec fn is_clustering(
    points: Seq<DiffPixel>,
    g: int,
    min_cluster: int,
    min_radius: int,
    markers: Seq<DiffMarker>,
    reps: Seq<int>,
) -> bool {
    &&& reps.len() == markers.len()
    &&& forall|k: int|
        #![trigger reps[k]]
        0 <= k < reps.len() ==> {
            &&& 0 <= reps[k]
            &&& reps[k] < points.len()
            &&& markers[k] == marker_of(cluster_extent(points, g, reps[k]), min_radius)
            &&& cluster_extent(points, g, reps[k]).count >= min_cluster
        }
    &&& forall|k: int, l: int|
        0 <= k < l < reps.len() ==> !same_cluster(points, g, #[trigger] reps[k], #[trigger] reps[l])
    &&& forall|i: int|
        0 <= i < points.len() && cluster_extent(points, g, i).count >= min_cluster
            ==> exists|k: int|
            0 <= k < reps.len() && same_cluster(points, g, #[trigger] reps[k], i)
}

/// Whether `markers` are the markers of the clusters of `points` that hold
/// at least `min_cluster` points, one per cluster, by descending count.
pub open spec fn clusters_to(
    points: Seq<DiffPixel>,
    g: int,
    min_cluster: int,
    min_radius: int,
    markers: Seq<DiffMarker>,
) -> bool {
    &&& exists|reps: Seq<int>| #[trigger]
        is_clustering(points, g, min_cluster, min_radius, markers, reps)
    &&& forall|k: int, l: int|
        0 <= k < l < markers.len() ==> (#[trigger] markers[k]).count >= (
        #[trigger] markers[l]).count
}

/// The point that stands for a marker is a point of the cloud.
pub proof fn lemma_marker_has_point(
    points: Seq<DiffPixel>,
    g: int,
    min_cluster: int,
    min_radius: int,
    markers: Seq<DiffMarker>,
    reps: Seq<int>,
    k: int,
)
    requires
        is_clustering(points, g, min_cluster, min_radius, markers, reps),
        0 <= k < markers.len(),
    ensures
        0 <= reps[k] < points.len(),
{
}

/// No points, no markers.
pub proof fn lemma_no_points_no_markers(
    points: Seq<DiffPixel>,
    g: int,
    min_cluster: int,
    min_radius: int,
    markers: Seq<DiffMarker>,
)
    requires
        clusters_to(points, g, min_cluster, min_radius, markers),
        points.len() == 0,
    ensures
        markers.len() == 0,
{
    let reps = choose|reps: Seq<int>| #[trigger]
        is_clustering(points, g, min_cluster, min_radius, markers, reps);
    if markers.len() > 0 {
        lemma_marker_has_point(points, g, min_cluster, min_radius, markers, reps, 0);
    }
}

/// Two ways of picking that agree on the first `upto` points gather the
/// same extent.
pub proof fn lemma_gather_agree(
    points: Seq<DiffPixel>,
    p: spec_fn(int) -> bool,
    q: spec_fn(int) -> bool,
    upto: int,
)
    requires
        forall|j: int| 0 <= j < upto ==> #[trigger] p(j) == q(j),
    ensures
        gather(points, p, upto) == gather(points, q, upto),
    decreases upto,
{
    if upto > 0 {
        lemma_gather_agree(points, p, q, upto - 1);
    }
}

/// Picking by either of two ways that never pick the same point gathers the
/// merge of what each gathers.
pub proof fn lemma_gather_either(
    points: Seq<DiffPixel>,
    p: spec_fn(int) -> bool,
    q: spec_fn(int) -> bool,
    either: spec_fn(int) -> bool,
    upto: int,
)
    requires
        forall|j: int| 0 <= j < upto ==> !(#[trigger] p(j) && q(j)),
        forall|j: int| 0 <= j < upto ==> #[trigger] either(j) == (p(j) || q(j)),
    ensures
        gather(points, either, upto) == merge(gather(points, p, upto), gather(points, q, upto)),
    decreases upto,
{
    if upto > 0 {
        lemma_gather_either(points, p, q, either, upto - 1);
    }
}

/// An extent gathered counts no more points than were scanned, counts at
/// least one where a scanned point is picked, and bounds every picked
/// point.
pub proof fn lemma_gather_bounds(
    points: Seq<DiffPixel>,
    pick: spec_fn(int) -> bool,
    upto: int,
    j: int,
)
    requires
        0 <= upto <= points.len(),
    ensures
        0 <= gather(points, pick, upto).count <= upto,
        0 <= j < upto && pick(j) ==> {
            let e = gather(points, pick, upto);
            &&& e.count >= 1
            &&& e.min_x <= points[j].x <= e.max_x
            &&& e.min_y <= points[j].y <= e.max_y
        },
        0 <= gather(points, pick, upto).min_x <= 0xffff_ffff,
        0 <= gather(points, pick, upto).max_x <= 0xffff_ffff,
        0 <= gather(points, pick, upto).min_y <= 0xffff_ffff,
        0 <= gather(points, pick, upto).max_y <= 0xffff_ffff,
    decreases upto,
{
    if upto > 0 {
        lemma_gather_bounds(points, pick, upto - 1, j);
    }
}

/// An extent that counts a point was gathered from a picked point.
pub proof fn lemma_gather_witness(points: Seq<DiffPixel>, pick: spec_fn(int) -> bool, upto: int)
    -> (j: int)
    requires
        gather(points, pick, upto).count >= 1,
    ensures
        0 <= j < upto,
        pick(j),
    decreases upto,
{
    if upto <= 0 {
        0
    } else if pick(upto - 1) {
        upto - 1
    } else {
        lemma_gather_witness(points, pick, upto - 1)
    }
}

/// A point belongs to its own cluster, and belonging is symmetric and
/// transitive.
pub proof fn lemma_same_cluster_equivalence(
    points: Seq<DiffPixel>,
    g: int,
    i: int,
    j: int,
    k: int,
)
    ensures
        same_cluster(points, g, i, i),
        same_cluster(points, g, i, j) ==> same_cluster(points, g, j, i),
        same_cluster(points, g, i, j) && same_cluster(points, g, j, k) ==> same_cluster(
            points,
            g,
            i,
            k,
        ),
{
}

/// Where nothing is picked, nothing is gathered.
proof fn lemma_gather_none(points: Seq<DiffPixel>, pick: spec_fn(int) -> bool, upto: int)
    requires
        forall|j: int| 0 <= j < upto ==> !#[trigger] pick(j),
    ensures
        gather(points, pick, upto) == no_extent(),
    decreases upto,
{
    if upto > 0 {
        lemma_gather_none(points, pick, upto - 1);
    }
}

/// The count and the bounding box of some pixels, as machine integers.
#[derive(Clone, Copy)]
struct Tally {
    count: usize,
    min_x: u32,
    max_x: u32,
    min_y: u32,
    max_y: u32,
}

/// An occupied grid cell with the tally of its pixels.
#[derive(Clone, Copy)]
struct GridCell {
    gx: u32,
    gy: u32,
    tally: Tally,
}

impl Tally {
    /// The extent that the tally stands for.
    spec fn extent(self) -> Extent {
        Extent {
            count: self.count as int,
            min_x: self.min_x as int,
            max_x: self.max_x as int,
            min_y: self.min_y as int,
            max_y: self.max_y as int,
        }
    }

    /// The tally of no pixel.
    fn none() -> (t: Tally)
        ensures
            t.extent() == no_extent(),
    {
        Tally { count: 0, min_x: 0xffff_ffff, max_x: 0, min_y: 0xffff_ffff, max_y: 0 }
    }

    /// This tally with the pixel `p` added.
    fn with_pixel(self, p: DiffPixel) -> (t: Tally)
        requires
            self.count < usize::MAX,
        ensures
            t.extent() == absorb(self.extent(), p),
    {
        Tally {
            count: self.count + 1,
            min_x: if self.min_x <= p.x {
                self.min_x
            } else {
                p.x
            },
            max_x: if self.max_x >= p.x {
                self.max_x
            } else {
                p.x
            },
            min_y: if self.min_y <= p.y {
                self.min_y
            } else {
                p.y
            },
            max_y: if self.max_y >= p.y {
                self.max_y
            } else {
                p.y
            },
        }
    }

    /// The tally of the pixels of this one and of `other` together.
    fn with_tally(self, other: Tally) -> (t: Tally)
        requires
            self.count + other.count <= usize::MAX,
        ensures
            t.extent() == merge(self.extent(), other.extent()),
    {
        Tally {
            count: self.count + other.count,
            min_x: if self.min_x <= other.min_x {
                self.min_x
            } else {
                other.min_x
            },
            max_x: if self.max_x >= other.max_x {
                self.max_x
            } else {
                other.max_x
            },
            min_y: if self.min_y <= other.min_y {
                self.min_y
            } else {
                other.min_y
            },
            max_y: if self.max_y >= other.max_y {
                self.max_y
            } else {
                other.max_y
            },
        }
    }
}

/// The points that lie in the grid cell `(gx, gy)`.
spec fn in_cell(points: Seq<DiffPixel>, g: int, gx: int, gy: int) -> spec_fn(int) -> bool {
    |j: int| cell_x(points[j], g) == gx && cell_y(points[j], g) == gy
}

/// The key of a grid cell in the index of cells.
spec fn cell_key(gx: u32, gy: u32) -> u64 {
    (gx as u64 * 0x1_0000_0000 + gy as u64) as u64
}

/// Whether `cells` are the occupied cells of the first `upto` points, each
/// kept once with the tally of its points, and `home[j]` is the cell of
/// point `j`.
spec fn covers(
    points: Seq<DiffPixel>,
    g: int,
    cells: Seq<GridCell>,
    home: Seq<int>,
    upto: int,
) -> bool {
    &&& home.len() == upto
    &&& forall|j: int|
        0 <= j < upto ==> {
            &&& 0 <= #[trigger] home[j] < cells.len()
            &&& cells[home[j]].gx == cell_x(points[j], g)
            &&& cells[home[j]].gy == cell_y(points[j], g)
        }
    &&& forall|c: int|
        0 <= c < cells.len() ==> {
            &&& (#[trigger] cells[c]).tally.extent() == gather(
                points,
                in_cell(points, g, cells[c].gx as int, cells[c].gy as int),
                upto,
            )
            &&& cells[c].tally.count >= 1
        }
    &&& forall|c: int, d: int|
        0 <= c < d < cells.len() ==> !((#[trigger] cells[c]).gx == (#[trigger] cells[d]).gx
            && cells[c].gy == cells[d].gy)
}

/// Whether `index` maps the key of every cell to its position in `cells`,
/// and nothing else.
spec fn indexes(index: Map<u64, usize>, cells: Seq<GridCell>) -> bool {
    &&& forall|c: int|
        0 <= c < cells.len() ==> {
            &&& index.contains_key(#[trigger] cell_key(cells[c].gx, cells[c].gy))
            &&& index[cell_key(cells[c].gx, cells[c].gy)] == c
        }
    &&& forall|key: u64| #[trigger]
        index.contains_key(key) ==> {
            &&& index[key] < cells.len()
            &&& cell_key(cells[index[key] as int].gx, cells[index[key] as int].gy) == key
        }
}

/// Buckets the points into grid cells of `grid_size` by `grid_size` pixels
/// and tallies each cell.  The cells come in the order in which the points
/// first reach them.
fn bucket_points(pixels: &[DiffPixel], grid_size: u32) -> (r: (Vec<GridCell>, Ghost<Seq<int>>))
    requires
        grid_size > 0,
    ensures
        covers(pixels@, grid_size as int, r.0@, r.1@, pixels@.len() as int),
{
    broadcast use vstd::std_specs::hash::group_hash_axioms;

    let ghost g = grid_size as int;
    let mut index: HashMap<u64, usize> = HashMap::new();
    let mut cells: Vec<GridCell> = Vec::new();
    let ghost mut home: Seq<int> = Seq::empty();
    let total: usize = pixels.len();
    let mut k: usize = 0;
    while k < total
        invariant
            total == pixels@.len(),
            g == grid_size,
            grid_size > 0,
            k <= total,
            covers(pixels@, g, cells@, home, k as int),
            indexes(index@, cells@),
            forall|c: int| 0 <= c < cells@.len() ==> (#[trigger] cells@[c]).tally.count <= k,
        decreases total - k,
    {
        let p: DiffPixel = pixels[k];
        let gx: u32 = p.x / grid_size;
        let gy: u32 = p.y / grid_size;
        let key: u64 = gx as u64 * 0x1_0000_0000 + gy as u64;
        let ghost old_cells = cells@;
        let ghost old_home = home;
        assert(key == cell_key(gx, gy));
        let found: Option<usize> = match index.get(&key) {
            Some(slot) => Some(*slot),
            None => None,
        };
        match found {
            Some(at) => {
                let mut cell: GridCell = cells[at];
                cell.tally = cell.tally.with_pixel(p);
                cells[at] = cell;
                proof {
                    home = home.push(at as int);
                    assert forall|c: int| 0 <= c < cells@.len() implies {
                        &&& (#[trigger] cells@[c]).tally.extent() == gather(
                            pixels@,
                            in_cell(pixels@, g, cells@[c].gx as int, cells@[c].gy as int),
                            k + 1,
                        )
                        &&& cells@[c].tally.count >= 1
                    } by {
                        if c != at {
                            assert(cells@[c] == old_cells[c]);
                            assert(cell_key(old_cells[c].gx, old_cells[c].gy) != key);
                        }
                    }
                }
            },
            None => {
                let at: usize = cells.len();
                proof {
                    assert forall|j: int| 0 <= j < k implies !#[trigger] in_cell(
                        pixels@,
                        g,
                        gx as int,
                        gy as int,
                    )(j) by {
                        let c = old_home[j];
                        assert(cell_key(old_cells[c].gx, old_cells[c].gy) == cell_key(
                            old_cells[c].gx,
                            old_cells[c].gy,
                        ));
                    }
                    lemma_gather_none(pixels@, in_cell(pixels@, g, gx as int, gy as int), k as int);
                }
                let tally: Tally = Tally::none().with_pixel(p);
                cells.push(GridCell { gx, gy, tally });
                index.insert(key, at);
                proof {
                    home = home.push(at as int);
                    assert forall|c: int| 0 <= c < cells@.len() implies {
                        &&& (#[trigger] cells@[c]).tally.extent() == gather(
                            pixels@,
                            in_cell(pixels@, g, cells@[c].gx as int, cells@[c].gy as int),
                            k + 1,
                        )
                        &&& cells@[c].tally.count >= 1
                    } by {
                        if c != at {
                            assert(cells@[c] == old_cells[c]);
                            assert(cell_key(old_cells[c].gx, old_cells[c].gy) != key);
                        }
                    }
                    assert forall|c: int, d: int|
                        0 <= c < d < cells@.len() implies !((#[trigger] cells@[c]).gx
                        == (#[trigger] cells@[d]).gx && cells@[c].gy == cells@[d].gy) by {
                        if d == at {
                            assert(cells@[c] == old_cells[c]);
                            assert(cell_key(old_cells[c].gx, old_cells[c].gy) != key);
                        } else {
                            assert(cells@[c] == old_cells[c]);
                            assert(cells@[d] == old_cells[d]);
                        }
                    }
                    assert forall|c: int| 0 <= c < cells@.len() implies {
                        &&& index@.contains_key(#[trigger] cell_key(cells@[c].gx, cells@[c].gy))
                        &&& index@[cell_key(cells@[c].gx, cells@[c].gy)] == c
                    } by {
                        if c != at {
                            assert(cells@[c] == old_cells[c]);
                            assert(cell_key(old_cells[c].gx, old_cells[c].gy) != key);
                        }
                    }
                }
            },
        }
        proof {
            assert forall|j: int| 0 <= j < k + 1 implies {
                &&& 0 <= #[trigger] home[j] < cells@.len()
                &&& cells@[home[j]].gx == cell_x(pixels@[j], g)
                &&& cells@[home[j]].gy == cell_y(pixels@[j], g)
            } by {
                if j < k {
                    assert(home[j] == old_home[j]);
                    assert(0 <= old_home[j] < old_cells.len());
                }
            }
        }
        k += 1;
    }
    (cells, Ghost(home))
}

/// Whether cell `i` sits well in the forest: its parent and its root are
/// cells, its root is a root, its parent has the same root, and its rank is
/// below that of its parent.
spec fn node_ok(parent: Seq<usize>, rep: Seq<int>, rank: Seq<int>, bound: int, i: int) -> bool {
    &&& parent[i] < parent.len()
    &&& 0 <= rep[i] < parent.len()
    &&& parent[rep[i]] == rep[i]
    &&& rep[parent[i] as int] == rep[i]
    &&& (parent[i] == i ==> rep[i] == i)
    &&& (parent[i] != i ==> rank[parent[i] as int] > rank[i])
    &&& 0 <= rank[i] <= bound
}

/// Whether `parent` is a forest over the cells in which `rep[i]` is the root
/// of the tree of `i`.  `rank` grows towards the roots and stays under
/// `bound`, so every walk towards a root ends.
spec fn is_forest(parent: Seq<usize>, rep: Seq<int>, rank: Seq<int>, bound: int) -> bool {
    &&& rep.len() == parent.len()
    &&& rank.len() == parent.len()
    &&& forall|i: int| 0 <= i < parent.len() ==> #[trigger] node_ok(parent, rep, rank, bound, i)
}

/// Whether cells `a` and `b` touch.
spec fn touching(cells: Seq<GridCell>, a: int, b: int) -> bool {
    neighbours(cells[a].gx as int, cells[a].gy as int, cells[b].gx as int, cells[b].gy as int)
}

/// The label that a labelling gives to cell `a`.
spec fn cell_label(cells: Seq<GridCell>, lab: spec_fn(int, int) -> int, a: int) -> int {
    lab(cells[a].gx as int, cells[a].gy as int)
}

/// Whether a labelling gives one label to any two cells that touch.
spec fn keeps_cells(cells: Seq<GridCell>, lab: spec_fn(int, int) -> int) -> bool {
    forall|a: int, b: int|
        0 <= a < cells.len() && 0 <= b < cells.len() && #[trigger] touching(cells, a, b)
            ==> cell_label(cells, lab, a) == cell_label(cells, lab, b)
}

/// Whether cells `a` and `b` are in one tree.
spec fn same_tree(rep: Seq<int>, a: int, b: int) -> bool {
    rep[a] == rep[b]
}

/// Whether a labelling gives one label to any two cells of one tree.
spec fn agrees(cells: Seq<GridCell>, rep: Seq<int>, lab: spec_fn(int, int) -> int) -> bool {
    forall|a: int, b: int|
        0 <= a < cells.len() && 0 <= b < cells.len() && #[trigger] same_tree(rep, a, b)
            ==> cell_label(cells, lab, a) == cell_label(cells, lab, b)
}

/// Whether the trees join only what every labelling that keeps touching
/// cells together must join.
spec fn joins_only_linked(cells: Seq<GridCell>, rep: Seq<int>) -> bool {
    forall|lab: spec_fn(int, int) -> int| #[trigger]
        keeps_cells(cells, lab) ==> agrees(cells, rep, lab)
}

/// The roots after the tree of root `from` is hung under root `to`.
spec fn joined(rep: Seq<int>, from: int, to: int) -> Seq<int> {
    Seq::new(
        rep.len(),
        |k: int|
            if rep[k] == from {
                to
            } else {
                rep[k]
            },
    )
}

/// Hanging one root under another leaves a forest.
proof fn lemma_join_forest(
    parent: Seq<usize>,
    rep: Seq<int>,
    rank: Seq<int>,
    bound: int,
    from: usize,
    to: usize,
)
    requires
        is_forest(parent, rep, rank, bound),
        from < parent.len(),
        to < parent.len(),
        from != to,
        parent[from as int] == from,
        parent[to as int] == to,
    ensures
        is_forest(
            parent.update(from as int, to),
            joined(rep, from as int, to as int),
            rank.update(to as int, most(rank[to as int], rank[from as int] + 1)),
            bound + 1,
        ),
{
    let parent2 = parent.update(from as int, to);
    let rep2 = joined(rep, from as int, to as int);
    let rank2 = rank.update(to as int, most(rank[to as int], rank[from as int] + 1));
    assert(node_ok(parent, rep, rank, bound, from as int));
    assert(node_ok(parent, rep, rank, bound, to as int));
    assert forall|k: int| 0 <= k < parent2.len() implies #[trigger] node_ok(
        parent2,
        rep2,
        rank2,
        bound + 1,
        k,
    ) by {
        assert(node_ok(parent, rep, rank, bound, k));
        assert(node_ok(parent, rep, rank, bound, rep[k]));
        assert(node_ok(parent, rep, rank, bound, parent[k] as int));
    }
}

/// Hanging the tree of a cell under the tree of a cell that it touches
/// joins only what every labelling must join.
proof fn lemma_join_linked(cells: Seq<GridCell>, rep: Seq<int>, i: int, j: int)
    requires
        rep.len() == cells.len(),
        0 <= i < cells.len(),
        0 <= j < cells.len(),
        touching(cells, i, j),
        joins_only_linked(cells, rep),
    ensures
        joins_only_linked(cells, joined(rep, rep[i], rep[j])),
{
    let rep2 = joined(rep, rep[i], rep[j]);
    assert forall|lab: spec_fn(int, int) -> int| #[trigger]
        keeps_cells(cells, lab) implies agrees(cells, rep2, lab) by {
        assert(agrees(cells, rep, lab));
        assert(cell_label(cells, lab, i) == cell_label(cells, lab, j));
        assert forall|a: int, b: int|
            0 <= a < cells.len() && 0 <= b < cells.len() && #[trigger] same_tree(
                rep2,
                a,
                b,
            ) implies cell_label(cells, lab, a) == cell_label(cells, lab, b) by {
            let side_a = if rep[a] == rep[i] {
                j
            } else {
                a
            };
            let side_b = if rep[b] == rep[i] {
                j
            } else {
                b
            };
            if rep[a] == rep[i] {
                assert(same_tree(rep, a, i));
            }
            if rep[b] == rep[i] {
                assert(same_tree(rep, b, i));
            }
            assert(cell_label(cells, lab, a) == cell_label(cells, lab, side_a));
            assert(cell_label(cells, lab, b) == cell_label(cells, lab, side_b));
            assert(same_tree(rep, side_a, side_b));
        }
    }
}

/// The root of the tree of `start`.  Every cell on the way is re-hung on
/// its grandparent.
fn find_root(
    parent: &mut Vec<usize>,
    start: usize,
    Ghost(rep): Ghost<Seq<int>>,
    Ghost(rank): Ghost<Seq<int>>,
    Ghost(bound): Ghost<int>,
) -> (root: usize)
    requires
        is_forest(old(parent)@, rep, rank, bound),
        start < old(parent)@.len(),
    ensures
        is_forest(final(parent)@, rep, rank, bound),
        final(parent)@.len() == old(parent)@.len(),
        root == rep[start as int],
        final(parent)@[root as int] == root,
{
    let mut cur: usize = start;
    proof {
        assert(node_ok(parent@, rep, rank, bound, cur as int));
    }
    while parent[cur] != cur
        invariant
            is_forest(parent@, rep, rank, bound),
            parent@.len() == old(parent)@.len(),
            cur < parent@.len(),
            rep[cur as int] == rep[start as int],
            node_ok(parent@, rep, rank, bound, cur as int),
        decreases bound - rank[cur as int],
    {
        let up: usize = parent[cur];
        proof {
            assert(node_ok(parent@, rep, rank, bound, up as int));
        }
        let above: usize = parent[up];
        let ghost before = parent@;
        parent[cur] = above;
        proof {
            assert(node_ok(before, rep, rank, bound, above as int));
            assert forall|i: int| 0 <= i < parent@.len() implies #[trigger] node_ok(
                parent@,
                rep,
                rank,
                bound,
                i,
            ) by {
                assert(node_ok(before, rep, rank, bound, i));
                assert(node_ok(before, rep, rank, bound, rep[i]));
            }
        }
        cur = above;
    }
    cur
}

/// Whether cells `a` and `b` touch, computed.
fn cells_touch(cells: &Vec<GridCell>, a: usize, b: usize) -> (t: bool)
    requires
        a < cells@.len(),
        b < cells@.len(),
    ensures
        t == touching(cells@, a as int, b as int),
{
    let ca: GridCell = cells[a];
    let cb: GridCell = cells[b];
    let dx: u32 = if ca.gx >= cb.gx {
        ca.gx - cb.gx
    } else {
        cb.gx - ca.gx
    };
    let dy: u32 = if ca.gy >= cb.gy {
        ca.gy - cb.gy
    } else {
        cb.gy - ca.gy
    };
    dx <= 1 && dy <= 1
}

/// The outcome of linking: the forest with the roots, ranks and rank bound
/// that explain it.
struct Forest {
    parent: Vec<usize>,
    rep: Ghost<Seq<int>>,
    rank: Ghost<Seq<int>>,
    bound: Ghost<int>,
}

impl Forest {
    /// Whether this is a forest over `cells` that joins only linked cells.
    spec fn wf(self, cells: Seq<GridCell>) -> bool {
        &&& self.parent@.len() == cells.len()
        &&& is_forest(self.parent@, self.rep@, self.rank@, self.bound@)
        &&& joins_only_linked(cells, self.rep@)
    }

    /// Joins the trees of cells `i` and `j`, which touch.
    fn join(&mut self, Ghost(cells): Ghost<Seq<GridCell>>, i: usize, j: usize)
        requires
            old(self).wf(cells),
            i < cells.len(),
            j < cells.len(),
            touching(cells, i as int, j as int),
        ensures
            final(self).wf(cells),
            final(self).rep@[i as int] == final(self).rep@[j as int],
            forall|a: int, b: int|
                0 <= a < cells.len() && 0 <= b < cells.len() && #[trigger] same_tree(
                    old(self).rep@,
                    a,
                    b,
                ) ==> same_tree(final(self).rep@, a, b),
    {
        let ghost rep = self.rep@;
        let ghost rank = self.rank@;
        let ghost bound = self.bound@;
        let pi: usize = find_root(&mut self.parent, i, Ghost(rep), Ghost(rank), Ghost(bound));
        let pj: usize = find_root(&mut self.parent, j, Ghost(rep), Ghost(rank), Ghost(bound));
        proof {
            assert(node_ok(self.parent@, rep, rank, bound, i as int));
            assert(node_ok(self.parent@, rep, rank, bound, j as int));
            assert(node_ok(self.parent@, rep, rank, bound, pi as int));
            assert(node_ok(self.parent@, rep, rank, bound, pj as int));
        }
        if pi != pj {
            proof {
                lemma_join_forest(self.parent@, rep, rank, bound, pi, pj);
                lemma_join_linked(cells, rep, i as int, j as int);
            }
            self.parent[pi] = pj;
            proof {
                self.rep@ = joined(rep, pi as int, pj as int);
                self.rank@ = rank.update(
                    pj as int,
                    most(rank[pj as int], rank[pi as int] + 1),
                );
                self.bound@ = bound + 1;
            }
        }
    }
}

/// Joins the cells that touch: a union-find pass over all unordered pairs
/// of cells.
fn link_cells(cells: &Vec<GridCell>) -> (forest: Forest)
    ensures
        forest.wf(cells@),
        forall|a: int, b: int|
            0 <= a < cells@.len() && 0 <= b < cells@.len() && #[trigger] touching(cells@, a, b)
                ==> same_tree(forest.rep@, a, b),
{
    let m: usize = cells.len();
    let mut parent: Vec<usize> = Vec::new();
    let mut n: usize = 0;
    while n < m
        invariant
            n <= m,
            parent@.len() == n,
            forall|i: int| 0 <= i < n ==> parent@[i] == i,
        decreases m - n,
    {
        parent.push(n);
        n += 1;
    }
    let mut forest = Forest {
        parent,
        rep: Ghost(Seq::new(m as nat, |i: int| i)),
        rank: Ghost(Seq::new(m as nat, |i: int| 0int)),
        bound: Ghost(0int),
    };
    proof {
        assert forall|k: int| 0 <= k < m implies #[trigger] node_ok(
            forest.parent@,
            forest.rep@,
            forest.rank@,
            forest.bound@,
            k,
        ) by {}
        assert forall|lab: spec_fn(int, int) -> int| #[trigger]
            keeps_cells(cells@, lab) implies agrees(cells@, forest.rep@, lab) by {}
    }
    let mut i: usize = 0;
    while i < m
        invariant
            m == cells@.len(),
            i <= m,
            forest.wf(cells@),
            forall|a: int, b: int|
                0 <= a < i && a < b < m && #[trigger] touching(cells@, a, b) ==> same_tree(
                    forest.rep@,
                    a,
                    b,
                ),
        decreases m - i,
    {
        let mut j: usize = i + 1;
        while j < m
            invariant
                m == cells@.len(),
                i < m,
                i < j <= m,
                forest.wf(cells@),
                forall|a: int, b: int|
                    0 <= a < i && a < b < m && #[trigger] touching(cells@, a, b) ==> same_tree(
                        forest.rep@,
                        a,
                        b,
                    ),
                forall|b: int|
                    i < b < j && #[trigger] touching(cells@, i as int, b) ==> same_tree(
                        forest.rep@,
                        i as int,
                        b,
                    ),
            decreases m - j,
        {
            if cells_touch(cells, i, j) {
                forest.join(Ghost(cells@), i, j);
            }
            j += 1;
        }
        i += 1;
    }
    proof {
        assert forall|a: int, b: int|
            0 <= a < cells@.len() && 0 <= b < cells@.len() && #[trigger] touching(
                cells@,
                a,
                b,
            ) implies same_tree(forest.rep@, a, b) by {
            if b < a {
                assert(touching(cells@, b, a));
                assert(same_tree(forest.rep@, b, a));
            }
        }
    }
    forest
}

/// The points whose cell lies in the tree of root `r` and comes before cell
/// `limit`.
spec fn in_tree(home: Seq<int>, rep: Seq<int>, r: int, limit: int) -> spec_fn(int) -> bool {
    |j: int| rep[home[j]] == r && home[j] < limit
}

/// A point lies in a cell exactly when the cell is its home.
proof fn lemma_home_is_cell(
    points: Seq<DiffPixel>,
    g: int,
    cells: Seq<GridCell>,
    home: Seq<int>,
    c: int,
    j: int,
)
    requires
        covers(points, g, cells, home, points.len() as int),
        0 <= c < cells.len(),
        0 <= j < points.len(),
    ensures
        in_cell(points, g, cells[c].gx as int, cells[c].gy as int)(j) == (home[j] == c),
{
    let h = home[j];
    assert(0 <= h < cells.len());
    if h < c {
        assert(!(cells[h].gx == cells[c].gx && cells[h].gy == cells[c].gy));
    } else if c < h {
        assert(!(cells[c].gx == cells[h].gx && cells[c].gy == cells[h].gy));
    }
}

/// Taking cell `c` into account changes the gathering of the tree of `c`
/// by the tally of `c`, and no other gathering.
proof fn lemma_tree_grows(
    points: Seq<DiffPixel>,
    g: int,
    cells: Seq<GridCell>,
    home: Seq<int>,
    rep: Seq<int>,
    r: int,
    c: int,
)
    requires
        covers(points, g, cells, home, points.len() as int),
        rep.len() == cells.len(),
        0 <= c < cells.len(),
    ensures
        rep[c] == r ==> gather(points, in_tree(home, rep, r, c + 1), points.len() as int) == merge(
            gather(points, in_tree(home, rep, r, c), points.len() as int),
            cells[c].tally.extent(),
        ),
        rep[c] != r ==> gather(points, in_tree(home, rep, r, c + 1), points.len() as int) == gather(
            points,
            in_tree(home, rep, r, c),
            points.len() as int,
        ),
{
    let n = points.len() as int;
    let before = in_tree(home, rep, r, c);
    let after = in_tree(home, rep, r, c + 1);
    let here = in_cell(points, g, cells[c].gx as int, cells[c].gy as int);
    assert forall|j: int| 0 <= j < n implies (#[trigger] here(j)) == (home[j] == c) by {
        lemma_home_is_cell(points, g, cells, home, c, j);
    }
    if rep[c] == r {
        assert forall|j: int| 0 <= j < n implies !(#[trigger] before(j) && here(j)) by {
            lemma_home_is_cell(points, g, cells, home, c, j);
        }
        assert forall|j: int| 0 <= j < n implies #[trigger] after(j) == (before(j) || here(j)) by {
            lemma_home_is_cell(points, g, cells, home, c, j);
        }
        lemma_gather_either(points, before, here, after, n);
        assert(cells[c].tally.extent() == gather(points, here, n));
    } else {
        assert forall|j: int| 0 <= j < n implies #[trigger] after(j) == before(j) by {}
        lemma_gather_agree(points, after, before, n);
    }
}

/// Tallies every tree of the forest: the tallies of its cells, merged at
/// the root.
fn tally_trees(
    cells: &Vec<GridCell>,
    forest: &mut Forest,
    Ghost(points): Ghost<Seq<DiffPixel>>,
    Ghost(g): Ghost<int>,
    Ghost(home): Ghost<Seq<int>>,
) -> (groups: Vec<Tally>)
    requires
        old(forest).wf(cells@),
        covers(points, g, cells@, home, points.len() as int),
        points.len() <= usize::MAX,
    ensures
        final(forest).wf(cells@),
        final(forest).rep@ == old(forest).rep@,
        groups@.len() == cells@.len(),
        forall|r: int|
            0 <= r < cells@.len() ==> (#[trigger] groups@[r]).extent() == gather(
                points,
                in_tree(home, old(forest).rep@, r, cells@.len() as int),
                points.len() as int,
            ),
{
    let m: usize = cells.len();
    let ghost rep = forest.rep@;
    let ghost n = points.len() as int;
    let mut groups: Vec<Tally> = Vec::new();
    let mut r: usize = 0;
    while r < m
        invariant
            r <= m,
            groups@.len() == r,
            forall|q: int| 0 <= q < r ==> (#[trigger] groups@[q]).extent() == no_extent(),
        decreases m - r,
    {
        groups.push(Tally::none());
        r += 1;
    }
    proof {
        assert forall|q: int| 0 <= q < m implies (#[trigger] groups@[q]).extent() == gather(
            points,
            in_tree(home, rep, q, 0),
            n,
        ) by {
            lemma_gather_none(points, in_tree(home, rep, q, 0), n);
        }
    }
    let mut c: usize = 0;
    while c < m
        invariant
            m == cells@.len(),
            n == points.len(),
            n <= usize::MAX,
            c <= m,
            forest.wf(cells@),
            forest.rep@ == rep,
            covers(points, g, cells@, home, n),
            groups@.len() == m,
            forall|q: int|
                0 <= q < m ==> (#[trigger] groups@[q]).extent() == gather(
                    points,
                    in_tree(home, rep, q, c as int),
                    n,
                ),
        decreases m - c,
    {
        let ghost rank = forest.rank@;
        let ghost bound = forest.bound@;
        let root: usize = find_root(&mut forest.parent, c, Ghost(rep), Ghost(rank), Ghost(bound));
        proof {
            assert(node_ok(forest.parent@, rep, rank, bound, c as int));
            lemma_tree_grows(points, g, cells@, home, rep, root as int, c as int);
            lemma_gather_bounds(points, in_tree(home, rep, root as int, c + 1), n, 0);
        }
        let ghost before = groups@;
        let sum: Tally = groups[root].with_tally(cells[c].tally);
        groups[root] = sum;
        proof {
            assert forall|q: int| 0 <= q < m implies (#[trigger] groups@[q]).extent() == gather(
                points,
                in_tree(home, rep, q, c + 1),
                n,
            ) by {
                lemma_tree_grows(points, g, cells@, home, rep, q, c as int);
                if q != root {
                    assert(groups@[q] == before[q]);
                }
            }
        }
        c += 1;
    }
    groups
}

/// The cell at grid position `(x, y)`, where there is one.
spec fn slot(cells: Seq<GridCell>, x: int, y: int) -> int {
    choose|c: int| 0 <= c < cells.len() && cells[c].gx == x && cells[c].gy == y
}

/// The labelling that gives every occupied grid position the root of its
/// cell.
spec fn root_labels(cells: Seq<GridCell>, rep: Seq<int>) -> spec_fn(int, int) -> int {
    |x: int, y: int| rep[slot(cells, x, y)]
}

/// The trees of the forest are the clusters: two points belong to one
/// cluster exactly when their cells have one root.
proof fn lemma_tree_is_cluster(
    points: Seq<DiffPixel>,
    g: int,
    cells: Seq<GridCell>,
    home: Seq<int>,
    rep: Seq<int>,
    i: int,
    j: int,
)
    requires
        covers(points, g, cells, home, points.len() as int),
        rep.len() == cells.len(),
        joins_only_linked(cells, rep),
        forall|a: int, b: int|
            0 <= a < cells.len() && 0 <= b < cells.len() && #[trigger] touching(cells, a, b)
                ==> same_tree(rep, a, b),
        0 <= i < points.len(),
        0 <= j < points.len(),
    ensures
        same_cluster(points, g, i, j) == (rep[home[i]] == rep[home[j]]),
{
    let n = points.len() as int;
    assert(0 <= home[i] < cells.len());
    assert(0 <= home[j] < cells.len());
    if rep[home[i]] == rep[home[j]] {
        assert forall|lab: spec_fn(int, int) -> int| #[trigger]
            keeps_neighbours(points, g, lab) implies label_of(points, g, lab, i) == label_of(
            points,
            g,
            lab,
            j,
        ) by {
            assert forall|a: int, b: int|
                0 <= a < cells.len() && 0 <= b < cells.len() && #[trigger] touching(
                    cells,
                    a,
                    b,
                ) implies cell_label(cells, lab, a) == cell_label(cells, lab, b) by {
                let pick_a = in_cell(points, g, cells[a].gx as int, cells[a].gy as int);
                let pick_b = in_cell(points, g, cells[b].gx as int, cells[b].gy as int);
                assert(cells[a].tally.extent() == gather(points, pick_a, n));
                assert(cells[b].tally.extent() == gather(points, pick_b, n));
                let wa = lemma_gather_witness(points, pick_a, n);
                let wb = lemma_gather_witness(points, pick_b, n);
                assert(pick_a(wa) && pick_b(wb));
                assert(near(points, g, wa, wb));
                assert(label_of(points, g, lab, wa) == label_of(points, g, lab, wb));
            }
            assert(keeps_cells(cells, lab));
            assert(agrees(cells, rep, lab));
            assert(same_tree(rep, home[i], home[j]));
            assert(cell_label(cells, lab, home[i]) == cell_label(cells, lab, home[j]));
        }
    }
    if same_cluster(points, g, i, j) {
        let lab = root_labels(cells, rep);
        assert forall|p: int| 0 <= p < n implies label_of(points, g, lab, p)
            == rep[#[trigger] home[p]] by {
            let h = home[p];
            let found = slot(cells, cell_x(points[p], g), cell_y(points[p], g));
            assert(0 <= h < cells.len() && cells[h].gx == cell_x(points[p], g) && cells[h].gy
                == cell_y(points[p], g));
            if found < h {
                assert(!(cells[found].gx == cells[h].gx && cells[found].gy == cells[h].gy));
            } else if h < found {
                assert(!(cells[h].gx == cells[found].gx && cells[h].gy == cells[found].gy));
            }
        }
        assert forall|p: int, q: int|
            0 <= p < n && 0 <= q < n && #[trigger] near(points, g, p, q) implies label_of(
            points,
            g,
            lab,
            p,
        ) == label_of(points, g, lab, q) by {
            assert(label_of(points, g, lab, p) == rep[home[p]]);
            assert(label_of(points, g, lab, q) == rep[home[q]]);
            assert(touching(cells, home[p], home[q]));
            assert(same_tree(rep, home[p], home[q]));
        }
        assert(keeps_neighbours(points, g, lab));
        assert(label_of(points, g, lab, i) == rep[home[i]]);
        assert(label_of(points, g, lab, j) == rep[home[j]]);
    }
}

/// The tally of a tree is the extent of the cluster of each of its points.
proof fn lemma_tree_extent(
    points: Seq<DiffPixel>,
    g: int,
    cells: Seq<GridCell>,
    home: Seq<int>,
    rep: Seq<int>,
    i: int,
)
    requires
        covers(points, g, cells, home, points.len() as int),
        rep.len() == cells.len(),
        joins_only_linked(cells, rep),
        forall|a: int, b: int|
            0 <= a < cells.len() && 0 <= b < cells.len() && #[trigger] touching(cells, a, b)
                ==> same_tree(rep, a, b),
        0 <= i < points.len(),
    ensures
        cluster_extent(points, g, i) == gather(
            points,
            in_tree(home, rep, rep[home[i]], cells.len() as int),
            points.len() as int,
        ),
        cluster_extent(points, g, i).count >= 1,
{
    let n = points.len() as int;
    let p = in_cluster(points, g, i);
    let q = in_tree(home, rep, rep[home[i]], cells.len() as int);
    assert forall|j: int| 0 <= j < n implies #[trigger] p(j) == q(j) by {
        lemma_tree_is_cluster(points, g, cells, home, rep, i, j);
        assert(0 <= home[j] < cells.len());
    }
    lemma_gather_agree(points, p, q, n);
    lemma_same_cluster_equivalence(points, g, i, i, i);
    lemma_gather_bounds(points, p, n, i);
}

/// Whether the tree tallied at `r` is kept: it holds a point, and at least
/// `min_cluster` of them.
spec fn is_kept(groups: Seq<Tally>, min_cluster: int, r: int) -> bool {
    groups[r].count >= 1 && groups[r].count >= min_cluster
}

/// The roots of the trees that are kept, in ascending order.
fn pick_roots(groups: &Vec<Tally>, min_cluster: usize) -> (roots: Vec<usize>)
    ensures
        forall|k: int| 0 <= k < roots@.len() ==> (#[trigger] roots@[k]) < groups@.len(),
        forall|k: int|
            0 <= k < roots@.len() ==> is_kept(
                groups@,
                min_cluster as int,
                #[trigger] roots@[k] as int,
            ),
        forall|r: int|
            0 <= r < groups@.len() && is_kept(groups@, min_cluster as int, r)
                ==> #[trigger] roots@.contains(r as usize),
        roots@.no_duplicates(),
{
    let m: usize = groups.len();
    let mut roots: Vec<usize> = Vec::new();
    let mut r: usize = 0;
    while r < m
        invariant
            m == groups@.len(),
            r <= m,
            forall|k: int| 0 <= k < roots@.len() ==> (#[trigger] roots@[k]) < r,
            forall|k: int|
                0 <= k < roots@.len() ==> is_kept(
                    groups@,
                    min_cluster as int,
                    #[trigger] roots@[k] as int,
                ),
            forall|q: int|
                0 <= q < r && is_kept(groups@, min_cluster as int, q)
                    ==> #[trigger] roots@.contains(q as usize),
            roots@.no_duplicates(),
        decreases m - r,
    {
        let count: usize = groups[r].count;
        if count >= 1 && count >= min_cluster {
            let ghost before = roots@;
            roots.push(r);
            proof {
                assert forall|q: int|
                    0 <= q < r + 1 && is_kept(
                        groups@,
                        min_cluster as int,
                        q,
                    ) implies #[trigger] roots@.contains(q as usize) by {
                    if q < r {
                        assert(before.contains(q as usize));
                        let at = choose|at: int| 0 <= at < before.len() && before[at] == q as usize;
                        assert(roots@[at] == q as usize);
                    } else {
                        assert(roots@[before.len() as int] == r);
                    }
                }
            }
        }
        r += 1;
    }
    roots
}

/// Whether the roots come by descending count of their trees.
spec fn by_count(groups: Seq<Tally>, roots: Seq<usize>) -> bool {
    forall|k: int, l: int|
        0 <= k < l < roots.len() ==> groups[#[trigger] roots[k] as int].count
            >= groups[#[trigger] roots[l] as int].count
}

/// The roots ordered by descending count of their trees.  Roots of equal
/// count keep their order.
fn sort_roots(roots: &Vec<usize>, groups: &Vec<Tally>) -> (sorted: Vec<usize>)
    requires
        forall|k: int| 0 <= k < roots@.len() ==> (#[trigger] roots@[k]) < groups@.len(),
    ensures
        sorted@.to_multiset() == roots@.to_multiset(),
        by_count(groups@, sorted@),
        forall|k: int| 0 <= k < sorted@.len() ==> (#[trigger] sorted@[k]) < groups@.len(),
{
    let total: usize = roots.len();
    let mut sorted: Vec<usize> = Vec::new();
    let mut t: usize = 0;
    proof {
        assert(roots@.subrange(0, 0) =~= sorted@);
    }
    while t < total
        invariant
            total == roots@.len(),
            t <= total,
            sorted@.len() == t,
            forall|k: int| 0 <= k < roots@.len() ==> (#[trigger] roots@[k]) < groups@.len(),
            forall|k: int| 0 <= k < sorted@.len() ==> (#[trigger] sorted@[k]) < groups@.len(),
            sorted@.to_multiset() == roots@.subrange(0, t as int).to_multiset(),
            by_count(groups@, sorted@),
        decreases total - t,
    {
        let root: usize = roots[t];
        let count: usize = groups[root].count;
        let mut pos: usize = 0;
        while pos < t && groups[sorted[pos]].count >= count
            invariant
                pos <= t,
                sorted@.len() == t,
                forall|k: int| 0 <= k < sorted@.len() ==> (#[trigger] sorted@[k]) < groups@.len(),
                forall|k: int|
                    0 <= k < pos ==> groups@[#[trigger] sorted@[k] as int].count >= count,
            decreases t - pos,
        {
            pos += 1;
        }
        let ghost before = sorted@;
        sorted.insert(pos, root);
        proof {
            before.insert_ensures(pos as int, root);
            vstd::seq_lib::to_multiset_insert(before, pos as int, root);
            assert(roots@.subrange(0, t + 1) =~= roots@.subrange(0, t as int).push(root));
            vstd::seq_lib::to_multiset_build(roots@.subrange(0, t as int), root);
            assert forall|k: int| 0 <= k < sorted@.len() implies (#[trigger] sorted@[k])
                < groups@.len() by {
                if k < pos {
                } else if k > pos {
                    assert(sorted@[k - 1 + 1] == before[k - 1]);
                }
            }
            assert forall|k: int, l: int| 0 <= k < l < sorted@.len() implies groups@[
                #[trigger] sorted@[k] as int].count >= groups@[#[trigger] sorted@[l] as int].count by {
                let from_k = if k < pos {
                    k
                } else {
                    k - 1
                };
                let from_l = if l < pos {
                    l
                } else {
                    l - 1
                };
                if k > pos {
                    assert(sorted@[from_k + 1] == before[from_k]);
                }
                if l > pos {
                    assert(sorted@[from_l + 1] == before[from_l]);
                }
                if k != pos && l != pos {
                    assert(groups@[before[from_k] as int].count >= groups@[before[from_l] as int].count);
                } else if k == pos {
                    assert(pos < t);
                    assert(groups@[before[pos as int] as int].count < count);
                    if from_l > pos {
                        assert(groups@[before[pos as int] as int].count
                            >= groups@[before[from_l] as int].count);
                    }
                }
            }
        }
        t += 1;
    }
    proof {
        assert(roots@.subrange(0, total as int) =~= roots@);
    }
    sorted
}

/// The marker over a tally that holds a point.
fn marker_from(tally: Tally, min_radius: u32) -> (marker: DiffMarker)
    requires
        tally.min_x <= tally.max_x,
        tally.min_y <= tally.max_y,
    ensures
        marker == marker_of(tally.extent(), min_radius as int),
{
    let pad: u64 = if min_radius > 200 {
        100
    } else {
        60
    };
    let least_radius: u64 = 2 * (min_radius as u64);
    let wide: u64 = (tally.max_x - tally.min_x) as u64 + 2 * pad;
    let tall: u64 = (tally.max_y - tally.min_y) as u64 + 2 * pad;
    let span: u64 = if wide >= tall {
        wide
    } else {
        tall
    };
    DiffMarker {
        twice_x: tally.min_x as u64 + tally.max_x as u64,
        twice_y: tally.min_y as u64 + tally.max_y as u64,
        twice_radius: if least_radius >= span {
            least_radius
        } else {
            span
        },
        count: tally.count,
    }
}

/// Some point of the tree of root `r`.
spec fn point_of_tree(
    points: Seq<DiffPixel>,
    home: Seq<int>,
    rep: Seq<int>,
    cells_len: int,
    r: int,
) -> int {
    choose|j: int| 0 <= j < points.len() && #[trigger] in_tree(home, rep, r, cells_len)(j)
}

/// Reduces a cloud of differing pixels to markers.
///
/// The points are bucketed into grid cells of `grid_size` by `grid_size`
/// pixels; cells that touch, diagonally too, are joined into clusters; each
/// cluster of at least `min_cluster` points yields one marker over its
/// bounding box; the markers come by descending count.
pub fn cluster_markers(
    pixels: &[DiffPixel],
    grid_size: u32,
    min_cluster: usize,
    min_radius: u32,
) -> (markers: Vec<DiffMarker>)
    requires
        grid_size > 0,
    ensures
        clusters_to(
            pixels@,
            grid_size as int,
            min_cluster as int,
            min_radius as int,
            markers@,
        ),
{
    let ghost points = pixels@;
    let ghost g = grid_size as int;
    let ghost n = points.len() as int;
    let total: usize = pixels.len();
    let (cells, Ghost(home)) = bucket_points(pixels, grid_size);
    let mut forest: Forest = link_cells(&cells);
    let ghost rep = forest.rep@;
    let groups: Vec<Tally> = tally_trees(&cells, &mut forest, Ghost(points), Ghost(g), Ghost(home));
    let roots: Vec<usize> = pick_roots(&groups, min_cluster);
    let sorted: Vec<usize> = sort_roots(&roots, &groups);
    let ghost m = cells@.len() as int;
    let ghost reps = Seq::new(
        sorted@.len(),
        |k: int| point_of_tree(points, home, rep, m, sorted@[k] as int),
    );
    proof {
        roots@.lemma_multiset_has_no_duplicates();
        sorted@.lemma_multiset_has_no_duplicates_conv();
        assert forall|k: int| 0 <= k < sorted@.len() implies {
            &&& roots@.contains(#[trigger] sorted@[k])
            &&& is_kept(groups@, min_cluster as int, sorted@[k] as int)
            &&& 0 <= reps[k] < n
            &&& rep[home[reps[k]]] == sorted@[k]
            &&& cluster_extent(points, g, reps[k]) == groups@[sorted@[k] as int].extent()
        } by {
            let r = sorted@[k];
            assert(sorted@.contains(r));
            vstd::seq_lib::to_multiset_contains(sorted@, r);
            vstd::seq_lib::to_multiset_contains(roots@, r);
            let at = choose|at: int| 0 <= at < roots@.len() && roots@[at] == r;
            assert(is_kept(groups@, min_cluster as int, roots@[at] as int));
            let pick = in_tree(home, rep, r as int, m);
            assert(groups@[r as int].extent() == gather(points, pick, n));
            let w = lemma_gather_witness(points, pick, n);
            assert(pick(w));
            assert(pick(reps[k]));
            lemma_tree_extent(points, g, cells@, home, rep, reps[k]);
        }
    }
    let mut markers: Vec<DiffMarker> = Vec::new();
    let mut k: usize = 0;
    while k < sorted.len()
        invariant
            k <= sorted@.len(),
            markers@.len() == k,
            n == points.len(),
            reps.len() == sorted@.len(),
            by_count(groups@, sorted@),
            forall|q: int| 0 <= q < sorted@.len() ==> (#[trigger] sorted@[q]) < groups@.len(),
            forall|q: int|
                0 <= q < sorted@.len() ==> {
                    &&& is_kept(groups@, min_cluster as int, #[trigger] sorted@[q] as int)
                    &&& 0 <= reps[q] < n
                    &&& cluster_extent(points, g, reps[q]) == groups@[sorted@[q] as int].extent()
                },
            forall|q: int|
                0 <= q < k ==> {
                    &&& (#[trigger] markers@[q]) == marker_of(
                        cluster_extent(points, g, reps[q]),
                        min_radius as int,
                    )
                    &&& markers@[q].count == groups@[sorted@[q] as int].count
                },
        decreases sorted@.len() - k,
    {
        let tally: Tally = groups[sorted[k]];
        proof {
            assert(is_kept(groups@, min_cluster as int, sorted@[k as int] as int));
            let pick = in_cluster(points, g, reps[k as int]);
            lemma_same_cluster_equivalence(
                points,
                g,
                reps[k as int],
                reps[k as int],
                reps[k as int],
            );
            lemma_gather_bounds(points, pick, n, reps[k as int]);
        }
        let marker: DiffMarker = marker_from(tally, min_radius);
        markers.push(marker);
        k += 1;
    }
    proof {
        assert forall|a: int, b: int| 0 <= a < b < reps.len() implies !same_cluster(
            points,
            g,
            #[trigger] reps[a],
            #[trigger] reps[b],
        ) by {
            assert(roots@.contains(sorted@[a]));
            assert(roots@.contains(sorted@[b]));
            assert(sorted@[a] != sorted@[b]);
            lemma_tree_is_cluster(points, g, cells@, home, rep, reps[a], reps[b]);
        }
        assert forall|i: int|
            0 <= i < points.len() && cluster_extent(points, g, i).count
                >= min_cluster implies exists|q: int|
            0 <= q < reps.len() && same_cluster(points, g, #[trigger] reps[q], i) by {
            lemma_tree_extent(points, g, cells@, home, rep, i);
            let r = rep[home[i]];
            assert(0 <= home[i] < m);
            assert(node_ok(forest.parent@, rep, forest.rank@, forest.bound@, home[i]));
            assert(groups@[r].extent() == cluster_extent(points, g, i));
            assert(is_kept(groups@, min_cluster as int, r));
            assert(roots@.contains(r as usize));
            vstd::seq_lib::to_multiset_contains(sorted@, r as usize);
            vstd::seq_lib::to_multiset_contains(roots@, r as usize);
            assert(sorted@.contains(r as usize));
            let q = choose|q: int| 0 <= q < sorted@.len() && sorted@[q] == r as usize;
            assert(roots@.contains(sorted@[q]));
            lemma_tree_is_cluster(points, g, cells@, home, rep, reps[q], i);
            assert(same_cluster(points, g, reps[q], i));
        }
        assert(is_clustering(points, g, min_cluster as int, min_radius as int, markers@, reps));
        assert forall|a: int, b: int|
            0 <= a < b < markers@.len() implies (#[trigger] markers@[a]).count
            >= (#[trigger] markers@[b]).count by {
            assert(groups@[sorted@[a] as int].count >= groups@[sorted@[b] as int].count);
        }
    }
    markers
}

/// The sum of the counts of the first `upto` markers.
pub open spec fn count_sum(markers: Seq<DiffMarker>, upto: int) -> int
    decreases upto,
{
    if upto <= 0 {
        0
    } else {
        count_sum(markers, upto - 1) + markers[upto - 1].count
    }
}

/// How many of the first `scanned` points lie in the clusters of the first
/// `upto` of the points `reps`, summed over those clusters.
spec fn picked_total(points: Seq<DiffPixel>, g: int, reps: Seq<int>, upto: int, scanned: int) -> int
    decreases upto,
{
    if upto <= 0 {
        0
    } else {
        picked_total(points, g, reps, upto - 1, scanned) + gather(
            points,
            in_cluster(points, g, reps[upto - 1]),
            scanned,
        ).count
    }
}

/// Whether point `j` lies in the cluster of one of the first `upto` of the
/// points `reps`.
spec fn is_picked(points: Seq<DiffPixel>, g: int, reps: Seq<int>, upto: int, j: int) -> bool {
    exists|k: int| 0 <= k < upto && same_cluster(points, g, #[trigger] reps[k], j)
}

/// Scanning one more point raises the total of clusters that are apart by
/// one where the point lies in one of them, and not at all where it lies in
/// none.
proof fn lemma_picked_step(points: Seq<DiffPixel>, g: int, reps: Seq<int>, upto: int, j: int)
    requires
        0 <= upto <= reps.len(),
        0 <= j,
        forall|k: int, l: int|
            0 <= k < l < reps.len() ==> !same_cluster(
                points,
                g,
                #[trigger] reps[k],
                #[trigger] reps[l],
            ),
    ensures
        picked_total(points, g, reps, upto, j + 1) == picked_total(points, g, reps, upto, j) + (
        if is_picked(points, g, reps, upto, j) {
            1int
        } else {
            0int
        }),
    decreases upto,
{
    if upto > 0 {
        lemma_picked_step(points, g, reps, upto - 1, j);
        let last = reps[upto - 1];
        if same_cluster(points, g, last, j) {
            if is_picked(points, g, reps, upto - 1, j) {
                let k = choose|k: int|
                    0 <= k < upto - 1 && same_cluster(points, g, #[trigger] reps[k], j);
                lemma_same_cluster_equivalence(points, g, last, j, reps[k]);
                lemma_same_cluster_equivalence(points, g, reps[k], j, last);
                assert(same_cluster(points, g, reps[k], reps[upto - 1]));
                assert(false);
            }
            assert(is_picked(points, g, reps, upto, j));
        } else {
            if is_picked(points, g, reps, upto, j) {
                let k = choose|k: int|
                    0 <= k < upto && same_cluster(points, g, #[trigger] reps[k], j);
                assert(k < upto - 1);
                assert(is_picked(points, g, reps, upto - 1, j));
            }
            if is_picked(points, g, reps, upto - 1, j) {
                let k = choose|k: int|
                    0 <= k < upto - 1 && same_cluster(points, g, #[trigger] reps[k], j);
                assert(is_picked(points, g, reps, upto, j));
            }
        }
    }
}

/// Clusters that are apart hold no more points than were scanned.
proof fn lemma_picked_total(points: Seq<DiffPixel>, g: int, reps: Seq<int>, scanned: int)
    requires
        0 <= scanned,
        forall|k: int, l: int|
            0 <= k < l < reps.len() ==> !same_cluster(
                points,
                g,
                #[trigger] reps[k],
                #[trigger] reps[l],
            ),
    ensures
        picked_total(points, g, reps, reps.len() as int, scanned) <= scanned,
    decreases scanned,
{
    if scanned > 0 {
        lemma_picked_total(points, g, reps, scanned - 1);
        lemma_picked_step(points, g, reps, reps.len() as int, scanned - 1);
    } else {
        lemma_picked_none(points, g, reps, reps.len() as int);
    }
}

/// Before any point is scanned every total is zero.
proof fn lemma_picked_none(points: Seq<DiffPixel>, g: int, reps: Seq<int>, upto: int)
    ensures
        picked_total(points, g, reps, upto, 0) == 0,
    decreases upto,
{
    if upto > 0 {
        lemma_picked_none(points, g, reps, upto - 1);
    }
}

/// The counts of the first `upto` markers are the totals of their clusters.
proof fn lemma_count_sum_is_total(
    points: Seq<DiffPixel>,
    g: int,
    min_cluster: int,
    min_radius: int,
    markers: Seq<DiffMarker>,
    reps: Seq<int>,
    upto: int,
)
    requires
        is_clustering(points, g, min_cluster, min_radius, markers, reps),
        points.len() <= usize::MAX,
        0 <= upto <= markers.len(),
    ensures
        count_sum(markers, upto) == picked_total(points, g, reps, upto, points.len() as int),
    decreases upto,
{
    if upto > 0 {
        lemma_count_sum_is_total(points, g, min_cluster, min_radius, markers, reps, upto - 1);
        let rep = reps[upto - 1];
        lemma_gather_bounds(points, in_cluster(points, g, rep), points.len() as int, 0);
        assert(markers[upto - 1] == marker_of(cluster_extent(points, g, rep), min_radius));
    }
}

/// Marker counts: the counts of all markers together do not exceed the
/// number of points.
pub proof fn lemma_marker_counts(
    points: Seq<DiffPixel>,
    g: int,
    min_cluster: int,
    min_radius: int,
    markers: Seq<DiffMarker>,
)
    requires
        clusters_to(points, g, min_cluster, min_radius, markers),
        points.len() <= usize::MAX,
    ensures
        count_sum(markers, markers.len() as int) <= points.len(),
{
    let reps = choose|reps: Seq<int>| #[trigger]
        is_clustering(points, g, min_cluster, min_radius, markers, reps);
    lemma_count_sum_is_total(
        points,
        g,
        min_cluster,
        min_radius,
        markers,
        reps,
        markers.len() as int,
    );
    lemma_clusters_apart(points, g, min_cluster, min_radius, markers, reps);
    lemma_picked_total(points, g, reps, points.len() as int);
}

/// The points that stand for the markers lie in clusters that are apart.
proof fn lemma_clusters_apart(
    points: Seq<DiffPixel>,
    g: int,
    min_cluster: int,
    min_radius: int,
    markers: Seq<DiffMarker>,
    reps: Seq<int>,
)
    requires
        is_clustering(points, g, min_cluster, min_radius, markers, reps),
    ensures
        forall|k: int, l: int|
            0 <= k < l < reps.len() ==> !same_cluster(
                points,
                g,
                #[trigger] reps[k],
                #[trigger] reps[l],
            ),
{
}

/// Marker cover: every point of the cluster of point `i` lies in the
/// square around the centre of the marker of that cluster whose half side
/// is the radius less the padding.  In twice the pixels:
/// `|2 x - twice_x| + 2 padding <= twice_radius`, and so for `y`.
pub proof fn lemma_marker_covers(
    points: Seq<DiffPixel>,
    g: int,
    min_radius: int,
    i: int,
    j: int,
)
    requires
        0 <= i < points.len(),
        0 <= j < points.len(),
        0 <= min_radius <= u32::MAX,
        same_cluster(points, g, i, j),
    ensures
        ({
            let marker = marker_of(cluster_extent(points, g, i), min_radius);
            let pad = 2 * padding(min_radius);
            &&& -(marker.twice_radius - pad) <= 2 * points[j].x - marker.twice_x
                <= marker.twice_radius - pad
            &&& -(marker.twice_radius - pad) <= 2 * points[j].y - marker.twice_y
                <= marker.twice_radius - pad
        }),
{
    lemma_gather_bounds(points, in_cluster(points, g, i), points.len() as int, j);
}

/// Marker containment: where the bounding box of a cluster is no longer
/// across than the marker of the cluster is wide, every point of the
/// cluster, and so at least one, lies in the circle of the marker.  In
/// twice the pixels: `(2 x - twice_x)^2 + (2 y - twice_y)^2 <=
/// twice_radius^2`.
pub proof fn lemma_marker_contains(
    points: Seq<DiffPixel>,
    g: int,
    min_radius: int,
    i: int,
    j: int,
)
    requires
        0 <= i < points.len(),
        0 <= j < points.len(),
        0 <= min_radius <= u32::MAX,
        same_cluster(points, g, i, j),
        ({
            let e = cluster_extent(points, g, i);
            let marker = marker_of(e, min_radius);
            (e.max_x - e.min_x) * (e.max_x - e.min_x) + (e.max_y - e.min_y) * (e.max_y - e.min_y)
                <= marker.twice_radius * marker.twice_radius
        }),
    ensures
        ({
            let marker = marker_of(cluster_extent(points, g, i), min_radius);
            let dx = 2 * points[j].x - marker.twice_x;
            let dy = 2 * points[j].y - marker.twice_y;
            dx * dx + dy * dy <= marker.twice_radius * marker.twice_radius
        }),
{
    lemma_gather_bounds(points, in_cluster(points, g, i), points.len() as int, j);
    let e = cluster_extent(points, g, i);
    let marker = marker_of(e, min_radius);
    let dx = 2 * points[j].x - marker.twice_x;
    let dy = 2 * points[j].y - marker.twice_y;
    let across = e.max_x - e.min_x;
    let down = e.max_y - e.min_y;
    assert(dx * dx <= across * across) by (nonlinear_arith)
        requires
            -across <= dx <= across,
    ;
    assert(dy * dy <= down * down) by (nonlinear_arith)
        requires
            -down <= dy <= down,
    ;
}

/// Points whose cells touch belong to one cluster, and so do points of one
/// cell.
pub proof fn lemma_near_same_cluster(points: Seq<DiffPixel>, g: int, i: int, j: int)
    requires
        0 <= i < points.len(),
        0 <= j < points.len(),
        near(points, g, i, j),
    ensures
        same_cluster(points, g, i, j),
{
}

/// Whether the grid cell `(x, y)` holds a point of the cluster of point `i`.
spec fn holds_cluster(points: Seq<DiffPixel>, g: int, i: int, x: int, y: int) -> bool {
    exists|j: int|
        0 <= j < points.len() && #[trigger] same_cluster(points, g, i, j) && cell_x(points[j], g)
            == x && cell_y(points[j], g) == y
}

/// The labelling that tells the cells of the cluster of point `i` left of
/// grid column `k` from its other cells, and both from every other cell.
spec fn column_sides(points: Seq<DiffPixel>, g: int, i: int, k: int) -> spec_fn(int, int) -> int {
    |x: int, y: int|
        if holds_cluster(points, g, i, x, y) {
            if x < k {
                1int
            } else {
                2int
            }
        } else {
            0int
        }
}

/// The labelling that tells the cells of the cluster of point `i` above
/// grid row `k` from its other cells, and both from every other cell.
spec fn row_sides(points: Seq<DiffPixel>, g: int, i: int, k: int) -> spec_fn(int, int) -> int {
    |x: int, y: int|
        if holds_cluster(points, g, i, x, y) {
            if y < k {
                1int
            } else {
                2int
            }
        } else {
            0int
        }
}

/// A point lies in a cell of the cluster of point `i` exactly when it
/// belongs to that cluster.
proof fn lemma_holds_cluster(points: Seq<DiffPixel>, g: int, i: int, p: int)
    requires
        0 <= p < points.len(),
    ensures
        holds_cluster(points, g, i, cell_x(points[p], g), cell_y(points[p], g)) == same_cluster(
            points,
            g,
            i,
            p,
        ),
{
    let x = cell_x(points[p], g);
    let y = cell_y(points[p], g);
    if holds_cluster(points, g, i, x, y) {
        let j = choose|j: int|
            0 <= j < points.len() && #[trigger] same_cluster(points, g, i, j) && cell_x(
                points[j],
                g,
            ) == x && cell_y(points[j], g) == y;
        assert(near(points, g, j, p));
        lemma_near_same_cluster(points, g, j, p);
        lemma_same_cluster_equivalence(points, g, i, j, p);
    }
}

/// A cluster has no gap among its grid columns: between the columns of two
/// of its points every column holds one of its points.
pub proof fn lemma_cluster_spans_columns(
    points: Seq<DiffPixel>,
    g: int,
    i: int,
    a: int,
    b: int,
    k: int,
) -> (j: int)
    requires
        0 <= a < points.len(),
        0 <= b < points.len(),
        same_cluster(points, g, i, a),
        same_cluster(points, g, i, b),
        cell_x(points[a], g) <= k <= cell_x(points[b], g),
    ensures
        0 <= j < points.len(),
        same_cluster(points, g, i, j),
        cell_x(points[j], g) == k,
{
    if exists|j: int|
        0 <= j < points.len() && #[trigger] same_cluster(points, g, i, j) && cell_x(points[j], g)
            == k {
        choose|j: int|
            0 <= j < points.len() && #[trigger] same_cluster(points, g, i, j) && cell_x(
                points[j],
                g,
            ) == k
    } else {
        let lab = column_sides(points, g, i, k);
        assert forall|p: int, q: int|
            0 <= p < points.len() && 0 <= q < points.len() && #[trigger] near(
                points,
                g,
                p,
                q,
            ) implies label_of(points, g, lab, p) == label_of(points, g, lab, q) by {
            lemma_near_same_cluster(points, g, p, q);
            lemma_holds_cluster(points, g, i, p);
            lemma_holds_cluster(points, g, i, q);
            lemma_same_cluster_equivalence(points, g, i, p, q);
            lemma_same_cluster_equivalence(points, g, p, q, p);
            lemma_same_cluster_equivalence(points, g, i, q, p);
            if same_cluster(points, g, i, p) {
                assert(same_cluster(points, g, i, q));
                assert(cell_x(points[p], g) != k);
                assert(cell_x(points[q], g) != k);
            }
        }
        assert(keeps_neighbours(points, g, lab));
        lemma_same_cluster_equivalence(points, g, i, a, i);
        lemma_same_cluster_equivalence(points, g, a, i, b);
        assert(same_cluster(points, g, a, b));
        assert(label_of(points, g, lab, a) == label_of(points, g, lab, b));
        lemma_holds_cluster(points, g, i, a);
        lemma_holds_cluster(points, g, i, b);
        assert(cell_x(points[a], g) != k);
        assert(cell_x(points[b], g) != k);
        assert(false);
        0
    }
}

/// A cluster has no gap among its grid rows: between the rows of two of its
/// points every row holds one of its points.
pub proof fn lemma_cluster_spans_rows(
    points: Seq<DiffPixel>,
    g: int,
    i: int,
    a: int,
    b: int,
    k: int,
) -> (j: int)
    requires
        0 <= a < points.len(),
        0 <= b < points.len(),
        same_cluster(points, g, i, a),
        same_cluster(points, g, i, b),
        cell_y(points[a], g) <= k <= cell_y(points[b], g),
    ensures
        0 <= j < points.len(),
        same_cluster(points, g, i, j),
        cell_y(points[j], g) == k,
{
    if exists|j: int|
        0 <= j < points.len() && #[trigger] same_cluster(points, g, i, j) && cell_y(points[j], g)
            == k {
        choose|j: int|
            0 <= j < points.len() && #[trigger] same_cluster(points, g, i, j) && cell_y(
                points[j],
                g,
            ) == k
    } else {
        let lab = row_sides(points, g, i, k);
        assert forall|p: int, q: int|
            0 <= p < points.len() && 0 <= q < points.len() && #[trigger] near(
                points,
                g,
                p,
                q,
            ) implies label_of(points, g, lab, p) == label_of(points, g, lab, q) by {
            lemma_near_same_cluster(points, g, p, q);
            lemma_holds_cluster(points, g, i, p);
            lemma_holds_cluster(points, g, i, q);
            lemma_same_cluster_equivalence(points, g, i, p, q);
            lemma_same_cluster_equivalence(points, g, p, q, p);
            lemma_same_cluster_equivalence(points, g, i, q, p);
            if same_cluster(points, g, i, p) {
                assert(same_cluster(points, g, i, q));
                assert(cell_y(points[p], g) != k);
                assert(cell_y(points[q], g) != k);
            }
        }
        assert(keeps_neighbours(points, g, lab));
        lemma_same_cluster_equivalence(points, g, i, a, i);
        lemma_same_cluster_equivalence(points, g, a, i, b);
        assert(same_cluster(points, g, a, b));
        assert(label_of(points, g, lab, a) == label_of(points, g, lab, b));
        lemma_holds_cluster(points, g, i, a);
        lemma_holds_cluster(points, g, i, b);
        assert(cell_y(points[a], g) != k);
        assert(cell_y(points[b], g) != k);
        assert(false);
        0
    }
}

/// An extent that counts no point is the extent of no pixel.
proof fn lemma_gather_empty(points: Seq<DiffPixel>, pick: spec_fn(int) -> bool, upto: int)
    requires
        0 <= upto <= points.len(),
        gather(points, pick, upto).count == 0,
    ensures
        gather(points, pick, upto) == no_extent(),
    decreases upto,
{
    if upto > 0 {
        lemma_gather_bounds(points, pick, upto - 1, 0);
        lemma_gather_empty(points, pick, upto - 1);
    }
}

/// The corners of an extent that counts a point are coordinates of picked
/// points: the four results are points that lie on the left, right, upper
/// and lower side of the bounding box.
pub proof fn lemma_gather_attains(
    points: Seq<DiffPixel>,
    pick: spec_fn(int) -> bool,
    upto: int,
) -> (r: (int, int, int, int))
    requires
        0 <= upto <= points.len(),
        gather(points, pick, upto).count >= 1,
    ensures
        0 <= r.0 < upto && pick(r.0) && points[r.0].x == gather(points, pick, upto).min_x,
        0 <= r.1 < upto && pick(r.1) && points[r.1].x == gather(points, pick, upto).max_x,
        0 <= r.2 < upto && pick(r.2) && points[r.2].y == gather(points, pick, upto).min_y,
        0 <= r.3 < upto && pick(r.3) && points[r.3].y == gather(points, pick, upto).max_y,
    decreases upto,
{
    let last = upto - 1;
    lemma_gather_bounds(points, pick, upto - 1, 0);
    if !pick(last) {
        lemma_gather_attains(points, pick, upto - 1)
    } else if gather(points, pick, upto - 1).count < 1 {
        lemma_gather_empty(points, pick, upto - 1);
        (last, last, last, last)
    } else {
        let before = gather(points, pick, upto - 1);
        let r = lemma_gather_attains(points, pick, upto - 1);
        (
            if points[last].x <= before.min_x {
                last
            } else {
                r.0
            },
            if points[last].x >= before.max_x {
                last
            } else {
                r.1
            },
            if points[last].y <= before.min_y {
                last
            } else {
                r.2
            },
            if points[last].y >= before.max_y {
                last
            } else {
                r.3
            },
        )
    }
}

/// Two coordinates of one grid line, the second the rounded-down half of
/// `twice`, are less than a cell apart: `|2 x - twice| <= 2 g - 1`.
proof fn lemma_same_line_is_close(g: int, x: int, twice: int)
    requires
        g >= 1,
        0 <= x,
        0 <= twice,
        x / g == (twice / 2) / g,
    ensures
        -(2 * g - 1) <= 2 * x - twice <= 2 * g - 1,
{
    let c = twice / 2;
    let k = x / g;
    vstd::arithmetic::div_mod::lemma_fundamental_div_mod(x, g);
    vstd::arithmetic::div_mod::lemma_fundamental_div_mod(c, g);
    vstd::arithmetic::div_mod::lemma_mod_bound(x, g);
    vstd::arithmetic::div_mod::lemma_mod_bound(c, g);
    assert(x == g * k + x % g);
    assert(c == g * k + c % g);
    assert(2 * c <= twice <= 2 * c + 1);
}

/// Whether a marker of radius `twice_radius / 2` over a bounding box of
/// `across` by `down` pixels, on a grid of cells of `g` pixels, is known to
/// hold a point of its cluster: the box is no longer across than the
/// marker, or a cell and the shorter side of the box together are.
pub open spec fn circle_reaches(g: int, across: int, down: int, twice_radius: int) -> bool {
    ||| across * across + down * down <= twice_radius * twice_radius
    ||| (2 * g - 1) * (2 * g - 1) + down * down <= twice_radius * twice_radius
    ||| (2 * g - 1) * (2 * g - 1) + across * across <= twice_radius * twice_radius
}

/// Marker containment: the circle of the marker of a cluster holds a point
/// of the cluster wherever `circle_reaches` holds of the bounding box.  A
/// cluster has a point in the grid column, and one in the grid row, of the
/// centre of its box; such a point is less than a cell from the centre on
/// one axis and no more than half the box on the other.  The result is the
/// point; in twice the pixels it meets
/// `(2 x - twice_x)^2 + (2 y - twice_y)^2 <= twice_radius^2`.
pub proof fn lemma_marker_holds_point(
    points: Seq<DiffPixel>,
    g: int,
    min_radius: int,
    i: int,
) -> (j: int)
    requires
        0 <= i < points.len(),
        g >= 1,
        0 <= min_radius <= u32::MAX,
        ({
            let e = cluster_extent(points, g, i);
            circle_reaches(
                g,
                e.max_x - e.min_x,
                e.max_y - e.min_y,
                marker_of(e, min_radius).twice_radius as int,
            )
        }),
    ensures
        0 <= j < points.len(),
        same_cluster(points, g, i, j),
        ({
            let marker = marker_of(cluster_extent(points, g, i), min_radius);
            let dx = 2 * points[j].x - marker.twice_x;
            let dy = 2 * points[j].y - marker.twice_y;
            dx * dx + dy * dy <= marker.twice_radius * marker.twice_radius
        }),
{
    let n = points.len() as int;
    let e = cluster_extent(points, g, i);
    let marker = marker_of(e, min_radius);
    let pick = in_cluster(points, g, i);
    let across = e.max_x - e.min_x;
    let down = e.max_y - e.min_y;
    let reach = 2 * g - 1;
    lemma_same_cluster_equivalence(points, g, i, i, i);
    lemma_gather_bounds(points, pick, n, i);
    let sides = lemma_gather_attains(points, pick, n);
    if across * across + down * down <= marker.twice_radius * marker.twice_radius {
        lemma_marker_contains(points, g, min_radius, i, i);
        i
    } else if reach * reach + down * down <= marker.twice_radius * marker.twice_radius {
        let centre = (e.min_x + e.max_x) / 2;
        let k = centre / g;
        vstd::arithmetic::div_mod::lemma_div_is_ordered(e.min_x, centre, g);
        vstd::arithmetic::div_mod::lemma_div_is_ordered(centre, e.max_x, g);
        let j = lemma_cluster_spans_columns(points, g, i, sides.0, sides.1, k);
        lemma_gather_bounds(points, pick, n, j);
        lemma_same_line_is_close(g, points[j].x as int, e.min_x + e.max_x);
        let dx = 2 * points[j].x - marker.twice_x;
        let dy = 2 * points[j].y - marker.twice_y;
        assert(dx * dx <= reach * reach) by (nonlinear_arith)
            requires
                -reach <= dx <= reach,
        ;
        assert(dy * dy <= down * down) by (nonlinear_arith)
            requires
                -down <= dy <= down,
        ;
        j
    } else {
        let centre = (e.min_y + e.max_y) / 2;
        let k = centre / g;
        vstd::arithmetic::div_mod::lemma_div_is_ordered(e.min_y, centre, g);
        vstd::arithmetic::div_mod::lemma_div_is_ordered(centre, e.max_y, g);
        let j = lemma_cluster_spans_rows(points, g, i, sides.2, sides.3, k);
        lemma_gather_bounds(points, pick, n, j);
        lemma_same_line_is_close(g, points[j].y as int, e.min_y + e.max_y);
        let dx = 2 * points[j].x - marker.twice_x;
        let dy = 2 * points[j].y - marker.twice_y;
        assert(dy * dy <= reach * reach) by (nonlinear_arith)
            requires
                -reach <= dy <= reach,
        ;
        assert(dx * dx <= across * across) by (nonlinear_arith)
            requires
                -across <= dx <= across,
        ;
        j
    }
}

/// Padding that makes up for a cell: where `g^2 <= pad * (side + pad)` for
/// a side of the bounding box and the padding `pad` of the marker, the
/// circle reaches.
pub proof fn lemma_padding_reaches(points: Seq<DiffPixel>, g: int, min_radius: int, i: int)
    requires
        0 <= i < points.len(),
        g >= 1,
        0 <= min_radius <= u32::MAX,
        ({
            let e = cluster_extent(points, g, i);
            let pad = padding(min_radius);
            ||| g * g <= pad * (e.max_y - e.min_y + pad)
            ||| g * g <= pad * (e.max_x - e.min_x + pad)
        }),
    ensures
        ({
            let e = cluster_extent(points, g, i);
            circle_reaches(
                g,
                e.max_x - e.min_x,
                e.max_y - e.min_y,
                marker_of(e, min_radius).twice_radius as int,
            )
        }),
{
    let e = cluster_extent(points, g, i);
    let pad = padding(min_radius);
    let across = e.max_x - e.min_x;
    let down = e.max_y - e.min_y;
    let radius = marker_of(e, min_radius).twice_radius as int;
    lemma_same_cluster_equivalence(points, g, i, i, i);
    lemma_gather_bounds(points, in_cluster(points, g, i), points.len() as int, i);
    if g * g <= pad * (down + pad) {
        assert((2 * g - 1) * (2 * g - 1) + down * down <= radius * radius) by (nonlinear_arith)
            requires
                g >= 1,
                0 <= down,
                0 <= pad,
                g * g <= pad * (down + pad),
                radius >= down + 2 * pad,
        ;
    } else {
        assert((2 * g - 1) * (2 * g - 1) + across * across <= radius * radius)
            by (nonlinear_arith)
            requires
                g >= 1,
                0 <= across,
                0 <= pad,
                g * g <= pad * (across + pad),
                radius >= across + 2 * pad,
        ;
    }
}

/// Marker containment under the sharp preset: with cells of 200 pixels and
/// a minimum radius of 300 the circle of every marker holds a point of its
/// cluster.
pub proof fn lemma_sharp_marker_holds_point(points: Seq<DiffPixel>, i: int) -> (j: int)
    requires
        0 <= i < points.len(),
    ensures
        0 <= j < points.len(),
        same_cluster(points, 200, i, j),
        ({
            let marker = marker_of(cluster_extent(points, 200, i), 300);
            let dx = 2 * points[j].x - marker.twice_x;
            let dy = 2 * points[j].y - marker.twice_y;
            dx * dx + dy * dy <= marker.twice_radius * marker.twice_radius
        }),
{
    let e = cluster_extent(points, 200, i);
    let down = e.max_y - e.min_y;
    let radius = marker_of(e, 300).twice_radius as int;
    lemma_same_cluster_equivalence(points, 200, i, i, i);
    lemma_gather_bounds(points, in_cluster(points, 200, i), points.len() as int, i);
    assert(399 * 399 + down * down <= radius * radius) by (nonlinear_arith)
        requires
            0 <= down,
            radius >= 600,
            radius >= down + 200,
    ;
    lemma_marker_holds_point(points, 200, 300, i)
}

/// Where every scanned point is picked, every scanned point is counted.
proof fn lemma_gather_all(points: Seq<DiffPixel>, pick: spec_fn(int) -> bool, upto: int)
    requires
        0 <= upto,
        forall|j: int| 0 <= j < upto ==> #[trigger] pick(j),
    ensures
        gather(points, pick, upto).count == upto,
    decreases upto,
{
    if upto > 0 {
        lemma_gather_all(points, pick, upto - 1);
    }
}

/// Whether the cells of all points touch one another.
pub open spec fn all_near(points: Seq<DiffPixel>, g: int) -> bool {
    forall|i: int, j: int|
        0 <= i < points.len() && 0 <= j < points.len() ==> #[trigger] near(points, g, i, j)
}

/// Where the cells of all points touch one another, the cluster of each
/// point is the whole cloud.
proof fn lemma_whole_cloud(points: Seq<DiffPixel>, g: int, i: int)
    requires
        all_near(points, g),
        0 <= i < points.len(),
    ensures
        cluster_extent(points, g, i).count == points.len(),
        cluster_extent(points, g, i) == cluster_extent(points, g, 0),
{
    let n = points.len() as int;
    let mine = in_cluster(points, g, i);
    let first = in_cluster(points, g, 0);
    assert forall|j: int| 0 <= j < n implies #[trigger] mine(j) && first(j) by {
        assert(near(points, g, i, j));
        assert(near(points, g, 0, j));
        lemma_near_same_cluster(points, g, i, j);
        lemma_near_same_cluster(points, g, 0, j);
    }
    assert forall|j: int| 0 <= j < n implies #[trigger] mine(j) == first(j) by {
        assert(mine(j) && first(j));
    }
    lemma_gather_all(points, mine, n);
    lemma_gather_agree(points, mine, first, n);
}

/// One cluster, one marker, for given points that stand for the markers.
proof fn lemma_one_marker(
    points: Seq<DiffPixel>,
    g: int,
    min_cluster: int,
    min_radius: int,
    markers: Seq<DiffMarker>,
    reps: Seq<int>,
)
    requires
        is_clustering(points, g, min_cluster, min_radius, markers, reps),
        1 <= points.len() <= usize::MAX,
        min_cluster <= points.len(),
        all_near(points, g),
    ensures
        markers.len() == 1,
        markers[0] == marker_of(cluster_extent(points, g, 0), min_radius),
        markers[0].count == points.len(),
{
    lemma_whole_cloud(points, g, 0);
    lemma_some_marker(points, g, min_cluster, min_radius, markers, reps, 0);
    lemma_marker_has_point(points, g, min_cluster, min_radius, markers, reps, 0);
    lemma_marker_is_of_cluster(points, g, min_cluster, min_radius, markers, reps, 0);
    lemma_whole_cloud(points, g, reps[0]);
    if markers.len() >= 2 {
        lemma_marker_has_point(points, g, min_cluster, min_radius, markers, reps, 1);
        assert(near(points, g, reps[0], reps[1]));
        lemma_near_same_cluster(points, g, reps[0], reps[1]);
        lemma_markers_apart(points, g, min_cluster, min_radius, markers, reps, 0, 1);
    }
}

/// Two markers stand for clusters that are apart.
proof fn lemma_markers_apart(
    points: Seq<DiffPixel>,
    g: int,
    min_cluster: int,
    min_radius: int,
    markers: Seq<DiffMarker>,
    reps: Seq<int>,
    k: int,
    l: int,
)
    requires
        is_clustering(points, g, min_cluster, min_radius, markers, reps),
        0 <= k < l < markers.len(),
    ensures
        !same_cluster(points, g, reps[k], reps[l]),
{
}

/// One cluster, one marker: where the cells of all points touch one
/// another and the points are enough for a cluster, there is exactly one
/// marker, and it counts every point.
pub proof fn lemma_touching_points_one_marker(
    points: Seq<DiffPixel>,
    g: int,
    min_cluster: int,
    min_radius: int,
    markers: Seq<DiffMarker>,
)
    requires
        clusters_to(points, g, min_cluster, min_radius, markers),
        1 <= points.len() <= usize::MAX,
        min_cluster <= points.len(),
        all_near(points, g),
    ensures
        markers.len() == 1,
        markers[0] == marker_of(cluster_extent(points, g, 0), min_radius),
        markers[0].count == points.len(),
{
    let reps = choose|reps: Seq<int>| #[trigger]
        is_clustering(points, g, min_cluster, min_radius, markers, reps);
    lemma_one_marker(points, g, min_cluster, min_radius, markers, reps);
}

/// A cluster that holds enough points has a marker.
proof fn lemma_some_marker(
    points: Seq<DiffPixel>,
    g: int,
    min_cluster: int,
    min_radius: int,
    markers: Seq<DiffMarker>,
    reps: Seq<int>,
    i: int,
)
    requires
        is_clustering(points, g, min_cluster, min_radius, markers, reps),
        0 <= i < points.len(),
        cluster_extent(points, g, i).count >= min_cluster,
    ensures
        markers.len() >= 1,
{
}

/// A marker is the marker of the cluster of the point that stands for it.
proof fn lemma_marker_is_of_cluster(
    points: Seq<DiffPixel>,
    g: int,
    min_cluster: int,
    min_radius: int,
    markers: Seq<DiffMarker>,
    reps: Seq<int>,
    k: int,
)
    requires
        is_clustering(points, g, min_cluster, min_radius, markers, reps),
        0 <= k < markers.len(),
    ensures
        markers[k] == marker_of(cluster_extent(points, g, reps[k]), min_radius),
{
    assert(0 <= reps[k]);
}

} // verus!
