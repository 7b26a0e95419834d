//! Voxel occupancy grids and their decomposition into boxes and faces.
//!
//! Everything here is in grid units: a cell `(x, y, z)` spans
//! `[x, x + 1) x [y, y + 1) x [z, z + 1)`; callers scale by the voxel size
//! and shift by the grid origin.
use vstd::prelude::*;
use vstd::arithmetic::div_mod::lemma_fundamental_div_mod_converse;
use crate::ffi::Bool;

verus! {

/// A dense occupancy grid, x fastest, then y, then z; non-zero is solid.
pub struct VoxelGrid<'a> {
    pub voxels: &'a [u8],
    pub size_x: usize,
    pub size_y: usize,
    pub size_z: usize,
}

/// The grid holds exactly one byte per cell (and, as any slice of bytes,
/// at most `isize::MAX` of them).
pub open spec fn grid_wf(g: VoxelGrid) -> bool {
    &&& g.voxels@.len() == g.size_x * g.size_y * g.size_z
    &&& g.voxels@.len() <= isize::MAX
}

/// The position of cell `(x, y, z)` in the byte list.
pub open spec fn cell_index(g: VoxelGrid, x: int, y: int, z: int) -> int {
    z * g.size_y * g.size_x + y * g.size_x + x
}

/// `(x, y, z)` is a cell of the grid.
pub open spec fn in_grid(g: VoxelGrid, x: int, y: int, z: int) -> bool {
    0 <= x < g.size_x && 0 <= y < g.size_y && 0 <= z < g.size_z
}

/// Cell `(x, y, z)` is solid (meaningful inside the grid).
pub open spec fn solid(g: VoxelGrid, x: int, y: int, z: int) -> bool {
    g.voxels@[cell_index(g, x, y, z)] != 0
}

/// `(x, y, z)` is a solid cell of the grid; anything outside is empty.
pub open spec fn solid_at(g: VoxelGrid, x: int, y: int, z: int) -> bool {
    in_grid(g, x, y, z) && solid(g, x, y, z)
}

/// A cell of the grid has its byte in the list, at
/// `(z * size_y + y) * size_x + x`.
pub proof fn lemma_cell_index(g: VoxelGrid, x: int, y: int, z: int)
    requires
        grid_wf(g),
        in_grid(g, x, y, z),
    ensures
        0 <= cell_index(g, x, y, z) < g.voxels@.len(),
        cell_index(g, x, y, z) == (z * g.size_y + y) * g.size_x + x,
{
    let sx = g.size_x as int;
    let sy = g.size_y as int;
    let sz = g.size_z as int;
    assert(z * sy * sx + y * sx + x == (z * sy + y) * sx + x) by (nonlinear_arith);
    assert(0 <= (z * sy + y) * sx + x < sx * sy * sz) by (nonlinear_arith)
        requires
            0 <= x < sx,
            0 <= y < sy,
            0 <= z < sz,
    {
        assert(z * sy + y <= (sz - 1) * sy + (sy - 1));
        assert((z * sy + y) * sx + x <= ((sz - 1) * sy + (sy - 1)) * sx + (sx - 1));
        assert(((sz - 1) * sy + (sy - 1)) * sx + (sx - 1) == sx * sy * sz - 1);
    }
}

impl<'a> VoxelGrid<'a> {
    /// The position of cell `(x, y, z)` in the byte list.
    pub fn index(&self, x: usize, y: usize, z: usize) -> (r: usize)
        requires
            grid_wf(*self),
            in_grid(*self, x as int, y as int, z as int),
        ensures
            r as int == cell_index(*self, x as int, y as int, z as int),
            r < self.voxels@.len(),
    {
        let n = self.voxels.len();
        proof {
            lemma_cell_index(*self, x as int, y as int, z as int);
            let sx = self.size_x as int;
            let sy = self.size_y as int;
            assert(0 <= z * sy <= z * sy * sx) by (nonlinear_arith)
                requires
                    0 <= z,
                    1 <= sx,
                    0 <= sy,
            ;
            assert(z * sy * sx <= cell_index(*self, x as int, y as int, z as int));
            assert(0 <= y * sx) by (nonlinear_arith)
                requires
                    0 <= y,
                    0 <= sx,
            ;
            assert(z * sy * sx < n);
            assert(z * sy < n);
        }
        z * self.size_y * self.size_x + y * self.size_x + x
    }

    /// Whether cell `(x, y, z)` is solid.
    pub fn is_solid(&self, x: usize, y: usize, z: usize) -> (r: bool)
        requires
            grid_wf(*self),
            in_grid(*self, x as int, y as int, z as int),
        ensures
            r == solid(*self, x as int, y as int, z as int),
    {
        self.voxels[self.index(x, y, z)] != 0
    }

    /// Whether `(x, y, z)` is a solid cell; positions outside the grid are empty.
    pub fn is_solid_checked(&self, x: isize, y: isize, z: isize) -> (r: bool)
        requires
            grid_wf(*self),
        ensures
            r == solid_at(*self, x as int, y as int, z as int),
    {
        if x < 0 || y < 0 || z < 0 || x as usize >= self.size_x || y as usize >= self.size_y
            || z as usize >= self.size_z {
            return false;
        }
        self.is_solid(x as usize, y as usize, z as usize)
    }
}

/// How a voxel collider is put together.
#[derive(Clone, Copy, Debug, PartialEq, Eq, Structural)]
pub enum VoxelColliderMode {
    /// Chosen from the solid count and the body type.
    Auto,
    /// One box per solid cell.
    Cuboids,
    /// Solid cells merged into larger boxes.
    GreedyCuboids,
    /// A triangle mesh of the outer faces.
    SurfaceMesh,
}

#[derive(Clone, Copy, Debug, PartialEq, Eq, Structural)]
pub struct VoxelColliderOptions {
    pub mode: VoxelColliderMode,
    pub dynamic_body: Bool,
    pub small_voxel_limit: u32,
    pub mesh_voxel_limit: u32,
}

/// The mode `choose_mode` picks.
pub open spec fn chosen_mode(solid_count: int, options: VoxelColliderOptions) -> VoxelColliderMode {
    if options.mode != VoxelColliderMode::Auto {
        options.mode
    } else if solid_count <= options.small_voxel_limit {
        VoxelColliderMode::Cuboids
    } else if options.dynamic_body.0 != 0 {
        VoxelColliderMode::GreedyCuboids
    } else if solid_count >= options.mesh_voxel_limit {
        VoxelColliderMode::SurfaceMesh
    } else {
        VoxelColliderMode::GreedyCuboids
    }
}

/// A mode asked for explicitly is the mode used, whatever the solid count and
/// the limits; only `Auto` is decided, and never to `Auto`.
pub proof fn lemma_explicit_mode_stands(solid_count: int, options: VoxelColliderOptions)
    ensures
        options.mode != VoxelColliderMode::Auto ==> chosen_mode(solid_count, options) == options.mode,
        chosen_mode(solid_count, options) != VoxelColliderMode::Auto,
{
}

/// An explicit mode stands; otherwise few solid cells give one box each, a
/// dynamic body gets merged boxes, and many cells of a static body a mesh.
pub fn choose_mode(solid_count: usize, options: VoxelColliderOptions) -> (r: VoxelColliderMode)
    ensures
        r == chosen_mode(solid_count as int, options),
        r != VoxelColliderMode::Auto,
        options.mode != VoxelColliderMode::Auto ==> r == options.mode,
{
    if options.mode != VoxelColliderMode::Auto {
        return options.mode;
    }
    if solid_count <= options.small_voxel_limit as usize {
        return VoxelColliderMode::Cuboids;
    }
    if options.dynamic_body.0 != 0 {
        return VoxelColliderMode::GreedyCuboids;
    }
    if solid_count >= options.mesh_voxel_limit as usize {
        return VoxelColliderMode::SurfaceMesh;
    }
    VoxelColliderMode::GreedyCuboids
}

/// A box of cells: `[min_x, max_x) x [min_y, max_y) x [min_z, max_z)`.
#[derive(Clone, Copy, Debug, PartialEq, Eq, Structural)]
pub struct VoxelBox {
    pub min_x: usize,
    pub min_y: usize,
    pub min_z: usize,
    pub max_x: usize,
    pub max_y: usize,
    pub max_z: usize,
}

/// Appends the box `[min, max)` unless it is empty along some axis.
pub fn push_cuboid(parts: &mut Vec<VoxelBox>, min: (usize, usize, usize), max: (usize, usize, usize))
    requires
        min.0 <= max.0,
        min.1 <= max.1,
        min.2 <= max.2,
    ensures
        final(parts)@ == if min.0 < max.0 && min.1 < max.1 && min.2 < max.2 {
            old(parts)@.push(
                VoxelBox {
                    min_x: min.0,
                    min_y: min.1,
                    min_z: min.2,
                    max_x: max.0,
                    max_y: max.1,
                    max_z: max.2,
                },
            )
        } else {
            old(parts)@
        },
{
    let (x, y, z) = min;
    let (max_x, max_y, max_z) = max;
    if max_x - x == 0 || max_y - y == 0 || max_z - z == 0 {
        return;
    }
    parts.push(VoxelBox { min_x: x, min_y: y, min_z: z, max_x, max_y, max_z });
}

/// The one-cell box at `(x, y, z)`.
pub open spec fn unit_box(x: int, y: int, z: int) -> VoxelBox {
    VoxelBox {
        min_x: x as usize,
        min_y: y as usize,
        min_z: z as usize,
        max_x: (x + 1) as usize,
        max_y: (y + 1) as usize,
        max_z: (z + 1) as usize,
    }
}

/// The cell whose byte is at position `k`.
pub open spec fn cell_of_index(g: VoxelGrid, k: int) -> (int, int, int) {
    (k % (g.size_x as int), (k / (g.size_x as int)) % (g.size_y as int), (k / (g.size_x as int)) / (g.size_y as int))
}

/// One unit box for each solid cell among the first `n` bytes, in byte order.
pub open spec fn solid_unit_boxes(g: VoxelGrid, n: int) -> Seq<VoxelBox>
    decreases n,
{
    if n <= 0 {
        Seq::empty()
    } else {
        let prev = solid_unit_boxes(g, n - 1);
        let c = cell_of_index(g, n - 1);
        if g.voxels@[n - 1] != 0 {
            prev.push(unit_box(c.0, c.1, c.2))
        } else {
            prev
        }
    }
}

proof fn lemma_cell_of_index(g: VoxelGrid, x: int, y: int, z: int)
    requires
        grid_wf(g),
        in_grid(g, x, y, z),
    ensures
        cell_of_index(g, cell_index(g, x, y, z)) == (x, y, z),
{
    lemma_cell_index(g, x, y, z);
    let k = cell_index(g, x, y, z);
    let sx = g.size_x as int;
    let sy = g.size_y as int;
    lemma_fundamental_div_mod_converse(k, sx, z * sy + y, x);
    lemma_fundamental_div_mod_converse(z * sy + y, sy, z, y);
}

/// The byte at position `k` is that of the cell `cell_of_index(g, k)`.
proof fn lemma_index_cell(g: VoxelGrid, k: int)
    requires
        grid_wf(g),
        0 <= k < g.voxels@.len(),
    ensures
        in_grid(g, cell_of_index(g, k).0, cell_of_index(g, k).1, cell_of_index(g, k).2),
        cell_index(g, cell_of_index(g, k).0, cell_of_index(g, k).1, cell_of_index(g, k).2) == k,
{
    let sx = g.size_x as int;
    let sy = g.size_y as int;
    let sz = g.size_z as int;
    let x = k % sx;
    let q = k / sx;
    let y = q % sy;
    let z = q / sy;
    assert(sx > 0 && sy > 0 && sz > 0) by (nonlinear_arith)
        requires
            0 <= k < sx * sy * sz,
            sx >= 0,
            sy >= 0,
            sz >= 0,
    ;
    vstd::arithmetic::div_mod::lemma_fundamental_div_mod(k, sx);
    vstd::arithmetic::div_mod::lemma_mod_pos_bound(k, sx);
    vstd::arithmetic::div_mod::lemma_fundamental_div_mod(q, sy);
    vstd::arithmetic::div_mod::lemma_mod_pos_bound(q, sy);
    assert(0 <= q) by {
        vstd::arithmetic::div_mod::lemma_div_pos_is_pos(k, sx);
    }
    assert(0 <= z) by {
        vstd::arithmetic::div_mod::lemma_div_pos_is_pos(q, sy);
    }
    assert(z < sz) by (nonlinear_arith)
        requires
            k == sx * q + x,
            q == sy * z + y,
            0 <= x < sx,
            0 <= y < sy,
            0 <= k < sx * sy * sz,
            sx > 0,
            sy > 0,
    ;
    assert(cell_index(g, x, y, z) == k) by (nonlinear_arith)
        requires
            k == sx * q + x,
            q == sy * z + y,
            cell_index(g, x, y, z) == z * sy * sx + y * sx + x,
    ;
    assert(cell_of_index(g, k) == (x, y, z));
}

/// The position of the byte of the cell at the low corner of `b`.
pub open spec fn box_byte(g: VoxelGrid, b: VoxelBox) -> int {
    cell_index(g, b.min_x as int, b.min_y as int, b.min_z as int)
}

proof fn lemma_unit_boxes_upto(g: VoxelGrid, n: int)
    requires
        grid_wf(g),
        0 <= n <= g.voxels@.len(),
    ensures
        ({
            let b = solid_unit_boxes(g, n);
            &&& forall|i: int|
                0 <= i < b.len() ==> {
                    let c = cell_of_index(g, box_byte(g, #[trigger] b[i]));
                    &&& 0 <= box_byte(g, b[i]) < n
                    &&& g.voxels@[box_byte(g, b[i])] != 0
                    &&& b[i] == unit_box(c.0, c.1, c.2)
                    &&& c == (b[i].min_x as int, b[i].min_y as int, b[i].min_z as int)
                }
            &&& forall|i: int, j: int| 0 <= i < j < b.len() ==> box_byte(g, #[trigger] b[i]) < box_byte(g, #[trigger] b[j])
            &&& forall|k: int|
                0 <= k < n && g.voxels@[k] != 0 ==> b.contains(
                    unit_box(#[trigger] cell_of_index(g, k).0, cell_of_index(g, k).1, cell_of_index(g, k).2),
                )
        }),
    decreases n,
{
    if n > 0 {
        lemma_unit_boxes_upto(g, n - 1);
        let prev = solid_unit_boxes(g, n - 1);
        let b = solid_unit_boxes(g, n);
        let k = n - 1;
        lemma_index_cell(g, k);
        let c = cell_of_index(g, k);
        if g.voxels@[k] != 0 {
            let nb = unit_box(c.0, c.1, c.2);
            assert(b == prev.push(nb));
            assert(nb.min_x as int == c.0 && nb.min_y as int == c.1 && nb.min_z as int == c.2);
            assert(box_byte(g, nb) == k);
            assert forall|i: int| 0 <= i < b.len() implies {
                let c2 = cell_of_index(g, box_byte(g, #[trigger] b[i]));
                &&& 0 <= box_byte(g, b[i]) < n
                &&& g.voxels@[box_byte(g, b[i])] != 0
                &&& b[i] == unit_box(c2.0, c2.1, c2.2)
                &&& c2 == (b[i].min_x as int, b[i].min_y as int, b[i].min_z as int)
            } by {
                if i < prev.len() {
                    assert(b[i] == prev[i]);
                }
            }
            assert forall|i: int, j: int| 0 <= i < j < b.len() implies box_byte(g, #[trigger] b[i]) < box_byte(g, #[trigger] b[j]) by {
                assert(b[i] == prev[i]);
                if j < prev.len() {
                    assert(b[j] == prev[j]);
                }
            }
            assert forall|k2: int| 0 <= k2 < n && g.voxels@[k2] != 0 implies b.contains(
                unit_box(#[trigger] cell_of_index(g, k2).0, cell_of_index(g, k2).1, cell_of_index(g, k2).2),
            ) by {
                if k2 < k {
                    let c2 = cell_of_index(g, k2);
                    let x = choose|x: int| 0 <= x < prev.len() && prev[x] == unit_box(c2.0, c2.1, c2.2);
                    assert(b[x] == prev[x]);
                } else {
                    assert(b[prev.len() as int] == nb);
                }
            }
        } else {
            assert(b == prev);
            assert forall|k2: int| 0 <= k2 < n && g.voxels@[k2] != 0 implies b.contains(
                unit_box(#[trigger] cell_of_index(g, k2).0, cell_of_index(g, k2).1, cell_of_index(g, k2).2),
            ) by {
                assert(k2 < k);
            }
        }
    }
}

/// The boxes of `Cuboids` mode are exactly the solid cells, one unit box
/// each: every box is the unit box of a solid cell, every solid cell has its
/// unit box among them, and they come in the order of the cells' bytes (z
/// slowest, x fastest), so no cell comes twice.
pub proof fn lemma_unit_boxes_are_solid_cells(g: VoxelGrid)
    requires
        grid_wf(g),
    ensures
        ({
            let b = solid_unit_boxes(g, g.voxels@.len() as int);
            &&& forall|i: int|
                0 <= i < b.len() ==> solid_at(g, (#[trigger] b[i]).min_x as int, b[i].min_y as int, b[i].min_z as int)
                    && b[i] == unit_box(b[i].min_x as int, b[i].min_y as int, b[i].min_z as int)
            &&& forall|x: int, y: int, z: int| #[trigger] solid_at(g, x, y, z) ==> b.contains(unit_box(x, y, z))
            &&& forall|i: int, j: int| 0 <= i < j < b.len() ==> box_byte(g, #[trigger] b[i]) < box_byte(g, #[trigger] b[j])
        }),
{
    let n = g.voxels@.len() as int;
    let b = solid_unit_boxes(g, n);
    lemma_unit_boxes_upto(g, n);
    assert forall|i: int| 0 <= i < b.len() implies solid_at(g, (#[trigger] b[i]).min_x as int, b[i].min_y as int, b[i].min_z as int)
        && b[i] == unit_box(b[i].min_x as int, b[i].min_y as int, b[i].min_z as int) by {
        let k = box_byte(g, b[i]);
        lemma_index_cell(g, k);
    }
    assert forall|x: int, y: int, z: int| #[trigger] solid_at(g, x, y, z) implies b.contains(unit_box(x, y, z)) by {
        lemma_cell_index(g, x, y, z);
        lemma_cell_of_index(g, x, y, z);
        let k = cell_index(g, x, y, z);
        assert(cell_of_index(g, k) == (x, y, z));
        assert(g.voxels@[k] != 0);
        assert(b.contains(unit_box(cell_of_index(g, k).0, cell_of_index(g, k).1, cell_of_index(g, k).2)));
    }
}

/// One box per solid cell (z slowest, x fastest); `None` when no cell is solid.
pub fn build_cuboids(grid: &VoxelGrid) -> (r: Option<Vec<VoxelBox>>)
    requires
        grid_wf(*grid),
    ensures
        r is None <==> solid_unit_boxes(*grid, grid.voxels@.len() as int).len() == 0,
        r matches Some(p) ==> p@ == solid_unit_boxes(*grid, grid.voxels@.len() as int),
        r matches Some(p) ==> forall|i: int|
            0 <= i < p@.len() ==> solid_at(*grid, (#[trigger] p@[i]).min_x as int, p@[i].min_y as int, p@[i].min_z as int)
                && p@[i] == unit_box(p@[i].min_x as int, p@[i].min_y as int, p@[i].min_z as int),
        r matches Some(p) ==> forall|x: int, y: int, z: int| #[trigger] solid_at(*grid, x, y, z) ==> p@.contains(unit_box(x, y, z)),
        r matches Some(p) ==> forall|i: int, j: int|
            0 <= i < j < p@.len() ==> box_byte(*grid, #[trigger] p@[i]) < box_byte(*grid, #[trigger] p@[j]),
{
    proof {
        lemma_unit_boxes_are_solid_cells(*grid);
    }
    let mut parts: Vec<VoxelBox> = Vec::new();
    let ghost g = *grid;
    let ghost sx = grid.size_x as int;
    let ghost sy = grid.size_y as int;
    let mut z: usize = 0;
    assert(0 * sy * sx == 0) by (nonlinear_arith);
    while z < grid.size_z
        invariant
            g == *grid,
            grid_wf(g),
            sx == g.size_x,
            sy == g.size_y,
            z <= grid.size_z,
            parts@ == solid_unit_boxes(g, z * sy * sx),
        decreases grid.size_z - z,
    {
        let mut y: usize = 0;
        while y < grid.size_y
            invariant
                g == *grid,
                grid_wf(g),
                sx == g.size_x,
                sy == g.size_y,
                z < grid.size_z,
                y <= grid.size_y,
                parts@ == solid_unit_boxes(g, z * sy * sx + y * sx),
            decreases grid.size_y - y,
        {
            let mut x: usize = 0;
            while x < grid.size_x
                invariant
                    g == *grid,
                    grid_wf(g),
                    sx == g.size_x,
                    sy == g.size_y,
                    z < grid.size_z,
                    y < grid.size_y,
                    x <= grid.size_x,
                    parts@ == solid_unit_boxes(g, z * sy * sx + y * sx + x),
                decreases grid.size_x - x,
            {
                proof {
                    lemma_cell_of_index(g, x as int, y as int, z as int);
                    lemma_cell_index(g, x as int, y as int, z as int);
                }
                if grid.is_solid(x, y, z) {
                    push_cuboid(&mut parts, (x, y, z), (x + 1, y + 1, z + 1));
                }
                x = x + 1;
            }
            proof {
                assert(z * sy * sx + y * sx + sx == z * sy * sx + (y + 1) * sx) by (nonlinear_arith);
            }
            y = y + 1;
        }
        proof {
            assert(z * sy * sx + sy * sx == (z + 1) * sy * sx) by (nonlinear_arith);
        }
        z = z + 1;
    }
    proof {
        assert(z * sy * sx == g.size_x * g.size_y * g.size_z) by (nonlinear_arith)
            requires
                z == g.size_z,
                sx == g.size_x,
                sy == g.size_y,
        ;
    }
    if parts.len() == 0 {
        None
    } else {
        Some(parts)
    }
}

/// A rectangle of a layer: `[min_x, max_x) x [min_y, max_y)`.
#[derive(Clone, Copy, Debug, PartialEq, Eq, Structural)]
pub struct LayerRect {
    pub min_x: usize,
    pub min_y: usize,
    pub max_x: usize,
    pub max_y: usize,
}

/// A rectangle as `(min_u, min_v, max_u, max_v)`.
pub open spec fn layer_rect_view(r: LayerRect) -> (int, int, int, int) {
    (r.min_x as int, r.min_y as int, r.max_x as int, r.max_y as int)
}

/// The rectangles as `(min_u, min_v, max_u, max_v)` tuples.
pub open spec fn layer_rect_views(rs: Seq<LayerRect>) -> Seq<(int, int, int, int)> {
    rs.map_values(|r: LayerRect| layer_rect_view(r))
}

/// `(u, v)` lies in rectangle `r`.
pub open spec fn in_rect(r: (int, int, int, int), u: int, v: int) -> bool {
    r.0 <= u < r.2 && r.1 <= v < r.3
}

/// Some rectangle of `p` holds `(u, v)`.
pub open spec fn covered(p: Seq<(int, int, int, int)>, u: int, v: int) -> bool {
    exists|i: int| 0 <= i < p.len() && in_rect(#[trigger] p[i], u, v)
}

/// `(u, v)` is marked in `f` and no rectangle of `p` holds it yet.
pub open spec fn is_free(f: spec_fn(int, int) -> bool, p: Seq<(int, int, int, int)>, u: int, v: int) -> bool {
    f(u, v) && !covered(p, u, v)
}

/// `(u1, v1)` comes before `(u2, v2)` row by row.
pub open spec fn scan_before(u1: int, v1: int, u2: int, v2: int) -> bool {
    v1 < v2 || (v1 == v2 && u1 < u2)
}

/// `r` is the rectangle the greedy rule takes after the rectangles `p` on a
/// `w` by `h` grid marked by `f`: it starts at the first free cell row by
/// row, runs right while cells are free, then grows down while whole rows
/// under it are free.
pub open spec fn greedy_rect_ok(
    f: spec_fn(int, int) -> bool,
    w: int,
    h: int,
    p: Seq<(int, int, int, int)>,
    r: (int, int, int, int),
) -> bool {
    &&& 0 <= r.0 < r.2 <= w
    &&& 0 <= r.1 < r.3 <= h
    &&& forall|u: int, v: int|
        0 <= u < w && 0 <= v < h && scan_before(u, v, r.0, r.1) ==> !#[trigger] is_free(f, p, u, v)
    &&& forall|u: int| r.0 <= u < r.2 ==> #[trigger] is_free(f, p, u, r.1)
    &&& r.2 == w || !is_free(f, p, r.2, r.1)
    &&& forall|u: int, v: int| r.0 <= u < r.2 && r.1 < v < r.3 ==> #[trigger] is_free(f, p, u, v)
    &&& r.3 == h || exists|u: int| r.0 <= u < r.2 && !#[trigger] is_free(f, p, u, r.3)
}

/// Each rectangle of `rs` follows the greedy rule given those before it.
pub open spec fn greedy_chain(f: spec_fn(int, int) -> bool, w: int, h: int, rs: Seq<(int, int, int, int)>) -> bool {
    forall|j: int| 0 <= j < rs.len() ==> #[trigger] greedy_rect_ok(f, w, h, rs.take(j), rs[j])
}

/// `rs` is the greedy decomposition of the cells marked by `f`: each
/// rectangle follows the greedy rule given those before it, and together they
/// hold every marked cell.
pub open spec fn greedy_rects(f: spec_fn(int, int) -> bool, w: int, h: int, rs: Seq<(int, int, int, int)>) -> bool {
    &&& greedy_chain(f, w, h, rs)
    &&& forall|u: int, v: int| 0 <= u < w && 0 <= v < h && f(u, v) ==> #[trigger] covered(rs, u, v)
}

/// The greedy decomposition of the cells marked by `f` (it exists and is
/// unique: see `lemma_greedy_decomp`).
pub open spec fn greedy_decomp(f: spec_fn(int, int) -> bool, w: int, h: int) -> Seq<(int, int, int, int)> {
    choose|rs: Seq<(int, int, int, int)>| greedy_rects(f, w, h, rs)
}

/// Given the rectangles before it, the greedy rule admits one rectangle.
pub proof fn lemma_greedy_rect_unique(
    f: spec_fn(int, int) -> bool,
    w: int,
    h: int,
    p: Seq<(int, int, int, int)>,
    r1: (int, int, int, int),
    r2: (int, int, int, int),
)
    requires
        greedy_rect_ok(f, w, h, p, r1),
        greedy_rect_ok(f, w, h, p, r2),
    ensures
        r1 == r2,
{
    assert(is_free(f, p, r1.0, r1.1));
    assert(is_free(f, p, r2.0, r2.1));
    if scan_before(r1.0, r1.1, r2.0, r2.1) {
        assert(!is_free(f, p, r1.0, r1.1));
    }
    if scan_before(r2.0, r2.1, r1.0, r1.1) {
        assert(!is_free(f, p, r2.0, r2.1));
    }
    assert(r1.0 == r2.0 && r1.1 == r2.1);
    if r1.2 < r2.2 {
        assert(is_free(f, p, r1.2, r2.1));
    }
    if r2.2 < r1.2 {
        assert(is_free(f, p, r2.2, r1.1));
    }
    assert(r1.2 == r2.2);
    if r1.3 < r2.3 {
        let u = choose|u: int| r1.0 <= u < r1.2 && !#[trigger] is_free(f, p, u, r1.3);
        assert(is_free(f, p, u, r1.3));
    }
    if r2.3 < r1.3 {
        let u = choose|u: int| r2.0 <= u < r2.2 && !#[trigger] is_free(f, p, u, r2.3);
        assert(is_free(f, p, u, r2.3));
    }
}

/// A chain of greedy rectangles is a prefix of the greedy decomposition.
pub proof fn lemma_greedy_chain_prefix(
    f: spec_fn(int, int) -> bool,
    w: int,
    h: int,
    p: Seq<(int, int, int, int)>,
    rs: Seq<(int, int, int, int)>,
)
    requires
        greedy_chain(f, w, h, p),
        greedy_rects(f, w, h, rs),
    ensures
        p.len() <= rs.len(),
        p == rs.take(p.len() as int),
    decreases p.len(),
{
    if p.len() > 0 {
        let k = p.len() - 1;
        let q = p.drop_last();
        assert forall|j: int| 0 <= j < q.len() implies #[trigger] greedy_rect_ok(f, w, h, q.take(j), q[j]) by {
            assert(q.take(j) =~= p.take(j));
            assert(greedy_rect_ok(f, w, h, p.take(j), p[j]));
        }
        lemma_greedy_chain_prefix(f, w, h, q, rs);
        assert(p.take(k) =~= q);
        let r = p[k];
        assert(greedy_rect_ok(f, w, h, p.take(k), r));
        assert(is_free(f, q, r.0, r.1));
        if k == rs.len() {
            assert(q =~= rs);
            assert(covered(rs, r.0, r.1));
        }
        assert(greedy_rect_ok(f, w, h, rs.take(k), rs[k]));
        lemma_greedy_rect_unique(f, w, h, q, r, rs[k]);
        assert(p =~= rs.take(p.len() as int));
    }
}

/// The end of the run of free cells of row `v` that starts at `u`.
spec fn row_run_end(f: spec_fn(int, int) -> bool, w: int, p: Seq<(int, int, int, int)>, u: int, v: int) -> int
    decreases w - u,
{
    if u >= w || !is_free(f, p, u, v) {
        u
    } else {
        row_run_end(f, w, p, u + 1, v)
    }
}

/// Every cell of row `v` in `[u0, u1)` is free.
spec fn row_all_free(f: spec_fn(int, int) -> bool, p: Seq<(int, int, int, int)>, u0: int, u1: int, v: int) -> bool {
    forall|u: int| u0 <= u < u1 ==> #[trigger] is_free(f, p, u, v)
}

/// The first row from `v` on that is not wholly free over `[u0, u1)`, or `h`.
spec fn down_run_end(f: spec_fn(int, int) -> bool, h: int, p: Seq<(int, int, int, int)>, u0: int, u1: int, v: int) -> int
    decreases h - v,
{
    if v >= h || !row_all_free(f, p, u0, u1, v) {
        v
    } else {
        down_run_end(f, h, p, u0, u1, v + 1)
    }
}

/// The rectangle the greedy rule grows from cell `(u, v)`.
spec fn greedy_rect_at(f: spec_fn(int, int) -> bool, w: int, h: int, p: Seq<(int, int, int, int)>, u: int, v: int) -> (
    int,
    int,
    int,
    int,
) {
    let u1 = row_run_end(f, w, p, u, v);
    (u, v, u1, down_run_end(f, h, p, u, u1, v + 1))
}

/// The greedy rule run on from scan position `s`, after the rectangles `p`.
spec fn greedy_from(f: spec_fn(int, int) -> bool, w: int, h: int, p: Seq<(int, int, int, int)>, s: int) -> Seq<
    (int, int, int, int),
>
    decreases w * h - s,
{
    if w <= 0 || s < 0 || s >= w * h {
        p
    } else {
        let u = s % w;
        let v = s / w;
        if is_free(f, p, u, v) {
            greedy_from(f, w, h, p.push(greedy_rect_at(f, w, h, p, u, v)), s + 1)
        } else {
            greedy_from(f, w, h, p, s + 1)
        }
    }
}

proof fn lemma_row_run_end(f: spec_fn(int, int) -> bool, w: int, p: Seq<(int, int, int, int)>, u: int, v: int)
    requires
        u <= w,
    ensures
        u <= row_run_end(f, w, p, u, v) <= w,
        forall|x: int| u <= x < row_run_end(f, w, p, u, v) ==> #[trigger] is_free(f, p, x, v),
        row_run_end(f, w, p, u, v) == w || !is_free(f, p, row_run_end(f, w, p, u, v), v),
    decreases w - u,
{
    if u < w && is_free(f, p, u, v) {
        lemma_row_run_end(f, w, p, u + 1, v);
    }
}

proof fn lemma_down_run_end(
    f: spec_fn(int, int) -> bool,
    h: int,
    p: Seq<(int, int, int, int)>,
    u0: int,
    u1: int,
    v: int,
)
    requires
        v <= h,
    ensures
        v <= down_run_end(f, h, p, u0, u1, v) <= h,
        forall|x: int, y: int| u0 <= x < u1 && v <= y < down_run_end(f, h, p, u0, u1, v) ==> #[trigger] is_free(f, p, x, y),
        down_run_end(f, h, p, u0, u1, v) == h || exists|x: int|
            u0 <= x < u1 && !#[trigger] is_free(f, p, x, down_run_end(f, h, p, u0, u1, v)),
    decreases h - v,
{
    if v < h && row_all_free(f, p, u0, u1, v) {
        lemma_down_run_end(f, h, p, u0, u1, v + 1);
        assert forall|x: int, y: int| u0 <= x < u1 && v <= y < down_run_end(f, h, p, u0, u1, v) implies #[trigger] is_free(
            f,
            p,
            x,
            y,
        ) by {
            if y == v {
                assert(is_free(f, p, x, v));
            }
        }
    } else if v < h {
        let x = choose|x: int| u0 <= x < u1 && !#[trigger] is_free(f, p, x, v);
        assert(!is_free(f, p, x, v));
    }
}

/// The greedy rule run from scan position `s` ends in a greedy
/// decomposition, provided no cell before `s` is still free.
proof fn lemma_greedy_from(f: spec_fn(int, int) -> bool, w: int, h: int, p: Seq<(int, int, int, int)>, s: int)
    requires
        w > 0,
        h > 0,
        0 <= s <= w * h,
        greedy_chain(f, w, h, p),
        forall|x: int, y: int| 0 <= x < w && 0 <= y < h && y * w + x < s ==> !#[trigger] is_free(f, p, x, y),
    ensures
        greedy_rects(f, w, h, greedy_from(f, w, h, p, s)),
    decreases w * h - s,
{
    if s == w * h {
        assert forall|x: int, y: int| 0 <= x < w && 0 <= y < h && f(x, y) implies #[trigger] covered(p, x, y) by {
            lemma_flat_index(w, h, x, y);
            assert(!is_free(f, p, x, y));
        }
    } else {
        let u = s % w;
        let v = s / w;
        vstd::arithmetic::div_mod::lemma_fundamental_div_mod(s, w);
        vstd::arithmetic::div_mod::lemma_mod_pos_bound(s, w);
        vstd::arithmetic::div_mod::lemma_div_pos_is_pos(s, w);
        assert(v < h) by (nonlinear_arith)
            requires
                s == w * v + u,
                0 <= u < w,
                s < w * h,
        ;
        assert(v * w + u == s) by (nonlinear_arith)
            requires
                s == w * v + u,
        ;
        if is_free(f, p, u, v) {
            let r = greedy_rect_at(f, w, h, p, u, v);
            lemma_row_run_end(f, w, p, u, v);
            lemma_down_run_end(f, h, p, u, r.2, v + 1);
            assert forall|x: int, y: int| 0 <= x < w && 0 <= y < h && scan_before(x, y, r.0, r.1) implies !#[trigger] is_free(
                f,
                p,
                x,
                y,
            ) by {
                if y < v {
                    assert(y * w + x < v * w + u) by (nonlinear_arith)
                        requires
                            0 <= x < w,
                            0 <= u,
                            y < v,
                    ;
                }
            }
            assert(greedy_rect_ok(f, w, h, p, r));
            let q = p.push(r);
            assert forall|j: int| 0 <= j < q.len() implies #[trigger] greedy_rect_ok(f, w, h, q.take(j), q[j]) by {
                if j < p.len() {
                    assert(q.take(j) =~= p.take(j));
                    assert(greedy_rect_ok(f, w, h, p.take(j), p[j]));
                } else {
                    assert(q.take(j) =~= p);
                }
            }
            assert forall|x: int, y: int| 0 <= x < w && 0 <= y < h && y * w + x < s + 1 implies !#[trigger] is_free(
                f,
                q,
                x,
                y,
            ) by {
                lemma_covered_push(p, r, x, y);
                if y * w + x == s {
                    lemma_flat_index_inj(w, x, y, u, v);
                    assert(in_rect(r, x, y));
                } else {
                    assert(!is_free(f, p, x, y));
                }
            }
            lemma_greedy_from(f, w, h, q, s + 1);
        } else {
            assert forall|x: int, y: int| 0 <= x < w && 0 <= y < h && y * w + x < s + 1 implies !#[trigger] is_free(
                f,
                p,
                x,
                y,
            ) by {
                if y * w + x == s {
                    lemma_flat_index_inj(w, x, y, u, v);
                }
            }
            lemma_greedy_from(f, w, h, p, s + 1);
        }
    }
}

/// Every marking has its greedy decomposition.
pub proof fn lemma_greedy_exists(f: spec_fn(int, int) -> bool, w: int, h: int)
    ensures
        greedy_rects(f, w, h, greedy_decomp(f, w, h)),
{
    if w > 0 && h > 0 {
        assert(0 <= w * h) by (nonlinear_arith)
            requires
                w > 0,
                h > 0,
        ;
        lemma_greedy_from(f, w, h, Seq::empty(), 0);
        assert(greedy_rects(f, w, h, greedy_from(f, w, h, Seq::empty(), 0)));
    } else {
        let e = Seq::<(int, int, int, int)>::empty();
        assert(greedy_rects(f, w, h, e));
    }
}

/// A greedy decomposition is the greedy decomposition.
pub proof fn lemma_greedy_decomp(f: spec_fn(int, int) -> bool, w: int, h: int, rs: Seq<(int, int, int, int)>)
    requires
        greedy_rects(f, w, h, rs),
    ensures
        greedy_decomp(f, w, h) == rs,
{
    let d = greedy_decomp(f, w, h);
    assert(greedy_rects(f, w, h, d));
    lemma_greedy_chain_prefix(f, w, h, rs, d);
    lemma_greedy_chain_prefix(f, w, h, d, rs);
    assert(rs =~= d.take(rs.len() as int));
    assert(d =~= rs);
}

/// The greedy rectangles partition the marked cells: every cell of every
/// rectangle is marked, no two rectangles share a cell, and every marked
/// cell lies in one.
pub proof fn lemma_greedy_partition(f: spec_fn(int, int) -> bool, w: int, h: int, rs: Seq<(int, int, int, int)>)
    requires
        greedy_rects(f, w, h, rs),
    ensures
        forall|j: int, u: int, v: int| 0 <= j < rs.len() && #[trigger] in_rect(rs[j], u, v) ==> f(u, v) && 0 <= u < w && 0 <= v < h,
        forall|i: int, j: int, u: int, v: int|
            #![trigger in_rect(rs[i], u, v), in_rect(rs[j], u, v)]
            0 <= i < j < rs.len() && in_rect(rs[i], u, v) ==> !in_rect(rs[j], u, v),
        forall|u: int, v: int| 0 <= u < w && 0 <= v < h && f(u, v) ==> #[trigger] covered(rs, u, v),
{
    assert forall|j: int, u: int, v: int| 0 <= j < rs.len() && #[trigger] in_rect(rs[j], u, v) implies f(u, v) && 0 <= u < w && 0 <= v < h by {
        assert(greedy_rect_ok(f, w, h, rs.take(j), rs[j]));
        assert(is_free(f, rs.take(j), u, v));
    }
    assert forall|i: int, j: int, u: int, v: int|
        #![trigger in_rect(rs[i], u, v), in_rect(rs[j], u, v)]
        0 <= i < j < rs.len() && in_rect(rs[i], u, v) implies !in_rect(rs[j], u, v) by {
        assert(greedy_rect_ok(f, w, h, rs.take(j), rs[j]));
        if in_rect(rs[j], u, v) {
            assert(is_free(f, rs.take(j), u, v));
            assert(rs.take(j)[i] == rs[i]);
        }
    }
}

/// The marking of a layer: its solid cells.
pub open spec fn layer_cells(g: VoxelGrid, z: int) -> spec_fn(int, int) -> bool {
    |u: int, v: int| solid(g, u, v, z)
}

/// The flag of cell `(u, v)` in a row-major list of width `w`.
pub open spec fn flag_at(flags: Seq<bool>, w: int, u: int, v: int) -> bool {
    flags[v * w + u]
}

/// A cell of a `w` by `h` row-major grid has its flag in range.
pub proof fn lemma_flat_index(w: int, h: int, u: int, v: int)
    requires
        0 <= u < w,
        0 <= v < h,
    ensures
        0 <= v * w + u < w * h,
{
    assert(0 <= v * w + u < w * h) by (nonlinear_arith)
        requires
            0 <= u < w,
            0 <= v < h,
    {
        assert(v * w <= (h - 1) * w);
    }
}

/// Different cells of a row-major grid have different flags.
pub proof fn lemma_flat_index_inj(w: int, u1: int, v1: int, u2: int, v2: int)
    requires
        0 <= u1 < w,
        0 <= u2 < w,
        v1 * w + u1 == v2 * w + u2,
    ensures
        u1 == u2,
        v1 == v2,
{
    lemma_fundamental_div_mod_converse(v1 * w + u1, w, v1, u1);
    lemma_fundamental_div_mod_converse(v2 * w + u2, w, v2, u2);
}

proof fn lemma_covered_push(p: Seq<(int, int, int, int)>, r: (int, int, int, int), u: int, v: int)
    ensures
        covered(p.push(r), u, v) == (covered(p, u, v) || in_rect(r, u, v)),
{
    let q = p.push(r);
    if covered(p, u, v) {
        let i = choose|i: int| 0 <= i < p.len() && in_rect(#[trigger] p[i], u, v);
        assert(q[i] == p[i]);
    }
    if in_rect(r, u, v) {
        assert(q[p.len() as int] == r);
    }
    if covered(q, u, v) {
        let i = choose|i: int| 0 <= i < q.len() && in_rect(#[trigger] q[i], u, v);
        if i < p.len() {
            assert(q[i] == p[i]);
        }
    }
}

/// Sets the flags of every cell of `[x0, x1) x [y0, y1)` to `value`.
fn fill_rect(flags: &mut [bool], w: usize, h: usize, x0: usize, y0: usize, x1: usize, y1: usize, value: bool)
    requires
        old(flags)@.len() == w * h,
        x0 < x1 <= w,
        y0 < y1 <= h,
    ensures
        final(flags)@.len() == w * h,
        forall|u: int, v: int|
            0 <= u < w && 0 <= v < h ==> #[trigger] flag_at(final(flags)@, w as int, u, v) == if in_rect(
                (x0 as int, y0 as int, x1 as int, y1 as int),
                u,
                v,
            ) {
                value
            } else {
                flag_at(old(flags)@, w as int, u, v)
            },
{
    let ghost f0 = flags@;
    let mut yy: usize = y0;
    while yy < y1
        invariant
            flags@.len() == w * h,
            f0.len() == w * h,
            x0 < x1 <= w,
            y0 <= yy <= y1 <= h,
            forall|u: int, v: int|
                0 <= u < w && 0 <= v < h ==> #[trigger] flag_at(flags@, w as int, u, v) == if in_rect(
                    (x0 as int, y0 as int, x1 as int, yy as int),
                    u,
                    v,
                ) {
                    value
                } else {
                    flag_at(f0, w as int, u, v)
                },
        decreases y1 - yy,
    {
        let mut xx: usize = x0;
        while xx < x1
            invariant
                flags@.len() == w * h,
                f0.len() == w * h,
                x0 <= xx <= x1 <= w,
                y0 <= yy < y1 <= h,
                forall|u: int, v: int|
                    0 <= u < w && 0 <= v < h ==> #[trigger] flag_at(flags@, w as int, u, v) == if in_rect(
                        (x0 as int, y0 as int, x1 as int, yy as int),
                        u,
                        v,
                    ) || (v == yy && x0 <= u < xx) {
                        value
                    } else {
                        flag_at(f0, w as int, u, v)
                    },
            decreases x1 - xx,
        {
            let n = flags.len();
            proof {
                lemma_flat_index(w as int, h as int, xx as int, yy as int);
            }
            let i = yy * w + xx;
            let ghost before = flags@;
            flags[i] = value;
            proof {
                assert forall|u: int, v: int| 0 <= u < w && 0 <= v < h implies #[trigger] flag_at(flags@, w as int, u, v)
                    == if in_rect((x0 as int, y0 as int, x1 as int, yy as int), u, v) || (v == yy && x0 <= u < xx + 1) {
                    value
                } else {
                    flag_at(f0, w as int, u, v)
                } by {
                    lemma_flat_index(w as int, h as int, u, v);
                    if v * w + u == i {
                        lemma_flat_index_inj(w as int, u, v, xx as int, yy as int);
                    } else {
                        assert(flag_at(flags@, w as int, u, v) == flag_at(before, w as int, u, v));
                    }
                }
            }
            xx = xx + 1;
        }
        yy = yy + 1;
    }
}

/// Splits the solid cells of layer `z` into rectangles by the greedy rule
/// (`greedy_rects`), using `visited` as scratch space; afterwards `visited`
/// flags exactly the solid cells of the layer.
pub fn layer_rectangles(grid: &VoxelGrid, z: usize, visited: &mut Vec<bool>, rects: &mut Vec<LayerRect>)
    requires
        grid_wf(*grid),
        z < grid.size_z,
    ensures
        final(visited)@.len() == grid.size_x * grid.size_y,
        greedy_rects(layer_cells(*grid, z as int), grid.size_x as int, grid.size_y as int, layer_rect_views(final(rects)@)),
        layer_rect_views(final(rects)@) == greedy_decomp(layer_cells(*grid, z as int), grid.size_x as int, grid.size_y as int),
        forall|u: int, v: int|
            0 <= u < grid.size_x && 0 <= v < grid.size_y ==> #[trigger] flag_at(final(visited)@, grid.size_x as int, u, v)
                == solid(*grid, u, v, z as int),
{
    let w = grid.size_x;
    let h = grid.size_y;
    let ghost f = layer_cells(*grid, z as int);
    proof {
        let sx = w as int;
        let sy = h as int;
        let sz = grid.size_z as int;
        assert(sx * sy <= sx * sy * sz) by (nonlinear_arith)
            requires
                sz >= 1,
                sx >= 0,
                sy >= 0,
        ;
    }
    let n = grid.voxels.len();
    assert(w * h <= n);
    let wh = w * h;
    visited.resize(wh, false);
    let mut i: usize = 0;
    while i < wh
        invariant
            visited@.len() == wh,
            i <= wh,
            forall|k: int| 0 <= k < i ==> visited@[k] == false,
        decreases wh - i,
    {
        visited.set(i, false);
        i = i + 1;
    }
    rects.clear();
    proof {
        assert forall|u: int, v: int| 0 <= u < w && 0 <= v < h implies #[trigger] flag_at(visited@, w as int, u, v)
            == covered(layer_rect_views(rects@), u, v) by {
            lemma_flat_index(w as int, h as int, u, v);
        }
    }
    let ghost g = *grid;
    let mut y: usize = 0;
    while y < h
        invariant
            g == *grid,
            grid_wf(g),
            z < g.size_z,
            w == g.size_x,
            h == g.size_y,
            wh == w * h,
            f == layer_cells(g, z as int),
            visited@.len() == wh,
            y <= h,
            forall|u: int, v: int|
                0 <= u < w && 0 <= v < h ==> #[trigger] flag_at(visited@, w as int, u, v) == covered(layer_rect_views(rects@), u, v),
            forall|j: int|
                0 <= j < rects@.len() ==> #[trigger] greedy_rect_ok(f, w as int, h as int, layer_rect_views(rects@).take(j), layer_rect_views(rects@)[j]),
            forall|u: int, v: int|
                0 <= u < w && 0 <= v < h && scan_before(u, v, 0, y as int) ==> !#[trigger] is_free(f, layer_rect_views(rects@), u, v),
        decreases h - y,
    {
        let mut x: usize = 0;
        while x < w
            invariant
                g == *grid,
                grid_wf(g),
                z < g.size_z,
                w == g.size_x,
                h == g.size_y,
                wh == w * h,
                f == layer_cells(g, z as int),
                visited@.len() == wh,
                y < h,
                x <= w,
                forall|u: int, v: int|
                    0 <= u < w && 0 <= v < h ==> #[trigger] flag_at(visited@, w as int, u, v) == covered(layer_rect_views(rects@), u, v),
                forall|j: int|
                    0 <= j < rects@.len() ==> #[trigger] greedy_rect_ok(f, w as int, h as int, layer_rect_views(rects@).take(j), layer_rect_views(rects@)[j]),
                forall|u: int, v: int|
                    0 <= u < w && 0 <= v < h && scan_before(u, v, x as int, y as int) ==> !#[trigger] is_free(f, layer_rect_views(rects@), u, v),
            decreases w - x,
        {
            let ghost rs = layer_rect_views(rects@);
            if cell_blocked(grid, z, visited, w, h, x, y, Ghost(rs)) {
                x = x + 1;
                continue;
            }
            let mut max_x = x + 1;
            while max_x < w
                invariant
                    g == *grid,
                    grid_wf(g),
                    z < g.size_z,
                    w == g.size_x,
                    h == g.size_y,
                    f == layer_cells(g, z as int),
                    visited@.len() == w * h,
                    y < h,
                    x < max_x <= w,
                    rs == layer_rect_views(rects@),
                    forall|u: int, v: int|
                        0 <= u < w && 0 <= v < h ==> #[trigger] flag_at(visited@, w as int, u, v) == covered(rs, u, v),
                    forall|u: int| x <= u < max_x ==> #[trigger] is_free(f, rs, u, y as int),
                ensures
                    max_x == w || !is_free(f, rs, max_x as int, y as int),
                decreases w - max_x,
            {
                if cell_blocked(grid, z, visited, w, h, max_x, y, Ghost(rs)) {
                    break;
                }
                max_x = max_x + 1;
            }
            let mut max_y = y + 1;
            while max_y < h
                invariant
                    g == *grid,
                    grid_wf(g),
                    z < g.size_z,
                    w == g.size_x,
                    h == g.size_y,
                    f == layer_cells(g, z as int),
                    visited@.len() == w * h,
                    y < max_y <= h,
                    x < max_x <= w,
                    rs == layer_rect_views(rects@),
                    forall|u: int, v: int|
                        0 <= u < w && 0 <= v < h ==> #[trigger] flag_at(visited@, w as int, u, v) == covered(rs, u, v),
                    forall|u: int, v: int| x <= u < max_x && y < v < max_y ==> #[trigger] is_free(f, rs, u, v),
                ensures
                    max_y == h || exists|u: int| x <= u < max_x && !#[trigger] is_free(f, rs, u, max_y as int),
                decreases h - max_y,
            {
                if !row_free(grid, z, visited, w, h, max_y, x, max_x, Ghost(rs)) {
                    break;
                }
                max_y = max_y + 1;
            }
            let r = LayerRect { min_x: x, min_y: y, max_x, max_y };
            let ghost rv = layer_rect_view(r);
            proof {
                assert(greedy_rect_ok(f, w as int, h as int, rs, rv));
            }
            fill_rect(visited.as_mut_slice(), w, h, x, y, max_x, max_y, true);
            rects.push(r);
            proof {
                let rs2 = layer_rect_views(rects@);
                assert(rs2 =~= rs.push(rv));
                assert forall|u: int, v: int| 0 <= u < w && 0 <= v < h implies #[trigger] flag_at(visited@, w as int, u, v) == covered(rs2, u, v) by {
                    lemma_covered_push(rs, rv, u, v);
                }
                assert forall|j: int| 0 <= j < rects@.len() implies #[trigger] greedy_rect_ok(f, w as int, h as int, rs2.take(j), rs2[j]) by {
                    if j < rs.len() {
                        assert(rs2.take(j) =~= rs.take(j));
                        assert(rs2[j] == rs[j]);
                    } else {
                        assert(rs2.take(j) =~= rs);
                    }
                }
                assert forall|u: int, v: int| 0 <= u < w && 0 <= v < h && scan_before(u, v, x + 1, y as int) implies !#[trigger] is_free(f, rs2, u, v) by {
                    lemma_covered_push(rs, rv, u, v);
                    if scan_before(u, v, x as int, y as int) {
                        assert(!is_free(f, rs, u, v));
                    } else {
                        assert(u == x && v == y);
                        assert(in_rect(rv, u, v));
                    }
                }
            }
            x = x + 1;
        }
        y = y + 1;
    }
    proof {
        let rs = layer_rect_views(rects@);
        assert forall|u: int, v: int| 0 <= u < w && 0 <= v < h && f(u, v) implies #[trigger] covered(rs, u, v) by {
            assert(scan_before(u, v, 0, h as int));
            assert(!is_free(f, rs, u, v));
        }
        lemma_greedy_partition(f, w as int, h as int, rs);
        lemma_greedy_decomp(f, w as int, h as int, rs);
        assert forall|u: int, v: int| 0 <= u < w && 0 <= v < h implies #[trigger] flag_at(visited@, w as int, u, v) == solid(*grid, u, v, z as int) by {
            if covered(rs, u, v) {
                let j = choose|j: int| 0 <= j < rs.len() && in_rect(#[trigger] rs[j], u, v);
            }
            if solid(*grid, u, v, z as int) {
                assert(f(u, v));
            }
        }
    }
}

/// Whether cell `(x, y)` of layer `z` is not free: already flagged, or empty.
fn cell_blocked(
    grid: &VoxelGrid,
    z: usize,
    visited: &Vec<bool>,
    w: usize,
    h: usize,
    x: usize,
    y: usize,
    Ghost(rs): Ghost<Seq<(int, int, int, int)>>,
) -> (r: bool)
    requires
        grid_wf(*grid),
        z < grid.size_z,
        w == grid.size_x,
        h == grid.size_y,
        x < w,
        y < h,
        visited@.len() == w * h,
        forall|u: int, v: int|
            0 <= u < w && 0 <= v < h ==> #[trigger] flag_at(visited@, w as int, u, v) == covered(rs, u, v),
    ensures
        r == !is_free(layer_cells(*grid, z as int), rs, x as int, y as int),
{
    let n = visited.len();
    proof {
        lemma_flat_index(w as int, h as int, x as int, y as int);
        assert(flag_at(visited@, w as int, x as int, y as int) == covered(rs, x as int, y as int));
    }
    visited[y * w + x] || !grid.is_solid(x, y, z)
}

/// Whether every cell of row `y` in `[x0, x1)` of layer `z` is free.
fn row_free(
    grid: &VoxelGrid,
    z: usize,
    visited: &Vec<bool>,
    w: usize,
    h: usize,
    y: usize,
    x0: usize,
    x1: usize,
    Ghost(rs): Ghost<Seq<(int, int, int, int)>>,
) -> (r: bool)
    requires
        grid_wf(*grid),
        z < grid.size_z,
        w == grid.size_x,
        h == grid.size_y,
        x0 < x1 <= w,
        y < h,
        visited@.len() == w * h,
        forall|u: int, v: int|
            0 <= u < w && 0 <= v < h ==> #[trigger] flag_at(visited@, w as int, u, v) == covered(rs, u, v),
    ensures
        r == forall|u: int| x0 <= u < x1 ==> #[trigger] is_free(layer_cells(*grid, z as int), rs, u, y as int),
{
    let mut xx: usize = x0;
    while xx < x1
        invariant
            grid_wf(*grid),
            z < grid.size_z,
            w == grid.size_x,
            h == grid.size_y,
            x0 <= xx <= x1 <= w,
            y < h,
            visited@.len() == w * h,
            forall|u: int, v: int|
                0 <= u < w && 0 <= v < h ==> #[trigger] flag_at(visited@, w as int, u, v) == covered(rs, u, v),
            forall|u: int| x0 <= u < xx ==> #[trigger] is_free(layer_cells(*grid, z as int), rs, u, y as int),
        decreases x1 - xx,
    {
        if cell_blocked(grid, z, visited, w, h, xx, y, Ghost(rs)) {
            return false;
        }
        xx = xx + 1;
    }
    true
}

/// The marking of a row-major `w` by `h` mask.
pub open spec fn mask_cells(mask: Seq<bool>, w: int, h: int) -> spec_fn(int, int) -> bool {
    |u: int, v: int| 0 <= u < w && 0 <= v < h && mask[v * w + u]
}

/// Whether cell `(u, v)` of a `w` by `h` mask is set.
fn mask_at(mask: &[bool], w: usize, h: usize, u: usize, v: usize) -> (r: bool)
    requires
        mask@.len() == w * h,
        u < w,
        v < h,
    ensures
        r == flag_at(mask@, w as int, u as int, v as int),
{
    let n = mask.len();
    proof {
        lemma_flat_index(w as int, h as int, u as int, v as int);
    }
    mask[v * w + u]
}

/// Whether every cell of row `v` in `[u0, u1)` of a mask is set.
fn mask_row_set(mask: &[bool], w: usize, h: usize, v: usize, u0: usize, u1: usize) -> (r: bool)
    requires
        mask@.len() == w * h,
        u0 < u1 <= w,
        v < h,
    ensures
        r == forall|u: int| u0 <= u < u1 ==> #[trigger] flag_at(mask@, w as int, u, v as int),
{
    let mut uu: usize = u0;
    while uu < u1
        invariant
            mask@.len() == w * h,
            u0 <= uu <= u1 <= w,
            v < h,
            forall|u: int| u0 <= u < uu ==> #[trigger] flag_at(mask@, w as int, u, v as int),
        decreases u1 - uu,
    {
        if !mask_at(mask, w, h, uu, v) {
            return false;
        }
        uu = uu + 1;
    }
    true
}

/// Splits the set cells of a `w` by `h` mask into rectangles by the greedy
/// rule (`greedy_rects`), clearing each rectangle from the mask as it is
/// taken; afterwards the mask is clear.
pub fn mask_rectangles(mask: &mut [bool], w: usize, h: usize) -> (rects: Vec<LayerRect>)
    requires
        old(mask)@.len() == w * h,
    ensures
        final(mask)@.len() == w * h,
        forall|i: int| 0 <= i < w * h ==> !#[trigger] final(mask)@[i],
        greedy_rects(mask_cells(old(mask)@, w as int, h as int), w as int, h as int, layer_rect_views(rects@)),
        layer_rect_views(rects@) == greedy_decomp(mask_cells(old(mask)@, w as int, h as int), w as int, h as int),
{
    let ghost f = mask_cells(mask@, w as int, h as int);
    let ghost m0 = mask@;
    let mut rects: Vec<LayerRect> = Vec::new();
    proof {
        assert forall|u: int, v: int| 0 <= u < w && 0 <= v < h implies #[trigger] flag_at(mask@, w as int, u, v)
            == is_free(f, layer_rect_views(rects@), u, v) by {
            lemma_flat_index(w as int, h as int, u, v);
        }
    }
    let mut y: usize = 0;
    while y < h
        invariant
            f == mask_cells(m0, w as int, h as int),
            mask@.len() == w * h,
            y <= h,
            forall|u: int, v: int|
                0 <= u < w && 0 <= v < h ==> #[trigger] flag_at(mask@, w as int, u, v) == is_free(f, layer_rect_views(rects@), u, v),
            greedy_chain(f, w as int, h as int, layer_rect_views(rects@)),
            forall|u: int, v: int|
                0 <= u < w && 0 <= v < h && scan_before(u, v, 0, y as int) ==> !#[trigger] is_free(f, layer_rect_views(rects@), u, v),
        decreases h - y,
    {
        let mut x: usize = 0;
        while x < w
            invariant
                f == mask_cells(m0, w as int, h as int),
                mask@.len() == w * h,
                y < h,
                x <= w,
                forall|u: int, v: int|
                    0 <= u < w && 0 <= v < h ==> #[trigger] flag_at(mask@, w as int, u, v) == is_free(f, layer_rect_views(rects@), u, v),
                greedy_chain(f, w as int, h as int, layer_rect_views(rects@)),
                forall|u: int, v: int|
                    0 <= u < w && 0 <= v < h && scan_before(u, v, x as int, y as int) ==> !#[trigger] is_free(f, layer_rect_views(rects@), u, v),
            decreases w - x,
        {
            let ghost rs = layer_rect_views(rects@);
            if !mask_at(mask, w, h, x, y) {
                x = x + 1;
                continue;
            }
            let mut max_x = x + 1;
            while max_x < w
                invariant
                    mask@.len() == w * h,
                    y < h,
                    x < max_x <= w,
                    forall|u: int| x <= u < max_x ==> #[trigger] flag_at(mask@, w as int, u, y as int),
                ensures
                    max_x == w || !flag_at(mask@, w as int, max_x as int, y as int),
                decreases w - max_x,
            {
                if !mask_at(mask, w, h, max_x, y) {
                    break;
                }
                max_x = max_x + 1;
            }
            let mut max_y = y + 1;
            while max_y < h
                invariant
                    mask@.len() == w * h,
                    y < max_y <= h,
                    x < max_x <= w,
                    forall|u: int, v: int| x <= u < max_x && y < v < max_y ==> #[trigger] flag_at(mask@, w as int, u, v),
                ensures
                    max_y == h || exists|u: int| x <= u < max_x && !#[trigger] flag_at(mask@, w as int, u, max_y as int),
                decreases h - max_y,
            {
                if !mask_row_set(mask, w, h, max_y, x, max_x) {
                    break;
                }
                max_y = max_y + 1;
            }
            let r = LayerRect { min_x: x, min_y: y, max_x, max_y };
            let ghost rv = layer_rect_view(r);
            proof {
                assert(is_free(f, rs, x as int, y as int));
                assert forall|u: int| x <= u < max_x implies #[trigger] is_free(f, rs, u, y as int) by {
                    assert(flag_at(mask@, w as int, u, y as int));
                }
                if max_x < w {
                    assert(!is_free(f, rs, max_x as int, y as int));
                }
                assert forall|u: int, v: int| x <= u < max_x && y < v < max_y implies #[trigger] is_free(f, rs, u, v) by {
                    assert(flag_at(mask@, w as int, u, v));
                }
                if max_y < h {
                    let u = choose|u: int| x <= u < max_x && !#[trigger] flag_at(mask@, w as int, u, max_y as int);
                    assert(!is_free(f, rs, u, max_y as int));
                }
                assert(greedy_rect_ok(f, w as int, h as int, rs, rv));
            }
            fill_rect(mask, w, h, x, y, max_x, max_y, false);
            rects.push(r);
            proof {
                let rs2 = layer_rect_views(rects@);
                assert(rs2 =~= rs.push(rv));
                assert forall|u: int, v: int| 0 <= u < w && 0 <= v < h implies #[trigger] flag_at(mask@, w as int, u, v)
                    == is_free(f, rs2, u, v) by {
                    lemma_covered_push(rs, rv, u, v);
                }
                assert forall|j: int| 0 <= j < rs2.len() implies #[trigger] greedy_rect_ok(f, w as int, h as int, rs2.take(j), rs2[j]) by {
                    if j < rs.len() {
                        assert(rs2.take(j) =~= rs.take(j));
                        assert(rs2[j] == rs[j]);
                    } else {
                        assert(rs2.take(j) =~= rs);
                    }
                }
                assert forall|u: int, v: int| 0 <= u < w && 0 <= v < h && scan_before(u, v, x + 1, y as int) implies !#[trigger] is_free(f, rs2, u, v) by {
                    lemma_covered_push(rs, rv, u, v);
                    if scan_before(u, v, x as int, y as int) {
                        assert(!is_free(f, rs, u, v));
                    } else {
                        assert(u == x && v == y);
                        assert(in_rect(rv, u, v));
                    }
                }
            }
            x = x + 1;
        }
        y = y + 1;
    }
    proof {
        let rs = layer_rect_views(rects@);
        assert forall|u: int, v: int| 0 <= u < w && 0 <= v < h && f(u, v) implies #[trigger] covered(rs, u, v) by {
            assert(scan_before(u, v, 0, h as int));
            assert(!is_free(f, rs, u, v));
        }
        lemma_greedy_decomp(f, w as int, h as int, rs);
        assert forall|i: int| 0 <= i < w * h implies !#[trigger] mask@[i] by {
            let u = i % (w as int);
            let v = i / (w as int);
            assert(w > 0) by (nonlinear_arith)
                requires
                    0 <= i < w * h,
                    h >= 0,
            ;
            vstd::arithmetic::div_mod::lemma_fundamental_div_mod(i, w as int);
            vstd::arithmetic::div_mod::lemma_mod_pos_bound(i, w as int);
            assert(0 <= v < h) by (nonlinear_arith)
                requires
                    i == w * v + u,
                    0 <= u < w,
                    0 <= i < w * h,
            ;
            assert(flag_at(mask@, w as int, u, v) == is_free(f, rs, u, v));
            assert(v * w + u == i) by (nonlinear_arith)
                requires
                    i == w * v + u,
            ;
        }
    }
    rects
}

/// The side of a cell that a face looks out of.
#[derive(Clone, Copy, Debug, PartialEq, Eq, Structural)]
pub enum FaceDir {
    XNeg,
    XPos,
    YNeg,
    YPos,
    ZNeg,
    ZPos,
}

/// A rectangle of faces on the plane `plane` across the axis of `dir`,
/// spanning `[min_u, max_u) x [min_v, max_v)` on the other two axes.
#[derive(Clone, Copy, Debug, PartialEq, Eq, Structural)]
pub struct FaceRect {
    pub dir: FaceDir,
    pub plane: usize,
    pub min_u: usize,
    pub min_v: usize,
    pub max_u: usize,
    pub max_v: usize,
}

/// A `width` by `height` mask of faces on plane `plane`.
#[derive(Clone, Copy, Debug, PartialEq, Eq, Structural)]
pub struct FaceMask {
    pub dir: FaceDir,
    pub plane: usize,
    pub width: usize,
    pub height: usize,
}

/// A lattice point of the grid, in grid units.
#[derive(Clone, Copy, Debug, PartialEq, Eq, Structural)]
pub struct GridPoint {
    pub x: usize,
    pub y: usize,
    pub z: usize,
}

/// The lattice point `(x, y, z)`.
pub open spec fn gp(x: usize, y: usize, z: usize) -> GridPoint {
    GridPoint { x, y, z }
}

/// The four corners of a face rectangle, wound so that the face looks out
/// along `dir`.
pub open spec fn face_corners(r: FaceRect) -> [GridPoint; 4] {
    match r.dir {
        FaceDir::XNeg => [
            gp(r.plane, r.min_u, r.min_v),
            gp(r.plane, r.min_u, r.max_v),
            gp(r.plane, r.max_u, r.max_v),
            gp(r.plane, r.max_u, r.min_v),
        ],
        FaceDir::XPos => [
            gp(r.plane, r.min_u, r.min_v),
            gp(r.plane, r.max_u, r.min_v),
            gp(r.plane, r.max_u, r.max_v),
            gp(r.plane, r.min_u, r.max_v),
        ],
        FaceDir::YNeg => [
            gp(r.min_u, r.plane, r.min_v),
            gp(r.max_u, r.plane, r.min_v),
            gp(r.max_u, r.plane, r.max_v),
            gp(r.min_u, r.plane, r.max_v),
        ],
        FaceDir::YPos => [
            gp(r.min_u, r.plane, r.min_v),
            gp(r.min_u, r.plane, r.max_v),
            gp(r.max_u, r.plane, r.max_v),
            gp(r.max_u, r.plane, r.min_v),
        ],
        FaceDir::ZNeg => [
            gp(r.min_u, r.min_v, r.plane),
            gp(r.min_u, r.max_v, r.plane),
            gp(r.max_u, r.max_v, r.plane),
            gp(r.max_u, r.min_v, r.plane),
        ],
        FaceDir::ZPos => [
            gp(r.min_u, r.min_v, r.plane),
            gp(r.max_u, r.min_v, r.plane),
            gp(r.max_u, r.max_v, r.plane),
            gp(r.min_u, r.max_v, r.plane),
        ],
    }
}

/// The two triangles of a quad whose corners start at vertex `base`.
pub open spec fn quad_triangles(base: int) -> Seq<[u32; 3]> {
    seq![[base as u32, (base + 1) as u32, (base + 2) as u32], [base as u32, (base + 2) as u32, (base + 3) as u32]]
}

/// The triangles of `n` quads whose corners start at vertex `base`.
pub open spec fn quads_triangles(base: int, n: nat) -> Seq<[u32; 3]>
    decreases n,
{
    if n == 0 {
        Seq::empty()
    } else {
        quads_triangles(base, (n - 1) as nat) + quad_triangles(base + 4 * (n - 1))
    }
}

/// Appends a quad: its four corners, and two triangles over them. Fails,
/// appending nothing, once the vertex count no longer fits in `u32`.
fn push_face(vertices: &mut Vec<GridPoint>, indices: &mut Vec<[u32; 3]>, corners: [GridPoint; 4]) -> (r: Option<()>)
    requires
        old(vertices)@.len() % 4 == 0,
    ensures
        r is Some <==> old(vertices)@.len() <= u32::MAX,
        r is Some ==> final(vertices)@ == old(vertices)@ + corners@ && final(indices)@ == old(indices)@ + quad_triangles(
            old(vertices)@.len() as int,
        ),
        r is None ==> final(vertices)@ == old(vertices)@ && final(indices)@ == old(indices)@,
{
    if vertices.len() > u32::MAX as usize {
        return None;
    }
    let base = vertices.len() as u32;
    vertices.push(corners[0]);
    vertices.push(corners[1]);
    vertices.push(corners[2]);
    vertices.push(corners[3]);
    indices.push([base, base + 1, base + 2]);
    indices.push([base, base + 2, base + 3]);
    proof {
        assert(vertices@ =~= old(vertices)@ + corners@);
        assert(indices@ =~= old(indices)@ + quad_triangles(old(vertices)@.len() as int));
    }
    Some(())
}

/// Appends the quad of a face rectangle.
fn push_face_rect(vertices: &mut Vec<GridPoint>, indices: &mut Vec<[u32; 3]>, rect: FaceRect) -> (r: Option<()>)
    requires
        old(vertices)@.len() % 4 == 0,
    ensures
        r is Some <==> old(vertices)@.len() <= u32::MAX,
        r is Some ==> final(vertices)@ == old(vertices)@ + face_corners(rect)@ && final(indices)@ == old(indices)@
            + quad_triangles(old(vertices)@.len() as int),
        r is None ==> final(vertices)@ == old(vertices)@ && final(indices)@ == old(indices)@,
{
    let corners = match rect.dir {
        FaceDir::XNeg => [
            GridPoint { x: rect.plane, y: rect.min_u, z: rect.min_v },
            GridPoint { x: rect.plane, y: rect.min_u, z: rect.max_v },
            GridPoint { x: rect.plane, y: rect.max_u, z: rect.max_v },
            GridPoint { x: rect.plane, y: rect.max_u, z: rect.min_v },
        ],
        FaceDir::XPos => [
            GridPoint { x: rect.plane, y: rect.min_u, z: rect.min_v },
            GridPoint { x: rect.plane, y: rect.max_u, z: rect.min_v },
            GridPoint { x: rect.plane, y: rect.max_u, z: rect.max_v },
            GridPoint { x: rect.plane, y: rect.min_u, z: rect.max_v },
        ],
        FaceDir::YNeg => [
            GridPoint { x: rect.min_u, y: rect.plane, z: rect.min_v },
            GridPoint { x: rect.max_u, y: rect.plane, z: rect.min_v },
            GridPoint { x: rect.max_u, y: rect.plane, z: rect.max_v },
            GridPoint { x: rect.min_u, y: rect.plane, z: rect.max_v },
        ],
        FaceDir::YPos => [
            GridPoint { x: rect.min_u, y: rect.plane, z: rect.min_v },
            GridPoint { x: rect.min_u, y: rect.plane, z: rect.max_v },
            GridPoint { x: rect.max_u, y: rect.plane, z: rect.max_v },
            GridPoint { x: rect.max_u, y: rect.plane, z: rect.min_v },
        ],
        FaceDir::ZNeg => [
            GridPoint { x: rect.min_u, y: rect.min_v, z: rect.plane },
            GridPoint { x: rect.min_u, y: rect.max_v, z: rect.plane },
            GridPoint { x: rect.max_u, y: rect.max_v, z: rect.plane },
            GridPoint { x: rect.max_u, y: rect.min_v, z: rect.plane },
        ],
        FaceDir::ZPos => [
            GridPoint { x: rect.min_u, y: rect.min_v, z: rect.plane },
            GridPoint { x: rect.max_u, y: rect.min_v, z: rect.plane },
            GridPoint { x: rect.max_u, y: rect.max_v, z: rect.plane },
            GridPoint { x: rect.min_u, y: rect.max_v, z: rect.plane },
        ],
    };
    assert(corners == face_corners(rect));
    push_face(vertices, indices, corners)
}

/// The face rectangle of mask `face` covering the mask rectangle `r`.
pub open spec fn face_rect_of(face: FaceMask, r: (int, int, int, int)) -> FaceRect {
    FaceRect {
        dir: face.dir,
        plane: face.plane,
        min_u: r.0 as usize,
        min_v: r.1 as usize,
        max_u: r.2 as usize,
        max_v: r.3 as usize,
    }
}

/// The corners of the faces of the mask rectangles `rs`, four per rectangle.
pub open spec fn mask_face_points(face: FaceMask, rs: Seq<(int, int, int, int)>) -> Seq<GridPoint>
    decreases rs.len(),
{
    if rs.len() == 0 {
        Seq::empty()
    } else {
        mask_face_points(face, rs.drop_last()) + face_corners(face_rect_of(face, rs.last()))@
    }
}

/// Each rectangle gives four corners.
pub proof fn lemma_mask_face_points_len(face: FaceMask, rs: Seq<(int, int, int, int)>)
    ensures
        mask_face_points(face, rs).len() == 4 * rs.len(),
    decreases rs.len(),
{
    if rs.len() > 0 {
        lemma_mask_face_points_len(face, rs.drop_last());
    }
}

/// Turns the set cells of `mask` into as few face quads as the greedy rule
/// gives (one per rectangle of `greedy_decomp`, in its order), and clears the
/// mask. Fails once the vertex count no longer fits in `u32`.
pub fn push_greedy_face_mask(
    vertices: &mut Vec<GridPoint>,
    indices: &mut Vec<[u32; 3]>,
    face: FaceMask,
    mask: &mut [bool],
) -> (r: Option<()>)
    requires
        old(mask)@.len() == face.width * face.height,
        old(vertices)@.len() % 4 == 0,
    ensures
        ({
            let rs = greedy_decomp(mask_cells(old(mask)@, face.width as int, face.height as int), face.width as int, face.height as int);
            &&& r is Some <==> rs.len() == 0 || old(vertices)@.len() + 4 * rs.len() <= 0x1_0000_0000
            &&& r is Some ==> final(vertices)@ == old(vertices)@ + mask_face_points(face, rs)
                && final(indices)@ == old(indices)@ + quads_triangles(old(vertices)@.len() as int, rs.len())
        }),
        final(mask)@.len() == old(mask)@.len(),
        forall|i: int| 0 <= i < final(mask)@.len() ==> !#[trigger] final(mask)@[i],
{
    let ghost v0 = vertices@;
    let ghost i0 = indices@;
    let rects = mask_rectangles(mask, face.width, face.height);
    let ghost rs = layer_rect_views(rects@);
    let mut k: usize = 0;
    while k < rects.len()
        invariant
            rs == layer_rect_views(rects@),
            rs == greedy_decomp(mask_cells(old(mask)@, face.width as int, face.height as int), face.width as int, face.height as int),
            greedy_rects(mask_cells(old(mask)@, face.width as int, face.height as int), face.width as int, face.height as int, rs),
            old(mask)@.len() == face.width * face.height,
            v0 == old(vertices)@,
            i0 == old(indices)@,
            k <= rects@.len(),
            v0.len() % 4 == 0,
            k == 0 || v0.len() + 4 * k <= 0x1_0000_0000,
            vertices@ == v0 + mask_face_points(face, rs.take(k as int)),
            mask@.len() == face.width * face.height,
            forall|i: int| 0 <= i < face.width * face.height ==> !#[trigger] mask@[i],
            indices@ == i0 + quads_triangles(v0.len() as int, k as nat),
        decreases rects@.len() - k,
    {
        proof {
            lemma_mask_face_points_len(face, rs.take(k as int));
            assert(rs.take(k + 1).drop_last() =~= rs.take(k as int));
        }
        let r = rects[k];
        let rect = FaceRect {
            dir: face.dir,
            plane: face.plane,
            min_u: r.min_x,
            min_v: r.min_y,
            max_u: r.max_x,
            max_v: r.max_y,
        };
        assert(rect == face_rect_of(face, rs[k as int]));
        let pushed = push_face_rect(vertices, indices, rect);
        if pushed.is_none() {
            proof {
                assert(v0.len() + 4 * rs.len() > 0x1_0000_0000);
            }
            return None;
        }
        proof {
            assert(vertices@ =~= v0 + mask_face_points(face, rs.take(k + 1)));
            assert(indices@ =~= i0 + quads_triangles(v0.len() as int, (k + 1) as nat));
        }
        k = k + 1;
    }
    proof {
        assert(rs.take(k as int) =~= rs);
    }
    Some(())
}

/// Clears `mask` to `len` unset flags and hands it out as a slice.
pub fn reset_mask(mask: &mut Vec<bool>, len: usize) -> (r: &mut [bool])
    ensures
        r@.len() == len,
        forall|i: int| 0 <= i < len ==> !#[trigger] r@[i],
        final(mask)@ == final(r)@,
{
    mask.resize(len, false);
    let mut i: usize = 0;
    while i < len
        invariant
            mask@.len() == len,
            i <= len,
            forall|j: int| 0 <= j < i ==> !#[trigger] mask@[j],
        decreases len - i,
    {
        mask.set(i, false);
        i = i + 1;
    }
    mask.as_mut_slice()
}

/// The cell at depth `k` along `axis` (0, 1 or 2 for x, y or z) and at
/// `(u, v)` on the other two axes, taken in order.
pub open spec fn axis_cell(axis: int, k: int, u: int, v: int) -> (int, int, int) {
    if axis == 0 {
        (k, u, v)
    } else if axis == 1 {
        (u, k, v)
    } else {
        (u, v, k)
    }
}

/// The number of cells along `axis`.
pub open spec fn axis_depth(g: VoxelGrid, axis: int) -> int {
    if axis == 0 {
        g.size_x as int
    } else if axis == 1 {
        g.size_y as int
    } else {
        g.size_z as int
    }
}

/// The width and height of a slice across `axis`.
pub open spec fn axis_dims(g: VoxelGrid, axis: int) -> (int, int) {
    if axis == 0 {
        (g.size_y as int, g.size_z as int)
    } else if axis == 1 {
        (g.size_x as int, g.size_z as int)
    } else {
        (g.size_x as int, g.size_y as int)
    }
}

/// The face of cell `axis_cell(axis, k, u, v)` toward `k + step` is on the
/// surface: the cell is solid and its neighbour across the face is not.
pub open spec fn exposed(g: VoxelGrid, axis: int, k: int, step: int, u: int, v: int) -> bool {
    let c = axis_cell(axis, k, u, v);
    let n = axis_cell(axis, k + step, u, v);
    solid_at(g, c.0, c.1, c.2) && !solid_at(g, n.0, n.1, n.2)
}

/// The exposed faces of slice `k` toward `k + step`, as a marking.
pub open spec fn exposure(g: VoxelGrid, axis: int, k: int, step: int) -> spec_fn(int, int) -> bool {
    |u: int, v: int| exposed(g, axis, k, step, u, v)
}

/// The direction faces across `axis` look toward `k + step`.
pub open spec fn axis_dir(axis: int, step: int) -> FaceDir {
    if axis == 0 {
        if step < 0 { FaceDir::XNeg } else { FaceDir::XPos }
    } else if axis == 1 {
        if step < 0 { FaceDir::YNeg } else { FaceDir::YPos }
    } else {
        if step < 0 { FaceDir::ZNeg } else { FaceDir::ZPos }
    }
}

/// The face mask of slice `k` toward `k + step`: its faces lie on plane `k`
/// or `k + 1`.
pub open spec fn axis_mask(g: VoxelGrid, axis: int, k: int, step: int) -> FaceMask {
    FaceMask {
        dir: axis_dir(axis, step),
        plane: (if step < 0 { k } else { k + 1 }) as usize,
        width: axis_dims(g, axis).0 as usize,
        height: axis_dims(g, axis).1 as usize,
    }
}

/// The quad corners of the exposed faces of slice `k` toward `k + step`.
pub open spec fn slice_points(g: VoxelGrid, axis: int, k: int, step: int) -> Seq<GridPoint> {
    mask_face_points(
        axis_mask(g, axis, k, step),
        greedy_decomp(exposure(g, axis, k, step), axis_dims(g, axis).0, axis_dims(g, axis).1),
    )
}

/// The quad corners of the first `n` slices across `axis`, each slice its
/// lower faces, then its upper faces.
pub open spec fn axis_points(g: VoxelGrid, axis: int, n: int) -> Seq<GridPoint>
    decreases n,
{
    if n <= 0 {
        Seq::empty()
    } else {
        axis_points(g, axis, n - 1) + slice_points(g, axis, n - 1, -1) + slice_points(g, axis, n - 1, 1)
    }
}

/// The quad corners of the whole surface: x slices, then y, then z.
pub open spec fn surface_points(g: VoxelGrid) -> Seq<GridPoint> {
    axis_points(g, 0, g.size_x as int) + axis_points(g, 1, g.size_y as int) + axis_points(g, 2, g.size_z as int)
}

/// More slices give at least as many corners, and corners come in fours.
pub proof fn lemma_axis_points_len(g: VoxelGrid, axis: int, m: int, n: int)
    requires
        m <= n,
    ensures
        axis_points(g, axis, m).len() <= axis_points(g, axis, n).len(),
        axis_points(g, axis, n).len() % 4 == 0,
    decreases n,
{
    if n > 0 {
        lemma_axis_points_len(g, axis, if m < n { m } else { n - 1 }, n - 1);
        let d1 = greedy_decomp(exposure(g, axis, n - 1, -1), axis_dims(g, axis).0, axis_dims(g, axis).1);
        let d2 = greedy_decomp(exposure(g, axis, n - 1, 1), axis_dims(g, axis).0, axis_dims(g, axis).1);
        lemma_mask_face_points_len(axis_mask(g, axis, n - 1, -1), d1);
        lemma_mask_face_points_len(axis_mask(g, axis, n - 1, 1), d2);
    }
}

/// The triangles of consecutive quads join up.
pub proof fn lemma_quads_triangles_concat(b: int, n: nat, m: nat)
    ensures
        quads_triangles(b, n) + quads_triangles(b + 4 * n, m) == quads_triangles(b, n + m),
    decreases m,
{
    if m > 0 {
        lemma_quads_triangles_concat(b, n, (m - 1) as nat);
        assert(quads_triangles(b, n) + quads_triangles(b + 4 * n, m) =~= quads_triangles(b, n) + quads_triangles(
            b + 4 * n,
            (m - 1) as nat,
        ) + quad_triangles(b + 4 * n + 4 * (m - 1)));
    } else {
        assert(quads_triangles(b, n) + quads_triangles(b + 4 * n, m) =~= quads_triangles(b, n));
    }
}

/// Every dimension of a grid with a cell is at most its byte count.
proof fn lemma_dims_bounded(g: VoxelGrid)
    requires
        grid_wf(g),
        g.size_x >= 1,
        g.size_y >= 1,
        g.size_z >= 1,
    ensures
        g.size_x <= g.voxels@.len(),
        g.size_y <= g.voxels@.len(),
        g.size_z <= g.voxels@.len(),
        g.size_x * g.size_y <= g.voxels@.len(),
        g.size_x * g.size_z <= g.voxels@.len(),
        g.size_y * g.size_z <= g.voxels@.len(),
{
    let a = g.size_x as int;
    let b = g.size_y as int;
    let c = g.size_z as int;
    assert(a <= a * b * c && b <= a * b * c && c <= a * b * c && a * b <= a * b * c && a * c <= a * b * c && b * c
        <= a * b * c) by (nonlinear_arith)
        requires
            a >= 1,
            b >= 1,
            c >= 1,
    ;
}

/// The cell at depth `k` along `axis` and `(u, v)` across it.
fn axis_cell_exec(axis: usize, k: usize, u: usize, v: usize) -> (r: (usize, usize, usize))
    ensures
        (r.0 as int, r.1 as int, r.2 as int) == axis_cell(axis as int, k as int, u as int, v as int),
{
    if axis == 0 {
        (k, u, v)
    } else if axis == 1 {
        (u, k, v)
    } else {
        (u, v, k)
    }
}

/// Whether the cell at depth `k + step` along `axis` and `(u, v)` across it
/// is solid; positions outside the grid are empty.
fn neighbour_solid(grid: &VoxelGrid, axis: usize, k: usize, u: usize, v: usize, step: isize) -> (r: bool)
    requires
        grid_wf(*grid),
        k < isize::MAX,
        u < isize::MAX,
        v < isize::MAX,
        step == -1 || step == 1,
    ensures
        ({
            let n = axis_cell(axis as int, k + step, u as int, v as int);
            r == solid_at(*grid, n.0, n.1, n.2)
        }),
{
    let kk = k as isize + step;
    let uu = u as isize;
    let vv = v as isize;
    if axis == 0 {
        grid.is_solid_checked(kk, uu, vv)
    } else if axis == 1 {
        grid.is_solid_checked(uu, kk, vv)
    } else {
        grid.is_solid_checked(uu, vv, kk)
    }
}

/// Fills the two face masks of slice `k` across `axis`: `neg` marks the
/// exposed faces toward `k - 1`, `pos` those toward `k + 1`.
fn fill_exposure(grid: &VoxelGrid, axis: usize, k: usize, neg: &mut [bool], pos: &mut [bool])
    requires
        grid_wf(*grid),
        axis < 3,
        k < axis_depth(*grid, axis as int),
        old(neg)@.len() == axis_dims(*grid, axis as int).0 * axis_dims(*grid, axis as int).1,
        old(pos)@.len() == axis_dims(*grid, axis as int).0 * axis_dims(*grid, axis as int).1,
    ensures
        final(neg)@.len() == old(neg)@.len(),
        final(pos)@.len() == old(pos)@.len(),
        forall|u: int, v: int|
            0 <= u < axis_dims(*grid, axis as int).0 && 0 <= v < axis_dims(*grid, axis as int).1 ==> #[trigger] flag_at(
                final(neg)@,
                axis_dims(*grid, axis as int).0,
                u,
                v,
            ) == exposed(*grid, axis as int, k as int, -1, u, v),
        forall|u: int, v: int|
            0 <= u < axis_dims(*grid, axis as int).0 && 0 <= v < axis_dims(*grid, axis as int).1 ==> #[trigger] flag_at(
                final(pos)@,
                axis_dims(*grid, axis as int).0,
                u,
                v,
            ) == exposed(*grid, axis as int, k as int, 1, u, v),
{
    let w = if axis == 0 {
        grid.size_y
    } else {
        grid.size_x
    };
    let h = if axis == 2 {
        grid.size_y
    } else {
        grid.size_z
    };
    let ghost g = *grid;
    let mut v: usize = 0;
    while v < h
        invariant
            g == *grid,
            grid_wf(g),
            axis < 3,
            k < axis_depth(g, axis as int),
            (w as int, h as int) == axis_dims(g, axis as int),
            neg@.len() == w * h,
            pos@.len() == w * h,
            v <= h,
            forall|uu: int, vv: int|
                0 <= uu < w && 0 <= vv < v ==> #[trigger] flag_at(neg@, w as int, uu, vv) == exposed(g, axis as int, k as int, -1, uu, vv),
            forall|uu: int, vv: int|
                0 <= uu < w && 0 <= vv < v ==> #[trigger] flag_at(pos@, w as int, uu, vv) == exposed(g, axis as int, k as int, 1, uu, vv),
        decreases h - v,
    {
        let mut u: usize = 0;
        while u < w
            invariant
                g == *grid,
                grid_wf(g),
                axis < 3,
                k < axis_depth(g, axis as int),
                (w as int, h as int) == axis_dims(g, axis as int),
                neg@.len() == w * h,
                pos@.len() == w * h,
                v < h,
                u <= w,
                forall|uu: int, vv: int|
                    0 <= uu < w && 0 <= vv < h && (vv < v || (vv == v && uu < u)) ==> #[trigger] flag_at(neg@, w as int, uu, vv)
                        == exposed(g, axis as int, k as int, -1, uu, vv),
                forall|uu: int, vv: int|
                    0 <= uu < w && 0 <= vv < h && (vv < v || (vv == v && uu < u)) ==> #[trigger] flag_at(pos@, w as int, uu, vv)
                        == exposed(g, axis as int, k as int, 1, uu, vv),
            decreases w - u,
        {
            let c = axis_cell_exec(axis, k, u, v);
            proof {
                assert(in_grid(g, c.0 as int, c.1 as int, c.2 as int));
                lemma_dims_bounded(g);
                lemma_flat_index(w as int, h as int, u as int, v as int);
            }
            let n = neg.len();
            let i = v * w + u;
            let here = grid.is_solid(c.0, c.1, c.2);
            let ghost before_neg = neg@;
            let ghost before_pos = pos@;
            neg[i] = here && !neighbour_solid(grid, axis, k, u, v, -1);
            pos[i] = here && !neighbour_solid(grid, axis, k, u, v, 1);
            proof {
                assert forall|uu: int, vv: int|
                    0 <= uu < w && 0 <= vv < h && (vv < v || (vv == v && uu < u + 1)) implies #[trigger] flag_at(neg@, w as int, uu, vv)
                        == exposed(g, axis as int, k as int, -1, uu, vv) by {
                    lemma_flat_index(w as int, h as int, uu, vv);
                    if vv * w + uu == i {
                        lemma_flat_index_inj(w as int, uu, vv, u as int, v as int);
                    } else {
                        assert(flag_at(neg@, w as int, uu, vv) == flag_at(before_neg, w as int, uu, vv));
                    }
                }
                assert forall|uu: int, vv: int|
                    0 <= uu < w && 0 <= vv < h && (vv < v || (vv == v && uu < u + 1)) implies #[trigger] flag_at(pos@, w as int, uu, vv)
                        == exposed(g, axis as int, k as int, 1, uu, vv) by {
                    lemma_flat_index(w as int, h as int, uu, vv);
                    if vv * w + uu == i {
                        lemma_flat_index_inj(w as int, uu, vv, u as int, v as int);
                    } else {
                        assert(flag_at(pos@, w as int, uu, vv) == flag_at(before_pos, w as int, uu, vv));
                    }
                }
            }
            u = u + 1;
        }
        v = v + 1;
    }
}

/// A mask that flags exactly the exposed faces of a slice marks them.
proof fn lemma_mask_exposure(g: VoxelGrid, axis: int, k: int, step: int, mask: Seq<bool>)
    requires
        0 <= axis < 3,
        forall|u: int, v: int|
            0 <= u < axis_dims(g, axis).0 && 0 <= v < axis_dims(g, axis).1 ==> #[trigger] flag_at(mask, axis_dims(g, axis).0, u, v)
                == exposed(g, axis, k, step, u, v),
    ensures
        mask_cells(mask, axis_dims(g, axis).0, axis_dims(g, axis).1) == exposure(g, axis, k, step),
{
    let w = axis_dims(g, axis).0;
    let h = axis_dims(g, axis).1;
    assert forall|u: int, v: int| #[trigger] mask_cells(mask, w, h)(u, v) == exposure(g, axis, k, step)(u, v) by {
        if 0 <= u < w && 0 <= v < h {
            assert(flag_at(mask, w, u, v) == exposed(g, axis, k, step, u, v));
        }
    }
    assert(mask_cells(mask, w, h) =~= exposure(g, axis, k, step));
}

/// A slice across an axis has at most as many cells as the grid.
proof fn lemma_slice_size(g: VoxelGrid, axis: int)
    requires
        grid_wf(g),
        axis_depth(g, axis) >= 1,
    ensures
        axis_dims(g, axis).0 * axis_dims(g, axis).1 <= g.voxels@.len(),
{
    let a = g.size_x as int;
    let b = g.size_y as int;
    let c = g.size_z as int;
    assert(a >= 1 ==> b * c <= a * b * c) by (nonlinear_arith)
        requires
            b >= 0,
            c >= 0,
    ;
    assert(b >= 1 ==> a * c <= a * b * c) by (nonlinear_arith)
        requires
            a >= 0,
            c >= 0,
    ;
    assert(c >= 1 ==> a * b <= a * b * c) by (nonlinear_arith)
        requires
            a >= 0,
            b >= 0,
    ;
}

/// Appends the surface quads of slice `k` across `axis`: its faces toward
/// lower cells, then toward higher ones, using the two vectors as scratch
/// masks. Fails once the vertex count no longer fits in `u32`.
fn push_slice_faces(
    grid: &VoxelGrid,
    axis: usize,
    k: usize,
    vertices: &mut Vec<GridPoint>,
    indices: &mut Vec<[u32; 3]>,
    neg_mask: &mut Vec<bool>,
    pos_mask: &mut Vec<bool>,
) -> (r: Option<()>)
    requires
        grid_wf(*grid),
        axis < 3,
        k < axis_depth(*grid, axis as int),
        old(vertices)@.len() % 4 == 0,
    ensures
        ({
            let p1 = slice_points(*grid, axis as int, k as int, -1);
            let p2 = slice_points(*grid, axis as int, k as int, 1);
            let n0 = old(vertices)@.len();
            &&& p1.len() % 4 == 0
            &&& p2.len() % 4 == 0
            &&& r is Some <==> (p1.len() == 0 || n0 + p1.len() <= 0x1_0000_0000) && (p2.len() == 0 || n0 + p1.len()
                + p2.len() <= 0x1_0000_0000)
            &&& r is Some ==> final(vertices)@ == old(vertices)@ + p1 + p2 && final(indices)@ == old(indices)@
                + quads_triangles(n0 as int, (p1.len() / 4 + p2.len() / 4) as nat)
        }),
{
    let w = if axis == 0 {
        grid.size_y
    } else {
        grid.size_x
    };
    let h = if axis == 2 {
        grid.size_y
    } else {
        grid.size_z
    };
    let neg_dir = if axis == 0 {
        FaceDir::XNeg
    } else if axis == 1 {
        FaceDir::YNeg
    } else {
        FaceDir::ZNeg
    };
    let pos_dir = if axis == 0 {
        FaceDir::XPos
    } else if axis == 1 {
        FaceDir::YPos
    } else {
        FaceDir::ZPos
    };
    let ghost g = *grid;
    let ghost ax = axis as int;
    proof {
        lemma_slice_size(g, ax);
    }
    let wh = w * h;
    let neg = reset_mask(neg_mask, wh);
    let pos = reset_mask(pos_mask, wh);
    fill_exposure(grid, axis, k, neg, pos);
    let ghost d1 = greedy_decomp(exposure(g, ax, k as int, -1), w as int, h as int);
    let ghost d2 = greedy_decomp(exposure(g, ax, k as int, 1), w as int, h as int);
    proof {
        lemma_mask_exposure(g, ax, k as int, -1, neg@);
        lemma_mask_exposure(g, ax, k as int, 1, pos@);
        lemma_mask_face_points_len(axis_mask(g, ax, k as int, -1), d1);
        lemma_mask_face_points_len(axis_mask(g, ax, k as int, 1), d2);
    }
    let ghost i0 = indices@;
    let face_neg = FaceMask { dir: neg_dir, plane: k, width: w, height: h };
    assert(face_neg == axis_mask(g, ax, k as int, -1));
    if push_greedy_face_mask(vertices, indices, face_neg, neg).is_none() {
        return None;
    }
    let face_pos = FaceMask { dir: pos_dir, plane: k + 1, width: w, height: h };
    assert(face_pos == axis_mask(g, ax, k as int, 1));
    if push_greedy_face_mask(vertices, indices, face_pos, pos).is_none() {
        return None;
    }
    proof {
        lemma_quads_triangles_concat(old(vertices)@.len() as int, d1.len(), d2.len());
        assert(indices@ =~= i0 + quads_triangles(old(vertices)@.len() as int, d1.len() + d2.len()));
    }
    Some(())
}

/// Appends the surface quads of every slice across `axis` (see
/// `axis_points`), using the two vectors as scratch masks. Fails once the
/// vertex count no longer fits in `u32`.
fn push_axis_faces(
    grid: &VoxelGrid,
    axis: usize,
    vertices: &mut Vec<GridPoint>,
    indices: &mut Vec<[u32; 3]>,
    neg_mask: &mut Vec<bool>,
    pos_mask: &mut Vec<bool>,
) -> (r: Option<()>)
    requires
        grid_wf(*grid),
        axis < 3,
        old(vertices)@.len() % 4 == 0,
    ensures
        ({
            let pts = axis_points(*grid, axis as int, axis_depth(*grid, axis as int));
            &&& r is Some <==> pts.len() == 0 || old(vertices)@.len() + pts.len() <= 0x1_0000_0000
            &&& r is Some ==> final(vertices)@ == old(vertices)@ + pts && final(indices)@ == old(indices)@ + quads_triangles(
                old(vertices)@.len() as int,
                pts.len() / 4,
            )
        }),
{
    let depth = if axis == 0 {
        grid.size_x
    } else if axis == 1 {
        grid.size_y
    } else {
        grid.size_z
    };
    let ghost g = *grid;
    let ghost ax = axis as int;
    let ghost v0 = vertices@;
    let ghost i0 = indices@;
    let mut k: usize = 0;
    while k < depth
        invariant
            g == *grid,
            grid_wf(g),
            axis < 3,
            ax == axis,
            depth == axis_depth(g, ax),
            v0 == old(vertices)@,
            i0 == old(indices)@,
            v0.len() % 4 == 0,
            k <= depth,
            vertices@ == v0 + axis_points(g, ax, k as int),
            indices@ == i0 + quads_triangles(v0.len() as int, axis_points(g, ax, k as int).len() / 4),
            axis_points(g, ax, k as int).len() == 0 || v0.len() + axis_points(g, ax, k as int).len() <= 0x1_0000_0000,
        decreases depth - k,
    {
        let ghost pk = axis_points(g, ax, k as int);
        proof {
            lemma_axis_points_len(g, ax, k as int, k as int);
            lemma_axis_points_len(g, ax, k + 1, depth as int);
        }
        let ghost i1 = indices@;
        if push_slice_faces(grid, axis, k, vertices, indices, neg_mask, pos_mask).is_none() {
            return None;
        }
        proof {
            let p1 = slice_points(g, ax, k as int, -1);
            let p2 = slice_points(g, ax, k as int, 1);
            assert(axis_points(g, ax, k + 1) == pk + p1 + p2);
            assert(vertices@ =~= v0 + axis_points(g, ax, k + 1));
            lemma_quads_triangles_concat(v0.len() as int, pk.len() / 4, p1.len() / 4 + p2.len() / 4);
            assert(indices@ =~= i0 + quads_triangles(v0.len() as int, axis_points(g, ax, k + 1).len() / 4));
        }
        k = k + 1;
    }
    Some(())
}

/// The surface of the solid cells as quads: for each axis, each slice's
/// exposed faces toward lower then higher cells, merged by the greedy rule
/// (`surface_points`), with two triangles per quad. `None` when there is no
/// face or the vertex count does not fit in `u32`.
pub fn build_surface_mesh(grid: &VoxelGrid) -> (r: Option<(Vec<GridPoint>, Vec<[u32; 3]>)>)
    requires
        grid_wf(*grid),
    ensures
        r is None <==> surface_points(*grid).len() == 0 || surface_points(*grid).len() > 0x1_0000_0000,
        r matches Some(m) ==> m.0@ == surface_points(*grid) && m.1@ == quads_triangles(0, surface_points(*grid).len() / 4),
        r matches Some(m) ==> quads_face_out(*grid, m.0@),
        r matches Some(m) ==> forall|a: int, k: int, step: int, u: int, v: int|
            0 <= a < 3 && (step == 1 || step == -1) && #[trigger] exposed(*grid, a, k, step, u, v) ==> has_covering_quad(
                m.0@,
                a,
                if step > 0 { k + 1 } else { k },
                step > 0,
                u,
                v,
            ),
        r matches Some(m) ==> forall|a: int, plane: int, outward: bool, u: int, v: int|
            0 <= a < 3 ==> #[trigger] covers_at_most_once(m.0@, a, plane, outward, u, v),
{
    proof {
        assert forall|a: int, plane: int, outward: bool, u: int, v: int|
            0 <= a < 3 implies #[trigger] covers_at_most_once(surface_points(*grid), a, plane, outward, u, v) by {
            let sp = surface_points(*grid);
            assert forall|i1: int, i2: int|
                0 <= i1 < sp.len() / 4 && 0 <= i2 < sp.len() / 4 && #[trigger] quad_covers(quad_at(sp, i1), a, plane, outward, u, v)
                    && #[trigger] quad_covers(quad_at(sp, i2), a, plane, outward, u, v) implies i1 == i2 by {
                lemma_surface_covers_once(*grid, a, plane, outward, u, v, i1, i2);
            }
        }
        lemma_surface_faces_out(*grid);
        assert forall|a: int, k: int, step: int, u: int, v: int|
            0 <= a < 3 && (step == 1 || step == -1) && #[trigger] exposed(*grid, a, k, step, u, v) implies has_covering_quad(
            surface_points(*grid),
            a,
            if step > 0 { k + 1 } else { k },
            step > 0,
            u,
            v,
        ) by {
            lemma_surface_covers_exposed(*grid, a, k, step, u, v);
        }
    }
    let mut vertices: Vec<GridPoint> = Vec::new();
    let mut indices: Vec<[u32; 3]> = Vec::new();
    let mut neg_mask: Vec<bool> = Vec::new();
    let mut pos_mask: Vec<bool> = Vec::new();
    let ghost g = *grid;
    let ghost p0 = axis_points(g, 0, g.size_x as int);
    let ghost p1 = axis_points(g, 1, g.size_y as int);
    let ghost p2 = axis_points(g, 2, g.size_z as int);
    proof {
        lemma_axis_points_len(g, 0, 0, g.size_x as int);
        lemma_axis_points_len(g, 1, 0, g.size_y as int);
        lemma_axis_points_len(g, 2, 0, g.size_z as int);
    }
    if push_axis_faces(grid, 0, &mut vertices, &mut indices, &mut neg_mask, &mut pos_mask).is_none() {
        return None;
    }
    if push_axis_faces(grid, 1, &mut vertices, &mut indices, &mut neg_mask, &mut pos_mask).is_none() {
        return None;
    }
    if push_axis_faces(grid, 2, &mut vertices, &mut indices, &mut neg_mask, &mut pos_mask).is_none() {
        return None;
    }
    proof {
        assert(vertices@ =~= surface_points(g));
        lemma_quads_triangles_concat(0, p0.len() / 4, p1.len() / 4);
        lemma_quads_triangles_concat(0, p0.len() / 4 + p1.len() / 4, p2.len() / 4);
        assert(indices@ =~= quads_triangles(0, surface_points(g).len() / 4));
    }
    if vertices.len() == 0 {
        return None;
    }
    Some((vertices, indices))
}

/// Coordinate `a` (0, 1 or 2 for x, y or z) of a lattice point.
pub open spec fn coord(p: GridPoint, a: int) -> int {
    if a == 0 {
        p.x as int
    } else if a == 1 {
        p.y as int
    } else {
        p.z as int
    }
}

/// The two axes that span a plane across axis `a`, lower first.
pub open spec fn plane_axes(a: int) -> (int, int) {
    if a == 0 {
        (1, 2)
    } else if a == 1 {
        (0, 2)
    } else {
        (0, 1)
    }
}

/// The normal of triangle `p`, `q`, `r` by the right-hand rule: the cross
/// product `(q - p) x (r - p)`.
pub open spec fn triangle_normal(p: GridPoint, q: GridPoint, r: GridPoint) -> (int, int, int) {
    let ux = q.x as int - p.x as int;
    let uy = q.y as int - p.y as int;
    let uz = q.z as int - p.z as int;
    let vx = r.x as int - p.x as int;
    let vy = r.y as int - p.y as int;
    let vz = r.z as int - p.z as int;
    (uy * vz - uz * vy, uz * vx - ux * vz, ux * vy - uy * vx)
}

/// Component `a` of a vector.
pub open spec fn component(n: (int, int, int), a: int) -> int {
    if a == 0 {
        n.0
    } else if a == 1 {
        n.1
    } else {
        n.2
    }
}

/// On plane `plane` across axis `a`, the unit square at `(u, v)` is a face
/// that looks out along normal component `n` (toward higher coordinates when
/// positive, lower ones otherwise): the cell behind it is solid and the cell
/// in front of it is not.
pub open spec fn square_faces_out(g: VoxelGrid, a: int, plane: int, n: int, u: int, v: int) -> bool {
    let outward = n > 0;
    let behind = axis_cell(a, if outward { plane - 1 } else { plane }, u, v);
    let front = axis_cell(a, if outward { plane } else { plane - 1 }, u, v);
    solid_at(g, behind.0, behind.1, behind.2) && !solid_at(g, front.0, front.1, front.2)
}

/// Quad `q` (corners `q[0..4]`, drawn as triangles `q0 q1 q2` and
/// `q0 q2 q3`) is a piece of the surface of `g` across axis `a`: its four
/// corners are those of one rectangle on a plane across `a` (`q[0]` the low
/// corner, `q[2]` the high one), and every unit square of it is a face whose
/// normal points from a solid cell to an empty one.
pub open spec fn quad_faces_out(g: VoxelGrid, q: Seq<GridPoint>, a: int) -> bool {
    let ua = plane_axes(a).0;
    let va = plane_axes(a).1;
    let plane = coord(q[0], a);
    let n = component(triangle_normal(q[0], q[1], q[2]), a);
    &&& q.len() == 4
    &&& forall|j: int| 0 <= j < 4 ==> coord(#[trigger] q[j], a) == plane
    &&& coord(q[0], ua) < coord(q[2], ua)
    &&& coord(q[0], va) < coord(q[2], va)
    &&& {
        ||| coord(q[1], ua) == coord(q[0], ua) && coord(q[1], va) == coord(q[2], va) && coord(q[3], ua) == coord(
            q[2],
            ua,
        ) && coord(q[3], va) == coord(q[0], va)
        ||| coord(q[1], ua) == coord(q[2], ua) && coord(q[1], va) == coord(q[0], va) && coord(q[3], ua) == coord(
            q[0],
            ua,
        ) && coord(q[3], va) == coord(q[2], va)
    }
    &&& n != 0
    &&& forall|u: int, v: int|
        coord(q[0], ua) <= u < coord(q[2], ua) && coord(q[0], va) <= v < coord(q[2], va) ==> #[trigger] square_faces_out(
            g,
            a,
            plane,
            n,
            u,
            v,
        )
}

/// Quad `i` of a list of corners, four per quad.
pub open spec fn quad_at(s: Seq<GridPoint>, i: int) -> Seq<GridPoint> {
    s.subrange(4 * i, 4 * i + 4)
}

/// Quad `q` is a piece of the surface of `g` across x, y or z.
pub open spec fn quad_on_surface(g: VoxelGrid, q: Seq<GridPoint>) -> bool {
    quad_faces_out(g, q, 0) || quad_faces_out(g, q, 1) || quad_faces_out(g, q, 2)
}

/// Every quad of `s` is a piece of the surface of `g`.
pub open spec fn quads_face_out(g: VoxelGrid, s: Seq<GridPoint>) -> bool {
    &&& s.len() % 4 == 0
    &&& forall|i: int| 0 <= i < s.len() / 4 ==> quad_on_surface(g, #[trigger] quad_at(s, i))
}

proof fn lemma_det_sign(a: int, b: int, c: int, d: int)
    by (nonlinear_arith)
    ensures
        (a == 0 && b > 0 && c > 0) ==> a * d - b * c < 0,
        (b == 0 && a > 0 && d > 0) ==> a * d - b * c > 0,
{
}

proof fn lemma_quads_face_out_concat(g: VoxelGrid, s1: Seq<GridPoint>, s2: Seq<GridPoint>)
    requires
        quads_face_out(g, s1),
        quads_face_out(g, s2),
    ensures
        quads_face_out(g, s1 + s2),
{
    let s = s1 + s2;
    let m = s1.len() / 4;
    let m2 = s2.len() / 4;
    assert(s1.len() == 4 * m);
    assert(s2.len() == 4 * m2);
    assert(s.len() == 4 * (m + m2));
    assert(s.len() / 4 == m + m2);
    assert forall|i: int| 0 <= i < s.len() / 4 implies quad_on_surface(g, #[trigger] quad_at(s, i)) by {
        if i < m {
            assert(quad_at(s, i) =~= quad_at(s1, i));
        } else {
            let i2 = i - m;
            assert(quad_at(s, i) =~= quad_at(s2, i2));
        }
    }
}

/// The corners of the face of mask rectangle `r`.
pub open spec fn rect_quad(face: FaceMask, r: (int, int, int, int)) -> Seq<GridPoint> {
    face_corners(face_rect_of(face, r))@
}

proof fn lemma_mask_quads_face_out(g: VoxelGrid, face: FaceMask, rs: Seq<(int, int, int, int)>)
    requires
        forall|j: int| 0 <= j < rs.len() ==> quad_on_surface(g, rect_quad(face, #[trigger] rs[j])),
    ensures
        quads_face_out(g, mask_face_points(face, rs)),
    decreases rs.len(),
{
    if rs.len() == 0 {
        assert(mask_face_points(face, rs) =~= Seq::<GridPoint>::empty());
    } else {
        let init = rs.drop_last();
        assert forall|j: int| 0 <= j < init.len() implies quad_on_surface(g, rect_quad(face, #[trigger] init[j])) by {
            assert(init[j] == rs[j]);
        }
        lemma_mask_quads_face_out(g, face, init);
        let q = rect_quad(face, rs.last());
        let last = rs.len() - 1;
        assert(rs[last] == rs.last());
        assert(quad_on_surface(g, rect_quad(face, rs[last])));
        assert(quad_at(q, 0) =~= q);
        assert(quads_face_out(g, q));
        lemma_quads_face_out_concat(g, mask_face_points(face, init), q);
    }
}

/// The face of each greedy rectangle of the exposed faces of slice `k` is a
/// piece of the surface.
proof fn lemma_slice_rect_faces_out(g: VoxelGrid, a: int, k: int, step: int, j: int)
    requires
        grid_wf(g),
        0 <= a < 3,
        0 <= k < axis_depth(g, a),
        step == 1 || step == -1,
        0 <= j < greedy_decomp(exposure(g, a, k, step), axis_dims(g, a).0, axis_dims(g, a).1).len(),
    ensures
        ({
            let r = greedy_decomp(exposure(g, a, k, step), axis_dims(g, a).0, axis_dims(g, a).1)[j];
            let q = rect_quad(axis_mask(g, a, k, step), r);
            let n = component(triangle_normal(q[0], q[1], q[2]), a);
            &&& quad_faces_out(g, q, a)
            &&& coord(q[0], a) == if step > 0 { k + 1 } else { k }
            &&& (step > 0 ==> n > 0) && (step < 0 ==> n < 0)
            &&& coord(q[0], plane_axes(a).0) == r.0 && coord(q[0], plane_axes(a).1) == r.1
            &&& coord(q[2], plane_axes(a).0) == r.2 && coord(q[2], plane_axes(a).1) == r.3
        }),
{
    let f = exposure(g, a, k, step);
    let w = axis_dims(g, a).0;
    let h = axis_dims(g, a).1;
    let d = greedy_decomp(f, w, h);
    lemma_greedy_exists(f, w, h);
    lemma_greedy_partition(f, w, h, d);
    lemma_greedy_nonempty(f, w, h, d, j);
    let r = d[j];
    let mask = axis_mask(g, a, k, step);
    let fr = face_rect_of(mask, r);
    let q = rect_quad(mask, r);
    assert(fr.min_u == r.0 && fr.min_v == r.1 && fr.max_u == r.2 && fr.max_v == r.3);
    assert(fr.plane as int == if step < 0 { k } else { k + 1 });
    let du = r.2 - r.0;
    let dv = r.3 - r.1;
    let t = triangle_normal(q[0], q[1], q[2]);
    if a == 0 {
        if step < 0 {
            lemma_det_sign(q[1].y as int - q[0].y as int, q[1].z as int - q[0].z as int, q[2].y as int - q[0].y as int, q[2].z as int - q[0].z as int);
        } else {
            lemma_det_sign(q[1].y as int - q[0].y as int, q[1].z as int - q[0].z as int, q[2].y as int - q[0].y as int, q[2].z as int - q[0].z as int);
        }
    } else if a == 1 {
        lemma_det_sign(q[1].z as int - q[0].z as int, q[1].x as int - q[0].x as int, q[2].z as int - q[0].z as int, q[2].x as int - q[0].x as int);
    } else {
        lemma_det_sign(q[1].x as int - q[0].x as int, q[1].y as int - q[0].y as int, q[2].x as int - q[0].x as int, q[2].y as int - q[0].y as int);
    }
    let n = component(t, a);
    assert(step > 0 ==> n > 0);
    assert(step < 0 ==> n < 0);
    let plane = coord(q[0], a);
    let ua = plane_axes(a).0;
    let va = plane_axes(a).1;
    assert(coord(q[0], ua) == r.0 && coord(q[0], va) == r.1 && coord(q[2], ua) == r.2 && coord(q[2], va) == r.3);
    assert forall|u: int, v: int| coord(q[0], ua) <= u < coord(q[2], ua) && coord(q[0], va) <= v < coord(q[2], va) implies #[trigger] square_faces_out(
        g,
        a,
        plane,
        n,
        u,
        v,
    ) by {
        assert(in_rect(d[j], u, v));
        assert(f(u, v));
        assert(exposed(g, a, k, step, u, v));
    }
    assert forall|i: int| 0 <= i < 4 implies coord(#[trigger] q[i], a) == plane by {}
}

/// Quad `q` lies across axis `a` on plane `plane`, looks out toward higher
/// coordinates (`outward`) or lower ones, and its rectangle holds the unit
/// square at `(u, v)`.
pub open spec fn quad_covers(q: Seq<GridPoint>, a: int, plane: int, outward: bool, u: int, v: int) -> bool {
    let ua = plane_axes(a).0;
    let va = plane_axes(a).1;
    let n = component(triangle_normal(q[0], q[1], q[2]), a);
    &&& q.len() == 4
    &&& forall|j: int| 0 <= j < 4 ==> coord(#[trigger] q[j], a) == plane
    &&& if outward { n > 0 } else { n < 0 }
    &&& coord(q[0], ua) <= u < coord(q[2], ua)
    &&& coord(q[0], va) <= v < coord(q[2], va)
}

/// Some quad of `s` covers the unit square at `(u, v)` on plane `plane`
/// across `a`, looking out as `outward` says.
pub open spec fn has_covering_quad(s: Seq<GridPoint>, a: int, plane: int, outward: bool, u: int, v: int) -> bool {
    exists|i: int| 0 <= i < s.len() / 4 && #[trigger] quad_covers(quad_at(s, i), a, plane, outward, u, v)
}

proof fn lemma_covering_concat(s1: Seq<GridPoint>, s2: Seq<GridPoint>, a: int, plane: int, outward: bool, u: int, v: int)
    requires
        s1.len() % 4 == 0,
        s2.len() % 4 == 0,
        has_covering_quad(s1, a, plane, outward, u, v) || has_covering_quad(s2, a, plane, outward, u, v),
    ensures
        has_covering_quad(s1 + s2, a, plane, outward, u, v),
{
    let s = s1 + s2;
    let m = s1.len() / 4;
    let m2 = s2.len() / 4;
    assert(s1.len() == 4 * m);
    assert(s2.len() == 4 * m2);
    assert(s.len() / 4 == m + m2);
    if has_covering_quad(s1, a, plane, outward, u, v) {
        let i = choose|i: int| 0 <= i < s1.len() / 4 && #[trigger] quad_covers(quad_at(s1, i), a, plane, outward, u, v);
        assert(quad_at(s, i) =~= quad_at(s1, i));
        assert(quad_covers(quad_at(s, i), a, plane, outward, u, v));
    } else {
        let i = choose|i: int| 0 <= i < s2.len() / 4 && #[trigger] quad_covers(quad_at(s2, i), a, plane, outward, u, v);
        assert(quad_at(s, m + i) =~= quad_at(s2, i));
        assert(quad_covers(quad_at(s, m + i), a, plane, outward, u, v));
    }
}

/// Quad `j` of the faces of mask rectangles `rs` is the face of `rs[j]`.
proof fn lemma_mask_quad_at(face: FaceMask, rs: Seq<(int, int, int, int)>, j: int)
    requires
        0 <= j < rs.len(),
    ensures
        quad_at(mask_face_points(face, rs), j) == rect_quad(face, rs[j]),
    decreases rs.len(),
{
    let init = rs.drop_last();
    lemma_mask_face_points_len(face, init);
    lemma_mask_face_points_len(face, rs);
    let s = mask_face_points(face, rs);
    if j < init.len() {
        lemma_mask_quad_at(face, init, j);
        assert(quad_at(s, j) =~= quad_at(mask_face_points(face, init), j));
    } else {
        assert(quad_at(s, j) =~= rect_quad(face, rs.last()));
    }
}

/// Every exposed face of slice `k` toward `k + step` is covered by a quad of
/// the slice on its plane, looking out its way.
proof fn lemma_slice_covers(g: VoxelGrid, a: int, k: int, step: int, u: int, v: int)
    requires
        grid_wf(g),
        0 <= a < 3,
        step == 1 || step == -1,
        exposed(g, a, k, step, u, v),
    ensures
        0 <= k < axis_depth(g, a),
        has_covering_quad(slice_points(g, a, k, step), a, if step > 0 { k + 1 } else { k }, step > 0, u, v),
{
    let w = axis_dims(g, a).0;
    let h = axis_dims(g, a).1;
    let d = greedy_decomp(exposure(g, a, k, step), w, h);
    let mask = axis_mask(g, a, k, step);
    lemma_slice_faces_partition(g, a, k, step);
    assert(0 <= k < axis_depth(g, a) && 0 <= u < w && 0 <= v < h);
    assert(covered(d, u, v));
    let j = choose|j: int| 0 <= j < d.len() && in_rect(#[trigger] d[j], u, v);
    lemma_slice_rect_faces_out(g, a, k, step, j);
    lemma_mask_quad_at(mask, d, j);
    lemma_mask_face_points_len(mask, d);
    let s = slice_points(g, a, k, step);
    let q = quad_at(s, j);
    assert(q == rect_quad(mask, d[j]));
    assert(quad_faces_out(g, q, a));
    assert(quad_covers(q, a, if step > 0 { k + 1 } else { k }, step > 0, u, v));
}

/// The slices below `n` across `a` keep their covering quads in
/// `axis_points(g, a, n)`.
proof fn lemma_axis_covers(g: VoxelGrid, a: int, n: int, k: int, step: int, u: int, v: int)
    requires
        grid_wf(g),
        0 <= a < 3,
        step == 1 || step == -1,
        0 <= k < n <= axis_depth(g, a),
        exposed(g, a, k, step, u, v),
    ensures
        has_covering_quad(axis_points(g, a, n), a, if step > 0 { k + 1 } else { k }, step > 0, u, v),
    decreases n,
{
    let plane = if step > 0 { k + 1 } else { k };
    lemma_axis_faces_out(g, a, n - 1);
    lemma_slice_faces_out(g, a, n - 1, -1);
    lemma_slice_faces_out(g, a, n - 1, 1);
    let prev = axis_points(g, a, n - 1);
    let lo = slice_points(g, a, n - 1, -1);
    let hi = slice_points(g, a, n - 1, 1);
    if k < n - 1 {
        lemma_axis_covers(g, a, n - 1, k, step, u, v);
        lemma_covering_concat(prev, lo, a, plane, step > 0, u, v);
    } else if step < 0 {
        lemma_slice_covers(g, a, k, step, u, v);
        lemma_covering_concat(prev, lo, a, plane, step > 0, u, v);
    } else {
        lemma_slice_covers(g, a, k, step, u, v);
    }
    lemma_quads_face_out_concat(g, prev, lo);
    lemma_covering_concat(prev + lo, hi, a, plane, step > 0, u, v);
    assert(axis_points(g, a, n) == prev + lo + hi);
}

/// Every exposed face of the grid is covered by a quad of the surface mesh:
/// the face of a solid cell at depth `k` along axis `a` toward an empty
/// neighbour at `k + step` lies under a quad on plane `k + 1` looking toward
/// higher coordinates when `step` is 1, and on plane `k` looking toward
/// lower ones when `step` is -1.
pub proof fn lemma_surface_covers_exposed(g: VoxelGrid, a: int, k: int, step: int, u: int, v: int)
    requires
        grid_wf(g),
        0 <= a < 3,
        step == 1 || step == -1,
        exposed(g, a, k, step, u, v),
    ensures
        has_covering_quad(surface_points(g), a, if step > 0 { k + 1 } else { k }, step > 0, u, v),
{
    let plane = if step > 0 { k + 1 } else { k };
    lemma_slice_covers(g, a, k, step, u, v);
    let px = axis_points(g, 0, g.size_x as int);
    let py = axis_points(g, 1, g.size_y as int);
    let pz = axis_points(g, 2, g.size_z as int);
    lemma_axis_faces_out(g, 0, g.size_x as int);
    lemma_axis_faces_out(g, 1, g.size_y as int);
    lemma_axis_faces_out(g, 2, g.size_z as int);
    lemma_quads_face_out_concat(g, px, py);
    lemma_axis_covers(g, a, axis_depth(g, a), k, step, u, v);
    if a < 2 {
        lemma_covering_concat(px, py, a, plane, step > 0, u, v);
    }
    lemma_covering_concat(px + py, pz, a, plane, step > 0, u, v);
}

/// The plane of a quad across axis `a`.
spec fn quad_plane(q: Seq<GridPoint>, a: int) -> int {
    coord(q[0], a)
}

/// Whether a quad across axis `a` looks toward higher coordinates.
spec fn quad_outward(q: Seq<GridPoint>, a: int) -> bool {
    component(triangle_normal(q[0], q[1], q[2]), a) > 0
}

/// `q` is a nondegenerate quad across axis `a` with a normal along `a`.
spec fn quad_across(q: Seq<GridPoint>, a: int) -> bool {
    let n = component(triangle_normal(q[0], q[1], q[2]), a);
    &&& q.len() == 4
    &&& forall|j: int| 0 <= j < 4 ==> coord(#[trigger] q[j], a) == coord(q[0], a)
    &&& coord(q[0], plane_axes(a).0) < coord(q[2], plane_axes(a).0)
    &&& coord(q[0], plane_axes(a).1) < coord(q[2], plane_axes(a).1)
    &&& n != 0
}

/// Every quad of `s` lies across axis `a`, with a plane and side that `ok`
/// admits.
spec fn quads_keyed(s: Seq<GridPoint>, a: int, ok: spec_fn(int, bool) -> bool) -> bool {
    &&& s.len() % 4 == 0
    &&& forall|i: int|
        0 <= i < s.len() / 4 ==> quad_across(#[trigger] quad_at(s, i), a) && ok(
            quad_plane(quad_at(s, i), a),
            quad_outward(quad_at(s, i), a),
        )
}

/// No two quads of `s` cover the same face.
pub open spec fn covers_at_most_once(s: Seq<GridPoint>, a: int, plane: int, outward: bool, u: int, v: int) -> bool {
    forall|i1: int, i2: int|
        0 <= i1 < s.len() / 4 && 0 <= i2 < s.len() / 4 && #[trigger] quad_covers(quad_at(s, i1), a, plane, outward, u, v)
            && #[trigger] quad_covers(quad_at(s, i2), a, plane, outward, u, v) ==> i1 == i2
}

proof fn lemma_keyed_cover(q: Seq<GridPoint>, a0: int, a: int, plane: int, outward: bool, u: int, v: int)
    requires
        0 <= a0 < 3,
        0 <= a < 3,
        quad_across(q, a0),
        quad_covers(q, a, plane, outward, u, v),
    ensures
        a == a0,
        plane == quad_plane(q, a0),
        outward == quad_outward(q, a0),
{
    assert(coord(q[0], a) == plane && coord(q[2], a) == plane);
}

proof fn lemma_keyed_has(s: Seq<GridPoint>, a0: int, ok: spec_fn(int, bool) -> bool, a: int, plane: int, outward: bool, u: int, v: int)
    requires
        0 <= a0 < 3,
        0 <= a < 3,
        quads_keyed(s, a0, ok),
        has_covering_quad(s, a, plane, outward, u, v),
    ensures
        a == a0,
        ok(plane, outward),
{
    let i = choose|i: int| 0 <= i < s.len() / 4 && #[trigger] quad_covers(quad_at(s, i), a, plane, outward, u, v);
    lemma_keyed_cover(quad_at(s, i), a0, a, plane, outward, u, v);
}

proof fn lemma_keyed_concat(s1: Seq<GridPoint>, s2: Seq<GridPoint>, a: int, ok1: spec_fn(int, bool) -> bool, ok2: spec_fn(int, bool) -> bool, ok: spec_fn(int, bool) -> bool)
    requires
        quads_keyed(s1, a, ok1),
        quads_keyed(s2, a, ok2),
        forall|pl: int, out: bool| ok1(pl, out) || ok2(pl, out) ==> #[trigger] ok(pl, out),
    ensures
        quads_keyed(s1 + s2, a, ok),
{
    let s = s1 + s2;
    let m = s1.len() / 4;
    let m2 = s2.len() / 4;
    assert(s1.len() == 4 * m);
    assert(s2.len() == 4 * m2);
    assert(s.len() / 4 == m + m2);
    assert forall|i: int| 0 <= i < s.len() / 4 implies quad_across(#[trigger] quad_at(s, i), a) && ok(
        quad_plane(quad_at(s, i), a),
        quad_outward(quad_at(s, i), a),
    ) by {
        if i < m {
            assert(quad_at(s, i) =~= quad_at(s1, i));
        } else {
            let i2 = i - m;
            assert(quad_at(s, i) =~= quad_at(s2, i2));
        }
    }
}

proof fn lemma_has_split(s1: Seq<GridPoint>, s2: Seq<GridPoint>, a: int, plane: int, outward: bool, u: int, v: int)
    requires
        s1.len() % 4 == 0,
        s2.len() % 4 == 0,
        has_covering_quad(s1 + s2, a, plane, outward, u, v),
    ensures
        has_covering_quad(s1, a, plane, outward, u, v) || has_covering_quad(s2, a, plane, outward, u, v),
{
    let s = s1 + s2;
    let m = s1.len() / 4;
    let m2 = s2.len() / 4;
    assert(s1.len() == 4 * m);
    assert(s2.len() == 4 * m2);
    assert(s.len() / 4 == m + m2);
    let i = choose|i: int| 0 <= i < s.len() / 4 && #[trigger] quad_covers(quad_at(s, i), a, plane, outward, u, v);
    if i < m {
        assert(quad_at(s, i) =~= quad_at(s1, i));
        assert(quad_covers(quad_at(s1, i), a, plane, outward, u, v));
    } else {
        let i2 = i - m;
        assert(quad_at(s, i) =~= quad_at(s2, i2));
        assert(quad_covers(quad_at(s2, i2), a, plane, outward, u, v));
    }
}

proof fn lemma_once_concat(s1: Seq<GridPoint>, s2: Seq<GridPoint>, a: int, plane: int, outward: bool, u: int, v: int)
    requires
        s1.len() % 4 == 0,
        s2.len() % 4 == 0,
        covers_at_most_once(s1, a, plane, outward, u, v),
        covers_at_most_once(s2, a, plane, outward, u, v),
        !(has_covering_quad(s1, a, plane, outward, u, v) && has_covering_quad(s2, a, plane, outward, u, v)),
    ensures
        covers_at_most_once(s1 + s2, a, plane, outward, u, v),
{
    let s = s1 + s2;
    let m = s1.len() / 4;
    let m2 = s2.len() / 4;
    assert(s1.len() == 4 * m);
    assert(s2.len() == 4 * m2);
    assert(s.len() / 4 == m + m2);
    assert forall|i1: int, i2: int|
        0 <= i1 < s.len() / 4 && 0 <= i2 < s.len() / 4 && #[trigger] quad_covers(quad_at(s, i1), a, plane, outward, u, v)
            && #[trigger] quad_covers(quad_at(s, i2), a, plane, outward, u, v) implies i1 == i2 by {
        if i1 < m {
            assert(quad_at(s, i1) =~= quad_at(s1, i1));
            assert(quad_covers(quad_at(s1, i1), a, plane, outward, u, v));
        } else {
            let j1 = i1 - m;
            assert(quad_at(s, i1) =~= quad_at(s2, j1));
            assert(quad_covers(quad_at(s2, j1), a, plane, outward, u, v));
        }
        if i2 < m {
            assert(quad_at(s, i2) =~= quad_at(s1, i2));
            assert(quad_covers(quad_at(s1, i2), a, plane, outward, u, v));
        } else {
            let j2 = i2 - m;
            assert(quad_at(s, i2) =~= quad_at(s2, j2));
            assert(quad_covers(quad_at(s2, j2), a, plane, outward, u, v));
        }
    }
}

/// The quads of slice `k` toward `k + step` lie on its plane, look its way,
/// and cover each face at most once.
proof fn lemma_slice_once(g: VoxelGrid, a: int, k: int, step: int, a2: int, plane: int, outward: bool, u: int, v: int)
    requires
        grid_wf(g),
        0 <= a < 3,
        0 <= a2 < 3,
        0 <= k < axis_depth(g, a),
        step == 1 || step == -1,
    ensures
        quads_keyed(
            slice_points(g, a, k, step),
            a,
            |pl: int, out: bool| pl == (if step > 0 { k + 1 } else { k }) && out == (step > 0),
        ),
        covers_at_most_once(slice_points(g, a, k, step), a2, plane, outward, u, v),
{
    let w = axis_dims(g, a).0;
    let h = axis_dims(g, a).1;
    let d = greedy_decomp(exposure(g, a, k, step), w, h);
    let mask = axis_mask(g, a, k, step);
    let sp = slice_points(g, a, k, step);
    let ok = |pl: int, out: bool| pl == (if step > 0 { k + 1 } else { k }) && out == (step > 0);
    lemma_mask_face_points_len(mask, d);
    lemma_slice_faces_partition(g, a, k, step);
    assert(sp.len() / 4 == d.len());
    assert forall|i: int| 0 <= i < sp.len() / 4 implies quad_across(#[trigger] quad_at(sp, i), a) && ok(
        quad_plane(quad_at(sp, i), a),
        quad_outward(quad_at(sp, i), a),
    ) by {
        lemma_slice_rect_faces_out(g, a, k, step, i);
        lemma_mask_quad_at(mask, d, i);
    }
    assert forall|i1: int, i2: int|
        0 <= i1 < sp.len() / 4 && 0 <= i2 < sp.len() / 4 && #[trigger] quad_covers(quad_at(sp, i1), a2, plane, outward, u, v)
            && #[trigger] quad_covers(quad_at(sp, i2), a2, plane, outward, u, v) implies i1 == i2 by {
        lemma_slice_rect_faces_out(g, a, k, step, i1);
        lemma_mask_quad_at(mask, d, i1);
        lemma_slice_rect_faces_out(g, a, k, step, i2);
        lemma_mask_quad_at(mask, d, i2);
        lemma_keyed_cover(quad_at(sp, i1), a, a2, plane, outward, u, v);
        assert(in_rect(d[i1], u, v));
        assert(in_rect(d[i2], u, v));
        if i1 < i2 {
            assert(!in_rect(d[i2], u, v));
        } else if i2 < i1 {
            assert(!in_rect(d[i1], u, v));
        }
    }
}

/// The quads across `a` of the first `n` slices lie on planes below `n`
/// looking down, or on planes 1 to `n` looking up, and cover each face at
/// most once.
proof fn lemma_axis_once(g: VoxelGrid, a: int, n: int, a2: int, plane: int, outward: bool, u: int, v: int)
    requires
        grid_wf(g),
        0 <= a < 3,
        0 <= a2 < 3,
        n <= axis_depth(g, a),
    ensures
        quads_keyed(axis_points(g, a, n), a, |pl: int, out: bool| if out { pl <= n } else { pl < n }),
        covers_at_most_once(axis_points(g, a, n), a2, plane, outward, u, v),
    decreases n,
{
    let okn = |pl: int, out: bool| if out { pl <= n } else { pl < n };
    if n <= 0 {
        assert(axis_points(g, a, n) =~= Seq::<GridPoint>::empty());
    } else {
        let prev = axis_points(g, a, n - 1);
        let lo = slice_points(g, a, n - 1, -1);
        let hi = slice_points(g, a, n - 1, 1);
        let okp = |pl: int, out: bool| if out { pl <= n - 1 } else { pl < n - 1 };
        let oklo = |pl: int, out: bool| pl == (if -1 > 0 { n - 1 + 1 } else { n - 1 }) && out == (-1 > 0);
        let okhi = |pl: int, out: bool| pl == (if 1 > 0 { n - 1 + 1 } else { n - 1 }) && out == (1 > 0);
        let okpl = |pl: int, out: bool| if out { pl <= n - 1 } else { pl < n };
        lemma_axis_once(g, a, n - 1, a2, plane, outward, u, v);
        lemma_slice_once(g, a, n - 1, -1, a2, plane, outward, u, v);
        lemma_slice_once(g, a, n - 1, 1, a2, plane, outward, u, v);
        if has_covering_quad(prev, a2, plane, outward, u, v) && has_covering_quad(lo, a2, plane, outward, u, v) {
            lemma_keyed_has(prev, a, okp, a2, plane, outward, u, v);
            lemma_keyed_has(lo, a, oklo, a2, plane, outward, u, v);
        }
        lemma_once_concat(prev, lo, a2, plane, outward, u, v);
        lemma_keyed_concat(prev, lo, a, okp, oklo, okpl);
        if has_covering_quad(prev + lo, a2, plane, outward, u, v) && has_covering_quad(hi, a2, plane, outward, u, v) {
            lemma_keyed_has(prev + lo, a, okpl, a2, plane, outward, u, v);
            lemma_keyed_has(hi, a, okhi, a2, plane, outward, u, v);
        }
        lemma_once_concat(prev + lo, hi, a2, plane, outward, u, v);
        lemma_keyed_concat(prev + lo, hi, a, okpl, okhi, okn);
        assert(axis_points(g, a, n) == prev + lo + hi);
    }
}

/// No face is covered twice: two quads of the surface mesh that cover the
/// same unit square, on the same plane across the same axis and looking the
/// same way, are the same quad.
pub proof fn lemma_surface_covers_once(g: VoxelGrid, a: int, plane: int, outward: bool, u: int, v: int, i1: int, i2: int)
    requires
        grid_wf(g),
        0 <= a < 3,
        0 <= i1 < surface_points(g).len() / 4,
        0 <= i2 < surface_points(g).len() / 4,
        quad_covers(quad_at(surface_points(g), i1), a, plane, outward, u, v),
        quad_covers(quad_at(surface_points(g), i2), a, plane, outward, u, v),
    ensures
        i1 == i2,
{
    let px = axis_points(g, 0, g.size_x as int);
    let py = axis_points(g, 1, g.size_y as int);
    let pz = axis_points(g, 2, g.size_z as int);
    let okx = |pl: int, out: bool| if out { pl <= g.size_x as int } else { pl < g.size_x as int };
    let oky = |pl: int, out: bool| if out { pl <= g.size_y as int } else { pl < g.size_y as int };
    let okz = |pl: int, out: bool| if out { pl <= g.size_z as int } else { pl < g.size_z as int };
    lemma_axis_once(g, 0, g.size_x as int, a, plane, outward, u, v);
    lemma_axis_once(g, 1, g.size_y as int, a, plane, outward, u, v);
    lemma_axis_once(g, 2, g.size_z as int, a, plane, outward, u, v);
    if has_covering_quad(px, a, plane, outward, u, v) && has_covering_quad(py, a, plane, outward, u, v) {
        lemma_keyed_has(px, 0, okx, a, plane, outward, u, v);
        lemma_keyed_has(py, 1, oky, a, plane, outward, u, v);
    }
    lemma_once_concat(px, py, a, plane, outward, u, v);
    if has_covering_quad(px + py, a, plane, outward, u, v) && has_covering_quad(pz, a, plane, outward, u, v) {
        lemma_keyed_has(pz, 2, okz, a, plane, outward, u, v);
        lemma_has_split(px, py, a, plane, outward, u, v);
        if has_covering_quad(px, a, plane, outward, u, v) {
            lemma_keyed_has(px, 0, okx, a, plane, outward, u, v);
        } else {
            lemma_keyed_has(py, 1, oky, a, plane, outward, u, v);
        }
    }
    lemma_once_concat(px + py, pz, a, plane, outward, u, v);
    assert(surface_points(g) == px + py + pz);
}

/// The quads of the exposed faces of slice `k` toward `k + step`.
proof fn lemma_slice_faces_out(g: VoxelGrid, a: int, k: int, step: int)
    requires
        grid_wf(g),
        0 <= a < 3,
        0 <= k < axis_depth(g, a),
        step == 1 || step == -1,
    ensures
        quads_face_out(g, slice_points(g, a, k, step)),
{
    let d = greedy_decomp(exposure(g, a, k, step), axis_dims(g, a).0, axis_dims(g, a).1);
    let mask = axis_mask(g, a, k, step);
    assert forall|j: int| 0 <= j < d.len() implies quad_on_surface(g, rect_quad(mask, #[trigger] d[j])) by {
        lemma_slice_rect_faces_out(g, a, k, step, j);
    }
    lemma_mask_quads_face_out(g, mask, d);
}

proof fn lemma_axis_faces_out(g: VoxelGrid, a: int, n: int)
    requires
        grid_wf(g),
        0 <= a < 3,
        n <= axis_depth(g, a),
    ensures
        quads_face_out(g, axis_points(g, a, n)),
    decreases n,
{
    if n <= 0 {
        assert(axis_points(g, a, n) =~= Seq::<GridPoint>::empty());
    } else {
        lemma_axis_faces_out(g, a, n - 1);
        lemma_slice_faces_out(g, a, n - 1, -1);
        lemma_slice_faces_out(g, a, n - 1, 1);
        lemma_quads_face_out_concat(g, axis_points(g, a, n - 1), slice_points(g, a, n - 1, -1));
        lemma_quads_face_out_concat(g, axis_points(g, a, n - 1) + slice_points(g, a, n - 1, -1), slice_points(g, a, n - 1, 1));
    }
}

/// Every quad of the surface mesh is a piece of the grid's surface: its
/// corners are those of a rectangle on one lattice plane, and under every
/// unit square of it the cell behind the quad's normal is solid and the cell
/// in front of it is empty. So a face toward `c + 1` along an axis lies on
/// plane `c + 1`, one toward `c - 1` on plane `c`, and each quad covers only
/// faces of its own plane and side.
pub proof fn lemma_surface_faces_out(g: VoxelGrid)
    requires
        grid_wf(g),
    ensures
        quads_face_out(g, surface_points(g)),
{
    lemma_axis_faces_out(g, 0, g.size_x as int);
    lemma_axis_faces_out(g, 1, g.size_y as int);
    lemma_axis_faces_out(g, 2, g.size_z as int);
    lemma_quads_face_out_concat(g, axis_points(g, 0, g.size_x as int), axis_points(g, 1, g.size_y as int));
    lemma_quads_face_out_concat(
        g,
        axis_points(g, 0, g.size_x as int) + axis_points(g, 1, g.size_y as int),
        axis_points(g, 2, g.size_z as int),
    );
}

/// The greedy rectangles of layer `z` (none outside the grid).
pub open spec fn layer_decomp(g: VoxelGrid, z: int) -> Seq<(int, int, int, int)> {
    if 0 <= z < g.size_z {
        greedy_decomp(layer_cells(g, z), g.size_x as int, g.size_y as int)
    } else {
        Seq::empty()
    }
}

/// `r` is one of the greedy rectangles of layer `z`.
pub open spec fn in_layer(g: VoxelGrid, z: int, r: (int, int, int, int)) -> bool {
    layer_decomp(g, z).contains(r)
}

/// The first layer of the unbroken stack of rectangle `r` that reaches layer `z`.
pub open spec fn run_start(g: VoxelGrid, r: (int, int, int, int), z: int) -> int
    decreases z,
{
    if z > 0 && in_layer(g, z - 1, r) {
        run_start(g, r, z - 1)
    } else {
        z
    }
}

/// One past the last layer of the unbroken stack of rectangle `r` that
/// starts at or passes through layer `z`.
pub open spec fn run_end(g: VoxelGrid, r: (int, int, int, int), z: int) -> int
    decreases g.size_z - z,
{
    if z + 1 < g.size_z && in_layer(g, z + 1, r) {
        run_end(g, r, z + 1)
    } else {
        z + 1
    }
}

/// The box of rectangle `r` over layers `[z0, z1)`.
pub open spec fn merged_box(r: (int, int, int, int), z0: int, z1: int) -> VoxelBox {
    VoxelBox {
        min_x: r.0 as usize,
        min_y: r.1 as usize,
        min_z: z0 as usize,
        max_x: r.2 as usize,
        max_y: r.3 as usize,
        max_z: z1 as usize,
    }
}

/// The box of the longest unbroken stack of rectangle `r` through layer `z`.
pub open spec fn run_box(g: VoxelGrid, r: (int, int, int, int), z: int) -> VoxelBox {
    merged_box(r, run_start(g, r, z), run_end(g, r, z))
}

/// `b` is a merged box of the grid: a greedy rectangle of some layer,
/// stacked over every layer of its longest unbroken run of that layer's
/// greedy rectangles.
pub open spec fn is_merged_box(g: VoxelGrid, b: VoxelBox) -> bool {
    exists|z: int, r: (int, int, int, int)| in_layer(g, z, r) && b == #[trigger] run_box(g, r, z)
}

/// Only the layers of the grid have rectangles.
pub proof fn lemma_in_layer(g: VoxelGrid, z: int, r: (int, int, int, int))
    requires
        in_layer(g, z, r),
    ensures
        0 <= z < g.size_z,
{
}

/// A run starts at or below its layer; every layer from its start up is in
/// it, and the layer below its start is not.
pub proof fn lemma_run_start(g: VoxelGrid, r: (int, int, int, int), z: int)
    requires
        in_layer(g, z, r),
    ensures
        0 <= run_start(g, r, z) <= z,
        !in_layer(g, run_start(g, r, z) - 1, r),
        forall|z2: int| run_start(g, r, z) <= z2 <= z ==> #[trigger] in_layer(g, z2, r),
    decreases z,
{
    if z > 0 && in_layer(g, z - 1, r) {
        lemma_run_start(g, r, z - 1);
    }
}

/// A run ends above its layer; every layer up to its end is in it, and the
/// layer at its end is not.
pub proof fn lemma_run_end(g: VoxelGrid, r: (int, int, int, int), z: int)
    requires
        in_layer(g, z, r),
    ensures
        z < run_end(g, r, z) <= g.size_z,
        !in_layer(g, run_end(g, r, z), r),
        forall|z2: int| z <= z2 < run_end(g, r, z) ==> #[trigger] in_layer(g, z2, r),
    decreases g.size_z - z,
{
    lemma_in_layer(g, z, r);
    if z + 1 < g.size_z && in_layer(g, z + 1, r) {
        lemma_run_end(g, r, z + 1);
    }
}

/// Every layer of a run has the same run.
pub proof fn lemma_run_same(g: VoxelGrid, r: (int, int, int, int), z1: int, z2: int)
    requires
        in_layer(g, z1, r),
        z1 <= z2 < run_end(g, r, z1),
    ensures
        in_layer(g, z2, r),
        run_start(g, r, z2) == run_start(g, r, z1),
        run_end(g, r, z2) == run_end(g, r, z1),
    decreases z2 - z1,
{
    lemma_run_end(g, r, z1);
    if z2 > z1 {
        lemma_run_same(g, r, z1, z2 - 1);
        lemma_run_end(g, r, z2 - 1);
    }
}

/// Greedy rectangles are never empty.
pub proof fn lemma_greedy_nonempty(f: spec_fn(int, int) -> bool, w: int, h: int, rs: Seq<(int, int, int, int)>, j: int)
    requires
        greedy_chain(f, w, h, rs),
        0 <= j < rs.len(),
    ensures
        0 <= rs[j].0 < rs[j].2 <= w,
        0 <= rs[j].1 < rs[j].3 <= h,
{
    assert(greedy_rect_ok(f, w, h, rs.take(j), rs[j]));
}

/// No rectangle occurs twice in a greedy decomposition.
pub proof fn lemma_greedy_no_duplicates(f: spec_fn(int, int) -> bool, w: int, h: int, rs: Seq<(int, int, int, int)>)
    requires
        greedy_rects(f, w, h, rs),
    ensures
        rs.no_duplicates(),
{
    lemma_greedy_partition(f, w, h, rs);
    assert forall|i: int, j: int| 0 <= i < rs.len() && 0 <= j < rs.len() && i != j implies rs[i] != rs[j] by {
        lemma_greedy_nonempty(f, w, h, rs, i);
        let u = rs[i].0;
        let v = rs[i].1;
        assert(in_rect(rs[i], u, v));
        if rs[i] == rs[j] {
            assert(in_rect(rs[j], u, v));
            if i < j {
                assert(!in_rect(rs[j], u, v));
            } else {
                assert(!in_rect(rs[i], u, v));
            }
        }
    }
}

/// A stack of one layer rectangle over the layers `[min_z, max_z)`, and
/// whether the layer being scanned continues it.
#[derive(Clone, Copy, Debug, PartialEq, Eq, Structural)]
struct CuboidRun {
    rect: LayerRect,
    min_z: usize,
    max_z: usize,
    continued: bool,
}

/// The greedy decomposition of layer `z` is a real one.
pub open spec fn layer_ok(g: VoxelGrid, z: int) -> bool {
    greedy_rects(layer_cells(g, z), g.size_x as int, g.size_y as int, layer_decomp(g, z))
}

/// Every layer of the grid has its greedy decomposition.
pub proof fn lemma_layer_ok(g: VoxelGrid, z: int)
    requires
        0 <= z < g.size_z,
    ensures
        layer_ok(g, z),
{
    lemma_greedy_exists(layer_cells(g, z), g.size_x as int, g.size_y as int);
}

/// `a` is the run of its rectangle up to layer `z - 1`, still open.
spec fn open_run(g: VoxelGrid, a: CuboidRun, z: int) -> bool {
    &&& a.max_z == z
    &&& in_layer(g, z - 1, layer_rect_view(a.rect))
    &&& a.min_z == run_start(g, layer_rect_view(a.rect), z - 1)
}

spec fn distinct_rects(active: Seq<CuboidRun>) -> bool {
    forall|j1: int, j2: int|
        #![trigger active[j1], active[j2]]
        0 <= j1 < active.len() && 0 <= j2 < active.len() && j1 != j2 ==> active[j1].rect != active[j2].rect
}

spec fn has_run(active: Seq<CuboidRun>, r: (int, int, int, int)) -> bool {
    exists|j: int| 0 <= j < active.len() && layer_rect_view(#[trigger] active[j].rect) == r
}

spec fn has_continued_run(active: Seq<CuboidRun>, r: (int, int, int, int)) -> bool {
    exists|j: int| 0 <= j < active.len() && layer_rect_view(#[trigger] active[j].rect) == r && active[j].continued
}

/// At the start of layer `z`: one open run for each rectangle of layer `z - 1`.
spec fn open_runs(g: VoxelGrid, active: Seq<CuboidRun>, z: int) -> bool {
    &&& forall|j: int| 0 <= j < active.len() ==> open_run(g, #[trigger] active[j], z)
    &&& distinct_rects(active)
    &&& forall|r: (int, int, int, int)| #[trigger] in_layer(g, z - 1, r) ==> has_run(active, r)
}

/// After matching layer `z`: the continued runs reach through layer `z`, one
/// for each rectangle of the layer; the others end below it.
spec fn matched_run(g: VoxelGrid, a: CuboidRun, z: int) -> bool {
    if a.continued {
        &&& a.max_z == z + 1
        &&& in_layer(g, z, layer_rect_view(a.rect))
        &&& a.min_z == run_start(g, layer_rect_view(a.rect), z)
    } else {
        open_run(g, a, z) && !in_layer(g, z, layer_rect_view(a.rect))
    }
}

spec fn matched_runs(g: VoxelGrid, active: Seq<CuboidRun>, z: int) -> bool {
    &&& forall|j: int| 0 <= j < active.len() ==> matched_run(g, #[trigger] active[j], z)
    &&& distinct_rects(active)
    &&& forall|r: (int, int, int, int)| #[trigger] in_layer(g, z - 1, r) ==> has_run(active, r)
    &&& forall|r: (int, int, int, int)| #[trigger] in_layer(g, z, r) ==> has_continued_run(active, r)
}

/// Boxes that end at a lower layer come first.
pub open spec fn ordered_by_top(p: Seq<VoxelBox>) -> bool {
    forall|i: int, j: int| 0 <= i < j < p.len() ==> (#[trigger] p[i]).max_z <= (#[trigger] p[j]).max_z
}

/// The parts emitted before layer `z`: merged boxes, each once, among them
/// every merged box that ends below `z`, in order of the layer they end at.
spec fn closed_parts(g: VoxelGrid, parts: Seq<VoxelBox>, z: int) -> bool {
    &&& forall|i: int| 0 <= i < parts.len() ==> is_merged_box(g, #[trigger] parts[i]) && parts[i].max_z < z
    &&& parts.no_duplicates()
    &&& ordered_by_top(parts)
    &&& forall|zz: int, r: (int, int, int, int)|
        in_layer(g, zz, r) && run_end(g, r, zz) < z ==> parts.contains(#[trigger] run_box(g, r, zz))
}

/// The first run of `a` from position `j` on that stacks rectangle `r` and
/// is open at layer `z` (ends at `z`). A run is `(rectangle, first layer,
/// one past its last layer)`.
pub open spec fn first_open_run(a: Seq<((int, int, int, int), int, int)>, r: (int, int, int, int), z: int, j: int) -> Option<int>
    decreases a.len() - j,
{
    if j < 0 || j >= a.len() {
        None
    } else if a[j].0 == r && a[j].2 == z {
        Some(j)
    } else {
        first_open_run(a, r, z, j + 1)
    }
}

/// Matching one rectangle `r` of layer `z`: the first run open at `z` that
/// stacks it is continued through `z`; with none, a new run starts at `z`
/// at the end of the list.
pub open spec fn extend_run_step(a: Seq<((int, int, int, int), int, int)>, r: (int, int, int, int), z: int) -> Seq<((int, int, int, int), int, int)> {
    match first_open_run(a, r, z, 0) {
        Some(j) => a.update(j, (r, a[j].1, z + 1)),
        None => a.push((r, z, z + 1)),
    }
}

/// Matching the rectangles `rs` of layer `z`, in their order.
pub open spec fn extend_run_list(a: Seq<((int, int, int, int), int, int)>, rs: Seq<(int, int, int, int)>, z: int) -> Seq<((int, int, int, int), int, int)>
    decreases rs.len(),
{
    if rs.len() == 0 {
        a
    } else {
        extend_run_step(extend_run_list(a, rs.drop_last(), z), rs.last(), z)
    }
}

/// The box of run `a`.
pub open spec fn run_view_box(a: ((int, int, int, int), int, int)) -> VoxelBox {
    merged_box(a.0, a.1, a.2)
}

/// Closing the runs that layer `z` did not continue, from position `i` on:
/// a run that reaches through `z` is kept; any other is emitted as a box,
/// and the last run of the list takes its place. Gives the runs left and
/// the boxes emitted, in order.
pub open spec fn close_run_list(a: Seq<((int, int, int, int), int, int)>, i: int, z: int) -> (Seq<((int, int, int, int), int, int)>, Seq<VoxelBox>)
    decreases a.len() - i,
{
    if i < 0 || i >= a.len() {
        (a, Seq::empty())
    } else if a[i].2 == z + 1 {
        close_run_list(a, i + 1, z)
    } else {
        let rest = close_run_list(a.update(i, a.last()).drop_last(), i, z);
        (rest.0, seq![run_view_box(a[i])] + rest.1)
    }
}

/// The open runs and the emitted boxes after the first `z` layers.
pub open spec fn cuboid_state(g: VoxelGrid, z: nat) -> (Seq<((int, int, int, int), int, int)>, Seq<VoxelBox>)
    decreases z,
{
    if z == 0 {
        (Seq::empty(), Seq::empty())
    } else {
        let prev = cuboid_state(g, (z - 1) as nat);
        let closed = close_run_list(extend_run_list(prev.0, layer_decomp(g, z - 1), z - 1), 0, z - 1);
        (closed.0, prev.1 + closed.1)
    }
}

/// The merged boxes in the order they are emitted: the boxes closed layer by
/// layer, then the boxes of the runs still open after the top layer, in list
/// order.
pub open spec fn cuboid_order(g: VoxelGrid) -> Seq<VoxelBox> {
    let last = cuboid_state(g, g.size_z as nat);
    last.1 + last.0.map_values(|a: ((int, int, int, int), int, int)| run_view_box(a))
}

/// A run as `(rectangle, first layer, one past its last layer)`.
spec fn run_view(a: CuboidRun) -> ((int, int, int, int), int, int) {
    (layer_rect_view(a.rect), a.min_z as int, a.max_z as int)
}

spec fn run_views(a: Seq<CuboidRun>) -> Seq<((int, int, int, int), int, int)> {
    a.map_values(|r: CuboidRun| run_view(r))
}

/// The index of the run of `rect` that is open at layer `z`, if any.
fn find_run(active: &Vec<CuboidRun>, rect: LayerRect, z: usize) -> (r: Option<usize>)
    ensures
        r matches Some(j) ==> j < active@.len() && active@[j as int].max_z == z && active@[j as int].rect == rect,
        r is None ==> forall|j: int| 0 <= j < active@.len() ==> !(#[trigger] active@[j].max_z == z && active@[j].rect == rect),
        first_open_run(run_views(active@), layer_rect_view(rect), z as int, 0) == match r {
            Some(j) => Some(j as int),
            None => None::<int>,
        },
{
    let ghost v = run_views(active@);
    let ghost rv = layer_rect_view(rect);
    let mut j: usize = 0;
    while j < active.len()
        invariant
            j <= active@.len(),
            v == run_views(active@),
            rv == layer_rect_view(rect),
            forall|k: int| 0 <= k < j ==> !(#[trigger] active@[k].max_z == z && active@[k].rect == rect),
            first_open_run(v, rv, z as int, 0) == first_open_run(v, rv, z as int, j as int),
        decreases active@.len() - j,
    {
        assert(v[j as int] == run_view(active@[j as int]));
        if active[j].max_z == z && active[j].rect == rect {
            return Some(j);
        }
        assert(!(v[j as int].0 == rv && v[j as int].2 == z));
        j = j + 1;
    }
    None
}

/// Marks every run as not yet continued.
fn clear_continued(active: &mut Vec<CuboidRun>)
    ensures
        final(active)@.len() == old(active)@.len(),
        forall|j: int|
            0 <= j < old(active)@.len() ==> #[trigger] final(active)@[j] == (CuboidRun { continued: false, ..old(active)@[j] }),
        run_views(final(active)@) == run_views(old(active)@),
{
    let mut j: usize = 0;
    while j < active.len()
        invariant
            active@.len() == old(active)@.len(),
            j <= active@.len(),
            forall|k: int| 0 <= k < j ==> #[trigger] active@[k] == (CuboidRun { continued: false, ..old(active)@[k] }),
            forall|k: int| j <= k < active@.len() ==> #[trigger] active@[k] == old(active)@[k],
        decreases active@.len() - j,
    {
        let mut run = active[j];
        run.continued = false;
        active.set(j, run);
        j = j + 1;
    }
    assert(run_views(active@) =~= run_views(old(active)@));
}

/// While matching layer `z` against the rectangles `done` so far.
spec fn step_run(g: VoxelGrid, a: CuboidRun, z: int, done: Seq<(int, int, int, int)>) -> bool {
    if a.continued {
        &&& a.max_z == z + 1
        &&& in_layer(g, z, layer_rect_view(a.rect))
        &&& a.min_z == run_start(g, layer_rect_view(a.rect), z)
        &&& done.contains(layer_rect_view(a.rect))
    } else {
        open_run(g, a, z) && !done.contains(layer_rect_view(a.rect))
    }
}

proof fn lemma_take_contains<A>(s: Seq<A>, t: int, x: A)
    requires
        0 <= t < s.len(),
    ensures
        s.take(t + 1).contains(x) <==> (s.take(t).contains(x) || x == s[t]),
{
    if s.take(t + 1).contains(x) {
        let i = choose|i: int| 0 <= i < t + 1 && #[trigger] s.take(t + 1)[i] == x;
        if i < t {
            assert(s.take(t)[i] == x);
        }
    }
    if s.take(t).contains(x) {
        let i = choose|i: int| 0 <= i < t && #[trigger] s.take(t)[i] == x;
        assert(s.take(t + 1)[i] == x);
    }
    if x == s[t] {
        assert(s.take(t + 1)[t] == x);
    }
}

/// Continues the open run of each rectangle of layer `z` that has one, and
/// opens a run for each that has not.
fn extend_runs(active: &mut Vec<CuboidRun>, rects: &Vec<LayerRect>, z: usize, Ghost(g): Ghost<VoxelGrid>)
    requires
        open_runs(g, old(active)@, z as int),
        forall|j: int| 0 <= j < old(active)@.len() ==> !(#[trigger] old(active)@[j]).continued,
        layer_rect_views(rects@) == layer_decomp(g, z as int),
        layer_rect_views(rects@).no_duplicates(),
        z < g.size_z,
    ensures
        matched_runs(g, final(active)@, z as int),
        run_views(final(active)@) == extend_run_list(run_views(old(active)@), layer_decomp(g, z as int), z as int),
{
    let ghost rs = layer_rect_views(rects@);
    let ghost v0 = run_views(active@);
    assert(rs.take(0) =~= Seq::<(int, int, int, int)>::empty());
    proof {
        assert forall|j: int| 0 <= j < active@.len() implies step_run(g, #[trigger] active@[j], z as int, rs.take(0)) by {
            assert(open_run(g, active@[j], z as int));
        }
    }
    let mut t: usize = 0;
    while t < rects.len()
        invariant
            rs == layer_rect_views(rects@),
            rs == layer_decomp(g, z as int),
            rs.no_duplicates(),
            z < g.size_z,
            t <= rects@.len(),
            forall|j: int| 0 <= j < active@.len() ==> step_run(g, #[trigger] active@[j], z as int, rs.take(t as int)),
            distinct_rects(active@),
            forall|r: (int, int, int, int)| #[trigger] in_layer(g, z - 1, r) ==> has_run(active@, r),
            forall|t2: int| 0 <= t2 < t ==> has_continued_run(active@, #[trigger] rs[t2]),
            run_views(active@) == extend_run_list(v0, rs.take(t as int), z as int),
        decreases rects@.len() - t,
    {
        let rect = rects[t];
        let ghost rv = layer_rect_view(rect);
        let ghost before = active@;
        proof {
            assert(rs[t as int] == rv);
            assert(in_layer(g, z as int, rv)) by {
                assert(layer_decomp(g, z as int)[t as int] == rv);
            }
            assert forall|x: (int, int, int, int)| rs.take(t + 1).contains(x) <==> (rs.take(t as int).contains(x) || x == rv) by {
                lemma_take_contains(rs, t as int, x);
            }
            assert(!rs.take(t as int).contains(rv));
            assert(rs.take(t + 1).drop_last() =~= rs.take(t as int));
            assert(rs.take(t + 1).last() == rv);
        }
        match find_run(active, rect, z) {
            Some(j) => {
                proof {
                    assert(step_run(g, before[j as int], z as int, rs.take(t as int)));
                }
                let mut run = active[j];
                run.max_z = z + 1;
                run.continued = true;
                active.set(j, run);
                proof {
                    assert(run_views(active@) =~= extend_run_step(run_views(before), rv, z as int));
                    assert forall|k: int| 0 <= k < active@.len() implies step_run(g, #[trigger] active@[k], z as int, rs.take(t + 1)) by {
                        assert(step_run(g, before[k], z as int, rs.take(t as int)));
                        if k != j {
                            assert(before[k].rect != before[j as int].rect);
                        }
                    }
                    assert forall|j1: int, j2: int|
                        0 <= j1 < active@.len() && 0 <= j2 < active@.len() && j1 != j2 implies active@[j1].rect
                        != active@[j2].rect by {
                        assert(before[j1].rect != before[j2].rect);
                    }
                    assert forall|r: (int, int, int, int)| #[trigger] in_layer(g, z - 1, r) implies has_run(active@, r) by {
                        assert(has_run(before, r));
                        let k = choose|k: int| 0 <= k < before.len() && layer_rect_view(#[trigger] before[k].rect) == r;
                        assert(layer_rect_view(active@[k].rect) == r);
                    }
                    assert forall|t2: int| 0 <= t2 < t + 1 implies has_continued_run(active@, #[trigger] rs[t2]) by {
                        if t2 < t {
                            assert(has_continued_run(before, rs[t2]));
                            let k = choose|k: int|
                                0 <= k < before.len() && layer_rect_view(#[trigger] before[k].rect) == rs[t2] && before[k].continued;
                            assert(k != j);
                            assert(layer_rect_view(active@[k].rect) == rs[t2] && active@[k].continued);
                        } else {
                            assert(layer_rect_view(active@[j as int].rect) == rs[t2] && active@[j as int].continued);
                        }
                    }
                }
            },
            None => {
                proof {
                    if z > 0 && in_layer(g, z - 1, rv) {
                        assert(has_run(before, rv));
                        let k = choose|k: int| 0 <= k < before.len() && layer_rect_view(#[trigger] before[k].rect) == rv;
                        assert(step_run(g, before[k], z as int, rs.take(t as int)));
                        assert(before[k].rect == rect);
                    }
                    assert forall|k: int| 0 <= k < before.len() implies before[k].rect != rect by {
                        assert(step_run(g, before[k], z as int, rs.take(t as int)));
                        if before[k].rect == rect {
                            assert(layer_rect_view(before[k].rect) == rv);
                        }
                    }
                }
                active.push(CuboidRun { rect, min_z: z, max_z: z + 1, continued: true });
                proof {
                    assert(run_views(active@) =~= extend_run_step(run_views(before), rv, z as int));
                    let n = before.len() as int;
                    assert forall|k: int| 0 <= k < active@.len() implies step_run(g, #[trigger] active@[k], z as int, rs.take(t + 1)) by {
                        if k < n {
                            assert(active@[k] == before[k]);
                            assert(step_run(g, before[k], z as int, rs.take(t as int)));
                            assert(before[k].rect != rect);
                        }
                    }
                    assert forall|j1: int, j2: int|
                        0 <= j1 < active@.len() && 0 <= j2 < active@.len() && j1 != j2 implies active@[j1].rect
                        != active@[j2].rect by {
                        if j1 < n && j2 < n {
                            assert(before[j1].rect != before[j2].rect);
                        } else if j1 < n {
                            assert(before[j1].rect != rect);
                        } else if j2 < n {
                            assert(before[j2].rect != rect);
                        }
                    }
                    assert forall|r: (int, int, int, int)| #[trigger] in_layer(g, z - 1, r) implies has_run(active@, r) by {
                        assert(has_run(before, r));
                        let k = choose|k: int| 0 <= k < before.len() && layer_rect_view(#[trigger] before[k].rect) == r;
                        assert(layer_rect_view(active@[k].rect) == r);
                    }
                    assert forall|t2: int| 0 <= t2 < t + 1 implies has_continued_run(active@, #[trigger] rs[t2]) by {
                        if t2 < t {
                            assert(has_continued_run(before, rs[t2]));
                            let k = choose|k: int|
                                0 <= k < before.len() && layer_rect_view(#[trigger] before[k].rect) == rs[t2] && before[k].continued;
                            assert(layer_rect_view(active@[k].rect) == rs[t2] && active@[k].continued);
                        } else {
                            assert(layer_rect_view(active@[n].rect) == rs[t2] && active@[n].continued);
                        }
                    }
                }
            },
        }
        assert(run_views(active@) == extend_run_list(v0, rs.take(t + 1), z as int));
        t = t + 1;
    }
    proof {
        assert(rs.take(t as int) =~= rs);
        assert forall|j: int| 0 <= j < active@.len() implies matched_run(g, #[trigger] active@[j], z as int) by {
            assert(step_run(g, active@[j], z as int, rs));
        }
        assert forall|r: (int, int, int, int)| #[trigger] in_layer(g, z as int, r) implies has_continued_run(active@, r) by {
            let t2 = choose|t2: int| 0 <= t2 < rs.len() && #[trigger] rs[t2] == r;
            assert(has_continued_run(active@, rs[t2]));
        }
    }
}

/// The rectangle of a box, seen from above.
spec fn box_rect(b: VoxelBox) -> (int, int, int, int) {
    (b.min_x as int, b.min_y as int, b.max_x as int, b.max_y as int)
}

/// Where an element of `s` lands after `swap_remove(i)`.
spec fn swap_removed_index(n: int, i: int, k: int) -> int {
    if k == n - 1 {
        i
    } else {
        k
    }
}

proof fn lemma_swap_remove<A>(s: Seq<A>, i: int)
    requires
        0 <= i < s.len(),
    ensures
        ({
            let t = s.update(i, s.last()).drop_last();
            &&& t.len() == s.len() - 1
            &&& forall|j: int| 0 <= j < t.len() ==> #[trigger] t[j] == if j == i { s[s.len() - 1] } else { s[j] }
            &&& forall|k: int|
                0 <= k < s.len() && k != i ==> 0 <= swap_removed_index(s.len() as int, i, k) < t.len() && t[swap_removed_index(
                    s.len() as int,
                    i,
                    k,
                )] == s[k]
        }),
{
}

/// Closes every run that layer `z` did not continue, emitting its box.
fn close_runs(active: &mut Vec<CuboidRun>, parts: &mut Vec<VoxelBox>, z: usize, Ghost(g): Ghost<VoxelGrid>)
    requires
        matched_runs(g, old(active)@, z as int),
        closed_parts(g, old(parts)@, z as int),
        z < g.size_z,
        forall|zz: int| 0 <= zz <= z ==> #[trigger] layer_ok(g, zz),
    ensures
        open_runs(g, final(active)@, z + 1),
        closed_parts(g, final(parts)@, z + 1),
        run_views(final(active)@) == close_run_list(run_views(old(active)@), 0, z as int).0,
        final(parts)@ == old(parts)@ + close_run_list(run_views(old(active)@), 0, z as int).1,
{
    let ghost p0 = parts@;
    let ghost c0 = close_run_list(run_views(active@), 0, z as int);
    let mut i: usize = 0;
    while i < active.len()
        invariant
            z < g.size_z,
            forall|zz: int| 0 <= zz <= z ==> #[trigger] layer_ok(g, zz),
            closed_parts(g, p0, z as int),
            p0.len() <= parts@.len(),
            parts@.take(p0.len() as int) == p0,
            i <= active@.len(),
            forall|j: int| 0 <= j < i ==> (#[trigger] active@[j]).continued,
            forall|j: int| 0 <= j < active@.len() ==> matched_run(g, #[trigger] active@[j], z as int),
            distinct_rects(active@),
            forall|r: (int, int, int, int)| #[trigger] in_layer(g, z as int, r) ==> has_continued_run(active@, r),
            forall|r: (int, int, int, int)|
                in_layer(g, z - 1, r) && !in_layer(g, z as int, r) ==> has_run(active@, r) || parts@.contains(
                    #[trigger] merged_box(r, run_start(g, r, z - 1), z as int),
                ),
            forall|pi: int|
                p0.len() <= pi < parts@.len() ==> is_merged_box(g, #[trigger] parts@[pi]) && parts@[pi].max_z == z,
            forall|pi: int, j: int|
                p0.len() <= pi < parts@.len() && 0 <= j < active@.len() ==> box_rect(#[trigger] parts@[pi]) != layer_rect_view(
                    #[trigger] active@[j].rect,
                ),
            parts@.no_duplicates(),
            c0.0 == close_run_list(run_views(active@), i as int, z as int).0,
            c0.1 == parts@.subrange(p0.len() as int, parts@.len() as int) + close_run_list(
                run_views(active@),
                i as int,
                z as int,
            ).1,
        decreases active@.len() - i,
    {
        let ghost v = run_views(active@);
        proof {
            assert(v[i as int] == run_view(active@[i as int]));
            assert(matched_run(g, active@[i as int], z as int));
        }
        if active[i].continued {
            assert(close_run_list(v, i as int, z as int) == close_run_list(v, i + 1, z as int));
            i = i + 1;
        } else {
            let ghost before = active@;
            let ghost pb = parts@;
            let ghost n = before.len() as int;
            let ghost a = before[i as int];
            let ghost rv = layer_rect_view(a.rect);
            proof {
                assert(matched_run(g, a, z as int));
                lemma_run_start(g, rv, z - 1);
                lemma_in_layer(g, z - 1, rv);
                assert(layer_ok(g, z - 1));
                let d = layer_decomp(g, z - 1);
                let k = choose|k: int| 0 <= k < d.len() && d[k] == rv;
                lemma_greedy_nonempty(layer_cells(g, z - 1), g.size_x as int, g.size_y as int, d, k);
                lemma_swap_remove(before, i as int);
            }
            let run = active.swap_remove(i);
            push_cuboid(
                parts,
                (run.rect.min_x, run.rect.min_y, run.min_z),
                (run.rect.max_x, run.rect.max_y, run.max_z),
            );
            let ghost b = merged_box(rv, run_start(g, rv, z - 1), z as int);
            proof {
                assert(parts@ == pb.push(b));
                let vt = v.update(i as int, v.last()).drop_last();
                assert(run_views(active@) =~= vt);
                assert(b == run_view_box(v[i as int]));
                let rest = close_run_list(vt, i as int, z as int);
                assert(close_run_list(v, i as int, z as int) == (rest.0, seq![b] + rest.1));
                assert(parts@.subrange(p0.len() as int, parts@.len() as int) =~= pb.subrange(
                    p0.len() as int,
                    pb.len() as int,
                ).push(b));
                assert(pb.subrange(p0.len() as int, pb.len() as int) + (seq![b] + rest.1) =~= pb.subrange(
                    p0.len() as int,
                    pb.len() as int,
                ).push(b) + rest.1);
                assert(run_box(g, rv, z - 1) == b);
                assert(is_merged_box(g, b));
                assert(parts@.take(p0.len() as int) =~= p0);
                assert forall|pi: int| p0.len() <= pi < parts@.len() implies is_merged_box(g, #[trigger] parts@[pi])
                    && parts@[pi].max_z == z by {
                    if pi < pb.len() {
                        assert(parts@[pi] == pb[pi]);
                    }
                }
                assert forall|pi: int, j: int|
                    p0.len() <= pi < parts@.len() && 0 <= j < active@.len() implies box_rect(#[trigger] parts@[pi])
                    != layer_rect_view(#[trigger] active@[j].rect) by {
                    let k = if j == i { n - 1 } else { j };
                    assert(active@[j] == before[k]);
                    assert(k != i);
                    if pi < pb.len() {
                        assert(parts@[pi] == pb[pi]);
                        assert(box_rect(pb[pi]) != layer_rect_view(before[k].rect));
                    } else {
                        assert(before[k].rect != before[i as int].rect);
                    }
                }
                assert forall|x: int, y: int| 0 <= x < parts@.len() && 0 <= y < parts@.len() && x != y implies parts@[x]
                    != parts@[y] by {
                    if x < pb.len() && y < pb.len() {
                        assert(pb[x] != pb[y]);
                    } else {
                        let old_i = if x < pb.len() { x } else { y };
                        assert(parts@[old_i] == pb[old_i]);
                        if old_i < p0.len() {
                            assert(pb[old_i] == p0[old_i]);
                            assert(p0[old_i].max_z < z);
                        } else {
                            assert(box_rect(pb[old_i]) != layer_rect_view(before[i as int].rect));
                        }
                    }
                }
                assert forall|j: int| 0 <= j < active@.len() implies matched_run(g, #[trigger] active@[j], z as int) by {
                    let k = if j == i { n - 1 } else { j };
                    assert(active@[j] == before[k]);
                }
                assert forall|j: int| 0 <= j < i implies (#[trigger] active@[j]).continued by {
                    assert(active@[j] == before[j]);
                }
                assert forall|j1: int, j2: int|
                    0 <= j1 < active@.len() && 0 <= j2 < active@.len() && j1 != j2 implies active@[j1].rect
                    != active@[j2].rect by {
                    let k1 = if j1 == i { n - 1 } else { j1 };
                    let k2 = if j2 == i { n - 1 } else { j2 };
                    assert(active@[j1] == before[k1]);
                    assert(active@[j2] == before[k2]);
                    assert(before[k1].rect != before[k2].rect);
                }
                assert forall|r: (int, int, int, int)| #[trigger] in_layer(g, z as int, r) implies has_continued_run(active@, r) by {
                    assert(has_continued_run(before, r));
                    let k = choose|k: int| 0 <= k < before.len() && layer_rect_view(#[trigger] before[k].rect) == r && before[k].continued;
                    let k2 = swap_removed_index(n, i as int, k);
                    assert(active@[k2] == before[k]);
                }
                assert forall|r: (int, int, int, int)|
                    in_layer(g, z - 1, r) && !in_layer(g, z as int, r) implies has_run(active@, r) || parts@.contains(
                    #[trigger] merged_box(r, run_start(g, r, z - 1), z as int),
                ) by {
                    if pb.contains(merged_box(r, run_start(g, r, z - 1), z as int)) {
                        let x = choose|x: int| 0 <= x < pb.len() && pb[x] == merged_box(r, run_start(g, r, z - 1), z as int);
                        assert(parts@[x] == pb[x]);
                    } else {
                        assert(has_run(before, r));
                        let k = choose|k: int| 0 <= k < before.len() && layer_rect_view(#[trigger] before[k].rect) == r;
                        if k == i {
                            assert(parts@[pb.len() as int] == b);
                        } else {
                            let k2 = swap_removed_index(n, i as int, k);
                            assert(active@[k2] == before[k]);
                        }
                    }
                }
            }
        }
    }
    proof {
        let v = run_views(active@);
        assert(close_run_list(v, i as int, z as int) == (v, Seq::<VoxelBox>::empty()));
        assert(parts@ =~= p0 + parts@.subrange(p0.len() as int, parts@.len() as int));
        assert(c0.1 =~= parts@.subrange(p0.len() as int, parts@.len() as int));
        assert forall|j: int| 0 <= j < active@.len() implies open_run(g, #[trigger] active@[j], z + 1) by {
            assert(matched_run(g, active@[j], z as int));
        }
        assert forall|r: (int, int, int, int)| #[trigger] in_layer(g, z + 1 - 1, r) implies has_run(active@, r) by {
            assert(has_continued_run(active@, r));
        }
        assert forall|i2: int| 0 <= i2 < parts@.len() implies is_merged_box(g, #[trigger] parts@[i2]) && parts@[i2].max_z < z + 1 by {
            if i2 < p0.len() {
                assert(parts@[i2] == p0[i2]);
            }
        }
        assert forall|i2: int, j2: int| 0 <= i2 < j2 < parts@.len() implies (#[trigger] parts@[i2]).max_z <= (
        #[trigger] parts@[j2]).max_z by {
            if j2 < p0.len() {
                assert(parts@[i2] == p0[i2] && parts@[j2] == p0[j2]);
            } else if i2 < p0.len() {
                assert(parts@[i2] == p0[i2]);
            }
        }
        assert forall|zz: int, r: (int, int, int, int)|
            in_layer(g, zz, r) && run_end(g, r, zz) < z + 1 implies parts@.contains(#[trigger] run_box(g, r, zz)) by {
            if run_end(g, r, zz) < z {
                assert(p0.contains(run_box(g, r, zz)));
                let x = choose|x: int| 0 <= x < p0.len() && p0[x] == run_box(g, r, zz);
                assert(parts@[x] == p0[x]);
            } else {
                lemma_run_end(g, r, zz);
                lemma_run_same(g, r, zz, z - 1);
                if has_run(active@, r) {
                    let k = choose|k: int| 0 <= k < active@.len() && layer_rect_view(#[trigger] active@[k].rect) == r;
                    assert(matched_run(g, active@[k], z as int));
                }
            }
        }
    }
}

/// Every solid cell lies in a greedy rectangle of its layer, and every cell of
/// such a rectangle is solid.
pub proof fn lemma_layer_cover(g: VoxelGrid, z: int)
    requires
        layer_ok(g, z),
        0 <= z < g.size_z,
    ensures
        forall|x: int, y: int|
            #[trigger] solid_at(g, x, y, z) ==> exists|r: (int, int, int, int)| in_layer(g, z, r) && #[trigger] in_rect(r, x, y),
        forall|x: int, y: int, r: (int, int, int, int)| in_layer(g, z, r) && #[trigger] in_rect(r, x, y) ==> solid_at(g, x, y, z),
{
    let d = layer_decomp(g, z);
    let f = layer_cells(g, z);
    lemma_greedy_partition(f, g.size_x as int, g.size_y as int, d);
    assert forall|x: int, y: int| #[trigger] solid_at(g, x, y, z) implies exists|r: (int, int, int, int)|
        in_layer(g, z, r) && #[trigger] in_rect(r, x, y) by {
        assert(f(x, y));
        assert(covered(d, x, y));
        let j = choose|j: int| 0 <= j < d.len() && in_rect(#[trigger] d[j], x, y);
        assert(in_layer(g, z, d[j]));
    }
    assert forall|x: int, y: int, r: (int, int, int, int)| in_layer(g, z, r) && #[trigger] in_rect(r, x, y) implies solid_at(
        g,
        x,
        y,
        z,
    ) by {
        let j = choose|j: int| 0 <= j < d.len() && d[j] == r;
        assert(in_rect(d[j], x, y));
    }
}

/// `p` holds the merged boxes of the grid, each once, in some order.
pub open spec fn merged_boxes(g: VoxelGrid, p: Seq<VoxelBox>) -> bool {
    &&& forall|i: int| 0 <= i < p.len() ==> is_merged_box(g, #[trigger] p[i])
    &&& p.no_duplicates()
    &&& forall|z: int, rr: (int, int, int, int)| in_layer(g, z, rr) ==> p.contains(#[trigger] run_box(g, rr, z))
}

/// Merges the solid cells into boxes: each layer is split into rectangles by
/// the greedy rule, and a rectangle repeated over consecutive layers becomes
/// one box over all of them. The boxes are exactly the merged boxes of the
/// grid (`is_merged_box`), each once, in the order they are emitted
/// (`cuboid_order`), so those that end at a lower layer come first; `None`
/// when no cell is solid.
pub fn build_greedy_cuboids(grid: &VoxelGrid) -> (r: Option<Vec<VoxelBox>>)
    requires
        grid_wf(*grid),
    ensures
        r is None <==> forall|x: int, y: int, z: int| !#[trigger] solid_at(*grid, x, y, z),
        r matches Some(p) ==> merged_boxes(*grid, p@) && ordered_by_top(p@) && p@ == cuboid_order(*grid),
{
    let mut parts: Vec<VoxelBox> = Vec::new();
    let mut active: Vec<CuboidRun> = Vec::new();
    let mut visited: Vec<bool> = Vec::new();
    let mut rects: Vec<LayerRect> = Vec::new();
    let ghost g = *grid;
    proof {
        assert forall|zz: int, r: (int, int, int, int)| in_layer(g, zz, r) && run_end(g, r, zz) < 0 implies parts@.contains(
            #[trigger] run_box(g, r, zz),
        ) by {
            lemma_run_end(g, r, zz);
            lemma_in_layer(g, zz, r);
        }
    }
    assert(run_views(active@) =~= cuboid_state(g, 0).0);
    let mut z: usize = 0;
    while z < grid.size_z
        invariant
            g == *grid,
            grid_wf(g),
            z <= g.size_z,
            open_runs(g, active@, z as int),
            closed_parts(g, parts@, z as int),
            forall|zz: int| 0 <= zz < z ==> #[trigger] layer_ok(g, zz),
            run_views(active@) == cuboid_state(g, z as nat).0,
            parts@ == cuboid_state(g, z as nat).1,
        decreases g.size_z - z,
    {
        let ghost a0 = active@;
        let ghost p_before = parts@;
        clear_continued(&mut active);
        proof {
            assert forall|j: int| 0 <= j < active@.len() implies open_run(g, #[trigger] active@[j], z as int) by {
                assert(open_run(g, a0[j], z as int));
            }
            assert forall|j1: int, j2: int|
                0 <= j1 < active@.len() && 0 <= j2 < active@.len() && j1 != j2 implies active@[j1].rect
                != active@[j2].rect by {
                assert(a0[j1].rect != a0[j2].rect);
            }
            assert forall|r: (int, int, int, int)| #[trigger] in_layer(g, z - 1, r) implies has_run(active@, r) by {
                assert(has_run(a0, r));
                let k = choose|k: int| 0 <= k < a0.len() && layer_rect_view(#[trigger] a0[k].rect) == r;
                assert(layer_rect_view(active@[k].rect) == r);
            }
        }
        layer_rectangles(grid, z, &mut visited, &mut rects);
        proof {
            assert(layer_rect_views(rects@) == layer_decomp(g, z as int));
            assert(layer_ok(g, z as int));
            lemma_greedy_no_duplicates(layer_cells(g, z as int), g.size_x as int, g.size_y as int, layer_rect_views(rects@));
        }
        extend_runs(&mut active, &rects, z, Ghost(g));
        close_runs(&mut active, &mut parts, z, Ghost(g));
        proof {
            let prev = cuboid_state(g, z as nat);
            assert(cuboid_state(g, (z + 1) as nat) == ({
                let closed = close_run_list(extend_run_list(prev.0, layer_decomp(g, z as int), z as int), 0, z as int);
                (closed.0, prev.1 + closed.1)
            }));
        }
        z = z + 1;
    }
    let ghost p1 = parts@;
    let ghost sz = g.size_z as int;
    let mut j: usize = 0;
    while j < active.len()
        invariant
            g == *grid,
            grid_wf(g),
            sz == g.size_z,
            open_runs(g, active@, sz),
            closed_parts(g, p1, sz),
            j <= active@.len(),
            parts@.len() == p1.len() + j,
            parts@.take(p1.len() as int) == p1,
            forall|k: int|
                0 <= k < j ==> #[trigger] parts@[p1.len() + k] == merged_box(
                    layer_rect_view(active@[k].rect),
                    active@[k].min_z as int,
                    sz,
                ),
            forall|zz: int| 0 <= zz < sz ==> #[trigger] layer_ok(g, zz),
        decreases active@.len() - j,
    {
        let run = active[j];
        let ghost rv = layer_rect_view(run.rect);
        proof {
            assert(open_run(g, run, sz));
            lemma_run_start(g, rv, sz - 1);
            let d = layer_decomp(g, sz - 1);
            let k = choose|k: int| 0 <= k < d.len() && d[k] == rv;
            assert(layer_ok(g, sz - 1));
            lemma_greedy_nonempty(layer_cells(g, sz - 1), g.size_x as int, g.size_y as int, d, k);
        }
        let ghost pb = parts@;
        push_cuboid(
            &mut parts,
            (run.rect.min_x, run.rect.min_y, run.min_z),
            (run.rect.max_x, run.rect.max_y, run.max_z),
        );
        proof {
            assert(parts@ == pb.push(merged_box(rv, run.min_z as int, sz)));
            assert(parts@.take(p1.len() as int) =~= p1);
            assert forall|k: int| 0 <= k < j + 1 implies #[trigger] parts@[p1.len() + k] == merged_box(
                layer_rect_view(active@[k].rect),
                active@[k].min_z as int,
                sz,
            ) by {
                if k < j {
                    assert(parts@[p1.len() + k] == pb[p1.len() + k]);
                }
            }
        }
        j = j + 1;
    }
    proof {
        let ps = parts@;
        let n1 = p1.len() as int;
        let last = cuboid_state(g, g.size_z as nat);
        assert forall|k: int| 0 <= k < active@.len() implies #[trigger] run_views(active@)[k].2 == sz by {
            assert(open_run(g, active@[k], sz));
        }
        assert(ps =~= cuboid_order(g)) by {
            let tail = last.0.map_values(|a: ((int, int, int, int), int, int)| run_view_box(a));
            assert forall|k: int| 0 <= k < active@.len() implies ps[n1 + k] == tail[k] by {
                assert(run_views(active@)[k] == run_view(active@[k]));
                assert(run_views(active@)[k].2 == sz);
            }
            assert(ps.take(n1) == p1);
            assert forall|x: int| 0 <= x < ps.len() implies ps[x] == (p1 + tail)[x] by {
                if x < n1 {
                    assert(ps.take(n1)[x] == ps[x]);
                } else {
                    assert(ps[n1 + (x - n1)] == tail[x - n1]);
                }
            }
        }
        assert forall|k: int| 0 <= k < active@.len() implies #[trigger] ps[n1 + k] == run_box(
            g,
            layer_rect_view(active@[k].rect),
            sz - 1,
        ) && ps[n1 + k].max_z == sz by {
            assert(open_run(g, active@[k], sz));
            lemma_in_layer(g, sz - 1, layer_rect_view(active@[k].rect));
        }
        assert forall|i: int| 0 <= i < ps.len() implies is_merged_box(g, #[trigger] ps[i]) by {
            if i < n1 {
                assert(ps[i] == p1[i]);
            } else {
                let k = i - n1;
                assert(ps[n1 + k] == run_box(g, layer_rect_view(active@[k].rect), sz - 1));
                assert(open_run(g, active@[k], sz));
            }
        }
        assert forall|x: int, y: int| 0 <= x < ps.len() && 0 <= y < ps.len() && x != y implies ps[x] != ps[y] by {
            if x < n1 && y < n1 {
                assert(ps[x] == p1[x] && ps[y] == p1[y]);
            } else if x < n1 {
                assert(ps[x] == p1[x]);
                assert(ps[n1 + (y - n1)].max_z == sz);
            } else if y < n1 {
                assert(ps[y] == p1[y]);
                assert(ps[n1 + (x - n1)].max_z == sz);
            } else {
                assert(ps[n1 + (x - n1)] == merged_box(layer_rect_view(active@[x - n1].rect), active@[x - n1].min_z as int, sz));
                assert(ps[n1 + (y - n1)] == merged_box(layer_rect_view(active@[y - n1].rect), active@[y - n1].min_z as int, sz));
                assert(active@[x - n1].rect != active@[y - n1].rect);
            }
        }
        assert forall|x: int, y: int| 0 <= x < y < ps.len() implies (#[trigger] ps[x]).max_z <= (#[trigger] ps[y]).max_z by {
            if y < n1 {
                assert(ps[x] == p1[x] && ps[y] == p1[y]);
            } else if x < n1 {
                assert(ps[x] == p1[x]);
                assert(ps[n1 + (y - n1)].max_z == sz);
            } else {
                assert(ps[n1 + (x - n1)].max_z == sz);
                assert(ps[n1 + (y - n1)].max_z == sz);
            }
        }
        assert forall|zz: int, rr: (int, int, int, int)| in_layer(g, zz, rr) implies ps.contains(#[trigger] run_box(g, rr, zz)) by {
            lemma_run_end(g, rr, zz);
            if run_end(g, rr, zz) < sz {
                assert(p1.contains(run_box(g, rr, zz)));
                let x = choose|x: int| 0 <= x < p1.len() && p1[x] == run_box(g, rr, zz);
                assert(ps[x] == p1[x]);
            } else {
                lemma_run_same(g, rr, zz, sz - 1);
                assert(has_run(active@, rr));
                let k = choose|k: int| 0 <= k < active@.len() && layer_rect_view(#[trigger] active@[k].rect) == rr;
                assert(ps[n1 + k] == run_box(g, rr, sz - 1));
            }
        }
        if ps.len() == 0 {
            assert forall|x: int, y: int, z2: int| !#[trigger] solid_at(g, x, y, z2) by {
                if solid_at(g, x, y, z2) {
                    lemma_layer_cover(g, z2);
                    let rr = choose|rr: (int, int, int, int)| in_layer(g, z2, rr) && #[trigger] in_rect(rr, x, y);
                    assert(ps.contains(run_box(g, rr, z2)));
                }
            }
        } else {
            assert(is_merged_box(g, ps[0]));
            let (z2, rr) = choose|z2: int, rr: (int, int, int, int)| in_layer(g, z2, rr) && ps[0] == #[trigger] run_box(g, rr, z2);
            lemma_in_layer(g, z2, rr);
            assert(layer_ok(g, z2));
            lemma_layer_cover(g, z2);
            let d = layer_decomp(g, z2);
            let k = choose|k: int| 0 <= k < d.len() && d[k] == rr;
            lemma_greedy_nonempty(layer_cells(g, z2), g.size_x as int, g.size_y as int, d, k);
            assert(in_rect(rr, rr.0, rr.1));
            assert(solid_at(g, rr.0, rr.1, z2));
        }
    }
    if parts.len() == 0 {
        None
    } else {
        Some(parts)
    }
}

/// Cell `(x, y, z)` lies in box `b`.
pub open spec fn box_has(b: VoxelBox, x: int, y: int, z: int) -> bool {
    b.min_x <= x < b.max_x && b.min_y <= y < b.max_y && b.min_z <= z < b.max_z
}

proof fn lemma_run_from_start(g: VoxelGrid, r: (int, int, int, int), z: int)
    requires
        in_layer(g, z, r),
    ensures
        run_start(g, r, run_start(g, r, z)) == run_start(g, r, z),
        run_end(g, r, run_start(g, r, z)) == run_end(g, r, z),
    decreases z,
{
    lemma_in_layer(g, z, r);
    if z > 0 && in_layer(g, z - 1, r) {
        lemma_run_from_start(g, r, z - 1);
    }
}

/// Every layer of a run has the same run box.
pub proof fn lemma_run_box_at(g: VoxelGrid, r: (int, int, int, int), z1: int, z: int)
    requires
        in_layer(g, z1, r),
        run_start(g, r, z1) <= z < run_end(g, r, z1),
    ensures
        in_layer(g, z, r),
        run_box(g, r, z) == run_box(g, r, z1),
{
    let s = run_start(g, r, z1);
    lemma_run_start(g, r, z1);
    lemma_run_from_start(g, r, z1);
    lemma_run_same(g, r, s, z);
}

/// The merged boxes split the solid cells: every cell of a merged box is
/// solid, two merged boxes that share a cell are the same box, and every
/// solid cell lies in the merged box of its layer rectangle.
pub proof fn lemma_merged_boxes_partition(g: VoxelGrid, b1: VoxelBox, b2: VoxelBox, x: int, y: int, z: int)
    requires
        grid_wf(g),
    ensures
        is_merged_box(g, b1) && box_has(b1, x, y, z) ==> solid_at(g, x, y, z),
        is_merged_box(g, b1) && is_merged_box(g, b2) && box_has(b1, x, y, z) && box_has(b2, x, y, z) ==> b1 == b2,
        solid_at(g, x, y, z) ==> exists|zz: int, r: (int, int, int, int)|
            in_layer(g, zz, r) && box_has(#[trigger] run_box(g, r, zz), x, y, z),
{
    assert forall|zz: int| 0 <= zz < g.size_z implies #[trigger] layer_ok(g, zz) by {
        lemma_layer_ok(g, zz);
    }
    if is_merged_box(g, b1) && box_has(b1, x, y, z) {
        let (z1, r1) = choose|z1: int, r1: (int, int, int, int)| in_layer(g, z1, r1) && b1 == #[trigger] run_box(g, r1, z1);
        lemma_cell_in_run(g, r1, z1, x, y, z);
        if is_merged_box(g, b2) && box_has(b2, x, y, z) {
            let (z2, r2) = choose|z2: int, r2: (int, int, int, int)| in_layer(g, z2, r2) && b2 == #[trigger] run_box(g, r2, z2);
            lemma_cell_in_run(g, r2, z2, x, y, z);
            let d = layer_decomp(g, z);
            assert(layer_ok(g, z));
            lemma_greedy_partition(layer_cells(g, z), g.size_x as int, g.size_y as int, d);
            let i1 = choose|i: int| 0 <= i < d.len() && d[i] == r1;
            let i2 = choose|i: int| 0 <= i < d.len() && d[i] == r2;
            assert(in_rect(d[i1], x, y) && in_rect(d[i2], x, y));
            if i1 < i2 {
                assert(!in_rect(d[i2], x, y));
            }
            if i2 < i1 {
                assert(!in_rect(d[i1], x, y));
            }
            lemma_run_box_at(g, r1, z1, z);
            lemma_run_box_at(g, r2, z2, z);
        }
    }
    if solid_at(g, x, y, z) {
        assert(layer_ok(g, z));
        lemma_layer_cover(g, z);
        let r = choose|r: (int, int, int, int)| in_layer(g, z, r) && #[trigger] in_rect(r, x, y);
        lemma_run_start(g, r, z);
        lemma_run_end(g, r, z);
        lemma_in_layer(g, z, r);
        let d = layer_decomp(g, z);
        let k = choose|k: int| 0 <= k < d.len() && d[k] == r;
        lemma_greedy_nonempty(layer_cells(g, z), g.size_x as int, g.size_y as int, d, k);
        assert(box_has(run_box(g, r, z), x, y, z));
    }
}

/// A cell of the run box of `r` through `z1` lies in `r` on a layer of the
/// run, and is solid.
proof fn lemma_cell_in_run(g: VoxelGrid, r: (int, int, int, int), z1: int, x: int, y: int, z: int)
    requires
        grid_wf(g),
        forall|zz: int| 0 <= zz < g.size_z ==> #[trigger] layer_ok(g, zz),
        in_layer(g, z1, r),
        box_has(run_box(g, r, z1), x, y, z),
    ensures
        in_layer(g, z, r),
        in_rect(r, x, y),
        run_start(g, r, z1) <= z < run_end(g, r, z1),
        solid_at(g, x, y, z),
{
    lemma_in_layer(g, z1, r);
    lemma_run_start(g, r, z1);
    lemma_run_end(g, r, z1);
    let d = layer_decomp(g, z1);
    assert(layer_ok(g, z1));
    let k = choose|k: int| 0 <= k < d.len() && d[k] == r;
    lemma_greedy_nonempty(layer_cells(g, z1), g.size_x as int, g.size_y as int, d, k);
    lemma_run_box_at(g, r, z1, z);
    lemma_in_layer(g, z, r);
    assert(layer_ok(g, z));
    lemma_layer_cover(g, z);
    assert(in_rect(r, x, y));
}

/// The number of non-zero bytes.
pub open spec fn nonzero_count(s: Seq<u8>) -> nat
    decreases s.len(),
{
    if s.len() == 0 {
        0
    } else {
        nonzero_count(s.drop_last()) + if s.last() != 0 {
            1nat
        } else {
            0nat
        }
    }
}

/// Counts the solid cells.
pub fn count_solid(voxels: &[u8]) -> (r: usize)
    ensures
        r == nonzero_count(voxels@),
{
    let mut n: usize = 0;
    let mut i: usize = 0;
    while i < voxels.len()
        invariant
            i <= voxels@.len(),
            n == nonzero_count(voxels@.take(i as int)),
            n <= i,
        decreases voxels@.len() - i,
    {
        assert(voxels@.take(i + 1).drop_last() =~= voxels@.take(i as int));
        if voxels[i] != 0 {
            n = n + 1;
        }
        i = i + 1;
    }
    assert(voxels@.take(i as int) =~= voxels@);
    n
}

proof fn lemma_unit_boxes_count(g: VoxelGrid, k: int)
    requires
        0 <= k <= g.voxels@.len(),
    ensures
        solid_unit_boxes(g, k).len() == nonzero_count(g.voxels@.take(k)),
    decreases k,
{
    if k > 0 {
        lemma_unit_boxes_count(g, k - 1);
        assert(g.voxels@.take(k).drop_last() =~= g.voxels@.take(k - 1));
    }
}

/// The collider a voxel grid becomes, in grid units.
pub enum VoxelShape {
    /// Boxes of cells, one compound part each.
    Cuboids(Vec<VoxelBox>),
    /// A triangle mesh over lattice points.
    Mesh(Vec<GridPoint>, Vec<[u32; 3]>),
}

/// Builds the collider shape of a grid in the mode `choose_mode` picks from
/// the solid count; `None` when no cell is solid (or the mesh has no face or
/// too many vertices).
pub fn build_voxel_collider(grid: &VoxelGrid, options: VoxelColliderOptions) -> (r: Option<VoxelShape>)
    requires
        grid_wf(*grid),
    ensures
        ({
            let n = nonzero_count(grid.voxels@);
            let mode = chosen_mode(n as int, options);
            let pts = surface_points(*grid);
            &&& n == 0 ==> r is None
            &&& n > 0 && mode == VoxelColliderMode::Cuboids ==> (r matches Some(VoxelShape::Cuboids(p)) && p@
                == solid_unit_boxes(*grid, grid.voxels@.len() as int))
            &&& n > 0 && options.mode == VoxelColliderMode::Cuboids ==> (r matches Some(VoxelShape::Cuboids(p))
                && p@ == solid_unit_boxes(*grid, grid.voxels@.len() as int))
            &&& n > 0 && mode == VoxelColliderMode::GreedyCuboids ==> (r matches Some(VoxelShape::Cuboids(p))
                && merged_boxes(*grid, p@) && p@ == cuboid_order(*grid))
            &&& n > 0 && mode == VoxelColliderMode::SurfaceMesh ==> (r is None <==> pts.len() == 0 || pts.len()
                > 0x1_0000_0000)
            &&& n > 0 && mode == VoxelColliderMode::SurfaceMesh && r is Some ==> (r matches Some(VoxelShape::Mesh(v, i))
                && v@ == pts && i@ == quads_triangles(0, pts.len() / 4))
        }),
{
    let solid_count = count_solid(grid.voxels);
    proof {
        lemma_explicit_mode_stands(solid_count as int, options);
    }
    if solid_count == 0 {
        return None;
    }
    proof {
        lemma_unit_boxes_count(*grid, grid.voxels@.len() as int);
        assert(grid.voxels@.take(grid.voxels@.len() as int) =~= grid.voxels@);
    }
    match choose_mode(solid_count, options) {
        VoxelColliderMode::Cuboids => match build_cuboids(grid) {
            Some(p) => Some(VoxelShape::Cuboids(p)),
            None => None,
        },
        VoxelColliderMode::GreedyCuboids => {
            proof {
                lemma_some_solid(*grid);
            }
            match build_greedy_cuboids(grid) {
                Some(p) => Some(VoxelShape::Cuboids(p)),
                None => None,
            }
        },
        VoxelColliderMode::SurfaceMesh => match build_surface_mesh(grid) {
            Some(m) => Some(VoxelShape::Mesh(m.0, m.1)),
            None => None,
        },
        VoxelColliderMode::Auto => None,
    }
}

/// A grid with a non-zero byte has a solid cell.
proof fn lemma_some_solid(g: VoxelGrid)
    requires
        grid_wf(g),
        nonzero_count(g.voxels@) > 0,
    ensures
        exists|x: int, y: int, z: int| #[trigger] solid_at(g, x, y, z),
{
    let k = lemma_nonzero_index(g.voxels@);
    let sx = g.size_x as int;
    let sy = g.size_y as int;
    let sz = g.size_z as int;
    let x = k % sx;
    let q = k / sx;
    let y = q % sy;
    let z = q / sy;
    assert(sx > 0 && sy > 0 && sz > 0) by (nonlinear_arith)
        requires
            0 <= k < sx * sy * sz,
            sx >= 0,
            sy >= 0,
            sz >= 0,
    ;
    vstd::arithmetic::div_mod::lemma_fundamental_div_mod(k, sx);
    vstd::arithmetic::div_mod::lemma_mod_pos_bound(k, sx);
    vstd::arithmetic::div_mod::lemma_fundamental_div_mod(q, sy);
    vstd::arithmetic::div_mod::lemma_mod_pos_bound(q, sy);
    assert(0 <= q) by {
        vstd::arithmetic::div_mod::lemma_div_pos_is_pos(k, sx);
    }
    assert(0 <= z) by {
        vstd::arithmetic::div_mod::lemma_div_pos_is_pos(q, sy);
    }
    assert(z < sz) by (nonlinear_arith)
        requires
            k == sx * q + x,
            q == sy * z + y,
            0 <= x < sx,
            0 <= y < sy,
            0 <= k < sx * sy * sz,
            sx > 0,
            sy > 0,
    ;
    assert(cell_index(g, x, y, z) == k) by (nonlinear_arith)
        requires
            k == sx * q + x,
            q == sy * z + y,
            cell_index(g, x, y, z) == z * sy * sx + y * sx + x,
    ;
    assert(solid_at(g, x, y, z));
}

/// The position of some non-zero byte.
proof fn lemma_nonzero_index(s: Seq<u8>) -> (k: int)
    requires
        nonzero_count(s) > 0,
    ensures
        0 <= k < s.len(),
        s[k] != 0,
    decreases s.len(),
{
    if s.last() != 0 {
        s.len() - 1
    } else {
        let k = lemma_nonzero_index(s.drop_last());
        k
    }
}

/// The number of cells of a grid with the given dimensions; `None` when a
/// dimension is zero or the count does not fit in `usize`.
pub fn voxel_grid_len(size_x: u32, size_y: u32, size_z: u32) -> (r: Option<usize>)
    ensures
        r is Some <==> size_x > 0 && size_y > 0 && size_z > 0 && size_x * size_y * size_z <= usize::MAX,
        r matches Some(n) ==> n == size_x * size_y * size_z,
{
    if size_x == 0 || size_y == 0 || size_z == 0 {
        return None;
    }
    let xy = match (size_x as usize).checked_mul(size_y as usize) {
        Some(v) => v,
        None => {
            proof {
                assert(size_x * size_y <= size_x * size_y * size_z) by (nonlinear_arith)
                    requires
                        size_z >= 1,
                        size_x >= 0,
                        size_y >= 0,
                ;
            }
            return None;
        },
    };
    (xy).checked_mul(size_z as usize)
}

/// The quads of a slice split its exposed faces: every face under a quad's
/// rectangle is exposed, no two rectangles share a face, and every exposed
/// face lies under one.
pub proof fn lemma_slice_faces_partition(g: VoxelGrid, axis: int, k: int, step: int)
    ensures
        ({
            let w = axis_dims(g, axis).0;
            let h = axis_dims(g, axis).1;
            let rs = greedy_decomp(exposure(g, axis, k, step), w, h);
            &&& forall|j: int, u: int, v: int|
                0 <= j < rs.len() && #[trigger] in_rect(rs[j], u, v) ==> exposed(g, axis, k, step, u, v)
            &&& forall|i: int, j: int, u: int, v: int|
                #![trigger in_rect(rs[i], u, v), in_rect(rs[j], u, v)]
                0 <= i < j < rs.len() && in_rect(rs[i], u, v) ==> !in_rect(rs[j], u, v)
            &&& forall|u: int, v: int|
                0 <= u < w && 0 <= v < h && exposed(g, axis, k, step, u, v) ==> #[trigger] covered(rs, u, v)
        }),
{
    let w = axis_dims(g, axis).0;
    let h = axis_dims(g, axis).1;
    let f = exposure(g, axis, k, step);
    lemma_greedy_exists(f, w, h);
    lemma_greedy_partition(f, w, h, greedy_decomp(f, w, h));
    assert forall|u: int, v: int| 0 <= u < w && 0 <= v < h && exposed(g, axis, k, step, u, v) implies #[trigger] covered(
        greedy_decomp(f, w, h),
        u,
        v,
    ) by {
        assert(f(u, v));
    }
}

} // verus!
