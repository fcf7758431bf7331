use vstd::prelude::*;

use crate::math::{IVec2, IVec3};

verus! {

/// Bit in [`ChunkVoxels::changes`] that asks for a new render mesh.
pub const MESH_CHANGED: u8 = 1;

/// Bit in [`ChunkVoxels::changes`] that asks for a new collider.
pub const COLLIDER_CHANGED: u8 = 2;

/// The material of one voxel cell.
#[derive(Clone, Copy, Debug, PartialEq, Eq, Structural, Hash)]
pub enum VoxelKind {
    Air,
    Grass,
    Dirt,
    Stone,
    Sand,
    Snow,
    Wood,
    Leaves,
    Water,
}

impl Default for VoxelKind {
    fn default() -> (kind: Self)
        ensures
            kind == VoxelKind::Air,
    {
        VoxelKind::Air
    }
}

impl VoxelKind {
    pub open spec fn spec_is_solid(self) -> bool {
        !(self is Air || self is Leaves || self is Water)
    }

    pub open spec fn spec_is_liquid(self) -> bool {
        self is Water
    }

    pub open spec fn spec_is_opaque(self) -> bool {
        !(self is Air || self is Water)
    }

    /// Solid voxels collide with bodies: everything but air, leaves and water.
    #[verifier::when_used_as_spec(spec_is_solid)]
    pub fn is_solid(self) -> (solid: bool)
        ensures
            solid == self.spec_is_solid(),
    {
        match self {
            VoxelKind::Air | VoxelKind::Leaves | VoxelKind::Water => false,
            _ => true,
        }
    }

    /// Only water is liquid.
    #[verifier::when_used_as_spec(spec_is_liquid)]
    pub fn is_liquid(self) -> (liquid: bool)
        ensures
            liquid == self.spec_is_liquid(),
    {
        match self {
            VoxelKind::Water => true,
            _ => false,
        }
    }

    /// Opaque voxels hide the faces behind them: everything but air and water.
    #[verifier::when_used_as_spec(spec_is_opaque)]
    pub fn is_opaque(self) -> (opaque: bool)
        ensures
            opaque == self.spec_is_opaque(),
    {
        match self {
            VoxelKind::Air | VoxelKind::Water => false,
            _ => true,
        }
    }
}

/// The kind of layer `y` of a generated column whose surface is at `height`:
/// grass on the top layer, dirt on the three below it, stone further down, and
/// air from `height` up.
pub open spec fn column_kind(y: int, height: int) -> VoxelKind {
    if y >= height {
        VoxelKind::Air
    } else if y + 1 == height {
        VoxelKind::Grass
    } else if y + 4 >= height {
        VoxelKind::Dirt
    } else {
        VoxelKind::Stone
    }
}

impl VoxelKind {
    /// The solid kind of layer `y` below a column surface at `height`.
    pub fn terrain_at(y: i32, height: i32) -> (kind: VoxelKind)
        requires
            0 <= y < height,
        ensures
            kind == column_kind(y as int, height as int),
    {
        if height - y == 1 {
            VoxelKind::Grass
        } else if height - y <= 4 {
            VoxelKind::Dirt
        } else {
            VoxelKind::Stone
        }
    }
}

/// How the voxel classes relate: exactly water is liquid; a voxel hides what
/// lies behind it exactly when it is neither air nor liquid; and a voxel
/// collides exactly when it hides what lies behind it and is not leaves.
pub proof fn lemma_voxel_classes(kind: VoxelKind)
    ensures
        kind.spec_is_liquid() <==> kind == VoxelKind::Water,
        kind.spec_is_opaque() <==> (kind != VoxelKind::Air && !kind.spec_is_liquid()),
        kind.spec_is_solid() <==> (kind.spec_is_opaque() && kind != VoxelKind::Leaves),
{
}

/// Linear position of an in-bounds cell: x fastest, then z, then y.
pub open spec fn cell_linear(size: int, p: IVec3) -> int {
    p.x + size * (p.z + size * p.y)
}

/// Linear position of a halo sample: `offset` along a side, four sides per layer.
pub open spec fn halo_linear(size: int, side: int, offset: int, y: int) -> int {
    offset + size * (side + 4 * y)
}

/// Cells are laid out x fastest, then z, then y: the origin comes first, a step
/// along x moves one place, along z one row of `size`, along y one layer of
/// `size * size`.
pub proof fn lemma_cell_layout(size: int, p: IVec3)
    requires
        p.x < i32::MAX,
        p.y < i32::MAX,
        p.z < i32::MAX,
    ensures
        cell_linear(size, IVec3 { x: 0, y: 0, z: 0 }) == 0,
        cell_linear(size, IVec3 { x: (p.x + 1) as i32, ..p }) == cell_linear(size, p) + 1,
        cell_linear(size, IVec3 { z: (p.z + 1) as i32, ..p }) == cell_linear(size, p) + size,
        cell_linear(size, IVec3 { y: (p.y + 1) as i32, ..p }) == cell_linear(size, p) + size * size,
{
    assert(size * (p.z + 1 + size * p.y) == size * (p.z + size * p.y) + size) by (nonlinear_arith);
    assert(size * (p.z + size * (p.y + 1)) == size * (p.z + size * p.y) + size * size)
        by (nonlinear_arith);
}

/// Halo samples are laid out offset fastest, then side, then layer: a step
/// along a side moves one place, to the next side one run of `size`, up one
/// layer four runs.
pub proof fn lemma_halo_layout(size: int, side: int, offset: int, y: int)
    ensures
        halo_linear(size, 0, 0, 0) == 0,
        halo_linear(size, side, offset + 1, y) == halo_linear(size, side, offset, y) + 1,
        halo_linear(size, side + 1, offset, y) == halo_linear(size, side, offset, y) + size,
        halo_linear(size, side, offset, y + 1) == halo_linear(size, side, offset, y) + 4 * size,
{
    assert(size * (0 + 4 * 0) == 0) by (nonlinear_arith);
    assert(size * (side + 1 + 4 * y) == size * (side + 4 * y) + size) by (nonlinear_arith);
    assert(size * (side + 4 * (y + 1)) == size * (side + 4 * y) + 4 * size) by (nonlinear_arith);
}

/// The halo side (0: x = -1, 1: x = size, 2: z = -1, 3: z = size) and the offset
/// along it of a position that lies just outside the chunk, if it does.
pub open spec fn halo_side(size: int, height: int, p: IVec3) -> Option<(int, int)> {
    if !(0 <= p.y < height) {
        None
    } else if p.x == -1 && 0 <= p.z < size {
        Some((0, p.z as int))
    } else if p.x == size && 0 <= p.z < size {
        Some((1, p.z as int))
    } else if p.z == -1 && 0 <= p.x < size {
        Some((2, p.x as int))
    } else if p.z == size && 0 <= p.x < size {
        Some((3, p.x as int))
    } else {
        None
    }
}

/// Position of the cell with linear index `i` in a chunk `size` cells wide.
pub open spec fn cell_position(size: int, i: int) -> IVec3 {
    IVec3 { x: (i % size) as i32, y: (i / (size * size)) as i32, z: ((i / size) % size) as i32 }
}

/// Positions of the solid cells among the first `n` cells, in linear order.
pub open spec fn solid_positions_upto(cells: Seq<VoxelKind>, size: int, n: int) -> Seq<IVec3>
    decreases n,
{
    if n <= 0 {
        Seq::empty()
    } else {
        let rest = solid_positions_upto(cells, size, n - 1);
        if cells[n - 1].spec_is_solid() {
            rest.push(cell_position(size, n - 1))
        } else {
            rest
        }
    }
}

/// The halo side that a cardinal chunk direction designates.
pub open spec fn direction_side(direction: IVec2) -> int {
    if direction.x == -1 {
        0
    } else if direction.x == 1 {
        1
    } else if direction.y == -1 {
        2
    } else {
        3
    }
}

/// The four chunk neighbours.
pub open spec fn is_cardinal(direction: IVec2) -> bool {
    ||| direction == IVec2 { x: -1i32, y: 0 }
    ||| direction == IVec2 { x: 1, y: 0 }
    ||| direction == IVec2 { x: 0, y: -1i32 }
    ||| direction == IVec2 { x: 0, y: 1 }
}

/// The neighbour cell whose kind a halo sample on `side` mirrors.
pub open spec fn mirrored_cell(size: int, side: int, offset: int, y: int) -> IVec3 {
    if side == 0 {
        IVec3 { x: (size - 1) as i32, y: y as i32, z: offset as i32 }
    } else if side == 1 {
        IVec3 { x: 0, y: y as i32, z: offset as i32 }
    } else if side == 2 {
        IVec3 { x: offset as i32, y: y as i32, z: (size - 1) as i32 }
    } else {
        IVec3 { x: offset as i32, y: y as i32, z: 0 }
    }
}

/// A halo sample mirrors the neighbouring chunk's cell at the same world
/// position: that cell lies inside the chunk, on the same layer, and its x and z
/// differ from the sample's position by whole chunk widths.
pub proof fn lemma_halo_mirror_law(size: int, height: int, p: IVec3)
    requires
        size > 0,
        size < i32::MAX,
        halo_side(size, height, p) is Some,
    ensures
        ({
            let (side, offset) = halo_side(size, height, p).unwrap();
            let m = mirrored_cell(size, side, offset, p.y as int);
            &&& 0 <= m.x < size
            &&& 0 <= m.z < size
            &&& m.y == p.y
            &&& (p.x - m.x) % size == 0
            &&& (p.z - m.z) % size == 0
        }),
{
    let (side, offset) = halo_side(size, height, p).unwrap();
    let m = mirrored_cell(size, side, offset, p.y as int);
    if side == 0 {
        vstd::arithmetic::div_mod::lemma_fundamental_div_mod_converse(p.x - m.x, size, -1, 0);
        vstd::arithmetic::div_mod::lemma_fundamental_div_mod_converse(p.z - m.z, size, 0, 0);
    } else if side == 1 {
        vstd::arithmetic::div_mod::lemma_fundamental_div_mod_converse(p.x - m.x, size, 1, 0);
        vstd::arithmetic::div_mod::lemma_fundamental_div_mod_converse(p.z - m.z, size, 0, 0);
    } else if side == 2 {
        vstd::arithmetic::div_mod::lemma_fundamental_div_mod_converse(p.x - m.x, size, 0, 0);
        vstd::arithmetic::div_mod::lemma_fundamental_div_mod_converse(p.z - m.z, size, -1, 0);
    } else {
        vstd::arithmetic::div_mod::lemma_fundamental_div_mod_converse(p.x - m.x, size, 0, 0);
        vstd::arithmetic::div_mod::lemma_fundamental_div_mod_converse(p.z - m.z, size, 1, 0);
    }
}

proof fn lemma_cell_linear_bounds(size: int, height: int, p: IVec3)
    requires
        0 <= p.x < size,
        0 <= p.z < size,
        0 <= p.y < height,
    ensures
        0 <= cell_linear(size, p) < size * size * height,
        0 <= size * p.y < size * height,
        0 <= p.z + size * p.y < size * height,
        0 <= size * (p.z + size * p.y) < size * size * height,
        size * height <= size * size * height,
{
    let (x, y, z) = (p.x as int, p.y as int, p.z as int);
    assert(0 <= size * y < size * height) by (nonlinear_arith)
        requires
            0 <= y < height,
            0 < size,
    ;
    assert(0 <= z + size * y < size * height) by (nonlinear_arith)
        requires
            0 <= z < size,
            0 <= y < height,
    ;
    assert(0 <= size * (z + size * y) < size * size * height) by (nonlinear_arith)
        requires
            0 <= z + size * y < size * height,
            0 < size,
    ;
    assert(x + size * (z + size * y) < size * size * height) by (nonlinear_arith)
        requires
            0 <= x < size,
            0 <= z + size * y < size * height,
            0 < size,
    ;
    assert(size * height <= size * size * height) by (nonlinear_arith)
        requires
            0 < size,
            0 < height,
    ;
}

proof fn lemma_cell_linear_injective(size: int, height: int, p: IVec3, q: IVec3)
    requires
        0 <= p.x < size,
        0 <= p.z < size,
        0 <= p.y < height,
        0 <= q.x < size,
        0 <= q.z < size,
        0 <= q.y < height,
        p != q,
    ensures
        cell_linear(size, p) != cell_linear(size, q),
{
    let (px, py, pz) = (p.x as int, p.y as int, p.z as int);
    let (qx, qy, qz) = (q.x as int, q.y as int, q.z as int);
    let pk = pz + size * py;
    let qk = qz + size * qy;
    assert(size * pk == pk * size) by (nonlinear_arith);
    assert(size * qk == qk * size) by (nonlinear_arith);
    assert(size * py == py * size) by (nonlinear_arith);
    assert(size * qy == qy * size) by (nonlinear_arith);
    assert(0 <= pk && 0 <= qk) by (nonlinear_arith)
        requires
            0 <= pz,
            0 <= qz,
            0 <= py,
            0 <= qy,
            size > 0,
            pk == pz + size * py,
            qk == qz + size * qy,
    ;
    if cell_linear(size, p) == cell_linear(size, q) {
        vstd::arithmetic::div_mod::lemma_fundamental_div_mod_converse(px + size * pk, size, pk, px);
        vstd::arithmetic::div_mod::lemma_fundamental_div_mod_converse(qx + size * qk, size, qk, qx);
        vstd::arithmetic::div_mod::lemma_fundamental_div_mod_converse(pk, size, py, pz);
        vstd::arithmetic::div_mod::lemma_fundamental_div_mod_converse(qk, size, qy, qz);
    }
}

proof fn lemma_halo_linear_bounds(size: int, height: int, side: int, offset: int, y: int)
    requires
        0 <= offset < size,
        0 <= side < 4,
        0 <= y < height,
    ensures
        0 <= 4 * y < 4 * height,
        0 <= side + 4 * y < 4 * height,
        0 <= size * (side + 4 * y) < 4 * size * height,
        0 <= halo_linear(size, side, offset, y) < 4 * size * height,
        halo_linear(size, side, offset, y) % size == offset,
        (halo_linear(size, side, offset, y) / size) % 4 == side,
        halo_linear(size, side, offset, y) / size / 4 == y,
{
    let k = side + 4 * y;
    assert(0 <= size * k < 4 * size * height) by (nonlinear_arith)
        requires
            0 <= k < 4 * height,
            0 < size,
    ;
    assert(0 <= offset + size * k < 4 * size * height) by (nonlinear_arith)
        requires
            0 <= offset < size,
            0 <= k < 4 * height,
    ;
    assert(size * k == k * size) by (nonlinear_arith);
    vstd::arithmetic::div_mod::lemma_fundamental_div_mod_converse(
        offset + size * k,
        size,
        k,
        offset,
    );
    assert(4 * y == y * 4) by (nonlinear_arith);
    vstd::arithmetic::div_mod::lemma_fundamental_div_mod_converse(k, 4, y, side);
}

/// Distinct halo positions have distinct halo indices.
/// Every halo index is the linear index of its own side, offset and layer.
proof fn lemma_halo_linear_decompose(size: int, height: int, i: int)
    requires
        0 < size,
        0 <= i < 4 * size * height,
    ensures
        0 <= i / size / 4 < height,
        0 <= i % size < size,
        0 <= (i / size) % 4 < 4,
        i == halo_linear(size, (i / size) % 4, i % size, i / size / 4),
{
    let q = i / size;
    let r = i % size;
    assert(i == size * q + r) by (nonlinear_arith)
        requires
            0 < size,
            q == i / size,
            r == i % size,
    ;
    assert(0 <= q < 4 * height) by (nonlinear_arith)
        requires
            0 < size,
            0 <= i < 4 * size * height,
            q == i / size,
            i == size * q + i % size,
            0 <= i % size < size,
    ;
    assert(q == q % 4 + 4 * (q / 4));
}

/// An index below `area * height` lies in a layer below `height`, at a
/// column inside the layer.
proof fn lemma_layer_below(i: int, area: int, height: int)
    requires
        0 < area,
        0 <= i < area * height,
    ensures
        0 <= i / area < height,
        0 <= i % area < area,
{
    assert(0 <= i / area < height) by (nonlinear_arith)
        requires
            0 < area,
            0 <= i < area * height,
    {
        vstd::arithmetic::div_mod::lemma_fundamental_div_mod(i, area);
    }
}

proof fn lemma_halo_position_injective(size: int, height: int, p: IVec3, q: IVec3)
    requires
        size > 0,
        halo_side(size, height, p) is Some,
        halo_side(size, height, q) is Some,
        p != q,
    ensures
        ({
            let (sp, op) = halo_side(size, height, p).unwrap();
            let (sq, oq) = halo_side(size, height, q).unwrap();
            halo_linear(size, sp, op, p.y as int) != halo_linear(size, sq, oq, q.y as int)
        }),
{
    let (sp, op) = halo_side(size, height, p).unwrap();
    let (sq, oq) = halo_side(size, height, q).unwrap();
    lemma_halo_linear_bounds(size, height, sp, op, p.y as int);
    lemma_halo_linear_bounds(size, height, sq, oq, q.y as int);
}

/// Dense voxel storage of one chunk: `size * size * height` cells plus a halo
/// of neighbour samples one cell outside each of the four vertical sides.
pub struct ChunkVoxels {
    size: i32,
    height: i32,
    cells: Vec<VoxelKind>,
    halo: Vec<VoxelKind>,
    changes: u8,
    modified: bool,
}

impl Clone for ChunkVoxels {
    fn clone(&self) -> (copy: Self)
        ensures
            copy.spec_size() == self.spec_size(),
            copy.spec_height() == self.spec_height(),
            copy.cells() == self.cells(),
            copy.halo() == self.halo(),
            copy.spec_changes() == self.spec_changes(),
            copy.spec_modified() == self.spec_modified(),
    {
        proof {
            use_type_invariant(self);
        }
        let cells = copy_kinds(&self.cells);
        let halo = copy_kinds(&self.halo);
        ChunkVoxels {
            size: self.size,
            height: self.height,
            cells,
            halo,
            changes: self.changes,
            modified: self.modified,
        }
    }
}

fn copy_kinds(kinds: &Vec<VoxelKind>) -> (copy: Vec<VoxelKind>)
    ensures
        copy@ == kinds@,
{
    let mut copy: Vec<VoxelKind> = Vec::new();
    let mut i: usize = 0;
    while i < kinds.len()
        invariant
            i <= kinds@.len(),
            copy@ == kinds@.take(i as int),
        decreases kinds@.len() - i,
    {
        copy.push(kinds[i]);
        i = i + 1;
        assert(copy@ =~= kinds@.take(i as int));
    }
    assert(kinds@.take(i as int) =~= kinds@);
    copy
}

impl ChunkVoxels {
    #[verifier::type_invariant]
    spec fn well_formed(self) -> bool {
        &&& self.size > 0
        &&& self.height >= 0
        &&& self.cells@.len() == self.size * self.size * self.height
        &&& self.halo@.len() == 4 * self.size * self.height
    }

    /// Width of the chunk along x and z.
    pub closed spec fn spec_size(&self) -> int {
        self.size as int
    }

    /// Number of voxel layers along y.
    pub closed spec fn spec_height(&self) -> int {
        self.height as int
    }

    /// The cells in linear order (see [`cell_linear`]).
    pub closed spec fn cells(&self) -> Seq<VoxelKind> {
        self.cells@
    }

    /// The halo samples in linear order (see [`halo_linear`]).
    pub closed spec fn halo(&self) -> Seq<VoxelKind> {
        self.halo@
    }

    /// Pending rebuild bits ([`MESH_CHANGED`], [`COLLIDER_CHANGED`]).
    pub closed spec fn spec_changes(&self) -> u8 {
        self.changes
    }

    /// Whether any cell was ever edited after generation.
    pub closed spec fn spec_modified(&self) -> bool {
        self.modified
    }

    pub open spec fn in_bounds(&self, p: IVec3) -> bool {
        &&& 0 <= p.x < self.spec_size()
        &&& 0 <= p.y < self.spec_height()
        &&& 0 <= p.z < self.spec_size()
    }

    /// The kind stored at an in-bounds position.
    pub open spec fn voxel(&self, p: IVec3) -> Option<VoxelKind> {
        if self.in_bounds(p) {
            Some(self.cells()[cell_linear(self.spec_size(), p)])
        } else {
            None
        }
    }

    /// The neighbour sample stored for a position just outside a vertical side.
    pub open spec fn halo_voxel(&self, p: IVec3) -> Option<VoxelKind> {
        match halo_side(self.spec_size(), self.spec_height(), p) {
            Some((side, offset)) => Some(
                self.halo()[halo_linear(self.spec_size(), side, offset, p.y as int)],
            ),
            None => None,
        }
    }

    /// What the mesher sees at a position: the cell, else the halo sample, else air.
    pub open spec fn sampled(&self, p: IVec3) -> VoxelKind {
        match self.voxel(p) {
            Some(kind) => kind,
            None => match self.halo_voxel(p) {
                Some(kind) => kind,
                None => VoxelKind::Air,
            },
        }
    }

    /// Wraps freshly generated cells and halo; both rebuild bits start set.
    pub fn generated(size: i32, height: i32, cells: Vec<VoxelKind>, halo: Vec<VoxelKind>) -> (chunk:
        Self)
        requires
            size > 0,
            height >= 0,
            cells@.len() == size * size * height,
            halo@.len() == 4 * size * height,
        ensures
            chunk.spec_size() == size,
            chunk.spec_height() == height,
            chunk.cells() == cells@,
            chunk.halo() == halo@,
            chunk.spec_changes() == MESH_CHANGED | COLLIDER_CHANGED,
            !chunk.spec_modified(),
    {
        ChunkVoxels {
            size,
            height,
            cells,
            halo,
            changes: MESH_CHANGED | COLLIDER_CHANGED,
            modified: false,
        }
    }

    /// A freshly generated chunk built from column surface heights: `columns`
    /// holds the height of the column at `(x, z)` under index `x + size * z`,
    /// `halo_columns` that of the column just outside side `side` at `offset`
    /// under index `offset + size * side`. Every layer below a column's height
    /// gets its [`column_kind`], the rest is air.
    pub fn from_heights(size: i32, height: i32, columns: &Vec<i32>, halo_columns: &Vec<i32>) -> (chunk: Self)
        requires
            size > 0,
            height >= 0,
            size * size * height <= usize::MAX,
            4 * size * height <= usize::MAX,
            columns@.len() == size * size,
            halo_columns@.len() == 4 * size,
        ensures
            chunk.spec_size() == size,
            chunk.spec_height() == height,
            chunk.spec_changes() == MESH_CHANGED | COLLIDER_CHANGED,
            !chunk.spec_modified(),
            forall|p: IVec3|
                chunk.in_bounds(p) ==> #[trigger] chunk.voxel(p) == Some(
                    column_kind(p.y as int, columns@[p.x + size * p.z] as int),
                ),
            forall|p: IVec3|
                #[trigger] chunk.halo_voxel(p) == match halo_side(size as int, height as int, p) {
                    Some((side, offset)) => Some(
                        column_kind(p.y as int, halo_columns@[offset + size * side] as int),
                    ),
                    None => None,
                },
    {
        let area = columns.len();
        assert(size * size > 0) by (nonlinear_arith)
            requires
                size > 0,
        ;
        assert(area * height <= usize::MAX) by (nonlinear_arith)
            requires
                area == size * size,
                size * size * height <= usize::MAX,
        ;
        let cell_count = area * (height as usize);
        let mut cells: Vec<VoxelKind> = Vec::new();
        let mut i: usize = 0;
        while i < cell_count
            invariant
                0 <= i <= cell_count,
                area == size * size,
                area > 0,
                cell_count == area * height,
                columns@.len() == area,
                cells@.len() == i,
                forall|j: int|
                    0 <= j < i ==> #[trigger] cells@[j] == column_kind(j / (area as int), columns@[j % (area as int)] as int),
            decreases cell_count - i,
        {
            proof {
                lemma_layer_below(i as int, area as int, height as int);
            }
            let y = i / area;
            let h = columns[i % area];
            let kind = if (y as i32) < h {
                VoxelKind::terrain_at(y as i32, h)
            } else {
                VoxelKind::Air
            };
            cells.push(kind);
            i = i + 1;
        }
        let ring = halo_columns.len();
        assert(ring * height <= usize::MAX) by (nonlinear_arith)
            requires
                ring == 4 * size,
                4 * size * height <= usize::MAX,
        ;
        let halo_count = ring * (height as usize);
        let mut halo: Vec<VoxelKind> = Vec::new();
        let mut i: usize = 0;
        while i < halo_count
            invariant
                0 <= i <= halo_count,
                ring == 4 * size,
                ring > 0,
                halo_count == ring * height,
                halo_columns@.len() == ring,
                halo@.len() == i,
                forall|j: int|
                    0 <= j < i ==> #[trigger] halo@[j] == column_kind(j / (ring as int), halo_columns@[j % (ring as int)] as int),
            decreases halo_count - i,
        {
            proof {
                lemma_layer_below(i as int, ring as int, height as int);
            }
            let y = i / ring;
            let h = halo_columns[i % ring];
            let kind = if (y as i32) < h {
                VoxelKind::terrain_at(y as i32, h)
            } else {
                VoxelKind::Air
            };
            halo.push(kind);
            i = i + 1;
        }
        proof {
            assert(cell_count == size * size * height) by (nonlinear_arith)
                requires
                    cell_count == area * height,
                    area == size * size,
            ;
            assert(halo_count == 4 * size * height) by (nonlinear_arith)
                requires
                    halo_count == ring * height,
                    ring == 4 * size,
            ;
        }
        let chunk = ChunkVoxels::generated(size, height, cells, halo);
        proof {
            let s = size as int;
            assert forall|p: IVec3| chunk.in_bounds(p) implies #[trigger] chunk.voxel(p) == Some(
                column_kind(p.y as int, columns@[p.x + size * p.z] as int),
            ) by {
                lemma_cell_linear_bounds(s, height as int, p);
                let c = p.x + s * p.z;
                let (x, y, z) = (p.x as int, p.y as int, p.z as int);
                assert(x + s * (z + s * y) == y * (s * s) + (x + s * z)) by (nonlinear_arith);
                assert(0 <= c < s * s) by (nonlinear_arith)
                    requires
                        0 <= p.x < s,
                        0 <= p.z < s,
                        c == p.x + s * p.z,
                ;
                vstd::arithmetic::div_mod::lemma_fundamental_div_mod_converse(
                    cell_linear(s, p),
                    s * s,
                    p.y as int,
                    c,
                );
            }
            assert forall|p: IVec3| #[trigger] chunk.halo_voxel(p) == match halo_side(size as int, height as int, p) {
                Some((side, offset)) => Some(
                    column_kind(p.y as int, halo_columns@[offset + size * side] as int),
                ),
                None => None,
            } by {
                match halo_side(s, height as int, p) {
                    Some((side, offset)) => {
                        lemma_halo_linear_bounds(s, height as int, side, offset, p.y as int);
                        let c = offset + s * side;
                        let y = p.y as int;
                        assert(offset + s * (side + 4 * y) == y * (4 * s) + (offset + s * side)) by (nonlinear_arith);
                        assert(0 <= c < 4 * s) by (nonlinear_arith)
                            requires
                                0 <= offset < s,
                                0 <= side < 4,
                                c == offset + s * side,
                        ;
                        vstd::arithmetic::div_mod::lemma_fundamental_div_mod_converse(
                            halo_linear(s, side, offset, p.y as int),
                            4 * s,
                            p.y as int,
                            c,
                        );
                    },
                    None => {},
                }
            }
        }
        chunk
    }

    /// Width of the chunk; the getter also reports the storage invariant.
    pub fn size(&self) -> (size: i32)
        ensures
            size == self.spec_size(),
            size > 0,
            self.spec_height() >= 0,
            self.cells().len() == self.spec_size() * self.spec_size() * self.spec_height(),
            self.halo().len() == 4 * self.spec_size() * self.spec_height(),
    {
        proof {
            use_type_invariant(self);
        }
        self.size
    }

    pub fn height(&self) -> (height: i32)
        ensures
            height == self.spec_height(),
            height >= 0,
    {
        proof {
            use_type_invariant(self);
        }
        self.height
    }

    pub fn changes(&self) -> (changes: u8)
        ensures
            changes == self.spec_changes(),
    {
        self.changes
    }

    pub fn modified(&self) -> (modified: bool)
        ensures
            modified == self.spec_modified(),
    {
        self.modified
    }

    /// Clears the rebuild bits and returns what they were.
    pub fn take_changes(&mut self) -> (changes: u8)
        ensures
            changes == old(self).spec_changes(),
            final(self).spec_changes() == 0,
            final(self).cells() == old(self).cells(),
            final(self).halo() == old(self).halo(),
            final(self).spec_size() == old(self).spec_size(),
            final(self).spec_height() == old(self).spec_height(),
            final(self).spec_modified() == old(self).spec_modified(),
    {
        proof {
            use_type_invariant(&*self);
        }
        let changes = self.changes;
        self.changes = 0;
        changes
    }

    /// Sets both rebuild bits, as a freshly spawned chunk needs.
    pub fn mark_all_changed(&mut self)
        ensures
            final(self).spec_changes() == MESH_CHANGED | COLLIDER_CHANGED,
            final(self).cells() == old(self).cells(),
            final(self).halo() == old(self).halo(),
            final(self).spec_size() == old(self).spec_size(),
            final(self).spec_height() == old(self).spec_height(),
            final(self).spec_modified() == old(self).spec_modified(),
    {
        proof {
            use_type_invariant(&*self);
        }
        self.changes = MESH_CHANGED | COLLIDER_CHANGED;
    }

    fn index(&self, local: IVec3) -> (index: Option<usize>)
        ensures
            match index {
                Some(i) => self.in_bounds(local) && i == cell_linear(self.spec_size(), local) && i
                    < self.cells().len(),
                None => !self.in_bounds(local),
            },
    {
        proof {
            use_type_invariant(self);
        }
        if local.x < 0 || local.x >= self.size || local.y < 0 || local.y >= self.height || local.z
            < 0 || local.z >= self.size {
            return None;
        }
        let n = self.cells.len();
        proof {
            lemma_cell_linear_bounds(self.size as int, self.height as int, local);
        }
        let size = self.size as usize;
        let i = local.x as usize + size * (local.z as usize + size * local.y as usize);
        Some(i)
    }

    fn halo_index(&self, local: IVec3) -> (index: Option<usize>)
        ensures
            match index {
                Some(i) => match halo_side(self.spec_size(), self.spec_height(), local) {
                    Some((side, offset)) => i == halo_linear(
                        self.spec_size(),
                        side,
                        offset,
                        local.y as int,
                    ) && i < self.halo().len(),
                    None => false,
                },
                None => halo_side(self.spec_size(), self.spec_height(), local) is None,
            },
    {
        proof {
            use_type_invariant(self);
        }
        if local.y < 0 || local.y >= self.height {
            return None;
        }
        let side: usize;
        let offset: i32;
        if local.x == -1 && 0 <= local.z && local.z < self.size {
            side = 0;
            offset = local.z;
        } else if local.x == self.size && 0 <= local.z && local.z < self.size {
            side = 1;
            offset = local.z;
        } else if local.z == -1 && 0 <= local.x && local.x < self.size {
            side = 2;
            offset = local.x;
        } else if local.z == self.size && 0 <= local.x && local.x < self.size {
            side = 3;
            offset = local.x;
        } else {
            return None;
        }
        let n = self.halo.len();
        proof {
            lemma_halo_linear_bounds(
                self.size as int,
                self.height as int,
                side as int,
                offset as int,
                local.y as int,
            );
        }
        let size = self.size as usize;
        Some(offset as usize + size * (side + 4 * local.y as usize))
    }

    /// The kind at an in-bounds local position, `None` outside the chunk.
    pub fn get(&self, local: IVec3) -> (kind: Option<VoxelKind>)
        ensures
            kind == self.voxel(local),
    {
        match self.index(local) {
            Some(i) => Some(self.cells[i]),
            None => None,
        }
    }

    fn halo_kind(&self, local: IVec3) -> (kind: Option<VoxelKind>)
        ensures
            kind == self.halo_voxel(local),
    {
        match self.halo_index(local) {
            Some(i) => Some(self.halo[i]),
            None => None,
        }
    }

    /// The cell kind, else the halo sample, else air.
    pub fn sample(&self, local: IVec3) -> (kind: VoxelKind)
        ensures
            kind == self.sampled(local),
    {
        match self.get(local) {
            Some(kind) => kind,
            None => match self.halo_kind(local) {
                Some(kind) => kind,
                None => VoxelKind::Air,
            },
        }
    }

    /// Changes one cell. Out-of-bounds positions and identical values return `false`.
    pub fn set(&mut self, local: IVec3, kind: VoxelKind) -> (changed: bool)
        ensures
            changed == (old(self).voxel(local) matches Some(prev) && prev != kind),
            final(self).spec_size() == old(self).spec_size(),
            final(self).spec_height() == old(self).spec_height(),
            final(self).halo() == old(self).halo(),
            changed ==> final(self).cells() == old(self).cells().update(
                cell_linear(old(self).spec_size(), local),
                kind,
            ),
            changed ==> final(self).spec_modified(),
            old(self).in_bounds(local) ==> final(self).voxel(local) == Some(kind),
            forall|q: IVec3| q != local ==> #[trigger] final(self).voxel(q) == old(self).voxel(q),
            changed ==> final(self).spec_changes() == (if old(self).voxel(local).unwrap().spec_is_solid()
                != kind.spec_is_solid() {
                (old(self).spec_changes() | MESH_CHANGED) | COLLIDER_CHANGED
            } else {
                old(self).spec_changes() | MESH_CHANGED
            }),
            !changed ==> *final(self) == *old(self),
    {
        proof {
            use_type_invariant(&*self);
        }
        let index = match self.index(local) {
            Some(i) => i,
            None => return false,
        };
        proof {
            assert forall|q: IVec3| q != local && self.in_bounds(q) implies cell_linear(
                self.spec_size(),
                q,
            ) != index by {
                lemma_cell_linear_injective(self.spec_size(), self.spec_height(), q, local);
                lemma_cell_linear_bounds(self.spec_size(), self.spec_height(), q);
            }
        }
        let previous = self.cells[index];
        if previous == kind {
            return false;
        }
        self.cells[index] = kind;
        self.changes = self.changes | MESH_CHANGED;
        if previous.is_solid() != kind.is_solid() {
            self.changes = self.changes | COLLIDER_CHANGED;
        }
        self.modified = true;
        proof {
            assert forall|q: IVec3| q != local implies #[trigger] self.voxel(q) == old(self).voxel(q) by {
                if old(self).in_bounds(q) {
                    lemma_cell_linear_injective(self.spec_size(), self.spec_height(), q, local);
                    lemma_cell_linear_bounds(self.spec_size(), self.spec_height(), q);
                }
            }
        }
        true
    }

    /// Updates a non-owning neighbour sample used only by the mesher.
    pub fn set_halo(&mut self, local: IVec3, kind: VoxelKind) -> (changed: bool)
        ensures
            changed == (old(self).halo_voxel(local) matches Some(prev) && prev != kind),
            final(self).spec_size() == old(self).spec_size(),
            final(self).spec_height() == old(self).spec_height(),
            final(self).cells() == old(self).cells(),
            final(self).spec_modified() == old(self).spec_modified(),
            changed ==> final(self).halo() == old(self).halo().update(
                halo_linear(
                    old(self).spec_size(),
                    halo_side(old(self).spec_size(), old(self).spec_height(), local).unwrap().0,
                    halo_side(old(self).spec_size(), old(self).spec_height(), local).unwrap().1,
                    local.y as int,
                ),
                kind,
            ),
            changed ==> final(self).spec_changes() == old(self).spec_changes() | MESH_CHANGED,
            !changed ==> *final(self) == *old(self),
            changed == (final(self).halo() != old(self).halo()),
            old(self).halo_voxel(local) is Some ==> final(self).halo_voxel(local) == Some(kind),
            forall|q: IVec3| q != local ==> #[trigger] final(self).halo_voxel(q) == old(self).halo_voxel(q),
    {
        proof {
            use_type_invariant(&*self);
        }
        let index = match self.halo_index(local) {
            Some(i) => i,
            None => return false,
        };
        if self.halo[index] == kind {
            return false;
        }
        self.halo[index] = kind;
        self.changes = self.changes | MESH_CHANGED;
        proof {
            let size = self.spec_size();
            let height = self.spec_height();
            assert(self.halo() == old(self).halo().update(index as int, kind));
            assert forall|q: IVec3| q != local implies #[trigger] self.halo_voxel(q) == old(self).halo_voxel(q) by {
                if halo_side(size, height, q) is Some {
                    lemma_halo_position_injective(size, height, q, local);
                    let (sq, oq) = halo_side(size, height, q).unwrap();
                    lemma_halo_linear_bounds(size, height, sq, oq, q.y as int);
                    assert(self.halo()[halo_linear(size, sq, oq, q.y as int)] == old(self).halo()[halo_linear(size, sq, oq, q.y as int)]);
                }
            }
        }
        true
    }

    /// Copies one complete border of an adjacent chunk into this chunk's halo.
    /// `direction` points from this chunk towards the neighbour.
    pub fn sync_halo(&mut self, direction: IVec2, neighbor: &ChunkVoxels) -> (changed: bool)
        requires
            is_cardinal(direction),
            old(self).spec_size() <= neighbor.spec_size(),
            old(self).spec_height() <= neighbor.spec_height(),
        ensures
            final(self).spec_size() == old(self).spec_size(),
            final(self).spec_height() == old(self).spec_height(),
            final(self).cells() == old(self).cells(),
            final(self).spec_modified() == old(self).spec_modified(),
            final(self).halo().len() == old(self).halo().len(),
            forall|y: int, offset: int|
                0 <= y < old(self).spec_height() && 0 <= offset < old(self).spec_size() ==> (
                #[trigger] final(self).halo()[halo_linear(
                    old(self).spec_size(),
                    direction_side(direction),
                    offset,
                    y,
                )]) == neighbor.voxel(
                    mirrored_cell(old(self).spec_size(), direction_side(direction), offset, y),
                ).unwrap(),
            forall|i: int|
                0 <= i < old(self).halo().len() && (i / old(self).spec_size()) % 4
                    != direction_side(direction) ==> #[trigger] final(self).halo()[i] == old(self).halo()[i],
            changed == (final(self).halo() != old(self).halo()),
            changed == exists|y: int, offset: int|
                0 <= y < old(self).spec_height() && 0 <= offset < old(self).spec_size() && (
                #[trigger] old(self).halo()[halo_linear(
                    old(self).spec_size(),
                    direction_side(direction),
                    offset,
                    y,
                )]) != neighbor.voxel(
                    mirrored_cell(old(self).spec_size(), direction_side(direction), offset, y),
                ).unwrap(),
            final(self).spec_changes() == if changed {
                old(self).spec_changes() | MESH_CHANGED
            } else {
                old(self).spec_changes()
            },
            forall|p: IVec3|
                #[trigger] final(self).halo_voxel(p) == match halo_side(
                    old(self).spec_size(),
                    old(self).spec_height(),
                    p,
                ) {
                    Some((side, offset)) => if side == direction_side(direction) {
                        neighbor.voxel(mirrored_cell(old(self).spec_size(), side, offset, p.y as int))
                    } else {
                        old(self).halo_voxel(p)
                    },
                    None => None,
                },
    {
        let size = self.size();
        let height = self.height();
        let nsize = neighbor.size();
        let ghost s = direction_side(direction);
        let ghost old_halo = self.halo@;
        let ghost old_changes = self.changes;
        let side: i32 = if direction.x == -1 {
            0
        } else if direction.x == 1 {
            1
        } else if direction.y == -1 {
            2
        } else {
            3
        };
        assert(side == s);
        let mut changed = false;
        let mut y: i32 = 0;
        while y < height
            invariant
                0 <= y <= height,
                height == self.spec_height(),
                size == self.spec_size(),
                0 < size,
                side == s,
                0 <= s < 4,
                size <= neighbor.spec_size(),
                height <= neighbor.spec_height(),
                self.halo().len() == old_halo.len(),
                old_halo.len() == 4 * size * height,
                self.cells() == old(self).cells(),
                self.spec_modified() == old(self).spec_modified(),
                self.spec_size() == old(self).spec_size(),
                self.spec_height() == old(self).spec_height(),
                old_halo == old(self).halo(),
                old_changes == old(self).spec_changes(),
                forall|yy: int, off: int|
                    0 <= yy < y && 0 <= off < size ==> (#[trigger] self.halo()[halo_linear(
                        size as int,
                        s,
                        off,
                        yy,
                    )]) == neighbor.voxel(mirrored_cell(size as int, s, off, yy)).unwrap(),
                forall|yy: int, off: int|
                    y <= yy < height && 0 <= off < size ==> (#[trigger] self.halo()[halo_linear(
                        size as int,
                        s,
                        off,
                        yy,
                    )]) == old_halo[halo_linear(size as int, s, off, yy)],
                forall|i: int|
                    0 <= i < old_halo.len() && (i / (size as int)) % 4 != s ==> #[trigger] self.halo()[i]
                        == old_halo[i],
                changed == exists|yy: int, off: int|
                    0 <= yy < y && 0 <= off < size && (#[trigger] old_halo[halo_linear(
                        size as int,
                        s,
                        off,
                        yy,
                    )]) != neighbor.voxel(mirrored_cell(size as int, s, off, yy)).unwrap(),
                self.spec_changes() == if changed {
                    old_changes | MESH_CHANGED
                } else {
                    old_changes
                },
            decreases height - y,
        {
            let mut offset: i32 = 0;
            while offset < size
                invariant
                    0 <= y < height,
                    0 <= offset <= size,
                    height == self.spec_height(),
                    size == self.spec_size(),
                    0 < size,
                    side == s,
                    0 <= s < 4,
                    size <= neighbor.spec_size(),
                    height <= neighbor.spec_height(),
                    self.halo().len() == old_halo.len(),
                    old_halo.len() == 4 * size * height,
                    self.cells() == old(self).cells(),
                    self.spec_modified() == old(self).spec_modified(),
                    self.spec_size() == old(self).spec_size(),
                    self.spec_height() == old(self).spec_height(),
                    old_halo == old(self).halo(),
                    old_changes == old(self).spec_changes(),
                    forall|yy: int, off: int|
                        (0 <= yy < y && 0 <= off < size) || (yy == y && 0 <= off < offset)
                            ==> (#[trigger] self.halo()[halo_linear(size as int, s, off, yy)])
                            == neighbor.voxel(mirrored_cell(size as int, s, off, yy)).unwrap(),
                    forall|yy: int, off: int|
                        ((y < yy < height && 0 <= off < size) || (yy == y && offset <= off < size))
                            ==> (#[trigger] self.halo()[halo_linear(size as int, s, off, yy)])
                            == old_halo[halo_linear(size as int, s, off, yy)],
                    forall|i: int|
                        0 <= i < old_halo.len() && (i / (size as int)) % 4 != s
                            ==> #[trigger] self.halo()[i] == old_halo[i],
                    changed == exists|yy: int, off: int|
                        ((0 <= yy < y && 0 <= off < size) || (yy == y && 0 <= off < offset)) && (
                        #[trigger] old_halo[halo_linear(size as int, s, off, yy)])
                            != neighbor.voxel(mirrored_cell(size as int, s, off, yy)).unwrap(),
                    self.spec_changes() == if changed {
                        old_changes | MESH_CHANGED
                    } else {
                        old_changes
                    },
                decreases size - offset,
            {
                let (halo_pos, cell_pos) = if side == 0 {
                    (IVec3 { x: -1, y, z: offset }, IVec3 { x: size - 1, y, z: offset })
                } else if side == 1 {
                    (IVec3 { x: size, y, z: offset }, IVec3 { x: 0, y, z: offset })
                } else if side == 2 {
                    (IVec3 { x: offset, y, z: -1 }, IVec3 { x: offset, y, z: size - 1 })
                } else {
                    (IVec3 { x: offset, y, z: size }, IVec3 { x: offset, y, z: 0 })
                };
                assert(cell_pos == mirrored_cell(size as int, s, offset as int, y as int));
                assert(halo_side(size as int, height as int, halo_pos) == Some(
                    (s, offset as int),
                ));
                let kind = match neighbor.get(cell_pos) {
                    Some(k) => k,
                    None => {
                        assert(false);
                        VoxelKind::Air
                    },
                };
                let ghost before = self.halo();
                let ghost before_changes = self.spec_changes();
                let ghost idx = halo_linear(size as int, s, offset as int, y as int);
                proof {
                    lemma_halo_linear_bounds(size as int, height as int, s, offset as int, y as int);
                }
                let did = self.set_halo(halo_pos, kind);
                proof {
                    assert forall|yy: int, off: int|
                        0 <= yy < height && 0 <= off < size && (yy != y || off != offset) implies (
                        #[trigger] halo_linear(size as int, s, off, yy)) != idx by {
                        lemma_halo_linear_bounds(size as int, height as int, s, off, yy);
                    }
                    assert forall|i: int|
                        0 <= i < old_halo.len() && (i / (size as int)) % 4 != s implies #[trigger] self.halo()[i]
                        == old_halo[i] by {
                        if i == idx {
                            assert(false);
                        }
                    }
                    if did {
                        assert((old_changes | MESH_CHANGED) | MESH_CHANGED == old_changes
                            | MESH_CHANGED) by (bit_vector);
                        assert(old_halo[idx] != neighbor.voxel(
                            mirrored_cell(size as int, s, offset as int, y as int),
                        ).unwrap());
                    } else {
                        assert(before[idx] == kind);
                    }
                    assert(self.halo()[idx] == kind);
                    assert forall|yy: int, off: int|
                        0 <= yy < height && 0 <= off < size && (yy != y || off != offset) implies
                        #[trigger] self.halo()[halo_linear(size as int, s, off, yy)] == before[halo_linear(size as int, s, off, yy)] by {
                        lemma_halo_linear_bounds(size as int, height as int, s, off, yy);
                    }
                }
                changed = changed || did;
                offset = offset + 1;
            }
            y = y + 1;
        }
        proof {
            assert forall|i: int|
                0 <= i < old_halo.len() && (i / (size as int)) % 4 != s implies #[trigger] self.halo()[i]
                == old_halo[i] by {}
            assert forall|p: IVec3|
                #[trigger] self.halo_voxel(p) == match halo_side(size as int, height as int, p) {
                    Some((side, offset)) => if side == s {
                        neighbor.voxel(mirrored_cell(size as int, side, offset, p.y as int))
                    } else {
                        old(self).halo_voxel(p)
                    },
                    None => None,
                } by {
                match halo_side(size as int, height as int, p) {
                    Some((side, offset)) => {
                        lemma_halo_linear_bounds(size as int, height as int, side, offset, p.y as int);
                        if side == s {
                            let m = mirrored_cell(size as int, side, offset, p.y as int);
                            assert(neighbor.in_bounds(m));
                        }
                    },
                    None => {},
                }
            }
        }
        proof {
            if changed {
                let (yy, off) = choose|yy: int, off: int|
                    0 <= yy < height && 0 <= off < size && (#[trigger] old_halo[halo_linear(
                        size as int,
                        s,
                        off,
                        yy,
                    )]) != neighbor.voxel(mirrored_cell(size as int, s, off, yy)).unwrap();
                assert(self.halo()[halo_linear(size as int, s, off, yy)] != old_halo[halo_linear(
                    size as int,
                    s,
                    off,
                    yy,
                )]);
            } else {
                assert forall|i: int| 0 <= i < old_halo.len() implies #[trigger] self.halo()[i]
                    == old_halo[i] by {
                    if (i / (size as int)) % 4 == s {
                        lemma_halo_linear_decompose(size as int, height as int, i);
                        let yy = i / (size as int) / 4;
                        let off = i % (size as int);
                        assert(self.halo()[halo_linear(size as int, s, off, yy)] == neighbor.voxel(
                            mirrored_cell(size as int, s, off, yy),
                        ).unwrap());
                    }
                }
                assert(self.halo() =~= old_halo);
            }
        }
        let _ = nsize;
        changed
    }

    /// Positions of all solid cells, in linear cell order.
    pub fn solid_positions(&self) -> (positions: Vec<IVec3>)
        ensures
            positions@ == solid_positions_upto(
                self.cells(),
                self.spec_size(),
                self.cells().len() as int,
            ),
    {
        let size_i = self.size();
        let height_i = self.height();
        let size = size_i as usize;
        let n = self.cells.len();
        let mut positions: Vec<IVec3> = Vec::new();
        let mut i: usize = 0;
        while i < n
            invariant
                0 <= i <= n,
                n == self.cells().len(),
                size == self.spec_size(),
                size > 0,
                height_i == self.spec_height(),
                height_i >= 0,
                n == size * size * height_i,
                positions@ == solid_positions_upto(self.cells(), size as int, i as int),
            decreases n - i,
        {
            proof {
                lemma_cell_position_bounds(size as int, height_i as int, i as int);
            }
            let layer = size * size;
            let p = IVec3 {
                x: (i % size) as i32,
                y: (i / layer) as i32,
                z: (i / size % size) as i32,
            };
            if self.cells[i].is_solid() {
                positions.push(p);
            }
            i = i + 1;
        }
        positions
    }
}

proof fn lemma_cell_position(size: int, height: int, i: int)
    requires
        0 < size <= i32::MAX,
        0 <= height <= i32::MAX,
        0 <= i < size * size * height,
    ensures
        0 <= cell_position(size, i).x < size,
        0 <= cell_position(size, i).z < size,
        0 <= cell_position(size, i).y < height,
        cell_linear(size, cell_position(size, i)) == i,
{
    lemma_cell_position_bounds(size, height, i);
    let x = i % size;
    let k = i / size;
    vstd::arithmetic::div_mod::lemma_fundamental_div_mod(i, size);
    vstd::arithmetic::div_mod::lemma_div_pos_is_pos(i, size);
    let z = k % size;
    let y = k / size;
    vstd::arithmetic::div_mod::lemma_fundamental_div_mod(k, size);
    vstd::arithmetic::div_mod::lemma_div_pos_is_pos(k, size);
    vstd::arithmetic::div_mod::lemma_mod_pos_bound(i, size);
    vstd::arithmetic::div_mod::lemma_mod_pos_bound(k, size);
    assert(i == x + size * (z + size * y)) by (nonlinear_arith)
        requires
            i == size * k + x,
            k == size * y + z,
    ;
    assert(0 <= x + size * z < size * size) by (nonlinear_arith)
        requires
            0 <= x < size,
            0 <= z < size,
    ;
    assert(i == y * (size * size) + (x + size * z)) by (nonlinear_arith)
        requires
            i == x + size * (z + size * y),
    ;
    vstd::arithmetic::div_mod::lemma_fundamental_div_mod_converse(i, size * size, y, x + size * z);
    assert(i / (size * size) == y);
}

proof fn lemma_solid_positions_upto(cells: Seq<VoxelKind>, size: int, height: int, n: int)
    requires
        0 < size <= i32::MAX,
        0 <= height <= i32::MAX,
        cells.len() == size * size * height,
        0 <= n <= cells.len(),
    ensures
        forall|k: int|
            0 <= k < solid_positions_upto(cells, size, n).len() ==> {
                let p = #[trigger] solid_positions_upto(cells, size, n)[k];
                &&& 0 <= p.x < size && 0 <= p.z < size && 0 <= p.y < height
                &&& 0 <= cell_linear(size, p) < n
                &&& cells[cell_linear(size, p)].spec_is_solid()
            },
        forall|i: int|
            0 <= i < n && (#[trigger] cells[i]).spec_is_solid() ==> solid_positions_upto(
                cells,
                size,
                n,
            ).contains(cell_position(size, i)),
    decreases n,
{
    if n > 0 {
        lemma_solid_positions_upto(cells, size, height, n - 1);
        lemma_cell_position(size, height, n - 1);
        let previous = solid_positions_upto(cells, size, n - 1);
        let current = solid_positions_upto(cells, size, n);
        assert forall|i: int|
            0 <= i < n && (#[trigger] cells[i]).spec_is_solid() implies current.contains(
            cell_position(size, i),
        ) by {
            if i < n - 1 {
                let k = choose|k: int| 0 <= k < previous.len() && previous[k] == cell_position(size, i);
                assert(current[k] == previous[k]);
            } else {
                assert(current[current.len() - 1] == cell_position(size, i));
            }
        }
    }
}

/// The solid positions of a chunk are exactly its in-bounds positions whose
/// voxel is solid.
pub proof fn lemma_solid_positions_exact(chunk: &ChunkVoxels)
    requires
        0 < chunk.spec_size() <= i32::MAX,
        0 <= chunk.spec_height() <= i32::MAX,
        chunk.cells().len() == chunk.spec_size() * chunk.spec_size() * chunk.spec_height(),
    ensures
        ({
            let positions = solid_positions_upto(
                chunk.cells(),
                chunk.spec_size(),
                chunk.cells().len() as int,
            );
            &&& forall|k: int|
                0 <= k < positions.len() ==> chunk.in_bounds(#[trigger] positions[k])
                    && chunk.voxel(positions[k]).unwrap().spec_is_solid()
            &&& forall|p: IVec3|
                chunk.in_bounds(p) && chunk.voxel(p).unwrap().spec_is_solid()
                    ==> #[trigger] positions.contains(p)
        }),
{
    let size = chunk.spec_size();
    let height = chunk.spec_height();
    let cells = chunk.cells();
    lemma_solid_positions_upto(cells, size, height, cells.len() as int);
    let positions = solid_positions_upto(cells, size, cells.len() as int);
    assert forall|p: IVec3|
        chunk.in_bounds(p) && chunk.voxel(p).unwrap().spec_is_solid() implies #[trigger] positions.contains(p) by {
        lemma_cell_linear_bounds(size, height, p);
        let i = cell_linear(size, p);
        lemma_cell_position(size, height, i);
        let q = cell_position(size, i);
        if q != p {
            lemma_cell_linear_injective(size, height, q, p);
        }
        assert(cells[i].spec_is_solid());
    }
}

/// The collider cells of a chunk are exactly its in-bounds cells whose voxel
/// hides what lies behind it and is not leaves: grass, dirt, stone, sand, snow
/// and wood collide; air, water and leaves do not.
pub proof fn lemma_solid_positions_kinds(chunk: &ChunkVoxels, p: IVec3)
    requires
        0 < chunk.spec_size() <= i32::MAX,
        0 <= chunk.spec_height() <= i32::MAX,
        chunk.cells().len() == chunk.spec_size() * chunk.spec_size() * chunk.spec_height(),
    ensures
        solid_positions_upto(chunk.cells(), chunk.spec_size(), chunk.cells().len() as int).contains(p)
            <==> (chunk.in_bounds(p) && chunk.voxel(p).unwrap().spec_is_opaque() && chunk.voxel(
            p,
        ).unwrap() != VoxelKind::Leaves),
{
    lemma_solid_positions_exact(chunk);
    lemma_voxel_classes(chunk.voxel(p).unwrap());
    let positions = solid_positions_upto(chunk.cells(), chunk.spec_size(), chunk.cells().len() as int);
    if positions.contains(p) {
        let k = choose|k: int| 0 <= k < positions.len() && positions[k] == p;
        assert(chunk.in_bounds(positions[k]));
    }
}

proof fn lemma_cell_position_bounds(size: int, height: int, i: int)
    requires
        size > 0,
        height >= 0,
        0 <= i < size * size * height,
    ensures
        size * size <= size * size * height,
        0 <= i / (size * size) < height,
        0 <= i % size < size,
        0 <= (i / size) % size < size,
{
    assert(size * size > 0) by (nonlinear_arith)
        requires
            size > 0,
    ;
    assert(height >= 1) by (nonlinear_arith)
        requires
            size * size > 0,
            0 <= i < size * size * height,
    ;
    assert(size * size <= size * size * height) by (nonlinear_arith)
        requires
            size * size > 0,
            height >= 1,
    ;
    assert((size * size) * height == size * size * height) by (nonlinear_arith);
    vstd::arithmetic::div_mod::lemma_div_pos_is_pos(i, size * size);
    let m = size * size;
    let q = i / m;
    let r = i % m;
    vstd::arithmetic::div_mod::lemma_fundamental_div_mod(i, m);
    vstd::arithmetic::div_mod::lemma_mod_pos_bound(i, m);
    assert(q < height) by (nonlinear_arith)
        requires
            i == m * q + r,
            0 <= r,
            m > 0,
            i < m * height,
    ;
}

} // verus!
