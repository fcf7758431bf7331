use vstd::prelude::*;

use crate::math::IVec3;
use crate::voxel::data::{ChunkVoxels, VoxelKind};

verus! {

/// A visible face: the kind of the voxel it belongs to and whether it faces
/// the positive direction of its axis.
#[derive(Clone, Copy, Debug, PartialEq, Eq, Structural)]
pub struct Face {
    pub kind: VoxelKind,
    pub positive: bool,
}

/// A rectangle of equal mask cells: its corner cell, its extent, and the face.
#[derive(Clone, Copy, Debug, PartialEq, Eq, Structural)]
pub struct MaskQuad {
    pub x: usize,
    pub y: usize,
    pub width: usize,
    pub height: usize,
    pub face: Face,
}

/// The mask cell at column `cx`, row `cy` of a mask `w` columns wide.
pub open spec fn cell(mask: Seq<Option<Face>>, w: int, cx: int, cy: int) -> Option<Face> {
    mask[cx + cy * w]
}

pub open spec fn in_quad(q: MaskQuad, cx: int, cy: int) -> bool {
    &&& q.x <= cx < q.x + q.width
    &&& q.y <= cy < q.y + q.height
}

/// Whether one of the first `n` quads covers the cell.
pub open spec fn covered_by(quads: Seq<MaskQuad>, n: int, cx: int, cy: int) -> bool {
    exists|k: int| 0 <= k < n && #[trigger] in_quad(quads[k], cx, cy)
}

/// A cell that held `face` in the initial mask and that none of the first `n`
/// quads covers.
pub open spec fn open_cell(
    mask: Seq<Option<Face>>,
    quads: Seq<MaskQuad>,
    n: int,
    w: int,
    cx: int,
    cy: int,
    face: Face,
) -> bool {
    cell(mask, w, cx, cy) == Some(face) && !covered_by(quads, n, cx, cy)
}

/// Column `o` of the row just below quad `q` does not extend it: that cell is
/// not an open cell with the quad's face once the first `k` quads are taken out.
pub open spec fn blocks_growth(
    mask: Seq<Option<Face>>,
    quads: Seq<MaskQuad>,
    k: int,
    w: int,
    q: MaskQuad,
    o: int,
) -> bool {
    !open_cell(mask, quads, k, w, q.x + o, q.y + q.height, q.face)
}

/// Column `o` of the row just below quad `q` does not hold the quad's face.
spec fn differs_below(cur: Seq<Option<Face>>, w: int, q: MaskQuad, o: int) -> bool {
    cell(cur, w, q.x + o, q.y + q.height) != Some(q.face)
}

/// Row-major order of cells.
pub open spec fn row_major_before(ax: int, ay: int, bx: int, by: int) -> bool {
    ay < by || (ay == by && ax < bx)
}

/// The per-quad half of [`greedy_decomposition`]: every quad lies inside the
/// mask, covers only cells that held its face and that no earlier quad covers,
/// starts at the first (row-major) cell that still holds a face, is as wide as
/// its row allows, and then as tall as its full width allows.
pub open spec fn greedy_quads(mask: Seq<Option<Face>>, w: int, h: int, quads: Seq<MaskQuad>) -> bool {
    &&& forall|k: int|
        0 <= k < quads.len() ==> {
            let q = #[trigger] quads[k];
            &&& 1 <= q.width && q.x + q.width <= w
            &&& 1 <= q.height && q.y + q.height <= h
        }
    &&& forall|k: int, cx: int, cy: int|
        0 <= k < quads.len() && #[trigger] in_quad(quads[k], cx, cy) ==> open_cell(
            mask,
            quads,
            k,
            w,
            cx,
            cy,
            quads[k].face,
        )
    &&& forall|k: int, cx: int, cy: int|
        #![trigger quads[k], cell(mask, w, cx, cy)]
        0 <= k < quads.len() && 0 <= cx < w && 0 <= cy < h && row_major_before(
            cx,
            cy,
            quads[k].x as int,
            quads[k].y as int,
        ) ==> !(cell(mask, w, cx, cy) is Some && !covered_by(quads, k, cx, cy))
    &&& forall|k: int|
        0 <= k < quads.len() ==> {
            let q = #[trigger] quads[k];
            q.x + q.width == w || !open_cell(
                mask,
                quads,
                k,
                w,
                q.x + q.width,
                q.y as int,
                q.face,
            )
        }
    &&& forall|k: int|
        0 <= k < quads.len() ==> {
            let q = #[trigger] quads[k];
            q.y + q.height == h || exists|o: int|
                0 <= o < q.width && #[trigger] blocks_growth(mask, quads, k, w, q, o)
        }
}

/// The greedy decomposition of a `w` x `h` mask into `quads` (see
/// [`greedy_quads`]), which together cover every occupied cell.
pub open spec fn greedy_decomposition(
    mask: Seq<Option<Face>>,
    w: int,
    h: int,
    quads: Seq<MaskQuad>,
) -> bool {
    &&& greedy_quads(mask, w, h, quads)
    &&& forall|cx: int, cy: int|
        0 <= cx < w && 0 <= cy < h && (#[trigger] cell(mask, w, cx, cy)) is Some ==> covered_by(
            quads,
            quads.len() as int,
            cx,
            cy,
        )
}

/// The working mask equals the initial one with the first `n` quads cleared.
spec fn mask_tracks(
    cur: Seq<Option<Face>>,
    mask: Seq<Option<Face>>,
    quads: Seq<MaskQuad>,
    n: int,
    w: int,
    h: int,
) -> bool {
    &&& cur.len() == mask.len()
    &&& forall|cx: int, cy: int|
        0 <= cx < w && 0 <= cy < h ==> #[trigger] cell(cur, w, cx, cy) == if covered_by(
            quads,
            n,
            cx,
            cy,
        ) {
            None
        } else {
            cell(mask, w, cx, cy)
        }
    &&& forall|i: int| w * h <= i < mask.len() ==> cur[i] == mask[i]
}

proof fn lemma_covered_push(quads: Seq<MaskQuad>, q: MaskQuad, k: int, cx: int, cy: int)
    requires
        0 <= k <= quads.len(),
    ensures
        covered_by(quads.push(q), k, cx, cy) == covered_by(quads, k, cx, cy),
        covered_by(quads.push(q), quads.len() as int + 1, cx, cy) == (covered_by(
            quads,
            quads.len() as int,
            cx,
            cy,
        ) || in_quad(q, cx, cy)),
{
    let pushed = quads.push(q);
    if covered_by(quads, k, cx, cy) {
        let j = choose|j: int| 0 <= j < k && #[trigger] in_quad(quads[j], cx, cy);
        assert(pushed[j] == quads[j]);
    }
    if covered_by(pushed, k, cx, cy) {
        let j = choose|j: int| 0 <= j < k && #[trigger] in_quad(pushed[j], cx, cy);
        assert(pushed[j] == quads[j]);
    }
    if covered_by(quads, quads.len() as int, cx, cy) {
        let j = choose|j: int| 0 <= j < quads.len() && #[trigger] in_quad(quads[j], cx, cy);
        assert(pushed[j] == quads[j]);
    }
    if in_quad(q, cx, cy) {
        assert(in_quad(pushed[quads.len() as int], cx, cy));
    }
    if covered_by(pushed, quads.len() as int + 1, cx, cy) {
        let j = choose|j: int| 0 <= j < quads.len() + 1 && #[trigger] in_quad(pushed[j], cx, cy);
        if j < quads.len() {
            assert(pushed[j] == quads[j]);
        }
    }
}

proof fn lemma_push_quad(
    mask: Seq<Option<Face>>,
    w: int,
    h: int,
    quads: Seq<MaskQuad>,
    cur: Seq<Option<Face>>,
    q: MaskQuad,
)
    requires
        greedy_quads(mask, w, h, quads),
        mask_tracks(cur, mask, quads, quads.len() as int, w, h),
        1 <= q.width,
        q.x + q.width <= w,
        1 <= q.height,
        q.y + q.height <= h,
        forall|cx: int, cy: int| #[trigger] in_quad(q, cx, cy) ==> cell(cur, w, cx, cy) == Some(q.face),
        forall|cx: int, cy: int|
            0 <= cx < w && 0 <= cy < h && row_major_before(cx, cy, q.x as int, q.y as int)
                ==> (#[trigger] cell(cur, w, cx, cy)) is None,
        q.x + q.width == w || cell(cur, w, q.x + q.width, q.y as int) != Some(q.face),
        q.y + q.height == h || exists|o: int| 0 <= o < q.width && #[trigger] differs_below(cur, w, q, o),
    ensures
        greedy_quads(mask, w, h, quads.push(q)),
{
    let n = quads.len() as int;
    let pushed = quads.push(q);
    assert(pushed[n] == q);
    assert forall|k: int| 0 <= k < pushed.len() implies {
        let p = #[trigger] pushed[k];
        &&& 1 <= p.width && p.x + p.width <= w
        &&& 1 <= p.height && p.y + p.height <= h
    } by {
        if k < n {
            assert(pushed[k] == quads[k]);
        }
    }
    assert forall|k: int, cx: int, cy: int|
        0 <= k < pushed.len() && #[trigger] in_quad(pushed[k], cx, cy) implies open_cell(
        mask,
        pushed,
        k,
        w,
        cx,
        cy,
        pushed[k].face,
    ) by {
        lemma_covered_push(quads, q, k, cx, cy);
        if k < n {
            assert(pushed[k] == quads[k]);
        } else {
            assert(cell(cur, w, cx, cy) == Some(q.face));
        }
    }
    assert forall|k: int, cx: int, cy: int|
        #![trigger pushed[k], cell(mask, w, cx, cy)]
        0 <= k < pushed.len() && 0 <= cx < w && 0 <= cy < h && row_major_before(
            cx,
            cy,
            pushed[k].x as int,
            pushed[k].y as int,
        ) implies !(cell(mask, w, cx, cy) is Some && !covered_by(pushed, k, cx, cy)) by {
        lemma_covered_push(quads, q, k, cx, cy);
        if k < n {
            assert(pushed[k] == quads[k]);
        } else {
            assert(cell(cur, w, cx, cy) is None);
        }
    }
    assert forall|k: int| 0 <= k < pushed.len() implies {
        let p = #[trigger] pushed[k];
        p.x + p.width == w || !open_cell(mask, pushed, k, w, p.x + p.width, p.y as int, p.face)
    } by {
        let p = pushed[k];
        lemma_covered_push(quads, q, k, p.x + p.width, p.y as int);
        if k < n {
            assert(pushed[k] == quads[k]);
        }
    }
    assert forall|k: int| 0 <= k < pushed.len() implies {
        let p = #[trigger] pushed[k];
        p.y + p.height == h || exists|o: int|
            0 <= o < p.width && #[trigger] blocks_growth(mask, pushed, k, w, p, o)
    } by {
        let p = pushed[k];
        if k < n {
            assert(pushed[k] == quads[k]);
            if p.y + p.height != h {
                let o = choose|o: int|
                    0 <= o < p.width && #[trigger] blocks_growth(mask, quads, k, w, p, o);
                lemma_covered_push(quads, q, k, p.x + o, p.y + p.height);
                assert(blocks_growth(mask, pushed, k, w, p, o));
            }
        } else {
            if p.y + p.height != h {
                let o = choose|o: int| 0 <= o < q.width && #[trigger] differs_below(cur, w, q, o);
                lemma_covered_push(quads, q, k, p.x + o, p.y + p.height);
                assert(blocks_growth(mask, pushed, k, w, p, o));
            }
        }
    }
}

proof fn lemma_cell_index(w: int, h: int, cx: int, cy: int)
    requires
        0 <= cx < w,
        0 <= cy < h,
    ensures
        0 <= cx + cy * w < w * h,
        0 <= cy * w <= (h - 1) * w,
        (cx + cy * w) % w == cx,
        (cx + cy * w) / w == cy,
{
    assert(0 <= cx + cy * w < w * h) by (nonlinear_arith)
        requires
            0 <= cx < w,
            0 <= cy < h,
    ;
    assert(0 <= cy * w <= (h - 1) * w) by (nonlinear_arith)
        requires
            0 <= cx < w,
            0 <= cy < h,
    ;
    vstd::arithmetic::div_mod::lemma_fundamental_div_mod_converse(cx + cy * w, w, cy, cx);
}

proof fn lemma_cell_distinct(w: int, h: int, ax: int, ay: int, bx: int, by: int)
    requires
        0 <= ax < w,
        0 <= ay < h,
        0 <= bx < w,
        0 <= by < h,
        ax != bx || ay != by,
    ensures
        ax + ay * w != bx + by * w,
{
    lemma_cell_index(w, h, ax, ay);
    lemma_cell_index(w, h, bx, by);
}

/// Clears the cells of quad `q` (already pushed as quad `n`) from the working mask.
fn clear_quad(
    mask: &mut Vec<Option<Face>>,
    w: usize,
    h: usize,
    q: MaskQuad,
    Ghost(initial): Ghost<Seq<Option<Face>>>,
    Ghost(quads): Ghost<Seq<MaskQuad>>,
)
    requires
        w * h <= old(mask)@.len(),
        quads.len() >= 1,
        quads.last() == q,
        1 <= q.width,
        q.x + q.width <= w,
        1 <= q.height,
        q.y + q.height <= h,
        mask_tracks(old(mask)@, initial, quads.drop_last(), quads.len() - 1, w as int, h as int),
    ensures
        mask_tracks(final(mask)@, initial, quads, quads.len() as int, w as int, h as int),
{
    let ghost before = mask@;
    let ghost n = quads.len() - 1;
    let _ = mask.len();
    proof {
        assert(quads =~= quads.drop_last().push(q));
        assert forall|cx: int, cy: int| 0 <= cx < w && 0 <= cy < h implies covered_by(
            quads,
            n + 1,
            cx,
            cy,
        ) == (covered_by(quads.drop_last(), n, cx, cy) || in_quad(q, cx, cy)) by {
            lemma_covered_push(quads.drop_last(), q, n, cx, cy);
        }
    }
    let mut row: usize = 0;
    while row < q.height
        invariant
            w * h <= before.len(),
                before.len() <= usize::MAX,
            mask@.len() == before.len(),
            1 <= q.width,
            q.x + q.width <= w,
            1 <= q.height,
            q.y + q.height <= h,
            0 <= row <= q.height,
            forall|i: int| w * h <= i < before.len() ==> mask@[i] == before[i],
            forall|cx: int, cy: int|
                0 <= cx < w && 0 <= cy < h ==> #[trigger] cell(mask@, w as int, cx, cy) == if in_quad(
                    q,
                    cx,
                    cy,
                ) && cy < q.y + row {
                    None
                } else {
                    cell(before, w as int, cx, cy)
                },
        decreases q.height - row,
    {
        let mut column: usize = 0;
        while column < q.width
            invariant
                w * h <= before.len(),
                before.len() <= usize::MAX,
                mask@.len() == before.len(),
                1 <= q.width,
                q.x + q.width <= w,
                1 <= q.height,
                q.y + q.height <= h,
                0 <= row < q.height,
                0 <= column <= q.width,
                forall|i: int| w * h <= i < before.len() ==> mask@[i] == before[i],
                forall|cx: int, cy: int|
                    0 <= cx < w && 0 <= cy < h ==> #[trigger] cell(mask@, w as int, cx, cy)
                        == if in_quad(q, cx, cy) && (cy < q.y + row || (cy == q.y + row && cx
                        < q.x + column)) {
                        None
                    } else {
                        cell(before, w as int, cx, cy)
                    },
            decreases q.width - column,
        {
            let ghost cx0 = (q.x + column) as int;
            let ghost cy0 = (q.y + row) as int;
            proof {
                lemma_cell_index(w as int, h as int, cx0, cy0);
            }
            let index = q.x + column + (q.y + row) * w;
            let ghost pre = mask@;
            mask.set(index, None);
            proof {
                assert forall|cx: int, cy: int|
                    0 <= cx < w && 0 <= cy < h && (cx != cx0 || cy != cy0) implies #[trigger] cell(
                    mask@,
                    w as int,
                    cx,
                    cy,
                ) == cell(pre, w as int, cx, cy) by {
                    lemma_cell_distinct(w as int, h as int, cx, cy, cx0, cy0);
                    lemma_cell_index(w as int, h as int, cx, cy);
                }
                assert(cell(mask@, w as int, cx0, cy0) is None);
            }
            column = column + 1;
        }
        row = row + 1;
    }
}

/// Greedily splits the first `width * height` mask cells into rectangles of
/// equal faces (see [`greedy_decomposition`]) and clears those cells.
pub fn consume_mask(mask: &mut Vec<Option<Face>>, width: usize, height: usize) -> (quads: Vec<
    MaskQuad,
>)
    requires
        width * height <= old(mask)@.len(),
    ensures
        greedy_decomposition(old(mask)@, width as int, height as int, quads@),
        final(mask)@.len() == old(mask)@.len(),
        forall|i: int| 0 <= i < width * height ==> final(mask)@[i] is None,
        forall|i: int| width * height <= i < old(mask)@.len() ==> final(mask)@[i] == old(mask)@[i],
{
    let ghost initial = mask@;
    let _ = mask.len();
    let w = width;
    let h = height;
    let mut quads: Vec<MaskQuad> = Vec::new();
    let mut y: usize = 0;
    while y < h
        invariant
            w * h <= initial.len(),
                    initial.len() <= usize::MAX,
            0 <= y <= h,
            greedy_quads(initial, w as int, h as int, quads@),
            mask_tracks(mask@, initial, quads@, quads@.len() as int, w as int, h as int),
            forall|cx: int, cy: int|
                0 <= cx < w && 0 <= cy < h && cy < y ==> (#[trigger] cell(mask@, w as int, cx, cy)) is None,
        decreases h - y,
    {
        let mut x: usize = 0;
        while x < w
            invariant
                w * h <= initial.len(),
                    initial.len() <= usize::MAX,
                0 <= y < h,
                0 <= x <= w,
                greedy_quads(initial, w as int, h as int, quads@),
                mask_tracks(mask@, initial, quads@, quads@.len() as int, w as int, h as int),
                forall|cx: int, cy: int|
                    0 <= cx < w && 0 <= cy < h && row_major_before(cx, cy, x as int, y as int)
                        ==> (#[trigger] cell(mask@, w as int, cx, cy)) is None,
            decreases w - x,
        {
            proof {
                lemma_cell_index(w as int, h as int, x as int, y as int);
            }
            let value = match mask[x + y * w] {
                Some(value) => value,
                None => {
                    x = x + 1;
                    continue;
                },
            };
            let mut quad_width: usize = 1;
            loop
                invariant
                    w * h <= initial.len(),
                    initial.len() <= usize::MAX,
                    mask@.len() == initial.len(),
                    0 <= y < h,
                    0 <= x < w,
                    1 <= quad_width,
                    x + quad_width <= w,
                    forall|o: int|
                        0 <= o < quad_width ==> #[trigger] cell(mask@, w as int, x + o, y as int)
                            == Some(value),
                ensures
                    1 <= quad_width,
                    x + quad_width <= w,
                    forall|o: int|
                        0 <= o < quad_width ==> #[trigger] cell(mask@, w as int, x + o, y as int)
                            == Some(value),
                    x + quad_width == w || cell(mask@, w as int, x + quad_width, y as int) != Some(
                        value,
                    ),
                decreases w - x - quad_width,
            {
                if x + quad_width >= w {
                    break;
                }
                proof {
                    lemma_cell_index(w as int, h as int, (x + quad_width) as int, y as int);
                }
                if !holds_face(mask[x + quad_width + y * w], value) {
                    break;
                }
                quad_width = quad_width + 1;
            }
            let mut quad_height: usize = 1;
            loop
                invariant
                    w * h <= initial.len(),
                    initial.len() <= usize::MAX,
                    mask@.len() == initial.len(),
                    0 <= y < h,
                    0 <= x < w,
                    1 <= quad_width,
                    x + quad_width <= w,
                    1 <= quad_height,
                    y + quad_height <= h,
                    forall|o: int, r: int|
                        0 <= o < quad_width && 0 <= r < quad_height ==> #[trigger] cell(
                            mask@,
                            w as int,
                            x + o,
                            y + r,
                        ) == Some(value),
                ensures
                    1 <= quad_height,
                    y + quad_height <= h,
                    forall|o: int, r: int|
                        0 <= o < quad_width && 0 <= r < quad_height ==> #[trigger] cell(
                            mask@,
                            w as int,
                            x + o,
                            y + r,
                        ) == Some(value),
                    y + quad_height == h || exists|o: int|
                        0 <= o < quad_width && #[trigger] cell(
                            mask@,
                            w as int,
                            x + o,
                            y + quad_height,
                        ) != Some(value),
                decreases h - y - quad_height,
            {
                if y + quad_height >= h {
                    break;
                }
                let mut offset: usize = 0;
                let mut row_matches = true;
                while offset < quad_width && row_matches
                    invariant
                        w * h <= initial.len(),
                        initial.len() <= usize::MAX,
                        mask@.len() == initial.len(),
                        0 <= y < h,
                        0 <= x < w,
                        x + quad_width <= w,
                        y + quad_height < h,
                        0 <= offset <= quad_width,
                        forall|o: int|
                            0 <= o < offset ==> #[trigger] cell(
                                mask@,
                                w as int,
                                x + o,
                                y + quad_height,
                            ) == Some(value),
                        !row_matches ==> offset < quad_width && cell(
                            mask@,
                            w as int,
                            x + offset,
                            y + quad_height,
                        ) != Some(value),
                    decreases quad_width - offset + if row_matches {
                        1int
                    } else {
                        0
                    },
                {
                    proof {
                        lemma_cell_index(
                            w as int,
                            h as int,
                            (x + offset) as int,
                            (y + quad_height) as int,
                        );
                    }
                    if holds_face(mask[x + offset + (y + quad_height) * w], value) {
                        offset = offset + 1;
                    } else {
                        row_matches = false;
                    }
                }
                if !row_matches {
                    break;
                }
                quad_height = quad_height + 1;
            }
            let q = MaskQuad { x, y, width: quad_width, height: quad_height, face: value };
            proof {
                assert forall|cx: int, cy: int| #[trigger] in_quad(q, cx, cy) implies cell(
                    mask@,
                    w as int,
                    cx,
                    cy,
                ) == Some(q.face) by {
                    assert(cell(mask@, w as int, x + (cx - x), y + (cy - y)) == Some(value));
                }
                if y + quad_height != h {
                    let o = choose|o: int|
                        0 <= o < quad_width && #[trigger] cell(
                            mask@,
                            w as int,
                            x + o,
                            y + quad_height,
                        ) != Some(value);
                    assert(differs_below(mask@, w as int, q, o));
                }
                lemma_push_quad(initial, w as int, h as int, quads@, mask@, q);
            }
            let ghost previous = quads@;
            quads.push(q);
            proof {
                assert(quads@.drop_last() =~= previous);
            }
            clear_quad(mask, w, h, q, Ghost(initial), Ghost(quads@));
            proof {
                assert forall|cx: int, cy: int|
                    0 <= cx < w && 0 <= cy < h && row_major_before(
                        cx,
                        cy,
                        (x + quad_width) as int,
                        y as int,
                    ) implies (#[trigger] cell(mask@, w as int, cx, cy)) is None by {
                    if !row_major_before(cx, cy, x as int, y as int) {
                        assert(in_quad(q, cx, cy));
                        assert(in_quad(quads@[quads@.len() - 1], cx, cy));
                    }
                }
            }
            x = x + quad_width;
        }
        y = y + 1;
    }
    proof {
        assert forall|cx: int, cy: int|
            0 <= cx < w && 0 <= cy < h && (#[trigger] cell(initial, w as int, cx, cy)) is Some implies covered_by(
            quads@,
            quads@.len() as int,
            cx,
            cy,
        ) by {
            assert(cell(mask@, w as int, cx, cy) is None);
        }
        assert forall|i: int| 0 <= i < w * h implies mask@[i] is None by {
            let cy = i / (w as int);
            let cx = i % (w as int);
            vstd::arithmetic::div_mod::lemma_fundamental_div_mod(i, w as int);
            assert(cx + cy * w == i) by (nonlinear_arith)
                requires
                    i == (w as int) * cy + cx,
            ;
            assert(0 <= cy < h) by (nonlinear_arith)
                requires
                    i == (w as int) * cy + cx,
                    0 <= cx < w,
                    0 <= i < (w as int) * (h as int),
            ;
            assert(cell(mask@, w as int, cx, cy) is None);
        }
    }
    quads
}

/// Anything the mesher can read voxel kinds from.
pub trait VoxelSampler {
    spec fn kind_at(&self, p: IVec3) -> VoxelKind;

    fn sample_at(&self, p: IVec3) -> (kind: VoxelKind)
        ensures
            kind == self.kind_at(p),
    ;
}

impl VoxelSampler for ChunkVoxels {
    open spec fn kind_at(&self, p: IVec3) -> VoxelKind {
        self.sampled(p)
    }

    fn sample_at(&self, p: IVec3) -> (kind: VoxelKind) {
        self.sample(p)
    }
}

/// A lone voxel at the origin surrounded by air, as drawn for a dropped item.
#[derive(Clone, Copy, Debug, PartialEq, Eq, Structural)]
pub struct SingleVoxel {
    pub kind: VoxelKind,
}

impl VoxelSampler for SingleVoxel {
    open spec fn kind_at(&self, p: IVec3) -> VoxelKind {
        if p.x == 0 && p.y == 0 && p.z == 0 {
            self.kind
        } else {
            VoxelKind::Air
        }
    }

    fn sample_at(&self, p: IVec3) -> (kind: VoxelKind) {
        if p.x == 0 && p.y == 0 && p.z == 0 {
            self.kind
        } else {
            VoxelKind::Air
        }
    }
}

/// The quads found on one layer of one axis.
#[derive(Debug)]
pub struct LayerQuads {
    /// 0: x, 1: y, 2: z.
    pub axis: usize,
    /// The faces lie between cells `layer` and `layer + 1` along the axis.
    pub layer: i32,
    /// Mask columns and rows run along axes `(axis + 1) % 3` and `(axis + 2) % 3`.
    pub quads: Vec<MaskQuad>,
}

/// Extent of a `size` x `height` x `size` box along an axis.
pub open spec fn extent(size: int, height: int, axis: int) -> int {
    if axis == 1 {
        height
    } else {
        size
    }
}

/// The cell at `layer` along `axis`, column `i` and row `j` of that layer.
pub open spec fn layer_cell(axis: int, layer: int, i: int, j: int) -> IVec3 {
    if axis == 0 {
        IVec3 { x: layer as i32, y: i as i32, z: j as i32 }
    } else if axis == 1 {
        IVec3 { x: j as i32, y: layer as i32, z: i as i32 }
    } else {
        IVec3 { x: i as i32, y: j as i32, z: layer as i32 }
    }
}

/// The face between two neighbouring voxels, seen from the opaque one.
pub open spec fn face_between(a: VoxelKind, b: VoxelKind) -> Option<Face> {
    if a.spec_is_opaque() && !b.spec_is_opaque() {
        Some(Face { kind: a, positive: true })
    } else if !a.spec_is_opaque() && b.spec_is_opaque() {
        Some(Face { kind: b, positive: false })
    } else {
        None
    }
}

/// A face lies exactly between a voxel that hides what is behind it and one that
/// does not; it shows the hiding voxel's kind and points away from it.
pub proof fn lemma_face_between_law(a: VoxelKind, b: VoxelKind)
    ensures
        face_between(a, b) is Some <==> a.spec_is_opaque() != b.spec_is_opaque(),
        face_between(a, b) matches Some(f) ==> f.positive == a.spec_is_opaque() && f.kind == (
        if a.spec_is_opaque() {
            a
        } else {
            b
        }),
{
}

/// The visible face at column `i`, row `j` of a layer.
pub open spec fn layer_face<S: VoxelSampler>(
    sampler: &S,
    axis: int,
    layer: int,
    i: int,
    j: int,
) -> Option<Face> {
    face_between(
        sampler.kind_at(layer_cell(axis, layer, i, j)),
        sampler.kind_at(layer_cell(axis, layer + 1, i, j)),
    )
}

/// The face mask of one layer, `w` columns by `h` rows, row-major.
pub open spec fn face_mask<S: VoxelSampler>(
    sampler: &S,
    axis: int,
    layer: int,
    w: int,
    h: int,
) -> Seq<Option<Face>> {
    Seq::new((w * h) as nat, |k: int| layer_face(sampler, axis, layer, k % w, k / w))
}

/// Position of layer `layer` of `axis` in the list of all layers: the layers of
/// axis 0 (from -1 up), then of axis 1, then of axis 2.
pub open spec fn layer_slot(size: int, height: int, axis: int, layer: int) -> int {
    if axis == 0 {
        layer + 1
    } else if axis == 1 {
        size + 1 + layer + 1
    } else {
        size + 1 + height + 1 + layer + 1
    }
}

fn face_of(a: VoxelKind, b: VoxelKind) -> (face: Option<Face>)
    ensures
        face == face_between(a, b),
{
    let a_opaque = a.is_opaque();
    let b_opaque = b.is_opaque();
    if a_opaque && !b_opaque {
        Some(Face { kind: a, positive: true })
    } else if !a_opaque && b_opaque {
        Some(Face { kind: b, positive: false })
    } else {
        None
    }
}

fn cell_on_layer(axis: usize, layer: i32, i: i32, j: i32) -> (p: IVec3)
    requires
        axis < 3,
    ensures
        p == layer_cell(axis as int, layer as int, i as int, j as int),
{
    if axis == 0 {
        IVec3 { x: layer, y: i, z: j }
    } else if axis == 1 {
        IVec3 { x: j, y: layer, z: i }
    } else {
        IVec3 { x: i, y: j, z: layer }
    }
}

/// Builds the face mask of one layer.
fn build_face_mask<S: VoxelSampler>(sampler: &S, axis: usize, layer: i32, w: usize, h: usize) -> (mask:
    Vec<Option<Face>>)
    requires
        axis < 3,
        w <= i32::MAX,
        h <= i32::MAX,
        w * h <= usize::MAX,
        layer < i32::MAX,
    ensures
        mask@ == face_mask(sampler, axis as int, layer as int, w as int, h as int),
{
    let mut mask: Vec<Option<Face>> = Vec::new();
    let mut j: usize = 0;
    while j < h
        invariant
            axis < 3,
            w <= i32::MAX,
            h <= i32::MAX,
            w * h <= usize::MAX,
            layer < i32::MAX,
            0 <= j <= h,
            mask@.len() == j * w,
            forall|t: int|
                0 <= t < mask@.len() ==> #[trigger] mask@[t] == layer_face(
                    sampler,
                    axis as int,
                    layer as int,
                    t % (w as int),
                    t / (w as int),
                ),
        decreases h - j,
    {
        let mut i: usize = 0;
        while i < w
            invariant
                axis < 3,
                w <= i32::MAX,
                h <= i32::MAX,
                w * h <= usize::MAX,
                layer < i32::MAX,
                0 <= j < h,
                0 <= i <= w,
                mask@.len() == i + j * w,
                forall|t: int|
                    0 <= t < mask@.len() ==> #[trigger] mask@[t] == layer_face(
                        sampler,
                        axis as int,
                        layer as int,
                        t % (w as int),
                        t / (w as int),
                    ),
            decreases w - i,
        {
            proof {
                lemma_cell_index(w as int, h as int, i as int, j as int);
            }
            let a = sampler.sample_at(cell_on_layer(axis, layer, i as i32, j as i32));
            let b = sampler.sample_at(cell_on_layer(axis, layer + 1, i as i32, j as i32));
            mask.push(face_of(a, b));
            i = i + 1;
        }
        proof {
            assert(i + j * w == (j + 1) * w) by (nonlinear_arith)
                requires
                    i == w,
            ;
        }
        j = j + 1;
    }
    proof {
        assert(mask@.len() == w * h) by (nonlinear_arith)
            requires
                mask@.len() == j * w,
                j == h,
        ;
        assert(mask@ =~= face_mask(sampler, axis as int, layer as int, w as int, h as int));
    }
    mask
}

/// Greedy face quads of a `size` x `height` x `size` box read through `sampler`:
/// for every axis and every layer from -1 up to the box's extent, the greedy
/// decomposition of that layer's face mask (see [`consume_mask`]).
pub fn greedy_layers<S: VoxelSampler>(sampler: &S, size: i32, height: i32) -> (layers: Vec<
    LayerQuads,
>)
    requires
        size >= 1,
        height >= 0,
        size * size <= i32::MAX,
        size * height <= i32::MAX,
    ensures
        layers@.len() == (size + 1) + (height + 1) + (size + 1),
        forall|n: int|
            0 <= n < layers@.len() ==> {
                let e = #[trigger] layers@[n];
                let w = extent(size as int, height as int, (e.axis + 1) % 3);
                let h = extent(size as int, height as int, (e.axis + 2) % 3);
                &&& e.axis < 3
                &&& -1 <= e.layer < extent(size as int, height as int, e.axis as int)
                &&& n == layer_slot(size as int, height as int, e.axis as int, e.layer as int)
                &&& greedy_decomposition(
                    face_mask(sampler, e.axis as int, e.layer as int, w, h),
                    w,
                    h,
                    e.quads@,
                )
            },
{
    let mut layers: Vec<LayerQuads> = Vec::new();
    let mut axis: usize = 0;
    while axis < 3
        invariant
            size >= 1,
            height >= 0,
            size * size <= i32::MAX,
            size * height <= i32::MAX,
            axis <= 3,
            layers@.len() == if axis == 0 {
                0
            } else if axis == 1 {
                size + 1
            } else if axis == 2 {
                size + 1 + height + 1
            } else {
                (size + 1) + (height + 1) + (size + 1)
            },
            forall|n: int|
                0 <= n < layers@.len() ==> {
                    let e = #[trigger] layers@[n];
                    let w = extent(size as int, height as int, (e.axis + 1) % 3);
                    let h = extent(size as int, height as int, (e.axis + 2) % 3);
                    &&& e.axis < 3
                    &&& -1 <= e.layer < extent(size as int, height as int, e.axis as int)
                    &&& n == layer_slot(size as int, height as int, e.axis as int, e.layer as int)
                    &&& greedy_decomposition(
                        face_mask(sampler, e.axis as int, e.layer as int, w, h),
                        w,
                        h,
                        e.quads@,
                    )
                },
        decreases 3 - axis,
    {
        let depth: i32 = if axis == 1 {
            height
        } else {
            size
        };
        let w: usize = if (axis + 1) % 3 == 1 {
            height as usize
        } else {
            size as usize
        };
        let h: usize = if (axis + 2) % 3 == 1 {
            height as usize
        } else {
            size as usize
        };
        proof {
            assert(w * h <= i32::MAX) by (nonlinear_arith)
                requires
                    (w == size && h == size) || (w == size && h == height) || (w == height && h
                        == size),
                    size * size <= i32::MAX,
                    size * height <= i32::MAX,
                    height >= 0,
                    size >= 1,
            ;
        }
        let ghost start_len = layers@.len();
        let mut layer: i32 = -1;
        while layer < depth
            invariant
                size >= 1,
                height >= 0,
                axis < 3,
                depth == extent(size as int, height as int, axis as int),
                w == extent(size as int, height as int, (axis + 1) % 3),
                h == extent(size as int, height as int, (axis + 2) % 3),
                w <= i32::MAX,
                h <= i32::MAX,
                w * h <= i32::MAX,
                -1 <= layer <= depth,
                start_len == layer_slot(size as int, height as int, axis as int, -1),
                layers@.len() == start_len + layer + 1,
                forall|n: int|
                    0 <= n < layers@.len() ==> {
                        let e = #[trigger] layers@[n];
                        let w = extent(size as int, height as int, (e.axis + 1) % 3);
                        let h = extent(size as int, height as int, (e.axis + 2) % 3);
                        &&& e.axis < 3
                        &&& -1 <= e.layer < extent(size as int, height as int, e.axis as int)
                        &&& n == layer_slot(
                            size as int,
                            height as int,
                            e.axis as int,
                            e.layer as int,
                        )
                        &&& greedy_decomposition(
                            face_mask(sampler, e.axis as int, e.layer as int, w, h),
                            w,
                            h,
                            e.quads@,
                        )
                    },
            decreases depth - layer,
        {
            let mut mask = build_face_mask(sampler, axis, layer, w, h);
            let quads = consume_mask(&mut mask, w, h);
            layers.push(LayerQuads { axis, layer, quads });
            layer = layer + 1;
        }
        axis = axis + 1;
    }
    layers
}

/// The water surface mask value at column `x`, row `z` of layer `y`: a face
/// where water lies under a cell that is not water.
pub open spec fn water_face(voxels: &ChunkVoxels, x: int, y: int, z: int) -> Option<Face> {
    if voxels.sampled(IVec3 { x: x as i32, y: y as i32, z: z as i32 }) == VoxelKind::Water
        && voxels.sampled(IVec3 { x: x as i32, y: (y + 1) as i32, z: z as i32 })
        != VoxelKind::Water {
        Some(Face { kind: VoxelKind::Water, positive: true })
    } else {
        None
    }
}

/// The water surface mask of layer `y`, `size` x `size`, row-major (rows along z).
pub open spec fn water_mask(voxels: &ChunkVoxels, y: int, size: int) -> Seq<Option<Face>> {
    Seq::new((size * size) as nat, |k: int| water_face(voxels, k % size, y, k / size))
}

/// Greedy quads of the water surfaces of a chunk: one entry per voxel layer
/// `y` (axis 1), holding the greedy decomposition of that layer's water mask.
pub fn water_layers(voxels: &ChunkVoxels) -> (layers: Vec<LayerQuads>)
    requires
        voxels.spec_size() * voxels.spec_size() <= i32::MAX,
        voxels.spec_height() < i32::MAX,
    ensures
        layers@.len() == voxels.spec_height(),
        forall|n: int|
            0 <= n < layers@.len() ==> {
                let e = #[trigger] layers@[n];
                &&& e.axis == 1
                &&& e.layer == n
                &&& greedy_decomposition(
                    water_mask(voxels, n, voxels.spec_size()),
                    voxels.spec_size(),
                    voxels.spec_size(),
                    e.quads@,
                )
            },
{
    let size_i = voxels.size();
    let height = voxels.height();
    let size = size_i as usize;
    let water = Face { kind: VoxelKind::Water, positive: true };
    let mut layers: Vec<LayerQuads> = Vec::new();
    let mut y: i32 = 0;
    while y < height
        invariant
            size == voxels.spec_size(),
            size >= 1,
            size * size <= i32::MAX,
            height == voxels.spec_height(),
            height < i32::MAX,
            water == (Face { kind: VoxelKind::Water, positive: true }),
            0 <= y <= height,
            layers@.len() == y,
            forall|n: int|
                0 <= n < layers@.len() ==> {
                    let e = #[trigger] layers@[n];
                    &&& e.axis == 1
                    &&& e.layer == n
                    &&& greedy_decomposition(
                        water_mask(voxels, n, voxels.spec_size()),
                        voxels.spec_size(),
                        voxels.spec_size(),
                        e.quads@,
                    )
                },
        decreases height - y,
    {
        let mut mask: Vec<Option<Face>> = Vec::new();
        let mut z: usize = 0;
        while z < size
            invariant
                size == voxels.spec_size(),
                size >= 1,
                size * size <= i32::MAX,
                water == (Face { kind: VoxelKind::Water, positive: true }),
                0 <= y < height,
                height < i32::MAX,
                0 <= z <= size,
                mask@.len() == z * size,
                forall|t: int|
                    0 <= t < mask@.len() ==> #[trigger] mask@[t] == water_face(
                        voxels,
                        t % (size as int),
                        y as int,
                        t / (size as int),
                    ),
            decreases size - z,
        {
            let mut x: usize = 0;
            while x < size
                invariant
                    size == voxels.spec_size(),
                    size >= 1,
                    size * size <= i32::MAX,
                    water == (Face { kind: VoxelKind::Water, positive: true }),
                    0 <= y < height,
                    height < i32::MAX,
                    0 <= z < size,
                    0 <= x <= size,
                    mask@.len() == x + z * size,
                    forall|t: int|
                        0 <= t < mask@.len() ==> #[trigger] mask@[t] == water_face(
                            voxels,
                            t % (size as int),
                            y as int,
                            t / (size as int),
                        ),
                decreases size - x,
            {
                proof {
                    lemma_cell_index(size as int, size as int, x as int, z as int);
                }
                let here = voxels.sample(IVec3 { x: x as i32, y, z: z as i32 });
                let above = voxels.sample(IVec3 { x: x as i32, y: y + 1, z: z as i32 });
                let is_here_water = match here {
                    VoxelKind::Water => true,
                    _ => false,
                };
                let is_above_water = match above {
                    VoxelKind::Water => true,
                    _ => false,
                };
                if is_here_water && !is_above_water {
                    mask.push(Some(water));
                } else {
                    mask.push(None);
                }
                x = x + 1;
            }
            proof {
                assert(x + z * size == (z + 1) * size) by (nonlinear_arith)
                    requires
                        x == size,
                ;
            }
            z = z + 1;
        }
        proof {
            assert(mask@.len() == size * size) by (nonlinear_arith)
                requires
                    mask@.len() == z * size,
                    z == size,
            ;
            assert(mask@ =~= water_mask(voxels, y as int, size as int));
        }
        let quads = consume_mask(&mut mask, size, size);
        layers.push(LayerQuads { axis: 1, layer: y, quads });
        y = y + 1;
    }
    layers
}

/// Total number of quads over all layers, counted over the first `n` layers.
pub open spec fn quads_upto(layers: Seq<LayerQuads>, n: int) -> int
    decreases n,
{
    if n <= 0 {
        0
    } else {
        quads_upto(layers, n - 1) + layers[n - 1].quads@.len()
    }
}

/// Number of quads over all layers (each quad becomes two triangles).
pub fn quad_count(layers: &Vec<LayerQuads>) -> (count: usize)
    requires
        quads_upto(layers@, layers@.len() as int) <= usize::MAX,
    ensures
        count == quads_upto(layers@, layers@.len() as int),
{
    let mut count: usize = 0;
    let mut n: usize = 0;
    while n < layers.len()
        invariant
            0 <= n <= layers@.len(),
            count == quads_upto(layers@, n as int),
            quads_upto(layers@, layers@.len() as int) <= usize::MAX,
        decreases layers@.len() - n,
    {
        proof {
            lemma_quads_upto_monotone(layers@, n as int + 1, layers@.len() as int);
        }
        count = count + layers[n].quads.len();
        n = n + 1;
    }
    count
}

proof fn lemma_quads_upto_monotone(layers: Seq<LayerQuads>, a: int, b: int)
    requires
        0 <= a <= b <= layers.len(),
    ensures
        quads_upto(layers, a) <= quads_upto(layers, b),
    decreases b - a,
{
    if a < b {
        lemma_quads_upto_monotone(layers, a, b - 1);
    }
}

/// The greedy terrain quads of a chunk.
pub fn chunk_face_layers(voxels: &ChunkVoxels) -> (layers: Vec<LayerQuads>)
    requires
        voxels.spec_size() * voxels.spec_size() <= i32::MAX,
        voxels.spec_size() * voxels.spec_height() <= i32::MAX,
    ensures
        layers@.len() == (voxels.spec_size() + 1) + (voxels.spec_height() + 1) + (
        voxels.spec_size() + 1),
        forall|n: int|
            0 <= n < layers@.len() ==> {
                let e = #[trigger] layers@[n];
                let w = extent(voxels.spec_size(), voxels.spec_height(), (e.axis + 1) % 3);
                let h = extent(voxels.spec_size(), voxels.spec_height(), (e.axis + 2) % 3);
                &&& e.axis < 3
                &&& -1 <= e.layer < extent(voxels.spec_size(), voxels.spec_height(), e.axis as int)
                &&& n == layer_slot(
                    voxels.spec_size(),
                    voxels.spec_height(),
                    e.axis as int,
                    e.layer as int,
                )
                &&& greedy_decomposition(
                    face_mask(voxels, e.axis as int, e.layer as int, w, h),
                    w,
                    h,
                    e.quads@,
                )
            },
{
    let size = voxels.size();
    let height = voxels.height();
    greedy_layers(voxels, size, height)
}

/// The greedy quads of a single block, as drawn for a dropped item.
/// The greedy decomposition of a one-cell mask is one quad when the cell holds
/// a face and none otherwise.
proof fn lemma_unit_mask_quads(mask: Seq<Option<Face>>, quads: Seq<MaskQuad>)
    requires
        mask.len() == 1,
        greedy_decomposition(mask, 1, 1, quads),
    ensures
        quads.len() == if mask[0] is Some {
            1int
        } else {
            0
        },
{
    assert(cell(mask, 1, 0, 0) == mask[0]);
    if quads.len() > 0 {
        let q = quads[0];
        assert(1 <= q.width && q.x + q.width <= 1);
        assert(1 <= q.height && q.y + q.height <= 1);
        assert(in_quad(quads[0], 0, 0));
        assert(open_cell(mask, quads, 0, 1, 0, 0, quads[0].face));
    }
    if quads.len() > 1 {
        let q = quads[1];
        assert(1 <= q.width && q.x + q.width <= 1);
        assert(1 <= q.height && q.y + q.height <= 1);
        assert(in_quad(quads[1], 0, 0));
        assert(open_cell(mask, quads, 1, 1, 0, 0, quads[1].face));
        assert(in_quad(quads[0], 0, 0));
        assert(covered_by(quads, 1, 0, 0));
    }
    if mask[0] is Some {
        assert(covered_by(quads, quads.len() as int, 0, 0));
    }
}

pub fn block_item_layers(kind: VoxelKind) -> (layers: Vec<LayerQuads>)
    ensures
        layers@.len() == 6,
        forall|n: int|
            0 <= n < layers@.len() ==> {
                let e = #[trigger] layers@[n];
                &&& e.axis < 3
                &&& -1 <= e.layer < 1
                &&& n == layer_slot(1, 1, e.axis as int, e.layer as int)
                &&& greedy_decomposition(
                    face_mask(&SingleVoxel { kind }, e.axis as int, e.layer as int, 1, 1),
                    1,
                    1,
                    e.quads@,
                )
                &&& e.quads@.len() == if kind.spec_is_opaque() {
                    1int
                } else {
                    0
                }
            },
        quads_upto(layers@, 6) == if kind.spec_is_opaque() {
            6int
        } else {
            0
        },
{
    let layers = greedy_layers(&SingleVoxel { kind }, 1, 1);
    proof {
        let single = SingleVoxel { kind };
        assert forall|n: int| 0 <= n < layers@.len() implies (#[trigger] layers@[n]).quads@.len() == if kind.spec_is_opaque() {
            1int
        } else {
            0
        } by {
            let e = layers@[n];
            let mask = face_mask(&single, e.axis as int, e.layer as int, 1, 1);
            lemma_unit_mask_quads(mask, e.quads@);
            let near = layer_cell(e.axis as int, e.layer as int, 0, 0);
            let far = layer_cell(e.axis as int, e.layer as int + 1, 0, 0);
            assert(mask[0] == face_between(single.kind_at(near), single.kind_at(far)));
            lemma_face_between_law(single.kind_at(near), single.kind_at(far));
            if e.layer == -1 {
                assert(single.kind_at(near) == VoxelKind::Air);
                assert(single.kind_at(far) == kind);
            } else {
                assert(single.kind_at(near) == kind);
                assert(single.kind_at(far) == VoxelKind::Air);
            }
        }
        reveal_with_fuel(quads_upto, 7);
    }
    layers
}

/// Corner, first edge and second edge of a terrain quad found on `layer` of
/// `axis`: the face plane lies at `layer + 1`, the edges run along the mask's
/// columns `(axis + 1) % 3` and rows `(axis + 2) % 3`.
pub open spec fn terrain_quad_frame(axis: int, layer: int, q: MaskQuad) -> (IVec3, IVec3, IVec3) {
    (
        layer_cell(axis, layer + 1, q.x as int, q.y as int),
        layer_cell(axis, 0, q.width as int, 0),
        layer_cell(axis, 0, 0, q.height as int),
    )
}

/// Coordinate `k` (0: x, 1: y, 2: z) of a position.
pub open spec fn component(v: IVec3, k: int) -> int {
    if k == 0 {
        v.x as int
    } else if k == 1 {
        v.y as int
    } else {
        v.z as int
    }
}

/// Layers run along `axis`; a layer's columns run along the next axis and its
/// rows along the one after (x, y, z taken cyclically). A terrain quad lies on
/// the plane just past its layer, starts at its mask corner, and its edges run
/// along the columns (its width) and the rows (its height).
pub proof fn lemma_layer_frame_law(axis: int, layer: int, i: int, j: int, q: MaskQuad)
    requires
        0 <= axis < 3,
        i32::MIN <= layer < i32::MAX,
        i32::MIN <= i <= i32::MAX,
        i32::MIN <= j <= i32::MAX,
        q.x + q.width <= i32::MAX,
        q.y + q.height <= i32::MAX,
    ensures
        component(layer_cell(axis, layer, i, j), axis) == layer,
        component(layer_cell(axis, layer, i, j), (axis + 1) % 3) == i,
        component(layer_cell(axis, layer, i, j), (axis + 2) % 3) == j,
        ({
            let (corner, du, dv) = terrain_quad_frame(axis, layer, q);
            &&& component(corner, axis) == layer + 1
            &&& component(corner, (axis + 1) % 3) == q.x
            &&& component(corner, (axis + 2) % 3) == q.y
            &&& component(du, axis) == 0 && component(du, (axis + 1) % 3) == q.width && component(
                du,
                (axis + 2) % 3,
            ) == 0
            &&& component(dv, axis) == 0 && component(dv, (axis + 1) % 3) == 0 && component(
                dv,
                (axis + 2) % 3,
            ) == q.height
        }),
{
}

/// A water surface lies on top of a liquid voxel whose upper neighbour is not
/// liquid, and faces up.
pub proof fn lemma_water_face_law(voxels: &ChunkVoxels, x: int, y: int, z: int)
    requires
        i32::MIN <= x <= i32::MAX,
        i32::MIN <= y < i32::MAX,
        i32::MIN <= z <= i32::MAX,
    ensures
        water_face(voxels, x, y, z) is Some <==> (voxels.sampled(
            IVec3 { x: x as i32, y: y as i32, z: z as i32 },
        ).spec_is_liquid() && !voxels.sampled(
            IVec3 { x: x as i32, y: (y + 1) as i32, z: z as i32 },
        ).spec_is_liquid()),
        water_face(voxels, x, y, z) matches Some(f) ==> f.positive && f.kind.spec_is_liquid(),
{
}

/// Corner, first edge and second edge of a water quad on voxel layer `y`: the
/// surface lies at `y + 1`, the first edge runs along z, the second along x.
pub open spec fn water_quad_frame(y: int, q: MaskQuad) -> (IVec3, IVec3, IVec3) {
    (
        IVec3 { x: q.x as i32, y: (y + 1) as i32, z: q.y as i32 },
        IVec3 { x: 0, y: 0, z: q.height as i32 },
        IVec3 { x: q.width as i32, y: 0, z: 0 },
    )
}

/// The corner and edges of a terrain quad.
pub fn terrain_quad(axis: usize, layer: i32, q: MaskQuad) -> (frame: (IVec3, IVec3, IVec3))
    requires
        axis < 3,
        layer < i32::MAX,
        q.x + q.width <= i32::MAX,
        q.y + q.height <= i32::MAX,
    ensures
        frame == terrain_quad_frame(axis as int, layer as int, q),
{
    (
        cell_on_layer(axis, layer + 1, q.x as i32, q.y as i32),
        cell_on_layer(axis, 0, q.width as i32, 0),
        cell_on_layer(axis, 0, 0, q.height as i32),
    )
}

/// The corner and edges of a water quad.
pub fn water_quad(y: i32, q: MaskQuad) -> (frame: (IVec3, IVec3, IVec3))
    requires
        y < i32::MAX,
        q.x + q.width <= i32::MAX,
        q.y + q.height <= i32::MAX,
    ensures
        frame == water_quad_frame(y as int, q),
{
    (
        IVec3 { x: q.x as i32, y: y + 1, z: q.y as i32 },
        IVec3 { x: 0, y: 0, z: q.height as i32 },
        IVec3 { x: q.width as i32, y: 0, z: 0 },
    )
}

pub open spec fn add3(a: IVec3, b: IVec3) -> IVec3 {
    IVec3 { x: (a.x + b.x) as i32, y: (a.y + b.y) as i32, z: (a.z + b.z) as i32 }
}

/// The four vertices of a quad, counter-clockwise from the corner.
pub fn quad_vertices(corner: IVec3, du: IVec3, dv: IVec3) -> (vertices: [IVec3; 4])
    requires
        i32::MIN <= corner.x + du.x + dv.x <= i32::MAX,
        i32::MIN <= corner.y + du.y + dv.y <= i32::MAX,
        i32::MIN <= corner.z + du.z + dv.z <= i32::MAX,
        i32::MIN <= corner.x + du.x <= i32::MAX,
        i32::MIN <= corner.y + du.y <= i32::MAX,
        i32::MIN <= corner.z + du.z <= i32::MAX,
        i32::MIN <= corner.x + dv.x <= i32::MAX,
        i32::MIN <= corner.y + dv.y <= i32::MAX,
        i32::MIN <= corner.z + dv.z <= i32::MAX,
    ensures
        vertices@ == seq![corner, add3(corner, du), add3(add3(corner, du), dv), add3(corner, dv)],
{
    let a = IVec3 { x: corner.x + du.x, y: corner.y + du.y, z: corner.z + du.z };
    let b = IVec3 { x: a.x + dv.x, y: a.y + dv.y, z: a.z + dv.z };
    let c = IVec3 { x: corner.x + dv.x, y: corner.y + dv.y, z: corner.z + dv.z };
    let vertices = [corner, a, b, c];
    assert(vertices@ =~= seq![corner, add3(corner, du), add3(add3(corner, du), dv), add3(corner, dv)]);
    vertices
}

/// Triangle indices of a quad whose first vertex is `first`: wound so that the
/// front side faces along the axis for positive faces and against it otherwise.
pub fn quad_indices(first: u32, positive: bool) -> (indices: [u32; 6])
    requires
        first + 3 <= u32::MAX,
    ensures
        positive ==> indices@ == seq![first, (first + 1) as u32, (first + 2) as u32, first, (first + 2) as u32, (first + 3) as u32],
        !positive ==> indices@ == seq![first, (first + 2) as u32, (first + 1) as u32, first, (first + 3) as u32, (first + 2) as u32],
{
    let indices = if positive {
        [first, first + 1, first + 2, first, first + 2, first + 3]
    } else {
        [first, first + 2, first + 1, first, first + 3, first + 2]
    };
    assert(positive ==> indices@ =~= seq![first, (first + 1) as u32, (first + 2) as u32, first, (first + 2) as u32, (first + 3) as u32]);
    assert(!positive ==> indices@ =~= seq![first, (first + 2) as u32, (first + 1) as u32, first, (first + 3) as u32, (first + 2) as u32]);
    indices
}

/// Appends the indices of another mesh, shifted past the `first` vertices that
/// this mesh already has.
pub fn append_rebased(indices: &mut Vec<u32>, other: &Vec<u32>, first: u32)
    requires
        forall|i: int| 0 <= i < other@.len() ==> first + #[trigger] other@[i] <= u32::MAX,
    ensures
        final(indices)@ == old(indices)@ + other@.map_values(|index: u32| (first + index) as u32),
{
    let ghost start = indices@;
    let mut i: usize = 0;
    while i < other.len()
        invariant
            0 <= i <= other@.len(),
            forall|k: int| 0 <= k < other@.len() ==> first + #[trigger] other@[k] <= u32::MAX,
            indices@ == start + other@.take(i as int).map_values(|index: u32| (first + index) as u32),
        decreases other@.len() - i,
    {
        indices.push(first + other[i]);
        i = i + 1;
        assert(other@.take(i as int).map_values(|index: u32| (first + index) as u32)
            =~= other@.take(i - 1).map_values(|index: u32| (first + index) as u32).push(
            (first + other@[i - 1]) as u32,
        ));
    }
    assert(other@.take(i as int) =~= other@);
}

fn holds_face(slot: Option<Face>, face: Face) -> (same: bool)
    ensures
        same == (slot == Some(face)),
{
    match slot {
        Some(f) => f.kind == face.kind && f.positive == face.positive,
        None => false,
    }
}

} // verus!
