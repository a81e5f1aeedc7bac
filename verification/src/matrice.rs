//! Dense occupancy index of the board: one byte per cell, `0` for empty,
//! `id + 1` for a cell owned by snake `id`.

use vstd::prelude::*;

use std::collections::VecDeque;

use crate::board::SnakeId;
use crate::collision::Collision;
use crate::point::Point;
use crate::snake::{Snake, SnakeV};

verus! {

/// Largest accepted board side: keeps `width * height` cell counts and
/// all index arithmetic comfortably within `usize` and `i32`.
pub const MAX_DIM: usize = 32767;

/// The value stored in one cell.
pub type CellValue = u8;

/// What one snake's move did to the board: its id, the tail cell it shed
/// (if any), and the cell its head landed on.
pub type Displacement = (SnakeId, (Option<Point>, Point));

/// Whether `p` lies inside a `w` by `h` board.
pub open spec fn in_bounds(w: int, h: int, p: Point) -> bool {
    0 <= p.x < w && 0 <= p.y < h
}

/// The point with mathematical coordinates `(x, y)`.
pub open spec fn pt(x: int, y: int) -> Point {
    Point { x: x as i32, y: y as i32 }
}

/// The cell `(x, y)` of a row-major `w`-wide array.
pub open spec fn cell_at(a: Seq<u8>, w: int, x: int, y: int) -> u8 {
    a[y * w + x]
}

/// The first snake among `ss[0..n]` that is alive and covers `p`, if any.
pub open spec fn first_owner_upto(ss: Seq<SnakeV>, p: Point, n: int) -> Option<int>
    decreases n,
{
    if n <= 0 {
        None
    } else {
        match first_owner_upto(ss, p, n - 1) {
            Some(i) => Some(i),
            None => {
                if !ss[n - 1].is_dead() && ss[n - 1].covers(p) {
                    Some(n - 1)
                } else {
                    None
                }
            },
        }
    }
}

/// The snake owning cell `p`: the first alive snake whose body covers it.
pub open spec fn owner_of(ss: Seq<SnakeV>, p: Point) -> Option<int> {
    first_owner_upto(ss, p, ss.len() as int)
}

/// The matrix encoding of the owner among the first `n` snakes.
pub open spec fn owner_code_upto(ss: Seq<SnakeV>, p: Point, n: int) -> u8 {
    match first_owner_upto(ss, p, n) {
        Some(i) => (i + 1) as u8,
        None => 0,
    }
}

/// The matrix encoding of the owner of cell `p`.
pub open spec fn owner_code(ss: Seq<SnakeV>, p: Point) -> u8 {
    owner_code_upto(ss, p, ss.len() as int)
}

/// No cell of `a`'s body is also a cell of `b`'s body.
pub open spec fn no_shared_cell(a: SnakeV, b: SnakeV) -> bool {
    forall|k: int| 0 <= k < a.body.len() ==> !b.covers(#[trigger] a.body[k])
}

/// Bodies of alive snakes are pairwise disjoint.
pub open spec fn bodies_disjoint(ss: Seq<SnakeV>) -> bool {
    forall|i: int, j: int|
        0 <= i < ss.len() && 0 <= j < ss.len() && i != j && !ss[i].is_dead() && !ss[j].is_dead()
            ==> no_shared_cell(#[trigger] ss[i], #[trigger] ss[j])
}

/// An owner returned by `first_owner_upto` is alive and covers the cell.
pub proof fn lemma_owner_covers(ss: Seq<SnakeV>, p: Point, n: int, i: int)
    requires
        0 <= n <= ss.len(),
        first_owner_upto(ss, p, n) == Some(i),
    ensures
        0 <= i < n,
        !ss[i].is_dead(),
        ss[i].covers(p),
    decreases n,
{
    if n > 0 {
        if first_owner_upto(ss, p, n - 1) == Some(i) {
            lemma_owner_covers(ss, p, n - 1, i);
        }
    }
}

/// If no snake among `ss[0..n]` is alive and covers `p`, there is no owner.
pub proof fn lemma_owner_none(ss: Seq<SnakeV>, p: Point, n: int)
    requires
        0 <= n <= ss.len(),
        forall|i: int| 0 <= i < n && !ss[i].is_dead() ==> !(#[trigger] ss[i]).covers(p),
    ensures
        first_owner_upto(ss, p, n) is None,
    decreases n,
{
    if n > 0 {
        lemma_owner_none(ss, p, n - 1);
    }
}

/// If an alive snake covers `p`, the cell has an owner.
pub proof fn lemma_owner_exists(ss: Seq<SnakeV>, p: Point, n: int, i: int)
    requires
        0 <= i < n <= ss.len(),
        !ss[i].is_dead(),
        ss[i].covers(p),
    ensures
        first_owner_upto(ss, p, n) is Some,
    decreases n,
{
    if n - 1 > i {
        lemma_owner_exists(ss, p, n - 1, i);
    }
}

/// Under pairwise disjoint bodies, the owner of a cell covered by an
/// alive snake is exactly that snake.
pub proof fn lemma_owner_unique(ss: Seq<SnakeV>, p: Point, i: int)
    requires
        0 <= i < ss.len(),
        !ss[i].is_dead(),
        ss[i].covers(p),
        bodies_disjoint(ss),
    ensures
        owner_of(ss, p) == Some(i),
{
    lemma_owner_exists(ss, p, ss.len() as int, i);
    let j = owner_of(ss, p)->Some_0;
    lemma_owner_covers(ss, p, ss.len() as int, j);
    if j != i {
        let k = choose|k: int| 0 <= k < ss[i].body.len() && ss[i].body[k] == p;
        assert(!ss[j].covers(ss[i].body[k]));
    }
}


/// The owner of `p` is unchanged when every snake's alive-and-covering
/// status for `p` is unchanged.
pub proof fn lemma_owner_same(ss1: Seq<SnakeV>, ss2: Seq<SnakeV>, p: Point, n: int)
    requires
        ss1.len() == ss2.len(),
        0 <= n <= ss1.len(),
        forall|j: int|
            0 <= j < ss1.len() ==> ((!ss1[j].is_dead() && ss1[j].covers(p)) == (!(
            #[trigger] ss2[j]).is_dead() && ss2[j].covers(p))),
    ensures
        first_owner_upto(ss1, p, n) == first_owner_upto(ss2, p, n),
    decreases n,
{
    if n > 0 {
        lemma_owner_same(ss1, ss2, p, n - 1);
    }
}

/// A board of accepted dimensions has at most `MAX_DIM * MAX_DIM` cells.
pub proof fn lemma_dims_fit(h: int, w: int)
    requires
        1 <= h <= MAX_DIM,
        1 <= w <= MAX_DIM,
    ensures
        h * w <= MAX_DIM * MAX_DIM,
        h * w >= 1,
{
    assert(h * w <= MAX_DIM * MAX_DIM && h * w >= 1) by (nonlinear_arith)
        requires
            1 <= h <= MAX_DIM,
            1 <= w <= MAX_DIM,
    ;
}

/// The row-major index of an in-bounds cell is a valid array index.
pub proof fn lemma_rm_index(w: int, h: int, x: int, y: int)
    requires
        1 <= w,
        1 <= h,
        0 <= x < w,
        0 <= y < h,
    ensures
        0 <= y * w + x,
        y * w + x < h * w,
        y * w <= y * w + x,
{
    assert(0 <= y * w + x && y * w + x < h * w) by (nonlinear_arith)
        requires
            1 <= w,
            1 <= h,
            0 <= x < w,
            0 <= y < h,
    ;
}

/// Distinct in-bounds cells have distinct row-major indices.
pub proof fn lemma_rm_injective(w: int, h: int, x1: int, y1: int, x2: int, y2: int)
    requires
        1 <= w,
        0 <= x1 < w,
        0 <= y1 < h,
        0 <= x2 < w,
        0 <= y2 < h,
    ensures
        (y1 * w + x1 == y2 * w + x2) <==> (x1 == x2 && y1 == y2),
{
    assert((y1 * w + x1 == y2 * w + x2) <==> (x1 == x2 && y1 == y2)) by (nonlinear_arith)
        requires
            1 <= w,
            0 <= x1 < w,
            0 <= y1 < h,
            0 <= x2 < w,
            0 <= y2 < h,
    ;
}

/// The single-cell write a collision record forces on the matrix: the
/// surviving snake of a contested cell is (re-)marked there.
pub open spec fn override_write(c: Collision) -> Option<(Point, u8)> {
    match c {
        Collision::OtherBody { id_2, loc, .. } => Some((loc, (id_2 + 1) as u8)),
        Collision::HeadToHead { src_length, dst_length, id_1, id_2, loc } => {
            if src_length < dst_length {
                Some((loc, (id_2 + 1) as u8))
            } else if src_length > dst_length {
                Some((loc, (id_1 + 1) as u8))
            } else {
                None
            }
        },
        _ => None,
    }
}

/// All override writes of a collision vector, in order.
pub open spec fn override_writes(cs: Seq<Collision>) -> Seq<(Point, u8)>
    decreases cs.len(),
{
    if cs.len() == 0 {
        Seq::empty()
    } else {
        override_writes(cs.drop_last()) + (match override_write(cs.last()) {
            Some(wr) => seq![wr],
            None => Seq::empty(),
        })
    }
}

/// The writes of one displacement: clear the shed tail, mark the head.
pub open spec fn displacement_write(d: Displacement) -> Seq<(Point, u8)> {
    (match d.1.0 {
        Some(t) => seq![(t, 0u8)],
        None => Seq::empty(),
    }).push((d.1.1, (d.0 + 1) as u8))
}

/// All writes of a displacement vector, in order.
pub open spec fn displacement_writes(ds: Seq<Displacement>) -> Seq<(Point, u8)>
    decreases ds.len(),
{
    if ds.len() == 0 {
        Seq::empty()
    } else {
        displacement_writes(ds.drop_last()) + displacement_write(ds.last())
    }
}

/// The array after performing `ws` single-cell writes in order on a
/// `w`-wide row-major array.
pub open spec fn apply_writes(a: Seq<u8>, w: int, ws: Seq<(Point, u8)>) -> Seq<u8>
    decreases ws.len(),
{
    if ws.len() == 0 {
        a
    } else {
        apply_writes(a, w, ws.drop_last()).update(
            (ws.last().0.y as int) * w + (ws.last().0.x as int),
            ws.last().1,
        )
    }
}

/// Writes compose: applying a concatenation applies the parts in order.
pub proof fn lemma_apply_writes_app(
    a: Seq<u8>,
    w: int,
    ws1: Seq<(Point, u8)>,
    ws2: Seq<(Point, u8)>,
)
    ensures
        apply_writes(a, w, ws1 + ws2) == apply_writes(apply_writes(a, w, ws1), w, ws2),
    decreases ws2.len(),
{
    if ws2.len() == 0 {
        assert(ws1 + ws2 =~= ws1);
    } else {
        lemma_apply_writes_app(a, w, ws1, ws2.drop_last());
        assert((ws1 + ws2).drop_last() =~= ws1 + ws2.drop_last());
        assert((ws1 + ws2).last() == ws2.last());
    }
}

/// The occupancy matrix: a flat, row-major, one-byte-per-cell index of
/// which snake owns each cell.
#[derive(PartialEq, Eq, Debug, Clone)]
pub struct Matrice {
    pub height: usize,
    pub width: usize,
    pub array: Vec<u8>,
}

impl Matrice {
    /// Shape invariant: one byte per cell, sides within `MAX_DIM`.
    pub open spec fn wf(self) -> bool {
        &&& self.array@.len() == self.height * self.width
        &&& 1 <= self.height <= MAX_DIM
        &&& 1 <= self.width <= MAX_DIM
    }

    /// The raw value of cell `p`.
    pub open spec fn cell(self, p: Point) -> u8 {
        cell_at(self.array@, self.width as int, p.x as int, p.y as int)
    }

    /// The matrix agrees with `ss`: every in-bounds cell holds the code
    /// of its owner.
    pub open spec fn models(self, ss: Seq<SnakeV>) -> bool {
        forall|x: int, y: int|
            0 <= x < self.width && 0 <= y < self.height ==> cell_at(
                self.array@,
                self.width as int,
                x,
                y,
            ) == owner_code(ss, pt(x, y))
    }

    /// A fresh matrix indexing every snake body by its id.
    pub fn new(snakes: &Vec<Snake>, height: usize, width: usize) -> (r: Matrice)
        requires
            1 <= height <= MAX_DIM,
            1 <= width <= MAX_DIM,
            snakes@.len() <= 255,
            forall|i: int| 0 <= i < snakes@.len() ==> (#[trigger] snakes@[i])@.wf(),
            forall|i: int, k: int|
                0 <= i < snakes@.len() && !snakes@[i]@.is_dead() && 0 <= k
                    < snakes@[i]@.body.len() ==> in_bounds(
                    width as int,
                    height as int,
                    #[trigger] snakes@[i]@.body[k],
                ),
            bodies_disjoint(snakes@.map_values(|s: Snake| s@)),
        ensures
            r.wf(),
            r.height == height,
            r.width == width,
            r.models(snakes@.map_values(|s: Snake| s@)),
    {
        let ghost ss = snakes@.map_values(|s: Snake| s@);
        proof {
            lemma_dims_fit(height as int, width as int);
        }
        let mut array: Vec<u8> = vec![0u8; height * width];
        proof {
            assert forall|x: int, y: int| 0 <= x < width && 0 <= y < height implies cell_at(
                array@,
                width as int,
                x,
                y,
            ) == owner_code_upto(ss, pt(x, y), 0) by {
                lemma_rm_index(width as int, height as int, x, y);
            }
        }
        let mut id: usize = 0;
        while id < snakes.len()
            invariant
                ss == snakes@.map_values(|s: Snake| s@),
                snakes@.len() <= 255,
                0 <= id <= snakes@.len(),
                1 <= height <= MAX_DIM,
                1 <= width <= MAX_DIM,
                array@.len() == height * width,
                forall|i: int| 0 <= i < snakes@.len() ==> (#[trigger] snakes@[i])@.wf(),
                forall|i: int, k: int|
                    0 <= i < snakes@.len() && !snakes@[i]@.is_dead() && 0 <= k
                        < snakes@[i]@.body.len() ==> in_bounds(
                        width as int,
                        height as int,
                        #[trigger] snakes@[i]@.body[k],
                    ),
                bodies_disjoint(ss),
                forall|x: int, y: int|
                    0 <= x < width && 0 <= y < height ==> cell_at(array@, width as int, x, y)
                        == owner_code_upto(ss, pt(x, y), id as int),
            decreases snakes@.len() - id,
        {
            let body_len = snakes[id].body.len();
            proof {
                if snakes@[id as int]@.is_dead() {
                    assert(snakes@[id as int]@.body.len() == 0);
                }
                assert(ss[id as int] == snakes@[id as int]@);
            }
            let mut k: usize = 0;
            while k < body_len
                invariant
                    ss == snakes@.map_values(|s: Snake| s@),
                    0 <= id < snakes@.len(),
                    snakes@.len() <= 255,
                    body_len == snakes@[id as int]@.body.len(),
                    body_len > 0 ==> !snakes@[id as int]@.is_dead(),
                    0 <= k <= body_len,
                    1 <= height <= MAX_DIM,
                    1 <= width <= MAX_DIM,
                    array@.len() == height * width,
                    forall|i: int, k2: int|
                        0 <= i < snakes@.len() && !snakes@[i]@.is_dead() && 0 <= k2
                            < snakes@[i]@.body.len() ==> in_bounds(
                            width as int,
                            height as int,
                            #[trigger] snakes@[i]@.body[k2],
                        ),
                    bodies_disjoint(ss),
                    forall|x: int, y: int|
                        0 <= x < width && 0 <= y < height ==> cell_at(array@, width as int, x, y)
                            == (if exists|l: int|
                            0 <= l < k && ss[id as int].body[l] == pt(x, y) {
                            (id + 1) as u8
                        } else {
                            owner_code_upto(ss, pt(x, y), id as int)
                        }),
                decreases body_len - k,
            {
                let p = snakes[id].body[k];
                proof {
                    assert(ss[id as int] == snakes@[id as int]@);
                    assert(ss[id as int].body[k as int] == p);
                    assert(in_bounds(width as int, height as int, p));
                    lemma_dims_fit(height as int, width as int);
                    lemma_rm_index(width as int, height as int, p.x as int, p.y as int);
                }
                let idx: usize = (p.y as usize) * width + (p.x as usize);
                let ghost old_array = array@;
                array[idx] = (id as u8) + 1;
                proof {
                    assert forall|x: int, y: int| 0 <= x < width && 0 <= y < height implies cell_at(
                        array@,
                        width as int,
                        x,
                        y,
                    ) == (if exists|l: int| 0 <= l < k + 1 && ss[id as int].body[l] == pt(x, y) {
                        (id + 1) as u8
                    } else {
                        owner_code_upto(ss, pt(x, y), id as int)
                    }) by {
                        lemma_rm_index(width as int, height as int, x, y);
                        lemma_rm_injective(
                            width as int,
                            height as int,
                            x,
                            y,
                            p.x as int,
                            p.y as int,
                        );
                        if x == p.x as int && y == p.y as int {
                            assert(pt(x, y) == p);
                            assert(ss[id as int].body[k as int] == pt(x, y));
                        } else {
                            assert(pt(x, y) != p);
                            assert(cell_at(array@, width as int, x, y) == cell_at(
                                old_array,
                                width as int,
                                x,
                                y,
                            ));
                            if exists|l: int| 0 <= l < k + 1 && ss[id as int].body[l] == pt(x, y) {
                                let l = choose|l: int|
                                    0 <= l < k + 1 && ss[id as int].body[l] == pt(x, y);
                                assert(l < k);
                            }
                        }
                    }
                }
                k = k + 1;
            }
            proof {
                assert forall|x: int, y: int| 0 <= x < width && 0 <= y < height implies cell_at(
                    array@,
                    width as int,
                    x,
                    y,
                ) == owner_code_upto(ss, pt(x, y), id as int + 1) by {
                    let p2 = pt(x, y);
                    if exists|l: int| 0 <= l < body_len && ss[id as int].body[l] == p2 {
                        assert(ss[id as int].covers(p2));
                        assert(first_owner_upto(ss, p2, id as int) is None) by {
                            if first_owner_upto(ss, p2, id as int) is Some {
                                let j = first_owner_upto(ss, p2, id as int)->Some_0;
                                lemma_owner_covers(ss, p2, id as int, j);
                                let k2 = choose|k2: int|
                                    0 <= k2 < ss[j].body.len() && ss[j].body[k2] == p2;
                                assert(no_shared_cell(ss[j], ss[id as int]));
                                assert(!ss[id as int].covers(ss[j].body[k2]));
                            }
                        }
                    } else {
                        assert(!ss[id as int].covers(p2));
                    }
                }
            }
            id = id + 1;
        }
        Matrice { height, width, array }
    }

    /// The raw cell array, row-major.
    pub fn array(&self) -> (r: &Vec<u8>)
        ensures
            r@ == self.array@,
    {
        &self.array
    }

    /// The id owning cell `p`, or `None` for an empty cell.
    pub fn get(&self, p: Point) -> (r: Option<CellValue>)
        requires
            self.wf(),
            in_bounds(self.width as int, self.height as int, p),
        ensures
            r == (if self.cell(p) == 0 {
                None::<CellValue>
            } else {
                Some((self.cell(p) - 1) as u8)
            }),
    {
        proof {
            lemma_dims_fit(self.height as int, self.width as int);
            lemma_rm_index(self.width as int, self.height as int, p.x as int, p.y as int);
        }
        let v = self.array[(p.y as usize) * self.width + (p.x as usize)];
        if v == 0 {
            None
        } else {
            Some(v - 1)
        }
    }

    /// Marks cell `p` as owned by snake `v`.
    pub fn mark_snake(&mut self, v: SnakeId, p: Point)
        requires
            old(self).wf(),
            in_bounds(old(self).width as int, old(self).height as int, p),
            v < 255,
        ensures
            final(self).wf(),
            final(self).height == old(self).height,
            final(self).width == old(self).width,
            final(self).array@ == old(self).array@.update(
                (p.y as int) * (old(self).width as int) + (p.x as int),
                (v + 1) as u8,
            ),
    {
        proof {
            lemma_dims_fit(self.height as int, self.width as int);
            lemma_rm_index(self.width as int, self.height as int, p.x as int, p.y as int);
        }
        let idx: usize = (p.y as usize) * self.width + (p.x as usize);
        self.array[idx] = v + 1;
    }

    /// Marks cell `p` as empty.
    fn mark_empty(&mut self, p: Point)
        requires
            old(self).wf(),
            in_bounds(old(self).width as int, old(self).height as int, p),
        ensures
            final(self).wf(),
            final(self).height == old(self).height,
            final(self).width == old(self).width,
            final(self).array@ == old(self).array@.update(
                (p.y as int) * (old(self).width as int) + (p.x as int),
                0u8,
            ),
    {
        proof {
            lemma_dims_fit(self.height as int, self.width as int);
            lemma_rm_index(self.width as int, self.height as int, p.x as int, p.y as int);
        }
        let idx: usize = (p.y as usize) * self.width + (p.x as usize);
        self.array[idx] = 0;
    }

    /// Applies one turn's bookkeeping to the index: first the collision
    /// overrides, so the surviving snake of a contested cell keeps it,
    /// then each displacement (clear the shed tail, mark the new head),
    /// in order.
    pub fn update(&mut self, displacements: Vec<Displacement>, collisions: &Vec<Collision>)
        requires
            old(self).wf(),
            forall|i: int|
                0 <= i < collisions@.len() ==> match #[trigger] collisions@[i] {
                    Collision::OtherBody { id_2, loc, .. } => id_2 < 255 && in_bounds(
                        old(self).width as int,
                        old(self).height as int,
                        loc,
                    ),
                    Collision::HeadToHead { id_1, id_2, loc, .. } => id_1 < 255 && id_2 < 255
                        && in_bounds(old(self).width as int, old(self).height as int, loc),
                    _ => true,
                },
            forall|i: int|
                0 <= i < displacements@.len() ==> (#[trigger] displacements@[i]).0 < 255
                    && in_bounds(
                    old(self).width as int,
                    old(self).height as int,
                    displacements@[i].1.1,
                ) && (displacements@[i].1.0 matches Some(t) ==> in_bounds(
                    old(self).width as int,
                    old(self).height as int,
                    t,
                )),
        ensures
            final(self).wf(),
            final(self).height == old(self).height,
            final(self).width == old(self).width,
            final(self).array@ == apply_writes(
                old(self).array@,
                old(self).width as int,
                override_writes(collisions@) + displacement_writes(displacements@),
            ),
    {
        let ghost a0 = self.array@;
        let ghost w = self.width as int;
        let ghost cs = collisions@;
        let ghost ds = displacements@;

        let mut i: usize = 0;
        while i < collisions.len()
            invariant
                self.wf(),
                self.height == old(self).height,
                self.width == old(self).width,
                a0 == old(self).array@,
                cs == collisions@,
                0 <= i <= cs.len(),
                w == self.width as int,
                self.array@ == apply_writes(a0, w, override_writes(cs.take(i as int))),
                forall|k: int|
                    0 <= k < collisions@.len() ==> match #[trigger] collisions@[k] {
                        Collision::OtherBody { id_2, loc, .. } => id_2 < 255 && in_bounds(
                            self.width as int,
                            self.height as int,
                            loc,
                        ),
                        Collision::HeadToHead { id_1, id_2, loc, .. } => id_1 < 255 && id_2 < 255
                            && in_bounds(self.width as int, self.height as int, loc),
                        _ => true,
                    },
            decreases cs.len() - i,
        {
            proof {
                assert(cs.take(i as int + 1).drop_last() =~= cs.take(i as int));
                assert(cs.take(i as int + 1).last() == cs[i as int]);
            }
            let c = &collisions[i];
            match *c {
                Collision::OtherBody { id_2, loc, .. } => {
                    self.mark_snake(id_2 as u8, loc);
                },
                Collision::HeadToHead { src_length, dst_length, id_1, id_2, loc } => {
                    if src_length < dst_length {
                        self.mark_snake(id_2 as u8, loc);
                    } else if src_length > dst_length {
                        self.mark_snake(id_1 as u8, loc);
                    }
                },
                _ => {},
            }
            proof {
                let ow = override_writes(cs.take(i as int + 1));
                match override_write(cs[i as int]) {
                    Some(wr) => {
                        assert(ow.drop_last() =~= override_writes(cs.take(i as int)));
                        assert(ow.last() == wr);
                    },
                    None => {
                        assert(ow =~= override_writes(cs.take(i as int)));
                    },
                }
            }
            i = i + 1;
        }
        proof {
            assert(cs.take(cs.len() as int) =~= cs);
        }

        let ghost a1 = self.array@;
        let mut j: usize = 0;
        while j < displacements.len()
            invariant
                self.wf(),
                self.height == old(self).height,
                self.width == old(self).width,
                ds == displacements@,
                0 <= j <= ds.len(),
                w == self.width as int,
                a1 == apply_writes(a0, w, override_writes(cs)),
                a0 == old(self).array@,
                cs == collisions@,
                self.array@ == apply_writes(a1, w, displacement_writes(ds.take(j as int))),
                forall|k: int|
                    0 <= k < displacements@.len() ==> (#[trigger] displacements@[k]).0 < 255
                        && in_bounds(
                        self.width as int,
                        self.height as int,
                        displacements@[k].1.1,
                    ) && (displacements@[k].1.0 matches Some(t) ==> in_bounds(
                        self.width as int,
                        self.height as int,
                        t,
                    )),
            decreases ds.len() - j,
        {
            proof {
                assert(ds.take(j as int + 1).drop_last() =~= ds.take(j as int));
                assert(ds.take(j as int + 1).last() == ds[j as int]);
            }
            let (idx_s, (tail, to)) = displacements[j];
            let ghost before = self.array@;
            if let Some(t) = tail {
                self.mark_empty(t);
            }
            self.mark_snake(idx_s, to);
            proof {
                let d = ds[j as int];
                let dw = displacement_write(d);
                let full = displacement_writes(ds.take(j as int + 1));
                let prev = apply_writes(a1, w, displacement_writes(ds.take(j as int)));
                let to = d.1.1;
                let vcode = (d.0 + 1) as u8;
                assert(full =~= displacement_writes(ds.take(j as int)) + dw);
                assert(before == prev);
                match d.1.0 {
                    Some(t) => {
                        assert(full.drop_last() =~= displacement_writes(ds.take(j as int)).push(
                            (t, 0u8),
                        ));
                        assert(full.drop_last().drop_last() =~= displacement_writes(
                            ds.take(j as int),
                        ));
                        assert(full.drop_last().last() == (t, 0u8));
                        assert(full.last() == (to, vcode));
                        assert(apply_writes(a1, w, full.drop_last()) == prev.update(
                            (t.y as int) * w + (t.x as int),
                            0u8,
                        ));
                        assert(apply_writes(a1, w, full) == apply_writes(
                            a1,
                            w,
                            full.drop_last(),
                        ).update((to.y as int) * w + (to.x as int), vcode));
                        assert(self.array@ == apply_writes(a1, w, full));
                    },
                    None => {
                        assert(full.drop_last() =~= displacement_writes(ds.take(j as int)));
                        assert(full.last() == (to, vcode));
                        assert(apply_writes(a1, w, full) == prev.update(
                            (to.y as int) * w + (to.x as int),
                            vcode,
                        ));
                        assert(self.array@ == apply_writes(a1, w, full));
                    },
                }
            }
            j = j + 1;
        }
        proof {
            assert(ds.take(ds.len() as int) =~= ds);
            lemma_apply_writes_app(a0, w, override_writes(cs), displacement_writes(ds));
        }
    }

    /// Clears every in-bounds cell among `points`; cells outside the
    /// board are ignored.
    pub fn remove_points(&mut self, points: &VecDeque<Point>)
        requires
            old(self).wf(),
        ensures
            final(self).wf(),
            final(self).height == old(self).height,
            final(self).width == old(self).width,
            forall|x: int, y: int|
                0 <= x < old(self).width && 0 <= y < old(self).height ==> cell_at(
                    final(self).array@,
                    old(self).width as int,
                    x,
                    y,
                ) == (if exists|k: int| 0 <= k < points@.len() && points@[k] == pt(x, y) {
                    0u8
                } else {
                    cell_at(old(self).array@, old(self).width as int, x, y)
                }),
    {
        let h = self.height;
        let w = self.width;
        let n = points.len();
        let mut i: usize = 0;
        while i < n
            invariant
                self.wf(),
                self.height == h,
                self.width == w,
                h == old(self).height,
                w == old(self).width,
                n == points@.len(),
                0 <= i <= n,
                forall|x: int, y: int|
                    0 <= x < w && 0 <= y < h ==> cell_at(self.array@, w as int, x, y) == (
                    if exists|k: int| 0 <= k < i && points@[k] == pt(x, y) {
                        0u8
                    } else {
                        cell_at(old(self).array@, w as int, x, y)
                    }),
                old(self).array@.len() == h * w,
            decreases n - i,
        {
            let p = points[i];
            let ghost a_in = self.array@;
            let ghost orig = old(self).array@;
            if p.x >= 0 && (p.x as usize) < w && p.y >= 0 && (p.y as usize) < h {
                self.mark_empty(p);
            }
            proof {
                assert(points@[i as int] == p);
                assert forall|x: int, y: int| 0 <= x < w && 0 <= y < h implies cell_at(
                    self.array@,
                    w as int,
                    x,
                    y,
                ) == (if exists|k: int| 0 <= k < i + 1 && points@[k] == pt(x, y) {
                    0u8
                } else {
                    cell_at(orig, w as int, x, y)
                }) by {
                    lemma_rm_index(w as int, h as int, x, y);
                    if in_bounds(w as int, h as int, p) {
                        lemma_rm_index(w as int, h as int, p.x as int, p.y as int);
                        lemma_rm_injective(w as int, h as int, x, y, p.x as int, p.y as int);
                        assert(self.array@ == a_in.update(
                            (p.y as int) * (w as int) + (p.x as int),
                            0u8,
                        ));
                        if x == p.x as int && y == p.y as int {
                            assert(pt(x, y) == p);
                            assert(points@[i as int] == pt(x, y));
                            assert(cell_at(self.array@, w as int, x, y) == 0u8);
                        } else {
                            assert(pt(x, y) != p);
                            assert(y * (w as int) + x != (p.y as int) * (w as int) + (p.x as int));
                            assert(cell_at(self.array@, w as int, x, y) == cell_at(
                                a_in,
                                w as int,
                                x,
                                y,
                            ));
                            if exists|k: int| 0 <= k < i + 1 && points@[k] == pt(x, y) {
                                let k = choose|k: int| 0 <= k < i + 1 && points@[k] == pt(x, y);
                                assert(k < i);
                                assert(exists|k2: int| 0 <= k2 < i && points@[k2] == pt(x, y));
                            }
                        }
                    } else {
                        assert(self.array@ == a_in);
                        if pt(x, y) == p {
                            assert(0 <= p.x && (p.x as int) < w as int && 0 <= p.y && (p.y as int) < h as int);
                            assert(in_bounds(w as int, h as int, p));
                        }
                        assert(pt(x, y) != p);
                        if exists|k: int| 0 <= k < i + 1 && points@[k] == pt(x, y) {
                            let k = choose|k: int| 0 <= k < i + 1 && points@[k] == pt(x, y);
                            assert(k < i);
                            assert(exists|k2: int| 0 <= k2 < i && points@[k2] == pt(x, y));
                        }
                    }
                }
            }
            i = i + 1;
        }
    }
}

} // verus!
