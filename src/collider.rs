//! Colliders: sets of moving shapes that are tested against each other.
use itertools::Itertools;
use smallvec::SmallVec;
use vstd::prelude::*;

use crate::bounding_box::{origin_box, BoundingBox};
use crate::geom::Point;
use crate::shape::{
    extents, fits_shape, lemma_extents_ordered, push_bounded, push_less, shape_collision,
    shape_within, transformed, Push, Shape, ShapeView, ShiftedShape,
};
use crate::transform::Transform;
use crate::util::{update_max_point, update_min_point};

verus! {

/// One collision, as recorded on one of the two colliders.
#[derive(Clone, Copy, Debug, PartialEq, Eq, Structural)]
pub struct Collision {
    /// Handle of the entity collided with.
    pub other_entity: usize,
    /// The push that moves the other entity out of this one.
    pub mpv: Push,
}

/// What an entity collides with the world through.
#[derive(Debug)]
pub struct Collider {
    /// Shapes that make up the collider.
    shapes: ShapeList,
    /// Solid colliders are bounced off of; others can be passed through.
    solid: bool,
    /// Collisions recorded since the last `update`.
    recent_collisions: Vec<Collision>,
    /// Bounding box of all shapes, as of the last `update`.
    bounding_box: BoundingBox,
}

/// A collider's shapes, held in a `smallvec::SmallVec` that keeps up to two
/// inline. Verus sees only what `shapes_held` says of it.
#[verifier::external_body]
#[derive(Debug)]
pub struct ShapeList {
    v: SmallVec<[ShiftedShape; 2]>,
}

/// The shapes that a list holds, in order.
pub uninterp spec fn shapes_held(v: ShapeList) -> Seq<ShiftedShape>;

/// Relies on `SmallVec::from_vec`: the small vector holds the items of `v`,
/// in order.
#[verifier::external_body]
fn shapes_from_vec(v: Vec<ShiftedShape>) -> (r: ShapeList)
    ensures
        shapes_held(r) == v@,
{
    ShapeList { v: SmallVec::from_vec(v) }
}

/// Relies on `SmallVec::len`: the number of items held.
#[verifier::external_body]
fn shapes_len(v: &ShapeList) -> (r: usize)
    ensures
        r == shapes_held(*v).len(),
{
    v.v.len()
}

/// Relies on `SmallVec`'s `Index`: the item at `i`.
#[verifier::external_body]
fn shape_at(v: &ShapeList, i: usize) -> (r: &ShiftedShape)
    requires
        i < shapes_held(*v).len(),
    ensures
        *r == shapes_held(*v)[i as int],
{
    &v.v[i]
}

/// Relies on `SmallVec`'s `IndexMut`: the item at `i`, changed in place.
#[verifier::external_body]
fn shape_at_mut(v: &mut ShapeList, i: usize) -> (r: &mut ShiftedShape)
    requires
        i < shapes_held(*old(v)).len(),
    ensures
        *r == shapes_held(*old(v))[i as int],
        shapes_held(*final(v)) == shapes_held(*old(v)).update(i as int, *final(r)),
{
    &mut v.v[i]
}

/// A buffer of `n * m` index pairs fits in memory: its size in bytes, at
/// most 16 a pair, does not exceed `isize::MAX`.
pub open spec fn pairs_fit(n: int, m: int) -> bool {
    n * m * 16 <= isize::MAX
}

/// The longer of the push found so far and a new result, keeping the earlier
/// one where neither is longer.
pub open spec fn keep_longer(cur: Option<Push>, r: Option<Push>) -> Option<Push> {
    match r {
        None => cur,
        Some(m) => match cur {
            None => Some(m),
            Some(c) => if push_less(c, m) {
                Some(m)
            } else {
                Some(c)
            },
        },
    }
}

/// `acc` folded with the collisions of `s` against each of `bs`, in order.
pub open spec fn row_fold(acc: Option<Push>, s: ShapeView, bs: Seq<ShapeView>) -> Option<Push>
    decreases bs.len(),
{
    if bs.len() == 0 {
        acc
    } else {
        keep_longer(row_fold(acc, s, bs.drop_last()), shape_collision(s, bs.last()))
    }
}

/// The longest push over every pair of a shape of `a_shapes` and one of
/// `b_shapes`, taken `a_shapes`-major.
pub open spec fn longest_push(a_shapes: Seq<ShapeView>, b_shapes: Seq<ShapeView>) -> Option<Push>
    decreases a_shapes.len(),
{
    if a_shapes.len() == 0 {
        None
    } else {
        row_fold(longest_push(a_shapes.drop_last(), b_shapes), a_shapes.last(), b_shapes)
    }
}

/// The narrow-phase test between two colliders: the longest push over all
/// pairs of their shapes, where some pair collides with a push that is not
/// zero.
pub open spec fn collider_collision(a_shapes: Seq<ShapeView>, b_shapes: Seq<ShapeView>) -> Option<
    Push,
> {
    match longest_push(a_shapes, b_shapes) {
        Some(p) => if p.depth != 0 {
            Some(p)
        } else {
            None
        },
        None => None,
    }
}

/// The bounding box of all the shapes of `shapes`.
pub open spec fn bbox_of(shapes: Seq<ShapeView>) -> BoundingBox
    decreases shapes.len(),
{
    if shapes.len() <= 1 {
        BoundingBox { min: extents(shapes[0]).0, max: extents(shapes[0]).1 }
    } else {
        let b = bbox_of(shapes.drop_last());
        let e = extents(shapes.last());
        BoundingBox {
            min: Point {
                x: if e.0.x < b.min.x {
                    e.0.x
                } else {
                    b.min.x
                },
                y: if e.0.y < b.min.y {
                    e.0.y
                } else {
                    b.min.y
                },
            },
            max: Point {
                x: if e.1.x > b.max.x {
                    e.1.x
                } else {
                    b.max.x
                },
                y: if e.1.y > b.max.y {
                    e.1.y
                } else {
                    b.max.y
                },
            },
        }
    }
}

/// The pairs `(i, j)` with `i < n` and `j < m`, in order of `i` and then of `j`.
pub open spec fn index_pairs_spec(n: int, m: int) -> Seq<(usize, usize)>
    decreases n,
{
    if n <= 0 {
        Seq::empty()
    } else {
        index_pairs_spec(n - 1, m) + Seq::new(m as nat, |j: int| ((n - 1) as usize, j as usize))
    }
}

/// Relies on itertools' `Itertools::cartesian_product`: over the ranges
/// `0..n` and `0..m` it yields every pair `(i, j)`, `i`-major.
#[verifier::external_body]
fn index_pairs(n: usize, m: usize) -> (r: Vec<(usize, usize)>)
    requires
        pairs_fit(n as int, m as int),
    ensures
        r@ == index_pairs_spec(n as int, m as int),
{
    (0..n).cartesian_product(0..m).collect()
}

proof fn lemma_index_pairs_bounds(n: int, m: int)
    requires
        n >= 0,
        m >= 0,
        n <= usize::MAX,
        m <= usize::MAX,
    ensures
        forall|q: int|
            0 <= q < index_pairs_spec(n, m).len() ==> (#[trigger] index_pairs_spec(n, m)[q]).0 < n
                && index_pairs_spec(n, m)[q].1 < m,
    decreases n,
{
    if n > 0 {
        lemma_index_pairs_bounds(n - 1, m);
        let prev = index_pairs_spec(n - 1, m);
        let row = Seq::new(m as nat, |j: int| ((n - 1) as usize, j as usize));
        assert forall|q: int| 0 <= q < (prev + row).len() implies (#[trigger] (prev + row)[q]).0 < n
            && (prev + row)[q].1 < m by {
            if q < prev.len() {
                assert((prev + row)[q] == prev[q]);
            } else {
                assert((prev + row)[q] == row[q - prev.len()]);
            }
        }
    }
}

/// `acc` folded with the collisions of the shape pairs that `ps` indexes.
pub open spec fn pair_fold(
    acc: Option<Push>,
    a_shapes: Seq<ShapeView>,
    b_shapes: Seq<ShapeView>,
    ps: Seq<(usize, usize)>,
) -> Option<Push>
    decreases ps.len(),
{
    if ps.len() == 0 {
        acc
    } else {
        keep_longer(
            pair_fold(acc, a_shapes, b_shapes, ps.drop_last()),
            shape_collision(a_shapes[ps.last().0 as int], b_shapes[ps.last().1 as int]),
        )
    }
}

proof fn lemma_pair_fold_concat(
    acc: Option<Push>,
    a_shapes: Seq<ShapeView>,
    b_shapes: Seq<ShapeView>,
    xs: Seq<(usize, usize)>,
    ys: Seq<(usize, usize)>,
)
    ensures
        pair_fold(acc, a_shapes, b_shapes, xs + ys) == pair_fold(
            pair_fold(acc, a_shapes, b_shapes, xs),
            a_shapes,
            b_shapes,
            ys,
        ),
    decreases ys.len(),
{
    if ys.len() == 0 {
        assert(xs + ys =~= xs);
    } else {
        assert((xs + ys).drop_last() =~= xs + ys.drop_last());
        assert((xs + ys).last() == ys.last());
        lemma_pair_fold_concat(acc, a_shapes, b_shapes, xs, ys.drop_last());
    }
}

proof fn lemma_pair_fold_row(
    acc: Option<Push>,
    a_shapes: Seq<ShapeView>,
    b_shapes: Seq<ShapeView>,
    i: int,
    m: int,
)
    requires
        0 <= i < a_shapes.len(),
        0 <= m <= b_shapes.len(),
        i <= usize::MAX,
        b_shapes.len() <= usize::MAX,
    ensures
        pair_fold(
            acc,
            a_shapes,
            b_shapes,
            Seq::new(m as nat, |j: int| (i as usize, j as usize)),
        ) == row_fold(acc, a_shapes[i], b_shapes.subrange(0, m)),
    decreases m,
{
    let row = Seq::new(m as nat, |j: int| (i as usize, j as usize));
    if m > 0 {
        assert(row.drop_last() =~= Seq::new((m - 1) as nat, |j: int| (i as usize, j as usize)));
        lemma_pair_fold_row(acc, a_shapes, b_shapes, i, m - 1);
        assert(b_shapes.subrange(0, m).drop_last() =~= b_shapes.subrange(0, m - 1));
        assert(row.last() == (i as usize, (m - 1) as usize));
    }
}

proof fn lemma_pair_fold_longest(a_shapes: Seq<ShapeView>, b_shapes: Seq<ShapeView>, n: int)
    requires
        0 <= n <= a_shapes.len(),
        a_shapes.len() <= usize::MAX,
        b_shapes.len() <= usize::MAX,
    ensures
        pair_fold(None, a_shapes, b_shapes, index_pairs_spec(n, b_shapes.len() as int))
            == longest_push(a_shapes.subrange(0, n), b_shapes),
    decreases n,
{
    let m = b_shapes.len() as int;
    if n > 0 {
        lemma_pair_fold_longest(a_shapes, b_shapes, n - 1);
        let prev = index_pairs_spec(n - 1, m);
        let row = Seq::new(m as nat, |j: int| ((n - 1) as usize, j as usize));
        lemma_pair_fold_concat(None, a_shapes, b_shapes, prev, row);
        lemma_pair_fold_row(
            pair_fold(None, a_shapes, b_shapes, prev),
            a_shapes,
            b_shapes,
            n - 1,
            m,
        );
        assert(b_shapes.subrange(0, m) =~= b_shapes);
        assert(a_shapes.subrange(0, n).drop_last() =~= a_shapes.subrange(0, n - 1));
        assert(a_shapes.subrange(0, n).last() == a_shapes[n - 1]);
    } else {
        assert(index_pairs_spec(0, m) =~= Seq::<(usize, usize)>::empty());
    }
}

fn keep_longer_exec(cur: Option<Push>, r: Option<Push>) -> (out: Option<Push>)
    requires
        cur.is_some() ==> push_bounded(cur.unwrap()),
        r.is_some() ==> push_bounded(r.unwrap()),
    ensures
        out == keep_longer(cur, r),
        out.is_some() ==> push_bounded(out.unwrap()),
{
    match r {
        None => cur,
        Some(m) => match cur {
            None => Some(m),
            Some(c) => if c.shorter_than(&m) {
                Some(m)
            } else {
                Some(c)
            },
        },
    }
}

impl Collider {
    /// The shapes in their local space.
    pub closed spec fn originals(&self) -> Seq<ShapeView> {
        shapes_held(self.shapes).map_values(|s: ShiftedShape| s.original())
    }

    /// The shapes as they stand in the world.
    pub closed spec fn currents(&self) -> Seq<ShapeView> {
        shapes_held(self.shapes).map_values(|s: ShiftedShape| s.current())
    }

    /// Collisions recorded since the last `update`.
    pub closed spec fn recent(&self) -> Seq<Collision> {
        self.recent_collisions@
    }

    /// Solid colliders are bounced off of; others can be passed through.
    pub closed spec fn solid(&self) -> bool {
        self.solid
    }

    pub closed spec fn bbox(&self) -> BoundingBox {
        self.bounding_box
    }

    /// The collider has at least one shape, and every shape is well formed.
    pub closed spec fn wf(&self) -> bool {
        &&& 1 <= shapes_held(self.shapes).len()
        &&& forall|i: int| 0 <= i < shapes_held(self.shapes).len() ==> (#[trigger] shapes_held(self.shapes)[i]).wf()
    }

    /// Creates a collider that can be passed through from `shapes`, which
    /// must not be empty.
    pub fn nonsolid_from_shapes(shapes: Vec<Shape>) -> (r: Collider)
        requires
            1 <= shapes@.len(),
            forall|i: int| 0 <= i < shapes@.len() ==> (#[trigger] shapes@[i]).wf(),
        ensures
            r.wf(),
            !r.solid(),
            r.originals() == shapes@.map_values(|s: Shape| s@),
            r.currents() == shapes@.map_values(|s: Shape| s@),
            r.recent() == Seq::<Collision>::empty(),
            r.bbox() == origin_box(),
    {
        let n = shapes.len();
        let mut src = shapes;
        let mut rev: Vec<ShiftedShape> = Vec::with_capacity(n);
        let ghost orig = src@;
        while src.len() > 0
            invariant
                src@ == orig.subrange(0, src@.len() as int),
                rev@.len() + src@.len() == orig.len(),
                forall|i: int| 0 <= i < orig.len() ==> (#[trigger] orig[i]).wf(),
                forall|k: int|
                    0 <= k < rev@.len() ==> (#[trigger] rev@[k]).wf() && rev@[k].original()
                        == orig[orig.len() - 1 - k]@ && rev@[k].current() == orig[orig.len() - 1
                        - k]@,
            decreases src@.len(),
        {
            let s = src.pop().unwrap();
            proof {
                assert(s == orig[src@.len() as int]);
            }
            rev.push(ShiftedShape::from_original_shape(s));
        }
        let mut out: Vec<ShiftedShape> = Vec::with_capacity(n);
        while rev.len() > 0
            invariant
                rev@.len() + out@.len() == orig.len(),
                forall|k: int|
                    0 <= k < rev@.len() ==> (#[trigger] rev@[k]).wf() && rev@[k].original()
                        == orig[orig.len() - 1 - k]@ && rev@[k].current() == orig[orig.len() - 1
                        - k]@,
                forall|k: int|
                    0 <= k < out@.len() ==> (#[trigger] out@[k]).wf() && out@[k].original()
                        == orig[k]@ && out@[k].current() == orig[k]@,
            decreases rev@.len(),
        {
            let s = rev.pop().unwrap();
            out.push(s);
        }
        let r = Collider {
            shapes: shapes_from_vec(out),
            solid: false,
            recent_collisions: Vec::new(),
            bounding_box: BoundingBox::default(),
        };
        assert(r.originals() =~= orig.map_values(|s: Shape| s@));
        assert(r.currents() =~= orig.map_values(|s: Shape| s@));
        assert(r.recent() =~= Seq::<Collision>::empty());
        r
    }

    /// Creates a solid collider from `shapes`, which must not be empty.
    pub fn solid_from_shapes(shapes: Vec<Shape>) -> (r: Collider)
        requires
            1 <= shapes@.len(),
            forall|i: int| 0 <= i < shapes@.len() ==> (#[trigger] shapes@[i]).wf(),
        ensures
            r.wf(),
            r.solid(),
            r.originals() == shapes@.map_values(|s: Shape| s@),
            r.currents() == shapes@.map_values(|s: Shape| s@),
            r.recent() == Seq::<Collision>::empty(),
            r.bbox() == origin_box(),
    {
        let mut r = Collider::nonsolid_from_shapes(shapes);
        r.solid = true;
        r
    }

    /// Returns the collisions recorded since the last `update`.
    pub fn get_recent_collisions(&self) -> (r: &[Collision])
        ensures
            r@ == self.recent(),
    {
        self.recent_collisions.as_slice()
    }

    /// Whether the collider is solid.
    pub fn is_solid(&self) -> (r: bool)
        ensures
            r == self.solid(),
    {
        self.solid
    }

    /// The bounding box as of the last `update`.
    pub fn bounding_box(&self) -> (r: BoundingBox)
        ensures
            r == self.bbox(),
    {
        self.bounding_box
    }

    /// Places every shape by `transform`, recomputes the bounding box, and
    /// clears the recorded collisions.
    pub fn update(&mut self, transform: &Transform)
        requires
            old(self).wf(),
            forall|i: int|
                0 <= i < old(self).originals().len() ==> fits_shape(
                    #[trigger] old(self).originals()[i],
                    *transform,
                ),
        ensures
            final(self).wf(),
            final(self).originals() == old(self).originals(),
            final(self).currents() == old(self).originals().map_values(
                |s: ShapeView| transformed(s, *transform),
            ),
            final(self).recent() == Seq::<Collision>::empty(),
            final(self).bbox() == bbox_of(final(self).currents()),
            final(self).bbox().wf(),
            final(self).solid() == old(self).solid(),
            updated(*old(self), *final(self), *transform),
    {
        let ghost orig = self.originals();
        let ghost want = orig.map_values(|s: ShapeView| transformed(s, *transform));
        let n = shapes_len(&self.shapes);
        assert(fits_shape(orig[0], *transform));
        let (first_min, first_max) = shape_at_mut(&mut self.shapes, 0).update(transform);
        let mut min_point = first_min;
        let mut max_point = first_max;
        proof {
            assert(self.currents().subrange(0, 1).len() == 1);
        }
        let mut i: usize = 1;
        while i < n
            invariant
                n == shapes_held(self.shapes).len(),
                1 <= i <= n,
                orig == old(self).originals(),
                want == orig.map_values(|s: ShapeView| transformed(s, *transform)),
                forall|k: int| 0 <= k < orig.len() ==> fits_shape(#[trigger] orig[k], *transform),
                forall|k: int| 0 <= k < n ==> (#[trigger] shapes_held(self.shapes)[k]).wf(),
                self.originals() == orig,
                forall|k: int| 0 <= k < i ==> #[trigger] self.currents()[k] == want[k],
                self.solid == old(self).solid,
                bbox_of(self.currents().subrange(0, i as int)) == (BoundingBox {
                    min: min_point,
                    max: max_point,
                }),
            decreases n - i,
        {
            let ghost before = self.currents();
            let ghost before_shapes = shapes_held(self.shapes);
            assert(fits_shape(orig[i as int], *transform));
            let (a, b) = shape_at_mut(&mut self.shapes, i).update(transform);
            update_min_point(&mut min_point, a);
            update_max_point(&mut max_point, b);
            proof {
                assert(self.currents().subrange(0, i as int) =~= before.subrange(0, i as int));
                assert(self.currents().subrange(0, i + 1).drop_last() =~= self.currents().subrange(
                    0,
                    i as int,
                ));
                assert(self.originals() =~= orig);
                assert(shapes_held(self.shapes) == before_shapes.update(i as int, shapes_held(self.shapes)[i as int]));
                assert forall|k: int| 0 <= k < i + 1 implies #[trigger] self.currents()[k]
                    == want[k] by {
                    if k < i {
                        assert(shapes_held(self.shapes)[k] == before_shapes[k]);
                        assert(before[k] == want[k]);
                    }
                }
            }
            i = i + 1;
        }
        proof {
            assert(self.currents().subrange(0, n as int) =~= self.currents());
        }
        self.bounding_box = BoundingBox::from_min_max(min_point, max_point);
        self.recent_collisions.clear();
        proof {
            assert forall|k: int| 0 <= k < self.currents().len() implies shape_within(
                #[trigger] self.currents()[k],
            ) by {
                shapes_held(self.shapes)[k].lemma_wf();
            }
            lemma_bbox_ordered(self.currents());
        }
        assert(self.currents() =~= want);
        assert(self.recent() =~= Seq::<Collision>::empty());
    }

    /// Returns `Some(mpv)` where the colliders collide and `None` otherwise,
    /// `mpv` being the minimum push vector that moves `other` out of `self`.
    /// Of the pushes of all colliding pairs of shapes the longest is taken; a
    /// push of length zero counts as no collision.
    pub fn process_collision(&self, other: &Collider) -> (r: Option<Push>)
        requires
            self.wf(),
            other.wf(),
            pairs_fit(self.originals().len() as int, other.originals().len() as int),
        ensures
            r == collider_collision(self.currents(), other.currents()),
            r.is_some() ==> push_bounded(r.unwrap()),
    {
        let ghost a_sh = self.currents();
        let ghost b_sh = other.currents();
        let n = shapes_len(&self.shapes);
        let m = shapes_len(&other.shapes);
        let pairs = index_pairs(n, m);
        proof {
            lemma_index_pairs_bounds(n as int, m as int);
        }
        let mut cur: Option<Push> = None;
        let mut k: usize = 0;
        while k < pairs.len()
            invariant
                self.wf(),
                other.wf(),
                a_sh == self.currents(),
                b_sh == other.currents(),
                n == a_sh.len(),
                m == b_sh.len(),
                pairs@ == index_pairs_spec(n as int, m as int),
                forall|q: int|
                    0 <= q < pairs@.len() ==> (#[trigger] pairs@[q]).0 < n && pairs@[q].1 < m,
                k <= pairs@.len(),
                cur == pair_fold(None, a_sh, b_sh, pairs@.subrange(0, k as int)),
                cur.is_some() ==> push_bounded(cur.unwrap()),
            decreases pairs@.len() - k,
        {
            let (i, j) = pairs[k];
            proof {
                assert(pairs@[k as int].0 < n && pairs@[k as int].1 < m);
                assert(pairs@.subrange(0, k + 1).drop_last() =~= pairs@.subrange(0, k as int));
            }
            let r = shape_at(&self.shapes, i).process_collision(shape_at(&other.shapes, j));
            cur = keep_longer_exec(cur, r);
            k = k + 1;
        }
        proof {
            assert(pairs@.subrange(0, pairs@.len() as int) =~= pairs@);
            lemma_pair_fold_longest(a_sh, b_sh, n as int);
            assert(a_sh.subrange(0, n as int) =~= a_sh);
        }
        match cur {
            Some(p) => if p.depth != 0 {
                Some(p)
            } else {
                None
            },
            None => None,
        }
    }

    /// A new collider of the same shapes and solidity, placed by `transform`,
    /// with no collisions recorded.
    pub fn placed(&self, transform: &Transform) -> (r: Collider)
        requires
            self.wf(),
            forall|i: int|
                0 <= i < self.originals().len() ==> fits_shape(
                    #[trigger] self.originals()[i],
                    *transform,
                ),
        ensures
            r.wf(),
            r.originals() == self.originals(),
            r.currents() == self.originals().map_values(
                |s: ShapeView| transformed(s, *transform),
            ),
            r.solid() == self.solid(),
            r.recent() == Seq::<Collision>::empty(),
    {
        let n = shapes_len(&self.shapes);
        let mut v: Vec<Shape> = Vec::with_capacity(n);
        let mut i: usize = 0;
        while i < n
            invariant
                self.wf(),
                n == shapes_held(self.shapes).len(),
                i <= n,
                v@.len() == i,
                forall|k: int| 0 <= k < i ==> (#[trigger] v@[k]).wf(),
                forall|k: int| 0 <= k < i ==> (#[trigger] v@[k])@ == self.originals()[k],
            decreases n - i,
        {
            let s = shape_at(&self.shapes, i).original_shape_copy();
            v.push(s);
            i = i + 1;
        }
        proof {
            assert(v@.map_values(|s: Shape| s@) =~= self.originals());
        }
        let mut c = Collider::nonsolid_from_shapes(v);
        c.solid = self.solid;
        c.update(transform);
        c
    }

    /// Records a collision with `other_entity`.
    pub fn add_recent_collision(&mut self, other_entity: usize, mpv: Push)
        ensures
            final(self).recent() == old(self).recent().push(Collision { other_entity, mpv }),
            final(self).originals() == old(self).originals(),
            final(self).currents() == old(self).currents(),
            final(self).bbox() == old(self).bbox(),
            final(self).solid() == old(self).solid(),
            old(self).wf() ==> final(self).wf(),
    {
        self.recent_collisions.push(Collision { other_entity, mpv });
    }
}


/// The bounding box of well-formed shapes has its corners in order.
pub proof fn lemma_bbox_ordered(shapes: Seq<ShapeView>)
    requires
        shapes.len() >= 1,
        forall|k: int| 0 <= k < shapes.len() ==> shape_within(#[trigger] shapes[k]),
    ensures
        bbox_of(shapes).wf(),
    decreases shapes.len(),
{
    lemma_extents_ordered(shapes[shapes.len() - 1]);
    if shapes.len() > 1 {
        let init = shapes.drop_last();
        assert forall|k: int| 0 <= k < init.len() implies shape_within(#[trigger] init[k]) by {
            assert(init[k] == shapes[k]);
        }
        lemma_bbox_ordered(init);
    }
}

/// `c1` is what `c0.update(t)` leaves.
pub open spec fn updated(c0: Collider, c1: Collider, t: Transform) -> bool {
    &&& c1.wf()
    &&& c1.originals() == c0.originals()
    &&& c1.currents() == c0.originals().map_values(|s: ShapeView| transformed(s, t))
    &&& c1.recent() == Seq::<Collision>::empty()
    &&& c1.bbox() == bbox_of(c1.currents())
    &&& c1.solid() == c0.solid()
}

/// Updating a collider twice with the same transform, with no collision
/// test in between, gives the same shapes and bounding box both times, and
/// an empty collision list both times.
pub proof fn lemma_update_idempotent(c0: Collider, c1: Collider, c2: Collider, t: Transform)
    requires
        updated(c0, c1, t),
        updated(c1, c2, t),
    ensures
        c2.bbox() == c1.bbox(),
        c2.currents() == c1.currents(),
        c1.recent() == Seq::<Collision>::empty(),
        c2.recent() == Seq::<Collision>::empty(),
{
}


} // verus!
