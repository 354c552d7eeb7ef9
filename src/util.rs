use vstd::prelude::*;

use crate::geom::Point;

verus! {

/// The cyclic successor pairs of `s`: element `i` pairs with element `i + 1`,
/// and the last element pairs with the first.
pub open spec fn cyclic_pairs<T>(s: Seq<T>) -> Seq<(T, T)> {
    Seq::new(s.len(), |i: int| (s[i], s[(i + 1) % (s.len() as int)]))
}

/// Returns all pairs of consecutive elements of `v`, including `(last, first)`,
/// so the result has as many pairs as `v` has elements.
pub fn pairs<T: Copy>(v: &Vec<T>) -> (r: Vec<(T, T)>)
    ensures
        r@ == cyclic_pairs(v@),
{
    let n = v.len();
    let mut r: Vec<(T, T)> = Vec::with_capacity(n);
    let mut i: usize = 0;
    while i < n
        invariant
            n == v@.len(),
            i <= n,
            r@ =~= cyclic_pairs(v@).subrange(0, i as int),
        decreases n - i,
    {
        let next: usize = if i + 1 == n { 0 } else { i + 1 };
        proof {
            if i + 1 < n {
                vstd::arithmetic::div_mod::lemma_small_mod((i + 1) as nat, n as nat);
            } else {
                vstd::arithmetic::div_mod::lemma_mod_self_0(n as int);
            }
        }
        r.push((v[i], v[next]));
        i = i + 1;
    }
    r
}


/// The closed intervals `a` and `b` share at least one point.
pub open spec fn intervals_meet(a: (int, int), b: (int, int)) -> bool {
    a.0 <= b.1 && b.0 <= a.1
}

/// Tests whether the segments `[a.0, a.1]` and `[b.0, b.1]` intersect.
pub fn segments_intersect(a: (i128, i128), b: (i128, i128)) -> (r: bool)
    requires
        a.0 <= a.1,
        b.0 <= b.1,
    ensures
        r == intervals_meet((a.0 as int, a.1 as int), (b.0 as int, b.1 as int)),
{
    if a.0 < b.0 {
        a.1 >= b.0
    } else {
        b.1 >= a.0
    }
}

/// How far the interval that starts later reaches into the one that starts
/// first: the length of their intersection, unless one holds the other.
pub open spec fn overlap(a: (int, int), b: (int, int)) -> int {
    if a.0 < b.0 {
        a.1 - b.0
    } else {
        b.1 - a.0
    }
}

/// Tests whether the segments `[a.0, a.1]` and `[b.0, b.1]` intersect, and if
/// they do, returns how far the later one reaches into the earlier one (the
/// length of the intersection when neither contains the other).
pub fn segments_intersection(a: (i128, i128), b: (i128, i128)) -> (r: Option<i128>)
    requires
        a.0 <= a.1,
        b.0 <= b.1,
        -0x4000_0000_0000_0000_0000_0000_0000_0000 <= a.0,
        -0x4000_0000_0000_0000_0000_0000_0000_0000 <= b.0,
        a.1 <= 0x3fff_ffff_ffff_ffff_ffff_ffff_ffff_ffff,
        b.1 <= 0x3fff_ffff_ffff_ffff_ffff_ffff_ffff_ffff,
    ensures
        r.is_some() <==> overlap((a.0 as int, a.1 as int), (b.0 as int, b.1 as int)) >= 0,
        r.is_some() ==> r.unwrap() == overlap((a.0 as int, a.1 as int), (b.0 as int, b.1 as int)),
{
    let len: i128 = if a.0 < b.0 {
        a.1 - b.0
    } else {
        b.1 - a.0
    };
    if len >= 0 {
        Some(len)
    } else {
        None
    }
}

/// Lowers each coordinate of `min_point` to that of `point` where it is lower.
pub fn update_min_point(min_point: &mut Point, point: Point)
    ensures
        final(min_point).x == if point.x < old(min_point).x { point.x } else { old(min_point).x },
        final(min_point).y == if point.y < old(min_point).y { point.y } else { old(min_point).y },
{
    if point.x < min_point.x {
        min_point.x = point.x;
    }
    if point.y < min_point.y {
        min_point.y = point.y;
    }
}

/// Raises each coordinate of `max_point` to that of `point` where it is higher.
pub fn update_max_point(max_point: &mut Point, point: Point)
    ensures
        final(max_point).x == if point.x > old(max_point).x { point.x } else { old(max_point).x },
        final(max_point).y == if point.y > old(max_point).y { point.y } else { old(max_point).y },
{
    if point.x > max_point.x {
        max_point.x = point.x;
    }
    if point.y > max_point.y {
        max_point.y = point.y;
    }
}

/// `h` is the least non-negative integer whose square reaches `x`.
pub open spec fn is_ceil_sqrt(h: int, x: int) -> bool {
    h >= 0 && h * h >= x && (h == 0 || (h - 1) * (h - 1) < x)
}

/// The square root of `x`, rounded up.
pub open spec fn ceil_sqrt(x: int) -> int {
    choose|h: int| is_ceil_sqrt(h, x)
}

pub proof fn lemma_ceil_sqrt_unique(h1: int, h2: int, x: int)
    requires
        is_ceil_sqrt(h1, x),
        is_ceil_sqrt(h2, x),
    ensures
        h1 == h2,
{
    if h1 < h2 {
        assert((h2 - 1) * (h2 - 1) >= h1 * h1) by (nonlinear_arith)
            requires
                0 <= h1 <= h2 - 1,
        ;
    } else if h2 < h1 {
        assert((h1 - 1) * (h1 - 1) >= h2 * h2) by (nonlinear_arith)
            requires
                0 <= h2 <= h1 - 1,
        ;
    }
}

pub proof fn lemma_ceil_sqrt_of(h: int, x: int)
    requires
        is_ceil_sqrt(h, x),
    ensures
        ceil_sqrt(x) == h,
{
    assert(is_ceil_sqrt(ceil_sqrt(x), x));
    lemma_ceil_sqrt_unique(ceil_sqrt(x), h, x);
}

/// Every non-negative integer has a rounded-up square root.
pub proof fn lemma_ceil_sqrt_exists(x: int)
    requires
        x >= 0,
    ensures
        is_ceil_sqrt(ceil_sqrt(x), x),
    decreases x,
{
    if x == 0 {
        assert(is_ceil_sqrt(0, 0));
    } else {
        lemma_ceil_sqrt_exists(x - 1);
        let h = ceil_sqrt(x - 1);
        if h * h >= x {
            assert(h != 0) by (nonlinear_arith)
                requires
                    h * h >= x,
                    x > 0,
            ;
            assert(is_ceil_sqrt(h, x));
        } else {
            assert((h + 1) * (h + 1) >= x && h * h < x) by (nonlinear_arith)
                requires
                    h * h >= x - 1,
                    h * h < x,
                    h >= 0,
            ;
            assert(is_ceil_sqrt(h + 1, x));
        }
    }
}

/// The square root of `x`, rounded up.
pub fn isqrt_ceil(x: i128) -> (h: i128)
    requires
        0 <= x <= 0x1_0000_0000_0000_0000_0000_0000_0000,
    ensures
        h == ceil_sqrt(x as int),
        is_ceil_sqrt(h as int, x as int),
        0 <= h <= 0x1000_0000_0000_0000,
{
    if x == 0 {
        proof {
            assert(is_ceil_sqrt(0, 0));
            lemma_ceil_sqrt_of(0, 0);
        }
        return 0;
    }
    let mut lo: i128 = 0;
    let mut hi: i128 = 0x1000_0000_0000_0000;
    assert(hi * hi >= x) by (nonlinear_arith)
        requires
            hi == 0x1000_0000_0000_0000,
            x <= 0x1_0000_0000_0000_0000_0000_0000_0000,
    ;
    while hi - lo > 1
        invariant
            0 <= lo < hi <= 0x1000_0000_0000_0000,
            lo * lo < x,
            hi * hi >= x,
        decreases hi - lo,
    {
        let mid: i128 = lo + (hi - lo) / 2;
        assert(mid * mid <= 0x100_0000_0000_0000_0000_0000_0000_0000) by (nonlinear_arith)
            requires
                0 <= mid <= 0x1000_0000_0000_0000,
        ;
        if mid * mid >= x {
            hi = mid;
        } else {
            lo = mid;
        }
    }
    proof {
        assert(hi - 1 == lo);
        lemma_ceil_sqrt_of(hi as int, x as int);
    }
    hi
}

} // verus!
