//! Asteroid line of sight: an asteroid sees another exactly when no
//! third asteroid stands on an intermediate lattice point of the
//! segment between them, found by marching in steps of the direction
//! vector divided by its greatest common divisor.

use vstd::prelude::*;
use vstd::arithmetic::div_mod::{lemma_div_multiples_vanish, lemma_fundamental_div_mod};

verus! {

/// Bound on coordinates, generous but small enough that every
/// intermediate sum stays within machine range.
pub const MAX_COORD: i32 = 0x2000_0000;

#[derive(Clone, Copy, PartialEq, Eq, Structural, Debug)]
pub struct Asteroid {
    pub x: i32,
    pub y: i32,
}

/// Euclid's greatest common divisor.
pub open spec fn spec_gcd(a: nat, b: nat) -> nat
    decreases b,
{
    if b == 0 {
        a
    } else {
        spec_gcd(b, a % b)
    }
}

/// The product `d * k`, named so it can anchor quantifiers.
pub open spec fn mul_factor(d: int, k: int) -> int {
    d * k
}

/// `a` is an exact multiple of `d`.
pub open spec fn spec_divides(d: int, a: int) -> bool {
    exists|k: int| a == #[trigger] mul_factor(d, k)
}

/// The greatest common divisor divides both arguments, and is positive
/// unless both are zero.
pub proof fn lemma_gcd_divides(a: nat, b: nat)
    ensures
        spec_divides(spec_gcd(a, b) as int, a as int),
        spec_divides(spec_gcd(a, b) as int, b as int),
        a != 0 || b != 0 ==> spec_gcd(a, b) >= 1,
        a != 0 ==> spec_gcd(a, b) <= a,
        b != 0 ==> spec_gcd(a, b) <= b,
    decreases b,
{
    let g = spec_gcd(a, b) as int;
    if b == 0 {
        assert(a as int == mul_factor(g, 1));
        assert(b as int == mul_factor(g, 0));
    } else {
        lemma_gcd_divides(b, a % b);
        let kb = choose|k: int| b as int == #[trigger] mul_factor(g, k);
        let kr = choose|k: int| (a % b) as int == #[trigger] mul_factor(g, k);
        lemma_fundamental_div_mod(a as int, b as int);
        assert(a as int == b as int * (a as int / b as int) + (a as int % b as int));
        assert(b as int == g * kb && (a % b) as int == g * kr);
        assert(a as int == g * (kb * (a as int / b as int) + kr)) by (nonlinear_arith)
            requires
                a as int == b as int * (a as int / b as int) + (a as int % b as int),
                b as int == g * kb,
                (a % b) as int == g * kr,
        ;
        assert(a as int == mul_factor(g, kb * (a as int / b as int) + kr));
        // The divisor bounds follow from divisibility and positivity.
        assert(a != 0 ==> g <= a) by (nonlinear_arith)
            requires
                a as int == g * (kb * (a as int / b as int) + kr),
                g >= 1,
                a >= 0,
        ;
        assert(b != 0 ==> g <= b) by (nonlinear_arith)
            requires
                b as int == g * kb,
                g >= 1,
                b >= 0,
        ;
    }
}

fn gcd_u(a: u32, b: u32) -> (r: u32)
    ensures
        r == spec_gcd(a as nat, b as nat),
    decreases b,
{
    if b == 0 {
        a
    } else {
        gcd_u(b, a % b)
    }
}

/// Euclid's greatest common divisor of two non-negative numbers.
pub fn gcd(a: i32, b: i32) -> (r: i32)
    requires
        a >= 0,
        b >= 0,
    ensures
        r == spec_gcd(a as nat, b as nat),
        r >= 0,
{
    proof {
        lemma_gcd_divides(a as nat, b as nat);
    }
    gcd_u(a as u32, b as u32) as i32
}

pub open spec fn abs_i(v: int) -> nat {
    if v >= 0 {
        v as nat
    } else {
        (-v) as nat
    }
}

/// A magnitude signed like `v`.
pub open spec fn sign_times(v: int, m: nat) -> int {
    if v >= 0 {
        m as int
    } else {
        -(m as int)
    }
}

/// The `k`-th lattice point from `a` along the step `(sx, sy)`.
pub open spec fn ray_point(a: Asteroid, k: int, sx: int, sy: int) -> (int, int) {
    (a.x + k * sx, a.y + k * sy)
}

/// Some listed asteroid sits at the point `p`.
pub open spec fn holds_point(list: Seq<Asteroid>, p: (int, int)) -> bool {
    exists|i: int| 0 <= i < list.len() && #[trigger] list[i].x == p.0 && list[i].y == p.1
}

/// `a` sees `b`: no listed asteroid stands on an intermediate lattice
/// point of the segment from `a` to `b`, those points being `a` plus
/// 1 to g-1 steps of the direction vector divided by its greatest
/// common divisor g.
pub open spec fn spec_can_detect(a: Asteroid, b: Asteroid, list: Seq<Asteroid>) -> bool {
    let dx = b.x - a.x;
    let dy = b.y - a.y;
    let g = spec_gcd(abs_i(dx), abs_i(dy));
    let sx = sign_times(dx, abs_i(dx) / g);
    let sy = sign_times(dy, abs_i(dy) / g);
    forall|k: int| 1 <= k < g ==> !holds_point(list, #[trigger] ray_point(a, k, sx, sy))
}

/// Linear scan for an asteroid at `(x, y)`.
fn contains_point(list: &[Asteroid], x: i64, y: i64) -> (r: bool)
    ensures
        r == holds_point(list@, (x as int, y as int)),
{
    let n = list.len();
    for i in 0..n
        invariant
            n == list@.len(),
            forall|j: int| 0 <= j < i ==> !(#[trigger] list@[j].x == x as int && list@[j].y == y as int),
    {
        let a = list[i];
        if a.x as i64 == x && a.y as i64 == y {
            return true;
        }
    }
    false
}

impl Asteroid {
    /// Whether this asteroid has a clear line of sight to `other`.
    pub fn can_detect(&self, other: &Asteroid, asteroids: &[Asteroid]) -> (r: bool)
        requires
            self.x != other.x || self.y != other.y,
            -MAX_COORD <= self.x <= MAX_COORD && -MAX_COORD <= self.y <= MAX_COORD,
            -MAX_COORD <= other.x <= MAX_COORD && -MAX_COORD <= other.y <= MAX_COORD,
        ensures
            r == spec_can_detect(*self, *other, asteroids@),
    {
        let dx = other.x - self.x;
        let dy = other.y - self.y;
        let au: u32 = if dx >= 0 {
            dx as u32
        } else {
            (-dx) as u32
        };
        let av: u32 = if dy >= 0 {
            dy as u32
        } else {
            (-dy) as u32
        };
        proof {
            assert(au == abs_i(dx as int) && av == abs_i(dy as int));
            lemma_gcd_divides(au as nat, av as nat);
        }
        let g = gcd_u(au, av);
        let sxu = au / g;
        let syu = av / g;
        proof {
            let kx = choose|k: int| au as int == #[trigger] mul_factor(g as int, k);
            assert(au as int == g as int * kx);
            lemma_div_multiples_vanish(kx, g as int);
            assert(sxu as int == kx);
            assert(au as int == g as int * sxu);
            let ky = choose|k: int| av as int == #[trigger] mul_factor(g as int, k);
            assert(av as int == g as int * ky);
            lemma_div_multiples_vanish(ky, g as int);
            assert(syu as int == ky);
            assert(av as int == g as int * syu);
        }
        let sx: i64 = if dx >= 0 {
            sxu as i64
        } else {
            -(sxu as i64)
        };
        let sy: i64 = if dy >= 0 {
            syu as i64
        } else {
            -(syu as i64)
        };
        proof {
            assert(sx as int == sign_times(dx as int, abs_i(dx as int) / spec_gcd(
                abs_i(dx as int),
                abs_i(dy as int),
            )));
            assert(g as int * sx == dx as int) by (nonlinear_arith)
                requires
                    au as int == g as int * sxu,
                    sx as int == (if dx >= 0 { sxu as int } else { -(sxu as int) }),
                    au as int == (if dx >= 0 { dx as int } else { -(dx as int) }),
            ;
            assert(g as int * sy == dy as int) by (nonlinear_arith)
                requires
                    av as int == g as int * syu,
                    sy as int == (if dy >= 0 { syu as int } else { -(syu as int) }),
                    av as int == (if dy >= 0 { dy as int } else { -(dy as int) }),
            ;
        }
        let mut x: i64 = self.x as i64 + sx;
        let mut y: i64 = self.y as i64 + sy;
        let ghost mut k: int = 1;
        proof {
            assert(k * sx == sx && k * sy == sy);
        }
        while x != other.x as i64 || y != other.y as i64
            invariant
                1 <= k <= g,
                x == self.x as i64 + k * sx,
                y == self.y as i64 + k * sy,
                g as int * sx == dx as int,
                g as int * sy == dy as int,
                dx == other.x - self.x,
                dy == other.y - self.y,
                g >= 1,
                dx != 0 || dy != 0,
                -MAX_COORD <= self.x <= MAX_COORD && -MAX_COORD <= other.x <= MAX_COORD,
                -MAX_COORD <= self.y <= MAX_COORD && -MAX_COORD <= other.y <= MAX_COORD,
                sx as int == sign_times(dx as int, abs_i(dx as int) / spec_gcd(
                    abs_i(dx as int),
                    abs_i(dy as int),
                )),
                sy as int == sign_times(dy as int, abs_i(dy as int) / spec_gcd(
                    abs_i(dx as int),
                    abs_i(dy as int),
                )),
                g == spec_gcd(abs_i(dx as int), abs_i(dy as int)),
                forall|k2: int|
                    1 <= k2 < k ==> !holds_point(
                        asteroids@,
                        #[trigger] ray_point(*self, k2, sx as int, sy as int),
                    ),
            decreases g - k,
        {
            proof {
                // Not yet at the far end, so k is still below g.
                if k == g {
                    assert(x == other.x as i64) by (nonlinear_arith)
                        requires
                            x == self.x as i64 + k * sx,
                            k == g,
                            g as int * sx == dx as int,
                            dx == other.x - self.x,
                    ;
                    assert(y == other.y as i64) by (nonlinear_arith)
                        requires
                            y == self.y as i64 + k * sy,
                            k == g,
                            g as int * sy == dy as int,
                            dy == other.y - self.y,
                    ;
                    assert(false);
                }
                // The current point stays within range.
                assert(-(MAX_COORD as int) * 2 <= k * sx <= (MAX_COORD as int) * 2
                    && -(MAX_COORD as int) * 2 <= k * sy <= (MAX_COORD as int) * 2)
                    by (nonlinear_arith)
                    requires
                        1 <= k <= g,
                        g as int * sx == dx as int,
                        g as int * sy == dy as int,
                        -(MAX_COORD as int) * 2 <= dx as int <= (MAX_COORD as int) * 2,
                        -(MAX_COORD as int) * 2 <= dy as int <= (MAX_COORD as int) * 2,
                        g >= 1,
                ;
            }
            let blocked = contains_point(asteroids, x, y);
            proof {
                assert((x as int, y as int) == ray_point(*self, k, sx as int, sy as int));
            }
            if blocked {
                proof {
                    assert(holds_point(asteroids@, ray_point(*self, k, sx as int, sy as int)));
                }
                return false;
            }
            proof {
                assert(!holds_point(asteroids@, ray_point(*self, k, sx as int, sy as int)));
            }
            proof {
                assert((k + 1) * sx == k * sx + sx && (k + 1) * sy == k * sy + sy)
                    by (nonlinear_arith)
                ;
                assert(-(MAX_COORD as int) * 2 <= (k + 1) * sx <= (MAX_COORD as int) * 2
                    && -(MAX_COORD as int) * 2 <= (k + 1) * sy <= (MAX_COORD as int) * 2)
                    by (nonlinear_arith)
                    requires
                        1 <= k < g,
                        g as int * sx == dx as int,
                        g as int * sy == dy as int,
                        -(MAX_COORD as int) * 2 <= dx as int <= (MAX_COORD as int) * 2,
                        -(MAX_COORD as int) * 2 <= dy as int <= (MAX_COORD as int) * 2,
                ;
            }
            x = x + sx;
            y = y + sy;
            proof {
                k = k + 1;
            }
        }
        proof {
            // Reaching the far end means k steps cover the whole vector,
            // so k must be g and every intermediate point was checked.
            if k < g {
                if dx != 0 {
                    assert(false) by (nonlinear_arith)
                        requires
                            x == self.x as i64 + k * sx,
                            x == other.x as i64,
                            dx == other.x - self.x,
                            g as int * sx == dx as int,
                            1 <= k < g,
                            dx != 0,
                    ;
                } else {
                    assert(dy != 0);
                    assert(false) by (nonlinear_arith)
                        requires
                            y == self.y as i64 + k * sy,
                            y == other.y as i64,
                            dy == other.y - self.y,
                            g as int * sy == dy as int,
                            1 <= k < g,
                            dy != 0,
                    ;
                }
            }
        }
        true
    }

    /// How many other listed asteroids this one sees.
    pub fn count_detections(&self, asteroids: &[Asteroid]) -> (r: usize)
        requires
            -MAX_COORD <= self.x <= MAX_COORD && -MAX_COORD <= self.y <= MAX_COORD,
            forall|i: int|
                0 <= i < asteroids@.len() ==> -MAX_COORD <= (#[trigger] asteroids@[i]).x
                    <= MAX_COORD && -MAX_COORD <= asteroids@[i].y <= MAX_COORD,
        ensures
            r == detect_count(*self, asteroids@, 0),
    {
        let n = asteroids.len();
        let mut cnt: usize = 0;
        for i in 0..n
            invariant
                n == asteroids@.len(),
                cnt <= i,
                -MAX_COORD <= self.x <= MAX_COORD && -MAX_COORD <= self.y <= MAX_COORD,
                forall|j: int|
                    0 <= j < asteroids@.len() ==> -MAX_COORD <= (#[trigger] asteroids@[j]).x
                        <= MAX_COORD && -MAX_COORD <= asteroids@[j].y <= MAX_COORD,
                cnt + detect_count(*self, asteroids@, i as int) == detect_count(
                    *self,
                    asteroids@,
                    0,
                ),
        {
            let a = asteroids[i];
            if (a.x != self.x || a.y != self.y) && self.can_detect(&a, asteroids) {
                cnt = cnt + 1;
            }
            proof {
                assert(detect_count(*self, asteroids@, i as int) == (if asteroids@[i as int]
                    != *self && spec_can_detect(*self, asteroids@[i as int], asteroids@) {
                    1nat
                } else {
                    0nat
                }) + detect_count(*self, asteroids@, i + 1));
            }
        }
        cnt
    }
}

/// How many asteroids from index `i` on differ from `a` and are seen by
/// it.
pub open spec fn detect_count(a: Asteroid, list: Seq<Asteroid>, i: int) -> nat
    decreases list.len() - i,
{
    if !(0 <= i < list.len()) {
        0
    } else {
        (if list[i] != a && spec_can_detect(a, list[i], list) {
            1nat
        } else {
            0nat
        }) + detect_count(a, list, i + 1)
    }
}

/// The station site: the asteroid that sees the most others, the last
/// such in list order.
pub fn find_best_asteroid(asteroids: &[Asteroid]) -> (r: &Asteroid)
    requires
        asteroids@.len() > 0,
        forall|i: int|
            0 <= i < asteroids@.len() ==> -MAX_COORD <= (#[trigger] asteroids@[i]).x <= MAX_COORD
                && -MAX_COORD <= asteroids@[i].y <= MAX_COORD,
    ensures
        exists|bi: int|
            #![trigger asteroids@[bi]]
            {
                &&& 0 <= bi < asteroids@.len()
                &&& *r == asteroids@[bi]
                &&& (forall|j: int|
                    0 <= j < asteroids@.len() ==> detect_count(
                        #[trigger] asteroids@[j],
                        asteroids@,
                        0,
                    ) <= detect_count(asteroids@[bi], asteroids@, 0))
                &&& (forall|j: int|
                    bi < j < asteroids@.len() ==> detect_count(
                        #[trigger] asteroids@[j],
                        asteroids@,
                        0,
                    ) < detect_count(asteroids@[bi], asteroids@, 0))
            },
{
    let n = asteroids.len();
    let mut best: usize = 0;
    let mut best_cnt: usize = asteroids[0].count_detections(asteroids);
    for i in 1..n
        invariant
            n == asteroids@.len(),
            best < i <= n,
            forall|j: int|
                0 <= j < asteroids@.len() ==> -MAX_COORD <= (#[trigger] asteroids@[j]).x
                    <= MAX_COORD && -MAX_COORD <= asteroids@[j].y <= MAX_COORD,
            best_cnt == detect_count(asteroids@[best as int], asteroids@, 0),
            forall|j: int|
                0 <= j < i ==> detect_count(#[trigger] asteroids@[j], asteroids@, 0) <= best_cnt,
            forall|j: int|
                best < j < i ==> detect_count(#[trigger] asteroids@[j], asteroids@, 0) < best_cnt,
    {
        let c = asteroids[i].count_detections(asteroids);
        if c >= best_cnt {
            best = i;
            best_cnt = c;
        }
    }
    &asteroids[best]
}

} // verus!
