//! Image layers: digit counting per layer and front-to-back compositing
//! of transparent pixels.

use vstd::prelude::*;

verus! {

pub const WIDTH: usize = 25;

pub const HEIGHT: usize = 6;

pub const LAYER_SIZE: usize = WIDTH * HEIGHT;

/// How many cells of `s` hold the digit `v`.
pub open spec fn count_of(s: Seq<u32>, v: u32) -> nat
    decreases s.len(),
{
    if s.len() == 0 {
        0
    } else {
        count_of(s.drop_last(), v) + if s.last() == v {
            1nat
        } else {
            0nat
        }
    }
}

pub proof fn lemma_count_of_bound(s: Seq<u32>, v: u32)
    ensures
        count_of(s, v) <= s.len(),
    decreases s.len(),
{
    if s.len() != 0 {
        lemma_count_of_bound(s.drop_last(), v);
    }
}

/// The cells of layer `k` of the digit stream: one `LAYER_SIZE` chunk.
pub open spec fn spec_layer(s: Seq<u32>, k: int) -> Seq<u32> {
    s.subrange(k * (LAYER_SIZE as int), (k + 1) * (LAYER_SIZE as int))
}

/// Count the 0, 1 and 2 digits of one full layer.
pub fn get_counts(layer: &Vec<u32>) -> (r: (u32, u32, u32))
    requires
        layer@.len() == LAYER_SIZE,
        forall|i: int| 0 <= i < layer@.len() ==> layer@[i] <= 2,
    ensures
        r.0 == count_of(layer@, 0),
        r.1 == count_of(layer@, 1),
        r.2 == count_of(layer@, 2),
{
    let mut c0: u32 = 0;
    let mut c1: u32 = 0;
    let mut c2: u32 = 0;
    let n = layer.len();
    for i in 0..n
        invariant
            n == layer@.len(),
            n == LAYER_SIZE,
            c0 == count_of(layer@.take(i as int), 0),
            c1 == count_of(layer@.take(i as int), 1),
            c2 == count_of(layer@.take(i as int), 2),
            c0 <= i && c1 <= i && c2 <= i,
            forall|t: int| 0 <= t < layer@.len() ==> layer@[t] <= 2,
    {
        proof {
            assert(layer@.take(i + 1).drop_last() =~= layer@.take(i as int));
            assert(layer@.take(i + 1).last() == layer@[i as int]);
        }
        let d = layer[i];
        if d == 0 {
            c0 = c0 + 1;
        } else if d == 1 {
            c1 = c1 + 1;
        } else {
            c2 = c2 + 1;
        }
    }
    proof {
        assert(layer@.take(n as int) =~= layer@);
    }
    (c0, c1, c2)
}

/// The product of the 1-count and the 2-count of the first layer with
/// the fewest 0 digits.
pub fn part1(digits: &Vec<u32>) -> (r: u32)
    requires
        digits@.len() as int % (LAYER_SIZE as int) == 0,
        digits@.len() > 0,
        forall|i: int| 0 <= i < digits@.len() ==> digits@[i] <= 2,
    ensures
        exists|l: int|
            #![trigger spec_layer(digits@, l)]
            {
                let n_layers = digits@.len() as int / (LAYER_SIZE as int);
                &&& 0 <= l < n_layers
                &&& r == count_of(spec_layer(digits@, l), 1) * count_of(spec_layer(digits@, l), 2)
                &&& (forall|k: int|
                    0 <= k < n_layers ==> count_of(#[trigger] spec_layer(digits@, k), 0)
                        >= count_of(spec_layer(digits@, l), 0))
                &&& (forall|k: int|
                    0 <= k < l ==> count_of(#[trigger] spec_layer(digits@, k), 0) > count_of(
                        spec_layer(digits@, l),
                        0,
                    ))
            },
{
    let n = digits.len();
    let n_layers = n / LAYER_SIZE;
    let mut best_layer: usize = 0;
    let mut best: (u32, u32, u32) = (u32::MAX, 0, 0);
    let mut found = false;
    for k in 0..n_layers
        invariant
            n == digits@.len(),
            n % LAYER_SIZE == 0,
            n_layers == n / LAYER_SIZE,
            n_layers * LAYER_SIZE == n,
            forall|i: int| 0 <= i < digits@.len() ==> digits@[i] <= 2,
            found <==> k > 0,
            found ==> {
                &&& best_layer < k
                &&& best.0 == count_of(spec_layer(digits@, best_layer as int), 0)
                &&& best.1 == count_of(spec_layer(digits@, best_layer as int), 1)
                &&& best.2 == count_of(spec_layer(digits@, best_layer as int), 2)
                &&& (forall|k2: int|
                    0 <= k2 < k ==> count_of(#[trigger] spec_layer(digits@, k2), 0) >= best.0)
                &&& (forall|k2: int|
                    0 <= k2 < best_layer ==> count_of(#[trigger] spec_layer(digits@, k2), 0)
                        > best.0)
            },
    {
        let mut lv: Vec<u32> = Vec::new();
        proof {
            assert(k * LAYER_SIZE + LAYER_SIZE <= n) by (nonlinear_arith)
                requires
                    k < n_layers,
                    n_layers * LAYER_SIZE == n,
            ;
        }
        let base = k * LAYER_SIZE;
        for t in 0..LAYER_SIZE
            invariant
                n == digits@.len(),
                base == k * LAYER_SIZE,
                base + LAYER_SIZE <= n,
                lv@.len() == t,
                forall|i: int| 0 <= i < digits@.len() ==> digits@[i] <= 2,
                forall|u: int| 0 <= u < t ==> lv@[u] == digits@[base + u],
        {
            lv.push(digits[base + t]);
        }
        proof {
            assert((k as int + 1) * (LAYER_SIZE as int) == base + LAYER_SIZE) by (nonlinear_arith)
                requires
                    base == k * LAYER_SIZE,
            ;
            assert(lv@ =~= spec_layer(digits@, k as int));
        }
        let counts = get_counts(&lv);
        proof {
            lemma_count_of_bound(spec_layer(digits@, k as int), 1);
            lemma_count_of_bound(spec_layer(digits@, k as int), 2);
        }
        if !found || counts.0 < best.0 {
            best_layer = k;
            best = counts;
        }
        found = true;
    }
    proof {
        assert(n_layers > 0) by (nonlinear_arith)
            requires
                n_layers * LAYER_SIZE == n,
                n > 0,
                LAYER_SIZE == 150,
        ;
        assert(0 <= best_layer as int * (LAYER_SIZE as int)
            && (best_layer as int + 1) * (LAYER_SIZE as int) <= n) by (nonlinear_arith)
            requires
                best_layer < n_layers,
                n_layers * LAYER_SIZE == n,
                LAYER_SIZE == 150,
        ;
        assert(spec_layer(digits@, best_layer as int).len() == LAYER_SIZE);
        lemma_count_of_bound(spec_layer(digits@, best_layer as int), 1);
        lemma_count_of_bound(spec_layer(digits@, best_layer as int), 2);
        assert(found);
        assert(LAYER_SIZE == 150);
        assert(best.1 <= 150 && best.2 <= 150);
        assert(best.1 * best.2 <= 22500) by (nonlinear_arith)
            requires
                best.1 <= 150 && best.2 <= 150,
        ;
    }
    best.1 * best.2
}

/// The visible value of pixel `i` after compositing the first `k`
/// layers front to back: the first value other than 2 (transparent), or
/// 2 if every layer is transparent there.
pub open spec fn resolve_pixel(s: Seq<u32>, i: int, k: nat) -> u32
    decreases k,
{
    if k == 0 {
        2
    } else {
        let prev = resolve_pixel(s, i, (k - 1) as nat);
        if prev >= 2 {
            s[(k - 1) * (LAYER_SIZE as int) + i]
        } else {
            prev
        }
    }
}

/// Composite all layers into one image: each pixel is its first visible
/// (non-transparent) value.
pub fn part2(digits: &Vec<u32>) -> (r: Vec<u32>)
    requires
        digits@.len() as int % (LAYER_SIZE as int) == 0,
        forall|i: int| 0 <= i < digits@.len() ==> digits@[i] <= 2,
    ensures
        r@.len() == LAYER_SIZE,
        forall|i: int|
            0 <= i < LAYER_SIZE ==> r@[i] == resolve_pixel(
                digits@,
                i,
                (digits@.len() as int / (LAYER_SIZE as int)) as nat,
            ),
{
    let n = digits.len();
    let n_layers = n / LAYER_SIZE;
    let mut image: Vec<u32> = Vec::new();
    for t in 0..LAYER_SIZE
        invariant
            image@.len() == t,
            forall|u: int| 0 <= u < t ==> image@[u] == 2u32,
    {
        image.push(2);
    }
    for k in 0..n_layers
        invariant
            n == digits@.len(),
            n % LAYER_SIZE == 0,
            n_layers == n / LAYER_SIZE,
            n_layers * LAYER_SIZE == n,
            forall|i: int| 0 <= i < digits@.len() ==> digits@[i] <= 2,
            image@.len() == LAYER_SIZE,
            forall|i: int|
                0 <= i < LAYER_SIZE ==> image@[i] == resolve_pixel(digits@, i, k as nat),
    {
        proof {
            assert(k * LAYER_SIZE + LAYER_SIZE <= n) by (nonlinear_arith)
                requires
                    k < n_layers,
                    n_layers * LAYER_SIZE == n,
            ;
        }
        let base = k * LAYER_SIZE;
        for t in 0..LAYER_SIZE
            invariant
                n == digits@.len(),
                base == k * LAYER_SIZE,
                base + LAYER_SIZE <= n,
                k < n_layers,
                forall|i: int| 0 <= i < digits@.len() ==> digits@[i] <= 2,
                image@.len() == LAYER_SIZE,
                forall|i: int|
                    t <= i < LAYER_SIZE ==> image@[i] == resolve_pixel(digits@, i, k as nat),
                forall|i: int|
                    0 <= i < t ==> image@[i] == resolve_pixel(digits@, i, (k + 1) as nat),
        {
            let old_v = image[t];
            if old_v >= 2 {
                let nv = digits[base + t];
                image[t] = nv;
            }
            proof {
                assert(image@[t as int] == resolve_pixel(digits@, t as int, (k + 1) as nat));
            }
        }
    }
    image
}

} // verus!
