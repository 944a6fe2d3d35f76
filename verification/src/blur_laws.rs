//! Laws of the blur: what every result of `blur::blur` satisfies.

use vstd::prelude::*;

use crate::blur::{
    abs_diff, grid_neighbors, image_pass, image_steps, in_circle, is_blur_of, lemma_pixel_in_bounds,
    lemma_zero_radius_no_neighbors, mean_gives, neighborhood, pass_steps, pixel_at, pixel_step,
    row_neighbors, row_pass, row_steps, with_pixel, Params, Rgba, Sample,
};

verus! {

/// Every pixel of the `width` x `height` image in `img` has colour `c`.
pub open spec fn uniform(img: Seq<u8>, width: int, height: int, c: Rgba) -> bool {
    &&& 4 * (width * height) <= img.len()
    &&& forall|x: int, y: int|
        0 <= x < width && 0 <= y < height ==> #[trigger] pixel_at(img, width, x, y) == c
}

/// Whenever `mean` averages samples that all have colour `c`, it answers `c`.
pub open spec fn mean_fixes<F: Fn(&Vec<Sample>) -> Rgba>(mean: F, c: Rgba) -> bool {
    forall|v: Vec<Sample>, o: Rgba|
        #[trigger] call_ensures(mean, (&v,), o) && v@.len() > 0 && (forall|i: int|
            0 <= i < v@.len() ==> v@[i].color == c) ==> o == c
}

/// `mean` gives one answer for each sequence of samples.
pub open spec fn mean_is_deterministic<F: Fn(&Vec<Sample>) -> Rgba>(mean: F) -> bool {
    forall|v1: Vec<Sample>, v2: Vec<Sample>, o1: Rgba, o2: Rgba|
        #[trigger] call_ensures(mean, (&v1,), o1) && #[trigger] call_ensures(mean, (&v2,), o2)
            && v1@ == v2@ ==> o1 == o2
}

/// Every single blur step, at any pixel of the image, leaves an image that
/// satisfies `inv` if the image before it did.
pub open spec fn steps_keep<F: Fn(&Vec<Sample>) -> Rgba>(
    mean: F,
    inv: spec_fn(Seq<u8>) -> bool,
    width: int,
    height: int,
    radius: int,
) -> bool {
    forall|before: Seq<u8>, after: Seq<u8>, x: int, y: int|
        0 <= x < width && 0 <= y < height && inv(before) && #[trigger] pixel_step(
            mean,
            before,
            after,
            width,
            height,
            radius,
            x,
            y,
        ) ==> inv(after)
}

proof fn lemma_row_keeps<F: Fn(&Vec<Sample>) -> Rgba>(
    mean: F,
    inv: spec_fn(Seq<u8>) -> bool,
    states: Seq<Seq<u8>>,
    width: int,
    height: int,
    radius: int,
    y: int,
    n: int,
)
    requires
        steps_keep(mean, inv, width, height, radius),
        row_steps(mean, states, width, height, radius, y),
        inv(states[0]),
        0 <= y < height,
        0 <= n <= width,
    ensures
        inv(states[n]),
    decreases n,
{
    if n > 0 {
        lemma_row_keeps(mean, inv, states, width, height, radius, y, n - 1);
        let i = n - 1;
        assert(pixel_step(mean, states[i], states[i + 1], width, height, radius, i, y));
    }
}

proof fn lemma_image_keeps<F: Fn(&Vec<Sample>) -> Rgba>(
    mean: F,
    inv: spec_fn(Seq<u8>) -> bool,
    states: Seq<Seq<u8>>,
    width: int,
    height: int,
    radius: int,
    m: int,
)
    requires
        steps_keep(mean, inv, width, height, radius),
        image_steps(mean, states, width, height, radius),
        inv(states[0]),
        width >= 0,
        0 <= m <= height,
    ensures
        inv(states[m]),
    decreases m,
{
    if m > 0 {
        lemma_image_keeps(mean, inv, states, width, height, radius, m - 1);
        let j = m - 1;
        assert(row_pass(mean, states[j], states[j + 1], width, height, radius, j));
        let row = choose|row: Seq<Seq<u8>>|
            #[trigger] row_steps(mean, row, width, height, radius, j) && row[0] == states[j]
                && row[width] == states[j + 1];
        lemma_row_keeps(mean, inv, row, width, height, radius, j, width);
    }
}

proof fn lemma_passes_keep<F: Fn(&Vec<Sample>) -> Rgba>(
    mean: F,
    inv: spec_fn(Seq<u8>) -> bool,
    states: Seq<Seq<u8>>,
    width: int,
    height: int,
    radius: int,
    k: int,
    p: int,
)
    requires
        steps_keep(mean, inv, width, height, radius),
        pass_steps(mean, states, width, height, radius, k),
        inv(states[0]),
        width >= 0,
        height >= 0,
        0 <= p <= k,
    ensures
        inv(states[p]),
    decreases p,
{
    if p > 0 {
        lemma_passes_keep(mean, inv, states, width, height, radius, k, p - 1);
        let q = p - 1;
        assert(image_pass(mean, states[q], states[q + 1], width, height, radius));
        let rows = choose|rows: Seq<Seq<u8>>|
            #[trigger] image_steps(mean, rows, width, height, radius) && rows[0] == states[q]
                && rows[height] == states[q + 1];
        lemma_image_keeps(mean, inv, rows, width, height, radius, height);
    }
}

/// A property of images that every blur step keeps holds of every result of
/// the blur of an image that has it.
proof fn lemma_blur_keeps<F: Fn(&Vec<Sample>) -> Rgba>(
    mean: F,
    inv: spec_fn(Seq<u8>) -> bool,
    before: Seq<u8>,
    after: Seq<u8>,
    width: int,
    height: int,
    params: Params,
)
    requires
        steps_keep(mean, inv, width, height, params.radius as int),
        is_blur_of(mean, before, after, width, height, params),
        inv(before),
        width >= 0,
        height >= 0,
    ensures
        inv(after),
{
    let k = params.iterations as int;
    let passes = choose|passes: Seq<Seq<u8>>|
        #[trigger] pass_steps(mean, passes, width, height, params.radius as int, k) && passes[0]
            == before && passes[k] == after;
    lemma_passes_keep(mean, inv, passes, width, height, params.radius as int, k, k);
}

/// A pixel without neighbours in the circle is never changed by a step, and a
/// step that changes nothing keeps every property of the image.
proof fn lemma_no_neighbors_fixed<F: Fn(&Vec<Sample>) -> Rgba>(
    mean: F,
    img: Seq<u8>,
    width: int,
    height: int,
    radius: int,
)
    requires
        forall|x: int, y: int|
            0 <= x < width && 0 <= y < height ==> (#[trigger] neighborhood(
                img,
                width,
                height,
                radius,
                x,
                y,
            )).len() == 0,
    ensures
        steps_keep(mean, |s: Seq<u8>| s == img, width, height, radius),
{
    assert forall|before: Seq<u8>, after: Seq<u8>, x: int, y: int|
        0 <= x < width && 0 <= y < height && before == img && #[trigger] pixel_step(
            mean,
            before,
            after,
            width,
            height,
            radius,
            x,
            y,
        ) implies after == img by {
        assert(neighborhood(img, width, height, radius, x, y).len() == 0);
    }
}

/// Law: with radius zero, or with zero iterations, the blur leaves the image
/// unchanged, whatever the weighted mean answers.
pub proof fn zero_radius_or_iterations_keep_image<F: Fn(&Vec<Sample>) -> Rgba>(
    mean: F,
    before: Seq<u8>,
    after: Seq<u8>,
    width: int,
    height: int,
    params: Params,
)
    requires
        width >= 0,
        height >= 0,
        params.radius == 0 || params.iterations == 0,
        is_blur_of(mean, before, after, width, height, params),
    ensures
        after == before,
{
    if params.radius == 0 {
        assert forall|x: int, y: int| 0 <= x < width && 0 <= y < height implies (
        #[trigger] neighborhood(before, width, height, 0, x, y)).len() == 0 by {
            lemma_zero_radius_no_neighbors(before, width, height, x, y);
        }
        lemma_no_neighbors_fixed(mean, before, width, height, 0);
        lemma_blur_keeps(mean, |s: Seq<u8>| s == before, before, after, width, height, params);
    } else {
        let passes = choose|passes: Seq<Seq<u8>>|
            #[trigger] pass_steps(mean, passes, width, height, params.radius as int, 0)
                && passes[0] == before && passes[0] == after;
    }
}

/// Law: an image of a single pixel has no neighbours to average, so the blur
/// leaves it unchanged.
pub proof fn single_pixel_is_kept<F: Fn(&Vec<Sample>) -> Rgba>(
    mean: F,
    before: Seq<u8>,
    after: Seq<u8>,
    params: Params,
)
    requires
        is_blur_of(mean, before, after, 1, 1, params),
    ensures
        after == before,
{
    let r = params.radius as int;
    assert forall|x: int, y: int| 0 <= x < 1 && 0 <= y < 1 implies (#[trigger] neighborhood(
        before,
        1,
        1,
        r,
        x,
        y,
    )).len() == 0 by {
        reveal_with_fuel(row_neighbors, 2);
        reveal_with_fuel(grid_neighbors, 2);
        assert(!in_circle(0, 0, 0, 0, r));
        assert(row_neighbors(before, 1, r, 0, 0, 0, 1) =~= Seq::<Sample>::empty());
        assert(grid_neighbors(before, 1, r, 0, 0, 1) =~= Seq::<Sample>::empty());
    }
    lemma_no_neighbors_fixed(mean, before, 1, 1, r);
    lemma_blur_keeps(mean, |s: Seq<u8>| s == before, before, after, 1, 1, params);
}

proof fn lemma_uniform_row_colors(
    img: Seq<u8>,
    width: int,
    height: int,
    radius: int,
    x: int,
    y: int,
    ny: int,
    n: int,
    c: Rgba,
)
    requires
        uniform(img, width, height, c),
        0 <= ny < height,
        n <= width,
    ensures
        forall|i: int|
            0 <= i < row_neighbors(img, width, radius, x, y, ny, n).len() ==> (#[trigger] row_neighbors(
                img,
                width,
                radius,
                x,
                y,
                ny,
                n,
            )[i]).color == c,
    decreases n,
{
    if n > 0 {
        lemma_uniform_row_colors(img, width, height, radius, x, y, ny, n - 1, c);
        assert(pixel_at(img, width, n - 1, ny) == c);
        let prev = row_neighbors(img, width, radius, x, y, ny, n - 1);
        let cur = row_neighbors(img, width, radius, x, y, ny, n);
        assert forall|i: int| 0 <= i < cur.len() implies (#[trigger] cur[i]).color == c by {
            if i < prev.len() {
                assert(cur[i] == prev[i]);
            }
        }
    }
}

proof fn lemma_uniform_grid_colors(
    img: Seq<u8>,
    width: int,
    height: int,
    radius: int,
    x: int,
    y: int,
    m: int,
    c: Rgba,
)
    requires
        uniform(img, width, height, c),
        m <= height,
    ensures
        forall|i: int|
            0 <= i < grid_neighbors(img, width, radius, x, y, m).len() ==> (#[trigger] grid_neighbors(
                img,
                width,
                radius,
                x,
                y,
                m,
            )[i]).color == c,
    decreases m,
{
    if m > 0 {
        lemma_uniform_grid_colors(img, width, height, radius, x, y, m - 1, c);
        lemma_uniform_row_colors(img, width, height, radius, x, y, m - 1, width, c);
        let front = grid_neighbors(img, width, radius, x, y, m - 1);
        let back = row_neighbors(img, width, radius, x, y, m - 1, width);
        assert forall|i: int| 0 <= i < (front + back).len() implies (#[trigger] (front + back)[i]).color
            == c by {
            if i < front.len() {
                assert((front + back)[i] == front[i]);
            } else {
                assert((front + back)[i] == back[i - front.len()]);
            }
        }
    }
}

/// Law: an image of one colour stays as it is, provided the weighted mean of
/// samples that all have that colour is that colour.
pub proof fn uniform_image_is_kept<F: Fn(&Vec<Sample>) -> Rgba>(
    mean: F,
    before: Seq<u8>,
    after: Seq<u8>,
    width: int,
    height: int,
    params: Params,
    c: Rgba,
)
    requires
        width >= 0,
        height >= 0,
        uniform(before, width, height, c),
        mean_fixes(mean, c),
        is_blur_of(mean, before, after, width, height, params),
    ensures
        after == before,
{
    let r = params.radius as int;
    assert forall|b: Seq<u8>, a: Seq<u8>, x: int, y: int|
        0 <= x < width && 0 <= y < height && b == before && #[trigger] pixel_step(
            mean,
            b,
            a,
            width,
            height,
            r,
            x,
            y,
        ) implies a == before by {
        let s = neighborhood(before, width, height, r, x, y);
        if s.len() > 0 {
            lemma_uniform_grid_colors(before, width, height, r, x, y, height, c);
            let o = choose|o: Rgba| #[trigger]
                mean_gives(mean, s, o) && a == with_pixel(before, width, x, y, o);
            let v = choose|v: Vec<Sample>| v@ == s && #[trigger] call_ensures(mean, (&v,), o);
            assert forall|i: int| 0 <= i < v@.len() implies v@[i].color == c by {
                assert(s[i].color == c);
            }
            assert(o == c);
            lemma_pixel_in_bounds(width, height, x, y);
            assert(pixel_at(before, width, x, y) == c);
            assert(a =~= before);
        }
    }
    lemma_blur_keeps(mean, |s: Seq<u8>| s == before, before, after, width, height, params);
}

/// Law: blurring writes only the `4 * width * height` bytes of the image's
/// pixels; the buffer keeps its length and every byte after the pixels.
pub proof fn blur_changes_only_pixels<F: Fn(&Vec<Sample>) -> Rgba>(
    mean: F,
    before: Seq<u8>,
    after: Seq<u8>,
    width: int,
    height: int,
    params: Params,
)
    requires
        width >= 0,
        height >= 0,
        4 * (width * height) <= before.len(),
        is_blur_of(mean, before, after, width, height, params),
    ensures
        after.len() == before.len(),
        forall|i: int| 4 * (width * height) <= i < before.len() ==> after[i] == before[i],
{
    let r = params.radius as int;
    let inv = |s: Seq<u8>|
        s.len() == before.len() && forall|i: int|
            4 * (width * height) <= i < before.len() ==> s[i] == before[i];
    assert forall|b: Seq<u8>, a: Seq<u8>, x: int, y: int|
        0 <= x < width && 0 <= y < height && inv(b) && #[trigger] pixel_step(
            mean,
            b,
            a,
            width,
            height,
            r,
            x,
            y,
        ) implies inv(a) by {
        let s = neighborhood(b, width, height, r, x, y);
        if s.len() > 0 {
            let o = choose|o: Rgba| #[trigger]
                mean_gives(mean, s, o) && a == with_pixel(b, width, x, y, o);
            lemma_pixel_in_bounds(width, height, x, y);
        }
    }
    lemma_blur_keeps(mean, inv, before, after, width, height, params);
}

proof fn lemma_step_deterministic<F: Fn(&Vec<Sample>) -> Rgba>(
    mean: F,
    before: Seq<u8>,
    after1: Seq<u8>,
    after2: Seq<u8>,
    width: int,
    height: int,
    radius: int,
    x: int,
    y: int,
)
    requires
        mean_is_deterministic(mean),
        pixel_step(mean, before, after1, width, height, radius, x, y),
        pixel_step(mean, before, after2, width, height, radius, x, y),
    ensures
        after1 == after2,
{
    let s = neighborhood(before, width, height, radius, x, y);
    if s.len() > 0 {
        let o1 = choose|o: Rgba| #[trigger]
            mean_gives(mean, s, o) && after1 == with_pixel(before, width, x, y, o);
        let o2 = choose|o: Rgba| #[trigger]
            mean_gives(mean, s, o) && after2 == with_pixel(before, width, x, y, o);
        let v1 = choose|v: Vec<Sample>| v@ == s && #[trigger] call_ensures(mean, (&v,), o1);
        let v2 = choose|v: Vec<Sample>| v@ == s && #[trigger] call_ensures(mean, (&v,), o2);
        assert(o1 == o2);
    }
}

proof fn lemma_row_deterministic<F: Fn(&Vec<Sample>) -> Rgba>(
    mean: F,
    s1: Seq<Seq<u8>>,
    s2: Seq<Seq<u8>>,
    width: int,
    height: int,
    radius: int,
    y: int,
    n: int,
)
    requires
        mean_is_deterministic(mean),
        row_steps(mean, s1, width, height, radius, y),
        row_steps(mean, s2, width, height, radius, y),
        s1[0] == s2[0],
        0 <= n <= width,
    ensures
        s1[n] == s2[n],
    decreases n,
{
    if n > 0 {
        lemma_row_deterministic(mean, s1, s2, width, height, radius, y, n - 1);
        let i = n - 1;
        assert(pixel_step(mean, s1[i], s1[i + 1], width, height, radius, i, y));
        assert(pixel_step(mean, s2[i], s2[i + 1], width, height, radius, i, y));
        lemma_step_deterministic(mean, s1[i], s1[i + 1], s2[i + 1], width, height, radius, i, y);
    }
}

proof fn lemma_image_deterministic<F: Fn(&Vec<Sample>) -> Rgba>(
    mean: F,
    s1: Seq<Seq<u8>>,
    s2: Seq<Seq<u8>>,
    width: int,
    height: int,
    radius: int,
    m: int,
)
    requires
        mean_is_deterministic(mean),
        image_steps(mean, s1, width, height, radius),
        image_steps(mean, s2, width, height, radius),
        s1[0] == s2[0],
        width >= 0,
        0 <= m <= height,
    ensures
        s1[m] == s2[m],
    decreases m,
{
    if m > 0 {
        lemma_image_deterministic(mean, s1, s2, width, height, radius, m - 1);
        let j = m - 1;
        assert(row_pass(mean, s1[j], s1[j + 1], width, height, radius, j));
        assert(row_pass(mean, s2[j], s2[j + 1], width, height, radius, j));
        let r1 = choose|row: Seq<Seq<u8>>|
            #[trigger] row_steps(mean, row, width, height, radius, j) && row[0] == s1[j]
                && row[width] == s1[j + 1];
        let r2 = choose|row: Seq<Seq<u8>>|
            #[trigger] row_steps(mean, row, width, height, radius, j) && row[0] == s2[j]
                && row[width] == s2[j + 1];
        lemma_row_deterministic(mean, r1, r2, width, height, radius, j, width);
    }
}

proof fn lemma_passes_deterministic<F: Fn(&Vec<Sample>) -> Rgba>(
    mean: F,
    s1: Seq<Seq<u8>>,
    s2: Seq<Seq<u8>>,
    width: int,
    height: int,
    radius: int,
    k: int,
    p: int,
)
    requires
        mean_is_deterministic(mean),
        pass_steps(mean, s1, width, height, radius, k),
        pass_steps(mean, s2, width, height, radius, k),
        s1[0] == s2[0],
        width >= 0,
        height >= 0,
        0 <= p <= k,
    ensures
        s1[p] == s2[p],
    decreases p,
{
    if p > 0 {
        lemma_passes_deterministic(mean, s1, s2, width, height, radius, k, p - 1);
        let q = p - 1;
        assert(image_pass(mean, s1[q], s1[q + 1], width, height, radius));
        assert(image_pass(mean, s2[q], s2[q + 1], width, height, radius));
        let r1 = choose|rows: Seq<Seq<u8>>|
            #[trigger] image_steps(mean, rows, width, height, radius) && rows[0] == s1[q]
                && rows[height] == s1[q + 1];
        let r2 = choose|rows: Seq<Seq<u8>>|
            #[trigger] image_steps(mean, rows, width, height, radius) && rows[0] == s2[q]
                && rows[height] == s2[q + 1];
        lemma_image_deterministic(mean, r1, r2, width, height, radius, height);
    }
}

/// Law: when the weighted mean gives one answer for each input, the blurred
/// image is determined by the image and the parameters.
pub proof fn blur_is_deterministic<F: Fn(&Vec<Sample>) -> Rgba>(
    mean: F,
    before: Seq<u8>,
    after1: Seq<u8>,
    after2: Seq<u8>,
    width: int,
    height: int,
    params: Params,
)
    requires
        width >= 0,
        height >= 0,
        mean_is_deterministic(mean),
        is_blur_of(mean, before, after1, width, height, params),
        is_blur_of(mean, before, after2, width, height, params),
    ensures
        after1 == after2,
{
    let k = params.iterations as int;
    let r = params.radius as int;
    let p1 = choose|passes: Seq<Seq<u8>>|
        #[trigger] pass_steps(mean, passes, width, height, r, k) && passes[0] == before
            && passes[k] == after1;
    let p2 = choose|passes: Seq<Seq<u8>>|
        #[trigger] pass_steps(mean, passes, width, height, r, k) && passes[0] == before
            && passes[k] == after2;
    lemma_passes_deterministic(mean, p1, p2, width, height, r, k, k);
}


/// Sample `s` is at a distance of at least one pixel and at most `radius`.
pub open spec fn within_radius(s: Sample, radius: int) -> bool {
    0 < s.dx * s.dx + s.dy * s.dy <= radius * radius
}

proof fn lemma_in_circle_sample(x: int, y: int, nx: int, ny: int, radius: int)
    requires
        0 <= radius <= u32::MAX,
        in_circle(x, y, nx, ny, radius),
    ensures
        abs_diff(nx, x) as u32 == abs_diff(nx, x),
        abs_diff(ny, y) as u32 == abs_diff(ny, y),
{
    let dx = abs_diff(nx, x);
    let dy = abs_diff(ny, y);
    assert(dx <= radius && dy <= radius) by (nonlinear_arith)
        requires
            dx >= 0,
            dy >= 0,
            radius >= 0,
            dx * dx + dy * dy <= radius * radius,
    ;
}

proof fn lemma_row_within_radius(
    img: Seq<u8>,
    width: int,
    radius: int,
    x: int,
    y: int,
    ny: int,
    n: int,
)
    requires
        0 <= radius <= u32::MAX,
    ensures
        forall|i: int|
            0 <= i < row_neighbors(img, width, radius, x, y, ny, n).len() ==> within_radius(
                #[trigger] row_neighbors(img, width, radius, x, y, ny, n)[i],
                radius,
            ),
    decreases n,
{
    if n > 0 {
        lemma_row_within_radius(img, width, radius, x, y, ny, n - 1);
        let prev = row_neighbors(img, width, radius, x, y, ny, n - 1);
        let cur = row_neighbors(img, width, radius, x, y, ny, n);
        if in_circle(x, y, n - 1, ny, radius) {
            lemma_in_circle_sample(x, y, n - 1, ny, radius);
        }
        assert forall|i: int| 0 <= i < cur.len() implies within_radius(#[trigger] cur[i], radius) by {
            if i < prev.len() {
                assert(cur[i] == prev[i]);
            }
        }
    }
}

proof fn lemma_grid_within_radius(img: Seq<u8>, width: int, radius: int, x: int, y: int, m: int)
    requires
        0 <= radius <= u32::MAX,
    ensures
        forall|i: int|
            0 <= i < grid_neighbors(img, width, radius, x, y, m).len() ==> within_radius(
                #[trigger] grid_neighbors(img, width, radius, x, y, m)[i],
                radius,
            ),
    decreases m,
{
    if m > 0 {
        lemma_grid_within_radius(img, width, radius, x, y, m - 1);
        lemma_row_within_radius(img, width, radius, x, y, m - 1, width);
        let front = grid_neighbors(img, width, radius, x, y, m - 1);
        let back = row_neighbors(img, width, radius, x, y, m - 1, width);
        assert forall|i: int| 0 <= i < (front + back).len() implies within_radius(
            #[trigger] (front + back)[i],
            radius,
        ) by {
            if i < front.len() {
                assert((front + back)[i] == front[i]);
            } else {
                assert((front + back)[i] == back[i - front.len()]);
            }
        }
    }
}

/// Law: every neighbour averaged for a pixel lies within the radius, and the
/// pixel itself (distance zero) is never among them.
pub proof fn neighbors_lie_within_radius(
    img: Seq<u8>,
    width: int,
    height: int,
    radius: u32,
    x: int,
    y: int,
)
    ensures
        forall|i: int|
            0 <= i < neighborhood(img, width, height, radius as int, x, y).len() ==> within_radius(
                #[trigger] neighborhood(img, width, height, radius as int, x, y)[i],
                radius as int,
            ),
{
    lemma_grid_within_radius(img, width, radius as int, x, y, height);
}


/// Positions of the samples in `row_neighbors`, as `(column, row)`.
spec fn row_positions(x: int, y: int, radius: int, ny: int, n: int) -> Seq<(int, int)>
    decreases n,
{
    if n <= 0 {
        Seq::empty()
    } else {
        let before = row_positions(x, y, radius, ny, n - 1);
        if in_circle(x, y, n - 1, ny, radius) {
            before.push((n - 1, ny))
        } else {
            before
        }
    }
}

/// Positions of the samples in `grid_neighbors`, as `(column, row)`.
spec fn grid_positions(x: int, y: int, radius: int, width: int, m: int) -> Seq<(int, int)>
    decreases m,
{
    if m <= 0 {
        Seq::empty()
    } else {
        grid_positions(x, y, radius, width, m - 1) + row_positions(x, y, radius, m - 1, width)
    }
}

proof fn lemma_row_positions(
    img: Seq<u8>,
    width: int,
    radius: int,
    x: int,
    y: int,
    ny: int,
    n: int,
)
    requires
        0 <= n,
    ensures
        row_positions(x, y, radius, ny, n).len() == row_neighbors(
            img,
            width,
            radius,
            x,
            y,
            ny,
            n,
        ).len(),
        forall|i: int|
            0 <= i < row_positions(x, y, radius, ny, n).len() ==> {
                let p = #[trigger] row_positions(x, y, radius, ny, n)[i];
                &&& p.1 == ny
                &&& 0 <= p.0 < n
                &&& in_circle(x, y, p.0, ny, radius)
                &&& row_neighbors(img, width, radius, x, y, ny, n)[i] == crate::blur::sample_at(
                    img,
                    width,
                    x,
                    y,
                    p.0,
                    ny,
                )
            },
        forall|i: int, j: int|
            0 <= i < j < row_positions(x, y, radius, ny, n).len() ==> (#[trigger] row_positions(
                x,
                y,
                radius,
                ny,
                n,
            )[i]).0 < (#[trigger] row_positions(x, y, radius, ny, n)[j]).0,
        forall|nx: int|
            0 <= nx < n && in_circle(x, y, nx, ny, radius) ==> #[trigger] row_positions(
                x,
                y,
                radius,
                ny,
                n,
            ).contains((nx, ny)),
    decreases n,
{
    if n > 0 {
        lemma_row_positions(img, width, radius, x, y, ny, n - 1);
        let p = row_positions(x, y, radius, ny, n - 1);
        let q = row_positions(x, y, radius, ny, n);
        let sp = row_neighbors(img, width, radius, x, y, ny, n - 1);
        let sq = row_neighbors(img, width, radius, x, y, ny, n);
        assert forall|i: int| 0 <= i < q.len() implies {
            let e = #[trigger] q[i];
            &&& e.1 == ny
            &&& 0 <= e.0 < n
            &&& in_circle(x, y, e.0, ny, radius)
            &&& sq[i] == crate::blur::sample_at(img, width, x, y, e.0, ny)
        } by {
            if i < p.len() {
                assert(q[i] == p[i]);
                assert(sq[i] == sp[i]);
            }
        }
        assert forall|i: int, j: int| 0 <= i < j < q.len() implies (#[trigger] q[i]).0 < (
        #[trigger] q[j]).0 by {
            assert(p[i] == q[i]);
            if j < p.len() {
                assert(p[j] == q[j]);
            }
        }
        assert forall|nx: int| 0 <= nx < n && in_circle(x, y, nx, ny, radius) implies #[trigger] q.contains(
            (nx, ny),
        ) by {
            if nx < n - 1 {
                assert(p.contains((nx, ny)));
                let k = choose|k: int| 0 <= k < p.len() && p[k] == (nx, ny);
                assert(q[k] == (nx, ny));
            } else {
                assert(q[q.len() - 1] == (nx, ny));
            }
        }
    }
}

proof fn lemma_grid_positions(img: Seq<u8>, width: int, radius: int, x: int, y: int, m: int)
    requires
        0 <= m,
        0 <= width,
    ensures
        grid_positions(x, y, radius, width, m).len() == grid_neighbors(
            img,
            width,
            radius,
            x,
            y,
            m,
        ).len(),
        forall|i: int|
            0 <= i < grid_positions(x, y, radius, width, m).len() ==> {
                let p = #[trigger] grid_positions(x, y, radius, width, m)[i];
                &&& 0 <= p.0 < width
                &&& 0 <= p.1 < m
                &&& in_circle(x, y, p.0, p.1, radius)
                &&& grid_neighbors(img, width, radius, x, y, m)[i] == crate::blur::sample_at(
                    img,
                    width,
                    x,
                    y,
                    p.0,
                    p.1,
                )
            },
        forall|i: int, j: int|
            0 <= i < j < grid_positions(x, y, radius, width, m).len() ==> {
                let a = #[trigger] grid_positions(x, y, radius, width, m)[i];
                let b = #[trigger] grid_positions(x, y, radius, width, m)[j];
                a.1 < b.1 || (a.1 == b.1 && a.0 < b.0)
            },
        forall|nx: int, ny: int|
            0 <= nx < width && 0 <= ny < m && in_circle(x, y, nx, ny, radius)
                ==> #[trigger] grid_positions(x, y, radius, width, m).contains((nx, ny)),
    decreases m,
{
    if m > 0 {
        lemma_grid_positions(img, width, radius, x, y, m - 1);
        lemma_row_positions(img, width, radius, x, y, m - 1, width);
        let f = grid_positions(x, y, radius, width, m - 1);
        let b = row_positions(x, y, radius, m - 1, width);
        let g = grid_positions(x, y, radius, width, m);
        let sf = grid_neighbors(img, width, radius, x, y, m - 1);
        let sb = row_neighbors(img, width, radius, x, y, m - 1, width);
        let sg = grid_neighbors(img, width, radius, x, y, m);
        assert(g == f + b);
        assert(sg == sf + sb);
        assert forall|i: int| 0 <= i < g.len() implies {
            let e = #[trigger] g[i];
            &&& 0 <= e.0 < width
            &&& 0 <= e.1 < m
            &&& in_circle(x, y, e.0, e.1, radius)
            &&& sg[i] == crate::blur::sample_at(img, width, x, y, e.0, e.1)
        } by {
            if i < f.len() {
                assert(g[i] == f[i]);
                assert(sg[i] == sf[i]);
            } else {
                assert(g[i] == b[i - f.len()]);
                assert(sg[i] == sb[i - f.len()]);
            }
        }
        assert forall|i: int, j: int| 0 <= i < j < g.len() implies {
            let a = #[trigger] g[i];
            let c = #[trigger] g[j];
            a.1 < c.1 || (a.1 == c.1 && a.0 < c.0)
        } by {
            if j < f.len() {
                assert(g[i] == f[i]);
                assert(g[j] == f[j]);
            } else if i < f.len() {
                assert(g[i] == f[i]);
                assert(g[j] == b[j - f.len()]);
            } else {
                assert(g[i] == b[i - f.len()]);
                assert(g[j] == b[j - f.len()]);
            }
        }
        assert forall|nx: int, ny: int|
            0 <= nx < width && 0 <= ny < m && in_circle(x, y, nx, ny, radius) implies #[trigger] g.contains(
            (nx, ny),
        ) by {
            if ny < m - 1 {
                assert(f.contains((nx, ny)));
                let k = choose|k: int| 0 <= k < f.len() && f[k] == (nx, ny);
                assert(g[k] == (nx, ny));
            } else {
                assert(b.contains((nx, ny)));
                let k = choose|k: int| 0 <= k < b.len() && b[k] == (nx, ny);
                assert(g[f.len() + k] == (nx, ny));
            }
        }
    }
}

proof fn lemma_square_of_abs(a: int, b: int)
    ensures
        abs_diff(a, b) * abs_diff(a, b) == (a - b) * (a - b),
{
    if a < b {
        assert((b - a) * (b - a) == (a - b) * (a - b)) by (nonlinear_arith);
    }
}

/// Law: the samples averaged for pixel `(x, y)` are exactly the pixels
/// `(nx, ny)` of the `width` x `height` image with
/// `0 < (nx - x)^2 + (ny - y)^2 <= radius^2`, each once and in row-major order;
/// each sample carries the offsets `|nx - x|`, `|ny - y|` and the colour stored
/// in `img` at that pixel (bytes `4 * (ny * width + nx) ..` of the RGBA8 buffer).
pub proof fn neighborhood_is_the_disc(
    img: Seq<u8>,
    width: int,
    height: int,
    radius: u32,
    x: int,
    y: int,
)
    requires
        0 <= width,
        0 <= height,
    ensures
        exists|pos: Seq<(int, int)>|
            #![trigger pos.len()]
            {
                let s = neighborhood(img, width, height, radius as int, x, y);
                &&& pos.len() == s.len()
                &&& forall|i: int|
                    0 <= i < s.len() ==> {
                        let nx = (#[trigger] pos[i]).0;
                        let ny = pos[i].1;
                        let k = 4 * (ny * width + nx);
                        &&& 0 <= nx < width
                        &&& 0 <= ny < height
                        &&& 0 < (nx - x) * (nx - x) + (ny - y) * (ny - y) <= radius * radius
                        &&& s[i].dx == (if nx >= x {
                            nx - x
                        } else {
                            x - nx
                        })
                        &&& s[i].dy == (if ny >= y {
                            ny - y
                        } else {
                            y - ny
                        })
                        &&& s[i].color == Rgba {
                            r: img[k],
                            g: img[k + 1],
                            b: img[k + 2],
                            a: img[k + 3],
                        }
                    }
                &&& forall|i: int, j: int|
                    0 <= i < j < s.len() ==> {
                        let p = #[trigger] pos[i];
                        let q = #[trigger] pos[j];
                        p.1 < q.1 || (p.1 == q.1 && p.0 < q.0)
                    }
                &&& forall|cx: int, cy: int|
                    0 <= cx < width && 0 <= cy < height && 0 < (cx - x) * (cx - x) + (cy - y) * (
                    cy - y) <= radius * radius ==> #[trigger] pos.contains((cx, cy))
            },
{
    let r = radius as int;
    lemma_grid_positions(img, width, r, x, y, height);
    let pos = grid_positions(x, y, r, width, height);
    let s = neighborhood(img, width, height, r, x, y);
    assert forall|i: int| 0 <= i < s.len() implies {
        let nx = (#[trigger] pos[i]).0;
        let ny = pos[i].1;
        let k = 4 * (ny * width + nx);
        &&& 0 <= nx < width
        &&& 0 <= ny < height
        &&& 0 < (nx - x) * (nx - x) + (ny - y) * (ny - y) <= radius * radius
        &&& s[i].dx == (if nx >= x {
            nx - x
        } else {
            x - nx
        })
        &&& s[i].dy == (if ny >= y {
            ny - y
        } else {
            y - ny
        })
        &&& s[i].color == Rgba { r: img[k], g: img[k + 1], b: img[k + 2], a: img[k + 3] }
    } by {
        let nx = pos[i].0;
        let ny = pos[i].1;
        lemma_square_of_abs(nx, x);
        lemma_square_of_abs(ny, y);
        lemma_in_circle_sample(x, y, nx, ny, r);
    }
    assert forall|nx: int, ny: int|
        0 <= nx < width && 0 <= ny < height && 0 < (nx - x) * (nx - x) + (ny - y) * (ny - y)
            <= radius * radius implies #[trigger] pos.contains((nx, ny)) by {
        lemma_square_of_abs(nx, x);
        lemma_square_of_abs(ny, y);
        assert(in_circle(x, y, nx, ny, r));
    }
    assert(pos.len() == s.len());
}


/// Law: one blur step at pixel `(x, y)` keeps every byte of the buffer but the
/// four bytes `4 * (y * width + x) ..` of that pixel. When the pixel has
/// neighbours, those bytes become an answer of the weighted mean for exactly
/// the neighbourhood of the image as it stands before the step; when it has
/// none, nothing changes.
pub proof fn step_writes_only_its_pixel<F: Fn(&Vec<Sample>) -> Rgba>(
    mean: F,
    before: Seq<u8>,
    after: Seq<u8>,
    width: int,
    height: int,
    radius: int,
    x: int,
    y: int,
)
    requires
        0 <= x < width,
        0 <= y < height,
        4 * (width * height) <= before.len(),
        pixel_step(mean, before, after, width, height, radius, x, y),
    ensures
        after.len() == before.len(),
        forall|j: int|
            0 <= j < before.len() && (j < 4 * (y * width + x) || 4 * (y * width + x) + 4 <= j)
                ==> after[j] == before[j],
        neighborhood(before, width, height, radius, x, y).len() == 0 ==> after == before,
        neighborhood(before, width, height, radius, x, y).len() > 0 ==> exists|
            v: Vec<Sample>,
            c: Rgba,
        |
            #[trigger] call_ensures(mean, (&v,), c) && v@ == neighborhood(
                before,
                width,
                height,
                radius,
                x,
                y,
            ) && after[4 * (y * width + x)] == c.r && after[4 * (y * width + x) + 1] == c.g
                && after[4 * (y * width + x) + 2] == c.b && after[4 * (y * width + x) + 3] == c.a,
{
    lemma_pixel_in_bounds(width, height, x, y);
    let s = neighborhood(before, width, height, radius, x, y);
    if s.len() > 0 {
        let c = choose|c: Rgba| #[trigger]
            mean_gives(mean, s, c) && after == with_pixel(before, width, x, y, c);
        let v = choose|v: Vec<Sample>| v@ == s && #[trigger] call_ensures(mean, (&v,), c);
        assert(call_ensures(mean, (&v,), c));
    }
}

} // verus!
