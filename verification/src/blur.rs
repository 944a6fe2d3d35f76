use vstd::prelude::*;

verus! {

/// Parameters of the blur plugin, as read from its YAML file.
#[derive(Debug, Clone, Copy, PartialEq, Eq)]
pub struct Params {
    /// Radius of the circular neighbourhood, in pixels; `0` disables the blur.
    pub radius: u32,
    /// How many times the whole image is blurred; `0` disables the blur.
    pub iterations: u32,
}

impl Default for Params {
    /// The parameters used when none can be read: they leave the image as it is.
    fn default() -> (p: Self)
        ensures
            p.radius == 0,
            p.iterations == 0,
    {
        Params { radius: 0, iterations: 0 }
    }
}

/// One RGBA8 pixel.
#[derive(Debug, Clone, Copy, PartialEq, Eq)]
pub struct Rgba {
    pub r: u8,
    pub g: u8,
    pub b: u8,
    pub a: u8,
}

/// A neighbour that takes part in the weighted average of a pixel: its colour
/// and its horizontal and vertical distance from the pixel being blurred.
#[derive(Debug, Clone, Copy, PartialEq, Eq)]
pub struct Sample {
    pub color: Rgba,
    pub dx: u32,
    pub dy: u32,
}

pub open spec fn abs_diff(a: int, b: int) -> int {
    if a >= b {
        a - b
    } else {
        b - a
    }
}

/// Pixel `(nx, ny)` lies in the circle of radius `radius` around `(x, y)` and is
/// not its centre.
pub open spec fn in_circle(x: int, y: int, nx: int, ny: int, radius: int) -> bool {
    let dx = abs_diff(nx, x);
    let dy = abs_diff(ny, y);
    0 < dx * dx + dy * dy <= radius * radius
}

/// Index of the first byte of pixel `(x, y)` in a row-major RGBA8 buffer.
pub open spec fn pixel_offset(width: int, x: int, y: int) -> int {
    4 * (y * width + x)
}

pub open spec fn pixel_at(img: Seq<u8>, width: int, x: int, y: int) -> Rgba {
    let i = pixel_offset(width, x, y);
    Rgba { r: img[i], g: img[i + 1], b: img[i + 2], a: img[i + 3] }
}

/// The buffer with pixel `(x, y)` set to `c`.
pub open spec fn with_pixel(img: Seq<u8>, width: int, x: int, y: int, c: Rgba) -> Seq<u8> {
    let i = pixel_offset(width, x, y);
    img.update(i, c.r).update(i + 1, c.g).update(i + 2, c.b).update(i + 3, c.a)
}

pub open spec fn sample_at(img: Seq<u8>, width: int, x: int, y: int, nx: int, ny: int) -> Sample {
    Sample {
        color: pixel_at(img, width, nx, ny),
        dx: abs_diff(nx, x) as u32,
        dy: abs_diff(ny, y) as u32,
    }
}

/// Samples of row `ny`, columns `0 .. n`, that lie in the circle around `(x, y)`,
/// from left to right.
pub open spec fn row_neighbors(
    img: Seq<u8>,
    width: int,
    radius: int,
    x: int,
    y: int,
    ny: int,
    n: int,
) -> Seq<Sample>
    decreases n,
{
    if n <= 0 {
        Seq::empty()
    } else {
        let before = row_neighbors(img, width, radius, x, y, ny, n - 1);
        if in_circle(x, y, n - 1, ny, radius) {
            before.push(sample_at(img, width, x, y, n - 1, ny))
        } else {
            before
        }
    }
}

/// Samples of rows `0 .. m` (all `width` columns) that lie in the circle around
/// `(x, y)`, in row-major order.
pub open spec fn grid_neighbors(
    img: Seq<u8>,
    width: int,
    radius: int,
    x: int,
    y: int,
    m: int,
) -> Seq<Sample>
    decreases m,
{
    if m <= 0 {
        Seq::empty()
    } else {
        grid_neighbors(img, width, radius, x, y, m - 1) + row_neighbors(
            img,
            width,
            radius,
            x,
            y,
            m - 1,
            width,
        )
    }
}

/// Every pixel of the `width` x `height` image within distance `radius` of
/// `(x, y)`, the pixel itself excluded, in row-major order.
pub open spec fn neighborhood(
    img: Seq<u8>,
    width: int,
    height: int,
    radius: int,
    x: int,
    y: int,
) -> Seq<Sample> {
    grid_neighbors(img, width, radius, x, y, height)
}


/// `mean` may answer `c` when asked for the weighted average of `samples`.
pub open spec fn mean_gives<F: Fn(&Vec<Sample>) -> Rgba>(mean: F, samples: Seq<Sample>, c: Rgba) -> bool {
    exists|v: Vec<Sample>| v@ == samples && #[trigger] call_ensures(mean, (&v,), c)
}

/// One step of the blur: pixel `(x, y)` of `before` is replaced by the weighted
/// average of its neighbourhood, or kept when the neighbourhood is empty.
pub open spec fn pixel_step<F: Fn(&Vec<Sample>) -> Rgba>(
    mean: F,
    before: Seq<u8>,
    after: Seq<u8>,
    width: int,
    height: int,
    radius: int,
    x: int,
    y: int,
) -> bool {
    let s = neighborhood(before, width, height, radius, x, y);
    if s.len() == 0 {
        after == before
    } else {
        exists|c: Rgba|
            #[trigger] mean_gives(mean, s, c) && after == with_pixel(before, width, x, y, c)
    }
}

/// `states` are the images seen while blurring row `y` left to right:
/// `states[i + 1]` is `states[i]` after pixel `(i, y)` has been blurred.
pub open spec fn row_steps<F: Fn(&Vec<Sample>) -> Rgba>(
    mean: F,
    states: Seq<Seq<u8>>,
    width: int,
    height: int,
    radius: int,
    y: int,
) -> bool {
    &&& states.len() == width + 1
    &&& forall|i: int|
        0 <= i < width ==> #[trigger] pixel_step(
            mean,
            states[i],
            states[i + 1],
            width,
            height,
            radius,
            i,
            y,
        )
}

/// `after` is reached from `before` by blurring every pixel of row `y`.
pub open spec fn row_pass<F: Fn(&Vec<Sample>) -> Rgba>(
    mean: F,
    before: Seq<u8>,
    after: Seq<u8>,
    width: int,
    height: int,
    radius: int,
    y: int,
) -> bool {
    exists|states: Seq<Seq<u8>>|
        #[trigger] row_steps(mean, states, width, height, radius, y) && states[0] == before
            && states[width] == after
}

/// `states` are the images seen while blurring the rows top to bottom:
/// `states[j + 1]` is `states[j]` after row `j` has been blurred.
pub open spec fn image_steps<F: Fn(&Vec<Sample>) -> Rgba>(
    mean: F,
    states: Seq<Seq<u8>>,
    width: int,
    height: int,
    radius: int,
) -> bool {
    &&& states.len() == height + 1
    &&& forall|j: int|
        0 <= j < height ==> #[trigger] row_pass(
            mean,
            states[j],
            states[j + 1],
            width,
            height,
            radius,
            j,
        )
}

/// `after` is reached from `before` by one pass over the whole image.
pub open spec fn image_pass<F: Fn(&Vec<Sample>) -> Rgba>(
    mean: F,
    before: Seq<u8>,
    after: Seq<u8>,
    width: int,
    height: int,
    radius: int,
) -> bool {
    exists|states: Seq<Seq<u8>>|
        #[trigger] image_steps(mean, states, width, height, radius) && states[0] == before
            && states[height] == after
}

/// `states` are the images between successive passes.
pub open spec fn pass_steps<F: Fn(&Vec<Sample>) -> Rgba>(
    mean: F,
    states: Seq<Seq<u8>>,
    width: int,
    height: int,
    radius: int,
    k: int,
) -> bool {
    &&& states.len() == k + 1
    &&& forall|p: int|
        0 <= p < k ==> #[trigger] image_pass(mean, states[p], states[p + 1], width, height, radius)
}

/// `after` is reached from `before` by `k` passes over the whole image.
pub open spec fn repeated_passes<F: Fn(&Vec<Sample>) -> Rgba>(
    mean: F,
    before: Seq<u8>,
    after: Seq<u8>,
    width: int,
    height: int,
    radius: int,
    k: int,
) -> bool {
    exists|states: Seq<Seq<u8>>|
        #[trigger] pass_steps(mean, states, width, height, radius, k) && states[0] == before
            && states[k] == after
}

/// `after` is a possible result of blurring `before` with `params`, given the
/// answers of `mean`.
pub open spec fn is_blur_of<F: Fn(&Vec<Sample>) -> Rgba>(
    mean: F,
    before: Seq<u8>,
    after: Seq<u8>,
    width: int,
    height: int,
    params: Params,
) -> bool {
    repeated_passes(mean, before, after, width, height, params.radius as int, params.iterations as int)
}

/// The inputs on which blurring neither overflows its `u32` arithmetic nor reads
/// past the buffer.
pub open spec fn blur_inputs_ok(len: int, width: int, height: int, params: Params) -> bool {
    params.radius == 0 || params.iterations == 0 || width == 0 || height == 0 || {
        &&& width - 1 + params.radius <= u32::MAX
        &&& height - 1 + params.radius <= u32::MAX
        &&& 4 * (width * height - 1) <= u32::MAX
        &&& 4 * (width * height) <= len
    }
}

proof fn lemma_far_not_in_circle(x: int, y: int, nx: int, ny: int, radius: int)
    requires
        radius >= 0,
        abs_diff(nx, x) > radius || abs_diff(ny, y) > radius,
    ensures
        !in_circle(x, y, nx, ny, radius),
{
    let dx = abs_diff(nx, x);
    let dy = abs_diff(ny, y);
    assert(dx * dx + dy * dy > radius * radius) by (nonlinear_arith)
        requires
            dx >= 0,
            dy >= 0,
            radius >= 0,
            dx > radius || dy > radius,
    ;
}

/// Columns `a .. b` of row `ny` add no sample when none of them is in the circle.
proof fn lemma_row_skip(
    img: Seq<u8>,
    width: int,
    radius: int,
    x: int,
    y: int,
    ny: int,
    a: int,
    b: int,
)
    requires
        0 <= a <= b,
        forall|n: int| a <= n < b ==> !#[trigger] in_circle(x, y, n, ny, radius),
    ensures
        row_neighbors(img, width, radius, x, y, ny, b) == row_neighbors(
            img,
            width,
            radius,
            x,
            y,
            ny,
            a,
        ),
    decreases b - a,
{
    if b > a {
        lemma_row_skip(img, width, radius, x, y, ny, a, b - 1);
        assert(!in_circle(x, y, b - 1, ny, radius));
    }
}

/// Rows `a .. b` add no sample when none of their pixels is in the circle.
proof fn lemma_grid_skip(img: Seq<u8>, width: int, radius: int, x: int, y: int, a: int, b: int)
    requires
        0 <= a <= b,
        forall|n: int, row: int| a <= row < b ==> !#[trigger] in_circle(x, y, n, row, radius),
    ensures
        grid_neighbors(img, width, radius, x, y, b) == grid_neighbors(
            img,
            width,
            radius,
            x,
            y,
            a,
        ),
    decreases b - a,
{
    if b > a {
        lemma_grid_skip(img, width, radius, x, y, a, b - 1);
        if width > 0 {
            lemma_row_skip(img, width, radius, x, y, b - 1, 0, width);
        }
        assert(row_neighbors(img, width, radius, x, y, b - 1, width) =~= Seq::<Sample>::empty());
        assert(grid_neighbors(img, width, radius, x, y, b) =~= grid_neighbors(
            img,
            width,
            radius,
            x,
            y,
            b - 1,
        ));
    }
}

pub(crate) proof fn lemma_pixel_in_bounds(width: int, height: int, x: int, y: int)
    requires
        0 <= x < width,
        0 <= y < height,
    ensures
        0 <= y * width + x < width * height,
        0 <= y * width,
{
    assert(0 <= y * width + x < width * height) by (nonlinear_arith)
        requires
            0 <= x < width,
            0 <= y < height,
    ;
    assert(0 <= y * width) by (nonlinear_arith)
        requires
            0 <= x < width,
            0 <= y < height,
    ;
}

/// With radius zero no pixel has a neighbour.
pub(crate) proof fn lemma_zero_radius_no_neighbors(img: Seq<u8>, width: int, height: int, x: int, y: int)
    ensures
        neighborhood(img, width, height, 0, x, y) == Seq::<Sample>::empty(),
{
    if height > 0 {
        assert forall|n: int, row: int| 0 <= row < height implies !#[trigger] in_circle(
            x,
            y,
            n,
            row,
            0,
        ) by {
            let dx = abs_diff(n, x);
            let dy = abs_diff(row, y);
            assert(dx * dx + dy * dy >= 0) by (nonlinear_arith)
                requires
                    dx >= 0,
                    dy >= 0,
            ;
        }
        lemma_grid_skip(img, width, 0, x, y, 0, height);
    }
}

/// With radius zero every pass leaves the image as it is.
proof fn lemma_zero_radius_image_pass<F: Fn(&Vec<Sample>) -> Rgba>(
    mean: F,
    img: Seq<u8>,
    width: int,
    height: int,
)
    requires
        width >= 0,
        height >= 0,
    ensures
        image_pass(mean, img, img, width, height, 0),
{
    let row = Seq::new((width + 1) as nat, |i: int| img);
    assert forall|j: int| 0 <= j < height implies #[trigger] row_pass(
        mean,
        img,
        img,
        width,
        height,
        0,
        j,
    ) by {
        assert forall|i: int| 0 <= i < width implies #[trigger] pixel_step(
            mean,
            row[i],
            row[i + 1],
            width,
            height,
            0,
            i,
            j,
        ) by {
            lemma_zero_radius_no_neighbors(img, width, height, i, j);
        }
        assert(row_steps(mean, row, width, height, 0, j));
    }
    let rows = Seq::new((height + 1) as nat, |j: int| img);
    assert(image_steps(mean, rows, width, height, 0));
}

/// With radius zero, or no pass at all, the image itself is a result of the blur.
proof fn lemma_zero_radius_reaches_itself<F: Fn(&Vec<Sample>) -> Rgba>(
    mean: F,
    img: Seq<u8>,
    width: int,
    height: int,
    radius: int,
    k: int,
)
    requires
        radius == 0 || k == 0,
        k >= 0,
        width >= 0,
        height >= 0,
    ensures
        repeated_passes(mean, img, img, width, height, radius, k),
{
    let passes = Seq::new((k + 1) as nat, |p: int| img);
    if k > 0 {
        lemma_zero_radius_image_pass(mean, img, width, height);
    }
    assert(pass_steps(mean, passes, width, height, radius, k));
}

fn square(v: u32) -> (s: u128)
    ensures
        s == v * v,
        s <= 0xffff_fffe_0000_0001,
{
    let w = v as u128;
    proof {
        assert(w * w <= 0xffff_fffe_0000_0001) by (nonlinear_arith)
            requires
                w <= 0xffff_ffff,
        ;
    }
    w * w
}

fn is_in_circle(x: u32, y: u32, nx: u32, ny: u32, radius: u32) -> (b: bool)
    ensures
        b == in_circle(x as int, y as int, nx as int, ny as int, radius as int),
{
    let dx = if nx >= x {
        nx - x
    } else {
        x - nx
    };
    let dy = if ny >= y {
        ny - y
    } else {
        y - ny
    };
    let d2 = square(dx) + square(dy);
    0 < d2 && d2 <= square(radius)
}

/// Index of the first byte of pixel `(x, y)`; all four bytes of the pixel lie
/// inside a buffer of `len` bytes.
fn pixel_index(len: usize, width: u32, height: u32, x: u32, y: u32) -> (i: usize)
    requires
        x < width,
        y < height,
        4 * (width * height) <= len,
    ensures
        i == pixel_offset(width as int, x as int, y as int),
        i + 3 < len,
{
    proof {
        lemma_pixel_in_bounds(width as int, height as int, x as int, y as int);
    }
    let row = y as usize * width as usize;
    4 * (row + x as usize)
}

fn read_pixel(image: &[u8], width: u32, height: u32, x: u32, y: u32) -> (c: Rgba)
    requires
        x < width,
        y < height,
        4 * (width * height) <= image@.len(),
    ensures
        c == pixel_at(image@, width as int, x as int, y as int),
{
    let i = pixel_index(image.len(), width, height, x, y);
    Rgba { r: image[i], g: image[i + 1], b: image[i + 2], a: image[i + 3] }
}

fn write_pixel(image: &mut [u8], width: u32, height: u32, x: u32, y: u32, c: Rgba)
    requires
        x < width,
        y < height,
        4 * (width * height) <= old(image)@.len(),
    ensures
        final(image)@ == with_pixel(old(image)@, width as int, x as int, y as int, c),
        final(image)@.len() == old(image)@.len(),
{
    let i = pixel_index(image.len(), width, height, x, y);
    image[i] = c.r;
    image[i + 1] = c.g;
    image[i + 2] = c.b;
    image[i + 3] = c.a;
}

/// The samples that the weighted average of pixel `(x, y)` is taken over: only
/// the square window of side `2 * radius + 1` around the pixel is visited.
fn collect_neighborhood(image: &[u8], width: u32, height: u32, radius: u32, x: u32, y: u32) -> (samples: Vec<Sample>)
    requires
        x < width,
        y < height,
        width - 1 + radius <= u32::MAX,
        height - 1 + radius <= u32::MAX,
        4 * (width * height) <= image@.len(),
    ensures
        samples@ == neighborhood(image@, width as int, height as int, radius as int, x as int, y as int),
{
    let ghost img = image@;
    let ghost (w, h, r) = (width as int, height as int, radius as int);
    let x_min = if x >= radius { x - radius } else { 0 };
    let y_min = if y >= radius { y - radius } else { 0 };
    let x_max = if x + radius < width - 1 { x + radius } else { width - 1 };
    let y_max = if y + radius < height - 1 { y + radius } else { height - 1 };
    proof {
        assert forall|n: int, row: int| 0 <= row < y_min implies !#[trigger] in_circle(
            x as int,
            y as int,
            n,
            row,
            r,
        ) by {
            lemma_far_not_in_circle(x as int, y as int, n, row, r);
        }
        lemma_grid_skip(img, w, r, x as int, y as int, 0, y_min as int);
    }
    let mut samples: Vec<Sample> = Vec::new();
    let mut ny = y_min;
    while ny <= y_max
        invariant
            x < width,
            y < height,
            4 * (width * height) <= image@.len(),
            img == image@,
            w == width,
            h == height,
            r == radius,
            x_min <= x <= x_max < width,
            y_min <= y <= y_max < height,
            x_max == width - 1 || x_max == x + radius,
            x_min == 0 || x_min == x - radius,
            y_max == height - 1 || y_max == y + radius,
            y_min <= ny <= y_max + 1,
            samples@ == grid_neighbors(img, w, r, x as int, y as int, ny as int),
        decreases y_max + 1 - ny,
    {
        proof {
            assert forall|n: int| 0 <= n < x_min implies !#[trigger] in_circle(
                x as int,
                y as int,
                n,
                ny as int,
                r,
            ) by {
                lemma_far_not_in_circle(x as int, y as int, n, ny as int, r);
            }
            lemma_row_skip(img, w, r, x as int, y as int, ny as int, 0, x_min as int);
        }
        let ghost rows_before = samples@;
        let mut nx = x_min;
        while nx <= x_max
            invariant
                x < width,
                y < height,
                ny < height,
                4 * (width * height) <= image@.len(),
                img == image@,
                w == width,
                r == radius,
                x_min <= nx <= x_max + 1,
                x_max < width,
                samples@ == rows_before + row_neighbors(
                    img,
                    w,
                    r,
                    x as int,
                    y as int,
                    ny as int,
                    nx as int,
                ),
            decreases x_max + 1 - nx,
        {
            if is_in_circle(x, y, nx, ny, radius) {
                let color = read_pixel(image, width, height, nx, ny);
                let dx = if nx >= x { nx - x } else { x - nx };
                let dy = if ny >= y { ny - y } else { y - ny };
                samples.push(Sample { color, dx, dy });
            }
            proof {
                assert(samples@ =~= rows_before + row_neighbors(
                    img,
                    w,
                    r,
                    x as int,
                    y as int,
                    ny as int,
                    nx + 1,
                ));
            }
            nx = nx + 1;
        }
        proof {
            assert forall|n: int| nx <= n < width implies !#[trigger] in_circle(
                x as int,
                y as int,
                n,
                ny as int,
                r,
            ) by {
                lemma_far_not_in_circle(x as int, y as int, n, ny as int, r);
            }
            lemma_row_skip(img, w, r, x as int, y as int, ny as int, nx as int, w);
            assert(samples@ =~= grid_neighbors(img, w, r, x as int, y as int, ny + 1));
        }
        ny = ny + 1;
    }
    proof {
        assert forall|n: int, row: int| ny <= row < height implies !#[trigger] in_circle(
            x as int,
            y as int,
            n,
            row,
            r,
        ) by {
            lemma_far_not_in_circle(x as int, y as int, n, row, r);
        }
        lemma_grid_skip(img, w, r, x as int, y as int, ny as int, h);
    }
    samples
}


/// Applies the weighted circular blur to the RGBA8 buffer `image` of a
/// `width` x `height` image.
///
/// Each pixel, in row-major order, is replaced by the weighted average that
/// `weighted_mean` computes over the pixels within distance `params.radius` of
/// it (the pixel itself excluded), as the image stands at that moment; a pixel
/// with no such neighbour is kept. The whole pass is repeated
/// `params.iterations` times. A zero radius or zero iterations leave the image
/// unchanged.
pub fn blur<F: Fn(&Vec<Sample>) -> Rgba>(
    image: &mut [u8],
    width: u32,
    height: u32,
    params: &Params,
    weighted_mean: F,
)
    requires
        blur_inputs_ok(old(image)@.len() as int, width as int, height as int, *params),
        forall|v: &Vec<Sample>| v@.len() > 0 ==> #[trigger] call_requires(weighted_mean, (v,)),
    ensures
        is_blur_of(weighted_mean, old(image)@, final(image)@, width as int, height as int, *params),
        params.radius == 0 || params.iterations == 0 ==> final(image)@ == old(image)@,
{
    if params.radius == 0 || params.iterations == 0 {
        proof {
            lemma_zero_radius_reaches_itself(
                weighted_mean,
                image@,
                width as int,
                height as int,
                params.radius as int,
                params.iterations as int,
            );
        }
        return;
    }
    let ghost original = image@;
    let ghost (w, h, r) = (width as int, height as int, params.radius as int);
    let ghost mut passes: Seq<Seq<u8>> = seq![image@];
    let mut it: u32 = 0;
    while it < params.iterations
        invariant
            it <= params.iterations,
            params.radius > 0,
            params.iterations > 0,
            w == width,
            h == height,
            r == params.radius,
            image@.len() == original.len(),
            blur_inputs_ok(original.len() as int, w, h, *params),
            forall|v: &Vec<Sample>| v@.len() > 0 ==> #[trigger] call_requires(weighted_mean, (v,)),
            passes.len() == it + 1,
            passes[0] == original,
            passes[it as int] == image@,
            forall|p: int|
                0 <= p < it ==> #[trigger] image_pass(
                    weighted_mean,
                    passes[p],
                    passes[p + 1],
                    w,
                    h,
                    r,
                ),
        decreases params.iterations - it,
    {
        let ghost pass_start = image@;
        let ghost mut rows: Seq<Seq<u8>> = seq![image@];
        let mut y: u32 = 0;
        while y < height
            invariant
                y <= height,
                params.radius > 0,
                params.iterations > 0,
                w == width,
                h == height,
                r == params.radius,
                image@.len() == original.len(),
                blur_inputs_ok(original.len() as int, w, h, *params),
                forall|v: &Vec<Sample>| v@.len() > 0 ==> #[trigger] call_requires(weighted_mean, (v,)),
                rows.len() == y + 1,
                rows[0] == pass_start,
                rows[y as int] == image@,
                forall|j: int|
                    0 <= j < y ==> #[trigger] row_pass(
                        weighted_mean,
                        rows[j],
                        rows[j + 1],
                        w,
                        h,
                        r,
                        j,
                    ),
            decreases height - y,
        {
            let ghost row_start = image@;
            let ghost mut states: Seq<Seq<u8>> = seq![image@];
            let mut x: u32 = 0;
            while x < width
                invariant
                    x <= width,
                    y < height,
                    params.radius > 0,
                    params.iterations > 0,
                    w == width,
                    h == height,
                    r == params.radius,
                    image@.len() == original.len(),
                    blur_inputs_ok(original.len() as int, w, h, *params),
                    forall|v: &Vec<Sample>| v@.len() > 0 ==> #[trigger] call_requires(weighted_mean, (v,)),
                    states.len() == x + 1,
                    states[0] == row_start,
                    states[x as int] == image@,
                    forall|i: int|
                        0 <= i < x ==> #[trigger] pixel_step(
                            weighted_mean,
                            states[i],
                            states[i + 1],
                            w,
                            h,
                            r,
                            i,
                            y as int,
                        ),
                decreases width - x,
            {
                let ghost before = image@;
                let samples = collect_neighborhood(image, width, height, params.radius, x, y);
                if samples.len() > 0 {
                    let c = weighted_mean(&samples);
                    write_pixel(image, width, height, x, y, c);
                    proof {
                        assert(mean_gives(weighted_mean, samples@, c));
                    }
                }
                proof {
                    assert(pixel_step(weighted_mean, before, image@, w, h, r, x as int, y as int));
                    states = states.push(image@);
                }
                x = x + 1;
            }
            proof {
                assert(row_steps(weighted_mean, states, w, h, r, y as int));
                assert(row_pass(weighted_mean, row_start, image@, w, h, r, y as int));
                rows = rows.push(image@);
            }
            y = y + 1;
        }
        proof {
            assert(image_steps(weighted_mean, rows, w, h, r));
            assert(image_pass(weighted_mean, pass_start, image@, w, h, r));
            passes = passes.push(image@);
        }
        it = it + 1;
    }
    proof {
        assert(pass_steps(weighted_mean, passes, w, h, r, it as int));
    }
}

} // verus!
