//! Rendering: the colour that a ray brings back, the pixel that a colour
//! becomes, and the rows of an image.

use vstd::prelude::*;
use crate::camera::Camera;
use crate::canvas::{Canvas, canvas_height, canvas_samples, canvas_width, lemma_samples_with, samples_with};
use crate::fixed::{Fixed, INFINITY, ONE, from_int, fx_int, fx_prod, fx_quot, fx_root, fx_sum, prod, quot, root, sum};
use crate::material::HitRecord;
use crate::object::{HALF, Object, scan_hits};
use crate::random::{in_unit_ball, is_fraction, random_double};
use crate::ray::Ray;
use crate::vec3::{Color, Vec3};

verus! {

/// The smallest parameter at which a hit counts: one thousandth. It keeps a
/// scattered ray from meeting the surface that it leaves.
pub const T_MIN: Fixed = 0x41_8937;

/// The largest brightness of a channel: 0.999.
pub const ALMOST_ONE: Fixed = 0xffbe_76c9;

/// The height in the sky at which a ray points, from zero (down) to one
/// (up): `(y + 1) / 2` for the `y` of the ray's unit direction.
pub open spec fn sky_height(ray: &Ray) -> Fixed {
    fx_prod(HALF, fx_sum(ray.dir.unit().y, ONE))
}

/// Whether the surface at `rec` may scatter the ray into `scattered` with
/// the tint `attenuation`, and `c` is the tint times the colour `incoming`
/// plus the light that the surface gives off.
pub open spec fn scatters_into(
    ray: &Ray,
    rec: HitRecord,
    c: Color,
    attenuation: Color,
    scattered: Ray,
    incoming: Color,
) -> bool {
    &&& rec.mat_ptr.may_scatter(ray, &rec, Some((attenuation, scattered)))
    &&& c == Vec3::elemul(attenuation, incoming).plus(rec.mat_ptr.emitted(rec.u, rec.v, &rec.p))
}

/// Whether `c` is a colour that `ray_color` may return for the ray in the
/// world with `depth` scatterings left.
///
/// With no scattering left the colour is black. A ray that meets nothing
/// brings the world's background. A ray that meets a surface brings the
/// light that the surface gives off, and, where the surface scatters the
/// ray, also the tint times a colour that the scattered ray may bring with
/// one scattering less.
pub open spec fn may_be_color(world: &Object, ray: &Ray, depth: i32, c: Color) -> bool
    decreases depth,
{
    if depth <= 0 {
        c == Color::zero()
    } else {
        match world.spec_hit(ray, T_MIN, INFINITY) {
            None => c == world.spec_background(sky_height(ray)),
            Some(rec) => {
                ||| rec.mat_ptr.may_scatter(ray, &rec, None) && c == rec.mat_ptr.emitted(
                    rec.u,
                    rec.v,
                    &rec.p,
                )
                ||| exists|attenuation: Color, scattered: Ray, incoming: Color|
                    #[trigger] scatters_into(ray, rec, c, attenuation, scattered, incoming)
                        && may_be_color(world, &scattered, (depth - 1) as i32, incoming)
            },
        }
    }
}

/// The light that the surface gives off where the ray first meets the
/// world; black if it meets nothing.
pub open spec fn light_at(world: &Object, ray: &Ray) -> Color {
    match world.spec_hit(ray, T_MIN, INFINITY) {
        Some(rec) => rec.mat_ptr.emitted(rec.u, rec.v, &rec.p),
        None => Color::zero(),
    }
}

/// A colour that is black may be the colour of any ray with no scattering
/// left.
proof fn lemma_may_be_black(world: &Object, ray: &Ray, depth: i32)
    requires
        depth <= 0,
    ensures
        may_be_color(world, ray, depth, Color::zero()),
{
}

/// The background may be the colour of a ray that meets nothing.
proof fn lemma_may_be_background(world: &Object, ray: &Ray, depth: i32)
    requires
        depth > 0,
        world.spec_hit(ray, T_MIN, INFINITY) is None,
    ensures
        may_be_color(world, ray, depth, world.spec_background(sky_height(ray))),
{
}

/// The light of the surface may be the colour of a ray that the surface
/// may absorb.
proof fn lemma_may_be_emitted(world: &Object, ray: &Ray, depth: i32)
    requires
        depth > 0,
        world.spec_hit(ray, T_MIN, INFINITY) matches Some(rec) && rec.mat_ptr.may_scatter(
            ray,
            &rec,
            None,
        ),
    ensures
        may_be_color(world, ray, depth, light_at(world, ray)),
{
}

/// The tint times a colour of the scattered ray, plus the light of the
/// surface, may be the colour of a ray that the surface may scatter so.
proof fn lemma_may_be_scattered(
    world: &Object,
    ray: &Ray,
    depth: i32,
    attenuation: Color,
    scattered: Ray,
    incoming: Color,
)
    requires
        depth > 0,
        world.spec_hit(ray, T_MIN, INFINITY) matches Some(rec) && rec.mat_ptr.may_scatter(
            ray,
            &rec,
            Some((attenuation, scattered)),
        ),
        may_be_color(world, &scattered, (depth - 1) as i32, incoming),
    ensures
        may_be_color(
            world,
            ray,
            depth,
            Vec3::elemul(attenuation, incoming).plus(light_at(world, ray)),
        ),
{
    let rec = world.spec_hit(ray, T_MIN, INFINITY).unwrap();
    let c = Vec3::elemul(attenuation, incoming).plus(light_at(world, ray));
    assert(scatters_into(ray, rec, c, attenuation, scattered, incoming));
}

/// The colour that the ray brings back from the world, with at most `depth`
/// scatterings.
pub fn ray_color(ray: &Ray, world: &Object, depth: i32) -> (c: Color)
    ensures
        may_be_color(world, ray, depth, c),
        depth <= 0 ==> c == Color::zero(),
        depth > 0 && world.spec_hit(ray, T_MIN, INFINITY) is None ==> c == world.spec_background(
            sky_height(ray),
        ),
    decreases depth,
{
    let rec = world.hit(ray, T_MIN, INFINITY);

    if depth <= 0 {
        proof {
            lemma_may_be_black(world, ray, depth);
        }
        return Color::zero();
    }
    match rec {
        Some(cur_rec) => {
            let emitted = cur_rec.mat_ptr.emitted(cur_rec.u, cur_rec.v, &cur_rec.p);
            let cur_data = cur_rec.mat_ptr.scatter(ray, &cur_rec);
            match cur_data {
                Some((attenuation, scattered)) => {
                    let incoming = ray_color(&scattered, world, depth - 1);
                    proof {
                        lemma_may_be_scattered(world, ray, depth, attenuation, scattered, incoming);
                    }
                    Vec3::elemul(attenuation, incoming).plus(emitted)
                },
                None => {
                    proof {
                        lemma_may_be_emitted(world, ray, depth);
                    }
                    emitted
                },
            }
        },
        None => {
            proof {
                lemma_may_be_background(world, ray, depth);
            }
            let u = ray.dir.unit();
            let t = prod(HALF, sum(u.y, ONE));
            world.get_background(t)
        },
    }
}

/// With no scattering left, a ray brings back black.
pub proof fn lemma_no_depth_is_black(world: &Object, ray: &Ray, depth: i32, c: Color)
    requires
        depth <= 0,
        may_be_color(world, ray, depth, c),
    ensures
        c == Color::zero(),
{
}

/// A ray that meets nothing brings back the world's background, however
/// many scatterings are left.
pub proof fn lemma_miss_is_background(world: &Object, ray: &Ray, depth: i32, c: Color)
    requires
        depth > 0,
        may_be_color(world, ray, depth, c),
        world.spec_hit(ray, T_MIN, INFINITY) is None,
    ensures
        c == world.spec_background(sky_height(ray)),
{
}

/// In a world that is an empty list every ray brings back the background,
/// however many scatterings are left.
pub proof fn lemma_empty_world_is_background(world: &Object, ray: &Ray, depth: i32, c: Color)
    requires
        depth > 0,
        may_be_color(world, ray, depth, c),
        world matches Object::List(l) && l.objects@.len() == 0,
    ensures
        c == world.spec_background(sky_height(ray)),
{
    let l = world->List_0;
    assert(scan_hits(l.objects@, 0, ray, T_MIN, INFINITY) is None);
    assert(world.spec_hit(ray, T_MIN, INFINITY) is None);
}

/// The value held between `min` and `max`.
pub open spec fn spec_within(min: Fixed, max: Fixed, value: Fixed) -> Fixed {
    if value > max {
        max
    } else if value < min {
        min
    } else {
        value
    }
}

/// The eight bits of a channel of the brightness `c`: the square root of
/// `c` (the gamma correction), held between 0 and 0.999, times 256, without
/// its fraction.
pub open spec fn channel_byte(c: Fixed) -> u8 {
    ((spec_within(0, ALMOST_ONE, fx_root(c)) * 256) / (ONE as int)) as u8
}

/// The pixel of a colour: the bytes of its red, green and blue.
pub open spec fn pixel_bytes(color: Color) -> (u8, u8, u8) {
    (channel_byte(color.x), channel_byte(color.y), channel_byte(color.z))
}

/// Holds `value` between `min` and `max`.
#[verifier::when_used_as_spec(spec_within)]
pub fn within(min: Fixed, max: Fixed, value: Fixed) -> (r: Fixed)
    ensures
        r == spec_within(min, max, value),
{
    if value > max {
        return max;
    }
    if value < min {
        return min;
    }
    value
}

/// The eight bits of a channel of the brightness `c`.
fn to_byte(c: Fixed) -> (b: u8)
    ensures
        b == channel_byte(c),
{
    let held = within(0, ALMOST_ONE, root(c));
    ((held * 256) / ONE) as u8
}

/// Writes the colour to the pixel `(x, y)` of the image, gamma-corrected
/// and in eight bits a channel.
pub fn write_color(color: Color, img: &mut Canvas, x: u32, y: u32)
    requires
        old(img).has(x as int, y as int),
    ensures
        canvas_width(*final(img)) == canvas_width(*old(img)),
        canvas_height(*final(img)) == canvas_height(*old(img)),
        canvas_samples(*final(img)) == samples_with(
            *old(img),
            x as int,
            y as int,
            pixel_bytes(color),
        ),
{
    let rgb = (to_byte(color.x), to_byte(color.y), to_byte(color.z));
    img.put_pixel(x, y, rgb);
}

/// The first row of the part of job `i` when an image of `image_height`
/// rows is shared out among `n_jobs` jobs: `image_height * i / n_jobs`.
pub open spec fn spec_row_begin(image_height: u32, i: usize, n_jobs: usize) -> int {
    (image_height * i) / (n_jobs as int)
}

/// The parts of the jobs follow one another from the first row to the last:
/// the part of the first job begins at row zero, each part ends where the
/// next begins, and the part of the last job ends with the image.
pub proof fn lemma_rows_are_shared_out(image_height: u32, i: usize, n_jobs: usize)
    requires
        n_jobs > 0,
        i < n_jobs,
    ensures
        spec_row_begin(image_height, 0, n_jobs) == 0,
        spec_row_begin(image_height, n_jobs, n_jobs) == image_height,
        0 <= spec_row_begin(image_height, i, n_jobs) <= spec_row_begin(
            image_height,
            (i + 1) as usize,
            n_jobs,
        ) <= image_height,
{
    let h = image_height as int;
    let n = n_jobs as int;
    let k = i as int;
    assert((h * 0) / n == 0 && (h * n) / n == h && 0 <= (h * k) / n <= (h * (k + 1)) / n <= h)
        by (nonlinear_arith)
        requires
            n > 0,
            0 <= k < n,
            h >= 0,
    ;
}

/// The rows of job `i` of `n_jobs`: from the first of the pair up to, but
/// not including, the second.
pub fn row_range(image_height: u32, i: usize, n_jobs: usize) -> (r: (usize, usize))
    requires
        n_jobs > 0,
        i < n_jobs,
    ensures
        r.0 == spec_row_begin(image_height, i, n_jobs),
        r.1 == spec_row_begin(image_height, (i + 1) as usize, n_jobs),
        r.0 <= r.1 <= image_height,
{
    proof {
        lemma_rows_are_shared_out(image_height, i, n_jobs);
        assert(0 <= image_height * i <= 0xffff_ffff * 0xffff_ffff_ffff_ffff && 0 <= image_height * (
        i + 1) <= 0xffff_ffff * 0xffff_ffff_ffff_ffff) by (nonlinear_arith)
            requires
                0 <= image_height <= 0xffff_ffff,
                0 <= i < 0xffff_ffff_ffff_ffff,
        ;
    }
    let h = image_height as u128;
    let row_begin = (h * (i as u128)) / (n_jobs as u128);
    let row_end = (h * (i as u128 + 1)) / (n_jobs as u128);
    (row_begin as usize, row_end as usize)
}

/// Puts the rows of `data` into `result`, upside down: row `idx` of `data`
/// is row `row_begin + idx` of the picture counted from the bottom, so it
/// becomes row `height - (row_begin + idx) - 1` of `result`.
pub fn place_rows(result: &mut Canvas, row_begin: usize, data: &Canvas)
    requires
        canvas_width(*data) == canvas_width(*old(result)),
        row_begin + canvas_height(*data) <= canvas_height(*old(result)),
    ensures
        canvas_width(*final(result)) == canvas_width(*old(result)),
        canvas_height(*final(result)) == canvas_height(*old(result)),
        forall|col: int, row: int|
            #![trigger final(result).spec_get(col, row)]
            final(result).has(col, row) ==> final(result).spec_get(col, row) == (if row_begin
                <= canvas_height(*old(result)) - row - 1 < row_begin + canvas_height(*data) {
                data.spec_get(col, canvas_height(*old(result)) - row - 1 - row_begin)
            } else {
                old(result).spec_get(col, row)
            }),
{
    let width = result.width();
    let height = result.height();
    let rows = data.height();
    let ghost before = *result;
    proof {
        use_type_invariant(&*result);
        use_type_invariant(data);
    }
    let mut idx: u32 = 0;
    while idx < rows
        invariant
            idx <= rows,
            before.wf(),
            result.wf(),
            data.wf(),
            width == canvas_width(*data),
            rows == canvas_height(*data),
            canvas_width(*result) == width,
            canvas_height(*result) == height,
            canvas_width(before) == width,
            canvas_height(before) == height,
            row_begin + rows <= height,
            forall|col: int, row: int|
                #![trigger result.spec_get(col, row)]
                result.has(col, row) ==> result.spec_get(col, row) == (if row_begin <= height
                    - row - 1 < row_begin + idx {
                    data.spec_get(col, height - row - 1 - row_begin)
                } else {
                    before.spec_get(col, row)
                }),
        decreases rows - idx,
    {
        let target: u32 = height - (row_begin as u32 + idx) - 1;
        let mut col: u32 = 0;
        while col < width
            invariant
                col <= width,
                idx < rows,
                before.wf(),
                result.wf(),
                data.wf(),
                width == canvas_width(*data),
                rows == canvas_height(*data),
                canvas_width(*result) == width,
                canvas_height(*result) == height,
                canvas_width(before) == width,
                canvas_height(before) == height,
                row_begin + rows <= height,
                target == height - (row_begin + idx) - 1,
                forall|c: int, row: int|
                    #![trigger result.spec_get(c, row)]
                    result.has(c, row) ==> result.spec_get(c, row) == (if row_begin <= height
                        - row - 1 < row_begin + idx || (row == target && c < col) {
                        data.spec_get(c, height - row - 1 - row_begin)
                    } else {
                        before.spec_get(c, row)
                    }),
            decreases width - col,
        {
            let ghost prev = *result;
            let rgb = data.get_pixel(col, idx).unwrap();
            result.put_pixel(col, target, rgb);
            proof {
                use_type_invariant(&*result);
                assert forall|c: int, row: int|
                    #![trigger result.spec_get(c, row)]
                    result.has(c, row) implies result.spec_get(c, row) == (if row_begin <= height
                        - row - 1 < row_begin + idx || (row == target && c < col + 1) {
                        data.spec_get(c, height - row - 1 - row_begin)
                    } else {
                        before.spec_get(c, row)
                    }) by {
                    lemma_samples_with(prev, col as int, target as int, rgb, c, row);
                    assert(prev.has(c, row));
                    assert(result.spec_get(c, row) == (if (c, row) == (col as int, target as int) {
                        rgb
                    } else {
                        prev.spec_get(c, row)
                    }));
                }
                lemma_samples_with(prev, col as int, target as int, rgb, col as int, target as int);
            }
            col += 1;
        }
        idx += 1;
    }
}

/// The place on the image, from zero to one, of the pixel number `k` of
/// `extent`, moved by the fraction `rand` of a pixel:
/// `(k + rand) / (extent - 1)`.
pub open spec fn spec_jitter(k: u32, rand: Fixed, extent: u32) -> Fixed {
    fx_quot(fx_sum(fx_int(k as i64), rand), fx_int((extent - 1) as i64))
}

/// Whether the three values may be drawn for one sample: two fractions of a
/// pixel and a point of the unit disk.
pub open spec fn is_sample_draw(randa: Fixed, randb: Fixed, disk: Vec3) -> bool {
    is_fraction(randa) && is_fraction(randb) && in_unit_ball(disk) && disk.z == 0
}

/// The scene and the image that a picture is taken of and for.
pub struct Shot<'a> {
    pub world: &'a Object,
    pub cam: &'a Camera,
    pub image_width: u32,
    pub image_height: u32,
    pub samples_per_pixel: u32,
    pub max_depth: i32,
}

impl<'a> Shot<'a> {
    /// Whether `c` may be the colour of one sample of the pixel `(x, y)`:
    /// a colour that a ray of the camera through the pixel, moved by less
    /// than a pixel, may bring back.
    pub open spec fn may_be_sample(&self, x: u32, y: u32, c: Color) -> bool {
        exists|randa: Fixed, randb: Fixed, disk: Vec3| #[trigger]
            is_sample_draw(randa, randb, disk) && may_be_color(
                self.world,
                &self.cam.spec_ray(
                    spec_jitter(x, randa, self.image_width),
                    spec_jitter(y, randb, self.image_height),
                    disk,
                ),
                self.max_depth,
                c,
            )
    }

    /// Whether `total` may be the sum of `n` samples of the pixel `(x, y)`,
    /// added up one after the other from black.
    pub open spec fn may_be_sum(&self, x: u32, y: u32, n: nat, total: Color) -> bool
        decreases n,
    {
        if n == 0 {
            total == Color::zero()
        } else {
            exists|before: Color, sample: Color|
                #[trigger] before.plus(sample) == total && self.may_be_sum(
                    x,
                    y,
                    (n - 1) as nat,
                    before,
                ) && self.may_be_sample(x, y, sample)
        }
    }

    /// Whether `c` may be the colour of the pixel `(x, y)`: the sum of its
    /// samples divided by their number.
    pub open spec fn may_be_pixel(&self, x: u32, y: u32, c: Color) -> bool {
        exists|total: Color| #[trigger]
            self.may_be_sum(x, y, self.samples_per_pixel as nat, total) && c == total.scale(
                fx_quot(ONE, fx_int(self.samples_per_pixel as i64)),
            )
    }

    /// Whether the pixel `(x, idx)` of `img` may be that of the pixel
    /// `(x, row_begin + idx)` of the picture.
    pub open spec fn shows(&self, img: Canvas, row_begin: usize, x: int, idx: int) -> bool {
        exists|c: Color| #[trigger]
            self.may_be_pixel(x as u32, (row_begin + idx) as u32, c) && img.spec_get(x, idx)
                == pixel_bytes(c)
    }

    /// The colour of the pixel `(x, y)`: the mean of `samples_per_pixel`
    /// colours, each brought back by a ray through a random place of the
    /// pixel.
    pub fn sample_pixel(&self, x: u32, y: u32) -> (c: Color)
        ensures
            self.may_be_pixel(x, y, c),
    {
        let mut cur_color = Color::zero();
        let mut s: u32 = 0;
        while s < self.samples_per_pixel
            invariant
                s <= self.samples_per_pixel,
                self.may_be_sum(x, y, s as nat, cur_color),
            decreases self.samples_per_pixel - s,
        {
            let randa = random_double();
            let randb = random_double();
            let u = quot(sum(from_int(x as i64), randa), from_int(self.image_width as i64 - 1));
            let v = quot(sum(from_int(y as i64), randb), from_int(self.image_height as i64 - 1));
            let r = self.cam.get_ray(u, v);
            let sample = ray_color(&r, self.world, self.max_depth);
            let ghost before = cur_color;
            cur_color = cur_color.plus(sample);
            proof {
                let disk = choose|disk: Vec3|
                    in_unit_ball(disk) && disk.z == 0 && r == self.cam.spec_ray(u, v, disk);
                assert(is_sample_draw(randa, randb, disk));
                assert(self.may_be_sample(x, y, sample));
                assert(before.plus(sample) == cur_color);
            }
            s += 1;
        }
        cur_color.scale(quot(ONE, from_int(self.samples_per_pixel as i64)))
    }

    /// Renders the rows from `row_begin` up to, but not including,
    /// `row_end`, counted from the bottom of the picture: row `idx` of the
    /// result is row `row_begin + idx` of the picture.
    pub fn render_rows(&self, row_begin: usize, row_end: usize) -> (img: Canvas)
        requires
            row_begin <= row_end <= self.image_height,
            3 * self.image_width <= usize::MAX,
            3 * self.image_width * (row_end - row_begin) <= usize::MAX,
        ensures
            canvas_width(img) == self.image_width,
            canvas_height(img) == row_end - row_begin,
            forall|x: int, idx: int|
                0 <= x < self.image_width && 0 <= idx < row_end - row_begin ==> #[trigger] self.shows(
                    img,
                    row_begin,
                    x,
                    idx,
                ),
    {
        let render_height = (row_end - row_begin) as u32;
        let mut img = Canvas::new(self.image_width, render_height).unwrap();
        proof {
            use_type_invariant(&img);
        }
        let mut x: u32 = 0;
        while x < self.image_width
            invariant
                x <= self.image_width,
                row_begin <= row_end <= self.image_height,
                render_height == row_end - row_begin,
                img.wf(),
                canvas_width(img) == self.image_width,
                canvas_height(img) == render_height,
                forall|px: int, idx: int|
                    0 <= px < x && 0 <= idx < render_height ==> #[trigger] self.shows(
                        img,
                        row_begin,
                        px,
                        idx,
                    ),
            decreases self.image_width - x,
        {
            let mut img_y: u32 = 0;
            while img_y < render_height
                invariant
                    x < self.image_width,
                    img_y <= render_height,
                    row_begin <= row_end <= self.image_height,
                    render_height == row_end - row_begin,
                    img.wf(),
                    canvas_width(img) == self.image_width,
                    canvas_height(img) == render_height,
                    forall|px: int, idx: int|
                        (0 <= px < x && 0 <= idx < render_height) || (px == x && 0 <= idx < img_y)
                            ==> #[trigger] self.shows(img, row_begin, px, idx),
                decreases render_height - img_y,
            {
                let y = row_begin as u32 + img_y;
                let cur_color = self.sample_pixel(x, y);
                let ghost prev = img;
                write_color(cur_color, &mut img, x, img_y);
                proof {
                    use_type_invariant(&img);
                    lemma_samples_with(
                        prev,
                        x as int,
                        img_y as int,
                        pixel_bytes(cur_color),
                        x as int,
                        img_y as int,
                    );
                    assert(img.spec_get(x as int, img_y as int) == pixel_bytes(cur_color));
                    assert(self.may_be_pixel(
                        (x as int) as u32,
                        (row_begin + (img_y as int)) as u32,
                        cur_color,
                    ));
                    assert(self.shows(img, row_begin, x as int, img_y as int));
                    assert forall|px: int, idx: int|
                        (0 <= px < x && 0 <= idx < render_height) || (px == x && 0 <= idx < img_y
                            + 1) implies #[trigger] self.shows(img, row_begin, px, idx) by {
                        if !(px == x && idx == img_y) {
                            lemma_samples_with(
                                prev,
                                x as int,
                                img_y as int,
                                pixel_bytes(cur_color),
                                px,
                                idx,
                            );
                            assert(self.shows(prev, row_begin, px, idx));
                            assert(img.spec_get(px, idx) == prev.spec_get(px, idx));
                        }
                    }
                }
                img_y += 1;
            }
            x += 1;
        }
        img
    }
}

} // verus!
