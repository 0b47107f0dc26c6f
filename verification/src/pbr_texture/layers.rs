//! Pixels: averaging, packing and chains of ever smaller pictures.

use crate::math::UVec2;
use vstd::arithmetic::div_mod::{lemma_fundamental_div_mod, lemma_multiply_divide_lt};
use vstd::prelude::*;

verus! {

/// Channel `c` of pixel `(x, y)` of a picture `w` pixels wide.
pub open spec fn pixel(data: Seq<u8>, w: int, ch: int, x: int, y: int, c: int) -> u8 {
    data[(y * w + x) * ch + c]
}

/// Pixels lie in their picture.
pub proof fn lemma_pixel_inside(w: int, h: int, ch: int, x: int, y: int, c: int)
    requires
        0 <= x < w,
        0 <= y < h,
        0 <= c < ch,
    ensures
        0 <= y * w,
        0 <= y * w + x < w * h,
        0 <= (y * w + x) * ch,
        0 <= (y * w + x) * ch + c < w * h * ch,
{
    assert(0 <= y * w && 0 <= y * w + x < w * h) by (nonlinear_arith)
        requires
            0 <= x < w,
            0 <= y < h,
    ;
    let k = y * w + x;
    let n = w * h;
    assert(0 <= k * ch && 0 <= k * ch + c < n * ch) by (nonlinear_arith)
        requires
            0 <= k < n,
            0 <= c < ch,
    ;
}

fn get_pixel(data: &Vec<u8>, w: usize, h: usize, ch: usize, x: usize, y: usize, c: usize) -> (r: u8)
    requires
        x < w,
        y < h,
        c < ch,
        data.len() == w * h * ch,
    ensures
        r == pixel(data@, w as int, ch as int, x as int, y as int, c as int),
{
    proof {
        lemma_pixel_inside(w as int, h as int, ch as int, x as int, y as int, c as int);
        assert(w * h <= w * h * ch) by (nonlinear_arith)
            requires
                ch >= 1,
                w * h >= 0,
        ;
    }
    data[(y * w + x) * ch + c]
}

/// Channel `c` of pixel `(x, y)` of a picture of half the size: the average of four pixels, rounded.
pub open spec fn halved_pixel(data: Seq<u8>, size: int, ch: int, x: int, y: int, c: int) -> u8 {
    ((pixel(data, size, ch, 2 * x, 2 * y, c) + pixel(data, size, ch, 2 * x + 1, 2 * y, c) + pixel(
        data,
        size,
        ch,
        2 * x,
        2 * y + 1,
        c,
    ) + pixel(data, size, ch, 2 * x + 1, 2 * y + 1, c) + 2) / 4) as u8
}

/// A square picture at half its size.
pub open spec fn halved(data: Seq<u8>, size: int, ch: int) -> Seq<u8> {
    let d = size / 2;
    Seq::new(
        (d * d * ch) as nat,
        |i: int| halved_pixel(data, size, ch, i / ch % d, i / ch / d, i % ch),
    )
}

/// A square picture at half its size.
pub fn halve_layer(src: &Vec<u8>, size: u32, channels: usize) -> (r: Vec<u8>)
    requires
        size >= 2,
        size % 2 == 0,
        channels >= 1,
        src.len() == size * size * channels,
    ensures
        r@ == halved(src@, size as int, channels as int),
        r.len() == (size / 2) * (size / 2) * channels,
{
    let s: usize = size as usize;
    let d: usize = s / 2;
    let ghost di = d as int;
    let ghost ci = channels as int;
    proof {
        assert(di * di * ci <= s * s * ci && 0 <= di * di <= di * di * ci) by (nonlinear_arith)
            requires
                s == 2 * di,
                di >= 0,
                ci >= 1,
        ;
    }
    let n: usize = d * d * channels;
    let mut r: Vec<u8> = Vec::with_capacity(n);
    let mut i: usize = 0;
    while i < n
        invariant
            i <= n,
            n == d * d * channels,
            s == 2 * d,
            s == size,
            d >= 1,
            channels >= 1,
            src.len() == s * s * channels,
            r.len() == i,
            forall|j: int|
                0 <= j < i ==> #[trigger] r@[j] == halved(src@, s as int, channels as int)[j],
        decreases n - i,
    {
        let k: usize = i / channels;
        let c: usize = i % channels;
        proof {
            vstd::arithmetic::mul::lemma_mul_is_commutative(channels as int, (d * d) as int);
            lemma_multiply_divide_lt(i as int, channels as int, (d * d) as int);
        }
        let y: usize = k / d;
        let x: usize = k % d;
        proof {
            lemma_multiply_divide_lt(k as int, d as int, d as int);
        }
        let sum: u32 = get_pixel(src, s, s, channels, 2 * x, 2 * y, c) as u32 + get_pixel(
            src,
            s,
            s,
            channels,
            2 * x + 1,
            2 * y,
            c,
        ) as u32 + get_pixel(src, s, s, channels, 2 * x, 2 * y + 1, c) as u32 + get_pixel(
            src,
            s,
            s,
            channels,
            2 * x + 1,
            2 * y + 1,
            c,
        ) as u32;
        r.push(((sum + 2) / 4) as u8);
        i += 1;
    }
    proof {
        assert(r@ =~= halved(src@, size as int, channels as int));
    }
    r
}

/// Pixels of a square picture and its chain of smaller ones: it is halved until its edge is 1 or odd.
pub open spec fn chain_pixels(size: nat) -> nat
    decreases size,
{
    size * size + (if size <= 1 || size % 2 != 0 {
        0
    } else {
        chain_pixels(size / 2)
    })
}

/// Pictures of a chain.
pub open spec fn chain_levels(size: nat) -> nat
    decreases size,
{
    1 + (if size <= 1 || size % 2 != 0 {
        0
    } else {
        chain_levels(size / 2)
    })
}

/// A square picture and its chain of smaller ones, one behind the other.
pub open spec fn chain(data: Seq<u8>, size: nat, ch: int) -> Seq<u8>
    decreases size,
{
    if size <= 1 || size % 2 != 0 {
        data
    } else {
        data + chain(halved(data, size as int, ch), size / 2, ch)
    }
}

proof fn lemma_chain_pixels(size: nat)
    ensures
        size * size <= chain_pixels(size),
        3 * chain_pixels(size) <= 4 * (size * size),
    decreases size,
{
    if size > 1 && size % 2 == 0 {
        lemma_chain_pixels(size / 2);
        let h = size / 2;
        assert(4 * (h * h) == size * size) by (nonlinear_arith)
            requires
                size == 2 * h,
        ;
    }
    assert(size * size >= 0) by (nonlinear_arith);
}

/// Pixels of a square picture and its chain.
pub fn mip_px_total(size: u32) -> (r: u64)
    requires
        chain_pixels(size as nat) <= u64::MAX,
    ensures
        r == chain_pixels(size as nat),
{
    let mut px: u64 = 0;
    let mut s: u32 = size;
    loop
        invariant
            px + chain_pixels(s as nat) == chain_pixels(size as nat),
            chain_pixels(size as nat) <= u64::MAX,
        decreases s,
    {
        proof {
            lemma_chain_pixels(s as nat);
        }
        px = px + s as u64 * s as u64;
        if s <= 1 || s % 2 != 0 {
            return px;
        }
        s = s / 2;
    }
}

/// A chain has as many bytes as its pixels have channels.
pub proof fn lemma_chain_len(data: Seq<u8>, size: nat, ch: int)
    requires
        ch >= 1,
        data.len() == size * size * ch,
    ensures
        chain(data, size, ch).len() == chain_pixels(size) * ch,
    decreases size,
{
    if size > 1 && size % 2 == 0 {
        let h = size / 2;
        assert(h * h * ch >= 0) by (nonlinear_arith)
            requires
                ch >= 1,
        ;
        lemma_chain_len(halved(data, size as int, ch), h, ch);
        let (a, b) = ((size * size) as int, chain_pixels(h) as int);
        assert((a + b) * ch == a * ch + b * ch) by (nonlinear_arith);
    } else {
        assert(chain_pixels(size) == size * size);
    }
}

/// A square picture with its whole chain, and the number of pictures.
pub fn build_mip_chain(base: Vec<u8>, size: u32, channels: usize) -> (r: (Vec<u8>, u32))
    requires
        size >= 1,
        channels >= 1,
        base.len() == size * size * channels,
    ensures
        r.0@ == chain(base@, size as nat, channels as int),
        r.1 == chain_levels(size as nat),
{
    let ghost whole = chain(base@, size as nat, channels as int);
    let mut out: Vec<u8> = Vec::new();
    let mut cur: Vec<u8> = base;
    let mut s: u32 = size;
    let mut levels: u32 = 0;
    assert(out@ + chain(cur@, s as nat, channels as int) =~= whole);
    loop
        invariant
            s >= 1,
            channels >= 1,
            cur.len() == s * s * channels,
            out@ + chain(cur@, s as nat, channels as int) == whole,
            levels + chain_levels(s as nat) == chain_levels(size as nat),
            levels + s <= size,
            whole == chain(base@, size as nat, channels as int),
        decreases s,
    {
        let ghost before = out@;
        out.extend_from_slice(cur.as_slice());
        levels = levels + 1;
        if s <= 1 || s % 2 != 0 {
            proof {
                assert(out@ =~= before + cur@);
            }
            return (out, levels);
        }
        let next: Vec<u8> = halve_layer(&cur, s, channels);
        proof {
            assert(out@ + chain(next@, (s / 2) as nat, channels as int) =~= before + chain(
                cur@,
                s as nat,
                channels as int,
            ));
        }
        cur = next;
        s = s / 2;
    }
}

/// How many source pixels one pixel averages along an edge; `None` where that is no whole number.
pub fn box_factor(src: u32, dst: u32) -> (r: Option<u32>)
    requires
        dst > 0,
    ensures
        r == (if src >= dst && src % dst == 0 {
            Some((src as int / dst as int) as u32)
        } else {
            None
        }),
        r is Some ==> r->0 >= 1 && r->0 * dst == src,
{
    let ghost q = src as int / dst as int;
    proof {
        lemma_fundamental_div_mod(src as int, dst as int);
        vstd::arithmetic::mul::lemma_mul_is_commutative(dst as int, q);
        if src >= dst {
            assert(1 <= q <= src) by (nonlinear_arith)
                requires
                    q == src as int / dst as int,
                    src >= dst,
                    dst > 0,
            ;
        }
        if src == dst {
            assert(q == 1 && src as int % dst as int == 0) by (nonlinear_arith)
                requires
                    src == dst,
                    dst > 0,
                    q == src as int / dst as int,
            ;
        }
    }
    if src == dst {
        Some(1)
    } else if src > dst && src % dst == 0 {
        Some(src / dst)
    } else {
        None
    }
}

/// Channel `c` over `k` pixels of row `y`, summed up.
pub open spec fn row_sum(data: Seq<u8>, w: int, x0: int, y: int, c: int, k: nat) -> int
    decreases k,
{
    if k == 0 {
        0
    } else {
        row_sum(data, w, x0, y, c, (k - 1) as nat) + pixel(data, w, 4, x0 + k - 1, y, c)
    }
}

/// Channel `c` over `fx` by `n` pixels, summed up.
pub open spec fn box_sum(data: Seq<u8>, w: int, x0: int, y0: int, c: int, fx: nat, n: nat) -> int
    decreases n,
{
    if n == 0 {
        0
    } else {
        box_sum(data, w, x0, y0, c, fx, (n - 1) as nat) + row_sum(data, w, x0, y0 + n - 1, c, fx)
    }
}

/// The average of channel `c` over a box of source pixels, rounded.
pub open spec fn box_average(data: Seq<u8>, w: int, x: int, y: int, c: int, fx: nat, fy: nat) -> u8 {
    let n = (fx * fy) as int;
    ((box_sum(data, w, x * fx, y * fy, c, fx, fy) + n / 2) / n) as u8
}

proof fn lemma_row_bound(data: Seq<u8>, w: int, x0: int, y: int, c: int, k: nat)
    ensures
        0 <= row_sum(data, w, x0, y, c, k) <= 255 * k,
    decreases k,
{
    if k > 0 {
        lemma_row_bound(data, w, x0, y, c, (k - 1) as nat);
    }
}

proof fn lemma_box_bound(data: Seq<u8>, w: int, x0: int, y0: int, c: int, fx: nat, n: nat)
    ensures
        0 <= box_sum(data, w, x0, y0, c, fx, n) <= 255 * (fx * n),
    decreases n,
{
    if n > 0 {
        lemma_box_bound(data, w, x0, y0, c, fx, (n - 1) as nat);
        lemma_row_bound(data, w, x0, y0 + n - 1, c, fx);
        assert(fx * n == fx * (n - 1) + fx) by (nonlinear_arith)
            requires
                n >= 1,
        ;
    }
}

/// The average of one channel over a box of source pixels.
fn average(data: &Vec<u8>, w: usize, h: usize, x: usize, y: usize, c: usize, fx: usize, fy: usize) -> (r:
    u8)
    requires
        fx >= 1,
        fy >= 1,
        c < 4,
        (x + 1) * fx <= w,
        (y + 1) * fy <= h,
        fx * fy * 256 <= u32::MAX,
        data.len() == w * h * 4,
    ensures
        r == box_average(data@, w as int, x as int, y as int, c as int, fx as nat, fy as nat),
{
    let ghost (xi, yi, fxi, fyi) = (x as int, y as int, fx as int, fy as int);
    proof {
        assert(xi * fxi + fxi == (xi + 1) * fxi && 0 <= xi * fxi) by (nonlinear_arith)
            requires
                xi >= 0,
                fxi >= 1,
        ;
        assert(yi * fyi + fyi == (yi + 1) * fyi && 0 <= yi * fyi) by (nonlinear_arith)
            requires
                yi >= 0,
                fyi >= 1,
        ;
        assert(fxi * fyi >= 1) by (nonlinear_arith)
            requires
                fxi >= 1,
                fyi >= 1,
        ;
    }
    let x0: usize = x * fx;
    let y0: usize = y * fy;
    let mut sum: u32 = 0;
    let mut j: usize = 0;
    while j < fy
        invariant
            j <= fy,
            c < 4,
            x0 + fx <= w,
            y0 + fy <= h,
            fx * fy * 256 <= u32::MAX,
            data.len() == w * h * 4,
            sum == box_sum(data@, w as int, x0 as int, y0 as int, c as int, fx as nat, j as nat),
        decreases fy - j,
    {
        let mut i: usize = 0;
        proof {
            lemma_box_bound(data@, w as int, x0 as int, y0 as int, c as int, fx as nat, j as nat);
        }
        let ghost before = sum as int;
        while i < fx
            invariant
                i <= fx,
                j < fy,
                c < 4,
                x0 + fx <= w,
                y0 + fy <= h,
                fx * fy * 256 <= u32::MAX,
                data.len() == w * h * 4,
                0 <= before <= 255 * (fx * j),
                sum == before + row_sum(
                    data@,
                    w as int,
                    x0 as int,
                    y0 + j,
                    c as int,
                    i as nat,
                ),
            decreases fx - i,
        {
            proof {
                lemma_row_bound(data@, w as int, x0 as int, y0 + j, c as int, i as nat);
                assert(255 * (fx * j) + 255 * fx <= 255 * (fx * fy)) by (nonlinear_arith)
                    requires
                        j + 1 <= fy,
                        fx >= 0,
                ;
            }
            sum = sum + get_pixel(data, w, h, 4, x0 + i, y0 + j, c) as u32;
            i += 1;
        }
        j += 1;
    }
    proof {
        lemma_box_bound(data@, w as int, x0 as int, y0 as int, c as int, fx as nat, fy as nat);
        assert(fx * fy <= fx * fy * 256) by (nonlinear_arith)
            requires
                fx * fy >= 0,
        ;
    }
    let n: u32 = (fx * fy) as u32;
    let half: u32 = n / 2;
    proof {
        let (s, ni) = (sum as int, n as int);
        assert((s + ni / 2) / ni <= 255) by (nonlinear_arith)
            requires
                0 <= s <= 255 * ni,
                ni >= 1,
                ni / 2 < ni,
        ;
        assert((s + ni / 2) / ni >= 0) by (nonlinear_arith)
            requires
                0 <= s,
                ni >= 1,
                ni / 2 >= 0,
        ;
    }
    ((sum + half) / n) as u8
}

/// The packed layers of a material: colour and roughness, and metalness. `albedo` is the colour
/// picture; in `arm` green is roughness and blue is metalness.
pub open spec fn is_packed(
    rgba: Seq<u8>,
    metal: Seq<u8>,
    albedo: Seq<u8>,
    arm: Seq<u8>,
    w: int,
    fx: nat,
    fy: nat,
    dst: int,
) -> bool {
    &&& rgba.len() == dst * dst * 4
    &&& metal.len() == dst * dst
    &&& forall|k: int|
        0 <= k < metal.len() ==> #[trigger] packed_pixel(
            rgba,
            metal,
            albedo,
            arm,
            w,
            fx,
            fy,
            dst,
            k,
        )
}

/// Pixel `k` of the packed layers.
pub open spec fn packed_pixel(
    rgba: Seq<u8>,
    metal: Seq<u8>,
    albedo: Seq<u8>,
    arm: Seq<u8>,
    w: int,
    fx: nat,
    fy: nat,
    dst: int,
    k: int,
) -> bool {
    let (x, y) = (k % dst, k / dst);
    &&& metal[k] == box_average(arm, w, x, y, 2, fx, fy)
    &&& rgba[4 * k] == box_average(albedo, w, x, y, 0, fx, fy)
    &&& rgba[4 * k + 1] == box_average(albedo, w, x, y, 1, fx, fy)
    &&& rgba[4 * k + 2] == box_average(albedo, w, x, y, 2, fx, fy)
    &&& rgba[4 * k + 3] == box_average(arm, w, x, y, 1, fx, fy)
}

/// Packs a material's two pictures into layers of `dst` by `dst` pixels.
pub fn pack_layer(albedo: &Vec<u8>, arm: &Vec<u8>, src: UVec2, fx: u32, fy: u32, dst: u32) -> (r: (
    Vec<u8>,
    Vec<u8>,
))
    requires
        dst >= 1,
        fx >= 1,
        fy >= 1,
        fx * dst == src.x,
        fy * dst == src.y,
        fx * fy * 256 <= u32::MAX,
        dst * dst * 4 <= usize::MAX,
        albedo.len() == src.x * src.y * 4,
        arm.len() == src.x * src.y * 4,
    ensures
        is_packed(
            r.0@,
            r.1@,
            albedo@,
            arm@,
            src.x as int,
            fx as nat,
            fy as nat,
            dst as int,
        ),
{
    let d: usize = dst as usize;
    let (w, h): (usize, usize) = (src.x as usize, src.y as usize);
    let (ux, uy): (usize, usize) = (fx as usize, fy as usize);
    proof {
        assert(d * d >= 1) by (nonlinear_arith)
            requires
                d >= 1,
        ;
    }
    let n: usize = d * d;
    let mut rgba: Vec<u8> = Vec::with_capacity(n * 4);
    let mut metal: Vec<u8> = Vec::with_capacity(n);
    let mut k: usize = 0;
    while k < n
        invariant
            k <= n,
            n == d * d,
            d >= 1,
            d == dst,
            n * 4 <= usize::MAX,
            w == src.x,
            h == src.y,
            ux == fx,
            uy == fy,
            fx >= 1,
            fy >= 1,
            fx * dst == src.x,
            fy * dst == src.y,
            fx * fy * 256 <= u32::MAX,
            albedo.len() == w * h * 4,
            arm.len() == w * h * 4,
            rgba.len() == 4 * k,
            metal.len() == k,
            forall|j: int|
                0 <= j < k ==> #[trigger] packed_pixel(
                    rgba@,
                    metal@,
                    albedo@,
                    arm@,
                    w as int,
                    fx as nat,
                    fy as nat,
                    d as int,
                    j,
                ),
        decreases n - k,
    {
        let y: usize = k / d;
        let x: usize = k % d;
        proof {
            lemma_multiply_divide_lt(k as int, d as int, d as int);
            assert((x + 1) * ux <= w) by (nonlinear_arith)
                requires
                    x + 1 <= d,
                    ux * d == w,
                    ux >= 1,
            ;
            assert((y + 1) * uy <= h) by (nonlinear_arith)
                requires
                    y + 1 <= d,
                    uy * d == h,
                    uy >= 1,
            ;
        }
        let ghost (rgba0, metal0) = (rgba@, metal@);
        rgba.push(average(albedo, w, h, x, y, 0, ux, uy));
        rgba.push(average(albedo, w, h, x, y, 1, ux, uy));
        rgba.push(average(albedo, w, h, x, y, 2, ux, uy));
        rgba.push(average(arm, w, h, x, y, 1, ux, uy));
        metal.push(average(arm, w, h, x, y, 2, ux, uy));
        proof {
            assert forall|j: int| 0 <= j < k + 1 implies #[trigger] packed_pixel(
                rgba@,
                metal@,
                albedo@,
                arm@,
                w as int,
                fx as nat,
                fy as nat,
                d as int,
                j,
            ) by {
                if j < k {
                    assert(packed_pixel(
                        rgba0,
                        metal0,
                        albedo@,
                        arm@,
                        w as int,
                        fx as nat,
                        fy as nat,
                        d as int,
                        j,
                    ));
                }
            }
        }
        k += 1;
    }
    (rgba, metal)
}

/// Colour and roughness of a material.
pub open spec fn packed_rgba(albedo: Seq<u8>, arm: Seq<u8>, w: int, fx: nat, fy: nat, dst: int) -> Seq<
    u8,
> {
    Seq::new(
        (dst * dst * 4) as nat,
        |i: int|
            {
                let (x, y, c) = (i / 4 % dst, i / 4 / dst, i % 4);
                if c < 3 {
                    box_average(albedo, w, x, y, c, fx, fy)
                } else {
                    box_average(arm, w, x, y, 1, fx, fy)
                }
            },
    )
}

/// Metalness of a material.
pub open spec fn packed_metal(arm: Seq<u8>, w: int, fx: nat, fy: nat, dst: int) -> Seq<u8> {
    Seq::new((dst * dst) as nat, |k: int| box_average(arm, w, k % dst, k / dst, 2, fx, fy))
}

/// The packed layers are these bytes and no others.
pub proof fn lemma_packed(
    rgba: Seq<u8>,
    metal: Seq<u8>,
    albedo: Seq<u8>,
    arm: Seq<u8>,
    w: int,
    fx: nat,
    fy: nat,
    dst: int,
)
    requires
        dst >= 1,
        is_packed(rgba, metal, albedo, arm, w, fx, fy, dst),
    ensures
        rgba == packed_rgba(albedo, arm, w, fx, fy, dst),
        metal == packed_metal(arm, w, fx, fy, dst),
{
    let want = packed_rgba(albedo, arm, w, fx, fy, dst);
    assert(dst * dst >= 0) by (nonlinear_arith)
        requires
            dst >= 1,
    ;
    assert forall|i: int| 0 <= i < rgba.len() implies #[trigger] rgba[i] == want[i] by {
        let k = i / 4;
        assert(packed_pixel(rgba, metal, albedo, arm, w, fx, fy, dst, k));
        assert(i == 4 * k + i % 4);
    }
    assert(rgba =~= want);
    assert forall|k: int| 0 <= k < metal.len() implies #[trigger] metal[k] == packed_metal(
        arm,
        w,
        fx,
        fy,
        dst,
    )[k] by {
        assert(packed_pixel(rgba, metal, albedo, arm, w, fx, fy, dst, k));
    }
    assert(metal =~= packed_metal(arm, w, fx, fy, dst));
}

proof fn lemma_place(d: int, ch: int, x: int, y: int, c: int)
    requires
        0 <= x < d,
        0 <= y,
        0 <= c < ch,
    ensures
        ((y * d + x) * ch + c) / ch == y * d + x,
        ((y * d + x) * ch + c) % ch == c,
        (y * d + x) / d == y,
        (y * d + x) % d == x,
{
    vstd::arithmetic::div_mod::lemma_fundamental_div_mod_converse(
        (y * d + x) * ch + c,
        ch,
        y * d + x,
        c,
    );
    vstd::arithmetic::div_mod::lemma_fundamental_div_mod_converse(y * d + x, d, y, x);
}

/// A pixel of a halved picture is the average of the four that it stands for, two by two in the larger
/// one, to the nearest, halves upwards. Rows follow each other, and a pixel's channels stand together.
pub proof fn lemma_halved_averages(data: Seq<u8>, size: int, ch: int, x: int, y: int, c: int)
    requires
        size >= 2,
        size % 2 == 0,
        ch >= 1,
        data.len() == size * size * ch,
        0 <= x < size / 2,
        0 <= y < size / 2,
        0 <= c < ch,
    ensures
        ({
            let d = size / 2;
            let r = halved(data, size, ch)[(y * d + x) * ch + c] as int;
            let sum = data[(2 * y * size + 2 * x) * ch + c] + data[(2 * y * size + 2 * x + 1) * ch + c]
                + data[((2 * y + 1) * size + 2 * x) * ch + c] + data[((2 * y + 1) * size + 2 * x + 1)
                * ch + c];
            4 * r - 2 <= sum <= 4 * r + 1
        }),
{
    let d = size / 2;
    let i = (y * d + x) * ch + c;
    lemma_pixel_inside(d, d, ch, x, y, c);
    lemma_place(d, ch, x, y, c);
    assert(halved(data, size, ch)[i] == halved_pixel(data, size, ch, x, y, c));
    assert(2 * y * size + (2 * x + 1) == 2 * y * size + 2 * x + 1);
    assert((2 * y + 1) * size + (2 * x + 1) == (2 * y + 1) * size + 2 * x + 1);
}

/// A chain starts with the picture itself, and goes on with the chain of its half while the size is
/// even: one more level, and as many more pixels as the picture has.
pub proof fn lemma_chain(data: Seq<u8>, size: nat, ch: int, i: int)
    requires
        size >= 1,
    ensures
        0 <= i < data.len() ==> chain(data, size, ch)[i] == data[i],
        chain(data, 2 * size, ch).skip(data.len() as int) == chain(
            halved(data, 2 * size as int, ch),
            size,
            ch,
        ),
        size % 2 == 1 ==> chain(data, size, ch) == data && chain_levels(size) == 1 && chain_pixels(size)
            == size * size,
        chain_levels(2 * size) == chain_levels(size) + 1,
        chain_pixels(2 * size) == 4 * (size * size) + chain_pixels(size),
{
    assert((2 * size) / 2 == size && (2 * size) % 2 == 0);
    assert((2 * size) * (2 * size) == 4 * (size * size)) by (nonlinear_arith);
    assert(chain(data, 2 * size, ch) == data + chain(halved(data, 2 * size as int, ch), size, ch));
    assert(chain(data, 2 * size, ch).skip(data.len() as int) =~= chain(
        halved(data, 2 * size as int, ch),
        size,
        ch,
    ));
}

/// Channel `c` of pixel `(i, j)` of the block of source pixels for `(x, y)`.
pub open spec fn block_pixel(
    data: Seq<u8>,
    w: int,
    x: int,
    y: int,
    c: int,
    fx: int,
    fy: int,
    i: int,
    j: int,
) -> u8 {
    data[((y * fy + j) * w + (x * fx + i)) * 4 + c]
}

/// The block of source pixels for `(x, y)` has channel `c` between `lo` and `hi` throughout.
pub open spec fn block_between(
    data: Seq<u8>,
    w: int,
    x: int,
    y: int,
    c: int,
    fx: int,
    fy: int,
    lo: int,
    hi: int,
) -> bool {
    forall|i: int, j: int|
        0 <= i < fx && 0 <= j < fy ==> lo <= #[trigger] block_pixel(data, w, x, y, c, fx, fy, i, j) <= hi
}

proof fn lemma_row_between(
    data: Seq<u8>,
    w: int,
    x: int,
    y: int,
    c: int,
    fx: int,
    fy: int,
    j: int,
    k: nat,
    lo: int,
    hi: int,
)
    requires
        block_between(data, w, x, y, c, fx, fy, lo, hi),
        0 <= j < fy,
        k <= fx,
    ensures
        k * lo <= row_sum(data, w, x * fx, y * fy + j, c, k) <= k * hi,
    decreases k,
{
    if k > 0 {
        let i = k - 1;
        lemma_row_between(data, w, x, y, c, fx, fy, j, (k - 1) as nat, lo, hi);
        let p = block_pixel(data, w, x, y, c, fx, fy, i, j);
        assert(lo <= p <= hi);
        assert(x * fx + k - 1 == x * fx + i);
        assert(pixel(data, w, 4, x * fx + k - 1, y * fy + j, c) == p);
        assert(k * lo == i * lo + lo && k * hi == i * hi + hi) by (nonlinear_arith)
            requires
                i == k - 1,
        ;
    } else {
        assert(k * lo == 0 && k * hi == 0) by (nonlinear_arith)
            requires
                k == 0,
        ;
    }
}

proof fn lemma_box_between(
    data: Seq<u8>,
    w: int,
    x: int,
    y: int,
    c: int,
    fx: nat,
    fy: int,
    n: nat,
    lo: int,
    hi: int,
)
    requires
        block_between(data, w, x, y, c, fx as int, fy, lo, hi),
        n <= fy,
    ensures
        n * (fx * lo) <= box_sum(data, w, x * fx, y * fy, c, fx, n) <= n * (fx * hi),
    decreases n,
{
    if n > 0 {
        lemma_box_between(data, w, x, y, c, fx, fy, (n - 1) as nat, lo, hi);
        lemma_row_between(data, w, x, y, c, fx as int, fy, n - 1, fx, lo, hi);
        let (m, a, b) = (n - 1, fx * lo, fx * hi);
        assert(y * fy + n - 1 == y * fy + m);
        assert(n * a == m * a + a && n * b == m * b + b) by (nonlinear_arith)
            requires
                m == n - 1,
        ;
    } else {
        assert(n * (fx * lo) == 0 && n * (fx * hi) == 0) by (nonlinear_arith)
            requires
                n == 0,
        ;
    }
}

/// An average lies between the least and the greatest of what it is made of: in particular a block of
/// one value has that value.
pub proof fn lemma_average_between(
    data: Seq<u8>,
    w: int,
    x: int,
    y: int,
    c: int,
    fx: nat,
    fy: nat,
    lo: int,
    hi: int,
)
    requires
        fx >= 1,
        fy >= 1,
        0 <= lo,
        hi <= 255,
        block_between(data, w, x, y, c, fx as int, fy as int, lo, hi),
    ensures
        lo <= box_average(data, w, x, y, c, fx, fy) <= hi,
{
    lemma_box_between(data, w, x, y, c, fx, fy as int, fy, lo, hi);
    let n = (fx * fy) as int;
    let s = box_sum(data, w, x * fx, y * fy, c, fx, fy);
    assert(n >= 1 && fy * (fx * lo) == n * lo && fy * (fx * hi) == n * hi) by (nonlinear_arith)
        requires
            n == fx * fy,
            fx >= 1,
            fy >= 1,
    ;
    let q = (s + n / 2) / n;
    assert(n * q <= s + n / 2 < n * q + n) by (nonlinear_arith)
        requires
            q == (s + n / 2) / n,
            n >= 1,
    ;
    assert(0 <= n / 2 < n);
    assert(lo <= q) by (nonlinear_arith)
        requires
            s + n / 2 < n * q + n,
            n * lo <= s,
            0 <= n / 2,
            n >= 1,
    ;
    assert(q <= hi) by (nonlinear_arith)
        requires
            n * q <= s + n / 2,
            s <= n * hi,
            n / 2 < n,
            n >= 1,
    ;
}

/// What a packed layer is made of: red, green and blue come from the albedo picture, roughness from the
/// green and metalness from the blue channel of the other. Each pixel lies between the least and the
/// greatest of its block of source pixels.
pub proof fn lemma_packed_from_blocks(
    rgba: Seq<u8>,
    metal: Seq<u8>,
    albedo: Seq<u8>,
    arm: Seq<u8>,
    w: int,
    fx: nat,
    fy: nat,
    dst: int,
    x: int,
    y: int,
    c: int,
    lo: int,
    hi: int,
)
    requires
        is_packed(rgba, metal, albedo, arm, w, fx, fy, dst),
        fx >= 1,
        fy >= 1,
        0 <= x < dst,
        0 <= y < dst,
        0 <= lo,
        hi <= 255,
    ensures
        0 <= c < 3 && block_between(albedo, w, x, y, c, fx as int, fy as int, lo, hi) ==> lo <= rgba[4
            * (y * dst + x) + c] <= hi,
        block_between(arm, w, x, y, 1, fx as int, fy as int, lo, hi) ==> lo <= rgba[4 * (y * dst + x)
            + 3] <= hi,
        block_between(arm, w, x, y, 2, fx as int, fy as int, lo, hi) ==> lo <= metal[y * dst + x] <= hi,
{
    let k = y * dst + x;
    lemma_pixel_inside(dst, dst, 1, x, y, 0);
    lemma_place(dst, 1, x, y, 0);
    assert(packed_pixel(rgba, metal, albedo, arm, w, fx, fy, dst, k));
    if 0 <= c < 3 && block_between(albedo, w, x, y, c, fx as int, fy as int, lo, hi) {
        lemma_average_between(albedo, w, x, y, c, fx, fy, lo, hi);
    }
    if block_between(arm, w, x, y, 1, fx as int, fy as int, lo, hi) {
        lemma_average_between(arm, w, x, y, 1, fx, fy, lo, hi);
    }
    if block_between(arm, w, x, y, 2, fx as int, fy as int, lo, hi) {
        lemma_average_between(arm, w, x, y, 2, fx, fy, lo, hi);
    }
}

/// An average is the whole number nearest to the block's sum divided by its pixels, halves upwards.
pub proof fn lemma_average_is_nearest(
    data: Seq<u8>,
    w: int,
    x: int,
    y: int,
    c: int,
    fx: nat,
    fy: nat,
)
    requires
        fx >= 1,
        fy >= 1,
    ensures
        ({
            let n = (fx * fy) as int;
            let r = box_average(data, w, x, y, c, fx, fy);
            let sum = box_sum(data, w, x * fx, y * fy, c, fx, fy);
            2 * (n * r) - n <= 2 * sum < 2 * (n * r) + n + 1
        }),
{
    let n = (fx * fy) as int;
    let s = box_sum(data, w, x * fx, y * fy, c, fx, fy);
    let q = (s + n / 2) / n;
    assert(block_between(data, w, x, y, c, fx as int, fy as int, 0, 255));
    lemma_box_between(data, w, x, y, c, fx, fy as int, fy, 0, 255);
    assert(n >= 1 && fy * (fx * 255) == n * 255 && fy * (fx * 0) == 0) by (nonlinear_arith)
        requires
            n == fx * fy,
            fx >= 1,
            fy >= 1,
    ;
    assert(n * q <= s + n / 2 < n * q + n) by (nonlinear_arith)
        requires
            q == (s + n / 2) / n,
            n >= 1,
    ;
    assert(0 <= q <= 255) by (nonlinear_arith)
        requires
            n * q <= s + n / 2 < n * q + n,
            0 <= s <= n * 255,
            0 <= n / 2 < n,
            n >= 1,
    ;
}

/// The pictures differ in pixel `(i, j)` of the block alone.
pub open spec fn differ_at(
    a: Seq<u8>,
    b: Seq<u8>,
    w: int,
    x: int,
    y: int,
    c: int,
    fx: int,
    fy: int,
    i: int,
    j: int,
) -> bool {
    forall|k: int, l: int|
        0 <= k < fx && 0 <= l < fy && !(k == i && l == j) ==> #[trigger] block_pixel(
            a,
            w,
            x,
            y,
            c,
            fx,
            fy,
            k,
            l,
        ) == block_pixel(b, w, x, y, c, fx, fy, k, l)
}

proof fn lemma_row_differs(
    a: Seq<u8>,
    b: Seq<u8>,
    w: int,
    x: int,
    y: int,
    c: int,
    fx: int,
    fy: int,
    i: int,
    j: int,
    l: int,
    n: nat,
)
    requires
        differ_at(a, b, w, x, y, c, fx, fy, i, j),
        0 <= l < fy,
        n <= fx,
        0 <= i,
    ensures
        row_sum(b, w, x * fx, y * fy + l, c, n) - row_sum(a, w, x * fx, y * fy + l, c, n) == (if l == j
            && i < n {
            block_pixel(b, w, x, y, c, fx, fy, i, j) - block_pixel(a, w, x, y, c, fx, fy, i, j)
        } else {
            0
        }),
    decreases n,
{
    if n > 0 {
        let k = n - 1;
        lemma_row_differs(a, b, w, x, y, c, fx, fy, i, j, l, (n - 1) as nat);
        assert(x * fx + n - 1 == x * fx + k);
        assert(pixel(a, w, 4, x * fx + n - 1, y * fy + l, c) == block_pixel(a, w, x, y, c, fx, fy, k, l));
        assert(pixel(b, w, 4, x * fx + n - 1, y * fy + l, c) == block_pixel(b, w, x, y, c, fx, fy, k, l));
    }
}

/// Every pixel of a block counts once in its sum: where two pictures differ in one of them alone, the
/// sums differ by as much.
pub proof fn lemma_every_pixel_counts(
    a: Seq<u8>,
    b: Seq<u8>,
    w: int,
    x: int,
    y: int,
    c: int,
    fx: nat,
    fy: int,
    i: int,
    j: int,
    n: nat,
)
    requires
        differ_at(a, b, w, x, y, c, fx as int, fy, i, j),
        0 <= i < fx,
        0 <= j < fy,
        n <= fy,
    ensures
        box_sum(b, w, x * fx, y * fy, c, fx, n) - box_sum(a, w, x * fx, y * fy, c, fx, n) == (if j < n {
            block_pixel(b, w, x, y, c, fx as int, fy, i, j) - block_pixel(a, w, x, y, c, fx as int, fy, i, j)
        } else {
            0
        }),
    decreases n,
{
    if n > 0 {
        lemma_every_pixel_counts(a, b, w, x, y, c, fx, fy, i, j, (n - 1) as nat);
        lemma_row_differs(a, b, w, x, y, c, fx as int, fy, i, j, n - 1, fx);
        assert(y * fy + n - 1 == y * fy + (n - 1));
    }
}

} // verus!
