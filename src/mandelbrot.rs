//! The escape-time test and the renderer that runs it over every pixel.
//!
//! The arithmetic of points is the caller's: a point type `S`, the test that
//! a point has left the bounded region, and the step `z -> z * z + c` come in
//! as closures. What is verified here is the iteration itself (its bound, its
//! early exit, its two outcomes), the encoding of an outcome as a byte, and
//! the row-major walk over a caller-owned buffer.
use vstd::arithmetic::div_mod::lemma_fundamental_div_mod_converse;
use vstd::prelude::*;

verus! {

/// Iterations attempted for each pixel of a render.
pub const ITERATION_LIMIT: usize = 255;

/// `orbit` is the orbit of `start` under `z -> step(z, c)` up to index `n`,
/// and none of its first `n` points has escaped.
pub open spec fn bounded_orbit<S, E: Fn(S) -> bool, F: Fn(S, S) -> S>(
    escaped: E,
    step: F,
    start: S,
    c: S,
    orbit: Seq<S>,
    n: int,
) -> bool {
    &&& orbit.len() == n + 1
    &&& orbit[0] == start
    &&& forall|k: int|
        #![trigger orbit[k]]
        0 <= k < n ==> escaped.ensures((orbit[k],), false) && step.ensures(
            (orbit[k], c),
            orbit[k + 1],
        )
}

/// `r` is an outcome of the escape-time test of `c` with `limit` iterations:
/// `Some(i)` when the orbit stays in for `i` steps and its point `i` has
/// escaped, with `i < limit`; `None` when it stays in for all `limit` steps.
pub open spec fn escape_outcome<S, E: Fn(S) -> bool, F: Fn(S, S) -> S>(
    escaped: E,
    step: F,
    start: S,
    c: S,
    limit: int,
    r: Option<usize>,
) -> bool {
    match r {
        Some(i) => {
            &&& i < limit
            &&& exists|orbit: Seq<S>|
                bounded_orbit(escaped, step, start, c, orbit, i as int) && escaped.ensures(
                    (orbit[i as int],),
                    true,
                )
        },
        None => exists|orbit: Seq<S>| bounded_orbit(escaped, step, start, c, orbit, limit),
    }
}

/// Escape-time test: iterates `z -> step(z, c)` from `start` at most `limit`
/// times and returns the index of the first point found escaped, or `None`
/// when none of the `limit` points tested has escaped.
pub fn escape_time_by<S: Copy, E: Fn(S) -> bool, F: Fn(S, S) -> S>(
    start: S,
    c: S,
    limit: usize,
    escaped: &E,
    step: &F,
) -> (r: Option<usize>)
    requires
        forall|z: S| escaped.requires((z,)),
        forall|z: S| step.requires((z, c)),
    ensures
        escape_outcome(*escaped, *step, start, c, limit as int, r),
        limit == 0 ==> r is None,
{
    let mut z = start;
    let ghost mut orbit: Seq<S> = seq![start];
    let mut i: usize = 0;
    while i < limit
        invariant
            forall|z: S| escaped.requires((z,)),
            forall|z: S| step.requires((z, c)),
            i <= limit,
            bounded_orbit(*escaped, *step, start, c, orbit, i as int),
            z == orbit[i as int],
        decreases limit - i,
    {
        if escaped(z) {
            return Some(i);
        }
        let next = step(z, c);
        proof {
            let old_orbit = orbit;
            orbit = orbit.push(next);
            assert forall|k: int| #![trigger orbit[k]] 0 <= k < i + 1 implies escaped.ensures(
                (orbit[k],),
                false,
            ) && step.ensures((orbit[k], c), orbit[k + 1]) by {
                if k < i {
                    assert(old_orbit[k] == orbit[k]);
                    assert(old_orbit[k + 1] == orbit[k + 1]);
                }
            }
        }
        z = next;
        i = i + 1;
    }
    None
}

/// The byte that encodes an escape-time outcome: black for a point that did
/// not escape, and brighter the earlier a point escaped.
pub open spec fn intensity_of(e: Option<usize>) -> int {
    match e {
        None => 0,
        Some(i) => 255 - i,
    }
}

/// Encodes an outcome of the test with `ITERATION_LIMIT` iterations as a byte.
pub fn intensity(e: Option<usize>) -> (r: u8)
    requires
        e matches Some(i) ==> i < ITERATION_LIMIT,
    ensures
        r as int == intensity_of(e),
        r == 0 <==> e is None,
{
    match e {
        None => 0,
        Some(count) => 255 - count as u8,
    }
}

/// A render was asked for with a buffer whose length is not
/// `width * height` of the bounds given.
#[derive(Debug, Clone, Copy, PartialEq, Eq)]
pub struct SizeMismatch {
    pub buffer_len: usize,
    pub width: usize,
    pub height: usize,
}

/// `byte` is what a render writes for the pixel at (`col`, `row`): the pixel
/// maps to some point `c`, and `byte` encodes an outcome of the escape-time
/// test of `c` with `ITERATION_LIMIT` iterations.
pub open spec fn pixel_shows<
    S,
    P: Fn(usize, usize) -> S,
    E: Fn(S) -> bool,
    F: Fn(S, S) -> S,
>(byte: u8, col: int, row: int, start: S, point: P, escaped: E, step: F) -> bool {
    exists|c: S, e: Option<usize>|
        point.ensures((col as usize, row as usize), c) && escape_outcome(
            escaped,
            step,
            start,
            c,
            ITERATION_LIMIT as int,
            e,
        ) && byte as int == intensity_of(e)
}

/// `buf` is a complete row-major raster of `width * height` pixels, byte
/// `row * width + col` showing the pixel at (`col`, `row`).
pub open spec fn rendered<
    S,
    P: Fn(usize, usize) -> S,
    E: Fn(S) -> bool,
    F: Fn(S, S) -> S,
>(buf: Seq<u8>, width: int, height: int, start: S, point: P, escaped: E, step: F) -> bool {
    &&& width > 0
    &&& buf.len() == width * height
    &&& forall|i: int|
        0 <= i < buf.len() ==> #[trigger] pixel_shows(
            buf[i],
            i % width,
            i / width,
            start,
            point,
            escaped,
            step,
        )
}

/// Renders the raster of `bounds` = (width, height) into `pixels`, row by
/// row and, within a row, column by column: the pixel at (`col`, `row`) maps
/// to the point `point(col, row)`, whose escape time from `start` is encoded
/// at `row * width + col`. A buffer whose length is not `width * height` is
/// refused before any byte is written.
pub fn render_by<S: Copy, P: Fn(usize, usize) -> S, E: Fn(S) -> bool, F: Fn(S, S) -> S>(
    pixels: &mut [u8],
    bounds: (usize, usize),
    start: S,
    point: &P,
    escaped: &E,
    step: &F,
) -> (r: Result<(), SizeMismatch>)
    requires
        bounds.0 > 0,
        forall|col: usize, row: usize| point.requires((col, row)),
        forall|z: S| escaped.requires((z,)),
        forall|z: S, c: S| step.requires((z, c)),
    ensures
        r is Ok <==> old(pixels)@.len() == bounds.0 * bounds.1,
        r matches Err(m) ==> m == (SizeMismatch {
            buffer_len: old(pixels)@.len() as usize,
            width: bounds.0,
            height: bounds.1,
        }),
        r is Err ==> final(pixels)@ == old(pixels)@,
        r is Ok ==> rendered(
            final(pixels)@,
            bounds.0 as int,
            bounds.1 as int,
            start,
            *point,
            *escaped,
            *step,
        ),
{
    let (width, height) = bounds;
    let len = pixels.len();
    let fits = match width.checked_mul(height) {
        Some(n) => n == len,
        None => false,
    };
    if fits {
        fill_rows(pixels, width, height, start, point, escaped, step);
        Ok(())
    } else {
        Err(SizeMismatch { buffer_len: len, width, height })
    }
}

/// Writes every pixel of a `width` by `height` raster into `pixels`, whose
/// length is already known to fit.
fn fill_rows<S: Copy, P: Fn(usize, usize) -> S, E: Fn(S) -> bool, F: Fn(S, S) -> S>(
    pixels: &mut [u8],
    width: usize,
    height: usize,
    start: S,
    point: &P,
    escaped: &E,
    step: &F,
)
    requires
        width > 0,
        old(pixels)@.len() == width * height,
        forall|col: usize, row: usize| point.requires((col, row)),
        forall|z: S| escaped.requires((z,)),
        forall|z: S, c: S| step.requires((z, c)),
    ensures
        rendered(final(pixels)@, width as int, height as int, start, *point, *escaped, *step),
{
    let len = pixels.len();
    let mut row: usize = 0;
    while row < height
        invariant
            width > 0,
            len == width * height,
            pixels@.len() == len,
            row <= height,
            row * width <= len,
            forall|col: usize, row: usize| point.requires((col, row)),
            forall|z: S| escaped.requires((z,)),
            forall|z: S, c: S| step.requires((z, c)),
            forall|i: int|
                0 <= i < row * width ==> #[trigger] pixel_shows(
                    pixels@[i],
                    i % width as int,
                    i / width as int,
                    start,
                    *point,
                    *escaped,
                    *step,
                ),
        decreases height - row,
    {
        let mut col: usize = 0;
        while col < width
            invariant
                width > 0,
                len == width * height,
                pixels@.len() == len,
                row < height,
                col <= width,
                row * width + col <= len,
                forall|col: usize, row: usize| point.requires((col, row)),
                forall|z: S| escaped.requires((z,)),
                forall|z: S, c: S| step.requires((z, c)),
                forall|i: int|
                    0 <= i < row * width + col ==> #[trigger] pixel_shows(
                        pixels@[i],
                        i % width as int,
                        i / width as int,
                        start,
                        *point,
                        *escaped,
                        *step,
                    ),
            decreases width - col,
        {
            proof {
                assert(row * width + col < width * height) by (nonlinear_arith)
                    requires
                        row < height,
                        col < width,
                ;
            }
            let index = row * width + col;
            let c = point(col, row);
            let e = escape_time_by(start, c, ITERATION_LIMIT, escaped, step);
            let byte = intensity(e);
            let ghost before = pixels@;
            pixels[index] = byte;
            proof {
                lemma_fundamental_div_mod_converse(
                    index as int,
                    width as int,
                    row as int,
                    col as int,
                );
                assert(pixel_shows(
                    byte,
                    index as int % width as int,
                    index as int / width as int,
                    start,
                    *point,
                    *escaped,
                    *step,
                ));
                assert forall|i: int| 0 <= i < row * width + col + 1 implies #[trigger] pixel_shows(
                    pixels@[i],
                    i % width as int,
                    i / width as int,
                    start,
                    *point,
                    *escaped,
                    *step,
                ) by {
                    if i < index {
                        assert(pixels@[i] == before[i]);
                    }
                }
            }
            col = col + 1;
        }
        proof {
            assert((row + 1) * width == row * width + width) by (nonlinear_arith);
            assert(row * width + width <= width * height) by (nonlinear_arith)
                requires
                    row < height,
            ;
        }
        row = row + 1;
    }
    proof {
        assert(row * width == width * height) by (nonlinear_arith)
            requires
                row == height,
        ;
    }
}

/// The escape test and the step give one result for each argument.
pub open spec fn iteration_is_functional<S, E: Fn(S) -> bool, F: Fn(S, S) -> S>(
    escaped: E,
    step: F,
) -> bool {
    &&& forall|z: S, a: bool, b: bool|
        #![trigger escaped.ensures((z,), a), escaped.ensures((z,), b)]
        escaped.ensures((z,), a) && escaped.ensures((z,), b) ==> a == b
    &&& forall|z: S, c: S, a: S, b: S|
        #![trigger step.ensures((z, c), a), step.ensures((z, c), b)]
        step.ensures((z, c), a) && step.ensures((z, c), b) ==> a == b
}

/// The point map gives one point for each pixel.
pub open spec fn point_is_functional<S, P: Fn(usize, usize) -> S>(point: P) -> bool {
    forall|col: usize, row: usize, a: S, b: S|
        #![trigger point.ensures((col, row), a), point.ensures((col, row), b)]
        point.ensures((col, row), a) && point.ensures((col, row), b) ==> a == b
}

/// Two orbits of one point under a functional step agree as far as both go.
proof fn lemma_orbits_agree<S, E: Fn(S) -> bool, F: Fn(S, S) -> S>(
    escaped: E,
    step: F,
    start: S,
    c: S,
    o1: Seq<S>,
    n1: int,
    o2: Seq<S>,
    n2: int,
    m: int,
)
    requires
        iteration_is_functional(escaped, step),
        bounded_orbit(escaped, step, start, c, o1, n1),
        bounded_orbit(escaped, step, start, c, o2, n2),
        0 <= m <= n1,
        m <= n2,
    ensures
        o1[m] == o2[m],
    decreases m,
{
    if m > 0 {
        lemma_orbits_agree(escaped, step, start, c, o1, n1, o2, n2, m - 1);
        assert(step.ensures((o1[m - 1], c), o1[m]));
        assert(step.ensures((o2[m - 1], c), o2[m]));
    }
}

/// Where the escape test and the step are functional, the escape-time test
/// of a point has exactly one outcome.
pub proof fn lemma_escape_outcome_unique<S, E: Fn(S) -> bool, F: Fn(S, S) -> S>(
    escaped: E,
    step: F,
    start: S,
    c: S,
    limit: int,
    r1: Option<usize>,
    r2: Option<usize>,
)
    requires
        iteration_is_functional(escaped, step),
        escape_outcome(escaped, step, start, c, limit, r1),
        escape_outcome(escaped, step, start, c, limit, r2),
    ensures
        r1 == r2,
{
    let n1: int = match r1 {
        Some(i) => i as int,
        None => limit,
    };
    let n2: int = match r2 {
        Some(i) => i as int,
        None => limit,
    };
    let o1 = choose|o: Seq<S>| bounded_orbit(escaped, step, start, c, o, n1) && (r1 is Some
        ==> escaped.ensures((o[n1],), true));
    let o2 = choose|o: Seq<S>| bounded_orbit(escaped, step, start, c, o, n2) && (r2 is Some
        ==> escaped.ensures((o[n2],), true));
    if n1 < n2 {
        lemma_orbits_agree(escaped, step, start, c, o1, n1, o2, n2, n1);
        assert(escaped.ensures((o2[n1],), false));
    } else if n2 < n1 {
        lemma_orbits_agree(escaped, step, start, c, o1, n1, o2, n2, n2);
        assert(escaped.ensures((o1[n2],), false));
    }
}

/// Rendering is deterministic: where the point map, the escape test and the
/// step each give one result per argument, two complete renders of the same
/// bounds and window are byte for byte the same.
pub proof fn lemma_render_deterministic<
    S,
    P: Fn(usize, usize) -> S,
    E: Fn(S) -> bool,
    F: Fn(S, S) -> S,
>(a: Seq<u8>, b: Seq<u8>, width: int, height: int, start: S, point: P, escaped: E, step: F)
    requires
        point_is_functional(point),
        iteration_is_functional(escaped, step),
        rendered(a, width, height, start, point, escaped, step),
        rendered(b, width, height, start, point, escaped, step),
    ensures
        a == b,
{
    assert forall|i: int| 0 <= i < a.len() implies a[i] == b[i] by {
        let col = i % width;
        let row = i / width;
        assert(pixel_shows(a[i], col, row, start, point, escaped, step));
        assert(pixel_shows(b[i], col, row, start, point, escaped, step));
        let (ca, ea) = choose|c: S, e: Option<usize>|
            point.ensures((col as usize, row as usize), c) && escape_outcome(
                escaped,
                step,
                start,
                c,
                ITERATION_LIMIT as int,
                e,
            ) && a[i] as int == intensity_of(e);
        let (cb, eb) = choose|c: S, e: Option<usize>|
            point.ensures((col as usize, row as usize), c) && escape_outcome(
                escaped,
                step,
                start,
                c,
                ITERATION_LIMIT as int,
                e,
            ) && b[i] as int == intensity_of(e);
        assert(ca == cb);
        lemma_escape_outcome_unique(escaped, step, start, ca, ITERATION_LIMIT as int, ea, eb);
    }
    assert(a =~= b);
}

/// In a render, a pixel's byte is 0 exactly when the escape-time test of its
/// point did not see it escape; otherwise the byte is in `1..=255`.
pub proof fn lemma_black_iff_not_escaped<
    S,
    P: Fn(usize, usize) -> S,
    E: Fn(S) -> bool,
    F: Fn(S, S) -> S,
>(
    buf: Seq<u8>,
    width: int,
    height: int,
    start: S,
    point: P,
    escaped: E,
    step: F,
    i: int,
)
    requires
        rendered(buf, width, height, start, point, escaped, step),
        0 <= i < buf.len(),
    ensures
        exists|c: S, e: Option<usize>|
            point.ensures(((i % width) as usize, (i / width) as usize), c) && escape_outcome(
                escaped,
                step,
                start,
                c,
                ITERATION_LIMIT as int,
                e,
            ) && (buf[i] == 0 <==> e is None) && (e is Some ==> 1 <= buf[i] <= 255),
{
    assert(pixel_shows(buf[i], i % width, i / width, start, point, escaped, step));
}

} // verus!
