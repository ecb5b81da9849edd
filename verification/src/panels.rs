//! Panels of a comic page, found by the gutters between them.

use vstd::prelude::*;

use crate::picture::{
    column, grays, line, pair_distance, spread, spread_is_pair_distance, spread_of, Picture, Raster,
};

verus! {

/// A panel of a page, in pixels.
#[derive(Debug, Clone, Copy, PartialEq, Eq)]
pub struct PanelRect {
    pub x: u32,
    pub y: u32,
    pub w: u32,
    pub h: u32,
}

/// A line belongs to a gutter where the variance of its samples is less than 50.
pub open spec fn is_flat(samples: Seq<u8>) -> bool {
    spread(samples) < 50 * samples.len() * samples.len() || samples.len() == 0
}

/// Which rows are flat.
pub open spec fn flat_rows(samples: Seq<u8>, width: int, height: int) -> Seq<bool> {
    Seq::new(height as nat, |y: int| is_flat(line(samples, width, y)))
}

/// Which columns are flat within the rows from `top` up to and without `bottom`; none where there
/// are no rows.
pub open spec fn flat_columns(samples: Seq<u8>, width: int, top: int, bottom: int) -> Seq<bool> {
    Seq::new(
        width as nat,
        |x: int| top < bottom && is_flat(column(samples, width, x, top, bottom)),
    )
}

/// Where the run of flat lines ends that line `at` belongs to.
pub open spec fn run_end(flat: Seq<bool>, at: int) -> int
    decreases flat.len() - at,
{
    if at >= flat.len() || at < 0 || !flat[at] {
        at
    } else {
        run_end(flat, at + 1)
    }
}

/// The gutters from line `at` on: runs of at least `least` flat lines, with their first line and
/// the line behind their last.
pub open spec fn gutters_from(flat: Seq<bool>, at: int, least: int) -> Seq<(int, int)>
    decreases flat.len() - at,
    when 0 <= at
    via gutters_shrink
{
    if at >= flat.len() {
        seq![]
    } else if !flat[at] {
        gutters_from(flat, at + 1, least)
    } else {
        let end = run_end(flat, at);
        if end - at >= least {
            seq![(at, end)] + gutters_from(flat, end, least)
        } else {
            gutters_from(flat, end, least)
        }
    }
}

#[via_fn]
proof fn gutters_shrink(flat: Seq<bool>, at: int, least: int) {
    if at < flat.len() && flat[at] {
        run_end_is_end(flat, at);
    }
}

proof fn run_end_is_end(flat: Seq<bool>, at: int)
    requires
        0 <= at <= flat.len(),
    ensures
        at <= run_end(flat, at) <= flat.len(),
        forall|i: int| at <= i < run_end(flat, at) ==> flat[i],
        run_end(flat, at) < flat.len() ==> !flat[run_end(flat, at)],
        at < flat.len() && flat[at] ==> at < run_end(flat, at),
    decreases flat.len() - at,
{
    if at < flat.len() && flat[at] {
        run_end_is_end(flat, at + 1);
    }
}

/// The gutters among some lines.
pub open spec fn gutters(flat: Seq<bool>, least: int) -> Seq<(int, int)> {
    gutters_from(flat, 0, least)
}

/// The strips between gutters, from `pos` on.
pub open spec fn strips_from(gutters: Seq<(int, int)>, pos: int, size: int) -> Seq<(int, int)>
    decreases gutters.len(),
{
    if gutters.len() == 0 {
        if pos < size {
            seq![(pos, size)]
        } else {
            seq![]
        }
    } else {
        (if gutters[0].0 > pos {
            seq![(pos, gutters[0].0)]
        } else {
            seq![]
        }) + strips_from(gutters.drop_first(), gutters[0].1, size)
    }
}

/// The strips between gutters. Without any gutter it is one strip.
pub open spec fn strips(gutters: Seq<(int, int)>, size: int) -> Seq<(int, int)> {
    if gutters.len() == 0 {
        seq![(0, size)]
    } else {
        strips_from(gutters, 0, size)
    }
}

/// How many lines a gutter has at least: two, or half a percent of the size.
pub open spec fn least_gutter(size: int) -> int {
    if size / 200 < 2 {
        2
    } else {
        size / 200
    }
}

/// The strips of a page from top to bottom.
pub open spec fn page_strips(img: Raster) -> Seq<(int, int)> {
    strips(
        gutters(flat_rows(grays(img), img.width, img.height), least_gutter(img.height)),
        img.height,
    )
}

/// The strips of a part of a page from left to right.
pub open spec fn cells(img: Raster, top: int, bottom: int) -> Seq<(int, int)> {
    strips(
        gutters(flat_columns(grays(img), img.width, top, bottom), least_gutter(img.width)),
        img.width,
    )
}

/// A panel: left, top, width and height.
pub open spec fn rect(across: (int, int), down: (int, int)) -> (int, int, int, int) {
    (across.0, down.0, across.1 - across.0, down.1 - down.0)
}

/// The panels of one strip.
pub open spec fn strip_panels(img: Raster, down: (int, int)) -> Seq<(int, int, int, int)> {
    let across = cells(img, down.0, down.1);
    Seq::new(across.len(), |i: int| rect(across[i], down))
}

/// The panels of some strips.
pub open spec fn all_panels(img: Raster, down: Seq<(int, int)>) -> Seq<(int, int, int, int)>
    decreases down.len(),
{
    if down.len() == 0 {
        seq![]
    } else {
        all_panels(img, down.drop_last()) + strip_panels(img, down.last())
    }
}

/// The panels of a page, row by row and from left to right. A page that shows less than two, or is
/// less than 20 pixels wide or high, has none.
pub open spec fn panels(img: Raster) -> Seq<(int, int, int, int)> {
    let down = page_strips(img);
    let found = if down.len() <= 1 {
        strip_panels(img, (0, img.height))
    } else {
        all_panels(img, down)
    };
    if img.width < 20 || img.height < 20 || found.len() <= 1 {
        seq![]
    } else {
        found
    }
}

/// The panels as numbers.
pub open spec fn rects(panels: Seq<PanelRect>) -> Seq<(int, int, int, int)> {
    Seq::new(
        panels.len(),
        |i: int|
            (
                panels[i].x as int,
                panels[i].y as int,
                panels[i].w as int,
                panels[i].h as int,
            ),
    )
}

/// Spans as integers.
pub open spec fn spans(v: Seq<(u32, u32)>) -> Seq<(int, int)> {
    Seq::new(v.len(), |i: int| (v[i].0 as int, v[i].1 as int))
}

/// A run of flat lines that cannot be made longer.
pub open spec fn is_run(flat: Seq<bool>, a: int, b: int) -> bool {
    &&& 0 <= a < b <= flat.len()
    &&& forall|i: int| a <= i < b ==> flat[i]
    &&& a == 0 || !flat[a - 1]
    &&& b == flat.len() || !flat[b]
}

/// The gutters are exactly the runs of at least `least` flat lines that cannot be made longer, in
/// order and apart from each other.
pub proof fn gutters_are_the_runs(flat: Seq<bool>, at: int, least: int)
    requires
        0 <= at <= flat.len(),
        at == 0 || at == flat.len() || !flat[at - 1] || !flat[at],
    ensures
        ({
            let g = gutters_from(flat, at, least);
            &&& forall|i: int|
                0 <= i < g.len() ==> {
                    &&& at <= (#[trigger] g[i]).0
                    &&& is_run(flat, g[i].0, g[i].1)
                    &&& g[i].1 - g[i].0 >= least
                }
            &&& forall|i: int, j: int| 0 <= i < j < g.len() ==> (#[trigger] g[i]).1 < (#[trigger] g[j]).0
            &&& forall|a: int, b: int|
                at <= a && is_run(flat, a, b) && b - a >= least ==> #[trigger] g.contains((a, b))
        }),
    decreases flat.len() - at,
{
    let g = gutters_from(flat, at, least);
    if at < flat.len() {
        if !flat[at] {
            gutters_are_the_runs(flat, at + 1, least);
            assert(g == gutters_from(flat, at + 1, least));
            assert forall|a: int, b: int|
                at <= a && is_run(flat, a, b) && b - a >= least implies #[trigger] g.contains(
                (a, b),
            ) by {
                assert(flat[a]);
                assert(gutters_from(flat, at + 1, least).contains((a, b)));
            }
        } else {
            run_end_is_end(flat, at);
            let end = run_end(flat, at);
            gutters_are_the_runs(flat, end, least);
            let rest = gutters_from(flat, end, least);
            if end - at >= least {
                assert(g =~= seq![(at, end)] + rest);
                assert forall|i: int| 0 <= i < g.len() implies ({
                    &&& at <= (#[trigger] g[i]).0
                    &&& is_run(flat, g[i].0, g[i].1)
                    &&& g[i].1 - g[i].0 >= least
                }) by {
                    if i > 0 {
                        assert(g[i] == rest[i - 1]);
                    }
                }
                assert forall|i: int, j: int| 0 <= i < j < g.len() implies (#[trigger] g[i]).1 < (
                #[trigger] g[j]).0 by {
                    assert(g[j] == rest[j - 1]);
                    if i > 0 {
                        assert(g[i] == rest[i - 1]);
                    } else {
                        assert(rest[j - 1].0 >= end);
                        assert(is_run(flat, rest[j - 1].0, rest[j - 1].1));
                        if rest[j - 1].0 == end {
                            assert(flat[end]);
                        }
                    }
                }
            }
            assert forall|a: int, b: int|
                at <= a && is_run(flat, a, b) && b - a >= least implies #[trigger] g.contains(
                (a, b),
            ) by {
                if a < end {
                    if a > at {
                        assert(flat[a - 1]);
                    }
                    if b < end {
                        assert(flat[b]);
                    }
                    if b > end {
                        assert(flat[end]);
                    }
                    assert(g[0] == (at, end));
                } else {
                    assert(rest.contains((a, b)));
                    let i = choose|i: int| 0 <= i < rest.len() && rest[i] == (a, b);
                    if end - at >= least {
                        assert(g[i + 1] == (a, b));
                    }
                }
            }
        }
    }
}

/// The gutters stand apart, in order, within the lines.
pub open spec fn in_order(gutters: Seq<(int, int)>, pos: int, size: int) -> bool {
    &&& forall|i: int|
        0 <= i < gutters.len() ==> pos <= (#[trigger] gutters[i]).0 < gutters[i].1 <= size
    &&& forall|i: int, j: int|
        0 <= i < j < gutters.len() ==> (#[trigger] gutters[i]).1 <= (#[trigger] gutters[j]).0
}

/// A line lies in one of the spans.
pub open spec fn covered(spans: Seq<(int, int)>, y: int) -> bool {
    exists|i: int| 0 <= i < spans.len() && (#[trigger] spans[i]).0 <= y < spans[i].1
}

/// The strips stand in order and apart, and a line belongs to a strip exactly where it belongs to
/// no gutter.
pub proof fn strips_fill_between_gutters(gutters: Seq<(int, int)>, pos: int, size: int)
    requires
        0 <= pos <= size,
        in_order(gutters, pos, size),
    ensures
        in_order(strips_from(gutters, pos, size), pos, size),
        forall|y: int|
            pos <= y < size ==> covered(strips_from(gutters, pos, size), y) == !#[trigger] covered(
                gutters,
                y,
            ),
    decreases gutters.len(),
{
    let s = strips_from(gutters, pos, size);
    if gutters.len() == 0 {
        assert forall|y: int| pos <= y < size implies covered(s, y) == !#[trigger] covered(
            gutters,
            y,
        ) by {
            assert(s[0].0 <= y < s[0].1);
        }
    } else {
        let rest = gutters.drop_first();
        let g = gutters[0];
        assert forall|i: int| 0 <= i < rest.len() implies g.1 <= (#[trigger] rest[i]).0 < rest[i].1
            <= size by {
            assert(rest[i] == gutters[i + 1]);
        }
        assert forall|i: int, j: int| 0 <= i < j < rest.len() implies (#[trigger] rest[i]).1 <= (
        #[trigger] rest[j]).0 by {
            assert(rest[i] == gutters[i + 1]);
            assert(rest[j] == gutters[j + 1]);
        }
        strips_fill_between_gutters(rest, g.1, size);
        let tail = strips_from(rest, g.1, size);
        let n: int = if g.0 > pos {
            1
        } else {
            0
        };
        assert(s.len() == tail.len() + n);
        assert forall|i: int| 0 <= i < s.len() implies pos <= (#[trigger] s[i]).0 < s[i].1 <= size by {
            if i >= n {
                assert(s[i] == tail[i - n]);
            }
        }
        assert forall|i: int, j: int| 0 <= i < j < s.len() implies (#[trigger] s[i]).1 <= (
        #[trigger] s[j]).0 by {
            assert(s[j] == tail[j - n]);
            if i >= n {
                assert(s[i] == tail[i - n]);
            }
        }
        assert forall|y: int| pos <= y < size implies covered(s, y) == !#[trigger] covered(
            gutters,
            y,
        ) by {
            if y < g.0 {
                assert(s[0].0 <= y < s[0].1);
                if covered(gutters, y) {
                    let i = choose|i: int|
                        0 <= i < gutters.len() && (#[trigger] gutters[i]).0 <= y < gutters[i].1;
                    if i > 0 {
                        assert(gutters[0].1 <= gutters[i].0);
                    }
                }
            } else if y < g.1 {
                assert(gutters[0].0 <= y < gutters[0].1);
                if covered(s, y) {
                    let i = choose|i: int| 0 <= i < s.len() && (#[trigger] s[i]).0 <= y < s[i].1;
                    if i >= n {
                        assert(s[i] == tail[i - n]);
                    }
                }
            } else {
                assert(covered(tail, y) == !covered(rest, y));
                if covered(rest, y) {
                    let i = choose|i: int|
                        0 <= i < rest.len() && (#[trigger] rest[i]).0 <= y < rest[i].1;
                    assert(gutters[i + 1] == rest[i]);
                }
                if covered(gutters, y) {
                    let i = choose|i: int|
                        0 <= i < gutters.len() && (#[trigger] gutters[i]).0 <= y < gutters[i].1;
                    assert(rest[i - 1] == gutters[i]);
                }
                if covered(tail, y) {
                    let i = choose|i: int| 0 <= i < tail.len() && (#[trigger] tail[i]).0 <= y < tail[i].1;
                    assert(s[i + n] == tail[i]);
                }
                if covered(s, y) {
                    let i = choose|i: int| 0 <= i < s.len() && (#[trigger] s[i]).0 <= y < s[i].1;
                    assert(tail[i - n] == s[i]);
                }
            }
        }
    }
}

proof fn strips_are_in_order(flat: Seq<bool>, least: int)
    requires
        flat.len() > 0,
        least > 0,
    ensures
        in_order(strips(gutters(flat, least), flat.len() as int), 0, flat.len() as int),
{
    gutters_are_the_runs(flat, 0, least);
    let g = gutters(flat, least);
    assert forall|i: int| 0 <= i < g.len() implies 0 <= (#[trigger] g[i]).0 < g[i].1
        <= flat.len() by {
        assert(is_run(flat, g[i].0, g[i].1));
    }
    strips_fill_between_gutters(g, 0, flat.len() as int);
}

/// A panel that lies within the page and has pixels.
pub open spec fn in_page(panel: (int, int, int, int), width: int, height: int) -> bool {
    &&& 0 <= panel.0
    &&& 0 <= panel.1
    &&& 0 < panel.2
    &&& 0 < panel.3
    &&& panel.0 + panel.2 <= width
    &&& panel.1 + panel.3 <= height
}

proof fn cells_are_in_order(img: Raster, top: int, bottom: int)
    requires
        img.width > 0,
    ensures
        in_order(cells(img, top, bottom), 0, img.width),
{
    strips_are_in_order(
        flat_columns(grays(img), img.width, top, bottom),
        least_gutter(img.width),
    );
}

proof fn all_panels_lie_in_page(img: Raster, down: Seq<(int, int)>)
    requires
        img.width > 0,
        in_order(down, 0, img.height),
    ensures
        forall|i: int|
            0 <= i < all_panels(img, down).len() ==> in_page(
                #[trigger] all_panels(img, down)[i],
                img.width,
                img.height,
            ),
    decreases down.len(),
{
    if down.len() > 0 {
        let rest = down.drop_last();
        assert forall|i: int| 0 <= i < rest.len() implies 0 <= (#[trigger] rest[i]).0 < rest[i].1
            <= img.height by {
            assert(rest[i] == down[i]);
        }
        assert forall|i: int, j: int| 0 <= i < j < rest.len() implies (#[trigger] rest[i]).1 <= (
        #[trigger] rest[j]).0 by {
            assert(rest[i] == down[i]);
            assert(rest[j] == down[j]);
        }
        all_panels_lie_in_page(img, rest);
        let d = down.last();
        assert(d == down[down.len() - 1]);
        cells_are_in_order(img, d.0, d.1);
        let n = all_panels(img, rest).len();
        assert forall|i: int| 0 <= i < all_panels(img, down).len() implies in_page(
            #[trigger] all_panels(img, down)[i],
            img.width,
            img.height,
        ) by {
            if i < n {
                assert(all_panels(img, down)[i] == all_panels(img, rest)[i]);
            } else {
                assert(all_panels(img, down)[i] == rect(cells(img, d.0, d.1)[i - n], d));
            }
        }
    }
}

/// A page has no panel or at least two, and each lies within the page and has pixels.
pub proof fn panels_lie_in_page(img: Raster)
    ensures
        panels(img).len() != 1,
        forall|i: int|
            0 <= i < panels(img).len() ==> in_page(#[trigger] panels(img)[i], img.width, img.height),
{
    if img.width >= 20 && img.height >= 20 {
        let down = page_strips(img);
        if down.len() <= 1 {
            cells_are_in_order(img, 0, img.height);
        } else {
            strips_are_in_order(
                flat_rows(grays(img), img.width, img.height),
                least_gutter(img.height),
            );
            all_panels_lie_in_page(img, down);
        }
    }
}

fn is_flat_line(s: &[u8]) -> (r: bool)
    requires
        s@.len() <= u32::MAX,
    ensures
        r == is_flat(s@),
{
    let n: i128 = s.len() as i128;
    assert(0 <= 50 * n * n <= 50 * 0x1_0000_0000 * 0x1_0000_0000) by (nonlinear_arith)
        requires
            0 <= n <= 0xffff_ffff,
    ;
    assert(0 <= 50 * n <= 50 * 0x1_0000_0000);
    n == 0 || spread_of(s) < 50 * n * n
}

fn find_gutters(flat: &[bool], least: u32) -> (r: Vec<(u32, u32)>)
    requires
        flat@.len() <= u32::MAX,
    ensures
        spans(r@) == gutters(flat@, least as int),
{
    let size: usize = flat.len();
    let mut r: Vec<(u32, u32)> = Vec::new();
    let mut at: usize = 0;
    let ghost all = gutters(flat@, least as int);
    assert(spans(r@) + all =~= all);
    while at < size
        invariant
            size == flat@.len() <= u32::MAX,
            at <= size,
            all == spans(r@) + gutters_from(flat@, at as int, least as int),
        decreases size - at,
    {
        let start: usize = at;
        if !flat[at] {
            at += 1;
        } else {
            while at < size && flat[at]
                invariant
                    start <= at <= size,
                    size == flat@.len(),
                    run_end(flat@, start as int) == run_end(flat@, at as int),
                decreases size - at,
            {
                at += 1;
            }
            proof {
                run_end_is_end(flat@, start as int);
            }
            let ghost before = spans(r@);
            if at - start >= least as usize {
                r.push((start as u32, at as u32));
                proof {
                    let pair = (start as int, at as int);
                    assert(spans(r@) =~= before.push(pair));
                    assert(before + (seq![pair] + gutters_from(flat@, at as int, least as int))
                        =~= before.push(pair) + gutters_from(flat@, at as int, least as int));
                }
            }
        }
    }
    assert(spans(r@) =~= all);
    r
}

/// The gutters between the rows of a gray picture, of at least `least` rows each.
pub fn find_horizontal_gutters(gray: &Picture, least: u32) -> (r: Vec<(u32, u32)>)
    requires
        gray.wf(),
        !gray.color,
    ensures
        spans(r@) == gutters(
            flat_rows(gray.samples@, gray.width as int, gray.height as int),
            least as int,
        ),
{
    let ghost want = flat_rows(gray.samples@, gray.width as int, gray.height as int);
    let mut flat: Vec<bool> = Vec::new();
    let mut y: u32 = 0;
    while y < gray.height
        invariant
            gray.wf(),
            !gray.color,
            y <= gray.height,
            flat@.len() == y,
            want == flat_rows(gray.samples@, gray.width as int, gray.height as int),
            forall|k: int| 0 <= k < y ==> #[trigger] flat@[k] == want[k],
        decreases gray.height - y,
    {
        flat.push(is_flat_line(gray.row_samples(y)));
        y += 1;
    }
    assert(flat@ =~= want);
    find_gutters(&flat, least)
}

proof fn no_gutters_where_nothing_is_flat(flat: Seq<bool>, at: int, least: int)
    requires
        0 <= at,
        forall|i: int| 0 <= i < flat.len() ==> !(#[trigger] flat[i]),
    ensures
        gutters_from(flat, at, least).len() == 0,
    decreases flat.len() - at,
{
    if at < flat.len() {
        no_gutters_where_nothing_is_flat(flat, at + 1, least);
    }
}

/// The gutters between the columns of a gray picture within the rows from `y_start` up to and
/// without `y_end`, of at least `least` columns each. Where there are no rows there are none.
pub fn find_vertical_gutters(gray: &Picture, y_start: u32, y_end: u32, least: u32) -> (r: Vec<
    (u32, u32),
>)
    requires
        gray.wf(),
        !gray.color,
        y_start <= y_end <= gray.height,
    ensures
        spans(r@) == gutters(
            flat_columns(gray.samples@, gray.width as int, y_start as int, y_end as int),
            least as int,
        ),
        y_start == y_end ==> r@.len() == 0,
{
    let ghost want = flat_columns(
        gray.samples@,
        gray.width as int,
        y_start as int,
        y_end as int,
    );
    let mut flat: Vec<bool> = Vec::new();
    let mut x: u32 = 0;
    while x < gray.width
        invariant
            gray.wf(),
            !gray.color,
            y_start <= y_end <= gray.height,
            x <= gray.width,
            flat@.len() == x,
            want == flat_columns(
                gray.samples@,
                gray.width as int,
                y_start as int,
                y_end as int,
            ),
            forall|k: int| 0 <= k < x ==> #[trigger] flat@[k] == want[k],
        decreases gray.width - x,
    {
        let samples = gray.column_samples(x, y_start, y_end);
        flat.push(y_start < y_end && is_flat_line(&samples));
        x += 1;
    }
    assert(flat@ =~= want);
    proof {
        if y_start == y_end {
            no_gutters_where_nothing_is_flat(want, 0, least as int);
        }
    }
    find_gutters(&flat, least)
}

/// The strips between gutters.
pub fn strips_from_gutters(gutters: &[(u32, u32)], total_size: u32) -> (r: Vec<(u32, u32)>)
    ensures
        spans(r@) == strips(spans(gutters@), total_size as int),
{
    let mut r: Vec<(u32, u32)> = Vec::new();
    let ghost all = spans(gutters@);
    if gutters.len() == 0 {
        r.push((0, total_size));
        assert(spans(r@) =~= strips(all, total_size as int));
        return r;
    }
    let mut pos: u32 = 0;
    let mut i: usize = 0;
    assert(all.skip(0) =~= all);
    assert(spans(r@) + strips_from(all, 0, total_size as int) =~= strips_from(
        all,
        0,
        total_size as int,
    ));
    while i < gutters.len()
        invariant
            all == spans(gutters@),
            i <= gutters@.len(),
            strips_from(all, 0, total_size as int) == spans(r@) + strips_from(
                all.skip(i as int),
                pos as int,
                total_size as int,
            ),
        decreases gutters.len() - i,
    {
        let (from, to) = gutters[i];
        let ghost before = spans(r@);
        let ghost tail = strips_from(all.skip(i + 1), to as int, total_size as int);
        proof {
            assert(all.skip(i as int).drop_first() =~= all.skip(i + 1));
            assert(all.skip(i as int)[0] == (from as int, to as int));
        }
        if from > pos {
            r.push((pos, from));
            proof {
                let pair = (pos as int, from as int);
                assert(spans(r@) =~= before.push(pair));
                assert(before + (seq![pair] + tail) =~= before.push(pair) + tail);
            }
        } else {
            assert(seq![] + tail =~= tail);
        }
        pos = to;
        i += 1;
    }
    assert(all.skip(i as int) =~= seq![]);
    if pos < total_size {
        let ghost before = spans(r@);
        r.push((pos, total_size));
        assert(spans(r@) =~= before.push((pos as int, total_size as int)));
        assert(spans(r@) =~= before + seq![(pos as int, total_size as int)]);
    } else {
        assert(spans(r@) =~= spans(r@) + seq![]);
    }
    r
}

fn least_gutter_of(size: u32) -> (r: u32)
    ensures
        r == least_gutter(size as int),
{
    if size / 200 < 2 {
        2
    } else {
        size / 200
    }
}

fn push_strip_panels(out: &mut Vec<PanelRect>, gray: &Picture, y_start: u32, y_end: u32, img: Ghost<Raster>)
    requires
        gray.wf(),
        !gray.color,
        gray.width > 0,
        y_start <= y_end <= gray.height,
        img@.width == gray.width,
        img@.height == gray.height,
        grays(img@) == gray.samples@,
    ensures
        rects(final(out)@) == rects(old(out)@) + strip_panels(
            img@,
            (y_start as int, y_end as int),
        ),
{
    let gutters = find_vertical_gutters(gray, y_start, y_end, least_gutter_of(gray.width));
    let across = strips_from_gutters(&gutters, gray.width);
    let ghost want = strip_panels(img@, (y_start as int, y_end as int));
    proof {
        cells_are_in_order(img@, y_start as int, y_end as int);
        assert(spans(across@) == cells(img@, y_start as int, y_end as int));
    }
    let mut i: usize = 0;
    assert(rects(out@) =~= rects(old(out)@) + want.take(0));
    while i < across.len()
        invariant
            i <= across@.len(),
            y_start <= y_end,
            spans(across@) == cells(img@, y_start as int, y_end as int),
            in_order(spans(across@), 0, gray.width as int),
            want == strip_panels(img@, (y_start as int, y_end as int)),
            rects(out@) == rects(old(out)@) + want.take(i as int),
        decreases across.len() - i,
    {
        let (from, to) = across[i];
        let ghost before = rects(out@);
        assert(spans(across@)[i as int] == (from as int, to as int));
        assert(from < to);
        out.push(PanelRect { x: from, y: y_start, w: to - from, h: y_end - y_start });
        i += 1;
        proof {
            assert(want[i - 1] == rect(
                (from as int, to as int),
                (y_start as int, y_end as int),
            ));
            assert(rects(out@) =~= before.push(want[i - 1]));
            assert(want.take(i as int) =~= want.take(i - 1).push(want[i - 1]));
            assert(rects(out@) =~= rects(old(out)@) + want.take(i as int));
        }
    }
    assert(want.take(i as int) =~= want);
}

/// Finds the panels of a page: it is cut into strips at horizontal gutters, and each strip into
/// panels at vertical ones.
pub fn detect_panels(img: &Picture) -> (r: Vec<PanelRect>)
    requires
        img.wf(),
    ensures
        rects(r@) == panels(img@),
{
    let mut r: Vec<PanelRect> = Vec::new();
    let none: Vec<PanelRect> = Vec::new();
    assert(rects(none@) =~= seq![]);
    if img.width < 20 || img.height < 20 {
        return none;
    }
    let gray = img.to_gray();
    let (w, h) = (img.width, img.height);
    let gutters = find_horizontal_gutters(&gray, least_gutter_of(h));
    let down = strips_from_gutters(&gutters, h);
    let ghost all = spans(down@);
    proof {
        strips_are_in_order(
            flat_rows(grays(img@), w as int, h as int),
            least_gutter(h as int),
        );
        assert(all == page_strips(img@));
        assert(rects(r@) =~= seq![]);
        assert(all.take(0) =~= seq![]);
        assert(all.len() == down@.len());
    }
    if down.len() <= 1 {
        push_strip_panels(&mut r, &gray, 0, h, Ghost(img@));
        assert(seq![] + strip_panels(img@, (0int, h as int)) =~= strip_panels(
            img@,
            (0int, h as int),
        ));
    } else {
        let mut i: usize = 0;
        while i < down.len()
            invariant
                i <= down@.len(),
                all == spans(down@),
                in_order(all, 0, h as int),
                gray.wf(),
                !gray.color,
                gray.width == w > 0,
                gray.height == h,
                img.width == w,
                img.height == h,
                grays(img@) == gray.samples@,
                rects(r@) == all_panels(img@, all.take(i as int)),
            decreases down.len() - i,
        {
            let (from, to) = down[i];
            proof {
                assert(all[i as int] == (from as int, to as int));
                assert(all.take(i + 1).drop_last() =~= all.take(i as int));
                assert(all.take(i + 1).last() == all[i as int]);
            }
            push_strip_panels(&mut r, &gray, from, to, Ghost(img@));
            i += 1;
        }
        assert(all.take(i as int) =~= all);
    }
    assert(r@.len() == rects(r@).len());
    if r.len() <= 1 {
        return none;
    }
    r
}

/// A line that belongs to a run of at least `least` flat lines.
pub open spec fn in_gutter(flat: Seq<bool>, i: int, least: int) -> bool {
    exists|a: int, b: int| a <= i < b && b - a >= least && #[trigger] is_run(flat, a, b)
}

/// A line is flat where its samples are that close to each other: over all pairs, the squares of their
/// differences sum up to less than 50 for each pair of places.
pub proof fn flat_lines_have_close_samples(s: Seq<u8>)
    requires
        s.len() > 0,
    ensures
        is_flat(s) == (pair_distance(s) < 50 * (s.len() * s.len())),
{
    spread_is_pair_distance(s);
    let n = s.len() as int;
    assert(50 * n * n == 50 * (n * n)) by (nonlinear_arith);
}

/// The flat rows and columns of a page are those whose samples are close to each other.
pub proof fn flat_rows_and_columns(img: Raster, x: int, y: int, top: int, bottom: int)
    requires
        0 <= x < img.width,
        0 <= y < img.height,
        0 <= top < bottom <= img.height,
        grays(img).len() == img.width * img.height,
    ensures
        ({
            let (w, s) = (img.width, grays(img));
            let row = Seq::new(w as nat, |i: int| s[y * w + i]);
            let column = Seq::new((bottom - top) as nat, |i: int| s[(top + i) * w + x]);
            &&& flat_rows(s, w, img.height)[y] == (pair_distance(row) < 50 * (w * w))
            &&& flat_columns(s, w, top, bottom)[x] == (pair_distance(column) < 50 * ((bottom - top) * (
            bottom - top)))
        }),
{
    let (w, s) = (img.width, grays(img));
    let row = Seq::new(w as nat, |i: int| s[y * w + i]);
    assert(0 <= y * w && (y + 1) * w == y * w + w && (y + 1) * w <= w * img.height) by (nonlinear_arith)
        requires
            0 <= y < img.height,
            0 < w,
    ;
    assert(line(s, w, y) =~= row);
    flat_lines_have_close_samples(row);
    flat_lines_have_close_samples(column(s, w, x, top, bottom));
}

proof fn strips_end_at_gutters(gutters: Seq<(int, int)>, pos: int, size: int)
    requires
        0 <= pos <= size,
        in_order(gutters, pos, size),
    ensures
        ({
            let s = strips_from(gutters, pos, size);
            &&& forall|i: int|
                0 <= i < s.len() ==> ((#[trigger] s[i]).0 == pos || covered(gutters, s[i].0 - 1))
                    && (s[i].1 == size || covered(gutters, s[i].1))
        }),
    decreases gutters.len(),
{
    let s = strips_from(gutters, pos, size);
    if gutters.len() > 0 {
        let rest = gutters.drop_first();
        let g = gutters[0];
        assert forall|i: int| 0 <= i < rest.len() implies g.1 <= (#[trigger] rest[i]).0 < rest[i].1
            <= size by {
            assert(rest[i] == gutters[i + 1]);
        }
        assert forall|i: int, j: int| 0 <= i < j < rest.len() implies (#[trigger] rest[i]).1 <= (
        #[trigger] rest[j]).0 by {
            assert(rest[i] == gutters[i + 1]);
            assert(rest[j] == gutters[j + 1]);
        }
        strips_end_at_gutters(rest, g.1, size);
        let tail = strips_from(rest, g.1, size);
        let n: int = if g.0 > pos {
            1
        } else {
            0
        };
        assert forall|y: int| covered(rest, y) implies #[trigger] covered(gutters, y) by {
            let i = choose|i: int| 0 <= i < rest.len() && (#[trigger] rest[i]).0 <= y < rest[i].1;
            assert(gutters[i + 1] == rest[i]);
        }
        assert forall|i: int| 0 <= i < s.len() implies ((#[trigger] s[i]).0 == pos || covered(
            gutters,
            s[i].0 - 1,
        )) && (s[i].1 == size || covered(gutters, s[i].1)) by {
            assert(gutters[0].0 <= g.1 - 1 < gutters[0].1);
            assert(gutters[0].0 <= g.0 < gutters[0].1);
            if i >= n {
                assert(s[i] == tail[i - n]);
            }
        }
    }
}

/// The strips of some lines: in order, apart from each other, from gutter to gutter, and with every line
/// that belongs to no gutter.
pub proof fn strips_stand_between_gutters(flat: Seq<bool>, least: int)
    requires
        flat.len() > 0,
        least > 0,
    ensures
        ({
            let n = flat.len() as int;
            let s = strips(gutters(flat, least), n);
            &&& in_order(s, 0, n)
            &&& forall|y: int|
                0 <= y < n ==> covered(s, y) == !#[trigger] in_gutter(flat, y, least)
            &&& forall|i: int|
                0 <= i < s.len() ==> ((#[trigger] s[i]).0 == 0 || in_gutter(flat, s[i].0 - 1, least))
                    && (s[i].1 == n || in_gutter(flat, s[i].1, least))
        }),
{
    let n = flat.len() as int;
    let g = gutters(flat, least);
    let s = strips(g, n);
    gutters_are_the_runs(flat, 0, least);
    strips_are_in_order(flat, least);
    assert forall|i: int| 0 <= i < g.len() implies 0 <= (#[trigger] g[i]).0 < g[i].1 <= n by {
        assert(is_run(flat, g[i].0, g[i].1));
    }
    strips_fill_between_gutters(g, 0, n);
    strips_end_at_gutters(g, 0, n);
    assert forall|y: int| covered(g, y) == #[trigger] in_gutter(flat, y, least) by {
        if covered(g, y) {
            let i = choose|i: int| 0 <= i < g.len() && (#[trigger] g[i]).0 <= y < g[i].1;
            assert(is_run(flat, g[i].0, g[i].1));
        }
        if in_gutter(flat, y, least) {
            let (a, b) = choose|a: int, b: int|
                a <= y < b && b - a >= least && #[trigger] is_run(flat, a, b);
            assert(g.contains((a, b)));
            let i = choose|i: int| 0 <= i < g.len() && g[i] == (a, b);
            assert(g[i].0 <= y < g[i].1);
        }
    }
    if g.len() == 0 {
        assert forall|y: int| 0 <= y < n implies covered(s, y) == !#[trigger] in_gutter(
            flat,
            y,
            least,
        ) by {
            assert(s[0].0 <= y < s[0].1);
        }
    } else {
        assert forall|y: int| 0 <= y < n implies covered(s, y) == !#[trigger] in_gutter(
            flat,
            y,
            least,
        ) by {
            assert(covered(s, y) == !covered(g, y));
        }
        assert forall|i: int| 0 <= i < s.len() implies ((#[trigger] s[i]).0 == 0 || in_gutter(
            flat,
            s[i].0 - 1,
            least,
        )) && (s[i].1 == n || in_gutter(flat, s[i].1, least)) by {}
    }
}

/// A gutter has at least two lines, and at least as many as half a percent of the size has in full.
pub proof fn gutters_are_wide(size: int)
    requires
        size >= 0,
    ensures
        least_gutter(size) >= 2,
        200 * least_gutter(size) > size - 200,
        least_gutter(size) > 2 ==> 200 * least_gutter(size) <= size,
{
}

/// A panel stands before another: above it, or in the same strip and to the left.
pub open spec fn stands_before(p: (int, int, int, int), q: (int, int, int, int)) -> bool {
    p.1 + p.3 <= q.1 || (p.1 == q.1 && p.3 == q.3 && p.0 + p.2 <= q.0)
}

proof fn strip_panels_are_ordered(img: Raster, down: (int, int))
    requires
        img.width > 0,
    ensures
        forall|i: int, j: int|
            0 <= i < j < strip_panels(img, down).len() ==> stands_before(
                #[trigger] strip_panels(img, down)[i],
                #[trigger] strip_panels(img, down)[j],
            ),
        forall|i: int|
            0 <= i < strip_panels(img, down).len() ==> (#[trigger] strip_panels(img, down)[i]).1
                == down.0 && strip_panels(img, down)[i].3 == down.1 - down.0,
{
    cells_are_in_order(img, down.0, down.1);
}

proof fn all_panels_are_ordered(img: Raster, down: Seq<(int, int)>)
    requires
        img.width > 0,
        in_order(down, 0, img.height),
    ensures
        forall|i: int, j: int|
            0 <= i < j < all_panels(img, down).len() ==> stands_before(
                #[trigger] all_panels(img, down)[i],
                #[trigger] all_panels(img, down)[j],
            ),
        forall|i: int|
            0 <= i < all_panels(img, down).len() ==> exists|k: int|
                0 <= k < down.len() && (#[trigger] down[k]) == (
                    (#[trigger] all_panels(img, down)[i]).1,
                    all_panels(img, down)[i].1 + all_panels(img, down)[i].3,
                ),
    decreases down.len(),
{
    if down.len() > 0 {
        let rest = down.drop_last();
        let d = down.last();
        assert(d == down[down.len() - 1]);
        assert forall|i: int| 0 <= i < rest.len() implies 0 <= (#[trigger] rest[i]).0 < rest[i].1
            <= img.height by {
            assert(rest[i] == down[i]);
        }
        assert forall|i: int, j: int| 0 <= i < j < rest.len() implies (#[trigger] rest[i]).1 <= (
        #[trigger] rest[j]).0 by {
            assert(rest[i] == down[i]);
            assert(rest[j] == down[j]);
        }
        all_panels_are_ordered(img, rest);
        strip_panels_are_ordered(img, d);
        let before = all_panels(img, rest);
        let all = all_panels(img, down);
        let n = before.len() as int;
        assert forall|i: int| 0 <= i < all.len() implies exists|k: int|
            0 <= k < down.len() && (#[trigger] down[k]) == (
                (#[trigger] all[i]).1,
                all[i].1 + all[i].3,
            ) by {
            if i < n {
                assert(all[i] == before[i]);
                let k = choose|k: int|
                    0 <= k < rest.len() && (#[trigger] rest[k]) == (
                        before[i].1,
                        before[i].1 + before[i].3,
                    );
                assert(down[k] == rest[k]);
            } else {
                assert(all[i] == strip_panels(img, d)[i - n]);
                assert(down[down.len() - 1] == (all[i].1, all[i].1 + all[i].3));
            }
        }
        assert forall|i: int, j: int| 0 <= i < j < all.len() implies stands_before(
            #[trigger] all[i],
            #[trigger] all[j],
        ) by {
            if j < n {
                assert(all[i] == before[i] && all[j] == before[j]);
            } else {
                assert(all[j] == strip_panels(img, d)[j - n]);
                if i < n {
                    assert(all[i] == before[i]);
                    let k = choose|k: int|
                        0 <= k < rest.len() && (#[trigger] rest[k]) == (
                            before[i].1,
                            before[i].1 + before[i].3,
                        );
                    assert(down[k] == rest[k]);
                    assert(down[k].1 <= down[down.len() - 1].0);
                } else {
                    assert(all[i] == strip_panels(img, d)[i - n]);
                }
            }
        }
    }
}

/// The panels come in the order of reading: from top to bottom, and side by side from left to right; no
/// two of them overlap.
pub proof fn panels_come_in_reading_order(img: Raster, i: int, j: int)
    requires
        0 <= i < j < panels(img).len(),
    ensures
        ({
            let (p, q) = (panels(img)[i], panels(img)[j]);
            p.1 + p.3 <= q.1 || (p.1 == q.1 && p.3 == q.3 && p.0 + p.2 <= q.0)
        }),
{
    let down = page_strips(img);
    let (p, q) = (panels(img)[i], panels(img)[j]);
    if down.len() <= 1 {
        strip_panels_are_ordered(img, (0, img.height));
        assert(stands_before(strip_panels(img, (0, img.height))[i], strip_panels(img, (0, img.height))[j]));
    } else {
        strips_are_in_order(flat_rows(grays(img), img.width, img.height), least_gutter(img.height));
        all_panels_are_ordered(img, down);
        assert(stands_before(all_panels(img, down)[i], all_panels(img, down)[j]));
    }
}

/// A pixel lies in a panel.
pub open spec fn shows(panel: (int, int, int, int), x: int, y: int) -> bool {
    panel.0 <= x < panel.0 + panel.2 && panel.1 <= y < panel.1 + panel.3
}

proof fn strip_panels_show(img: Raster, down: (int, int), x: int)
    requires
        0 <= x < img.width,
    ensures
        ({
            let flat = flat_columns(grays(img), img.width, down.0, down.1);
            let all = strip_panels(img, down);
            !in_gutter(flat, x, least_gutter(img.width)) == exists|i: int|
                0 <= i < all.len() && (#[trigger] all[i]).0 <= x < all[i].0 + all[i].2
        }),
{
    let flat = flat_columns(grays(img), img.width, down.0, down.1);
    let all = strip_panels(img, down);
    let across = cells(img, down.0, down.1);
    strips_stand_between_gutters(flat, least_gutter(img.width));
    assert(covered(across, x) == !in_gutter(flat, x, least_gutter(img.width)));
    if covered(across, x) {
        let i = choose|i: int| 0 <= i < across.len() && (#[trigger] across[i]).0 <= x < across[i].1;
        assert(all[i].0 <= x < all[i].0 + all[i].2);
    }
    if exists|i: int| 0 <= i < all.len() && (#[trigger] all[i]).0 <= x < all[i].0 + all[i].2 {
        let i = choose|i: int|
            0 <= i < all.len() && (#[trigger] all[i]).0 <= x < all[i].0 + all[i].2;
        assert(across[i].0 <= x < across[i].1);
    }
}

proof fn all_panels_hold(img: Raster, down: Seq<(int, int)>, k: int, i: int)
    requires
        0 <= k < down.len(),
        0 <= i < strip_panels(img, down[k]).len(),
    ensures
        all_panels(img, down).contains(strip_panels(img, down[k])[i]),
    decreases down.len(),
{
    let p = strip_panels(img, down[k])[i];
    let before = all_panels(img, down.drop_last());
    let all = all_panels(img, down);
    if k < down.len() - 1 {
        all_panels_hold(img, down.drop_last(), k, i);
        let m = choose|m: int| 0 <= m < before.len() && before[m] == p;
        assert(all[m] == p);
    } else {
        assert(all[before.len() + i] == p);
    }
}

proof fn all_panels_are_of_strips(img: Raster, down: Seq<(int, int)>, i: int) -> (k: int)
    requires
        0 <= i < all_panels(img, down).len(),
    ensures
        0 <= k < down.len(),
        strip_panels(img, down[k]).contains(all_panels(img, down)[i]),
    decreases down.len(),
{
    let before = all_panels(img, down.drop_last());
    if i < before.len() {
        let k = all_panels_are_of_strips(img, down.drop_last(), i);
        assert(down.drop_last()[k] == down[k]);
        assert(all_panels(img, down)[i] == before[i]);
        k
    } else {
        let n = before.len() as int;
        assert(all_panels(img, down)[i] == strip_panels(img, down.last())[i - n]);
        down.len() - 1
    }
}

/// Gutters divide some lines: one has lines that belong to none on both sides.
pub open spec fn divided(flat: Seq<bool>, least: int) -> bool {
    exists|a: int, b: int, c: int|
        0 <= a < b < c < flat.len() && !#[trigger] in_gutter(flat, a, least) && #[trigger] in_gutter(
            flat,
            b,
            least,
        ) && !#[trigger] in_gutter(flat, c, least)
}

/// A panel of the page shows a pixel.
pub open spec fn is_shown(img: Raster, x: int, y: int) -> bool {
    exists|i: int| 0 <= i < panels(img).len() && shows(#[trigger] panels(img)[i], x, y)
}

proof fn strips_are_divided(flat: Seq<bool>, least: int)
    requires
        flat.len() > 0,
        least > 0,
    ensures
        divided(flat, least) == (strips(gutters(flat, least), flat.len() as int).len() > 1),
{
    let down = strips(gutters(flat, least), flat.len() as int);
    strips_stand_between_gutters(flat, least);
    if down.len() > 1 {
        assert(down[0].1 <= down[1].0);
        let (a, b, c) = (down[0].0, down[0].1, down[1].0);
        assert(covered(down, a));
        assert(covered(down, c));
        assert(in_gutter(flat, b, least));
        assert(!in_gutter(flat, a, least));
        assert(!in_gutter(flat, c, least));
    } else if divided(flat, least) {
        let (a, b, c) = choose|a: int, b: int, c: int|
            0 <= a < b < c < flat.len() && !#[trigger] in_gutter(flat, a, least)
                && #[trigger] in_gutter(flat, b, least) && !#[trigger] in_gutter(flat, c, least);
        assert(covered(down, a));
        assert(covered(down, c));
        assert(down[0].0 <= b < down[0].1);
        assert(covered(down, b));
    }
}

/// Where no gutter divides the rows of a page, its panels are as high as the page and show the columns
/// that belong to no gutter.
pub proof fn panels_of_undivided_pages(img: Raster, x: int, y: int)
    requires
        panels(img).len() > 0,
        !divided(flat_rows(grays(img), img.width, img.height), least_gutter(img.height)),
        0 <= x < img.width,
        0 <= y < img.height,
    ensures
        is_shown(img, x, y) == !in_gutter(
            flat_columns(grays(img), img.width, 0, img.height),
            x,
            least_gutter(img.width),
        ),
{
    strips_are_divided(flat_rows(grays(img), img.width, img.height), least_gutter(img.height));
    let all = panels(img);
    let own = strip_panels(img, (0, img.height));
    assert(all == own);
    strip_panels_show(img, (0, img.height), x);
    if exists|i: int| 0 <= i < own.len() && (#[trigger] own[i]).0 <= x < own[i].0 + own[i].2 {
        let i = choose|i: int| 0 <= i < own.len() && (#[trigger] own[i]).0 <= x < own[i].0 + own[i].2;
        assert(shows(all[i], x, y));
    }
    if is_shown(img, x, y) {
        let i = choose|i: int| 0 <= i < all.len() && shows(#[trigger] all[i], x, y);
        assert(own[i].0 <= x < own[i].0 + own[i].2);
    }
}

proof fn shown_in_strip(img: Raster, x: int, y: int, k: int)
    requires
        panels(img).len() > 0,
        page_strips(img).len() > 1,
        in_order(page_strips(img), 0, img.height),
        0 <= k < page_strips(img).len(),
        page_strips(img)[k].0 <= y < page_strips(img)[k].1,
        0 <= x < img.width,
    ensures
        is_shown(img, x, y) == !in_gutter(
            flat_columns(grays(img), img.width, page_strips(img)[k].0, page_strips(img)[k].1),
            x,
            least_gutter(img.width),
        ),
{
    let down = page_strips(img);
    let all = panels(img);
    assert(all == all_panels(img, down));
    strip_panels_show(img, down[k], x);
    let own = strip_panels(img, down[k]);
    if exists|i: int| 0 <= i < own.len() && (#[trigger] own[i]).0 <= x < own[i].0 + own[i].2 {
        let i = choose|i: int| 0 <= i < own.len() && (#[trigger] own[i]).0 <= x < own[i].0 + own[i].2;
        all_panels_hold(img, down, k, i);
        let m = choose|m: int| 0 <= m < all.len() && all[m] == own[i];
        assert(shows(all[m], x, y));
    }
    if is_shown(img, x, y) {
        let i = choose|i: int| 0 <= i < all.len() && shows(#[trigger] all[i], x, y);
        let l = all_panels_are_of_strips(img, down, i);
        let other = strip_panels(img, down[l]);
        let m = choose|m: int| 0 <= m < other.len() && other[m] == all[i];
        assert(down[l].0 <= y < down[l].1);
        if l < k {
            assert(down[l].1 <= down[k].0);
        } else if k < l {
            assert(down[k].1 <= down[l].0);
        }
        assert(own[m].0 <= x < own[m].0 + own[m].2);
    }
}

/// Where gutters divide the rows of a page, no row of a gutter is shown. Every other row belongs to a
/// strip from gutter to gutter, and the panels of the strip show the columns that belong to no gutter of
/// it.
pub proof fn panels_of_divided_pages(img: Raster, x: int, y: int) -> (strip: (int, int))
    requires
        panels(img).len() > 0,
        divided(flat_rows(grays(img), img.width, img.height), least_gutter(img.height)),
        0 <= x < img.width,
        0 <= y < img.height,
    ensures
        ({
            let rows = flat_rows(grays(img), img.width, img.height);
            let high = least_gutter(img.height);
            let (top, bottom) = strip;
            &&& in_gutter(rows, y, high) ==> !is_shown(img, x, y)
            &&& !in_gutter(rows, y, high) ==> {
                &&& 0 <= top <= y < bottom <= img.height
                &&& top == 0 || in_gutter(rows, top - 1, high)
                &&& bottom == img.height || in_gutter(rows, bottom, high)
                &&& forall|k: int| top <= k < bottom ==> !in_gutter(rows, k, high)
                &&& is_shown(img, x, y) == !in_gutter(
                    flat_columns(grays(img), img.width, top, bottom),
                    x,
                    least_gutter(img.width),
                )
            }
        }),
{
    let rows = flat_rows(grays(img), img.width, img.height);
    let high = least_gutter(img.height);
    let down = page_strips(img);
    let all = panels(img);
    strips_are_divided(rows, high);
    strips_stand_between_gutters(rows, high);
    if in_gutter(rows, y, high) {
        assert(!covered(down, y));
        if is_shown(img, x, y) {
            let i = choose|i: int| 0 <= i < all.len() && shows(#[trigger] all[i], x, y);
            let l = all_panels_are_of_strips(img, down, i);
            let other = strip_panels(img, down[l]);
            let m = choose|m: int| 0 <= m < other.len() && other[m] == all[i];
            assert(down[l].0 <= y < down[l].1);
        }
        (0, 0)
    } else {
        assert(covered(down, y));
        let k = choose|k: int| 0 <= k < down.len() && (#[trigger] down[k]).0 <= y < down[k].1;
        shown_in_strip(img, x, y, k);
        assert forall|j: int| down[k].0 <= j < down[k].1 implies !in_gutter(rows, j, high) by {
            assert(covered(down, j));
        }
        down[k]
    }
}

/// Pages under 20 pixels in width or height have no panels.
pub proof fn small_pages_have_no_panels(img: Raster)
    requires
        img.width < 20 || img.height < 20,
    ensures
        panels(img).len() == 0,
{
}

/// A page of at least 20 by 20 pixels without a gutter between its rows has panels where a gutter stands
/// between two columns that belong to none.
pub proof fn gutters_make_panels(img: Raster, a: int, b: int, c: int)
    requires
        img.width >= 20,
        img.height >= 20,
        forall|y: int|
            0 <= y < img.height ==> !#[trigger] in_gutter(
                flat_rows(grays(img), img.width, img.height),
                y,
                least_gutter(img.height),
            ),
        0 <= a < b < c < img.width,
        ({
            let flat = flat_columns(grays(img), img.width, 0, img.height);
            let wide = least_gutter(img.width);
            !in_gutter(flat, a, wide) && in_gutter(flat, b, wide) && !in_gutter(flat, c, wide)
        }),
    ensures
        panels(img).len() >= 2,
{
    let rows = flat_rows(grays(img), img.width, img.height);
    let down = page_strips(img);
    strips_stand_between_gutters(rows, least_gutter(img.height));
    if down.len() > 1 {
        assert(down[0].1 <= down[1].0);
        assert(in_gutter(rows, down[0].1, least_gutter(img.height)));
    }
    let flat = flat_columns(grays(img), img.width, 0, img.height);
    let across = cells(img, 0, img.height);
    strips_stand_between_gutters(flat, least_gutter(img.width));
    assert(covered(across, a) && !covered(across, b) && covered(across, c));
    let i = choose|i: int| 0 <= i < across.len() && (#[trigger] across[i]).0 <= a < across[i].1;
    let k = choose|k: int| 0 <= k < across.len() && (#[trigger] across[k]).0 <= c < across[k].1;
    if i == k {
        assert(across[i].0 <= b < across[i].1);
    }
}

} // verus!
