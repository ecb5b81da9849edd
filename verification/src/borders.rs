//! Double-page spreads and uniform borders of comic pages.

use vstd::prelude::*;

use crate::picture::{
    column, depth, grays, line, part, row_in_samples, row_of_part, total, total_of, Picture, Raster,
};

verus! {

/// Whether a picture shows two pages side by side: it is wider than high.
pub fn is_double_page_spread(img: &Picture) -> (r: bool)
    ensures
        r == (img.width > img.height),
{
    img.width > img.height
}

/// The left half of a picture.
pub open spec fn left_half(img: Raster) -> Raster {
    part(img, 0, 0, img.width / 2, img.height)
}

/// The right half of a picture. Where the width is odd, it has the middle column.
pub open spec fn right_half(img: Raster) -> Raster {
    part(img, img.width / 2, 0, img.width - img.width / 2, img.height)
}

/// The left and the right half of a picture. Where the width is odd, the right half has the middle
/// column.
pub fn split_spread(img: &Picture) -> (r: (Picture, Picture))
    requires
        img.wf(),
    ensures
        r.0@ == left_half(img@),
        r.1@ == right_half(img@),
        r.0.wf(),
        r.1.wf(),
{
    let mid: u32 = img.width / 2;
    (img.crop(0, 0, mid, img.height), img.crop(mid, 0, img.width - mid, img.height))
}

/// By how much the averages of two lines of a border may differ.
pub const TOLERANCE: u64 = 20;

/// The sums of the rows.
pub open spec fn row_totals(samples: Seq<u8>, width: int, height: int) -> Seq<int> {
    Seq::new(height as nat, |y: int| total(line(samples, width, y)))
}

/// The sums of the columns.
pub open spec fn column_totals(samples: Seq<u8>, width: int, height: int) -> Seq<int> {
    Seq::new(width as nat, |x: int| total(column(samples, width, x, 0, height)))
}

/// For each line, whether its average is within the tolerance of the average of line `edge`, where
/// a line has `size` samples.
pub open spec fn near(totals: Seq<int>, edge: int, size: int) -> Seq<bool> {
    Seq::new(
        totals.len(),
        |i: int| -TOLERANCE * size <= totals[i] - totals[edge] <= TOLERANCE * size,
    )
}

/// How many lines in a row are near, from the first on.
pub open spec fn leading(near: Seq<bool>) -> int
    decreases near.len(),
{
    if near.len() == 0 || !near[0] {
        0
    } else {
        1 + leading(near.drop_first())
    }
}

/// How many lines in a row are near, from the last back.
pub open spec fn trailing(near: Seq<bool>) -> int
    decreases near.len(),
{
    if near.len() == 0 || !near.last() {
        0
    } else {
        1 + trailing(near.drop_last())
    }
}

/// A border counts from one fiftieth of the size on.
pub open spec fn counted(border: int, size: int) -> int {
    if 50 * border < size {
        0
    } else {
        border
    }
}

/// Where the first line that is no border stands.
pub open spec fn frame_start(totals: Seq<int>, size: int) -> int {
    counted(leading(near(totals, 0, size)), totals.len() as int)
}

/// Where the last line that is no border ends.
pub open spec fn frame_end(totals: Seq<int>, size: int) -> int {
    totals.len() - counted(trailing(near(totals, totals.len() - 1, size)), totals.len() as int)
}

/// What lies within the borders of a picture.
pub struct Frame {
    pub left: int,
    pub top: int,
    pub right: int,
    pub bottom: int,
}

/// What lies within the borders of a picture.
pub open spec fn frame(img: Raster) -> Frame {
    let rows = row_totals(grays(img), img.width, img.height);
    let columns = column_totals(grays(img), img.width, img.height);
    Frame {
        left: frame_start(columns, img.height),
        top: frame_start(rows, img.width),
        right: frame_end(columns, img.height),
        bottom: frame_end(rows, img.width),
    }
}

/// A picture without its borders. One that is small, or all border, stays as it is.
pub open spec fn cropped(img: Raster) -> Raster {
    let f = frame(img);
    if img.width < 10 || img.height < 10 || f.left >= f.right || f.top >= f.bottom {
        img
    } else {
        part(img, f.left, f.top, f.right - f.left, f.bottom - f.top)
    }
}

proof fn leading_is_first(near: Seq<bool>, n: int)
    requires
        0 <= n <= near.len(),
        forall|i: int| 0 <= i < n ==> near[i],
        n == near.len() || !near[n],
    ensures
        leading(near) == n,
    decreases near.len(),
{
    if n > 0 {
        let rest = near.drop_first();
        assert forall|i: int| 0 <= i < n - 1 implies rest[i] by {
            assert(near[i + 1]);
        }
        leading_is_first(rest, n - 1);
    }
}

proof fn trailing_is_last(near: Seq<bool>, n: int)
    requires
        0 <= n <= near.len(),
        forall|i: int| near.len() - n <= i < near.len() ==> near[i],
        n == near.len() || !near[near.len() - n - 1],
    ensures
        trailing(near) == n,
    decreases near.len(),
{
    if n > 0 {
        trailing_is_last(near.drop_last(), n - 1);
    }
}

/// The lines of a border are within the tolerance of its edge, and the first line behind it is not.
pub proof fn borders_are_uniform(near: Seq<bool>)
    ensures
        0 <= leading(near) <= near.len(),
        forall|i: int| 0 <= i < leading(near) ==> near[i],
        leading(near) < near.len() ==> !near[leading(near)],
        0 <= trailing(near) <= near.len(),
        forall|i: int| near.len() - trailing(near) <= i < near.len() ==> near[i],
        trailing(near) < near.len() ==> !near[near.len() - trailing(near) - 1],
    decreases near.len(),
{
    if near.len() > 0 {
        borders_are_uniform(near.drop_first());
        borders_are_uniform(near.drop_last());
        assert forall|i: int| 0 <= i < leading(near) implies near[i] by {
            if i > 0 {
                assert(near.drop_first()[i - 1]);
            }
        }
        assert forall|i: int| near.len() - trailing(near) <= i < near.len() implies near[i] by {
            if i < near.len() - 1 {
                assert(near.drop_last()[i]);
            }
        }
        if leading(near) > 0 && leading(near) < near.len() {
            assert(near.drop_first()[leading(near) - 1] == near[leading(near)]);
        }
    }
}

/// What lies within the borders lies within the picture.
pub proof fn frame_lies_in_picture(img: Raster)
    requires
        0 <= img.width,
        0 <= img.height,
    ensures
        0 <= frame(img).left <= img.width,
        0 <= frame(img).right <= img.width,
        0 <= frame(img).top <= img.height,
        0 <= frame(img).bottom <= img.height,
{
    let rows = row_totals(grays(img), img.width, img.height);
    let columns = column_totals(grays(img), img.width, img.height);
    borders_are_uniform(near(rows, 0, img.width));
    borders_are_uniform(near(rows, rows.len() - 1, img.width));
    borders_are_uniform(near(columns, 0, img.height));
    borders_are_uniform(near(columns, columns.len() - 1, img.height));
}

/// The two halves of a spread hold, row for row, every pixel of it once.
pub proof fn halves_make_the_spread(img: Raster, y: int)
    requires
        img.wf(),
        0 <= y < img.height,
    ensures
        left_half(img).row(y) + right_half(img).row(y) == img.row(y),
{
    let mid = img.width / 2;
    let d = depth(img.color);
    row_of_part(img, 0, 0, mid, img.height, y);
    row_of_part(img, mid, 0, img.width - mid, img.height, y);
    row_in_samples(img, y);
    assert((0 + mid) * d == mid * d);
    assert((mid + (img.width - mid)) * d == img.width * d);
    assert(left_half(img).row(y) + right_half(img).row(y) =~= img.row(y));
}

fn near_lines(totals: &[u64], edge: usize, size: u32) -> (r: Vec<bool>)
    requires
        edge < totals@.len(),
    ensures
        r@ == near(numbers(totals@), edge as int, size as int),
{
    let mut r: Vec<bool> = Vec::new();
    let most: u64 = TOLERANCE * size as u64;
    let e: u64 = totals[edge];
    let mut i: usize = 0;
    while i < totals.len()
        invariant
            i <= totals@.len(),
            edge < totals@.len(),
            e == totals@[edge as int],
            most == TOLERANCE * size,
            r@.len() == i,
            forall|k: int|
                0 <= k < i ==> r@[k] == near(numbers(totals@), edge as int, size as int)[k],
        decreases totals.len() - i,
    {
        let t: u64 = totals[i];
        let apart: u64 = if t < e {
            e - t
        } else {
            t - e
        };
        r.push(apart <= most);
        i += 1;
    }
    assert(r@ =~= near(numbers(totals@), edge as int, size as int));
    r
}

/// The numbers, as integers.
pub open spec fn numbers(v: Seq<u64>) -> Seq<int> {
    Seq::new(v.len(), |i: int| v[i] as int)
}

fn leading_lines(near: &[bool]) -> (r: usize)
    ensures
        r == leading(near@),
        r <= near@.len(),
{
    let mut n: usize = 0;
    while n < near.len() && near[n]
        invariant
            n <= near@.len(),
            forall|i: int| 0 <= i < n ==> near@[i],
        decreases near.len() - n,
    {
        n += 1;
    }
    proof {
        leading_is_first(near@, n as int);
    }
    n
}

fn trailing_lines(near: &[bool]) -> (r: usize)
    ensures
        r == trailing(near@),
        r <= near@.len(),
{
    let size: usize = near.len();
    let mut n: usize = 0;
    while n < size && near[size - n - 1]
        invariant
            size == near@.len(),
            n <= size,
            forall|i: int| size - n <= i < size ==> near@[i],
        decreases size - n,
    {
        n += 1;
    }
    proof {
        trailing_is_last(near@, n as int);
    }
    n
}

/// Where the frame starts and ends among lines with the sums `totals` of `size` samples each.
fn frame_of_lines(totals: &[u64], size: u32) -> (r: (u32, u32))
    requires
        0 < totals@.len() <= u32::MAX,
    ensures
        r.0 == frame_start(numbers(totals@), size as int),
        r.1 == frame_end(numbers(totals@), size as int),
        r.0 <= totals@.len(),
        r.1 <= totals@.len(),
{
    let n: u64 = totals.len() as u64;
    let first = near_lines(totals, 0, size);
    let a: u64 = leading_lines(&first) as u64;
    let last = near_lines(totals, totals.len() - 1, size);
    let b: u64 = trailing_lines(&last) as u64;
    let start: u64 = if 50 * a < n {
        0
    } else {
        a
    };
    let end: u64 = if 50 * b < n {
        n
    } else {
        n - b
    };
    (start as u32, end as u32)
}

fn sum_rows(gray: &Picture) -> (r: Vec<u64>)
    requires
        gray.wf(),
        !gray.color,
    ensures
        numbers(r@) == row_totals(gray.samples@, gray.width as int, gray.height as int),
{
    let mut r: Vec<u64> = Vec::new();
    let mut y: u32 = 0;
    let ghost want = row_totals(gray.samples@, gray.width as int, gray.height as int);
    while y < gray.height
        invariant
            gray.wf(),
            !gray.color,
            y <= gray.height,
            r@.len() == y,
            want == row_totals(gray.samples@, gray.width as int, gray.height as int),
            forall|k: int| 0 <= k < y ==> #[trigger] r@[k] == want[k],
        decreases gray.height - y,
    {
        r.push(total_of(gray.row_samples(y)));
        y += 1;
    }
    assert(numbers(r@) =~= want);
    r
}

fn sum_columns(gray: &Picture) -> (r: Vec<u64>)
    requires
        gray.wf(),
        !gray.color,
    ensures
        numbers(r@) == column_totals(gray.samples@, gray.width as int, gray.height as int),
{
    let mut r: Vec<u64> = Vec::new();
    let mut x: u32 = 0;
    let ghost want = column_totals(gray.samples@, gray.width as int, gray.height as int);
    while x < gray.width
        invariant
            gray.wf(),
            !gray.color,
            x <= gray.width,
            r@.len() == x,
            want == column_totals(gray.samples@, gray.width as int, gray.height as int),
            forall|k: int| 0 <= k < x ==> #[trigger] r@[k] == want[k],
        decreases gray.width - x,
    {
        let samples = gray.column_samples(x, 0, gray.height);
        r.push(total_of(&samples));
        x += 1;
    }
    assert(numbers(r@) =~= want);
    r
}

/// Cuts off borders of uniform color. On each side the border is as many lines as have an average
/// within the tolerance of the average of the outermost line; one thinner than a fiftieth of the
/// picture stays.
pub fn crop_borders(img: &Picture) -> (r: Picture)
    requires
        img.wf(),
    ensures
        r@ == cropped(img@),
        r.wf(),
{
    if img.width < 10 || img.height < 10 {
        return img.copy();
    }
    let gray = img.to_gray();
    let rows = sum_rows(&gray);
    let columns = sum_columns(&gray);
    assert(rows@.len() == numbers(rows@).len());
    assert(columns@.len() == numbers(columns@).len());
    let (top, bottom) = frame_of_lines(&rows, img.width);
    let (left, right) = frame_of_lines(&columns, img.height);
    if left >= right || top >= bottom {
        return img.copy();
    }
    img.crop(left, top, right - left, bottom - top)
}

/// The first `n` lines are a border: `k` lines in a row, as many as there are, have an average within
/// 20 of that of the first line, and they are the border where they make up a fiftieth of all lines;
/// else there is none.
pub open spec fn is_first_border(totals: Seq<int>, size: int, n: int) -> bool {
    exists|k: int|
        {
            &&& 0 <= k <= totals.len()
            &&& forall|i: int|
                0 <= i < k ==> -20 * size <= #[trigger] totals[i] - totals[0] <= 20 * size
            &&& k < totals.len() ==> !(-20 * size <= totals[k] - totals[0] <= 20 * size)
            &&& #[trigger] counts_as_border(k, totals.len() as int, n)
        }
}

/// The last `n` lines are a border, as `is_first_border` says of the first.
pub open spec fn is_last_border(totals: Seq<int>, size: int, n: int) -> bool {
    let end = totals.len() - 1;
    exists|k: int|
        {
            &&& 0 <= k <= totals.len()
            &&& forall|i: int|
                totals.len() - k <= i < totals.len() ==> -20 * size <= #[trigger] totals[i]
                    - totals[end] <= 20 * size
            &&& k < totals.len() ==> !(-20 * size <= totals[end - k] - totals[end] <= 20 * size)
            &&& #[trigger] counts_as_border(k, totals.len() as int, n)
        }
}

/// `n` of `k` like lines among `all` are a border: all of them from two percent on, else none.
pub open spec fn counts_as_border(k: int, all: int, n: int) -> bool {
    if k * 100 >= all * 2 {
        n == k
    } else {
        n == 0
    }
}

/// Cropping takes from a picture the lines at each edge that are like the edge, where they make up two
/// percent of the picture, and nothing else; a picture under ten pixels in a direction, or one that
/// would vanish, stays as it is.
pub proof fn cropping_takes_borders_away(img: Raster) -> (cut: (int, int, int, int))
    requires
        img.wf(),
    ensures
        ({
            let rows = Seq::new(
                img.height as nat,
                |y: int| total(line(grays(img), img.width, y)),
            );
            let columns = Seq::new(
                img.width as nat,
                |x: int| total(column(grays(img), img.width, x, 0, img.height)),
            );
            let (left, top, right, bottom) = cut;
            &&& is_first_border(columns, img.height, left)
            &&& is_last_border(columns, img.height, right)
            &&& is_first_border(rows, img.width, top)
            &&& is_last_border(rows, img.width, bottom)
            &&& img.width < 10 || img.height < 10 || left + right >= img.width || top + bottom
                >= img.height ==> cropped(img) == img
            &&& img.width >= 10 && img.height >= 10 && left + right < img.width && top + bottom
                < img.height ==> cropped(img) == part(
                img,
                left,
                top,
                img.width - left - right,
                img.height - top - bottom,
            )
        }),
{
    let rows = row_totals(grays(img), img.width, img.height);
    let columns = column_totals(grays(img), img.width, img.height);
    let f = frame(img);
    border_is_counted(columns, img.height);
    border_is_counted(rows, img.width);
    (f.left, f.top, img.width - f.right, img.height - f.bottom)
}

proof fn border_is_counted(totals: Seq<int>, size: int)
    ensures
        is_first_border(totals, size, frame_start(totals, size)),
        is_last_border(totals, size, totals.len() - frame_end(totals, size)),
{
    let first = near(totals, 0, size);
    let last = near(totals, totals.len() - 1, size);
    borders_are_uniform(first);
    borders_are_uniform(last);
    let a = leading(first);
    let b = trailing(last);
    assert forall|i: int| 0 <= i < a implies -20 * size <= #[trigger] totals[i] - totals[0] <= 20
        * size by {
        assert(first[i]);
    }
    assert forall|i: int| totals.len() - b <= i < totals.len() implies -20 * size
        <= #[trigger] totals[i] - totals[totals.len() - 1] <= 20 * size by {
        assert(last[i]);
    }
    assert(counts_as_border(a, totals.len() as int, frame_start(totals, size)));
    assert(counts_as_border(b, totals.len() as int, totals.len() - frame_end(totals, size)));
    if a < totals.len() {
        assert(!first[a]);
    }
    if b < totals.len() {
        assert(!last[totals.len() - b - 1]);
    }
}

/// The halves of a spread are equally wide, up to one column that the right half has more where the
/// width is odd, and as high as the spread.
pub proof fn halves_are_equally_wide(img: Raster)
    requires
        0 <= img.width,
    ensures
        left_half(img).width + right_half(img).width == img.width,
        0 <= right_half(img).width - left_half(img).width <= 1,
        left_half(img).height == img.height,
        right_half(img).height == img.height,
        left_half(img).color == img.color,
        right_half(img).color == img.color,
{
}

} // verus!
