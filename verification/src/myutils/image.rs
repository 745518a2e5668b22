use vstd::prelude::*;
use crate::models::{rectangles_on_sheet, Coordinate, Point, Quad, RecError};

verus! {

/// The greatest width or height of a plane.
pub const MAX_SIDE: usize = 0x100_0000;

/// The greatest length in bytes of an input that names a file.
pub const MAX_PATH_LENGTH: usize = 200;

/// Whether an input of the given length in bytes is taken for an image in
/// base64 rather than for the name of a file: it is too long for a name.
pub fn is_encoded_input(length: usize) -> (r: bool)
    ensures
        r == (length > MAX_PATH_LENGTH),
{
    length > MAX_PATH_LENGTH
}

/// The error of the `base64` crate's decoders.
#[verifier::external_type_specification]
#[verifier::external_body]
pub struct ExDecodeError(base64::DecodeError);

/// The bytes that `input` stands for in base64, with the standard alphabet
/// and canonical padding, or `None` where it is no such encoding.
pub uninterp spec fn base64_decoded(input: Seq<u8>) -> Option<Seq<u8>>;

/// Calls `Engine::decode` of the `base64` crate on its `STANDARD` engine.
/// Not proved: that the bytes returned, or the failure, are what
/// `base64_decoded` names for the input. The call reads nothing but its
/// argument.
#[verifier::external_body]
fn standard_decode(input: &[u8]) -> (r: Result<Vec<u8>, base64::DecodeError>)
    ensures
        r matches Ok(bytes) ==> base64_decoded(input@) == Some(bytes@),
        r is Err ==> base64_decoded(input@) is None,
{
    base64::Engine::decode(&base64::engine::general_purpose::STANDARD, input)
}

/// The bytes of an encoded image as they were decoded, or the failure that
/// an input is no encoding of an image.
pub fn image_bytes(decoded: Result<Vec<u8>, base64::DecodeError>) -> (r: Result<
    Vec<u8>,
    RecError,
>)
    ensures
        decoded matches Ok(bytes) ==> r == Ok::<Vec<u8>, RecError>(bytes),
        decoded is Err ==> r == Err::<Vec<u8>, RecError>(RecError::ImageInvalid),
{
    match decoded {
        Ok(bytes) => Ok(bytes),
        Err(_) => Err(RecError::ImageInvalid),
    }
}

/// The bytes of the image that an input holds in base64, or `None` where
/// the input is short enough to name a file instead. Fails if a longer
/// input is not base64. The input is given by its bytes.
pub fn decode_image_input(input: &[u8]) -> (r: Result<Option<Vec<u8>>, RecError>)
    ensures
        input@.len() <= MAX_PATH_LENGTH ==> r == Ok::<Option<Vec<u8>>, RecError>(None),
        input@.len() > MAX_PATH_LENGTH ==> match base64_decoded(input@) {
            Some(bytes) => r matches Ok(Some(v)) && v@ == bytes,
            None => r == Err::<Option<Vec<u8>>, RecError>(RecError::ImageInvalid),
        },
{
    if !is_encoded_input(input.len()) {
        return Ok(None);
    }
    match image_bytes(standard_decode(input)) {
        Ok(bytes) => Ok(Some(bytes)),
        Err(e) => Err(e),
    }
}

/// A single-channel image: `height` rows of `width` pixels, row by row.
#[derive(Debug, Clone)]
pub struct Plane {
    width: usize,
    height: usize,
    data: Vec<u8>,
}

impl Plane {
    pub closed spec fn spec_width(&self) -> int {
        self.width as int
    }

    pub closed spec fn spec_height(&self) -> int {
        self.height as int
    }

    /// The pixels, row by row.
    pub closed spec fn pixels(&self) -> Seq<u8> {
        self.data@
    }

    /// Neither side exceeds `MAX_SIDE`, and there is one pixel for each
    /// position.
    pub open spec fn wf(&self) -> bool {
        &&& 0 <= self.spec_width() <= MAX_SIDE
        &&& 0 <= self.spec_height() <= MAX_SIDE
        &&& self.pixels().len() == self.spec_width() * self.spec_height()
    }

    /// The pixel in row `row` and column `col`.
    pub open spec fn at(&self, row: int, col: int) -> int {
        self.pixels()[row * self.spec_width() + col] as int
    }

    /// The plane of the given size and pixels, if the sides are within
    /// `MAX_SIDE` and there is one pixel for each position.
    pub fn new(width: usize, height: usize, data: Vec<u8>) -> (r: Option<Plane>)
        ensures
            r.is_some() <==> width <= MAX_SIDE && height <= MAX_SIDE && data@.len() == width
                * height,
            r matches Some(p) ==> p.wf() && p.spec_width() == width && p.spec_height() == height
                && p.pixels() == data@,
    {
        if width > MAX_SIDE || height > MAX_SIDE {
            return None;
        }
        proof {
            lemma_area_bound(width as int, height as int, MAX_SIDE as int);
        }
        let n: u64 = (width as u64) * (height as u64);
        if data.len() as u64 != n {
            return None;
        }
        Some(Plane { width, height, data })
    }

    pub fn width(&self) -> (r: usize)
        ensures
            r == self.spec_width(),
    {
        self.width
    }

    pub fn height(&self) -> (r: usize)
        ensures
            r == self.spec_height(),
    {
        self.height
    }

    /// The pixels, row by row.
    pub fn data(&self) -> (r: &Vec<u8>)
        ensures
            r@ == self.pixels(),
    {
        &self.data
    }

    /// Whether the plane has no pixel.
    pub fn is_empty(&self) -> (r: bool)
        ensures
            r == (self.spec_width() == 0 || self.spec_height() == 0),
    {
        self.width == 0 || self.height == 0
    }

    /// The pixel in row `row` and column `col`.
    pub fn get(&self, row: usize, col: usize) -> (r: u8)
        requires
            self.wf(),
            row < self.spec_height(),
            col < self.spec_width(),
        ensures
            r == self.at(row as int, col as int),
    {
        let n: usize = self.data.len();
        proof {
            lemma_cell_index(row as int, col as int, self.height as int, self.width as int);
            assert(row * self.width + col < n);
        }
        self.data[row * self.width + col]
    }

    /// Whether the rectangle `roi` lies within the plane.
    pub open spec fn holds(&self, roi: Coordinate) -> bool {
        &&& roi.x >= 0
        &&& roi.y >= 0
        &&& roi.w >= 0
        &&& roi.h >= 0
        &&& roi.x + roi.w <= self.spec_width()
        &&& roi.y + roi.h <= self.spec_height()
    }

    /// Whether `part` is the part of the plane that lies in `roi`.
    pub open spec fn is_crop(&self, roi: Coordinate, part: &Plane) -> bool {
        &&& part.wf()
        &&& part.spec_width() == roi.w
        &&& part.spec_height() == roi.h
        &&& forall|r: int, c: int|
            0 <= r < roi.h && 0 <= c < roi.w ==> #[trigger] part.at(r, c) == self.at(
                r + roi.y,
                c + roi.x,
            )
    }

    /// The part of the plane that lies in `roi`, if all of `roi` lies
    /// within the plane.
    pub fn crop(&self, roi: &Coordinate) -> (r: Result<Plane, RecError>)
        requires
            self.wf(),
        ensures
            r.is_ok() <==> self.holds(*roi),
            r matches Err(e) ==> e == RecError::SampleOutOfRange,
            r matches Ok(part) ==> self.is_crop(*roi, &part),
    {
        if roi.x < 0 || roi.y < 0 || roi.w < 0 || roi.h < 0 {
            return Err(RecError::SampleOutOfRange);
        }
        if roi.x as i64 + roi.w as i64 > self.width as i64 || roi.y as i64 + roi.h as i64
            > self.height as i64 {
            return Err(RecError::SampleOutOfRange);
        }
        let x: usize = roi.x as usize;
        let y: usize = roi.y as usize;
        let w: usize = roi.w as usize;
        let h: usize = roi.h as usize;
        let mut data: Vec<u8> = Vec::new();
        let mut r: usize = 0;
        while r < h
            invariant
                self.wf(),
                r <= h,
                x + w <= self.width,
                y + h <= self.height,
                data@.len() == r * w,
                forall|rr: int, cc: int|
                    0 <= rr < r && 0 <= cc < w ==> #[trigger] data@[cell(w as int, rr, cc)]
                        == self.at(rr + y, cc + x),
            decreases h - r,
        {
            let mut c: usize = 0;
            while c < w
                invariant
                    self.wf(),
                    r < h,
                    c <= w,
                    x + w <= self.width,
                    y + h <= self.height,
                    data@.len() == r * w + c,
                    forall|rr: int, cc: int|
                        0 <= rr < r && 0 <= cc < w ==> #[trigger] data@[cell(w as int, rr, cc)]
                            == self.at(rr + y, cc + x),
                    forall|cc: int|
                        0 <= cc < c ==> #[trigger] data@[cell(w as int, r as int, cc)] == self.at(
                            r + y,
                            cc + x,
                        ),
                decreases w - c,
            {
                let v: u8 = self.get(r + y, c + x);
                let ghost before = data@;
                data.push(v);
                proof {
                    assert forall|rr: int, cc: int| 0 <= rr < r && 0 <= cc < w implies #[trigger] data@[cell(
                        w as int,
                        rr,
                        cc,
                    )] == self.at(rr + y, cc + x) by {
                        lemma_cell_index(rr, cc, r as int, w as int);
                        assert(data@[cell(w as int, rr, cc)] == before[cell(w as int, rr, cc)]);
                    }
                }
                c += 1;
            }
            proof {
                assert((r + 1) * w == r * w + w) by (nonlinear_arith);
            }
            r += 1;
        }
        let part = Plane { width: w, height: h, data };
        proof {
            assert(h * w == w * h) by (nonlinear_arith);
            assert forall|rr: int, cc: int| 0 <= rr < roi.h && 0 <= cc < roi.w implies #[trigger] part.at(
                rr,
                cc,
            ) == self.at(rr + roi.y, cc + roi.x) by {
                assert(part.data@[cell(w as int, rr, cc)] == self.at(rr + y, cc + x));
            }
        }
        Ok(part)
    }
}

/// The index of the cell in row `row` and column `col` of a table of `cols`
/// columns, its cells counted row by row.
pub open spec fn cell(cols: int, row: int, col: int) -> int {
    row * cols + col
}

/// A rectangle of sides within `m` has area within `m * m`.
pub proof fn lemma_area_bound(w: int, h: int, m: int)
    requires
        0 <= w <= m,
        0 <= h <= m,
    ensures
        0 <= w * h <= m * m,
{
    assert(0 <= w * h <= m * m) by (nonlinear_arith)
        requires
            0 <= w <= m,
            0 <= h <= m,
    ;
}

/// A cell of a table of `rows` rows and `cols` columns has its index within
/// the table.
pub proof fn lemma_cell_index(row: int, col: int, rows: int, cols: int)
    requires
        0 <= row < rows,
        0 <= col < cols,
    ensures
        0 <= row * cols,
        0 <= row * cols + col < rows * cols,
        (row + 1) * cols == row * cols + cols,
        rows * cols == cols * rows,
{
    assert(0 <= row * cols && row * cols + col < rows * cols && (row + 1) * cols == row * cols
        + cols && rows * cols == cols * rows) by (nonlinear_arith)
        requires
            0 <= row < rows,
            0 <= col < cols,
    ;
}

/// The sum of the pixels of row `row` in the columns from `x1` up to, not
/// including, `x2`.
pub open spec fn row_sum(p: &Plane, row: int, x1: int, x2: int) -> int
    decreases x2 - x1,
{
    if x2 <= x1 {
        0
    } else {
        row_sum(p, row, x1, x2 - 1) + p.at(row, x2 - 1)
    }
}

/// The sum of the pixels in the columns from `x1` up to `x2` and the rows from
/// `y1` up to `y2`, both bounds exclusive.
pub open spec fn rect_sum(p: &Plane, x1: int, y1: int, x2: int, y2: int) -> int
    decreases y2 - y1,
{
    if y2 <= y1 {
        0
    } else {
        rect_sum(p, x1, y1, x2, y2 - 1) + row_sum(p, y2 - 1, x1, x2)
    }
}

/// A stretch of a row sums to at most 255 for each of its pixels.
pub proof fn lemma_row_sum_bounds(p: &Plane, row: int, x1: int, x2: int)
    requires
        x1 <= x2,
    ensures
        0 <= row_sum(p, row, x1, x2) <= 255 * (x2 - x1),
    decreases x2 - x1,
{
    if x1 < x2 {
        lemma_row_sum_bounds(p, row, x1, x2 - 1);
    }
}

/// A rectangle sums to at most 255 for each of its pixels.
pub proof fn lemma_rect_sum_bounds(p: &Plane, x1: int, y1: int, x2: int, y2: int)
    requires
        x1 <= x2,
        y1 <= y2,
    ensures
        0 <= rect_sum(p, x1, y1, x2, y2) <= 255 * ((x2 - x1) * (y2 - y1)),
    decreases y2 - y1,
{
    if y1 < y2 {
        lemma_rect_sum_bounds(p, x1, y1, x2, y2 - 1);
        lemma_row_sum_bounds(p, y2 - 1, x1, x2);
        assert((x2 - x1) * (y2 - y1) == (x2 - x1) * (y2 - 1 - y1) + (x2 - x1))
            by (nonlinear_arith);
    } else {
        assert((x2 - x1) * (y2 - y1) == 0) by (nonlinear_arith)
            requires
                y2 - y1 == 0,
        ;
    }
}

/// A stretch of a row is the sum of its two parts.
pub proof fn lemma_row_sum_split(p: &Plane, row: int, x1: int, xm: int, x2: int)
    requires
        x1 <= xm <= x2,
    ensures
        row_sum(p, row, x1, x2) == row_sum(p, row, x1, xm) + row_sum(p, row, xm, x2),
    decreases x2 - xm,
{
    if xm < x2 {
        lemma_row_sum_split(p, row, x1, xm, x2 - 1);
    }
}

/// A rectangle is the sum of its left and right parts.
pub proof fn lemma_rect_sum_split_columns(p: &Plane, x1: int, xm: int, x2: int, y1: int, y2: int)
    requires
        x1 <= xm <= x2,
    ensures
        rect_sum(p, x1, y1, x2, y2) == rect_sum(p, x1, y1, xm, y2) + rect_sum(p, xm, y1, x2, y2),
    decreases y2 - y1,
{
    if y1 < y2 {
        lemma_rect_sum_split_columns(p, x1, xm, x2, y1, y2 - 1);
        lemma_row_sum_split(p, y2 - 1, x1, xm, x2);
    }
}

/// A rectangle is the sum of its upper and lower parts.
pub proof fn lemma_rect_sum_split_rows(p: &Plane, x1: int, x2: int, y1: int, ym: int, y2: int)
    requires
        y1 <= ym <= y2,
    ensures
        rect_sum(p, x1, y1, x2, y2) == rect_sum(p, x1, y1, x2, ym) + rect_sum(p, x1, ym, x2, y2),
    decreases y2 - ym,
{
    if ym < y2 {
        lemma_rect_sum_split_rows(p, x1, x2, y1, ym, y2 - 1);
    }
}

/// Where every pixel of a stretch of a row is `v`, the stretch sums to `v`
/// for each of its pixels.
pub proof fn lemma_row_sum_uniform(p: &Plane, row: int, x1: int, x2: int, v: int)
    requires
        x1 <= x2,
        forall|c: int| x1 <= c < x2 ==> #[trigger] p.at(row, c) == v,
    ensures
        row_sum(p, row, x1, x2) == v * (x2 - x1),
    decreases x2 - x1,
{
    if x1 < x2 {
        lemma_row_sum_uniform(p, row, x1, x2 - 1, v);
        assert(v * (x2 - x1) == v * (x2 - 1 - x1) + v) by (nonlinear_arith);
    } else {
        assert(v * (x2 - x1) == 0) by (nonlinear_arith)
            requires
                x2 - x1 == 0,
        ;
    }
}

/// Where every pixel of a rectangle is `v`, the rectangle sums to `v` for
/// each of its pixels.
pub proof fn lemma_rect_sum_uniform(p: &Plane, x1: int, y1: int, x2: int, y2: int, v: int)
    requires
        x1 <= x2,
        y1 <= y2,
        forall|r: int, c: int| y1 <= r < y2 && x1 <= c < x2 ==> #[trigger] p.at(r, c) == v,
    ensures
        rect_sum(p, x1, y1, x2, y2) == v * ((x2 - x1) * (y2 - y1)),
    decreases y2 - y1,
{
    if y1 < y2 {
        lemma_rect_sum_uniform(p, x1, y1, x2, y2 - 1, v);
        lemma_row_sum_uniform(p, y2 - 1, x1, x2, v);
        assert(v * ((x2 - x1) * (y2 - y1)) == v * ((x2 - x1) * (y2 - 1 - y1)) + v * (x2 - x1))
            by (nonlinear_arith);
    } else {
        assert(v * ((x2 - x1) * (y2 - y1)) == 0) by (nonlinear_arith)
            requires
                y2 - y1 == 0,
        ;
    }
}

/// Where the pixels of a stretch of a row of one plane are those of another
/// plane, displaced, the stretches have the same sum.
pub proof fn lemma_row_sum_shifted(
    p: &Plane,
    q: &Plane,
    dx: int,
    dy: int,
    row: int,
    x1: int,
    x2: int,
)
    requires
        forall|c: int| x1 <= c < x2 ==> #[trigger] p.at(row, c) == q.at(row + dy, c + dx),
    ensures
        row_sum(p, row, x1, x2) == row_sum(q, row + dy, x1 + dx, x2 + dx),
    decreases x2 - x1,
{
    if x1 < x2 {
        lemma_row_sum_shifted(p, q, dx, dy, row, x1, x2 - 1);
        assert(p.at(row, x2 - 1) == q.at(row + dy, x2 - 1 + dx));
    }
}

/// Where the pixels of a rectangle of one plane are those of another plane,
/// displaced, the rectangles have the same sum.
pub proof fn lemma_rect_sum_shifted(
    p: &Plane,
    q: &Plane,
    dx: int,
    dy: int,
    x1: int,
    y1: int,
    x2: int,
    y2: int,
)
    requires
        forall|r: int, c: int|
            y1 <= r < y2 && x1 <= c < x2 ==> #[trigger] p.at(r, c) == q.at(r + dy, c + dx),
    ensures
        rect_sum(p, x1, y1, x2, y2) == rect_sum(q, x1 + dx, y1 + dy, x2 + dx, y2 + dy),
    decreases y2 - y1,
{
    if y1 < y2 {
        lemma_rect_sum_shifted(p, q, dx, dy, x1, y1, x2, y2 - 1);
        lemma_row_sum_shifted(p, q, dx, dy, y2 - 1, x1, x2);
    }
}

/// A rectangle without columns sums to zero.
pub proof fn lemma_rect_sum_no_columns(p: &Plane, x: int, y1: int, y2: int)
    ensures
        rect_sum(p, x, y1, x, y2) == 0,
    decreases y2 - y1,
{
    if y1 < y2 {
        lemma_rect_sum_no_columns(p, x, y1, y2 - 1);
    }
}

/// The summed-area table of a plane: one row and one column larger than the
/// plane, its cell in row `i` and column `j` holds the sum of the pixels above
/// row `i` and left of column `j`.
pub struct IntegralImage {
    table: Vec<Vec<u64>>,
    source: Ghost<Plane>,
}

impl IntegralImage {
    /// The plane that was summed.
    pub closed spec fn source(&self) -> Plane {
        self.source@
    }

    /// The number of rows of the table.
    pub open spec fn spec_rows(&self) -> int {
        self.source().spec_height() + 1
    }

    /// The number of columns of the table.
    pub open spec fn spec_cols(&self) -> int {
        self.source().spec_width() + 1
    }

    /// The table's cell in row `row` and column `col`.
    pub closed spec fn entry(&self, row: int, col: int) -> int {
        self.table@[row]@[col] as int
    }

    /// The table has a cell for each position.
    pub closed spec fn shaped(&self) -> bool {
        &&& self.table@.len() == self.spec_rows()
        &&& forall|r: int| 0 <= r < self.table@.len() ==> (#[trigger] self.table@[r])@.len() == self.spec_cols()
    }

    /// Every cell holds the sum of the source's pixels above and left of it.
    pub open spec fn wf(&self) -> bool {
        &&& self.source().wf()
        &&& self.shaped()
        &&& forall|r: int, c: int|
            0 <= r < self.spec_rows() && 0 <= c < self.spec_cols() ==> self.entry(r, c)
                == #[trigger] rect_sum(&self.source(), 0, 0, c, r)
    }

    /// The sum of a rectangle of the source as the table gives it: four
    /// cells, those at the rectangle's corners.
    pub open spec fn region_sum(&self, x1: int, y1: int, x2: int, y2: int) -> int {
        self.entry(y2, x2) - self.entry(y1, x2) - self.entry(y2, x1) + self.entry(y1, x1)
    }

    /// The four cells at a rectangle's corners give the sum of the source's
    /// pixels in the rectangle.
    pub proof fn lemma_region_sum(&self, x1: int, y1: int, x2: int, y2: int)
        requires
            self.wf(),
            0 <= x1 <= x2 < self.spec_cols(),
            0 <= y1 <= y2 < self.spec_rows(),
        ensures
            self.region_sum(x1, y1, x2, y2) == rect_sum(&self.source(), x1, y1, x2, y2),
            0 <= self.region_sum(x1, y1, x2, y2) <= 255 * ((x2 - x1) * (y2 - y1)),
    {
        let p = &self.source();
        assert(self.entry(y2, x2) == rect_sum(p, 0, 0, x2, y2));
        assert(self.entry(y1, x2) == rect_sum(p, 0, 0, x2, y1));
        assert(self.entry(y2, x1) == rect_sum(p, 0, 0, x1, y2));
        assert(self.entry(y1, x1) == rect_sum(p, 0, 0, x1, y1));
        lemma_rect_sum_split_columns(p, 0, x1, x2, 0, y2);
        lemma_rect_sum_split_columns(p, 0, x1, x2, 0, y1);
        lemma_rect_sum_split_rows(p, x1, x2, 0, y1, y2);
        lemma_rect_sum_bounds(p, x1, y1, x2, y2);
    }

    pub fn rows(&self) -> (r: usize)
        requires
            self.wf(),
        ensures
            r == self.spec_rows(),
    {
        self.table.len()
    }

    pub fn cols(&self) -> (r: usize)
        requires
            self.wf(),
        ensures
            r == self.spec_cols(),
    {
        self.table[0].len()
    }

    /// The table's cell in row `row` and column `col`.
    pub fn at_2d(&self, row: usize, col: usize) -> (r: u64)
        requires
            self.wf(),
            row < self.spec_rows(),
            col < self.spec_cols(),
        ensures
            r == self.entry(row as int, col as int),
    {
        self.table[row][col]
    }
}

/// The summed-area table of a plane, unless the plane is empty.
pub fn integral_image(image: &Plane) -> (r: Result<IntegralImage, RecError>)
    requires
        image.wf(),
    ensures
        r.is_err() <==> image.spec_width() == 0 || image.spec_height() == 0,
        r matches Err(e) ==> e == RecError::ImageInvalid,
        r matches Ok(t) ==> t.wf() && t.source() == *image,
{
    if image.is_empty() {
        return Err(RecError::ImageInvalid);
    }
    let w: usize = image.width();
    let h: usize = image.height();
    let mut table: Vec<Vec<u64>> = Vec::new();
    let mut first: Vec<u64> = Vec::new();
    let mut j: usize = 0;
    while j <= w
        invariant
            j <= w + 1,
            w <= MAX_SIDE,
            first@.len() == j,
            forall|c: int| 0 <= c < j ==> first@[c] == 0,
        decreases w + 1 - j,
    {
        first.push(0);
        j += 1;
    }
    table.push(first);
    let mut i: usize = 0;
    while i < h
        invariant
            image.wf(),
            w == image.spec_width(),
            h == image.spec_height(),
            i <= h,
            table@.len() == i + 1,
            forall|r: int| 0 <= r <= i ==> (#[trigger] table@[r])@.len() == w + 1,
            forall|r: int, c: int|
                0 <= r <= i && 0 <= c <= w ==> table@[r]@[c] == #[trigger] rect_sum(
                    image,
                    0,
                    0,
                    c,
                    r,
                ),
        decreases h - i,
    {
        let mut row: Vec<u64> = Vec::new();
        row.push(0);
        proof {
            lemma_rect_sum_no_columns(image, 0, 0, i + 1);
        }
        let mut acc: u64 = 0;
        let mut j: usize = 0;
        while j < w
            invariant
                image.wf(),
                w == image.spec_width(),
                h == image.spec_height(),
                i < h,
                j <= w,
                table@.len() == i + 1,
                table@[i as int]@.len() == w + 1,
                forall|c: int|
                    0 <= c <= w ==> table@[i as int]@[c] == #[trigger] rect_sum(image, 0, 0, c, i as int),
                row@.len() == j + 1,
                acc == row_sum(image, i as int, 0, j as int),
                forall|c: int|
                    0 <= c <= j ==> row@[c] == #[trigger] rect_sum(image, 0, 0, c, i + 1),
            decreases w - j,
        {
            let pixel: u8 = image.get(i, j);
            proof {
                lemma_row_sum_bounds(image, i as int, 0, j as int);
                lemma_rect_sum_bounds(image, 0, 0, j + 1, i as int);
                lemma_area_bound(j + 1, i as int, MAX_SIDE as int);
                assert(table@[i as int]@[j + 1] == rect_sum(image, 0, 0, j + 1, i as int));
            }
            acc = acc + pixel as u64;
            let above: u64 = table[i][j + 1];
            row.push(above + acc);
            j += 1;
        }
        table.push(row);
        i += 1;
    }
    let t = IntegralImage { table, source: Ghost(*image) };
    proof {
        assert(t.shaped());
        assert forall|r: int, c: int| 0 <= r < t.spec_rows() && 0 <= c < t.spec_cols() implies t.entry(r, c)
            == #[trigger] rect_sum(&t.source(), 0, 0, c, r) by {
            assert(t.table@[r]@[c] == rect_sum(image, 0, 0, c, r));
        }
    }
    Ok(t)
}

/// Whether `r` is the smallest rectangle that holds all of `coordinates`,
/// enlarged by `extend` on every side.
pub open spec fn is_merged(coordinates: Seq<Coordinate>, extend: int, r: Coordinate) -> bool {
    &&& forall|k: int|
        0 <= k < coordinates.len() ==> {
            &&& r.x + extend <= (#[trigger] coordinates[k]).x
            &&& r.y + extend <= coordinates[k].y
            &&& coordinates[k].x + coordinates[k].w <= r.x + r.w - extend
            &&& coordinates[k].y + coordinates[k].h <= r.y + r.h - extend
        }
    &&& exists|k: int| 0 <= k < coordinates.len() && r.x + extend == (#[trigger] coordinates[k]).x
    &&& exists|k: int| 0 <= k < coordinates.len() && r.y + extend == (#[trigger] coordinates[k]).y
    &&& exists|k: int|
        0 <= k < coordinates.len() && (#[trigger] coordinates[k]).x + coordinates[k].w == r.x + r.w
            - extend
    &&& exists|k: int|
        0 <= k < coordinates.len() && (#[trigger] coordinates[k]).y + coordinates[k].h == r.y + r.h
            - extend
}

/// The smallest rectangle that holds all of `coordinates`, enlarged by
/// `extend` on every side; of no rectangles, the empty rectangle at the
/// origin.
pub open spec fn spec_merged(coordinates: Seq<Coordinate>, extend: int) -> Coordinate {
    if coordinates.len() == 0 {
        Coordinate { x: 0, y: 0, w: 0, h: 0 }
    } else {
        choose|r: Coordinate| is_merged(coordinates, extend, r)
    }
}

/// Only one rectangle is the smallest that holds all, enlarged.
pub proof fn lemma_merged_unique(coordinates: Seq<Coordinate>, extend: int, a: Coordinate, b: Coordinate)
    requires
        is_merged(coordinates, extend, a),
        is_merged(coordinates, extend, b),
    ensures
        a == b,
{
}

/// The smallest rectangle that holds all of `coordinates`, enlarged by
/// `extend` on every side. Of no rectangles it is the empty rectangle at the
/// origin.
pub fn merge_coordinates(coordinates: &Vec<Coordinate>, extend: i32) -> (r: Coordinate)
    requires
        rectangles_on_sheet(coordinates@),
        0 <= extend <= MAX_SIDE,
    ensures
        r == spec_merged(coordinates@, extend as int),
        coordinates@.len() == 0 ==> r == (Coordinate { x: 0, y: 0, w: 0, h: 0 }),
        coordinates@.len() > 0 ==> is_merged(coordinates@, extend as int, r),
        r.w >= 0,
        r.h >= 0,
        -MAX_SIDE <= r.x <= MAX_SIDE,
        -MAX_SIDE <= r.y <= MAX_SIDE,
{
    if coordinates.len() == 0 {
        return Coordinate { x: 0, y: 0, w: 0, h: 0 };
    }
    let first: Coordinate = coordinates[0];
    let mut left: i32 = first.x;
    let mut top: i32 = first.y;
    let mut right: i32 = first.x + first.w;
    let mut bottom: i32 = first.y + first.h;
    let ghost mut at_left: int = 0;
    let ghost mut at_top: int = 0;
    let ghost mut at_right: int = 0;
    let ghost mut at_bottom: int = 0;
    let mut i: usize = 1;
    while i < coordinates.len()
        invariant
            1 <= i <= coordinates@.len(),
            rectangles_on_sheet(coordinates@),
            0 <= at_left < i,
            0 <= at_top < i,
            0 <= at_right < i,
            0 <= at_bottom < i,
            left == coordinates@[at_left].x,
            top == coordinates@[at_top].y,
            right == coordinates@[at_right].x + coordinates@[at_right].w,
            bottom == coordinates@[at_bottom].y + coordinates@[at_bottom].h,
            forall|k: int|
                0 <= k < i ==> {
                    &&& left <= (#[trigger] coordinates@[k]).x
                    &&& top <= coordinates@[k].y
                    &&& coordinates@[k].x + coordinates@[k].w <= right
                    &&& coordinates@[k].y + coordinates@[k].h <= bottom
                },
        decreases coordinates@.len() - i,
    {
        let c: Coordinate = coordinates[i];
        if c.x < left {
            left = c.x;
            proof {
                at_left = i as int;
            }
        }
        if c.y < top {
            top = c.y;
            proof {
                at_top = i as int;
            }
        }
        if c.x + c.w > right {
            right = c.x + c.w;
            proof {
                at_right = i as int;
            }
        }
        if c.y + c.h > bottom {
            bottom = c.y + c.h;
            proof {
                at_bottom = i as int;
            }
        }
        i += 1;
    }
    assert(coordinates@[at_left].on_sheet());
    assert(coordinates@[at_top].on_sheet());
    assert(coordinates@[at_right].on_sheet());
    assert(coordinates@[at_bottom].on_sheet());
    let r = Coordinate {
        x: left - extend,
        y: top - extend,
        w: right - left + 2 * extend,
        h: bottom - top + 2 * extend,
    };
    proof {
        assert(is_merged(coordinates@, extend as int, r));
        let chosen = choose|c: Coordinate| is_merged(coordinates@, extend as int, c);
        lemma_merged_unique(coordinates@, extend as int, r, chosen);
    }
    r
}

/// The corners of a rectangle, clockwise on a plane whose `y` axis points
/// down, from the top left.
pub fn get_points_from_coordinate(coordinate: &Coordinate) -> (r: [Point; 4])
    requires
        coordinate.wf(),
    ensures
        r@ == seq![
            Point { x: coordinate.x, y: coordinate.y },
            Point { x: (coordinate.x + coordinate.w) as i32, y: coordinate.y },
            Point { x: (coordinate.x + coordinate.w) as i32, y: (coordinate.y + coordinate.h) as i32 },
            Point { x: coordinate.x, y: (coordinate.y + coordinate.h) as i32 },
        ],
        r@[1].x == coordinate.x + coordinate.w,
        r@[2].y == coordinate.y + coordinate.h,
{
    let r: [Point; 4] = [
        Point { x: coordinate.x, y: coordinate.y },
        Point { x: coordinate.x + coordinate.w, y: coordinate.y },
        Point { x: coordinate.x + coordinate.w, y: coordinate.y + coordinate.h },
        Point { x: coordinate.x, y: coordinate.y + coordinate.h },
    ];
    assert(r@ =~= seq![
        Point { x: coordinate.x, y: coordinate.y },
        Point { x: (coordinate.x + coordinate.w) as i32, y: coordinate.y },
        Point { x: (coordinate.x + coordinate.w) as i32, y: (coordinate.y + coordinate.h) as i32 },
        Point { x: coordinate.x, y: (coordinate.y + coordinate.h) as i32 },
    ]);
    r
}

/// Whether three positions lie on one line.
pub open spec fn collinear(a: Point, b: Point, c: Point) -> bool {
    (b.x - a.x) * (c.y - a.y) == (b.y - a.y) * (c.x - a.x)
}

/// Whether no three of four corners lie on one line.
pub open spec fn in_general_position(p: Seq<Point>) -> bool {
    &&& !collinear(p[0], p[1], p[2])
    &&& !collinear(p[0], p[1], p[3])
    &&& !collinear(p[0], p[2], p[3])
    &&& !collinear(p[1], p[2], p[3])
}

/// Whether three positions lie on one line.
pub fn are_collinear(a: &Point, b: &Point, c: &Point) -> (r: bool)
    ensures
        r == collinear(*a, *b, *c),
{
    let abx: i64 = b.x as i64 - a.x as i64;
    let aby: i64 = b.y as i64 - a.y as i64;
    let acx: i64 = c.x as i64 - a.x as i64;
    let acy: i64 = c.y as i64 - a.y as i64;
    proof {
        crate::myutils::math::lemma_product_bound(abx as int, acy as int, 0x1_0000_0000);
        crate::myutils::math::lemma_product_bound(aby as int, acx as int, 0x1_0000_0000);
    }
    (abx as i128) * (acy as i128) == (aby as i128) * (acx as i128)
}

/// Whether there is exactly one perspective transform that maps the corners
/// of the outline to the corners of the target rectangle: no three corners
/// of the outline lie on one line, and the rectangle has an area.
pub fn check_perspective_transform(quad: &Quad, target: &Coordinate) -> (r: Result<(), RecError>)
    ensures
        r.is_ok() <==> in_general_position(quad.points@) && target.w > 0 && target.h > 0,
        r matches Err(e) ==> e == RecError::TransformDegenerate,
{
    if target.w <= 0 || target.h <= 0 {
        return Err(RecError::TransformDegenerate);
    }
    let p = &quad.points;
    if are_collinear(&p[0], &p[1], &p[2]) || are_collinear(&p[0], &p[1], &p[3]) || are_collinear(
        &p[0],
        &p[2],
        &p[3],
    ) || are_collinear(&p[1], &p[2], &p[3]) {
        return Err(RecError::TransformDegenerate);
    }
    Ok(())
}

/// The corners of an outline, in their order.
pub fn get_points_from_quad(quad: &Quad) -> (r: [Point; 4])
    ensures
        r@ == quad.points@,
{
    let r: [Point; 4] = [quad.points[0], quad.points[1], quad.points[2], quad.points[3]];
    assert(r@ =~= quad.points@);
    r
}

} // verus!
