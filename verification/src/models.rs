use vstd::prelude::*;
use vstd::std_specs::convert::FromSpecImpl;
use crate::myutils::image::{Plane, MAX_SIDE};
use crate::myutils::math::{Ratio, MAX_SAMPLES};

verus! {

/// Why recognition, or building an engine, failed.
#[derive(Debug, Clone, Copy, PartialEq, Eq, Structural)]
pub enum RecError {
    /// The mark definition does not describe a sheet.
    InputMalformed,
    /// The image is empty.
    ImageInvalid,
    /// No contour is large enough to be the sheet's outline.
    NoBoundaryFound,
    /// The best outline is not a quadrilateral, or not a plausible one.
    BoundaryShapeInvalid,
    /// No perspective transform maps the outline to the sheet.
    TransformDegenerate,
    /// The fiducial marks found differ in number between the sides, or from
    /// the number expected.
    FiducialCountMismatch,
    /// A rectangle to sample lies partly outside the plane.
    SampleOutOfRange,
}

impl RecError {
    /// The message that tells the host of this failure.
    pub open spec fn spec_message(self) -> Seq<char> {
        match self {
            RecError::InputMalformed => "标注信息无效"@,
            RecError::ImageInvalid => "输入图像为空"@,
            RecError::NoBoundaryFound => "未找到合适的外部黑框"@,
            RecError::BoundaryShapeInvalid => "未能找到合适的四边形"@,
            RecError::TransformDegenerate => "计算透视变换矩阵失败"@,
            RecError::FiducialCountMismatch => "辅助定位点数量不匹配"@,
            RecError::SampleOutOfRange => "坐标超出积分图范围"@,
        }
    }

    /// The message that tells the host of this failure.
    pub fn message(&self) -> (r: String)
        ensures
            r@ == self.spec_message(),
    {
        match self {
            RecError::InputMalformed => "标注信息无效".to_string(),
            RecError::ImageInvalid => "输入图像为空".to_string(),
            RecError::NoBoundaryFound => "未找到合适的外部黑框".to_string(),
            RecError::BoundaryShapeInvalid => "未能找到合适的四边形".to_string(),
            RecError::TransformDegenerate => "计算透视变换矩阵失败".to_string(),
            RecError::FiducialCountMismatch => "辅助定位点数量不匹配".to_string(),
            RecError::SampleOutOfRange => "坐标超出积分图范围".to_string(),
        }
    }
}

/// A position in whole pixels.
#[derive(Debug, Clone, Copy, PartialEq, Eq, Structural)]
pub struct Point {
    pub x: i32,
    pub y: i32,
}

/// An axis-aligned rectangle in whole pixels, with its origin at the top left.
#[derive(Debug, Clone, Copy, PartialEq, Eq, Structural)]
pub struct Coordinate {
    pub x: i32,
    pub y: i32,
    pub w: i32,
    pub h: i32,
}

impl Coordinate {
    /// Both extents are non-negative and the far corner is a position too.
    pub open spec fn wf(&self) -> bool {
        &&& self.w >= 0
        &&& self.h >= 0
        &&& self.x + self.w <= i32::MAX
        &&& self.y + self.h <= i32::MAX
    }

    pub fn is_valid(&self) -> (r: bool)
        ensures
            r == self.wf(),
    {
        self.w >= 0 && self.h >= 0 && self.x <= i32::MAX - self.w && self.y <= i32::MAX - self.h
    }

    /// The rectangle lies within the largest plane there can be.
    pub open spec fn on_sheet(&self) -> bool {
        &&& self.x >= 0
        &&& self.y >= 0
        &&& self.w >= 0
        &&& self.h >= 0
        &&& self.x + self.w <= MAX_SIDE
        &&& self.y + self.h <= MAX_SIDE
    }

    pub fn is_on_sheet(&self) -> (r: bool)
        ensures
            r == self.on_sheet(),
    {
        self.x >= 0 && self.y >= 0 && self.w >= 0 && self.h >= 0 && self.x as i64 + self.w as i64
            <= MAX_SIDE as i64 && self.y as i64 + self.h as i64 <= MAX_SIDE as i64
    }
}

/// The four corners of the sheet's outline. Once ordered, the first is the
/// corner nearest the top left and the others follow by angle about the
/// centroid.
#[derive(Debug, Clone, Copy)]
pub struct Quad {
    pub points: [Point; 4],
}

/// A contour as it was traced on a plane.
#[derive(Debug, Clone)]
pub struct Contour {
    /// The contour's points, in the order of its traversal.
    pub points: Vec<Point>,
    /// The contour reduced to a polygon of few vertices.
    pub approx: Vec<Point>,
}

/// A contour with what was measured of it.
#[derive(Debug, Clone)]
pub struct ContourInfo {
    /// The contour's points, in the order of its traversal.
    pub points: Vec<Point>,
    /// The contour reduced to a polygon of few vertices.
    pub approx: Vec<Point>,
    /// Twice the area that the contour encloses.
    pub area2: u128,
}

/// How many options of an item may be marked.
#[derive(Debug, Clone, Copy, PartialEq, Eq, Structural)]
pub enum RecType {
    SingleChoice,
    MultipleChoice,
}

impl RecType {
    /// The number that stands for this type: 1 for single choice, 2 for
    /// multiple choice.
    pub open spec fn spec_code(self) -> i32 {
        match self {
            RecType::SingleChoice => 1,
            RecType::MultipleChoice => 2,
        }
    }

    /// The type that a number stands for. Every number but 2 is single
    /// choice.
    pub open spec fn spec_from_code(value: i32) -> RecType {
        if value == 2 {
            RecType::MultipleChoice
        } else {
            RecType::SingleChoice
        }
    }

    pub fn code(self) -> (r: i32)
        ensures
            r == self.spec_code(),
    {
        match self {
            RecType::SingleChoice => 1,
            RecType::MultipleChoice => 2,
        }
    }
}

impl From<i32> for RecType {
    fn from(value: i32) -> (r: RecType) {
        if value == 2 {
            RecType::MultipleChoice
        } else {
            RecType::SingleChoice
        }
    }
}

impl FromSpecImpl<i32> for RecType {
    open spec fn obeys_from_spec() -> bool {
        true
    }

    open spec fn from_spec(value: i32) -> RecType {
        RecType::spec_from_code(value)
    }
}

impl From<RecType> for i32 {
    fn from(rec_type: RecType) -> (r: i32) {
        match rec_type {
            RecType::SingleChoice => 1,
            RecType::MultipleChoice => 2,
        }
    }
}

impl FromSpecImpl<RecType> for i32 {
    open spec fn obeys_from_spec() -> bool {
        true
    }

    open spec fn from_spec(rec_type: RecType) -> i32 {
        rec_type.spec_code()
    }
}

/// A number and the type it stands for agree.
pub proof fn lemma_rec_type_round_trip(t: RecType)
    ensures
        RecType::spec_from_code(t.spec_code()) == t,
{
}

/// One question of the sheet.
#[derive(Debug, Clone)]
pub struct RecItem {
    pub rec_type: RecType,
    /// Where each option is printed, in order.
    pub sub_options: Vec<Coordinate>,
}

/// Where the fiducial marks are expected, top to bottom, on either side.
#[derive(Debug, Clone)]
pub struct AssistLocation {
    pub left: Vec<Coordinate>,
    pub right: Vec<Coordinate>,
}

/// The definition of a sheet.
#[derive(Debug, Clone)]
pub struct Mark {
    /// The rectangle onto which the sheet's outline is mapped.
    pub boundary: Coordinate,
    pub rec_items: Vec<RecItem>,
    pub assist_location: AssistLocation,
}

/// The number of options of the first `n` items.
pub open spec fn option_count(items: Seq<RecItem>, n: int) -> int
    decreases n,
{
    if n <= 0 {
        0
    } else {
        option_count(items, n - 1) + items[n - 1].sub_options@.len()
    }
}

/// Whether every rectangle lies within the largest plane there can be.
pub open spec fn rectangles_on_sheet(coordinates: Seq<Coordinate>) -> bool {
    forall|k: int| 0 <= k < coordinates.len() ==> (#[trigger] coordinates[k]).on_sheet()
}

impl Mark {
    /// The definition describes a sheet: its rectangles lie within the
    /// largest plane there can be, and it has no more than `MAX_SAMPLES`
    /// options.
    pub open spec fn wf(&self) -> bool {
        &&& self.boundary.on_sheet()
        &&& forall|i: int|
            0 <= i < self.rec_items@.len() ==> rectangles_on_sheet(
                (#[trigger] self.rec_items@[i]).sub_options@,
            )
        &&& rectangles_on_sheet(self.assist_location.left@)
        &&& rectangles_on_sheet(self.assist_location.right@)
        &&& option_count(self.rec_items@, self.rec_items@.len() as int) <= MAX_SAMPLES
    }

    /// Whether the definition describes a sheet.
    pub fn is_valid(&self) -> (r: bool)
        ensures
            r == self.wf(),
    {
        if !self.boundary.is_on_sheet() {
            return false;
        }
        if !all_rectangles_on_sheet(&self.assist_location.left) {
            return false;
        }
        if !all_rectangles_on_sheet(&self.assist_location.right) {
            return false;
        }
        let mut count: usize = 0;
        let mut i: usize = 0;
        while i < self.rec_items.len()
            invariant
                i <= self.rec_items@.len(),
                count == option_count(self.rec_items@, i as int),
                count <= MAX_SAMPLES,
                forall|k: int|
                    0 <= k < i ==> rectangles_on_sheet((#[trigger] self.rec_items@[k]).sub_options@),
            decreases self.rec_items@.len() - i,
        {
            let options = &self.rec_items[i].sub_options;
            if !all_rectangles_on_sheet(options) {
                return false;
            }
            if options.len() > MAX_SAMPLES - count {
                proof {
                    lemma_option_count_grows(self.rec_items@, i + 1, self.rec_items@.len() as int);
                }
                return false;
            }
            count = count + options.len();
            i += 1;
        }
        true
    }
}

/// The number of options does not fall as items are added.
pub proof fn lemma_option_count_grows(items: Seq<RecItem>, m: int, n: int)
    requires
        0 <= m <= n,
    ensures
        option_count(items, m) <= option_count(items, n),
    decreases n - m,
{
    if m < n {
        lemma_option_count_grows(items, m, n - 1);
    }
}

/// Whether every rectangle lies within the largest plane there can be.
pub fn all_rectangles_on_sheet(coordinates: &Vec<Coordinate>) -> (r: bool)
    ensures
        r == rectangles_on_sheet(coordinates@),
{
    let mut i: usize = 0;
    while i < coordinates.len()
        invariant
            i <= coordinates@.len(),
            forall|k: int| 0 <= k < i ==> (#[trigger] coordinates@[k]).on_sheet(),
        decreases coordinates@.len() - i,
    {
        if !coordinates[i].is_on_sheet() {
            return false;
        }
        i += 1;
    }
    true
}

/// The fill ratio measured in one option's rectangle.
#[derive(Debug, Clone, Copy, PartialEq, Eq, Structural)]
pub struct FillItem {
    pub fill_rate: Ratio,
    pub coordinate: Coordinate,
}

/// What was read of one question.
#[derive(Debug, Clone)]
pub struct RecResult {
    /// For each option, whether it is marked.
    pub rec_result: Vec<bool>,
    /// For each option, its fill ratio and rectangle.
    pub fill_items: Vec<FillItem>,
    pub rec_tpye: RecType,
}

impl RecResult {
    /// There is one verdict for each measured option, and every fill ratio
    /// has a positive denominator.
    pub open spec fn wf(&self) -> bool {
        &&& self.rec_result@.len() == self.fill_items@.len()
        &&& forall|j: int|
            0 <= j < self.fill_items@.len() ==> (#[trigger] self.fill_items@[j]).fill_rate.wf()
    }

    /// The result before anything was measured: no option is marked, and
    /// each has fill ratio zero at its declared rectangle.
    pub open spec fn is_blank_for(&self, item: &RecItem) -> bool {
        &&& self.rec_tpye == item.rec_type
        &&& self.rec_result@.len() == item.sub_options@.len()
        &&& self.fill_items@.len() == item.sub_options@.len()
        &&& forall|j: int| 0 <= j < item.sub_options@.len() ==> !(#[trigger] self.rec_result@[j])
        &&& forall|j: int|
            0 <= j < item.sub_options@.len() ==> #[trigger] self.fill_items@[j] == (FillItem {
                fill_rate: Ratio { num: 0, den: 1 },
                coordinate: item.sub_options@[j],
            })
    }
}

/// The outcome of reading a sheet.
#[derive(Debug, Clone)]
pub struct MobileOutput {
    /// 0 when the sheet was read, 1 when it was not.
    pub code: i32,
    pub message: String,
    /// One result for each item of the mark definition.
    pub rec_results: Vec<RecResult>,
}

impl MobileOutput {
    /// Every result has one verdict for each measured option, and every fill
    /// ratio has a positive denominator.
    pub open spec fn wf(&self) -> bool {
        forall|i: int| 0 <= i < self.rec_results@.len() ==> (#[trigger] self.rec_results@[i]).wf()
    }

    /// The output before anything was measured.
    pub open spec fn is_blank_for(&self, mark: &Mark) -> bool {
        &&& self.code == 0
        &&& self.message@ == "success"@
        &&& self.rec_results@.len() == mark.rec_items@.len()
        &&& forall|i: int|
            0 <= i < mark.rec_items@.len() ==> (#[trigger] self.rec_results@[i]).is_blank_for(
                &mark.rec_items@[i],
            )
    }

    /// The output that reports a failure to the host: status 1, the
    /// message, and no results.
    pub fn failure(message: String) -> (out: MobileOutput)
        ensures
            out.code == 1,
            out.message@ == message@,
            out.rec_results@.len() == 0,
            out.wf(),
    {
        MobileOutput { code: 1, message, rec_results: Vec::new() }
    }

    /// The output for a mark definition before anything was measured: one
    /// result per item, in which no option is marked.
    pub fn new(mark: &Mark) -> (out: MobileOutput)
        ensures
            out.is_blank_for(mark),
            out.wf(),
    {
        let mut rec_results: Vec<RecResult> = Vec::new();
        let mut i: usize = 0;
        while i < mark.rec_items.len()
            invariant
                i <= mark.rec_items@.len(),
                rec_results@.len() == i,
                forall|k: int|
                    0 <= k < i ==> (#[trigger] rec_results@[k]).is_blank_for(&mark.rec_items@[k])
                        && rec_results@[k].wf(),
            decreases mark.rec_items@.len() - i,
        {
            let item = &mark.rec_items[i];
            let mut rec_result: Vec<bool> = Vec::new();
            let mut fill_items: Vec<FillItem> = Vec::new();
            let mut j: usize = 0;
            while j < item.sub_options.len()
                invariant
                    j <= item.sub_options@.len(),
                    rec_result@.len() == j,
                    fill_items@.len() == j,
                    forall|k: int| 0 <= k < j ==> !(#[trigger] rec_result@[k]),
                    forall|k: int|
                        0 <= k < j ==> #[trigger] fill_items@[k] == (FillItem {
                            fill_rate: Ratio { num: 0, den: 1 },
                            coordinate: item.sub_options@[k],
                        }),
                decreases item.sub_options@.len() - j,
            {
                rec_result.push(false);
                fill_items.push(FillItem { fill_rate: Ratio::zero(), coordinate: item.sub_options[j] });
                j += 1;
            }
            let result = RecResult { rec_result, fill_items, rec_tpye: item.rec_type };
            assert(result.is_blank_for(&mark.rec_items@[i as int]));
            assert(result.wf());
            rec_results.push(result);
            i += 1;
        }
        MobileOutput { code: 0, message: "success".to_string(), rec_results }
    }
}

/// Whether an engine could be built, as reported to the host.
#[derive(Debug, Clone)]
pub struct InitInfo {
    pub code: u8,
    pub message: String,
}

impl InitInfo {
    /// The report that an engine was built.
    pub fn success() -> (r: InitInfo)
        ensures
            r.code == 0,
            r.message@ == "初始化成功"@,
    {
        InitInfo { code: 0, message: "初始化成功".to_string() }
    }

    /// The report that no engine could be built, with the reason.
    pub fn failure(message: String) -> (r: InitInfo)
        ensures
            r.code == 1,
            r.message@ == message@,
    {
        InitInfo { code: 1, message }
    }
}

/// The three planes derived from one image: grey levels, their binary
/// threshold, and the threshold after a morphological close.
#[derive(Debug)]
pub struct ProcessedImage {
    pub gray: Plane,
    pub thresh: Plane,
    pub closed: Plane,
}

impl ProcessedImage {
    /// The three planes as one, if they are of one size.
    pub fn new(gray: Plane, thresh: Plane, closed: Plane) -> (r: Option<ProcessedImage>)
        requires
            gray.wf(),
            thresh.wf(),
            closed.wf(),
        ensures
            r.is_some() <==> gray.spec_width() == thresh.spec_width() && gray.spec_width()
                == closed.spec_width() && gray.spec_height() == thresh.spec_height()
                && gray.spec_height() == closed.spec_height(),
            r matches Some(p) ==> p.wf() && p.gray == gray && p.thresh == thresh && p.closed
                == closed,
    {
        if gray.width() != thresh.width() || gray.width() != closed.width() || gray.height()
            != thresh.height() || gray.height() != closed.height() {
            return None;
        }
        Some(ProcessedImage { gray, thresh, closed })
    }

    /// The planes are well formed and of one size.
    pub open spec fn wf(&self) -> bool {
        &&& self.gray.wf()
        &&& self.thresh.wf()
        &&& self.closed.wf()
        &&& self.gray.spec_width() == self.thresh.spec_width() == self.closed.spec_width()
        &&& self.gray.spec_height() == self.thresh.spec_height() == self.closed.spec_height()
    }
}

} // verus!
