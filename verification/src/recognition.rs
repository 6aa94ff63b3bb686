//! Finding the tubes on a screenshot of the game.
//!
//! A tube shows on the screenshot as a frame of fixed size whose rim has a
//! color of its own. The rows of the picture are read from top to bottom,
//! each from left to right; a pixel of the rim color that lies in no frame
//! found so far marks a new frame.
use crate::puzzle::TubeState;
use crate::screenshot::{pixel_rows, row_width, shot_height, shot_pixel, shot_width, Screenshot};
use std::collections::VecDeque;
use vstd::prelude::*;
use vstd::std_specs::cmp::PartialEqSpecImpl;
use vstd::std_specs::convert::FromSpecImpl;

verus! {

/// The color of the rim of a tube.
pub const RIM_COLOR: u32 = 0xBCBCBC;

/// The first row in which a rim is looked for.
pub const FIRST_ROW: u32 = 470;

/// The number of rows at the bottom in which no rim is looked for.
pub const BOTTOM_MARGIN: u32 = 170;

/// How far right of its frame's left edge a rim pixel lies.
pub const RIM_LEFT: u32 = 11;

/// How far below its frame's top edge a rim pixel lies.
pub const RIM_TOP: u32 = 3;

/// The width of a tube's frame.
pub const TUBE_WIDTH: u32 = 134;

/// The height of a tube's frame.
pub const TUBE_HEIGHT: u32 = 479;

/// The number of rows between two samples of a tube's colors.
pub const SAMPLE_STEP: u32 = 100;

/// A tube as it was found on a screenshot: its number, its frame, and the
/// colors read from it, bottom to top.
#[derive(Debug)]
pub struct ParsedTube {
    pub id: usize,
    pub x: u32,
    pub y: u32,
    pub width: u32,
    pub height: u32,
    pub colors: VecDeque<u32>,
}

impl Clone for ParsedTube {
    fn clone(&self) -> (copy: Self)
        ensures
            same_tube(copy, *self),
    {
        ParsedTube {
            id: self.id,
            x: self.x,
            y: self.y,
            width: self.width,
            height: self.height,
            colors: self.colors.clone(),
        }
    }
}

impl Default for ParsedTube {
    fn default() -> (tube: Self)
        ensures
            tube.id == 0,
            tube.x == 0,
            tube.y == 0,
            tube.width == 0,
            tube.height == 0,
            tube.colors@ == Seq::<u32>::empty(),
    {
        ParsedTube { id: 0, x: 0, y: 0, width: 0, height: 0, colors: VecDeque::new() }
    }
}

/// Two parsed tubes are the same tube when they have the same number.
impl PartialEq for ParsedTube {
    fn eq(&self, other: &Self) -> (same: bool) {
        self.id == other.id
    }
}

impl PartialEqSpecImpl for ParsedTube {
    open spec fn obeys_eq_spec() -> bool {
        true
    }

    open spec fn eq_spec(&self, other: &Self) -> bool {
        self.id == other.id
    }
}

impl From<ParsedTube> for TubeState {
    fn from(parsed: ParsedTube) -> (tube: Self) {
        TubeState(parsed.colors)
    }
}

impl FromSpecImpl<ParsedTube> for TubeState {
    open spec fn obeys_from_spec() -> bool {
        true
    }

    open spec fn from_spec(parsed: ParsedTube) -> Self {
        TubeState(parsed.colors)
    }
}

impl ParsedTube {
    /// The point `(x, y)` lies in the frame, its edges included.
    pub open spec fn covers(self, x: int, y: int) -> bool {
        self.x <= x <= self.x + self.width && self.y <= y <= self.y + self.height
    }

    /// A tube with the given number and frame and no colors yet.
    pub fn new(id: usize, x: u32, y: u32, width: u32, height: u32) -> (tube: Self)
        ensures
            tube.id == id,
            tube.x == x,
            tube.y == y,
            tube.width == width,
            tube.height == height,
            tube.colors@ == Seq::<u32>::empty(),
    {
        ParsedTube { id, x, y, width, height, colors: VecDeque::new() }
    }

    /// Where the color with number `taken` is sampled, when the lowest
    /// sample lies `lowest` rows below the top of the frame: in the middle
    /// column of the frame, one step further up for each sample taken.
    /// `None` where the lowest sample or the middle column has no
    /// coordinate, or where the row would lie above the top of the picture.
    pub open spec fn sample_place(self, lowest: u32, taken: usize) -> Option<(int, int)> {
        let x = self.x + self.width / 2;
        let bottom = self.y + lowest;
        if x > u32::MAX || bottom > u32::MAX || SAMPLE_STEP * taken > bottom {
            None
        } else {
            Some((x, bottom - SAMPLE_STEP * taken))
        }
    }

    /// Where the next color of the tube is sampled when `taken` samples
    /// have been taken and the lowest one lies `lowest` rows below the top
    /// of the frame, or `None` if there is no such place.
    pub fn sample_point(&self, lowest: u32, taken: usize) -> (point: Option<(u32, u32)>)
        ensures
            match point {
                Some((x, y)) => self.sample_place(lowest, taken) == Some((x as int, y as int)),
                None => self.sample_place(lowest, taken) is None,
            },
    {
        let x = match self.x.checked_add(self.width / 2) {
            Some(x) => x,
            None => return None,
        };
        let bottom = match self.y.checked_add(lowest) {
            Some(bottom) => bottom,
            None => return None,
        };
        if taken > (bottom / SAMPLE_STEP) as usize {
            assert(SAMPLE_STEP * taken > bottom) by (nonlinear_arith)
                requires
                    taken >= bottom / SAMPLE_STEP + 1,
                    SAMPLE_STEP == 100,
            ;
            return None;
        }
        let up = SAMPLE_STEP * (taken as u32);
        Some((x, bottom - up))
    }

    /// Takes in what was found at the place of the next sample: a pixel of
    /// the background ends the tube and leaves it as it is, any other pixel
    /// gives the tube its next color. Says whether to go on sampling.
    pub fn take_sample(&mut self, pixel: &[u8; 3], background: bool) -> (more: bool)
        ensures
            more == !background,
            final(self).id == old(self).id,
            final(self).x == old(self).x,
            final(self).y == old(self).y,
            final(self).width == old(self).width,
            final(self).height == old(self).height,
            final(self).colors@ == if background {
                old(self).colors@
            } else {
                old(self).colors@.push(packed(*pixel) as u32)
            },
    {
        if background {
            return false;
        }
        self.colors.push_back(pack(pixel));
        true
    }

    /// Whether the point `(x, y)` lies in the frame, its edges included.
    pub fn inside(&self, x: u32, y: u32) -> (within: bool)
        ensures
            within == self.covers(x as int, y as int),
    {
        x >= self.x && x - self.x <= self.width && y >= self.y && y - self.y <= self.height
    }
}

/// The color with the given red, green and blue parts as one number: red
/// in the highest of its three bytes, blue in the lowest.
pub open spec fn packed(pixel: [u8; 3]) -> int {
    pixel[0] * 0x10000 + pixel[1] * 0x100 + pixel[2]
}

/// Packs the red, green and blue parts of a pixel into one number.
pub fn pack(pixel: &[u8; 3]) -> (color: u32)
    ensures
        color == packed(*pixel),
{
    let red: u32 = pixel[0] as u32;
    let green: u32 = pixel[1] as u32;
    let blue: u32 = pixel[2] as u32;
    assert((red << 16) | (green << 8) | blue == red * 0x10000 + green * 0x100 + blue)
        by (bit_vector)
        requires
            red < 0x100,
            green < 0x100,
            blue < 0x100,
    ;
    (red << 16) | (green << 8) | blue
}

/// The pixel `(x, y)` is read before the pixel `(u, v)`: it lies in a row
/// further up, or in the same row further left.
pub open spec fn read_before(x: int, y: int, u: int, v: int) -> bool {
    y < v || (y == v && x < u)
}

/// The pixel `(x, y)` lies in the rows in which rims are looked for and has
/// the color of a rim.
pub open spec fn is_rim(shot: Screenshot, x: int, y: int) -> bool {
    &&& 0 <= x < row_width(shot)
    &&& FIRST_ROW <= y
    &&& y + BOTTOM_MARGIN < pixel_rows(shot).len()
    &&& packed(pixel_rows(shot)[y][x]) == RIM_COLOR
}

/// The column of the rim pixel that marks `tube`.
pub open spec fn rim_x(tube: ParsedTube) -> int {
    tube.x + RIM_LEFT
}

/// The row of the rim pixel that marks `tube`.
pub open spec fn rim_y(tube: ParsedTube) -> int {
    tube.y + RIM_TOP
}

/// `tube` is the frame with number `i`: it has that number, the fixed size
/// and no colors yet, and a rim pixel marks it.
pub open spec fn is_frame(shot: Screenshot, tube: ParsedTube, i: int) -> bool {
    &&& tube.id == i
    &&& tube.width == TUBE_WIDTH
    &&& tube.height == TUBE_HEIGHT
    &&& tube.colors@.len() == 0
    &&& is_rim(shot, rim_x(tube), rim_y(tube))
}

/// The frames stand in the order in which the rim pixels that mark them
/// are read, and the rim pixel of each lies outside the frames before it.
pub open spec fn in_order(tubes: Seq<ParsedTube>) -> bool {
    forall|i: int, j: int|
        0 <= i < j < tubes.len() ==> {
            &&& read_before(
                rim_x(#[trigger] tubes[i]),
                rim_y(tubes[i]),
                rim_x(#[trigger] tubes[j]),
                rim_y(tubes[j]),
            )
            &&& !tubes[i].covers(rim_x(tubes[j]), rim_y(tubes[j]))
        }
}

/// `tubes` are the frames of the screenshot: each is marked by a rim pixel
/// outside the frames before it, they stand in the order in which their rim
/// pixels are read, and every rim pixel lies in a frame whose own rim pixel
/// is not read after it.
pub open spec fn frames(shot: Screenshot, tubes: Seq<ParsedTube>) -> bool {
    &&& forall|i: int| 0 <= i < tubes.len() ==> is_frame(shot, #[trigger] tubes[i], i)
    &&& in_order(tubes)
    &&& forall|x: int, y: int| #[trigger]
        is_rim(shot, x, y) ==> exists|i: int|
            0 <= i < tubes.len() && (#[trigger] tubes[i]).covers(x, y) && !read_before(
                x,
                y,
                rim_x(tubes[i]),
                rim_y(tubes[i]),
            )
}

/// Two tubes have the same number and frame and hold the same colors.
pub open spec fn same_tube(one: ParsedTube, other: ParsedTube) -> bool {
    &&& one.id == other.id
    &&& one.x == other.x
    &&& one.y == other.y
    &&& one.width == other.width
    &&& one.height == other.height
    &&& one.colors@ == other.colors@
}

/// What holds of the frames found when the pixels read before `(x, y)`
/// have been looked at: they are the frames of the picture as far as it
/// has been read, and every list of frames of the whole picture starts
/// with them and goes on with frames marked at `(x, y)` or later.
spec fn scanned_to(shot: Screenshot, tubes: Seq<ParsedTube>, x: int, y: int) -> bool {
    &&& forall|i: int| 0 <= i < tubes.len() ==> is_frame(shot, #[trigger] tubes[i], i)
    &&& in_order(tubes)
    &&& forall|i: int|
        0 <= i < tubes.len() ==> read_before(rim_x(#[trigger] tubes[i]), rim_y(tubes[i]), x, y)
    &&& forall|u: int, v: int| #[trigger]
        is_rim(shot, u, v) && read_before(u, v, x, y) ==> exists|i: int|
            0 <= i < tubes.len() && (#[trigger] tubes[i]).covers(u, v) && !read_before(
                u,
                v,
                rim_x(tubes[i]),
                rim_y(tubes[i]),
            )
    &&& forall|all: Seq<ParsedTube>| #[trigger] frames(shot, all) ==> extends(all, tubes, x, y)
}

/// `all` starts with `tubes` and goes on with frames marked at `(x, y)` or
/// later.
spec fn extends(all: Seq<ParsedTube>, tubes: Seq<ParsedTube>, x: int, y: int) -> bool {
    &&& tubes.len() <= all.len()
    &&& forall|i: int| 0 <= i < tubes.len() ==> same_tube(#[trigger] all[i], tubes[i])
    &&& forall|i: int|
        tubes.len() <= i < all.len() ==> !read_before(rim_x(#[trigger] all[i]), rim_y(all[i]), x, y)
}

/// The pixel of `shot` at the place where the next color of `tube` is
/// sampled, when the lowest sample lies `lowest` rows below the top of the
/// frame, or `None` if that place is no pixel of the picture.
pub open spec fn sample_of(shot: Screenshot, tube: ParsedTube, lowest: u32) -> Option<[u8; 3]> {
    match tube.sample_place(lowest, tube.colors@.len() as usize) {
        Some((x, y)) => if x < row_width(shot) && y < pixel_rows(shot).len() {
            Some(pixel_rows(shot)[y][x])
        } else {
            None
        },
        None => None,
    }
}

/// Reads the pixel from which the next color of `tube` is taken: the one
/// in the middle column of the frame, one step above the last sample, or
/// `lowest` rows below the top of the frame for the first. `None` says
/// that this place lies outside the picture.
pub fn next_sample(shot: &Screenshot, tube: &ParsedTube, lowest: u32) -> (pixel: Option<[u8; 3]>)
    ensures
        pixel == sample_of(*shot, *tube, lowest),
{
    match tube.sample_point(lowest, tube.colors.len()) {
        Some((x, y)) => {
            if x < shot_width(shot) && y < shot_height(shot) {
                Some(shot_pixel(shot, x, y))
            } else {
                None
            }
        },
        None => None,
    }
}

/// Whether the point `(x, y)` lies in one of the frames.
fn covered(tubes: &Vec<ParsedTube>, x: u32, y: u32) -> (within: bool)
    ensures
        within == exists|i: int|
            0 <= i < tubes@.len() && (#[trigger] tubes@[i]).covers(x as int, y as int),
{
    let mut i: usize = 0;
    while i < tubes.len()
        invariant
            i <= tubes.len(),
            forall|j: int| 0 <= j < i ==> !(#[trigger] tubes@[j]).covers(x as int, y as int),
        decreases tubes.len() - i,
    {
        if tubes[i].inside(x, y) {
            return true;
        }
        i += 1;
    }
    false
}

/// A pixel that marks no new frame leaves the frames found as they are.
proof fn lemma_pixel_passed(shot: Screenshot, tubes: Seq<ParsedTube>, x: int, y: int)
    requires
        scanned_to(shot, tubes, x, y),
        0 <= x < row_width(shot),
        !is_rim(shot, x, y) || exists|i: int|
            0 <= i < tubes.len() && (#[trigger] tubes[i]).covers(x, y),
    ensures
        scanned_to(shot, tubes, x + 1, y),
{
    assert forall|all: Seq<ParsedTube>| #[trigger] frames(shot, all) implies extends(
        all,
        tubes,
        x + 1,
        y,
    ) by {
        assert forall|i: int| tubes.len() <= i < all.len() implies !read_before(
            rim_x(#[trigger] all[i]),
            rim_y(all[i]),
            x + 1,
            y,
        ) by {
            // A frame is marked by a rim pixel outside the frames before it,
            // so none is marked at `(x, y)`.
            if rim_x(all[i]) == x && rim_y(all[i]) == y {
                assert(is_frame(shot, all[i], i));
                if is_rim(shot, x, y) {
                    let j = choose|j: int|
                        0 <= j < tubes.len() && (#[trigger] tubes[j]).covers(x, y);
                    assert(same_tube(all[j], tubes[j]));
                }
            }
        }
    }
}

/// A rim pixel that lies in no frame found so far marks the next frame.
proof fn lemma_pixel_marks(
    shot: Screenshot,
    tubes: Seq<ParsedTube>,
    x: int,
    y: int,
    tube: ParsedTube,
)
    requires
        scanned_to(shot, tubes, x, y),
        is_rim(shot, x, y),
        forall|i: int| 0 <= i < tubes.len() ==> !(#[trigger] tubes[i]).covers(x, y),
        tube.id == tubes.len(),
        tube.x == x - RIM_LEFT,
        tube.y == y - RIM_TOP,
        tube.width == TUBE_WIDTH,
        tube.height == TUBE_HEIGHT,
        tube.colors@.len() == 0,
    ensures
        scanned_to(shot, tubes.push(tube), x + 1, y),
{
    let more = tubes.push(tube);
    let last = tubes.len() as int;
    assert(more[last] == tube);
    assert forall|i: int| 0 <= i < more.len() implies is_frame(shot, #[trigger] more[i], i) by {
        if i < last {
            assert(more[i] == tubes[i]);
        }
    }
    assert forall|i: int, j: int| 0 <= i < j < more.len() implies {
        &&& read_before(
            rim_x(#[trigger] more[i]),
            rim_y(more[i]),
            rim_x(#[trigger] more[j]),
            rim_y(more[j]),
        )
        &&& !more[i].covers(rim_x(more[j]), rim_y(more[j]))
    } by {
        assert(more[i] == tubes[i]);
        if j < last {
            assert(more[j] == tubes[j]);
        }
    }
    assert forall|u: int, v: int| #[trigger]
        is_rim(shot, u, v) && read_before(u, v, x + 1, y) implies exists|i: int|
        0 <= i < more.len() && (#[trigger] more[i]).covers(u, v) && !read_before(
            u,
            v,
            rim_x(more[i]),
            rim_y(more[i]),
        ) by {
        // The pixel `(x, y)` lies in the new frame, a pixel read before it in
        // the frame that held it so far.
        if u != x || v != y {
            let i = choose|i: int|
                0 <= i < tubes.len() && (#[trigger] tubes[i]).covers(u, v) && !read_before(
                    u,
                    v,
                    rim_x(tubes[i]),
                    rim_y(tubes[i]),
                );
            assert(more[i] == tubes[i]);
        }
    }
    assert forall|all: Seq<ParsedTube>| #[trigger] frames(shot, all) implies extends(
        all,
        more,
        x + 1,
        y,
    ) by {
        lemma_next_frame(shot, tubes, x, y, all);
        assert(is_frame(shot, all[last], last));
        assert(all[last].colors@ =~= tube.colors@);
    }
}

/// Where a rim pixel lies in no frame found so far, every list of frames
/// of the whole picture goes on with a frame marked at that pixel.
proof fn lemma_next_frame(
    shot: Screenshot,
    tubes: Seq<ParsedTube>,
    x: int,
    y: int,
    all: Seq<ParsedTube>,
)
    requires
        scanned_to(shot, tubes, x, y),
        is_rim(shot, x, y),
        forall|i: int| 0 <= i < tubes.len() ==> !(#[trigger] tubes[i]).covers(x, y),
        frames(shot, all),
    ensures
        tubes.len() < all.len(),
        rim_x(all[tubes.len() as int]) == x,
        rim_y(all[tubes.len() as int]) == y,
{
}

/// When a row has been read, the next one is begun.
proof fn lemma_row_done(shot: Screenshot, tubes: Seq<ParsedTube>, y: int)
    requires
        scanned_to(shot, tubes, row_width(shot) as int, y),
    ensures
        scanned_to(shot, tubes, 0, y + 1),
{
    assert forall|all: Seq<ParsedTube>| #[trigger] frames(shot, all) implies extends(
        all,
        tubes,
        0,
        y + 1,
    ) by {
        assert forall|i: int| tubes.len() <= i < all.len() implies !read_before(
            rim_x(#[trigger] all[i]),
            rim_y(all[i]),
            0,
            y + 1,
        ) by {
            assert(is_frame(shot, all[i], i));
        }
    }
}

/// Before the first row that is read, no frame has been found.
proof fn lemma_scan_start(shot: Screenshot)
    ensures
        scanned_to(shot, Seq::<ParsedTube>::empty(), 0, FIRST_ROW as int),
{
    let none = Seq::<ParsedTube>::empty();
    assert forall|all: Seq<ParsedTube>| #[trigger] frames(shot, all) implies extends(
        all,
        none,
        0,
        FIRST_ROW as int,
    ) by {
        assert forall|i: int| 0 <= i < all.len() implies !read_before(
            rim_x(#[trigger] all[i]),
            rim_y(all[i]),
            0,
            FIRST_ROW as int,
        ) by {
            assert(is_frame(shot, all[i], i));
        }
    }
}

/// When every row has been read, the frames found are the frames of the
/// picture, and no other list is.
proof fn lemma_scan_done(shot: Screenshot, tubes: Seq<ParsedTube>, y: int)
    requires
        scanned_to(shot, tubes, 0, y),
        y + BOTTOM_MARGIN >= pixel_rows(shot).len(),
    ensures
        frames(shot, tubes),
        forall|all: Seq<ParsedTube>| #[trigger]
            frames(shot, all) ==> all.len() == tubes.len() && forall|i: int|
                0 <= i < tubes.len() ==> same_tube(#[trigger] all[i], tubes[i]),
{
    assert forall|all: Seq<ParsedTube>| #[trigger] frames(shot, all) implies all.len()
        == tubes.len() && forall|i: int|
        0 <= i < tubes.len() ==> same_tube(#[trigger] all[i], tubes[i]) by {
        if all.len() > tubes.len() {
            let i = tubes.len() as int;
            assert(is_frame(shot, all[i], i));
        }
    }
}

/// Finds the frames of the tubes on a screenshot, in the order in which
/// their rim pixels are read, numbered from 0 and without colors. `None`
/// says that the picture has no list of frames: some rim pixel outside
/// every earlier frame lies too near the left edge to mark a frame.
pub fn find_tubes(shot: &Screenshot) -> (found: Option<Vec<ParsedTube>>)
    ensures
        match found {
            Some(tubes) => {
                &&& frames(*shot, tubes@)
                &&& forall|all: Seq<ParsedTube>| #[trigger]
                    frames(*shot, all) ==> all.len() == tubes@.len() && forall|i: int|
                        0 <= i < tubes@.len() ==> same_tube(#[trigger] all[i], tubes@[i])
            },
            None => forall|all: Seq<ParsedTube>| !frames(*shot, all),
        },
{
    let width = shot_width(shot);
    let height = shot_height(shot);
    let mut tubes: Vec<ParsedTube> = Vec::new();
    let mut y: u32 = FIRST_ROW;
    proof {
        lemma_scan_start(*shot);
    }
    while y < height && height - y > BOTTOM_MARGIN
        invariant
            width == row_width(*shot),
            height == pixel_rows(*shot).len(),
            FIRST_ROW <= y,
            scanned_to(*shot, tubes@, 0, y as int),
        decreases height - y,
    {
        let mut x: u32 = 0;
        while x < width
            invariant
                width == row_width(*shot),
                height == pixel_rows(*shot).len(),
                FIRST_ROW <= y,
                y + BOTTOM_MARGIN < height,
                x <= width,
                scanned_to(*shot, tubes@, x as int, y as int),
            decreases width - x,
        {
            if !covered(&tubes, x, y) && pack(&shot_pixel(shot, x, y)) == RIM_COLOR {
                if x < RIM_LEFT {
                    proof {
                        assert forall|all: Seq<ParsedTube>| !frames(*shot, all) by {
                            if frames(*shot, all) {
                                lemma_next_frame(*shot, tubes@, x as int, y as int, all);
                            }
                        }
                    }
                    return None;
                }
                let tube = ParsedTube::new(
                    tubes.len(),
                    x - RIM_LEFT,
                    y - RIM_TOP,
                    TUBE_WIDTH,
                    TUBE_HEIGHT,
                );
                proof {
                    lemma_pixel_marks(*shot, tubes@, x as int, y as int, tube);
                }
                tubes.push(tube);
            } else {
                proof {
                    lemma_pixel_passed(*shot, tubes@, x as int, y as int);
                }
            }
            x += 1;
        }
        proof {
            lemma_row_done(*shot, tubes@, y as int);
        }
        y += 1;
    }
    proof {
        lemma_scan_done(*shot, tubes@, y as int);
    }
    Some(tubes)
}

} // verus!
