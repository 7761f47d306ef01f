//! The turtle rasterizer: it reads a word symbol by symbol and draws.
//!
//! | symbol | what the turtle does |
//! |---|---|
//! | `1` | draws a long stroke along its heading and moves to the end of it |
//! | `0` | draws a short stroke in the same way |
//! | `[` | saves its position and heading, then turns by the branch angle |
//! | `]` | takes back the position and heading saved last, then turns back by the branch angle |
//!
//! Every other symbol is passed over. Headings are whole degrees in
//! `[0, 360)`; 90 points up. A stroke advances one pixel at a time along one
//! of eight directions, and is left out altogether where it starts too close
//! to an edge of the canvas.
use crate::canvas::{black, blank, plot, rectangular, Canvas};
use vstd::prelude::*;

verus! {

/// Where the turtle is and where it points.
pub struct Pose {
    pub x: int,
    pub y: int,
    pub heading: int,
}

/// The heading `heading` turned by `by` degrees, brought into `[0, 360)`.
pub open spec fn turn(heading: int, by: int) -> int {
    (heading + by) % 360
}

/// The step `(dx, dy)` that a stroke takes per pixel for a heading: the
/// headings from 0 to 360 fall into eight ranges of 45 degrees, and the last
/// of them takes in 360.
pub open spec fn octant_step(heading: int) -> (int, int) {
    if heading < 45 {
        (1, 0)
    } else if heading < 90 {
        (1, -1)
    } else if heading < 135 {
        (0, -1)
    } else if heading < 180 {
        (-1, -1)
    } else if heading < 225 {
        (-1, 0)
    } else if heading < 270 {
        (-1, 1)
    } else if heading < 315 {
        (0, 1)
    } else {
        (1, 1)
    }
}

/// The coordinate reached from `from` after `len` steps of `d`, where `d`
/// is -1, 0 or 1.
pub open spec fn reach(from: int, d: int, len: int) -> int {
    if d > 0 {
        from + len
    } else if d < 0 {
        from - len
    } else {
        from
    }
}

/// Whether a stroke of `len` pixels may start at `(x, y)`: the start lies
/// more than `len` pixels away from every edge of the canvas.
pub open spec fn stroke_fits(canvas: Seq<Seq<(u8, u8, u8)>>, x: int, y: int, len: int) -> bool {
    &&& len < y
    &&& y + len + 1 < canvas.len()
    &&& len < x
    &&& x + len + 1 < canvas[y].len()
}

/// The canvas after a stroke of `len` pixels that leaves `(x, y)` by steps
/// of `(dx, dy)`: the `len` pixels after `(x, y)` are black, `(x, y)` itself
/// is not touched.
pub open spec fn stroke(
    canvas: Seq<Seq<(u8, u8, u8)>>,
    x: int,
    y: int,
    dx: int,
    dy: int,
    len: nat,
) -> Seq<Seq<(u8, u8, u8)>>
    decreases len,
{
    if len == 0 {
        canvas
    } else {
        stroke(plot(canvas, x + dx, y + dy, black()), x + dx, y + dy, dx, dy, (len - 1) as nat)
    }
}

/// The canvas and the position after a line of `len` pixels is asked for at
/// `(x, y)` with the given heading: the line is drawn whole where it fits and
/// left out where it does not.
pub open spec fn line(canvas: Seq<Seq<(u8, u8, u8)>>, x: int, y: int, len: nat, heading: int) -> (
    Seq<Seq<(u8, u8, u8)>>,
    int,
    int,
) {
    let (dx, dy) = octant_step(heading);
    if stroke_fits(canvas, x, y, len as int) {
        (stroke(canvas, x, y, dx, dy, len), reach(x, dx, len as int), reach(y, dy, len as int))
    } else {
        (canvas, x, y)
    }
}

/// Brings an angle in degrees into `[0, 360)`.
pub fn normalize(angle: i32) -> (r: i16)
    ensures
        r == angle as int % 360,
        0 <= r < 360,
{
    let a: i64 = angle as i64;
    if a >= 0 {
        (a % 360) as i16
    } else {
        let m: i64 = (-a) % 360;
        if m == 0 {
            0
        } else {
            (360 - m) as i16
        }
    }
}

/// The step per pixel for a heading between 0 and 360.
pub fn octant(heading: i16) -> (d: (i8, i8))
    requires
        0 <= heading <= 360,
    ensures
        (d.0 as int, d.1 as int) == octant_step(heading as int),
{
    if heading < 45 {
        (1, 0)
    } else if heading < 90 {
        (1, -1)
    } else if heading < 135 {
        (0, -1)
    } else if heading < 180 {
        (-1, -1)
    } else if heading < 225 {
        (-1, 0)
    } else if heading < 270 {
        (-1, 1)
    } else if heading < 315 {
        (0, 1)
    } else {
        (1, 1)
    }
}

/// A coordinate one step of `d` further.
fn shift(from: u32, d: i8) -> (to: u32)
    requires
        -1 <= d <= 1,
        0 <= from + d <= u32::MAX,
    ensures
        to == from + d,
{
    if d > 0 {
        from + 1
    } else if d < 0 {
        from - 1
    } else {
        from
    }
}

/// Draws a black line of `size` pixels from `position` along the heading
/// `angle` and moves `position` to its end. Where `position` lies within
/// `size` pixels of an edge of the canvas, nothing is drawn and `position`
/// stays.
pub fn draw_line(canvas: &mut Canvas, position: &mut (u32, u32), size: u32, angle: i16)
    requires
        old(canvas).wf(),
        0 <= angle <= 360,
    ensures
        final(canvas).wf(),
        final(canvas).width() == old(canvas).width(),
        final(canvas).height() == old(canvas).height(),
        (final(canvas)@, final(position).0 as int, final(position).1 as int) == line(
            old(canvas)@,
            old(position).0 as int,
            old(position).1 as int,
            size as nat,
            angle as int,
        ),
{
    let width = canvas.width();
    let height = canvas.height();
    let (x, y) = *position;
    if x <= size || x as u64 + size as u64 + 1 >= width as u64 {
        return ;
    }
    if y <= size || y as u64 + size as u64 + 1 >= height as u64 {
        return ;
    }
    let (dx, dy) = octant(angle);
    let mut done: u32 = 0;
    while done < size
        invariant
            canvas.wf(),
            canvas.width() == width,
            canvas.height() == height,
            done <= size,
            size < x,
            x + size + 1 < width,
            size < y,
            y + size + 1 < height,
            -1 <= dx <= 1,
            -1 <= dy <= 1,
            position.0 == reach(x as int, dx as int, done as int),
            position.1 == reach(y as int, dy as int, done as int),
            stroke(
                canvas@,
                position.0 as int,
                position.1 as int,
                dx as int,
                dy as int,
                (size - done) as nat,
            ) == stroke(old(canvas)@, x as int, y as int, dx as int, dy as int, size as nat),
        decreases size - done,
    {
        position.0 = shift(position.0, dx);
        position.1 = shift(position.1, dy);
        canvas.paint(position.0, position.1, (0, 0, 0));
        done = done + 1;
    }
}

/// What the turtle has drawn, where it stands, and the poses it has saved,
/// the one saved last at the end.
pub struct Scene {
    pub canvas: Seq<Seq<(u8, u8, u8)>>,
    pub pose: Pose,
    pub stack: Seq<Pose>,
}

/// The scene before the first symbol: a white canvas, the turtle at its
/// centre pointing up, nothing saved.
pub open spec fn start(width: int, height: int) -> Scene {
    Scene {
        canvas: blank(width, height),
        pose: Pose { x: (width - 1) / 2, y: (height - 1) / 2, heading: 90 },
        stack: Seq::empty(),
    }
}

/// The scene after the turtle was asked to draw a line of `len` pixels.
pub open spec fn forward(s: Scene, len: nat) -> Scene {
    let (canvas, x, y) = line(s.canvas, s.pose.x, s.pose.y, len, s.pose.heading);
    Scene { canvas, pose: Pose { x, y, heading: s.pose.heading }, stack: s.stack }
}

/// Whether reading `symbols` with `depth` poses saved never asks for a saved
/// pose when none is left.
pub open spec fn pops_covered(symbols: Seq<char>, depth: int) -> bool
    decreases symbols.len(),
{
    if symbols.len() == 0 {
        true
    } else if symbols[0] == '[' {
        pops_covered(symbols.drop_first(), depth + 1)
    } else if symbols[0] == ']' {
        depth > 0 && pops_covered(symbols.drop_first(), depth - 1)
    } else {
        pops_covered(symbols.drop_first(), depth)
    }
}

/// The lengths of the two strokes and the angle by which the brackets turn
/// the turtle.
#[derive(Clone, Copy, Debug)]
pub struct Rasterizer {
    /// The length in pixels of the stroke that `1` draws.
    pub stroke_length: u32,
    /// The length in pixels of the stroke that `0` draws.
    pub leaf_length: u32,
    /// The angle in degrees by which `[` turns the turtle, and `]` turns it back.
    pub branch_angle: i16,
}

impl Rasterizer {
    /// The scene after one symbol, or `None` where the symbol is `]` and no
    /// pose is saved.
    pub open spec fn step(self, s: Scene, c: char) -> Option<Scene> {
        if c == '1' {
            Some(forward(s, self.stroke_length as nat))
        } else if c == '0' {
            Some(forward(s, self.leaf_length as nat))
        } else if c == '[' {
            Some(
                Scene {
                    canvas: s.canvas,
                    pose: Pose { heading: turn(s.pose.heading, self.branch_angle as int), ..s.pose },
                    stack: s.stack.push(s.pose),
                },
            )
        } else if c == ']' {
            if s.stack.len() == 0 {
                None
            } else {
                let saved = s.stack.last();
                Some(
                    Scene {
                        canvas: s.canvas,
                        pose: Pose {
                            heading: turn(saved.heading, -(self.branch_angle as int)),
                            ..saved
                        },
                        stack: s.stack.drop_last(),
                    },
                )
            }
        } else {
            Some(s)
        }
    }

    /// The scene after the symbols were read from left to right, or `None`
    /// where one of them asked for a saved pose when none was left.
    pub open spec fn run(self, s: Scene, symbols: Seq<char>) -> Option<Scene>
        decreases symbols.len(),
    {
        if symbols.len() == 0 {
            Some(s)
        } else {
            match self.step(s, symbols[0]) {
                Some(next) => self.run(next, symbols.drop_first()),
                None => None,
            }
        }
    }

    /// The rasterizer of the fractal plant: strokes of 5 and 3 pixels,
    /// branches at 45 degrees.
    pub fn standard() -> (r: Rasterizer)
        ensures
            r == (Rasterizer { stroke_length: 5, leaf_length: 3, branch_angle: 45 }),
    {
        Rasterizer { stroke_length: 5, leaf_length: 3, branch_angle: 45 }
    }

    /// Draws `symbols` on a white canvas of the given size, starting at its
    /// centre with the turtle pointing up.
    pub fn render(&self, symbols: &str, width: u32, height: u32) -> (canvas: Canvas)
        requires
            width > 0,
            height > 0,
            3 * width * height <= isize::MAX,
            pops_covered(symbols@, 0),
        ensures
            canvas.wf(),
            canvas.width() == width,
            canvas.height() == height,
            self.run(start(width as int, height as int), symbols@) matches Some(s) && s.canvas
                == canvas@,
    {
        let mut canvas = Canvas::new(width, height);
        let mut position: (u32, u32) = ((width - 1) / 2, (height - 1) / 2);
        let mut angle: i16 = 90;
        let mut stack: Vec<(u32, u32, i16)> = Vec::new();
        let ghost word = symbols@;
        let ghost first = start(width as int, height as int);
        let ghost mut scene = first;
        proof {
            assert(poses(stack@) == Seq::<Pose>::empty());
            assert(word.skip(0) == word);
        }
        for c in it: symbols.chars()
            invariant
                it.seq() == word,
                canvas.wf(),
                canvas.width() == width,
                canvas.height() == height,
                0 <= angle < 360,
                scene == (Scene {
                    canvas: canvas@,
                    pose: pose_of((position.0, position.1, angle)),
                    stack: poses(stack@),
                }),
                pops_covered(word.skip(it.index()), stack.len() as int),
                self.run(first, word) == self.run(scene, word.skip(it.index())),
        {
            proof {
                let i = it.index();
                assert(word.skip(i).drop_first() == word.skip(i + 1));
                assert(word.skip(i)[0] == c);
            }
            let ghost saved = stack@;
            if c == '1' {
                draw_line(&mut canvas, &mut position, self.stroke_length, angle);
            } else if c == '0' {
                draw_line(&mut canvas, &mut position, self.leaf_length, angle);
            } else if c == '[' {
                stack.push((position.0, position.1, angle));
                angle = normalize(angle as i32 + self.branch_angle as i32);
                proof {
                    assert(poses(stack@) == poses(saved).push(pose_of(stack@.last())));
                }
            } else if c == ']' {
                let (x, y, heading) = stack.pop().unwrap();
                position = (x, y);
                angle = normalize(heading as i32 - self.branch_angle as i32);
                proof {
                    assert(poses(stack@) == poses(saved).drop_last());
                }
            }
            proof {
                scene = self.step(scene, c).unwrap();
            }
        }
        proof {
            assert(word.skip(word.len() as int) == Seq::<char>::empty());
        }
        canvas
    }
}

/// The pose that a saved triple of x, y and heading stands for.
spec fn pose_of(t: (u32, u32, i16)) -> Pose {
    Pose { x: t.0 as int, y: t.1 as int, heading: t.2 as int }
}

/// The poses that saved triples stand for.
spec fn poses(stack: Seq<(u32, u32, i16)>) -> Seq<Pose> {
    stack.map_values(|t: (u32, u32, i16)| pose_of(t))
}

/// Decides whether `symbols` can be drawn: whether every `]` in it finds a
/// pose that an earlier `[` has saved.
pub fn never_pops_empty(symbols: &str) -> (ok: bool)
    ensures
        ok == pops_covered(symbols@, 0),
{
    let n = symbols.unicode_len();
    let ghost word = symbols@;
    let mut depth: usize = 0;
    proof {
        assert(word.skip(0) == word);
    }
    for c in it: symbols.chars()
        invariant
            it.seq() == word,
            word == symbols@,
            word.len() == n,
            depth <= it.index(),
            pops_covered(word, 0) == pops_covered(word.skip(it.index()), depth as int),
    {
        proof {
            let i = it.index();
            assert(word.skip(i).drop_first() == word.skip(i + 1));
            assert(word.skip(i)[0] == c);
        }
        if c == '[' {
            depth = depth + 1;
        } else if c == ']' {
            if depth == 0 {
                return false;
            }
            depth = depth - 1;
        }
    }
    proof {
        assert(word.skip(word.len() as int) == Seq::<char>::empty());
    }
    true
}

} // verus!
