//! What holds of the turtle for every word: when a word can be drawn, what
//! a pair of brackets does to the turtle, and what a stroke paints.
use crate::canvas::{black, plot, rectangular};
use crate::turtle::{
    line, octant_step, pops_covered, reach, stroke, stroke_fits, turn, Pose, Rasterizer, Scene,
};
use vstd::prelude::*;

verus! {

/// What a symbol adds to the number of saved poses.
pub open spec fn weight(c: char) -> int {
    if c == '[' {
        1
    } else if c == ']' {
        -1
    } else {
        0
    }
}

/// The number of `[` in `symbols` less the number of `]`.
pub open spec fn surplus(symbols: Seq<char>) -> int
    decreases symbols.len(),
{
    if symbols.len() == 0 {
        0
    } else {
        weight(symbols[0]) + surplus(symbols.drop_first())
    }
}

/// Whether the brackets of `symbols` are balanced: there are as many `[` as
/// `]`, and no `]` comes before the `[` that it closes.
pub open spec fn balanced(symbols: Seq<char>) -> bool {
    &&& surplus(symbols) == 0
    &&& forall|k: int| 0 <= k <= symbols.len() ==> surplus(#[trigger] symbols.take(k)) >= 0
}

/// Whether some `]` of `symbols` has no `[` before it left to close.
pub open spec fn has_unmatched_close(symbols: Seq<char>) -> bool {
    exists|k: int| 0 <= k <= symbols.len() && surplus(#[trigger] symbols.take(k)) < 0
}

/// Whether every heading of the scene, the turtle's and the saved ones, lies
/// in `[0, 360)`.
pub open spec fn headings_normal(s: Scene) -> bool {
    &&& 0 <= s.pose.heading < 360
    &&& forall|i: int| 0 <= i < s.stack.len() ==> 0 <= (#[trigger] s.stack[i]).heading < 360
}

proof fn lemma_surplus_of_prefix(symbols: Seq<char>, k: int)
    requires
        1 <= k <= symbols.len(),
    ensures
        surplus(symbols.take(k)) == weight(symbols[0]) + surplus(symbols.drop_first().take(k - 1)),
{
    assert(symbols.take(k).drop_first() == symbols.drop_first().take(k - 1));
}

/// A word can be read with `depth` poses saved exactly when in each of its
/// prefixes the `]` outnumber the `[` by `depth` at most.
pub proof fn lemma_pops_covered_by_prefixes(symbols: Seq<char>, depth: int)
    requires
        depth >= 0,
    ensures
        pops_covered(symbols, depth) <==> forall|k: int|
            0 <= k <= symbols.len() ==> surplus(#[trigger] symbols.take(k)) + depth >= 0,
    decreases symbols.len(),
{
    if symbols.len() == 0 {
        assert forall|k: int| 0 <= k <= symbols.len() implies surplus(
            #[trigger] symbols.take(k),
        ) + depth >= 0 by {
            assert(symbols.take(k) == symbols);
        }
    } else {
        let rest = symbols.drop_first();
        let below = depth + weight(symbols[0]);
        lemma_surplus_of_prefix(symbols, 1);
        assert(rest.take(0).len() == 0);
        if below < 0 {
            assert(surplus(symbols.take(1)) + depth < 0);
        } else {
            lemma_pops_covered_by_prefixes(rest, below);
            if pops_covered(symbols, depth) {
                assert forall|k: int| 0 <= k <= symbols.len() implies surplus(
                    #[trigger] symbols.take(k),
                ) + depth >= 0 by {
                    if k == 0 {
                        assert(symbols.take(0).len() == 0);
                    } else {
                        lemma_surplus_of_prefix(symbols, k);
                        assert(surplus(rest.take(k - 1)) + below >= 0);
                    }
                }
            }
            if forall|k: int|
                0 <= k <= symbols.len() ==> surplus(#[trigger] symbols.take(k)) + depth >= 0 {
                assert forall|j: int| 0 <= j <= rest.len() implies surplus(#[trigger] rest.take(j))
                    + below >= 0 by {
                    lemma_surplus_of_prefix(symbols, j + 1);
                    assert(surplus(symbols.take(j + 1)) + depth >= 0);
                }
            }
        }
    }
}

/// Reading a word in two parts is reading the whole.
pub proof fn lemma_run_concat(cfg: Rasterizer, s: Scene, a: Seq<char>, b: Seq<char>)
    ensures
        cfg.run(s, a + b) == match cfg.run(s, a) {
            Some(mid) => cfg.run(mid, b),
            None => None,
        },
    decreases a.len(),
{
    if a.len() == 0 {
        assert(a + b == b);
    } else {
        assert((a + b).drop_first() == a.drop_first() + b);
        match cfg.step(s, a[0]) {
            Some(next) => lemma_run_concat(cfg, next, a.drop_first(), b),
            None => {},
        }
    }
}

/// Reading a word of one symbol is one step.
pub proof fn lemma_run_one(cfg: Rasterizer, s: Scene, c: char)
    ensures
        cfg.run(s, seq![c]) == cfg.step(s, c),
{
    let word = seq![c];
    assert(word.drop_first().len() == 0);
    match cfg.step(s, c) {
        Some(next) => {
            assert(cfg.run(next, word.drop_first()) == Some(next));
        },
        None => {},
    }
}

/// A word can be drawn from a scene exactly when every `]` in it finds a
/// saved pose. Then the number of saved poses changes by the surplus of `[`.
pub proof fn lemma_run_defined(cfg: Rasterizer, s: Scene, symbols: Seq<char>)
    ensures
        cfg.run(s, symbols) is Some <==> pops_covered(symbols, s.stack.len() as int),
        cfg.run(s, symbols) matches Some(end) ==> end.stack.len() == s.stack.len() + surplus(
            symbols,
        ),
    decreases symbols.len(),
{
    if symbols.len() > 0 {
        match cfg.step(s, symbols[0]) {
            Some(next) => lemma_run_defined(cfg, next, symbols.drop_first()),
            None => {},
        }
    }
}

/// A word whose brackets are balanced can be drawn from any scene, and
/// leaves as many poses saved as it found.
pub proof fn lemma_balanced_word_is_drawn(cfg: Rasterizer, s: Scene, symbols: Seq<char>)
    requires
        balanced(symbols),
    ensures
        pops_covered(symbols, 0),
        cfg.run(s, symbols) matches Some(end) && end.stack.len() == s.stack.len(),
{
    lemma_pops_covered_by_prefixes(symbols, 0);
    lemma_pops_covered_by_prefixes(symbols, s.stack.len() as int);
    lemma_run_defined(cfg, s, symbols);
}

/// A word with a `]` that closes nothing cannot be drawn from a scene
/// without saved poses: the turtle would ask for a pose when none is left.
pub proof fn lemma_unmatched_close_is_not_drawn(cfg: Rasterizer, s: Scene, symbols: Seq<char>)
    requires
        s.stack.len() == 0,
        has_unmatched_close(symbols),
    ensures
        !pops_covered(symbols, 0),
        cfg.run(s, symbols) is None,
{
    lemma_pops_covered_by_prefixes(symbols, 0);
    lemma_run_defined(cfg, s, symbols);
}

/// Whatever the turtle reads, its heading and the saved headings stay in
/// `[0, 360)`.
pub proof fn lemma_headings_stay_normal(cfg: Rasterizer, s: Scene, symbols: Seq<char>)
    requires
        headings_normal(s),
    ensures
        cfg.run(s, symbols) matches Some(end) ==> headings_normal(end),
    decreases symbols.len(),
{
    if symbols.len() > 0 {
        match cfg.step(s, symbols[0]) {
            Some(next) => {
                lemma_headings_stay_normal(cfg, next, symbols.drop_first());
            },
            None => {},
        }
    }
}

/// Reading a word that takes back at most `depth` of the saved poses leaves
/// the poses below those as they were.
pub proof fn lemma_run_keeps_lower_stack(
    cfg: Rasterizer,
    s: Scene,
    symbols: Seq<char>,
    depth: int,
)
    requires
        0 <= depth <= s.stack.len(),
        pops_covered(symbols, depth),
    ensures
        cfg.run(s, symbols) matches Some(end) && end.stack.len() == s.stack.len() + surplus(
            symbols,
        ) && depth + surplus(symbols) >= 0 && end.stack.take(s.stack.len() - depth)
            == s.stack.take(s.stack.len() - depth),
    decreases symbols.len(),
{
    if symbols.len() > 0 {
        let next = cfg.step(s, symbols[0]).unwrap();
        let below = depth + weight(symbols[0]);
        lemma_run_keeps_lower_stack(cfg, next, symbols.drop_first(), below);
        let kept = s.stack.len() - depth;
        assert(next.stack.take(kept) == s.stack.take(kept));
    }
}

/// A pair of brackets around a balanced word brings the turtle back to
/// where it stood before the `[`, with the saved poses as they were, and
/// leaves it with the heading it had before the `[` turned back by the branch
/// angle, whatever the word between the brackets did. Where the branch angle
/// is a multiple of 360 degrees that is the heading before the `[` itself.
pub proof fn lemma_bracket_pair(cfg: Rasterizer, s: Scene, inner: Seq<char>)
    requires
        balanced(inner),
    ensures
        cfg.run(s, seq!['['] + inner + seq![']']) matches Some(end) && end.stack == s.stack
            && end.pose == (Pose {
            x: s.pose.x,
            y: s.pose.y,
            heading: turn(s.pose.heading, -(cfg.branch_angle as int)),
        }) && (cfg.branch_angle as int % 360 == 0 && 0 <= s.pose.heading < 360 ==> end.pose
            == s.pose),
{
    let open = seq!['['];
    let close = seq![']'];
    let pushed = cfg.step(s, '[').unwrap();
    lemma_run_one(cfg, s, '[');
    lemma_pops_covered_by_prefixes(inner, 0);
    lemma_run_keeps_lower_stack(cfg, pushed, inner, 0);
    let mid = cfg.run(pushed, inner).unwrap();
    assert(mid.stack == pushed.stack) by {
        assert(mid.stack.take(mid.stack.len() as int) == mid.stack);
        assert(pushed.stack.take(pushed.stack.len() as int) == pushed.stack);
    }
    lemma_run_concat(cfg, s, open, inner);
    lemma_run_concat(cfg, s, open + inner, close);
    let end = cfg.step(mid, ']').unwrap();
    lemma_run_one(cfg, mid, ']');
    assert(end.stack == s.stack);
}

/// Whether the pixel in column `c` of row `r` is one of the `len` pixels
/// that follow `(x, y)` in steps of `(dx, dy)`.
pub open spec fn on_stroke(c: int, r: int, x: int, y: int, dx: int, dy: int, len: nat) -> bool {
    exists|k: int| 1 <= k <= len && c == #[trigger] reach(x, dx, k) && r == reach(y, dy, k)
}

/// A stroke whose pixels all lie on the canvas paints those pixels black
/// and leaves every other pixel as it was.
pub proof fn lemma_stroke_paints(
    canvas: Seq<Seq<(u8, u8, u8)>>,
    width: int,
    height: int,
    x: int,
    y: int,
    dx: int,
    dy: int,
    len: nat,
)
    requires
        rectangular(canvas, width, height),
        -1 <= dx <= 1,
        -1 <= dy <= 1,
        0 <= reach(x, dx, 1) < width && 0 <= reach(x, dx, len as int) < width || len == 0,
        0 <= reach(y, dy, 1) < height && 0 <= reach(y, dy, len as int) < height || len == 0,
    ensures
        rectangular(stroke(canvas, x, y, dx, dy, len), width, height),
        forall|r: int, c: int|
            0 <= r < height && 0 <= c < width ==> #[trigger] stroke(
                canvas,
                x,
                y,
                dx,
                dy,
                len,
            )[r][c] == if on_stroke(c, r, x, y, dx, dy, len) {
                black()
            } else {
                canvas[r][c]
            },
    decreases len,
{
    let after = stroke(canvas, x, y, dx, dy, len);
    if len > 0 {
        let painted = plot(canvas, x + dx, y + dy, black());
        let rest = (len - 1) as nat;
        assert(reach(x, dx, 1) == x + dx && reach(y, dy, 1) == y + dy);
        assert(rectangular(painted, width, height));
        lemma_stroke_paints(painted, width, height, x + dx, y + dy, dx, dy, rest);
        assert forall|r: int, c: int| 0 <= r < height && 0 <= c < width implies #[trigger] after[r][c]
            == if on_stroke(c, r, x, y, dx, dy, len) {
            black()
        } else {
            canvas[r][c]
        } by {
            if on_stroke(c, r, x + dx, y + dy, dx, dy, rest) {
                let k = choose|k: int|
                    1 <= k <= rest && c == #[trigger] reach(x + dx, dx, k) && r == reach(
                        y + dy,
                        dy,
                        k,
                    );
                assert(c == reach(x, dx, k + 1) && r == reach(y, dy, k + 1));
            } else if c == x + dx && r == y + dy {
                assert(c == reach(x, dx, 1) && r == reach(y, dy, 1));
            } else if on_stroke(c, r, x, y, dx, dy, len) {
                let k = choose|k: int|
                    1 <= k <= len && c == #[trigger] reach(x, dx, k) && r == reach(y, dy, k);
                assert(c == reach(x + dx, dx, k - 1) && r == reach(y + dy, dy, k - 1));
            }
        }
    } else {
        assert forall|r: int, c: int| 0 <= r < height && 0 <= c < width implies !on_stroke(
            c,
            r,
            x,
            y,
            dx,
            dy,
            len,
        ) by {}
    }
}

/// A line that is drawn paints the pixels of its stroke and nothing else,
/// and a line that starts within its length of an edge paints nothing and
/// leaves the turtle where it stood.
pub proof fn lemma_line_paints(
    canvas: Seq<Seq<(u8, u8, u8)>>,
    width: int,
    height: int,
    x: int,
    y: int,
    len: nat,
    heading: int,
)
    requires
        rectangular(canvas, width, height),
    ensures
        ({
            let (after, end_x, end_y) = line(canvas, x, y, len, heading);
            let (dx, dy) = octant_step(heading);
            &&& rectangular(after, width, height)
            &&& stroke_fits(canvas, x, y, len as int) ==> {
                &&& end_x == reach(x, dx, len as int)
                &&& end_y == reach(y, dy, len as int)
                &&& forall|r: int, c: int|
                    0 <= r < height && 0 <= c < width ==> #[trigger] after[r][c] == if on_stroke(
                        c,
                        r,
                        x,
                        y,
                        dx,
                        dy,
                        len,
                    ) {
                        black()
                    } else {
                        canvas[r][c]
                    }
            }
            &&& !stroke_fits(canvas, x, y, len as int) ==> after == canvas && end_x == x && end_y
                == y
        }),
{
    let (dx, dy) = octant_step(heading);
    if stroke_fits(canvas, x, y, len as int) {
        lemma_stroke_paints(canvas, width, height, x, y, dx, dy, len);
    }
}

/// The pixels that a stroke of `len` pixels paints when it leaves `(x, y)`
/// straight up.
pub open spec fn upward_pixels(x: int, y: int, len: nat) -> Set<(int, int)> {
    Set::new(|p: (int, int)| p.0 == x && y - len <= p.1 < y)
}

proof fn lemma_upward_pixels_count(x: int, y: int, len: nat)
    ensures
        upward_pixels(x, y, len).finite(),
        upward_pixels(x, y, len).len() == len,
    decreases len,
{
    if len == 0 {
        assert(upward_pixels(x, y, len) == Set::<(int, int)>::empty());
    } else {
        lemma_upward_pixels_count(x, y, (len - 1) as nat);
        assert(upward_pixels(x, y, len) == upward_pixels(x, y, (len - 1) as nat).insert(
            (x, y - len),
        ));
    }
}

proof fn lemma_stroke_upward(canvas: Seq<Seq<(u8, u8, u8)>>, x: int, y: int, len: nat)
    requires
        0 <= y - len,
        y <= canvas.len(),
        forall|r: int| 0 <= r < canvas.len() ==> 0 <= x < (#[trigger] canvas[r]).len(),
    ensures
        ({
            let after = stroke(canvas, x, y, 0, -1, len);
            &&& after.len() == canvas.len()
            &&& forall|r: int|
                0 <= r < canvas.len() ==> (#[trigger] after[r]).len() == canvas[r].len()
            &&& forall|r: int, c: int|
                0 <= r < canvas.len() && 0 <= c < canvas[r].len() ==> #[trigger] after[r][c] == if c
                    == x && y - len <= r < y {
                    black()
                } else {
                    canvas[r][c]
                }
        }),
    decreases len,
{
    if len > 0 {
        let painted = plot(canvas, x, y - 1, black());
        assert forall|r: int| 0 <= r < painted.len() implies (#[trigger] painted[r]).len()
            == canvas[r].len() by {}
        lemma_stroke_upward(painted, x, y - 1, (len - 1) as nat);
    }
}

/// A stroke that starts farther than its length from every edge and points
/// straight up, at 90 degrees, paints exactly its length in pixels: the
/// pixels above its start, in the column of its start. Every other pixel
/// stays as it was, and the turtle ends on the topmost pixel painted.
pub proof fn lemma_upward_stroke(
    canvas: Seq<Seq<(u8, u8, u8)>>,
    width: int,
    height: int,
    x: int,
    y: int,
    len: nat,
)
    requires
        rectangular(canvas, width, height),
        stroke_fits(canvas, x, y, len as int),
    ensures
        ({
            let (after, end_x, end_y) = line(canvas, x, y, len, 90);
            &&& end_x == x
            &&& end_y == y - len
            &&& rectangular(after, width, height)
            &&& forall|r: int, c: int|
                0 <= r < height && 0 <= c < width ==> #[trigger] after[r][c] == if upward_pixels(
                    x,
                    y,
                    len,
                ).contains((c, r)) {
                    black()
                } else {
                    canvas[r][c]
                }
        }),
        upward_pixels(x, y, len).finite(),
        upward_pixels(x, y, len).len() == len,
{
    lemma_stroke_upward(canvas, x, y, len);
    lemma_upward_pixels_count(x, y, len);
}

} // verus!
