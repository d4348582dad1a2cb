//! Pixel bookkeeping of the gradient-domain path tracer: the four shifts of
//! a base pixel, which of them stay in the frame, and where the shifted
//! radiance and the finite difference of each shift are splatted.
use vstd::prelude::*;
use crate::sampler::{draw_of, lcg_next, IndependentSampler, ReplaySampler};

verus! {

/// Axis and sign of one shift.
#[derive(PartialEq, Eq, Structural, Clone, Copy, Debug)]
pub enum GradientDirection {
    X(i32),
    Y(i32),
}

/// Which gradient buffer a finite difference goes to.
#[derive(PartialEq, Eq, Structural, Clone, Copy, Debug)]
pub enum GradientAxis {
    X,
    Y,
}

/// Pixel offset of shift `i`: right, down, left, up.
pub open spec fn order_offset(i: int) -> (int, int) {
    if i == 0 {
        (1, 0)
    } else if i == 1 {
        (0, 1)
    } else if i == 2 {
        (-1, 0)
    } else {
        (0, -1)
    }
}

pub open spec fn direction_of(i: int) -> GradientDirection {
    if i == 0 {
        GradientDirection::X(1)
    } else if i == 1 {
        GradientDirection::Y(1)
    } else if i == 2 {
        GradientDirection::X(-1i32)
    } else {
        GradientDirection::Y(-1i32)
    }
}

/// Offset of shift `i`.
pub fn gradient_order(i: usize) -> (r: (i32, i32))
    requires
        i < 4,
    ensures
        (r.0 as int, r.1 as int) == order_offset(i as int),
{
    if i == 0 {
        (1, 0)
    } else if i == 1 {
        (0, 1)
    } else if i == 2 {
        (-1, 0)
    } else {
        (0, -1)
    }
}

/// Axis and sign of shift `i`.
pub fn gradient_direction(i: usize) -> (r: GradientDirection)
    requires
        i < 4,
    ensures
        r == direction_of(i as int),
{
    if i == 0 {
        GradientDirection::X(1)
    } else if i == 1 {
        GradientDirection::Y(1)
    } else if i == 2 {
        GradientDirection::X(-1)
    } else {
        GradientDirection::Y(-1)
    }
}

/// A pixel of the frame.
#[derive(PartialEq, Eq, Structural, Clone, Copy, Debug)]
pub struct Pixel {
    pub x: u32,
    pub y: u32,
}

/// Whether `(x, y)` lies in a frame of `width` by `height` pixels.
pub open spec fn in_frame(x: int, y: int, width: int, height: int) -> bool {
    0 <= x < width && 0 <= y < height
}

/// The pixel that shift `i` of `(ix, iy)` reaches, when it is in the frame.
pub open spec fn shifted(ix: int, iy: int, i: int, width: int, height: int) -> Option<Pixel> {
    let x = ix + order_offset(i).0;
    let y = iy + order_offset(i).1;
    if in_frame(x, y, width, height) {
        Some(Pixel { x: x as u32, y: y as u32 })
    } else {
        None
    }
}

/// The pixel that shift `i` of `(ix, iy)` reaches, or `None` outside the frame.
pub fn shift_pixel(ix: u32, iy: u32, i: usize, width: u32, height: u32) -> (r: Option<Pixel>)
    requires
        i < 4,
    ensures
        r == shifted(ix as int, iy as int, i as int, width as int, height as int),
{
    let (dx, dy) = gradient_order(i);
    let x: i64 = ix as i64 + dx as i64;
    let y: i64 = iy as i64 + dy as i64;
    if 0 <= x && x < width as i64 && 0 <= y && y < height as i64 {
        Some(Pixel { x: x as u32, y: y as u32 })
    } else {
        None
    }
}

/// Where a finite difference is accumulated.
#[derive(PartialEq, Eq, Structural, Clone, Copy, Debug)]
pub struct GradientSplat {
    pub axis: GradientAxis,
    pub at: Pixel,
    /// Whether the difference is negated first.
    pub negated: bool,
}

/// Where one shift of a base pixel is accumulated.
#[derive(PartialEq, Eq, Structural, Clone, Copy, Debug)]
pub struct Splat {
    /// Pixel of the primal buffer that receives the shifted radiance.
    pub radiance_at: Option<Pixel>,
    /// Where the difference goes, if anywhere.
    pub gradient_at: Option<GradientSplat>,
}

/// Where shift `i` of the base pixel `(ix, iy)` is splatted. The shifted
/// radiance goes to the shifted pixel. A shift towards increasing x (or y)
/// stores its difference at the base pixel; one towards decreasing x (or y)
/// stores the negated difference at the shifted pixel. Nothing is stored
/// outside the frame.
pub open spec fn splat_of(ix: int, iy: int, i: int, width: int, height: int) -> Splat {
    let s = shifted(ix, iy, i, width, height);
    let axis = if i == 0 || i == 2 {
        GradientAxis::X
    } else {
        GradientAxis::Y
    };
    Splat {
        radiance_at: s,
        gradient_at: if i == 0 || i == 1 {
            Some(GradientSplat { axis, at: Pixel { x: ix as u32, y: iy as u32 }, negated: false })
        } else {
            match s {
                Some(q) => Some(GradientSplat { axis, at: q, negated: true }),
                None => None,
            }
        },
    }
}

/// Where shift `i` of the base pixel `(ix, iy)` is splatted.
pub fn splat_plan(ix: u32, iy: u32, i: usize, width: u32, height: u32) -> (r: Splat)
    requires
        i < 4,
        ix < width,
        iy < height,
    ensures
        r == splat_of(ix as int, iy as int, i as int, width as int, height as int),
{
    let s = shift_pixel(ix, iy, i, width, height);
    let gradient_at = match gradient_direction(i) {
        GradientDirection::X(v) => {
            if v == 1 {
                Some(GradientSplat { axis: GradientAxis::X, at: Pixel { x: ix, y: iy }, negated: false })
            } else {
                match s {
                    Some(q) => Some(GradientSplat { axis: GradientAxis::X, at: q, negated: true }),
                    None => None,
                }
            }
        },
        GradientDirection::Y(v) => {
            if v == 1 {
                Some(GradientSplat { axis: GradientAxis::Y, at: Pixel { x: ix, y: iy }, negated: false })
            } else {
                match s {
                    Some(q) => Some(GradientSplat { axis: GradientAxis::Y, at: q, negated: true }),
                    None => None,
                }
            }
        },
    };
    Splat { radiance_at: s, gradient_at }
}

pub open spec fn diff_cell(axis: GradientAxis, x: int, y: int, negated: bool) -> GradientSplat {
    GradientSplat { axis, at: Pixel { x: x as u32, y: y as u32 }, negated }
}

/// Both estimates of one finite difference meet in one cell: for horizontal
/// neighbours `p` and `p + (1, 0)`, the shift right from `p` stores its
/// difference at `p`, and the shift left from `p + (1, 0)` stores its
/// negated difference at `p` too; likewise vertically. Either way the cell
/// accumulates the value of the higher pixel minus that of the lower.
pub proof fn lemma_gradient_pairs_meet(x: int, y: int, width: int, height: int)
    requires
        0 <= x,
        0 <= y,
        x < width <= u32::MAX,
        y < height <= u32::MAX,
    ensures
        x + 1 < width ==> {
            &&& splat_of(x, y, 0, width, height).gradient_at == Some(diff_cell(GradientAxis::X, x, y, false))
            &&& splat_of(x + 1, y, 2, width, height).gradient_at == Some(diff_cell(GradientAxis::X, x, y, true))
        },
        y + 1 < height ==> {
            &&& splat_of(x, y, 1, width, height).gradient_at == Some(diff_cell(GradientAxis::Y, x, y, false))
            &&& splat_of(x, y + 1, 3, width, height).gradient_at == Some(diff_cell(GradientAxis::Y, x, y, true))
        },
{
}

/// Every shifted radiance lands on a neighbour in the frame: pixel `q`
/// receives shift `i` of `p` exactly when `q` is `p` moved by shift `i`.
pub proof fn lemma_radiance_reuse(x: int, y: int, i: int, width: int, height: int)
    requires
        0 <= x < width <= u32::MAX,
        0 <= y < height <= u32::MAX,
        0 <= i < 4,
    ensures
        splat_of(x, y, i, width, height).radiance_at matches Some(q) ==> {
            &&& in_frame(q.x as int, q.y as int, width, height)
            &&& q.x as int == x + order_offset(i).0
            &&& q.y as int == y + order_offset(i).1
        },
        in_frame(x + order_offset(i).0, y + order_offset(i).1, width, height)
            ==> splat_of(x, y, i, width, height).radiance_at is Some,
{
}

/// One path traced for a sample: where, for which shift, and the replay
/// sampler's inner state and tape length when handed over and when left.
#[derive(Clone, Copy, Debug, PartialEq, Eq, Structural)]
pub struct TraceCall {
    pub pixel: Pixel,
    pub shift: Option<usize>,
    pub handed_state: u64,
    pub handed_tape: usize,
    pub left_state: u64,
    pub left_tape: usize,
}

/// The radiometric work of one gradient-domain sample, done by the
/// implementor: tracing and evaluating a path, and the survival lottery.
pub trait ShiftTracer: Sized {
    /// Whether the base path survives the lottery on draw `u`, in the
    /// tracer's present state.
    spec fn survival(&self, u: u32) -> bool;

    /// The paths traced so far, in order.
    spec fn calls(&self) -> Vec<TraceCall>;

    /// Traces and evaluates the path through `pixel` with the draws of
    /// `sampler`: the base path when `shift` is `None`, else shift `i`. The
    /// sampler is at the start of its tape, which is empty for the base path;
    /// the tracer only draws from it, so its tape only grows.
    fn trace(&mut self, sampler: &mut ReplaySampler, pixel: Pixel, shift: Option<usize>)
        requires
            old(sampler)@.wf(),
            old(sampler)@.cursor == 0,
            shift is None ==> old(sampler)@.tape.len() == 0,
        ensures
            final(sampler)@.wf(),
            old(sampler)@.tape.is_prefix_of(final(sampler)@.tape),
            final(self).calls()@ == old(self).calls()@.push(
                TraceCall {
                    pixel,
                    shift,
                    handed_state: old(sampler)@.state,
                    handed_tape: old(sampler)@.tape.len() as usize,
                    left_state: final(sampler)@.state,
                    left_tape: final(sampler)@.tape.len() as usize,
                },
            ),
    ;

    /// Whether the base path just traced goes through the survival lottery:
    /// the filter is on and the survival probability is below one.
    fn needs_lottery(&self) -> bool;

    /// The lottery on a draw `u` that no replay sees.
    fn survives(&mut self, u: u32) -> (r: bool)
        ensures
            r == old(self).survival(u),
            final(self).calls()@ == old(self).calls()@,
    ;
}

/// The shifts among the first `k` that stay in the frame, with their pixels.
pub open spec fn shift_targets(pixel: Pixel, width: u32, height: u32, k: nat) -> Seq<(Pixel, Option<usize>)>
    decreases k,
{
    if k == 0 {
        Seq::empty()
    } else {
        let s = shift_targets(pixel, width, height, (k - 1) as nat);
        match shifted(pixel.x as int, pixel.y as int, k - 1, width as int, height as int) {
            Some(q) => s.push((q, Some((k - 1) as usize))),
            None => s,
        }
    }
}

/// The inner state after the base path and the lottery, if there was one.
#[verifier::opaque]
pub open spec fn after_lottery(base: TraceCall, lottery: bool) -> u64 {
    if lottery {
        lcg_next(base.left_state)
    } else {
        base.left_state
    }
}

/// The sampler protocol of one sample, over the paths traced: each shift
/// path gets the tape as the previous path left it, from its start, and the
/// inner state as the previous path left it, the lottery's draw aside.
pub open spec fn chained(rec: Seq<TraceCall>, lottery: bool) -> bool {
    forall|k: int| 1 <= k < rec.len() ==> #[trigger] linked(rec, k, lottery)
}

/// Path `k` is handed what path `k - 1` left.
pub open spec fn linked(rec: Seq<TraceCall>, k: int, lottery: bool) -> bool {
    &&& rec[k].handed_tape == rec[k - 1].left_tape
    &&& rec[k].handed_state == (if k == 1 {
        after_lottery(rec[0], lottery)
    } else {
        rec[k - 1].left_state
    })
}

/// Inner state once the paths `rec` were traced.
pub open spec fn state_after(rec: Seq<TraceCall>, lottery: bool) -> u64 {
    if rec.len() <= 1 {
        after_lottery(rec[0], lottery)
    } else {
        rec.last().left_state
    }
}

/// One more shift path keeps the record in step with the targets.
proof fn lemma_shift_targets(rec: Seq<TraceCall>, c: TraceCall, pixel: Pixel, width: u32, height: u32, i: nat)
    requires
        i < 4,
        shifted(pixel.x as int, pixel.y as int, i as int, width as int, height as int) == Some(c.pixel),
        c.shift == Some(i as usize),
        rec.len() == 1 + shift_targets(pixel, width, height, i).len(),
        forall|k: int| 1 <= k < rec.len() ==> ((#[trigger] rec[k]).pixel, rec[k].shift) == shift_targets(pixel, width, height, i)[k - 1],
    ensures
        rec.push(c).len() == 1 + shift_targets(pixel, width, height, i + 1).len(),
        forall|k: int| 1 <= k < rec.push(c).len() ==> ((#[trigger] rec.push(c)[k]).pixel, rec.push(c)[k].shift) == shift_targets(pixel, width, height, i + 1)[k - 1],
{
    let t = shift_targets(pixel, width, height, i);
    let t2 = shift_targets(pixel, width, height, i + 1);
    assert(t2 == t.push((c.pixel, Some(i as usize))));
    let rec2 = rec.push(c);
    assert forall|k: int| 1 <= k < rec2.len() implies ((#[trigger] rec2[k]).pixel, rec2[k].shift) == t2[k - 1] by {
        if k < rec.len() {
            assert(rec2[k] == rec[k]);
            assert(t2[k - 1] == t[k - 1]);
        }
    }
}

/// One more shift path, handed what the previous one left, keeps the
/// sampler protocol.
proof fn lemma_shift_chained(rec: Seq<TraceCall>, c: TraceCall, lottery: bool)
    requires
        rec.len() >= 1,
        c.handed_tape == rec.last().left_tape,
        c.handed_state == state_after(rec, lottery),
        chained(rec, lottery),
    ensures
        chained(rec.push(c), lottery),
        rec.push(c)[0] == rec[0],
{
    let rec2 = rec.push(c);
    assert forall|k: int| 1 <= k < rec2.len() implies #[trigger] linked(rec2, k, lottery) by {
        assert(linked(rec, k, lottery) || k == rec.len());
        assert(rec2[0] == rec[0]);
        if k < rec.len() {
            assert(rec2[k] == rec[k]);
            assert(rec2[k - 1] == rec[k - 1]);
        } else {
            assert(rec2[k - 1] == rec.last());
        }
    }
}

/// What happened to the shifts of one sample.
pub struct ShiftOutcome {
    /// Whether the base path went through the survival lottery.
    pub lottery: bool,
    /// The draw of the lottery, when there was one.
    pub draw: Ghost<u32>,
    /// Whether the base path survived.
    pub survived: bool,
    /// For each shift, the pixel it was traced at, if it was.
    pub traced: Vec<Option<Pixel>>,
    /// The paths traced, base path first.
    pub calls: Ghost<Seq<TraceCall>>,
}

/// One gradient-domain sample of `pixel`. The base path is traced on an
/// empty tape. When the tracer asks for the survival lottery, one draw that
/// bypasses the tape decides it; otherwise the base survives. If it does,
/// each shift that stays in the frame is traced, in order, after a rewind,
/// so that it replays the base path's draws; no other draw is taken. Gives
/// back the wrapped sampler and the tracer as the lottery saw it.
pub fn trace_shifts<T: ShiftTracer>(
    tracer: &mut T,
    sampler: IndependentSampler,
    pixel: Pixel,
    width: u32,
    height: u32,
) -> (r: (ShiftOutcome, IndependentSampler, Ghost<T>))
    ensures
        ({
            let rec = r.0.calls@;
            let targets = shift_targets(pixel, width, height, 4);
            &&& final(tracer).calls()@ == old(tracer).calls()@ + rec
            &&& rec.len() == 1 + (if r.0.survived {
                targets.len()
            } else {
                0
            })
            &&& rec[0].pixel == pixel
            &&& rec[0].shift is None
            &&& rec[0].handed_state == sampler.state
            &&& rec[0].handed_tape == 0
            &&& forall|k: int| 1 <= k < rec.len() ==> ((#[trigger] rec[k]).pixel, rec[k].shift) == targets[k - 1]
            &&& chained(rec, r.0.lottery)
            &&& r.0.lottery ==> r.0.draw@ == draw_of(rec[0].left_state)
            &&& r.0.survived == (!r.0.lottery || r.2@.survival(r.0.draw@))
            &&& r.1.state == state_after(rec, r.0.lottery)
        }),
        r.0.traced@.len() == 4,
        forall|i: int|
            0 <= i < 4 ==> #[trigger] r.0.traced@[i] == (if r.0.survived {
                shifted(pixel.x as int, pixel.y as int, i, width as int, height as int)
            } else {
                None
            }),
{
    let ghost c_old = tracer.calls()@;
    let mut replay = ReplaySampler::new(sampler);
    tracer.trace(&mut replay, pixel, None);
    let _ = replay.tape_len();
    let ghost mut rec: Seq<TraceCall> = tracer.calls()@.subrange(c_old.len() as int, tracer.calls()@.len() as int);
    proof {
        assert(tracer.calls()@ =~= c_old + rec);
    }
    let ghost at_lottery: T = *tracer;
    let lottery = tracer.needs_lottery();
    let mut draw: Ghost<u32> = Ghost(0);
    let survived = if lottery {
        let u = replay.unregistered();
        draw = Ghost(u);
        tracer.survives(u)
    } else {
        true
    };
    let mut traced: Vec<Option<Pixel>> = Vec::new();
    proof {
        reveal(after_lottery);
        assert(rec.last() == rec[0]);
    }
    let mut i: usize = 0;
    while i < 4
        invariant
            i <= 4,
            traced@.len() == i,
            forall|j: int|
                0 <= j < i ==> #[trigger] traced@[j] == (if survived {
                    shifted(pixel.x as int, pixel.y as int, j, width as int, height as int)
                } else {
                    None
                }),
            tracer.calls()@ == c_old + rec,
            rec.len() == 1 + (if survived {
                shift_targets(pixel, width, height, i as nat).len()
            } else {
                0
            }),
            rec[0].pixel == pixel,
            rec[0].shift is None,
            rec[0].handed_state == sampler.state,
            rec[0].handed_tape == 0,
            forall|k: int|
                1 <= k < rec.len() ==> ((#[trigger] rec[k]).pixel, rec[k].shift) == shift_targets(
                    pixel,
                    width,
                    height,
                    i as nat,
                )[k - 1],
            chained(rec, lottery),
            lottery ==> draw@ == draw_of(rec[0].left_state),
            replay@.wf(),
            replay@.state == state_after(rec, lottery),
            replay@.tape.len() == rec.last().left_tape,
        decreases 4 - i,
    {
        let q = if survived {
            shift_pixel(pixel.x, pixel.y, i, width, height)
        } else {
            None
        };
        let ghost targets_before = shift_targets(pixel, width, height, i as nat);
        match q {
            Some(p) => {
                replay.rewind();
                let ghost calls_before = tracer.calls()@;
                tracer.trace(&mut replay, p, Some(i));
                let _ = replay.tape_len();
                proof {
                    let c = tracer.calls()@.last();
                    assert(tracer.calls()@ =~= c_old + rec.push(c));
                    lemma_shift_targets(rec, c, pixel, width, height, i as nat);
                    lemma_shift_chained(rec, c, lottery);
                    rec = rec.push(c);
                }
            },
            None => {
                proof {
                    if survived {
                        assert(shift_targets(pixel, width, height, (i + 1) as nat) == targets_before);
                    }
                }
            },
        }
        traced.push(q);
        i = i + 1;
    }
    (
        ShiftOutcome { lottery, draw, survived, traced, calls: Ghost(rec) },
        replay.into_inner(),
        Ghost(at_lottery),
    )
}

} // verus!
