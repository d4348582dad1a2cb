use rustlight::gradient::{
    gradient_direction, gradient_order, shift_pixel, splat_plan, GradientAxis, GradientDirection,
    GradientSplat, Pixel,
};

#[test]
fn gradient_constants() {
    assert_eq!(gradient_order(0), (1, 0));
    assert_eq!(gradient_order(1), (0, 1));
    assert_eq!(gradient_order(2), (-1, 0));
    assert_eq!(gradient_order(3), (0, -1));
    assert_eq!(gradient_direction(0), GradientDirection::X(1));
    assert_eq!(gradient_direction(1), GradientDirection::Y(1));
    assert_eq!(gradient_direction(2), GradientDirection::X(-1));
    assert_eq!(gradient_direction(3), GradientDirection::Y(-1));
}

#[test]
fn shift_inside_and_outside_frame() {
    assert_eq!(shift_pixel(0, 0, 0, 4, 3), Some(Pixel { x: 1, y: 0 }));
    assert_eq!(shift_pixel(0, 0, 2, 4, 3), None);
    assert_eq!(shift_pixel(0, 0, 3, 4, 3), None);
    assert_eq!(shift_pixel(3, 2, 0, 4, 3), None);
    assert_eq!(shift_pixel(3, 2, 1, 4, 3), None);
    assert_eq!(shift_pixel(3, 2, 2, 4, 3), Some(Pixel { x: 2, y: 2 }));
    assert_eq!(shift_pixel(3, 2, 3, 4, 3), Some(Pixel { x: 3, y: 1 }));
}

#[test]
fn splat_positive_shift_stays_at_base() {
    let s = splat_plan(1, 1, 0, 4, 4);
    assert_eq!(s.radiance_at, Some(Pixel { x: 2, y: 1 }));
    assert_eq!(
        s.gradient_at,
        Some(GradientSplat { axis: GradientAxis::X, at: Pixel { x: 1, y: 1 }, negated: false })
    );
    let s = splat_plan(1, 1, 1, 4, 4);
    assert_eq!(
        s.gradient_at,
        Some(GradientSplat { axis: GradientAxis::Y, at: Pixel { x: 1, y: 1 }, negated: false })
    );
}

#[test]
fn splat_negative_shift_goes_to_shifted_pixel_negated() {
    let s = splat_plan(2, 1, 2, 4, 4);
    assert_eq!(s.radiance_at, Some(Pixel { x: 1, y: 1 }));
    assert_eq!(
        s.gradient_at,
        Some(GradientSplat { axis: GradientAxis::X, at: Pixel { x: 1, y: 1 }, negated: true })
    );
    let s = splat_plan(2, 1, 3, 4, 4);
    assert_eq!(
        s.gradient_at,
        Some(GradientSplat { axis: GradientAxis::Y, at: Pixel { x: 2, y: 0 }, negated: true })
    );
}

#[test]
fn splat_outside_frame() {
    let s = splat_plan(0, 0, 2, 4, 4);
    assert_eq!(s.radiance_at, None);
    assert_eq!(s.gradient_at, None);
    // a positive shift off the frame still stores its (zero) difference at the base
    let s = splat_plan(3, 3, 0, 4, 4);
    assert_eq!(s.radiance_at, None);
    assert_eq!(
        s.gradient_at,
        Some(GradientSplat { axis: GradientAxis::X, at: Pixel { x: 3, y: 3 }, negated: false })
    );
}

#[test]
fn horizontal_pair_meets_in_one_cell() {
    let right = splat_plan(5, 2, 0, 8, 8).gradient_at.unwrap();
    let left = splat_plan(6, 2, 2, 8, 8).gradient_at.unwrap();
    assert_eq!(right.at, left.at);
    assert_eq!(right.axis, left.axis);
    assert!(!right.negated && left.negated);
}

use rustlight::gradient::{trace_shifts, ShiftTracer, TraceCall};
use rustlight::sampler::{IndependentSampler, ReplaySampler};

/// Draws three values per path and records what each call saw.
struct Recorder {
    keep: bool,
    calls: Vec<(Pixel, Option<usize>, usize, usize, Vec<u32>)>,
    record: Vec<TraceCall>,
    lottery: Vec<u32>,
}

impl ShiftTracer for Recorder {
    fn survival(&self, _u: u32) -> bool {
        self.keep
    }
    fn calls(&self) -> Vec<TraceCall> {
        self.record.clone()
    }
    fn trace(&mut self, sampler: &mut ReplaySampler, pixel: Pixel, shift: Option<usize>) {
        let (cursor, len, state) = (sampler.cursor(), sampler.tape_len(), sampler.inner_state());
        let draws = vec![sampler.next(), sampler.next(), sampler.next()];
        self.calls.push((pixel, shift, cursor, len, draws));
        self.record.push(TraceCall {
            pixel,
            shift,
            handed_state: state,
            handed_tape: len,
            left_state: sampler.inner_state(),
            left_tape: sampler.tape_len(),
        });
    }
    fn needs_lottery(&self) -> bool {
        true
    }
    fn survives(&mut self, u: u32) -> bool {
        self.lottery.push(u);
        self.keep
    }
}

#[test]
fn shifts_replay_the_base_draws() {
    let mut rec = Recorder { keep: true, calls: vec![], record: vec![], lottery: vec![] };
    let (outcome, _, _) = trace_shifts(&mut rec, IndependentSampler::for_pixel(0, 1), Pixel { x: 0, y: 1 }, 3, 3);
    assert!(outcome.survived);
    assert!(outcome.lottery);
    assert_eq!(
        outcome.traced,
        vec![Some(Pixel { x: 1, y: 1 }), Some(Pixel { x: 0, y: 2 }), None, Some(Pixel { x: 0, y: 0 })]
    );
    assert_eq!(rec.calls.len(), 4);
    let base = &rec.calls[0];
    assert_eq!((base.1, base.2, base.3), (None, 0, 0));
    for (k, call) in rec.calls[1..].iter().enumerate() {
        assert_eq!(call.1, Some([0usize, 1, 3][k]));
        assert_eq!((call.2, call.3), (0, 3));
        assert_eq!(call.4, base.4);
    }
    // the lottery draw is the fourth value of the sequence, off the tape
    let mut plain = IndependentSampler::for_pixel(0, 1);
    let seq: Vec<u32> = (0..4).map(|_| plain.next()).collect();
    assert_eq!(base.4, seq[..3].to_vec());
    assert_eq!(rec.lottery, vec![seq[3]]);
}

#[test]
fn killed_base_traces_no_shift() {
    let mut rec = Recorder { keep: false, calls: vec![], record: vec![], lottery: vec![] };
    let (outcome, sampler, _) = trace_shifts(&mut rec, IndependentSampler::new(9), Pixel { x: 1, y: 1 }, 3, 3);
    assert!(!outcome.survived);
    assert_eq!(outcome.traced, vec![None, None, None, None]);
    assert_eq!(rec.calls.len(), 1);
    let mut plain = IndependentSampler::new(9);
    for _ in 0..4 {
        plain.next();
    }
    assert_eq!(sampler, plain);
}

/// A tracer without the survival filter.
struct NoFilter {
    traces: usize,
    record: Vec<TraceCall>,
}

impl ShiftTracer for NoFilter {
    fn survival(&self, _u: u32) -> bool {
        true
    }
    fn calls(&self) -> Vec<TraceCall> {
        self.record.clone()
    }
    fn trace(&mut self, sampler: &mut ReplaySampler, pixel: Pixel, shift: Option<usize>) {
        let (handed_state, handed_tape) = (sampler.inner_state(), sampler.tape_len());
        sampler.next();
        self.traces += 1;
        self.record.push(TraceCall {
            pixel,
            shift,
            handed_state,
            handed_tape,
            left_state: sampler.inner_state(),
            left_tape: sampler.tape_len(),
        });
    }
    fn needs_lottery(&self) -> bool {
        false
    }
    fn survives(&mut self, _u: u32) -> bool {
        panic!("no lottery without the survival filter")
    }
}

#[test]
fn no_lottery_draw_without_survival_filter() {
    let mut t = NoFilter { traces: 0, record: vec![] };
    let (outcome, sampler, _) = trace_shifts(&mut t, IndependentSampler::new(5), Pixel { x: 1, y: 1 }, 3, 3);
    assert!(!outcome.lottery);
    assert!(outcome.survived);
    assert_eq!(t.traces, 5);
    // one fresh draw for the base path; the shifts replay it; no lottery draw
    let mut plain = IndependentSampler::new(5);
    plain.next();
    assert_eq!(sampler, plain);
}

#[test]
fn shift_record_follows_the_protocol() {
    let mut t = NoFilter { traces: 0, record: vec![] };
    let start = IndependentSampler::new(8);
    let (_, sampler, _) = trace_shifts(&mut t, start, Pixel { x: 0, y: 0 }, 2, 2);
    // base, then the shifts right and down; left and up leave the frame
    let pixels: Vec<(Pixel, Option<usize>)> = t.record.iter().map(|c| (c.pixel, c.shift)).collect();
    assert_eq!(
        pixels,
        vec![(Pixel { x: 0, y: 0 }, None), (Pixel { x: 1, y: 0 }, Some(0)), (Pixel { x: 0, y: 1 }, Some(1))]
    );
    assert_eq!(t.record[0].handed_state, start.state);
    assert_eq!(t.record[0].handed_tape, 0);
    for k in 1..t.record.len() {
        assert_eq!(t.record[k].handed_state, t.record[k - 1].left_state);
        assert_eq!(t.record[k].handed_tape, t.record[k - 1].left_tape);
    }
    assert_eq!(sampler.state, t.record[2].left_state);
}
