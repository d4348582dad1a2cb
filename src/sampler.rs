//! Deterministic random sequences. A draw is a 24-bit fraction: the integer
//! `v < UNIT` stands for the real number `v / UNIT` in `[0, 1)`.
use vstd::prelude::*;

verus! {

/// Number of distinct draws: a draw `v` stands for `v / UNIT`.
pub const UNIT: u32 = 16777216;

pub const LCG_MUL: u64 = 6364136223846793005;

pub const LCG_INC: u64 = 1442695040888963407;

/// The generator's state after one step.
pub open spec fn lcg_next(s: u64) -> u64 {
    ((s as nat * LCG_MUL as nat + LCG_INC as nat) % 0x1_0000_0000_0000_0000) as u64
}

/// The draw that a step from state `s` yields: the 24 high bits of the new state.
pub open spec fn draw_of(s: u64) -> u32 {
    (lcg_next(s) >> 40u64) as u32
}

/// The state a pixel's sequence starts from: a pure function of its coordinates.
pub open spec fn pixel_seed(x: u32, y: u32) -> u64 {
    (y as nat * 0x1_0000_0000 + x as nat) as u64
}

/// Independent sampler: a linear congruential sequence over 64 bits.
#[derive(Clone, Copy, Debug, PartialEq, Eq, Structural)]
pub struct IndependentSampler {
    pub state: u64,
}

impl IndependentSampler {
    pub fn new(seed: u64) -> (r: IndependentSampler)
        ensures
            r.state == seed,
    {
        IndependentSampler { state: seed }
    }

    /// The sampler of pixel `(x, y)`: its sequence depends on the pixel alone.
    pub fn for_pixel(x: u32, y: u32) -> (r: IndependentSampler)
        ensures
            r.state == pixel_seed(x, y),
    {
        let s: u64 = ((y as u64) << 32u64) | (x as u64);
        assert(s == pixel_seed(x, y)) by (bit_vector)
            requires
                s == ((y as u64) << 32u64) | (x as u64),
        {
        }
        IndependentSampler { state: s }
    }

    /// Next value of the sequence.
    pub fn next(&mut self) -> (r: u32)
        ensures
            r == draw_of(old(self).state),
            r < UNIT,
            final(self).state == lcg_next(old(self).state),
    {
        let s0 = self.state;
        let s1 = s0.wrapping_mul(LCG_MUL).wrapping_add(LCG_INC);
        proof {
            lemma_lcg_step(s0);
        }
        self.state = s1;
        let r = (s1 >> 40u64) as u32;
        assert(r < UNIT) by (bit_vector)
            requires
                r == (s1 >> 40u64) as u32,
        ;
        r
    }

    /// Two successive values of the sequence.
    pub fn next2d(&mut self) -> (r: (u32, u32))
        ensures
            r.0 == draw_of(old(self).state),
            r.1 == draw_of(lcg_next(old(self).state)),
            final(self).state == lcg_next(lcg_next(old(self).state)),
    {
        let a = self.next();
        let b = self.next();
        (a, b)
    }
}

/// Every draw is a fraction below one.
pub proof fn lemma_draw_bound(s: u64)
    ensures
        draw_of(s) < UNIT,
{
    let t = lcg_next(s);
    assert(t >> 40u64 < 0x1000000u64) by (bit_vector);
}

proof fn lemma_lcg_step(s: u64)
    ensures
        vstd::wrapping::u64_specs::wrapping_add(
            vstd::wrapping::u64_specs::wrapping_mul(s, LCG_MUL),
            LCG_INC,
        ) == lcg_next(s),
{
    let m: nat = 0x1_0000_0000_0000_0000;
    let p: nat = s as nat * LCG_MUL as nat;
    vstd::arithmetic::div_mod::lemma_add_mod_noop(p as int, LCG_INC as int, m as int);
    vstd::arithmetic::div_mod::lemma_small_mod(LCG_INC as nat, m);
}

/// What a replay sampler is, as a mathematical value.
pub ghost struct ReplayModel {
    /// State of the wrapped sampler.
    pub state: u64,
    /// Every value handed out through the tape so far, in order.
    pub tape: Seq<u32>,
    /// Position of the next value to hand out.
    pub cursor: nat,
}

impl ReplayModel {
    pub open spec fn wf(self) -> bool {
        &&& self.cursor <= self.tape.len()
        &&& forall|i: int| 0 <= i < self.tape.len() ==> self.tape[i] < UNIT
    }

    /// One registered draw: from the tape where it reaches, else fresh and recorded.
    pub open spec fn step(self) -> (u32, ReplayModel) {
        if self.cursor < self.tape.len() {
            (self.tape[self.cursor as int], ReplayModel { cursor: self.cursor + 1, ..self })
        } else {
            let v = draw_of(self.state);
            (v, ReplayModel { state: lcg_next(self.state), tape: self.tape.push(v), cursor: self.cursor + 1 })
        }
    }

    /// The values that `n` registered draws return.
    pub open spec fn draws(self, n: nat) -> Seq<u32>
        decreases n,
    {
        if n == 0 {
            Seq::empty()
        } else {
            seq![self.step().0] + self.step().1.draws((n - 1) as nat)
        }
    }

    /// The model after `n` registered draws.
    pub open spec fn after(self, n: nat) -> ReplayModel
        decreases n,
    {
        if n == 0 {
            self
        } else {
            self.step().1.after((n - 1) as nat)
        }
    }

    /// The model with its cursor back at the start of the tape.
    pub open spec fn rewound(self) -> ReplayModel {
        ReplayModel { cursor: 0, ..self }
    }
}

/// Sampler that records what it hands out so that a later run can see the
/// same sequence again: the tape, and the position of the next value in it.
pub struct ReplaySampler {
    sampler: IndependentSampler,
    random: Vec<u32>,
    indice: usize,
}

impl View for ReplaySampler {
    type V = ReplayModel;

    closed spec fn view(&self) -> ReplayModel {
        ReplayModel { state: self.sampler.state, tape: self.random@, cursor: self.indice as nat }
    }
}

impl ReplaySampler {
    /// Wraps `sampler` with an empty tape.
    pub fn new(sampler: IndependentSampler) -> (r: ReplaySampler)
        ensures
            r@ == (ReplayModel { state: sampler.state, tape: Seq::empty(), cursor: 0 }),
            r@.wf(),
    {
        ReplaySampler { sampler, random: Vec::new(), indice: 0 }
    }

    /// Number of values recorded on the tape.
    pub fn tape_len(&self) -> (r: usize)
        ensures
            r == self@.tape.len(),
    {
        self.random.len()
    }

    /// State of the wrapped sampler.
    pub fn inner_state(&self) -> (r: u64)
        ensures
            r == self@.state,
    {
        self.sampler.state
    }

    /// Position of the next registered draw in the tape.
    pub fn cursor(&self) -> (r: usize)
        ensures
            r == self@.cursor,
    {
        self.indice
    }

    /// Registered draw: replays the tape where it reaches, else draws a fresh
    /// value and records it.
    pub fn next(&mut self) -> (r: u32)
        requires
            old(self)@.wf(),
            old(self)@.tape.len() < usize::MAX,
        ensures
            final(self)@.wf(),
            r == old(self)@.step().0,
            final(self)@ == old(self)@.step().1,
            r < UNIT,
    {
        if self.indice < self.random.len() {
            let v = self.random[self.indice];
            self.indice = self.indice + 1;
            v
        } else {
            proof {
                lemma_draw_bound(self.sampler.state);
            }
            let v = self.sampler.next();
            self.random.push(v);
            self.indice = self.indice + 1;
            assert(self@.tape =~= old(self)@.step().1.tape);
            v
        }
    }

    /// Two registered draws.
    pub fn next2d(&mut self) -> (r: (u32, u32))
        requires
            old(self)@.wf(),
            old(self)@.tape.len() + 1 < usize::MAX,
        ensures
            final(self)@.wf(),
            seq![r.0, r.1] == old(self)@.draws(2),
            final(self)@ == old(self)@.after(2),
            r.0 < UNIT,
            r.1 < UNIT,
    {
        let a = self.next();
        let b = self.next();
        proof {
            let m = old(self)@;
            assert(m.step().1.step().1.after(0) == m.step().1.step().1);
            assert(m.step().1.after(1) == m.step().1.step().1.after(0));
            assert(m.after(2) == m.step().1.after(1));
            assert(m.draws(2) =~= seq![a, b]) by {
                assert(m.step().1.draws(1) =~= seq![b] + m.step().1.step().1.draws(0));
            }
        }
        (a, b)
    }

    /// Draw that bypasses the tape: the cursor and the tape stay as they are.
    pub fn unregistered(&mut self) -> (r: u32)
        ensures
            r == draw_of(old(self)@.state),
            r < UNIT,
            final(self)@ == (ReplayModel { state: lcg_next(old(self)@.state), ..old(self)@ }),
    {
        self.sampler.next()
    }

    /// Moves the cursor back to the start; the tape is kept.
    pub fn rewind(&mut self)
        ensures
            final(self)@ == old(self)@.rewound(),
    {
        self.indice = 0;
    }

    /// Gives the wrapped sampler back.
    pub fn into_inner(self) -> (r: IndependentSampler)
        ensures
            r.state == self@.state,
    {
        self.sampler
    }
}

/// Shape of `n` registered draws: the tape only grows, the cursor moves by `n`,
/// and the values returned are the tape's entries under the cursor.
pub proof fn lemma_draws_from_tape(m: ReplayModel, n: nat)
    requires
        m.wf(),
    ensures
        m.after(n).wf(),
        m.after(n).cursor == m.cursor + n,
        m.after(n).tape.len() >= m.cursor + n,
        m.after(n).tape.len() >= m.tape.len(),
        m.after(n).tape.len() == if m.cursor + n > m.tape.len() { m.cursor + n } else { m.tape.len() },
        m.tape =~= m.after(n).tape.subrange(0, m.tape.len() as int),
        m.draws(n) =~= m.after(n).tape.subrange(m.cursor as int, (m.cursor + n) as int),
    decreases n,
{
    if n > 0 {
        lemma_draw_bound(m.state);
        let (v, m1) = m.step();
        assert(m1.wf());
        lemma_draws_from_tape(m1, (n - 1) as nat);
        let t = m.after(n).tape;
        assert(m1.tape =~= t.subrange(0, m1.tape.len() as int));
        assert(m.tape =~= t.subrange(0, m.tape.len() as int)) by {
            assert forall|i: int| 0 <= i < m.tape.len() implies m.tape[i] == t[i] by {
                assert(m1.tape[i] == t.subrange(0, m1.tape.len() as int)[i]);
            }
        }
        assert(t[m.cursor as int] == v) by {
            assert(m1.tape[m.cursor as int] == v);
            assert(m1.tape[m.cursor as int] == t.subrange(0, m1.tape.len() as int)[m.cursor as int]);
        }
        assert(m.draws(n) =~= t.subrange(m.cursor as int, (m.cursor + n) as int));
    }
}

/// The first `k` of `n` draws are the draws of a run of `k`.
pub proof fn lemma_draws_prefix(m: ReplayModel, k: nat, n: nat)
    requires
        k <= n,
    ensures
        m.draws(n).len() == n,
        m.draws(n).subrange(0, k as int) =~= m.draws(k),
    decreases k,
{
    lemma_draws_len(m, n);
    if k > 0 {
        lemma_draws_prefix(m.step().1, (k - 1) as nat, (n - 1) as nat);
        lemma_draws_len(m.step().1, (n - 1) as nat);
        lemma_draws_len(m.step().1, (k - 1) as nat);
        assert(m.draws(n).subrange(0, k as int) =~= m.draws(k)) by {
            assert forall|i: int| 0 <= i < k implies m.draws(n)[i] == m.draws(k)[i] by {
                if i > 0 {
                    assert(m.step().1.draws((n - 1) as nat).subrange(0, k - 1)[i - 1]
                        == m.step().1.draws((k - 1) as nat)[i - 1]);
                }
            }
        }
    }
}

pub proof fn lemma_draws_len(m: ReplayModel, n: nat)
    ensures
        m.draws(n).len() == n,
    decreases n,
{
    if n > 0 {
        lemma_draws_len(m.step().1, (n - 1) as nat);
    }
}

/// Replay: after a run of `n` registered draws from the start of the tape,
/// rewinding and drawing again returns the same values, for any run of at
/// most `n` draws, whatever unregistered draws moved the wrapped sampler to
/// `state` in between.
pub proof fn lemma_rewind_replays(m: ReplayModel, n: nat, k: nat, state: u64)
    requires
        m.wf(),
        m.cursor == 0,
        k <= n,
    ensures
        (ReplayModel { state, ..m.after(n) }).rewound().draws(k) == m.draws(k),
{
    lemma_draws_from_tape(m, n);
    let a = ReplayModel { state, ..m.after(n) };
    let r = a.rewound();
    lemma_draws_from_tape(r, k);
    lemma_draws_prefix(m, k, n);
    assert(r.after(k).tape =~= a.tape);
    assert(r.draws(k) =~= m.draws(k)) by {
        assert forall|i: int| 0 <= i < k implies r.draws(k)[i] == m.draws(k)[i] by {
            assert(m.draws(n).subrange(0, k as int)[i] == m.draws(k)[i]);
        }
    }
}

} // verus!
