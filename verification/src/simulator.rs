//! The simulated Modbus device: a bank of 100 holding registers, how it is
//! seeded, how its values move on every tick, and how a request for function
//! code 3 or 4 is answered.
use vstd::prelude::*;
use rand::rngs::SmallRng;
use rand::Rng;
use rand::SeedableRng;
use crate::sim_config::{Behavior, RegisterConfig};
use crate::client::{numbered, FIRST_REGISTER};

verus! {

/// Number of registers in the simulated bank (40001-40100).
pub const NUM_REGISTERS: usize = 100;

/// Lowest value a fresh unconfigured register may start at.
pub const INITIAL_LOW: u16 = 1000;

/// Values of fresh unconfigured registers stay below this.
pub const INITIAL_HIGH: u16 = 5000;

/// Largest random step of an unconfigured register per tick.
pub const DEFAULT_WALK: u16 = 50;

/// rand's `SmallRng`, carried opaquely inside `RandomSource`.
#[verifier::external_type_specification]
#[verifier::external_body]
pub struct ExSmallRng(SmallRng);

/// `SmallRng::from_entropy`: a generator seeded from the operating system. Nothing
/// is promised of its state; it panics only where the system has no entropy.
#[verifier::external_body]
fn rng_from_entropy() -> SmallRng {
    SmallRng::from_entropy()
}

/// `Rng::gen_range` on `low..high` for `u16`: some value in `[low, high)`
/// (rand panics on an empty range, which `requires` leaves out).
#[verifier::external_body]
fn rng_range_u16(rng: &mut SmallRng, low: u16, high: u16) -> (v: u16)
    requires
        low < high,
    ensures
        low <= v < high,
{
    rng.gen_range(low..high)
}

/// `Rng::gen_range` on `low..=high` for `i32`: some value in `[low, high]`
/// (rand panics on an empty range, which `requires` leaves out).
#[verifier::external_body]
fn rng_range_inclusive_i32(rng: &mut SmallRng, low: i32, high: i32) -> (v: i32)
    requires
        low <= high,
    ensures
        low <= v <= high,
{
    rng.gen_range(low..=high)
}

/// A source of random numbers for the simulator, seeded from the system. It
/// keeps, as ghost state, every draw it has made, in order: the inclusive range
/// `[low, high]` that was asked for and the value handed out, as
/// `(low, high, value)`.
pub struct RandomSource {
    rng: SmallRng,
    drawn: Ghost<Seq<(int, int, int)>>,
}

/// Whether the draw `d` was asked for from `[low, high]` (and so lies in it).
pub open spec fn drawn_from(d: (int, int, int), low: int, high: int) -> bool {
    d.0 == low && d.1 == high && low <= d.2 <= high
}

/// Whether the draws `after` are the draws `before` followed by `n` more.
pub open spec fn drew(before: Seq<(int, int, int)>, after: Seq<(int, int, int)>, n: int) -> bool {
    after.len() == before.len() + n && after.subrange(0, before.len() as int) == before
}

impl RandomSource {
    /// The draws this source has made so far, oldest first.
    pub closed spec fn draws(&self) -> Seq<(int, int, int)> {
        self.drawn@
    }

    /// A generator seeded from the operating system's entropy, which has
    /// made no draw yet.
    pub fn new() -> (s: RandomSource)
        ensures
            s.draws() == Seq::<(int, int, int)>::empty(),
    {
        RandomSource { rng: rng_from_entropy(), drawn: Ghost(Seq::empty()) }
    }

    /// A uniformly drawn value in `[low, high)`; the draw is recorded as asked
    /// for from `[low, high - 1]`.
    pub fn draw_below(&mut self, low: u16, high: u16) -> (v: u16)
        requires
            low < high,
        ensures
            low <= v < high,
            final(self).draws() == old(self).draws().push((low as int, high - 1, v as int)),
    {
        let v = rng_range_u16(&mut self.rng, low, high);
        self.drawn = Ghost(self.drawn@.push((low as int, high - 1, v as int)));
        v
    }

    /// A uniformly drawn step in `[-bound, bound]`; the draw is recorded as
    /// asked for from that range.
    pub fn draw_step(&mut self, bound: u16) -> (d: i32)
        ensures
            -(bound as int) <= d <= bound as int,
            final(self).draws() == old(self).draws().push((-(bound as int), bound as int, d as int)),
    {
        let b = bound as i32;
        let d = rng_range_inclusive_i32(&mut self.rng, -b, b);
        self.drawn = Ghost(self.drawn@.push((-(bound as int), bound as int, d as int)));
        d
    }
}

/// Whether every value of `regs` lies in `[INITIAL_LOW, INITIAL_HIGH)`.
pub open spec fn all_fresh(regs: Seq<u16>) -> bool {
    forall|i: int| 0 <= i < regs.len() ==> INITIAL_LOW <= #[trigger] regs[i] < INITIAL_HIGH
}

/// Whether `regs` are the values of the `NUM_REGISTERS` draws that follow the
/// draws `before` in `after`, each asked for from `1000..5000`.
pub open spec fn bank_drawn(regs: Seq<u16>, before: Seq<(int, int, int)>, after: Seq<(int, int, int)>) -> bool {
    &&& drew(before, after, NUM_REGISTERS as int)
    &&& forall|i: int|
        0 <= i < NUM_REGISTERS ==> drawn_from(
            #[trigger] after[before.len() + i],
            INITIAL_LOW as int,
            INITIAL_HIGH - 1,
        )
    &&& forall|i: int| 0 <= i < NUM_REGISTERS ==> #[trigger] regs[i] == after[before.len() + i].2
}

/// A bank of `NUM_REGISTERS` registers, each drawn uniformly from `1000..5000`:
/// register `i` takes the `i`-th next draw of `source`.
pub fn make_registers(source: &mut RandomSource) -> (regs: Vec<u16>)
    ensures
        regs@.len() == NUM_REGISTERS,
        all_fresh(regs@),
        bank_drawn(regs@, old(source).draws(), final(source).draws()),
{
    let ghost before = source.draws();
    let ghost base = before.len() as int;
    assert(before.subrange(0, base) =~= before);
    let mut regs: Vec<u16> = Vec::new();
    let mut i: usize = 0;
    while i < NUM_REGISTERS
        invariant
            i <= NUM_REGISTERS,
            regs@.len() == i,
            all_fresh(regs@),
            base == before.len(),
            drew(before, source.draws(), i as int),
            forall|k: int| 0 <= k < i ==> drawn_from(#[trigger] source.draws()[base + k], INITIAL_LOW as int, INITIAL_HIGH - 1),
            forall|k: int| 0 <= k < i ==> #[trigger] regs@[k] == source.draws()[base + k].2,
        decreases NUM_REGISTERS - i,
    {
        let ghost prev = source.draws();
        let v = source.draw_below(INITIAL_LOW, INITIAL_HIGH);
        regs.push(v);
        proof {
            assert(source.draws().subrange(0, base) =~= prev.subrange(0, base));
            assert forall|k: int| 0 <= k < i implies #[trigger] source.draws()[base + k] == prev[base + k] by {}
        }
        i = i + 1;
    }
    regs
}

/// The bank index a configured register maps to, if its address lies in
/// 40001-40100.
pub open spec fn config_index(c: RegisterConfig) -> Option<int> {
    if c.address >= 40001 && c.address - 40001 < NUM_REGISTERS {
        Some(c.address - 40001)
    } else {
        None
    }
}

/// The configuration that governs bank index `i`: the last one in `configs`
/// whose address maps to `i`.
pub open spec fn config_for(configs: Seq<RegisterConfig>, i: int) -> Option<RegisterConfig>
    decreases configs.len(),
{
    if configs.len() == 0 {
        None
    } else if config_index(configs.last()) == Some(i) {
        Some(configs.last())
    } else {
        config_for(configs.drop_last(), i)
    }
}

/// The value of register `i` after seeding `regs` from `configs`.
pub open spec fn seeded_value(regs: Seq<u16>, configs: Seq<RegisterConfig>, i: int) -> u16 {
    match config_for(configs, i) {
        Some(c) => c.initial,
        None => regs[i],
    }
}

fn config_slot(c: &RegisterConfig) -> (slot: Option<usize>)
    ensures
        match config_index(*c) {
            Some(i) => slot == Some(i as usize),
            None => slot is None,
        },
{
    if c.address >= 40001 && ((c.address - 40001) as usize) < NUM_REGISTERS {
        Some((c.address - 40001) as usize)
    } else {
        None
    }
}

/// Sets every configured register of the bank to its initial value; when two
/// configurations name one register, the later one wins.
pub fn seed_registers(regs: &mut Vec<u16>, configs: &[RegisterConfig])
    requires
        old(regs)@.len() == NUM_REGISTERS,
    ensures
        final(regs)@.len() == NUM_REGISTERS,
        forall|i: int| 0 <= i < NUM_REGISTERS ==> #[trigger] final(regs)@[i] == seeded_value(old(regs)@, configs@, i),
{
    let ghost orig = regs@;
    let mut k: usize = 0;
    while k < configs.len()
        invariant
            k <= configs@.len(),
            orig.len() == NUM_REGISTERS,
            regs@.len() == NUM_REGISTERS,
            forall|i: int| 0 <= i < NUM_REGISTERS ==> #[trigger] regs@[i] == seeded_value(orig, configs@.take(k as int), i),
        decreases configs@.len() - k,
    {
        let c = configs[k];
        let slot = config_slot(&c);
        if let Some(idx) = slot {
            regs.set(idx, c.initial);
        }
        proof {
            assert(configs@.take(k + 1).drop_last() =~= configs@.take(k as int));
            assert(configs@.take(k + 1).last() == c);
        }
        k = k + 1;
    }
    proof {
        assert(configs@.take(configs@.len() as int) =~= configs@);
    }
}

/// The values of the `NUM_REGISTERS` draws that follow the draws `before` in
/// `after`.
pub open spec fn drawn_bank(before: Seq<(int, int, int)>, after: Seq<(int, int, int)>) -> Seq<u16> {
    Seq::new(NUM_REGISTERS as nat, |i: int| after[before.len() + i].2 as u16)
}

/// Like `make_registers`, but registers named by `configs` start at their
/// configured initial value (the last configuration of a register wins); the
/// others keep the value drawn for them.
pub fn make_registers_with_config(configs: &[RegisterConfig], source: &mut RandomSource) -> (regs: Vec<u16>)
    ensures
        regs@.len() == NUM_REGISTERS,
        bank_drawn(drawn_bank(old(source).draws(), final(source).draws()), old(source).draws(), final(source).draws()),
        forall|i: int| 0 <= i < NUM_REGISTERS ==> #[trigger] regs@[i] == seeded_value(
            drawn_bank(old(source).draws(), final(source).draws()),
            configs@,
            i,
        ),
        forall|i: int| 0 <= i < NUM_REGISTERS ==> match #[trigger] config_for(configs@, i) {
            Some(c) => regs@[i] == c.initial,
            None => INITIAL_LOW <= regs@[i] < INITIAL_HIGH,
        },
{
    let ghost before = source.draws();
    let mut regs = make_registers(source);
    let ghost fresh = regs@;
    proof {
        assert(fresh =~= drawn_bank(before, source.draws()));
    }
    seed_registers(&mut regs, configs);
    assert forall|i: int| 0 <= i < NUM_REGISTERS implies match #[trigger] config_for(configs@, i) {
        Some(c) => regs@[i] == c.initial,
        None => INITIAL_LOW <= regs@[i] < INITIAL_HIGH,
    } by {
        assert(regs@[i] == seeded_value(fresh, configs@, i));
        assert(INITIAL_LOW <= fresh[i] < INITIAL_HIGH);
    }
    regs
}

/// The configuration of every bank index, the last one given for it winning.
pub fn config_plan(configs: &[RegisterConfig]) -> (plan: Vec<Option<RegisterConfig>>)
    ensures
        plan@.len() == NUM_REGISTERS,
        forall|i: int| 0 <= i < NUM_REGISTERS ==> #[trigger] plan@[i] == config_for(configs@, i),
{
    let mut plan: Vec<Option<RegisterConfig>> = Vec::new();
    let mut i: usize = 0;
    while i < NUM_REGISTERS
        invariant
            i <= NUM_REGISTERS,
            plan@.len() == i,
            forall|j: int| 0 <= j < i ==> plan@[j] is None,
        decreases NUM_REGISTERS - i,
    {
        plan.push(None);
        i = i + 1;
    }
    let mut k: usize = 0;
    while k < configs.len()
        invariant
            k <= configs@.len(),
            plan@.len() == NUM_REGISTERS,
            forall|j: int| 0 <= j < NUM_REGISTERS ==> #[trigger] plan@[j] == config_for(configs@.take(k as int), j),
        decreases configs@.len() - k,
    {
        let c = configs[k];
        let slot = config_slot(&c);
        if let Some(idx) = slot {
            plan.set(idx, Some(c));
        }
        proof {
            assert(configs@.take(k + 1).drop_last() =~= configs@.take(k as int));
            assert(configs@.take(k + 1).last() == c);
        }
        k = k + 1;
    }
    proof {
        assert(configs@.take(configs@.len() as int) =~= configs@);
    }
    plan
}

/// `x` clamped into the range of a register, `0..=65535`.
pub open spec fn clamp_u16(x: int) -> u16 {
    if x < 0 {
        0
    } else if x > 65535 {
        65535
    } else {
        x as u16
    }
}

/// A register at `v` after a random step of `delta`, clamped to `0..=65535`.
pub fn walk_value(v: u16, delta: i32) -> (r: u16)
    ensures
        r == clamp_u16(v + delta),
{
    let x: i64 = v as i64 + delta as i64;
    if x < 0 {
        0
    } else if x > 65535 {
        65535
    } else {
        x as u16
    }
}

/// Whether `new` is a possible outcome of a random walk of at most `bound`
/// from `old`: some step `d` with `|d| <= bound` has `new == clamp_u16(old + d)`,
/// which is the same as `new` lying within `bound` of `old`.
pub open spec fn walked(old: u16, new: u16, bound: int) -> bool {
    old - bound <= new <= old + bound
}

/// A clamped step of at most `bound` is a walk of at most `bound`, and every
/// walk of at most `bound` is such a clamped step.
pub proof fn law_walk_outcomes(old: u16, new: u16, bound: int)
    requires
        bound >= 0,
    ensures
        walked(old, new, bound) <==> exists|d: int| -bound <= d <= bound && new == #[trigger] clamp_u16(old + d),
{
    if walked(old, new, bound) {
        assert(new == clamp_u16(old + (new - old)));
    }
}

/// One tick of the plain simulator: every register, in order, takes the next
/// draw of the source, asked for from `[-50, 50]`, as its step, clamped to
/// `0..=65535`.
pub fn random_walk_tick(regs: &mut Vec<u16>, source: &mut RandomSource)
    ensures
        final(regs)@.len() == old(regs)@.len(),
        drew(old(source).draws(), final(source).draws(), old(regs)@.len() as int),
        forall|i: int|
            0 <= i < old(regs)@.len() ==> drawn_from(
                #[trigger] final(source).draws()[old(source).draws().len() + i],
                -(DEFAULT_WALK as int),
                DEFAULT_WALK as int,
            ),
        forall|i: int|
            0 <= i < old(regs)@.len() ==> #[trigger] final(regs)@[i] == clamp_u16(
                old(regs)@[i] + final(source).draws()[old(source).draws().len() + i].2,
            ),
        forall|i: int| 0 <= i < old(regs)@.len() ==> walked(#[trigger] old(regs)@[i], final(regs)@[i], DEFAULT_WALK as int),
{
    let ghost orig = regs@;
    let ghost before = source.draws();
    let ghost base = source.draws().len() as int;
    assert(before.subrange(0, base) =~= before);
    let mut i: usize = 0;
    while i < regs.len()
        invariant
            i <= regs@.len(),
            regs@.len() == orig.len(),
            base == before.len(),
            drew(before, source.draws(), i as int),
            forall|k: int| 0 <= k < i ==> drawn_from(#[trigger] source.draws()[base + k], -(DEFAULT_WALK as int), DEFAULT_WALK as int),
            forall|j: int| 0 <= j < i ==> #[trigger] regs@[j] == clamp_u16(orig[j] + source.draws()[base + j].2),
            forall|j: int| 0 <= j < i ==> walked(#[trigger] orig[j], regs@[j], DEFAULT_WALK as int),
            forall|j: int| i <= j < orig.len() ==> #[trigger] regs@[j] == orig[j],
        decreases orig.len() - i,
    {
        let ghost prev = source.draws();
        let ghost prev_regs = regs@;
        let d = source.draw_step(DEFAULT_WALK);
        let v = walk_value(regs[i], d);
        regs.set(i, v);
        proof {
            assert(source.draws().subrange(0, base) =~= prev.subrange(0, base));
            assert forall|k: int| 0 <= k < i implies #[trigger] source.draws()[base + k] == prev[base + k] by {}
            assert forall|j: int| 0 <= j <= i implies #[trigger] regs@[j] == clamp_u16(orig[j] + source.draws()[base + j].2) by {
                if j < i {
                    assert(source.draws()[base + j] == prev[base + j]);
                    assert(regs@[j] == prev_regs[j]);
                }
            }
        }
        i = i + 1;
    }
}

/// A counter register at `v` after one step of `step`, modulo 65536.
pub open spec fn counter_next(v: u16, step: i32) -> u16 {
    ((v + step) % 65536) as u16
}

/// One counter step: `v + step`, wrapped modulo 65536 (Euclidean remainder).
pub fn counter_value(v: u16, step: i32) -> (r: u16)
    ensures
        r == counter_next(v, step),
{
    // Shift by 2^31, a multiple of 65536, so that the sum is never negative.
    let y: i64 = v as i64 + step as i64 + 2147483648i64;
    let r = ((y as u64) % 65536) as u16;
    proof {
        let x: int = v + step;
        vstd::arithmetic::div_mod::lemma_mod_multiples_vanish(32768, x, 65536);
        assert(65536 * 32768 == 2147483648int) by (nonlinear_arith);
    }
    r
}

/// The value of register `old` after one tick under configuration `cfg`, with
/// `delta` the random step drawn for it (walking registers only) and `sine` the
/// sine-wave sample for this tick (sine registers only).
pub open spec fn next_value_spec(cfg: Option<RegisterConfig>, old: u16, delta: int, sine: u16) -> u16 {
    match cfg {
        None => clamp_u16(old + delta),
        Some(c) => match c.behavior {
            Behavior::Static => old,
            Behavior::Walk => clamp_u16(old + delta),
            Behavior::Counter => counter_next(old, c.step),
            Behavior::Sine => sine,
        },
    }
}

/// The value of a register after one tick under `cfg`: unconfigured and
/// walking registers take the step `delta`, static ones keep their value,
/// counters add their step modulo 65536, sine registers take `sine`.
pub fn next_value(cfg: Option<RegisterConfig>, old: u16, delta: i32, sine: u16) -> (r: u16)
    ensures
        r == next_value_spec(cfg, old, delta as int, sine),
{
    match cfg {
        None => walk_value(old, delta),
        Some(c) => match c.behavior {
            Behavior::Static => old,
            Behavior::Walk => walk_value(old, delta),
            Behavior::Counter => counter_value(old, c.step),
            Behavior::Sine => sine,
        },
    }
}

/// The largest random step of a register under `cfg`, where it walks.
pub open spec fn walk_bound(cfg: Option<RegisterConfig>) -> int {
    match cfg {
        None => DEFAULT_WALK as int,
        Some(c) => c.delta as int,
    }
}

/// Whether a register under `cfg` walks randomly on a tick.
pub open spec fn walks(cfg: Option<RegisterConfig>) -> bool {
    match cfg {
        None => true,
        Some(c) => c.behavior == Behavior::Walk,
    }
}

/// Whether `new` is a possible value after one tick from `old` under `cfg`:
/// a walk of at most the register's bound, or exactly `next_value_spec`.
pub open spec fn tick_outcome(cfg: Option<RegisterConfig>, old: u16, new: u16, sine: u16) -> bool {
    if walks(cfg) {
        walked(old, new, walk_bound(cfg))
    } else {
        new == next_value_spec(cfg, old, 0, sine)
    }
}

/// How many of the first `n` registers under `plan` walk randomly, so draw
/// on a tick.
pub open spec fn walk_count(plan: Seq<Option<RegisterConfig>>, n: int) -> int
    decreases n,
{
    if n <= 0 {
        0
    } else {
        walk_count(plan, n - 1) + if walks(plan[n - 1]) {
            1int
        } else {
            0int
        }
    }
}

/// The draw that the walking register `i` under `plan` takes on a tick whose
/// draws start at index `base` of `draws`.
pub open spec fn walk_draw(draws: Seq<(int, int, int)>, base: int, plan: Seq<Option<RegisterConfig>>, i: int) -> (int, int, int) {
    draws[base + walk_count(plan, i)]
}

proof fn lemma_walk_count_bounds(plan: Seq<Option<RegisterConfig>>, n: int)
    requires
        0 <= n,
    ensures
        0 <= walk_count(plan, n) <= n,
    decreases n,
{
    if n > 0 {
        lemma_walk_count_bounds(plan, n - 1);
    }
}

/// One tick of the configured simulator. Each register follows its
/// configuration in `plan` (see `next_value`); `sine[i]` is the sine sample of
/// register `i` for this tick. The walking registers (unconfigured ones, and
/// those configured to walk) take, in order, the next draws of the source as
/// their steps: asked for from `[-50, 50]` for an unconfigured register and from
/// `[-delta, delta]` for a configured one. The other registers draw nothing.
pub fn config_tick(
    regs: &mut Vec<u16>,
    plan: &Vec<Option<RegisterConfig>>,
    sine: &Vec<u16>,
    source: &mut RandomSource,
)
    requires
        plan@.len() == old(regs)@.len(),
        sine@.len() == old(regs)@.len(),
    ensures
        final(regs)@.len() == old(regs)@.len(),
        drew(old(source).draws(), final(source).draws(), walk_count(plan@, old(regs)@.len() as int)),
        forall|i: int|
            0 <= i < old(regs)@.len() && walks(plan@[i]) ==> drawn_from(
                #[trigger] walk_draw(final(source).draws(), old(source).draws().len() as int, plan@, i),
                -walk_bound(plan@[i]),
                walk_bound(plan@[i]),
            ),
        forall|i: int|
            0 <= i < old(regs)@.len() && walks(plan@[i]) ==> #[trigger] final(regs)@[i] == clamp_u16(
                old(regs)@[i] + walk_draw(final(source).draws(), old(source).draws().len() as int, plan@, i).2,
            ),
        forall|i: int| 0 <= i < old(regs)@.len() ==> tick_outcome(plan@[i], #[trigger] old(regs)@[i], final(regs)@[i], sine@[i]),
{
    let ghost orig = regs@;
    let ghost before = source.draws();
    let ghost base = before.len() as int;
    assert(before.subrange(0, base) =~= before);
    let mut i: usize = 0;
    while i < regs.len()
        invariant
            i <= regs@.len(),
            regs@.len() == orig.len(),
            plan@.len() == orig.len(),
            sine@.len() == orig.len(),
            base == before.len(),
            drew(before, source.draws(), walk_count(plan@, i as int)),
            forall|j: int|
                0 <= j < i && walks(plan@[j]) ==> drawn_from(
                    #[trigger] walk_draw(source.draws(), base, plan@, j),
                    -walk_bound(plan@[j]),
                    walk_bound(plan@[j]),
                ),
            forall|j: int|
                0 <= j < i && walks(plan@[j]) ==> #[trigger] regs@[j] == clamp_u16(
                    orig[j] + walk_draw(source.draws(), base, plan@, j).2,
                ),
            forall|j: int| 0 <= j < i ==> tick_outcome(plan@[j], #[trigger] orig[j], regs@[j], sine@[j]),
            forall|j: int| i <= j < orig.len() ==> #[trigger] regs@[j] == orig[j],
        decreases orig.len() - i,
    {
        let ghost prev = source.draws();
        let ghost prev_regs = regs@;
        proof {
            lemma_walk_count_bounds(plan@, i as int);
        }
        let cfg = plan[i];
        let delta: i32 = match cfg {
            None => source.draw_step(DEFAULT_WALK),
            Some(c) => match c.behavior {
                Behavior::Walk => source.draw_step(c.delta),
                _ => 0,
            },
        };
        let v = next_value(cfg, regs[i], delta, sine[i]);
        regs.set(i, v);
        proof {
            let w = walk_count(plan@, i as int);
            assert(walk_count(plan@, i + 1) == w + if walks(plan@[i as int]) { 1int } else { 0int });
            assert(source.draws().subrange(0, base) =~= prev.subrange(0, base));
            assert forall|k: int| 0 <= k < w implies #[trigger] source.draws()[base + k] == prev[base + k] by {}
            assert forall|j: int| 0 <= j <= i && walks(plan@[j]) implies drawn_from(
                #[trigger] walk_draw(source.draws(), base, plan@, j),
                -walk_bound(plan@[j]),
                walk_bound(plan@[j]),
            ) && regs@[j] == clamp_u16(orig[j] + walk_draw(source.draws(), base, plan@, j).2) by {
                if j < i {
                    lemma_walk_count_mono(plan@, j + 1, i as int);
                    lemma_walk_count_bounds(plan@, j);
                    assert(walk_count(plan@, j + 1) == walk_count(plan@, j) + 1);
                    assert(source.draws()[base + walk_count(plan@, j)] == prev[base + walk_count(plan@, j)]);
                    assert(walk_draw(source.draws(), base, plan@, j) == walk_draw(prev, base, plan@, j));
                    assert(regs@[j] == prev_regs[j]);
                }
            }
        }
        i = i + 1;
    }
}

proof fn lemma_walk_count_mono(plan: Seq<Option<RegisterConfig>>, m: int, n: int)
    requires
        0 <= m <= n,
    ensures
        walk_count(plan, m) <= walk_count(plan, n),
    decreases n - m,
{
    if m < n {
        lemma_walk_count_mono(plan, m, n - 1);
    }
}

/// The tick counter after one more tick (wrapping at `u64::MAX`).
pub fn next_tick(tick: u64) -> (t: u64)
    ensures
        t == if tick == u64::MAX { 0 } else { tick + 1 },
{
    if tick == u64::MAX {
        0
    } else {
        tick + 1
    }
}

/// The counter register at `v` after `k` ticks of `step`.
pub open spec fn counter_after(v: u16, step: i32, k: nat) -> u16
    decreases k,
{
    if k == 0 {
        v
    } else {
        counter_next(counter_after(v, step, (k - 1) as nat), step)
    }
}

/// A counter that starts at `v` holds `(v + k * step) mod 65536` after `k` ticks:
/// it never saturates, it wraps.
pub proof fn law_counter_wraps(v: u16, step: i32, k: nat)
    ensures
        counter_after(v, step, k) == ((v + k * step) % 65536) as u16,
    decreases k,
{
    if k > 0 {
        law_counter_wraps(v, step, (k - 1) as nat);
        let a: int = v + (k - 1) * step;
        let c = counter_after(v, step, (k - 1) as nat);
        assert(c as int == a % 65536);
        vstd::arithmetic::div_mod::lemma_add_mod_noop_right(step as int, a, 65536);
        assert(v + k * step == a + step) by (nonlinear_arith)
            requires
                a == v + (k - 1) * step,
        ;
        assert((c + step) % 65536 == (step + a % 65536) % 65536);
        assert((step + a) % 65536 == (v + k * step) % 65536);
        assert(counter_after(v, step, k) == counter_next(c, step));
        assert(counter_next(c, step) == ((c + step) % 65536) as u16);
    } else {
        assert(k * step == 0) by (nonlinear_arith)
            requires
                k == 0,
        ;
    }
}

/// A big-endian 16-bit number made of the bytes `hi` and `lo`.
pub open spec fn be16(hi: u8, lo: u8) -> int {
    hi * 256 + lo
}

/// The two big-endian bytes of `v`.
pub open spec fn be_bytes(v: int) -> Seq<u8> {
    seq![(v / 256) as u8, (v % 256) as u8]
}

/// The register values `values`, each as two big-endian bytes.
pub open spec fn register_bytes(values: Seq<u16>) -> Seq<u8> {
    Seq::new(
        2 * values.len(),
        |j: int| if j % 2 == 0 { (values[j / 2] / 256) as u8 } else { (values[j / 2] % 256) as u8 },
    )
}

/// How many registers a read of `quantity` registers from `start` is served:
/// the request is cut at the end of the bank.
pub open spec fn served_quantity(start: int, quantity: int) -> int {
    if quantity < NUM_REGISTERS - start {
        quantity
    } else if NUM_REGISTERS - start > 0 {
        NUM_REGISTERS - start
    } else {
        0
    }
}

/// Whether `frame` is a complete read request (function code 3 or 4) that the
/// simulator answers: an MBAP header of 7 bytes, a function code, and the start
/// address and quantity, with the frame at least as long as its length field.
pub open spec fn is_read_request(frame: Seq<u8>) -> bool {
    &&& frame.len() >= 12
    &&& frame.len() >= 6 + be16(frame[4], frame[5])
    &&& (frame[7] == 3 || frame[7] == 4)
}

/// The start address of a read request.
pub open spec fn request_start(frame: Seq<u8>) -> int {
    be16(frame[8], frame[9])
}

/// What the simulator sends back for the bytes `frame` of one read: nothing for
/// a short or incomplete frame or another function code; for a read request, the
/// transaction and protocol ids, the length of the rest, the unit id, the
/// function code, the byte count and the served registers, big-endian.
pub open spec fn response_spec(frame: Seq<u8>, regs: Seq<u16>) -> Option<Seq<u8>> {
    if is_read_request(frame) {
        let start = request_start(frame);
        let qty = served_quantity(start, be16(frame[10], frame[11]));
        let values = regs.subrange(start, start + qty);
        Some(
            frame.subrange(0, 4) + be_bytes(2 * qty + 3) + seq![frame[6], frame[7], (2 * qty) as u8]
                + register_bytes(values),
        )
    } else {
        None
    }
}

/// Whether the simulator can answer `frame` without reading past its bank. A
/// read request that starts beyond register 100 is not served: reading its
/// (empty) slice of the bank panics.
pub open spec fn request_in_bank(frame: Seq<u8>) -> bool {
    is_read_request(frame) ==> request_start(frame) <= NUM_REGISTERS
}

/// Reading the answer to a read request back gives what was asked: it echoes
/// the transaction and protocol ids, the unit id and the function code, its
/// length field counts the bytes after it, its byte count is twice the number of
/// served registers, and each pair of payload bytes decodes to the register at
/// that position of the bank.
pub proof fn law_response_decodes(frame: Seq<u8>, regs: Seq<u16>)
    requires
        regs.len() == NUM_REGISTERS,
        is_read_request(frame),
        request_in_bank(frame),
    ensures
        response_spec(frame, regs) matches Some(bytes) && {
            let start = request_start(frame);
            let qty = served_quantity(start, be16(frame[10], frame[11]));
            &&& bytes.len() == 9 + 2 * qty
            &&& bytes.subrange(0, 4) == frame.subrange(0, 4)
            &&& be16(bytes[4], bytes[5]) == bytes.len() - 6
            &&& bytes[6] == frame[6]
            &&& bytes[7] == frame[7]
            &&& bytes[8] == 2 * qty
            &&& forall|k: int| 0 <= k < qty ==> be16(#[trigger] bytes[9 + 2 * k], bytes[10 + 2 * k]) == regs[start + k]
        },
{
    let start = request_start(frame);
    let qty = served_quantity(start, be16(frame[10], frame[11]));
    let values = regs.subrange(start, start + qty);
    let bytes = response_spec(frame, regs)->0;
    let head = frame.subrange(0, 4) + be_bytes(2 * qty + 3) + seq![frame[6], frame[7], (2 * qty) as u8];
    assert(bytes == head + register_bytes(values));
    assert(bytes.subrange(0, 4) =~= frame.subrange(0, 4));
    assert forall|k: int| 0 <= k < qty implies be16(#[trigger] bytes[9 + 2 * k], bytes[10 + 2 * k]) == regs[start + k] by {
        let v = values[k];
        assert(bytes[9 + 2 * k] == register_bytes(values)[2 * k]);
        assert(bytes[10 + 2 * k] == register_bytes(values)[2 * k + 1]);
        assert((2 * k) % 2 == 0 && (2 * k) / 2 == k);
        assert((2 * k + 1) % 2 == 1 && (2 * k + 1) / 2 == k);
        assert((v / 256) * 256 + v % 256 == v);
    }
}

/// The words of a read reply's payload, each two big-endian bytes, as the
/// Modbus protocol has a client read them (tokio-modbus's client codec reads
/// the byte count, then byte count / 2 big-endian words).
pub open spec fn decode_words(payload: Seq<u8>) -> Seq<u16> {
    Seq::new(payload.len() / 2, |k: int| be16(payload[2 * k], payload[2 * k + 1]) as u16)
}

/// A client that reads registers from the simulator gets the bank: for a read
/// of `quantity` registers from protocol address `start` that lies within the
/// bank, the reply's payload, read as words and numbered from register
/// `40001 + start`, pairs register `40001 + start + i` with bank slot
/// `start + i`.
pub proof fn law_poll_reads_bank(frame: Seq<u8>, regs: Seq<u16>)
    requires
        regs.len() == NUM_REGISTERS,
        is_read_request(frame),
        request_start(frame) + be16(frame[10], frame[11]) <= NUM_REGISTERS,
    ensures
        response_spec(frame, regs) matches Some(bytes) && numbered(
            (FIRST_REGISTER + request_start(frame)) as u16,
            decode_words(bytes.skip(9)),
        ) == Seq::new(
            be16(frame[10], frame[11]) as nat,
            |i: int| ((FIRST_REGISTER + request_start(frame) + i) as u16, regs[request_start(frame) + i]),
        ),
{
    let start = request_start(frame);
    let qty = be16(frame[10], frame[11]);
    law_response_decodes(frame, regs);
    let bytes = response_spec(frame, regs)->0;
    let words = decode_words(bytes.skip(9));
    assert(served_quantity(start, qty) == qty);
    assert(words.len() == qty);
    assert forall|i: int| 0 <= i < qty implies #[trigger] words[i] == regs[start + i] by {
        assert(bytes.skip(9)[2 * i] == bytes[9 + 2 * i]);
        assert(bytes.skip(9)[2 * i + 1] == bytes[10 + 2 * i]);
    }
    let lhs = numbered((FIRST_REGISTER + start) as u16, words);
    let rhs = Seq::new(qty as nat, |i: int| ((FIRST_REGISTER + start + i) as u16, regs[start + i]));
    assert(lhs =~= rhs) by {
        assert forall|i: int| 0 <= i < qty implies lhs[i] == rhs[i] by {
            assert(words[i] == regs[start + i]);
        }
    }
}

/// The frame a Modbus TCP client sends to read `quantity` holding registers
/// from protocol address `start` of unit `unit` under transaction id `tid`:
/// the MBAP header (transaction id, protocol id 0, the length 6 of what
/// follows, the unit id), function code 3, then the address and quantity, all
/// big-endian. tokio-modbus's client codec writes exactly these bytes.
pub open spec fn read_holding_frame(tid: u16, unit: u8, start: u16, quantity: u16) -> Seq<u8> {
    be_bytes(tid as int) + seq![0u8, 0u8, 0u8, 6u8, unit, 3u8] + be_bytes(start as int) + be_bytes(quantity as int)
}

/// A client that reads `quantity` holding registers from register
/// `40001 + start` of the simulator, within the bank, gets the bank back: the
/// reply carries its transaction id, `quantity` words, and read as words and
/// numbered from `40001 + start` it pairs register `40001 + start + i` with bank
/// slot `start + i`.
pub proof fn law_client_reads_bank(tid: u16, unit: u8, start: u16, quantity: u16, regs: Seq<u16>)
    requires
        regs.len() == NUM_REGISTERS,
        start + quantity <= NUM_REGISTERS,
    ensures
        response_spec(read_holding_frame(tid, unit, start, quantity), regs) matches Some(bytes) && {
            &&& bytes.subrange(0, 2) == be_bytes(tid as int)
            &&& bytes[8] == 2 * quantity
            &&& bytes.len() == 9 + 2 * quantity
            &&& numbered((FIRST_REGISTER + start) as u16, decode_words(bytes.skip(9))) == Seq::new(
                quantity as nat,
                |i: int| ((FIRST_REGISTER + start + i) as u16, regs[start + i]),
            )
        },
{
    let f = read_holding_frame(tid, unit, start, quantity);
    assert(f.len() == 12);
    assert(f[4] == 0 && f[5] == 6 && f[7] == 3);
    assert(f[8] == (start / 256) as u8 && f[9] == (start % 256) as u8);
    assert(f[10] == (quantity / 256) as u8 && f[11] == (quantity % 256) as u8);
    assert(be16(f[8], f[9]) == start);
    assert(be16(f[10], f[11]) == quantity);
    assert(is_read_request(f));
    law_poll_reads_bank(f, regs);
    law_response_decodes(f, regs);
    let bytes = response_spec(f, regs)->0;
    assert(bytes.subrange(0, 2) =~= f.subrange(0, 4).subrange(0, 2));
    assert(f.subrange(0, 2) =~= be_bytes(tid as int));
}

fn be16_at(frame: &[u8], i: usize) -> (v: usize)
    requires
        i + 1 < frame@.len(),
    ensures
        v == be16(frame@[i as int], frame@[i + 1]),
{
    frame[i] as usize * 256 + frame[i + 1] as usize
}

/// Whether `frame` is a complete read request (see `is_read_request`).
pub fn read_request(frame: &[u8]) -> (b: bool)
    ensures
        b == is_read_request(frame@),
{
    frame.len() >= 12 && frame.len() >= 6 + be16_at(frame, 4) && (frame[7] == 3 || frame[7] == 4)
}

/// Whether the simulator can answer `frame` (see `request_in_bank`).
pub fn request_fits_bank(frame: &[u8]) -> (b: bool)
    ensures
        b == request_in_bank(frame@),
{
    !read_request(frame) || be16_at(frame, 8) <= NUM_REGISTERS
}

/// The answer to the bytes `frame` received from a client, read from the bank
/// `regs` (function codes 3 and 4 are served alike), or `None` when nothing is
/// sent back.
pub fn modbus_response(frame: &[u8], regs: &Vec<u16>) -> (r: Option<Vec<u8>>)
    requires
        regs@.len() == NUM_REGISTERS,
        request_in_bank(frame@),
    ensures
        match r {
            Some(bytes) => response_spec(frame@, regs@) == Some(bytes@),
            None => response_spec(frame@, regs@) is None,
        },
{
    if !read_request(frame) {
        return None;
    }
    let start = be16_at(frame, 8);
    let requested = be16_at(frame, 10);
    let room = if NUM_REGISTERS > start { NUM_REGISTERS - start } else { 0 };
    let qty = if requested < room { requested } else { room };
    assert(qty == served_quantity(start as int, requested as int));
    let pdu_len = 2 + qty * 2 + 1;
    let mut response: Vec<u8> = Vec::new();
    response.push(frame[0]);
    response.push(frame[1]);
    response.push(frame[2]);
    response.push(frame[3]);
    response.push((pdu_len / 256) as u8);
    response.push((pdu_len % 256) as u8);
    response.push(frame[6]);
    response.push(frame[7]);
    response.push((qty * 2) as u8);
    let ghost header = response@;
    let ghost values = regs@.subrange(start as int, start + qty);
    let mut k: usize = 0;
    while k < qty
        invariant
            k <= qty,
            start + qty <= NUM_REGISTERS,
            regs@.len() == NUM_REGISTERS,
            values == regs@.subrange(start as int, start + qty),
            response@.len() == 9 + 2 * k,
            response@.subrange(0, 9) == header,
            forall|j: int| 0 <= j < 2 * k ==> #[trigger] response@[9 + j] == register_bytes(values)[j],
        decreases qty - k,
    {
        let v = regs[start + k];
        response.push((v / 256) as u8);
        response.push((v % 256) as u8);
        proof {
            assert(values[k as int] == v);
            assert(response@.subrange(0, 9) =~= header);
        }
        k = k + 1;
    }
    proof {
        let expect = frame@.subrange(0, 4) + be_bytes(2 * qty + 3) + seq![frame@[6], frame@[7], (2 * qty) as u8]
            + register_bytes(values);
        assert(header =~= frame@.subrange(0, 4) + be_bytes(2 * qty + 3) + seq![frame@[6], frame@[7], (2 * qty) as u8]);
        assert(response@ =~= expect) by {
            assert forall|j: int| 0 <= j < response@.len() implies response@[j] == expect[j] by {
                if j < 9 {
                    assert(response@[j] == response@.subrange(0, 9)[j]);
                } else {
                    assert(response@[9 + (j - 9)] == register_bytes(values)[j - 9]);
                }
            }
        }
    }
    Some(response)
}

/// The distance between two integers.
pub open spec fn distance(a: int, b: int) -> int {
    if a >= b {
        a - b
    } else {
        b - a
    }
}

/// A walking register lands on the register value nearest to its old value
/// plus the step: no value in `0..=65535` lies closer to `old + delta` than
/// `clamp_u16(old + delta)`. So a step past 0 stops at 0, a step past 65535
/// stops at 65535, and a step inside the range is taken as it is.
pub proof fn law_walk_lands_nearest(x: int)
    ensures
        0 <= clamp_u16(x) <= 65535,
        forall|y: int| 0 <= y <= 65535 ==> distance(clamp_u16(x) as int, x) <= #[trigger] distance(y, x),
        0 <= x <= 65535 ==> clamp_u16(x) == x,
{
}

/// A counter register moves by exactly its configured step, modulo 65536,
/// whatever the step's sign: the new value differs from the old value plus the
/// step by a multiple of 65536.
pub proof fn law_counter_tick_steps(c: RegisterConfig, old: u16, delta: int, sine: u16)
    requires
        c.behavior == Behavior::Counter,
    ensures
        ((next_value_spec(Some(c), old, delta, sine) - (old + c.step)) as int) % 65536 == 0,
{
    let x: int = old + c.step;
    let r = next_value_spec(Some(c), old, delta, sine);
    vstd::arithmetic::div_mod::lemma_fundamental_div_mod(x, 65536);
    assert(r as int == x % 65536);
    assert(r - x == (-(x / 65536)) * 65536) by (nonlinear_arith)
        requires
            x == 65536 * (x / 65536) + (x % 65536),
            r as int == x % 65536,
    ;
    vstd::arithmetic::div_mod::lemma_mod_multiples_basic(-(x / 65536), 65536);
}

/// A read is served as far as it can be: the reply carries at most the
/// registers asked for, none beyond the end of the bank, and either all of
/// them or every register up to the end of the bank.
pub proof fn law_read_serves_rest(frame: Seq<u8>, regs: Seq<u16>)
    requires
        regs.len() == NUM_REGISTERS,
        is_read_request(frame),
        request_in_bank(frame),
    ensures
        response_spec(frame, regs) matches Some(bytes) && {
            let start = request_start(frame);
            let asked = be16(frame[10], frame[11]);
            let served = (bytes.len() - 9) / 2;
            &&& bytes.len() >= 9 && (bytes.len() - 9) % 2 == 0
            &&& bytes[8] == 2 * served
            &&& 0 <= served <= asked
            &&& start + served <= NUM_REGISTERS
            &&& (served == asked || start + served == NUM_REGISTERS)
        },
{
    law_response_decodes(frame, regs);
}

/// Bank index `i` is governed by a configuration exactly when some
/// configuration names register `40001 + i`; then it is the last such one in
/// `configs`. A configuration whose address lies outside 40001-40100 governs
/// no register.
pub proof fn law_config_governs_its_register(configs: Seq<RegisterConfig>, i: int)
    requires
        0 <= i < NUM_REGISTERS,
    ensures
        config_for(configs, i) is None <==> forall|k: int| 0 <= k < configs.len() ==> #[trigger] configs[k].address != FIRST_REGISTER + i,
        config_for(configs, i) matches Some(c) ==> c.address == FIRST_REGISTER + i && exists|k: int|
            0 <= k < configs.len() && #[trigger] configs[k] == c && forall|j: int|
                k < j < configs.len() ==> #[trigger] configs[j].address != FIRST_REGISTER + i,
    decreases configs.len(),
{
    if configs.len() > 0 {
        let rest = configs.drop_last();
        law_config_governs_its_register(rest, i);
        let n = configs.len() - 1;
        assert forall|k: int| 0 <= k < n implies #[trigger] configs[k] == rest[k] by {}
        if configs.last().address == FIRST_REGISTER + i {
            assert(config_index(configs.last()) == Some(i));
            assert(configs[n] == configs.last());
        } else {
            assert(config_index(configs.last()) != Some(i));
            match config_for(rest, i) {
                Some(c) => {
                    let k = choose|k: int|
                        0 <= k < rest.len() && #[trigger] rest[k] == c && forall|j: int|
                            k < j < rest.len() ==> #[trigger] rest[j].address != FIRST_REGISTER + i;
                    assert(configs[k] == c);
                    assert forall|j: int| k < j < configs.len() implies #[trigger] configs[j].address != FIRST_REGISTER + i by {
                        if j < n {
                            assert(configs[j] == rest[j]);
                        }
                    }
                },
                None => {
                    assert forall|k: int| 0 <= k < configs.len() implies #[trigger] configs[k].address != FIRST_REGISTER + i by {
                        if k < n {
                            assert(configs[k] == rest[k]);
                        }
                    }
                },
            }
        }
    }
}

} // verus!
