//! Ternary evolution engine: a seeded XorShift64 generator, ternary agents,
//! and the engine that spawns, links and evolves them.

use vstd::prelude::*;
use crate::wasm_bridge::{Trit, Tryte};
use crate::wasm_config::WasmConfig;

verus! {

/// One step of XorShift64 (shifts 13, 7, 17).
pub open spec fn xorshift64(x: u64) -> u64 {
    let a = x ^ (x << 13u64);
    let b = a ^ (a >> 7u64);
    b ^ (b << 17u64)
}

/// `n` steps of XorShift64 from state `x`.
pub open spec fn xorshift64_iter(x: u64, n: nat) -> u64
    decreases n,
{
    if n == 0 {
        x
    } else {
        xorshift64(xorshift64_iter(x, (n - 1) as nat))
    }
}

/// The state a generator starts from: the seed, or 1 for seed 0.
pub open spec fn seed_state(seed: u64) -> u64 {
    if seed == 0 {
        1
    } else {
        seed
    }
}

/// The trit drawn from a generator output: its low 32 bits modulo 3,
/// 0 giving -1, 1 giving 0 and 2 giving +1.
pub open spec fn trit_of_draw(x: u64) -> Trit {
    let r = (x as u32) % 3;
    if r == 0 {
        Trit::Neg
    } else if r == 1 {
        Trit::Zero
    } else {
        Trit::Pos
    }
}

proof fn lemma_xorshift64_nonzero(x: u64)
    requires
        x != 0,
    ensures
        xorshift64(x) != 0,
{
    assert(x != 0 ==> (x ^ (x << 13u64)) != 0) by (bit_vector);
    let a = x ^ (x << 13u64);
    assert(a != 0 ==> (a ^ (a >> 7u64)) != 0) by (bit_vector);
    let b = a ^ (a >> 7u64);
    assert(b != 0 ==> (b ^ (b << 17u64)) != 0) by (bit_vector);
}

/// A generator never reaches state 0 from a state that is not 0: every
/// output of a generator is nonzero.
pub proof fn xorshift64_never_zero(x: u64, n: nat)
    requires
        x != 0,
    ensures
        xorshift64_iter(x, n) != 0,
    decreases n,
{
    if n > 0 {
        xorshift64_never_zero(x, (n - 1) as nat);
        lemma_xorshift64_nonzero(xorshift64_iter(x, (n - 1) as nat));
    }
}

/// Steps of the generator compose: `m` steps after `k` steps are `k + m` steps.
proof fn lemma_xorshift64_iter_add(x: u64, k: nat, m: nat)
    ensures
        xorshift64_iter(xorshift64_iter(x, k), m) == xorshift64_iter(x, k + m),
    decreases m,
{
    if m > 0 {
        lemma_xorshift64_iter_add(x, k, (m - 1) as nat);
    }
}

/// The stream law of the generator: its outputs depend on the seed alone.
/// `Prng::new(seed)` starts at step 0 of the stream from `seed_state(seed)`;
/// a generator at step `k` returns step `k + 1` from `next_u64` (and from
/// `next_u32` and `next_trit`, which read the same draw) and moves there;
/// `next_tryte` moves six steps. So after `k` draws the next output is
/// step `k + 1`, generators with one seed give one stream, and no output
/// is 0.
pub proof fn prng_stream_law(seed: u64, k: nat, m: nat)
    ensures
        xorshift64_iter(seed_state(seed), 0) == seed_state(seed),
        xorshift64(xorshift64_iter(seed_state(seed), k)) == xorshift64_iter(seed_state(seed), k + 1),
        xorshift64_iter(xorshift64_iter(seed_state(seed), k), m) == xorshift64_iter(seed_state(seed), k + m),
        xorshift64_iter(seed_state(seed), k + 1) != 0,
{
    lemma_xorshift64_iter_add(seed_state(seed), k, m);
    xorshift64_never_zero(seed_state(seed), k + 1);
}

/// The trits of the `k`-th tryte (from 0) drawn from the stream of `seed`.
pub open spec fn seeded_tryte(seed: u64, k: nat) -> Seq<Trit> {
    Seq::new(6, |i: int| trit_of_draw(xorshift64_iter(seed_state(seed), (6 * k + i + 1) as nat)))
}

/// The spawn-stream law: an engine made with seed `s` has its generator at
/// step 0 of the stream of `s`; a `spawn_agent` with the generator at step
/// `6k` gives the new agent `seeded_tryte(s, k)`, the same tryte that the
/// `(k+1)`-th `next_tryte` of `Prng::new(s)` returns, and moves the
/// generator to step `6(k+1)`; every other engine operation leaves the
/// generator where it is. So the k-th successful spawn gets the k-th tryte
/// of the seed's stream.
pub proof fn spawn_stream_law(seed: u64, k: nat)
    ensures
        drawn_state(xorshift64_iter(seed_state(seed), 6 * k)) == seeded_tryte(seed, k),
        xorshift64_iter(xorshift64_iter(seed_state(seed), 6 * k), 6) == xorshift64_iter(seed_state(seed), 6 * (k + 1)),
{
    let x = xorshift64_iter(seed_state(seed), 6 * k);
    assert forall|i: int| 0 <= i < 6 implies drawn_state(x)[i] == #[trigger] seeded_tryte(seed, k)[i] by {
        lemma_xorshift64_iter_add(seed_state(seed), 6 * k, (i + 1) as nat);
    }
    assert(drawn_state(x) =~= seeded_tryte(seed, k));
    lemma_xorshift64_iter_add(seed_state(seed), 6 * k, 6);
}

/// Simple XorShift64 PRNG — deterministic, no_std friendly.
#[derive(Debug)]
pub struct Prng {
    state: u64,
}

impl View for Prng {
    type V = u64;

    /// The generator's state.
    closed spec fn view(&self) -> u64 {
        self.state
    }
}

impl Clone for Prng {
    fn clone(&self) -> (r: Self)
        ensures
            r@ == self@,
    {
        proof {
            use_type_invariant(self);
        }
        Prng { state: self.state }
    }
}

impl Prng {
    #[verifier::type_invariant]
    spec fn state_nonzero(self) -> bool {
        self.state != 0
    }

    pub fn new(seed: u64) -> (r: Self)
        ensures
            r@ == seed_state(seed),
            r@ != 0,
    {
        // Ensure non-zero state
        Self {
            state: if seed == 0 {
                1
            } else {
                seed
            },
        }
    }

    pub fn next_u64(&mut self) -> (r: u64)
        ensures
            r == xorshift64(old(self)@),
            final(self)@ == r,
            r != 0,
        no_unwind
    {
        proof {
            use_type_invariant(&*self);
            lemma_xorshift64_nonzero(self.state);
        }
        let mut x = self.state;
        x ^= x << 13;
        x ^= x >> 7;
        x ^= x << 17;
        self.state = x;
        x
    }

    pub fn next_u32(&mut self) -> (r: u32)
        ensures
            r == xorshift64(old(self)@) as u32,
            final(self)@ == xorshift64(old(self)@),
        no_unwind
    {
        self.next_u64() as u32
    }

    /// Generate a random trit.
    pub fn next_trit(&mut self) -> (r: Trit)
        ensures
            r == trit_of_draw(xorshift64(old(self)@)),
            final(self)@ == xorshift64(old(self)@),
        no_unwind
    {
        let d = self.next_u32() % 3;
        if d == 0 {
            Trit::Neg
        } else if d == 1 {
            Trit::Zero
        } else {
            Trit::Pos
        }
    }

    /// Generate a random tryte: six trits drawn in order, lowest first.
    pub fn next_tryte(&mut self) -> (r: Tryte)
        ensures
            forall|i: int| 0 <= i < 6 ==> r.0@[i] == trit_of_draw(xorshift64_iter(old(self)@, (i + 1) as nat)),
            final(self)@ == xorshift64_iter(old(self)@, 6),
        no_unwind
    {
        let mut trits = [Trit::Zero, Trit::Zero, Trit::Zero, Trit::Zero, Trit::Zero, Trit::Zero];
        let mut i: usize = 0;
        while i < 6
            invariant
                0 <= i <= 6,
                self@ == xorshift64_iter(old(self)@, i as nat),
                forall|j: int| 0 <= j < i ==> trits@[j] == trit_of_draw(xorshift64_iter(old(self)@, (j + 1) as nat)),
            decreases 6 - i,
        {
            trits[i] = self.next_trit();
            i = i + 1;
        }
        Tryte(trits)
    }
}

/// What a tryte-valued agent is, as plain values.
pub struct AgentView {
    pub id: u32,
    pub state: Seq<Trit>,
    pub energy: u8,
    pub generation: u32,
    pub connections: Seq<u32>,
}

/// A ternary agent — the fundamental unit of the browser engine.
#[derive(Debug, Clone)]
pub struct TernaryAgent {
    /// Unique agent ID.
    pub id: u32,
    /// Current state as a tryte.
    pub state: Tryte,
    /// Energy level (0..=255).
    pub energy: u8,
    /// Generation counter.
    pub generation: u32,
    /// Connections to other agent IDs.
    pub connections: Vec<u32>,
}

impl View for TernaryAgent {
    type V = AgentView;

    open spec fn view(&self) -> AgentView {
        AgentView {
            id: self.id,
            state: self.state.0@,
            energy: self.energy,
            generation: self.generation,
            connections: self.connections@,
        }
    }
}

/// The sum digit of adding two trits (the second part of `Trit::add`).
pub open spec fn sum_trit(a: Trit, b: Trit) -> Trit {
    let s = a.value() + b.value();
    if s == -2 || s == 1 {
        Trit::Pos
    } else if s == -1 || s == 2 {
        Trit::Neg
    } else {
        Trit::Zero
    }
}

/// Energy after an interaction: +1 for a positive one, -1 for a negative
/// one, both saturating within 0..=255.
pub open spec fn energy_after(e: u8, t: Trit) -> u8 {
    match t {
        Trit::Pos => if e == 255 { 255 } else { (e + 1) as u8 },
        Trit::Neg => if e == 0 { 0 } else { (e - 1) as u8 },
        Trit::Zero => e,
    }
}

/// An agent after it has interacted with a neighbour in state `n`: its
/// lowest trit becomes the sum digit of its own and the neighbour's lowest
/// trit, its energy follows that trit, and its generation goes up by one.
pub open spec fn evaluated(a: AgentView, n: Seq<Trit>) -> AgentView {
    let t = sum_trit(a.state[0], n[0]);
    AgentView {
        state: a.state.update(0, t),
        energy: energy_after(a.energy, t),
        generation: (a.generation + 1) as u32,
        ..a
    }
}

impl TernaryAgent {
    pub fn new(id: u32, state: Tryte) -> (r: Self)
        ensures
            r@ == (AgentView {
                id,
                state: state.0@,
                energy: 128,
                generation: 0,
                connections: Seq::empty(),
            }),
    {
        Self { id, state, energy: 128, generation: 0, connections: Vec::new() }
    }

    /// Evaluate this agent against a neighbor's state.
    pub fn evaluate(&mut self, neighbor_state: Tryte)
        requires
            old(self).generation < u32::MAX,
        ensures
            final(self)@ == evaluated(old(self)@, neighbor_state.0@),
    {
        let interaction = Trit::add(self.state.0[0], neighbor_state.0[0]).1;
        self.state.0[0] = interaction;
        self.generation += 1;

        // Energy adjustment based on interaction
        match interaction {
            Trit::Pos => {
                self.energy = self.energy.saturating_add(1);
            },
            Trit::Neg => {
                self.energy = self.energy.saturating_sub(1);
            },
            Trit::Zero => {},
        }
        assert(self@.state =~= evaluated(old(self)@, neighbor_state.0@).state);
    }

    /// Check if agent is still alive.
    pub fn is_alive(&self) -> (r: bool)
        ensures
            r == (self.energy > 0),
    {
        self.energy > 0
    }
}

/// The (agent id, neighbour state) pairs a tick reads from the first `n`
/// agents, before it changes anything: one for each agent whose first
/// connection names an agent that exists.
pub open spec fn pairs_prefix(agents: Seq<AgentView>, n: nat) -> Seq<(u32, Seq<Trit>)>
    decreases n,
{
    if n == 0 {
        Seq::empty()
    } else {
        let rest = pairs_prefix(agents, (n - 1) as nat);
        let a = agents[n - 1];
        if a.connections.len() > 0 && a.connections[0] < agents.len() {
            rest.push((a.id, agents[a.connections[0] as int].state))
        } else {
            rest
        }
    }
}

/// All the interaction pairs of one tick, in agent order.
pub open spec fn tick_pairs(agents: Seq<AgentView>) -> Seq<(u32, Seq<Trit>)> {
    pairs_prefix(agents, agents.len())
}

/// The agents after the first `n` pairs have been applied in order: each
/// pair makes the agent at the pair's id (if there is one) interact with the
/// pair's state.
pub open spec fn apply_pairs(agents: Seq<AgentView>, pairs: Seq<(u32, Seq<Trit>)>, n: nat) -> Seq<
    AgentView,
>
    decreases n,
{
    if n == 0 {
        agents
    } else {
        let ag = apply_pairs(agents, pairs, (n - 1) as nat);
        let p = pairs[n - 1];
        if p.0 < ag.len() {
            ag.update(p.0 as int, evaluated(ag[p.0 as int], p.1))
        } else {
            ag
        }
    }
}

/// The agents after one tick.
pub open spec fn ticked(agents: Seq<AgentView>) -> Seq<AgentView> {
    apply_pairs(agents, tick_pairs(agents), tick_pairs(agents).len())
}

/// The agents after `n` ticks.
pub open spec fn ticked_n(agents: Seq<AgentView>, n: nat) -> Seq<AgentView>
    decreases n,
{
    if n == 0 {
        agents
    } else {
        ticked(ticked_n(agents, (n - 1) as nat))
    }
}

/// How many of the first `n` pairs go to agent `i`.
pub open spec fn hits(pairs: Seq<(u32, Seq<Trit>)>, i: int, n: nat) -> nat
    decreases n,
{
    if n == 0 {
        0
    } else {
        hits(pairs, i, (n - 1) as nat) + if pairs[n - 1].0 == i { 1nat } else { 0nat }
    }
}

/// How many interactions agent `i` has in one tick.
pub open spec fn tick_hits(agents: Seq<AgentView>, i: int) -> nat {
    hits(tick_pairs(agents), i, tick_pairs(agents).len())
}

/// Whether `n` ticks leave every agent's generation counter within `u32`.
pub open spec fn generation_room(agents: Seq<AgentView>, n: nat) -> bool {
    forall|i: int| 0 <= i < agents.len() ==> agents[i].generation + n * tick_hits(agents, i) <= u32::MAX
}

/// Two agent sequences with the same ids and connections, in the same order.
pub open spec fn same_links(a: Seq<AgentView>, b: Seq<AgentView>) -> bool {
    &&& a.len() == b.len()
    &&& forall|i: int| 0 <= i < a.len() ==> #[trigger] a[i].id == b[i].id && a[i].connections == b[i].connections
}

/// Number of the first `n` agents whose energy is above 0.
pub open spec fn alive_prefix(agents: Seq<AgentView>, n: nat) -> nat
    decreases n,
{
    if n == 0 {
        0
    } else {
        alive_prefix(agents, (n - 1) as nat) + if agents[n - 1].energy > 0 { 1nat } else { 0nat }
    }
}

/// The hash of the engine state after mixing in the first `n` agents,
/// starting from the tick count.
pub open spec fn hash_prefix(agents: Seq<TernaryAgent>, tick: u64, n: nat) -> u64
    decreases n,
{
    if n == 0 {
        tick
    } else {
        let h = hash_prefix(agents, tick, (n - 1) as nat);
        let a = agents[n - 1];
        let h1 = h ^ (a.id as u64).wrapping_mul(0x9E3779B97F4A7C15u64);
        let h2 = h1 ^ (a.state.value() as i32 as u64).wrapping_shl(16);
        h2 ^ (a.energy as u64)
    }
}

/// Connections of `a` once `b` is linked to it: `b` is added at the end
/// unless it is already there.
pub open spec fn with_link(conns: Seq<u32>, b: u32) -> Seq<u32> {
    if conns.contains(b) {
        conns
    } else {
        conns.push(b)
    }
}

/// The agents after agent `a` is linked to `b` (one direction).
pub open spec fn linked(agents: Seq<AgentView>, a: int, b: u32) -> Seq<AgentView> {
    agents.update(a, AgentView { connections: with_link(agents[a].connections, b), ..agents[a] })
}

/// The state of the six trits a generator in state `x` draws, in order.
pub open spec fn drawn_state(x: u64) -> Seq<Trit> {
    Seq::new(6, |i: int| trit_of_draw(xorshift64_iter(x, (i + 1) as nat)))
}

/// A newly spawned agent.
pub open spec fn spawned(id: u32, state: Seq<Trit>) -> AgentView {
    AgentView { id, state, energy: 128, generation: 0, connections: Seq::empty() }
}


/// The interaction pairs as plain values.
pub open spec fn pairs_view(v: Seq<(u32, Tryte)>) -> Seq<(u32, Seq<Trit>)> {
    v.map_values(|p: (u32, Tryte)| (p.0, p.1.0@))
}

proof fn lemma_hits_monotone(pairs: Seq<(u32, Seq<Trit>)>, i: int, m: nat, n: nat)
    requires
        m <= n,
    ensures
        hits(pairs, i, m) <= hits(pairs, i, n),
    decreases n,
{
    if n > m {
        lemma_hits_monotone(pairs, i, m, (n - 1) as nat);
    }
}

/// Applying pairs changes no id and no connection, and raises each agent's
/// generation by the number of pairs that go to it.
proof fn lemma_apply_pairs(agents: Seq<AgentView>, pairs: Seq<(u32, Seq<Trit>)>, n: nat)
    requires
        n <= pairs.len(),
        forall|i: int| 0 <= i < agents.len() ==> agents[i].generation + hits(pairs, i, n) <= u32::MAX,
    ensures
        same_links(apply_pairs(agents, pairs, n), agents),
        forall|i: int| 0 <= i < agents.len() ==> #[trigger] apply_pairs(agents, pairs, n)[i].generation
            == agents[i].generation + hits(pairs, i, n),
    decreases n,
{
    if n > 0 {
        let m = (n - 1) as nat;
        assert forall|i: int| 0 <= i < agents.len() implies agents[i].generation + hits(pairs, i, m) <= u32::MAX by {
            lemma_hits_monotone(pairs, i, m, n);
        }
        lemma_apply_pairs(agents, pairs, m);
        let ag = apply_pairs(agents, pairs, m);
        let r = apply_pairs(agents, pairs, n);
        assert forall|i: int| 0 <= i < agents.len() implies #[trigger] r[i].generation == agents[i].generation + hits(pairs, i, n) by {
            assert(ag[i].generation == agents[i].generation + hits(pairs, i, m));
        }
    }
}

/// The pairs of the first `n` agents go to the same ids in any two agent
/// sequences with the same links.
proof fn lemma_pairs_same_links(a: Seq<AgentView>, b: Seq<AgentView>, n: nat)
    requires
        same_links(a, b),
        n <= a.len(),
    ensures
        pairs_prefix(a, n).len() == pairs_prefix(b, n).len(),
        forall|k: int| 0 <= k < pairs_prefix(a, n).len() ==> #[trigger] pairs_prefix(a, n)[k].0 == pairs_prefix(b, n)[k].0,
    decreases n,
{
    if n > 0 {
        lemma_pairs_same_links(a, b, (n - 1) as nat);
        assert(a[n - 1].id == b[n - 1].id && a[n - 1].connections == b[n - 1].connections);
    }
}

proof fn lemma_hits_same_ids(p: Seq<(u32, Seq<Trit>)>, q: Seq<(u32, Seq<Trit>)>, i: int, n: nat)
    requires
        n <= p.len(),
        n <= q.len(),
        forall|k: int| 0 <= k < n ==> #[trigger] p[k].0 == q[k].0,
    ensures
        hits(p, i, n) == hits(q, i, n),
    decreases n,
{
    if n > 0 {
        lemma_hits_same_ids(p, q, i, (n - 1) as nat);
    }
}

/// Agents with the same links have the same number of interactions per tick.
proof fn lemma_tick_hits_same_links(a: Seq<AgentView>, b: Seq<AgentView>, i: int)
    requires
        same_links(a, b),
    ensures
        tick_hits(a, i) == tick_hits(b, i),
{
    lemma_pairs_same_links(a, b, a.len());
    lemma_hits_same_ids(tick_pairs(a), tick_pairs(b), i, tick_pairs(a).len());
}

/// A tick changes no agent's id or connections, and raises each agent's
/// generation by the number of interactions it has in that tick; so every
/// agent has the same number of interactions in each later tick.
pub proof fn tick_keeps_links(agents: Seq<AgentView>)
    requires
        generation_room(agents, 1),
    ensures
        same_links(ticked(agents), agents),
        forall|i: int| 0 <= i < agents.len() ==> #[trigger] ticked(agents)[i].generation == agents[i].generation + tick_hits(agents, i),
        forall|i: int| #[trigger] tick_hits(ticked(agents), i) == tick_hits(agents, i),
{
    let p = tick_pairs(agents);
    assert forall|i: int| 0 <= i < agents.len() implies agents[i].generation + hits(p, i, p.len()) <= u32::MAX by {
        assert(agents[i].generation + 1 * tick_hits(agents, i) <= u32::MAX);
    }
    lemma_apply_pairs(agents, p, p.len());
    assert forall|i: int| #[trigger] tick_hits(ticked(agents), i) == tick_hits(agents, i) by {
        lemma_tick_hits_same_links(ticked(agents), agents, i);
    }
}

/// A tick has at most one interaction per agent with a usable first
/// connection, so no agent has more interactions in a tick than there are
/// agents; generations at most `u32::MAX - n * len` leave room for `n` ticks.
pub proof fn generation_room_law(agents: Seq<AgentView>, n: nat)
    requires
        forall|i: int| 0 <= i < agents.len() ==> #[trigger] agents[i].generation + n * agents.len() <= u32::MAX,
    ensures
        generation_room(agents, n),
        forall|i: int| #[trigger] tick_hits(agents, i) <= agents.len(),
{
    assert forall|i: int| #[trigger] tick_hits(agents, i) <= agents.len() by {
        lemma_hits_le_len(tick_pairs(agents), i, tick_pairs(agents).len());
        lemma_pairs_prefix_len(agents, agents.len());
    }
    assert forall|i: int| 0 <= i < agents.len() implies agents[i].generation + n * tick_hits(agents, i) <= u32::MAX by {
        let h = tick_hits(agents, i);
        let l = agents.len();
        assert(n * h <= n * l) by (nonlinear_arith)
            requires
                h <= l,
        ;
    }
}

proof fn lemma_hits_le_len(pairs: Seq<(u32, Seq<Trit>)>, i: int, n: nat)
    ensures
        hits(pairs, i, n) <= n,
    decreases n,
{
    if n > 0 {
        lemma_hits_le_len(pairs, i, (n - 1) as nat);
    }
}

proof fn lemma_pairs_prefix_len(agents: Seq<AgentView>, n: nat)
    ensures
        pairs_prefix(agents, n).len() <= n,
    decreases n,
{
    if n > 0 {
        lemma_pairs_prefix_len(agents, (n - 1) as nat);
    }
}

proof fn lemma_room_after_tick(agents: Seq<AgentView>, n: nat)
    requires
        n >= 1,
        generation_room(agents, n),
    ensures
        generation_room(agents, 1),
        generation_room(ticked(agents), (n - 1) as nat),
{
    assert forall|i: int| 0 <= i < agents.len() implies agents[i].generation + 1 * tick_hits(agents, i) <= u32::MAX by {
        let h = tick_hits(agents, i);
        assert(1 * h <= n * h) by (nonlinear_arith)
            requires
                n >= 1,
        ;
    }
    tick_keeps_links(agents);
    let t = ticked(agents);
    assert forall|i: int| 0 <= i < t.len() implies t[i].generation + ((n - 1) as nat) * tick_hits(t, i) <= u32::MAX by {
        let h = tick_hits(agents, i);
        assert(tick_hits(t, i) == h);
        assert(h + ((n - 1) as nat) * h == n * h) by (nonlinear_arith)
            requires
                n >= 1,
        ;
    }
}

/// Applying pairs reads only the first `n` of them.
proof fn lemma_apply_pairs_prefix(agents: Seq<AgentView>, s: Seq<(u32, Seq<Trit>)>, t: Seq<(u32, Seq<Trit>)>, n: nat)
    requires
        n <= s.len(),
        n <= t.len(),
        forall|k: int| 0 <= k < n ==> #[trigger] s[k] == t[k],
    ensures
        apply_pairs(agents, s, n) == apply_pairs(agents, t, n),
    decreases n,
{
    if n > 0 {
        lemma_apply_pairs_prefix(agents, s, t, (n - 1) as nat);
    }
}

/// Whether agent `i` has a first connection that names an existing agent.
pub open spec fn has_partner(agents: Seq<AgentView>, i: int) -> bool {
    agents[i].connections.len() > 0 && agents[i].connections[0] < agents.len()
}

/// With ids equal to positions, the first `m` agents' pairs make each of
/// them with a partner interact with that partner's state, once.
proof fn lemma_tick_indexed(agents: Seq<AgentView>, m: nat)
    requires
        m <= agents.len(),
        forall|j: int| 0 <= j < agents.len() ==> #[trigger] agents[j].id == j,
    ensures
        apply_pairs(agents, pairs_prefix(agents, m), pairs_prefix(agents, m).len()).len() == agents.len(),
        forall|j: int| 0 <= j < agents.len() ==> #[trigger] apply_pairs(agents, pairs_prefix(agents, m), pairs_prefix(agents, m).len())[j]
            == if j < m && has_partner(agents, j) {
                evaluated(agents[j], agents[agents[j].connections[0] as int].state)
            } else {
                agents[j]
            },
    decreases m,
{
    if m > 0 {
        let k = (m - 1) as nat;
        lemma_tick_indexed(agents, k);
        let p = pairs_prefix(agents, k);
        let q = pairs_prefix(agents, m);
        let prev = apply_pairs(agents, p, p.len());
        if has_partner(agents, k as int) {
            assert(q == p.push((agents[k as int].id, agents[agents[k as int].connections[0] as int].state)));
            lemma_apply_pairs_prefix(agents, q, p, p.len());
            assert(q[p.len() as int].0 == k);
            let r = apply_pairs(agents, q, q.len());
            assert(r == prev.update(k as int, evaluated(prev[k as int], q[p.len() as int].1)));
        } else {
            assert(q == p);
        }
    }
}

/// What one tick does to an agent, when agents' ids are their positions:
/// an agent whose first connection names an existing agent interacts with
/// the state that agent had before the tick: its lowest trit becomes the
/// balanced ternary sum digit (congruent to the sum of the two lowest trits
/// modulo 3), its other trits stay, its energy moves by that trit within
/// 0..=255, and its generation goes up by one. Every other agent is
/// unchanged, and no id or connection changes.
pub proof fn tick_law(agents: Seq<AgentView>, i: int)
    requires
        0 <= i < agents.len(),
        forall|j: int| 0 <= j < agents.len() ==> #[trigger] agents[j].id == j,
        forall|j: int| 0 <= j < agents.len() ==> #[trigger] agents[j].state.len() == 6,
        agents[i].generation < u32::MAX,
    ensures
        ticked(agents).len() == agents.len(),
        ticked(agents)[i].id == agents[i].id,
        ticked(agents)[i].connections == agents[i].connections,
        agents[i].connections.len() > 0 && agents[i].connections[0] < agents.len() ==> {
            let a = agents[i];
            let n = agents[a.connections[0] as int].state[0];
            let t = ticked(agents)[i];
            let e = a.energy + t.state[0].value();
            &&& (a.state[0].value() + n.value() - t.state[0].value()) % 3 == 0
            &&& t.state.len() == 6
            &&& forall|k: int| 1 <= k < 6 ==> #[trigger] t.state[k] == a.state[k]
            &&& t.energy == (if e < 0 { 0 } else if e > 255 { 255 } else { e })
            &&& t.generation == a.generation + 1
        },
        !(agents[i].connections.len() > 0 && agents[i].connections[0] < agents.len()) ==> ticked(agents)[i] == agents[i],
{
    lemma_tick_indexed(agents, agents.len());
    if has_partner(agents, i) {
        let a = agents[i];
        let n = agents[a.connections[0] as int].state[0];
        let s = sum_trit(a.state[0], n);
        assert((a.state[0].value() + n.value() - s.value()) % 3 == 0);
    }
}

/// The alive count is the number of agents whose energy is above 0, over
/// the whole sequence.
pub proof fn alive_count_law(agents: Seq<AgentView>)
    ensures
        alive_prefix(agents, agents.len()) == agents.filter(|a: AgentView| a.energy > 0).len(),
    decreases agents.len(),
{
    reveal(Seq::filter);
    if agents.len() > 0 {
        let d = agents.drop_last();
        alive_count_law(d);
        lemma_alive_prefix_take(agents, d, d.len());
    }
}

proof fn lemma_alive_prefix_take(a: Seq<AgentView>, b: Seq<AgentView>, n: nat)
    requires
        n <= a.len(),
        n <= b.len(),
        forall|k: int| 0 <= k < n ==> #[trigger] a[k] == b[k],
    ensures
        alive_prefix(a, n) == alive_prefix(b, n),
    decreases n,
{
    if n > 0 {
        lemma_alive_prefix_take(a, b, (n - 1) as nat);
    }
}

/// Replacing one agent changes the alive count by exactly what the old
/// and the new agent count: one less for a living agent that dies, one
/// more for a dead agent that lives, no change otherwise.
pub proof fn alive_count_update_law(agents: Seq<AgentView>, k: int, x: AgentView)
    requires
        0 <= k < agents.len(),
    ensures
        alive_prefix(agents.update(k, x), agents.len()) + (if agents[k].energy > 0 { 1int } else { 0 })
            == alive_prefix(agents, agents.len()) + (if x.energy > 0 { 1int } else { 0 }),
{
    lemma_alive_update(agents, k, x, agents.len());
}

proof fn lemma_alive_update(agents: Seq<AgentView>, k: int, x: AgentView, n: nat)
    requires
        0 <= k < agents.len(),
        n <= agents.len(),
    ensures
        alive_prefix(agents.update(k, x), n) + (if k < n && agents[k].energy > 0 { 1int } else { 0 })
            == alive_prefix(agents, n) + (if k < n && x.energy > 0 { 1int } else { 0 }),
    decreases n,
{
    if n > 0 {
        lemma_alive_update(agents, k, x, (n - 1) as nat);
    }
}

proof fn lemma_xor_same_mix(h: u64, g: u64, x: u64, y: u64, z: u64)
    ensures
        ((h ^ x) ^ y) ^ z ^ (((g ^ x) ^ y) ^ z) == h ^ g,
{
    assert(((h ^ x) ^ y) ^ z ^ (((g ^ x) ^ y) ^ z) == h ^ g) by (bit_vector);
}

proof fn lemma_xor_energy_mix(h: u64, x: u64, y: u64, e: u64, f: u64)
    ensures
        ((h ^ x) ^ y) ^ e ^ (((h ^ x) ^ y) ^ f) == e ^ f,
{
    assert(((h ^ x) ^ y) ^ e ^ (((h ^ x) ^ y) ^ f) == e ^ f) by (bit_vector);
}

/// The state hash mixes in every agent's energy: for two agent sequences
/// that differ only in the energy of agent `k`, the hashes differ by
/// exactly the XOR of the two energies (so they differ whenever the
/// energies do).
pub proof fn hash_energy_law(a: Seq<TernaryAgent>, b: Seq<TernaryAgent>, tick: u64, k: int, n: nat)
    requires
        a.len() == b.len(),
        0 <= k < n <= a.len(),
        forall|j: int| 0 <= j < a.len() && j != k ==> #[trigger] a[j] == b[j],
        a[k].id == b[k].id,
        a[k].state == b[k].state,
    ensures
        hash_prefix(a, tick, n) ^ hash_prefix(b, tick, n) == (a[k].energy as u64) ^ (b[k].energy as u64),
    decreases n,
{
    if n == k + 1 {
        lemma_hash_same_prefix(a, b, tick, k as nat);
        let h = hash_prefix(a, tick, k as nat);
        lemma_xor_energy_mix(
            h,
            (a[k].id as u64).wrapping_mul(0x9E3779B97F4A7C15u64),
            (a[k].state.value() as i32 as u64).wrapping_shl(16),
            a[k].energy as u64,
            b[k].energy as u64,
        );
    } else {
        hash_energy_law(a, b, tick, k, (n - 1) as nat);
        let m = (n - 1) as int;
        let x = a[m];
        assert(b[m] == x);
        lemma_xor_same_mix(
            hash_prefix(a, tick, (n - 1) as nat),
            hash_prefix(b, tick, (n - 1) as nat),
            (x.id as u64).wrapping_mul(0x9E3779B97F4A7C15u64),
            (x.state.value() as i32 as u64).wrapping_shl(16),
            x.energy as u64,
        );
    }
}

proof fn lemma_hash_same_prefix(a: Seq<TernaryAgent>, b: Seq<TernaryAgent>, tick: u64, n: nat)
    requires
        n <= a.len(),
        n <= b.len(),
        forall|j: int| 0 <= j < n ==> #[trigger] a[j] == b[j],
    ensures
        hash_prefix(a, tick, n) == hash_prefix(b, tick, n),
    decreases n,
{
    if n > 0 {
        lemma_hash_same_prefix(a, b, tick, (n - 1) as nat);
    }
}

proof fn lemma_xor_mix_swap(h: u64, x: u64, y: u64, z: u64, p: u64, q: u64, r: u64)
    ensures
        ((h ^ x) ^ y) ^ z ^ (((h ^ p) ^ q) ^ r) == ((x ^ y) ^ z) ^ ((p ^ q) ^ r),
{
    assert(((h ^ x) ^ y) ^ z ^ (((h ^ p) ^ q) ^ r) == ((x ^ y) ^ z) ^ ((p ^ q) ^ r)) by (bit_vector);
}

/// The state hash mixes each agent in by its id, state and energy: for two
/// agent sequences that differ only in agent `k`, the hashes differ by the
/// XOR of the two agents' mixes, where an agent's mix is its id times
/// 0x9E3779B97F4A7C15 (wrapping), XOR its state value shifted left 16 bits
/// (wrapping, as a 64-bit two's complement word), XOR its energy.
pub proof fn hash_agent_law(a: Seq<TernaryAgent>, b: Seq<TernaryAgent>, tick: u64, k: int, n: nat)
    requires
        a.len() == b.len(),
        0 <= k < n <= a.len(),
        forall|j: int| 0 <= j < a.len() && j != k ==> #[trigger] a[j] == b[j],
    ensures
        hash_prefix(a, tick, n) ^ hash_prefix(b, tick, n) == ((((a[k].id as u64) * 0x9E3779B97F4A7C15u64) % 0x1_0000_0000_0000_0000) as u64
            ^ (((a[k].state.value() as i32 as u64) << 16u32) as u64) ^ (a[k].energy as u64)) ^ ((((b[k].id as u64)
            * 0x9E3779B97F4A7C15u64) % 0x1_0000_0000_0000_0000) as u64 ^ (((b[k].state.value() as i32 as u64) << 16u32) as u64)
            ^ (b[k].energy as u64)),
    decreases n,
{
    if n == k + 1 {
        lemma_hash_same_prefix(a, b, tick, k as nat);
        lemma_xor_mix_swap(
            hash_prefix(a, tick, k as nat),
            (a[k].id as u64).wrapping_mul(0x9E3779B97F4A7C15u64),
            (a[k].state.value() as i32 as u64).wrapping_shl(16),
            a[k].energy as u64,
            (b[k].id as u64).wrapping_mul(0x9E3779B97F4A7C15u64),
            (b[k].state.value() as i32 as u64).wrapping_shl(16),
            b[k].energy as u64,
        );
    } else {
        hash_agent_law(a, b, tick, k, (n - 1) as nat);
        let m = (n - 1) as int;
        let x = a[m];
        assert(b[m] == x);
        lemma_xor_same_mix(
            hash_prefix(a, tick, (n - 1) as nat),
            hash_prefix(b, tick, (n - 1) as nat),
            (x.id as u64).wrapping_mul(0x9E3779B97F4A7C15u64),
            (x.state.value() as i32 as u64).wrapping_shl(16),
            x.energy as u64,
        );
    }
}

/// The hash of no agents is the tick count, and the tick count is mixed in
/// as a whole: two hashes of the same agents at ticks `t` and `u` differ
/// by `t ^ u`.
pub proof fn hash_tick_law(a: Seq<TernaryAgent>, t: u64, u: u64, n: nat)
    requires
        n <= a.len(),
    ensures
        hash_prefix(a, t, 0) == t,
        hash_prefix(a, t, n) ^ hash_prefix(a, u, n) == t ^ u,
    decreases n,
{
    if n > 0 {
        hash_tick_law(a, t, u, (n - 1) as nat);
        let x = a[n - 1];
        lemma_xor_same_mix(
            hash_prefix(a, t, (n - 1) as nat),
            hash_prefix(a, u, (n - 1) as nat),
            (x.id as u64).wrapping_mul(0x9E3779B97F4A7C15u64),
            (x.state.value() as i32 as u64).wrapping_shl(16),
            x.energy as u64,
        );
    }
}

/// Connecting two existing agents links each to the other, and connecting
/// them again changes nothing.
pub proof fn connect_law(agents: Seq<AgentView>, a: int, b: int)
    requires
        0 <= a < agents.len(),
        0 <= b < agents.len(),
        a <= u32::MAX,
        b <= u32::MAX,
    ensures
        ({
            let l = linked(linked(agents, a, b as u32), b, a as u32);
            &&& l[a].connections.contains(b as u32)
            &&& l[b].connections.contains(a as u32)
            &&& linked(linked(l, a, b as u32), b, a as u32) == l
            &&& same_len_and_ids(l, agents)
        }),
{
    let l1 = linked(agents, a, b as u32);
    let l = linked(l1, b, a as u32);
    assert(l1[a].connections.contains(b as u32)) by {
        if !agents[a].connections.contains(b as u32) {
            assert(l1[a].connections.last() == b as u32);
        }
    }
    assert(l[b].connections.contains(a as u32)) by {
        if !l1[b].connections.contains(a as u32) {
            assert(l[b].connections.last() == a as u32);
        }
    }
    assert(l[a].connections.contains(b as u32)) by {
        if a != b {
            assert(l[a] == l1[a]);
        } else {
            let c = l1[a].connections;
            let w = choose|k: int| 0 <= k < c.len() && c[k] == b as u32;
            assert(with_link(c, a as u32)[w] == b as u32);
        }
    }
    let m1 = linked(l, a, b as u32);
    assert(m1 =~= l) by {
        assert(m1[a] == l[a]);
    }
    let m = linked(m1, b, a as u32);
    assert(m =~= l) by {
        assert(m[b] == l[b]);
    }
}

/// Two agent sequences of one length whose agents have the same ids.
pub open spec fn same_len_and_ids(a: Seq<AgentView>, b: Seq<AgentView>) -> bool {
    &&& a.len() == b.len()
    &&& forall|i: int| 0 <= i < a.len() ==> #[trigger] a[i].id == b[i].id
}

/// Whether `id` is among the connections.
fn has_connection(conns: &Vec<u32>, id: u32) -> (r: bool)
    ensures
        r == conns@.contains(id),
{
    let mut i: usize = 0;
    while i < conns.len()
        invariant
            i <= conns@.len(),
            forall|j: int| 0 <= j < i ==> conns@[j] != id,
        decreases conns@.len() - i,
    {
        if conns[i] == id {
            return true;
        }
        i = i + 1;
    }
    false
}

/// The browser-based ternary evolution engine.
pub struct BrowserEngine {
    agents: Vec<TernaryAgent>,
    prng: Prng,
    config: WasmConfig,
    tick: u64,
}

impl BrowserEngine {
    /// The agents, in spawn order.
    pub closed spec fn agents_view(&self) -> Seq<AgentView> {
        self.agents@.map_values(|a: TernaryAgent| a@)
    }

    /// The agents as stored.
    pub closed spec fn agent_values(&self) -> Seq<TernaryAgent> {
        self.agents@
    }

    /// The number of ticks run.
    pub closed spec fn tick_count(&self) -> u64 {
        self.tick
    }

    /// The state of the engine's generator.
    pub closed spec fn prng_state(&self) -> u64 {
        self.prng@
    }

    /// The configuration the engine was made with.
    pub closed spec fn config_view(&self) -> WasmConfig {
        self.config
    }

    /// The engine never holds more agents than its configuration allows.
    #[verifier::type_invariant]
    spec fn within_capacity(self) -> bool {
        self.agents@.len() <= self.config.max_agents
    }

    /// The agents' plain views are the views of the stored agents.
    pub proof fn agents_view_law(&self)
        ensures
            self.agents_view().len() == self.agent_values().len(),
            forall|i: int| 0 <= i < self.agents_view().len() ==> #[trigger] self.agents_view()[i] == self.agent_values()[i]@,
    {
    }

    /// Moves the agents out, leaving none.
    fn take_agents(&mut self) -> (r: Vec<TernaryAgent>)
        ensures
            r@ == old(self).agents@,
            final(self).agents@ == Seq::<TernaryAgent>::empty(),
            final(self).prng == old(self).prng,
            final(self).config == old(self).config,
            final(self).tick == old(self).tick,
    {
        let mut agents: Vec<TernaryAgent> = Vec::new();
        std::mem::swap(&mut agents, &mut self.agents);
        agents
    }

    /// Create a new engine with the given configuration.
    pub fn new(config: WasmConfig) -> (r: Self)
        ensures
            r.agents_view().len() <= r.config_view().max_agents,
            r.agents_view() == Seq::<AgentView>::empty(),
            r.tick_count() == 0,
            r.prng_state() == seed_state(config.prng_seed),
            r.config_view() == config,
    {
        let prng = Prng::new(config.prng_seed);
        let r = Self { agents: Vec::new(), prng, config, tick: 0 };
        assert(r.agents_view() =~= Seq::<AgentView>::empty());
        r
    }

    /// Spawn a new agent with random state.
    pub fn spawn_agent(&mut self) -> (r: Option<u32>)
        ensures
            final(self).agents_view().len() <= final(self).config_view().max_agents,
            final(self).config_view() == old(self).config_view(),
            final(self).tick_count() == old(self).tick_count(),
            old(self).agents_view().len() >= old(self).config_view().max_agents ==> {
                &&& r is None
                &&& final(self).agents_view() == old(self).agents_view()
                &&& final(self).prng_state() == old(self).prng_state()
            },
            old(self).agents_view().len() < old(self).config_view().max_agents ==> {
                &&& r == Some(old(self).agents_view().len() as u32)
                &&& final(self).agents_view() == old(self).agents_view().push(
                    spawned(old(self).agents_view().len() as u32, drawn_state(old(self).prng_state())),
                )
                &&& final(self).prng_state() == xorshift64_iter(old(self).prng_state(), 6)
            },
    {
        proof {
            use_type_invariant(&*self);
        }
        if self.agents.len() >= self.config.max_agents {
            return None;
        }
        let id = self.agents.len() as u32;
        let state = self.prng.next_tryte();
        let mut agent = TernaryAgent::new(id, state);
        agent.energy = 128;
        let mut agents = self.take_agents();
        agents.push(agent);
        self.agents = agents;
        assert(state.0@ =~= drawn_state(old(self).prng_state()));
        assert(self.agents_view() =~= old(self).agents_view().push(spawned(id, state.0@)));
        Some(id)
    }

    /// Spawn an agent with a specific state.
    pub fn spawn_agent_with_state(&mut self, state: Tryte) -> (r: Option<u32>)
        ensures
            final(self).agents_view().len() <= final(self).config_view().max_agents,
            final(self).config_view() == old(self).config_view(),
            final(self).tick_count() == old(self).tick_count(),
            final(self).prng_state() == old(self).prng_state(),
            old(self).agents_view().len() >= old(self).config_view().max_agents ==> {
                &&& r is None
                &&& final(self).agents_view() == old(self).agents_view()
            },
            old(self).agents_view().len() < old(self).config_view().max_agents ==> {
                &&& r == Some(old(self).agents_view().len() as u32)
                &&& final(self).agents_view() == old(self).agents_view().push(
                    spawned(old(self).agents_view().len() as u32, state.0@),
                )
            },
    {
        proof {
            use_type_invariant(&*self);
        }
        if self.agents.len() >= self.config.max_agents {
            return None;
        }
        let id = self.agents.len() as u32;
        let mut agents = self.take_agents();
        agents.push(TernaryAgent::new(id, state));
        self.agents = agents;
        assert(self.agents_view() =~= old(self).agents_view().push(spawned(id, state.0@)));
        Some(id)
    }

    /// Get an agent by ID.
    pub fn get_agent(&self, id: u32) -> (r: Option<&TernaryAgent>)
        ensures
            r is Some <==> id < self.agents_view().len(),
            r matches Some(a) ==> *a == self.agent_values()[id as int],
    {
        if (id as usize) < self.agents.len() {
            Some(&self.agents[id as usize])
        } else {
            None
        }
    }


    /// Run one evolution tick: each agent whose first connection names an
    /// existing agent interacts with that neighbour's state as it was before
    /// the tick.
    pub fn tick(&mut self)
        requires
            old(self).tick_count() < u64::MAX,
            generation_room(old(self).agents_view(), 1),
        ensures
            final(self).agents_view().len() <= final(self).config_view().max_agents,
            final(self).agents_view() == ticked(old(self).agents_view()),
            same_links(final(self).agents_view(), old(self).agents_view()),
            forall|i: int| 0 <= i < old(self).agents_view().len() ==> #[trigger] final(self).agents_view()[i].generation
                == old(self).agents_view()[i].generation + tick_hits(old(self).agents_view(), i),
            final(self).tick_count() == old(self).tick_count() + 1,
            final(self).prng_state() == old(self).prng_state(),
            final(self).config_view() == old(self).config_view(),
    {
        proof {
            use_type_invariant(&*self);
        }
        let ghost av = self.agents_view();
        // Collect interaction pairs to avoid borrow issues
        let mut pairs: Vec<(u32, Tryte)> = Vec::new();
        let mut i: usize = 0;
        while i < self.agents.len()
            invariant
                i <= self.agents@.len(),
                av == self.agents_view(),
                pairs_view(pairs@) == pairs_prefix(av, i as nat),
            decreases self.agents@.len() - i,
        {
            let agent = &self.agents[i];
            if agent.connections.len() > 0 {
                let neighbor_id = agent.connections[0];
                if (neighbor_id as usize) < self.agents.len() {
                    pairs.push((agent.id, self.agents[neighbor_id as usize].state));
                }
            }
            proof {
                assert(self.agents_view()[i as int] == self.agents@[i as int]@);
            }
            assert(pairs_view(pairs@) =~= pairs_prefix(av, (i + 1) as nat));
            i = i + 1;
        }
        let ghost p = tick_pairs(av);
        proof {
            assert forall|j: int| 0 <= j < av.len() implies av[j].generation + hits(p, j, p.len()) <= u32::MAX by {
                assert(av[j].generation + 1 * tick_hits(av, j) <= u32::MAX);
            }
        }
        let mut k: usize = 0;
        while k < pairs.len()
            invariant
                k <= pairs@.len(),
                pairs_view(pairs@) == p,
                p.len() == pairs@.len(),
                av.len() == self.agents@.len(),
                self.agents@.len() <= self.config.max_agents,
                self.agents_view() == apply_pairs(av, p, k as nat),
                forall|j: int| 0 <= j < av.len() ==> av[j].generation + hits(p, j, p.len()) <= u32::MAX,
                self.tick == old(self).tick,
                self.tick < u64::MAX,
                self.prng@ == old(self).prng@,
                self.config == old(self).config,
            decreases pairs@.len() - k,
        {
            let (agent_id, neighbor_state) = pairs[k];
            proof {
                assert(p[k as int] == (agent_id, neighbor_state.0@));
                lemma_hits_monotone(p, agent_id as int, (k + 1) as nat, p.len());
                assert forall|j: int| 0 <= j < av.len() implies av[j].generation + hits(p, j, k as nat) <= u32::MAX by {
                    lemma_hits_monotone(p, j, k as nat, p.len());
                }
                lemma_apply_pairs(av, p, k as nat);
            }
            if (agent_id as usize) < self.agents.len() {
                let ghost before = self.agents_view();
                proof {
                    assert(hits(p, agent_id as int, (k + 1) as nat) == hits(p, agent_id as int, k as nat) + 1);
                    assert(before[agent_id as int] == self.agents@[agent_id as int]@);
                    assert(before[agent_id as int].generation == av[agent_id as int].generation + hits(p, agent_id as int, k as nat));
                }
                self.agents[agent_id as usize].evaluate(neighbor_state);
                assert(self.agents_view() =~= before.update(
                    agent_id as int,
                    evaluated(before[agent_id as int], neighbor_state.0@),
                ));
            }
            k = k + 1;
        }
        self.tick += 1;
        proof {
            tick_keeps_links(av);
        }
    }

    /// Run N ticks.
    pub fn tick_n(&mut self, n: u32)
        requires
            old(self).tick_count() + n <= u64::MAX,
            generation_room(old(self).agents_view(), n as nat),
        ensures
            final(self).agents_view().len() <= final(self).config_view().max_agents,
            final(self).agents_view() == ticked_n(old(self).agents_view(), n as nat),
            same_links(final(self).agents_view(), old(self).agents_view()),
            final(self).tick_count() == old(self).tick_count() + n,
            final(self).prng_state() == old(self).prng_state(),
            final(self).config_view() == old(self).config_view(),
    {
        proof {
            use_type_invariant(&*self);
        }
        let mut j: u32 = 0;
        while j < n
            invariant
                j <= n,
                self.agents_view().len() <= self.config_view().max_agents,
                self.agents_view() == ticked_n(old(self).agents_view(), j as nat),
                same_links(self.agents_view(), old(self).agents_view()),
                self.tick_count() == old(self).tick_count() + j,
                old(self).tick_count() + n <= u64::MAX,
                self.prng_state() == old(self).prng_state(),
                self.config_view() == old(self).config_view(),
                generation_room(self.agents_view(), (n - j) as nat),
            decreases n - j,
        {
            proof {
                lemma_room_after_tick(self.agents_view(), (n - j) as nat);
            }
            self.tick();
            j = j + 1;
        }
    }

    /// Whether `tick_n(n)` may run: the tick counter has room for `n` more
    /// ticks, and every agent's generation counter has room for `n` ticks
    /// of its interactions.
    pub fn can_tick_n(&self, n: u32) -> (r: bool)
        ensures
            r == (self.tick_count() + n <= u64::MAX && generation_room(self.agents_view(), n as nat)),
    {
        if self.tick > u64::MAX - n as u64 {
            return false;
        }
        let ghost av = self.agents_view();
        let len = self.agents.len();
        // interactions per agent in one tick
        let mut counts: Vec<usize> = Vec::new();
        while counts.len() < len
            invariant
                counts@.len() <= len,
                forall|k: int| 0 <= k < counts@.len() ==> counts@[k] == 0,
            decreases len - counts@.len(),
        {
            counts.push(0);
        }
        let mut i: usize = 0;
        while i < len
            invariant
                len == self.agents@.len(),
                av == self.agents_view(),
                i <= len,
                counts@.len() == len,
                forall|k: int| 0 <= k < len ==> #[trigger] counts@[k] == hits(pairs_prefix(av, i as nat), k, pairs_prefix(av, i as nat).len()),
                forall|k: int| 0 <= k < len ==> #[trigger] counts@[k] <= i,
            decreases len - i,
        {
            let ghost before = pairs_prefix(av, i as nat);
            proof {
                assert(av[i as int] == self.agents@[i as int]@);
                assert forall|k: int| 0 <= k < len implies #[trigger] counts@[k] <= i by {
                    lemma_hits_le_len(before, k, before.len());
                    lemma_pairs_prefix_len(av, i as nat);
                }
            }
            let agent = &self.agents[i];
            if agent.connections.len() > 0 {
                let neighbor_id = agent.connections[0];
                if (neighbor_id as usize) < len {
                    let id = agent.id as usize;
                    if id < len {
                        counts[id] = counts[id] + 1;
                    }
                }
            }
            proof {
                let after = pairs_prefix(av, (i + 1) as nat);
                assert forall|k: int| 0 <= k < len implies #[trigger] counts@[k] == hits(after, k, after.len()) by {
                    if after.len() > before.len() {
                        lemma_hits_same_ids(after, before, k, before.len());
                    } else {
                        assert(after == before);
                    }
                }
            }
            i = i + 1;
        }
        let mut j: usize = 0;
        while j < len
            invariant
                len == self.agents@.len(),
                av == self.agents_view(),
                j <= len,
                counts@.len() == len,
                forall|k: int| 0 <= k < len ==> #[trigger] counts@[k] == tick_hits(av, k),
                forall|k: int| 0 <= k < j ==> av[k].generation + (n as nat) * tick_hits(av, k) <= u32::MAX,
            decreases len - j,
        {
            let g = self.agents[j].generation as u128;
            let c = counts[j] as u128;
            proof {
                assert(av[j as int] == self.agents@[j as int]@);
                assert((n as u128) * c <= 0xFFFF_FFFF_FFFF_FFFF_FFFF_FFFF) by (nonlinear_arith)
                    requires
                        n <= 0xFFFF_FFFF,
                        c <= 0xFFFF_FFFF_FFFF_FFFF,
                ;
            }
            if g + (n as u128) * c > u32::MAX as u128 {
                return false;
            }
            j = j + 1;
        }
        true
    }

    /// Get a mutable agent by ID.
    pub fn get_agent_mut(&mut self, id: u32) -> (r: Option<&mut TernaryAgent>)
        ensures
            r is Some <==> id < old(self).agents_view().len(),
            r matches Some(a) ==> {
                &&& *a == old(self).agent_values()[id as int]
                &&& final(self).agent_values() == old(self).agent_values().update(id as int, *final(a))
                &&& final(self).agents_view() == old(self).agents_view().update(id as int, (*final(a))@)
            },
            r is None ==> final(self).agent_values() == old(self).agent_values(),
            r is None ==> final(self).agents_view() == old(self).agents_view(),
            final(self).agents_view().len() <= final(self).config_view().max_agents,
            final(self).tick_count() == old(self).tick_count(),
            final(self).prng_state() == old(self).prng_state(),
            final(self).config_view() == old(self).config_view(),
    {
        proof {
            use_type_invariant(&*self);
        }
        if (id as usize) < self.agents.len() {
            Some(&mut self.agents[id as usize])
        } else {
            None
        }
    }

    /// Connect two agents: each is added to the other's connections unless
    /// it is there already. Fails, changing nothing, if either does not exist.
    pub fn connect(&mut self, a: u32, b: u32) -> (r: bool)
        ensures
            final(self).agents_view().len() <= final(self).config_view().max_agents,
            r == (a < old(self).agents_view().len() && b < old(self).agents_view().len()),
            r ==> final(self).agents_view() == linked(linked(old(self).agents_view(), a as int, b), b as int, a),
            !r ==> final(self).agents_view() == old(self).agents_view(),
            final(self).tick_count() == old(self).tick_count(),
            final(self).prng_state() == old(self).prng_state(),
            final(self).config_view() == old(self).config_view(),
    {
        proof {
            use_type_invariant(&*self);
        }
        if a as usize >= self.agents.len() || b as usize >= self.agents.len() {
            return false;
        }
        let ghost v0 = self.agents_view();
        if !has_connection(&self.agents[a as usize].connections, b) {
            self.agents[a as usize].connections.push(b);
        }
        assert(self.agents_view() =~= linked(v0, a as int, b));
        let ghost v1 = self.agents_view();
        if !has_connection(&self.agents[b as usize].connections, a) {
            self.agents[b as usize].connections.push(a);
        }
        assert(self.agents_view() =~= linked(v1, b as int, a));
        true
    }

    /// Current tick count.
    pub fn current_tick(&self) -> (r: u64)
        ensures
            r == self.tick_count(),
    {
        self.tick
    }

    /// Number of alive agents.
    pub fn alive_count(&self) -> (r: usize)
        ensures
            r == alive_prefix(self.agents_view(), self.agents_view().len()),
            r <= self.agents_view().len(),
    {
        let mut count: usize = 0;
        let mut i: usize = 0;
        while i < self.agents.len()
            invariant
                i <= self.agents@.len(),
                count == alive_prefix(self.agents_view(), i as nat),
                count <= i,
            decreases self.agents@.len() - i,
        {
            if self.agents[i].is_alive() {
                count = count + 1;
            }
            i = i + 1;
        }
        count
    }

    /// Total agent count (including dead); never more than the
    /// configuration's `max_agents`.
    pub fn agent_count(&self) -> (r: usize)
        ensures
            r == self.agents_view().len(),
            r <= self.config_view().max_agents,
    {
        proof {
            use_type_invariant(self);
        }
        self.agents.len()
    }

    /// Collect all agent states as trytes.
    pub fn collect_states(&self) -> (r: Vec<Tryte>)
        ensures
            r@.len() == self.agents_view().len(),
            forall|i: int| 0 <= i < r@.len() ==> r@[i] == self.agent_values()[i].state,
    {
        let mut out: Vec<Tryte> = Vec::new();
        let mut i: usize = 0;
        while i < self.agents.len()
            invariant
                i <= self.agents@.len(),
                out@.len() == i,
                forall|j: int| 0 <= j < i ==> out@[j] == self.agents@[j].state,
            decreases self.agents@.len() - i,
        {
            out.push(self.agents[i].state);
            i = i + 1;
        }
        out
    }

    /// Compute a simple hash of the engine state (for verification).
    pub fn state_hash(&self) -> (r: u64)
        ensures
            r == hash_prefix(self.agent_values(), self.tick_count(), self.agent_values().len()),
    {
        let mut hash: u64 = self.tick;
        let mut i: usize = 0;
        while i < self.agents.len()
            invariant
                i <= self.agents@.len(),
                hash == hash_prefix(self.agents@, self.tick, i as nat),
            decreases self.agents@.len() - i,
        {
            let agent = &self.agents[i];
            hash ^= (agent.id as u64).wrapping_mul(0x9E3779B97F4A7C15);
            hash ^= (agent.state.to_i32() as u64).wrapping_shl(16);
            hash ^= agent.energy as u64;
            i = i + 1;
        }
        hash
    }
}


} // verus!
