use ternary_wasm::browser_engine::{BrowserEngine, Prng, TernaryAgent};
use ternary_wasm::cell_engine::{Cell, CellEngine, CellExpr};
use ternary_wasm::export_bindings::{agent_state_from_host, serialize_host_trits};
use ternary_wasm::wasm_bridge::Trit::{Neg, Pos, Zero};
use ternary_wasm::wasm_bridge::{Trit, Tryte, WasmBridge};
use ternary_wasm::wasm_config::WasmConfig;

fn all_trits() -> Vec<Trit> {
    vec![Trit::Neg, Trit::Zero, Trit::Pos]
}

fn xorshift(mut x: u64) -> u64 {
    x ^= x << 13;
    x ^= x >> 7;
    x ^= x << 17;
    x
}

// --- trits ---

#[test]
fn trit_add_carry_and_sum_make_the_total() {
    for a in all_trits() {
        for b in all_trits() {
            let (c, s) = a.add(b);
            assert_eq!(3 * c.to_i8() + s.to_i8(), a.to_i8() + b.to_i8());
        }
    }
    assert_eq!(Trit::Neg.add(Trit::Neg), (Trit::Neg, Trit::Pos));
    assert_eq!(Trit::Neg.add(Trit::Zero), (Trit::Zero, Trit::Neg));
}

#[test]
fn trit_mul_is_the_product() {
    for a in all_trits() {
        for b in all_trits() {
            assert_eq!(a.mul(b).to_i8(), a.to_i8() * b.to_i8());
        }
    }
}

#[test]
fn trit_values_and_signs() {
    assert_eq!(Trit::Neg.to_i8(), -1);
    assert_eq!(Trit::Zero.to_i8(), 0);
    assert_eq!(Trit::Pos.to_i8(), 1);
    assert_eq!(Trit::from_i8(i8::MIN), Trit::Neg);
    assert_eq!(Trit::from_i8(i8::MAX), Trit::Pos);
}

// --- trytes ---

#[test]
fn tryte_every_value_round_trips() {
    for v in -364i32..=364 {
        let t = Tryte::from_i32(v);
        assert_eq!(t.to_i32(), v);
        assert_eq!(Tryte::from_i32(t.to_i32()), t);
    }
}

#[test]
fn tryte_digits_are_balanced_ternary() {
    assert_eq!(Tryte::from_i32(1), Tryte([Pos, Zero, Zero, Zero, Zero, Zero]));
    assert_eq!(Tryte::from_i32(2), Tryte([Neg, Pos, Zero, Zero, Zero, Zero]));
    assert_eq!(Tryte::from_i32(-4), Tryte([Neg, Neg, Zero, Zero, Zero, Zero]));
    assert_eq!(Tryte::from_i32(364), Tryte([Pos; 6]));
    assert_eq!(Tryte::from_i32(-364), Tryte([Neg; 6]));
    assert_eq!(Tryte([Zero, Zero, Zero, Zero, Zero, Pos]).to_i32(), 243);
}

#[test]
fn tryte_clamps_to_range() {
    assert_eq!(Tryte::from_i32(500).to_i32(), 364);
    assert_eq!(Tryte::from_i32(-500).to_i32(), -364);
    assert_eq!(Tryte::from_i32(i32::MAX).to_i32(), 364);
    assert_eq!(Tryte::from_i32(i32::MIN).to_i32(), -364);
    assert_eq!(Tryte::from_i32(365).to_i32(), 364);
    assert_eq!(Tryte::zero(), Tryte::from_i32(0));
}

// --- packing ---

#[test]
fn serialize_packs_four_trits_a_byte() {
    assert_eq!(WasmBridge::serialize_trits(&[Neg, Zero, Pos, Neg]), vec![36u8]);
    assert_eq!(WasmBridge::serialize_trits(&[Zero]), vec![1u8]);
    assert_eq!(WasmBridge::serialize_trits(&[Pos, Pos, Pos, Pos, Pos]), vec![170u8, 2]);
    assert_eq!(WasmBridge::serialize_trits(&[]), Vec::<u8>::new());
}

#[test]
fn serialize_takes_two_bytes_per_five_trits() {
    assert_eq!(WasmBridge::serialize_trits(&[Pos; 10]), vec![170u8, 2, 170, 2]);
    assert_eq!(WasmBridge::serialize_trits(&[Pos, Pos, Pos, Pos, Pos, Neg]), vec![170u8, 2, 0]);
    // the fifth trit of a group sits in the low bits of the group's second byte
    assert_eq!(WasmBridge::serialize_trits(&[Neg, Neg, Neg, Neg, Zero]), vec![0u8, 1]);
    for k in 0..8usize {
        assert_eq!(WasmBridge::serialize_trits(&vec![Zero; 5 * k]).len(), 2 * k);
    }
}

#[test]
fn deserialize_reads_codes_and_stops_at_count() {
    // 0b11_10_01_00: codes 0, 1, 2, 3 (3 reads as zero)
    // the second byte of a pair holds the fifth trit in its low two bits
    let bytes = [0b1110_0100u8, 0b1111_1110];
    assert_eq!(WasmBridge::deserialize_trits(&bytes, 8), vec![Neg, Zero, Pos, Zero, Pos]);
    assert_eq!(WasmBridge::deserialize_trits(&bytes, 3), vec![Neg, Zero, Pos]);
    assert_eq!(WasmBridge::deserialize_trits(&bytes, 100).len(), 5);
    // a last single byte holds four trits
    let three = [0u8, 1, 0b1010_1010];
    assert_eq!(WasmBridge::deserialize_trits(&three, 100), vec![Neg, Neg, Neg, Neg, Zero, Pos, Pos, Pos, Pos]);
    assert_eq!(WasmBridge::deserialize_trits(&[], 5), Vec::<Trit>::new());
}

#[test]
fn packing_round_trips_for_every_length() {
    let mut trits = Vec::new();
    for i in 0..23usize {
        let back = WasmBridge::deserialize_trits(&WasmBridge::serialize_trits(&trits), trits.len());
        assert_eq!(back, trits);
        trits.push(all_trits()[(i * 7) % 3]);
    }
}

#[test]
fn i16_encoding_round_trips_and_clamps() {
    let trytes = vec![Tryte::from_i32(-364), Tryte::from_i32(0), Tryte::from_i32(123)];
    let enc = WasmBridge::encode_trytes_as_i16(&trytes);
    assert_eq!(enc, vec![-364i16, 0, 123]);
    assert_eq!(WasmBridge::decode_trytes_from_i16(&enc), trytes);
    let dec = WasmBridge::decode_trytes_from_i16(&[1000, -1000]);
    assert_eq!(dec[0].to_i32(), 364);
    assert_eq!(dec[1].to_i32(), -364);
}

#[test]
fn text_goes_by_utf8_bytes_and_non_ascii_reads_as_question_marks() {
    let t = WasmBridge::string_to_trytes("é");
    assert_eq!(t.len(), 2);
    assert_eq!(t[0].to_i32(), 195);
    assert_eq!(t[1].to_i32(), 169);
    assert_eq!(WasmBridge::trytes_to_string(&t), "??");
    let mixed = vec![Tryte::from_i32(65), Tryte::from_i32(-3), Tryte::from_i32(128), Tryte::from_i32(0x7a)];
    assert_eq!(WasmBridge::trytes_to_string(&mixed), "A??z");
    assert_eq!(WasmBridge::trytes_to_string(&[]), "");
}

#[test]
fn ascii_text_round_trips() {
    let s = "The quick brown fox, 0123456789 ~!";
    assert_eq!(WasmBridge::trytes_to_string(&WasmBridge::string_to_trytes(s)), s);
}

// --- configuration ---

#[test]
fn config_defaults_and_limits() {
    let c = WasmConfig::default();
    assert_eq!(c.max_agents, 10_000);
    assert_eq!(c.memory_limit, 16 * 1024 * 1024);
    assert_eq!(c.stack_size, 64 * 1024);
    assert_eq!(c.prng_seed, 0xDEADBEEF_CAFEBABE);
    assert_eq!(c.max_eval_depth, 64);
    assert_eq!(c.bytes_per_agent(), 1677);
    let zero = WasmConfig { max_agents: 0, ..WasmConfig::default() };
    assert!(!zero.is_valid());
    assert_eq!(zero.bytes_per_agent(), 16 * 1024 * 1024);
    assert!(!WasmConfig { max_eval_depth: 1025, ..WasmConfig::default() }.is_valid());
    assert!(!WasmConfig { stack_size: 1023, ..WasmConfig::default() }.is_valid());
    assert!(WasmConfig { max_agents: 1_000_000, ..WasmConfig::default() }.is_valid());
}

// --- generator ---

#[test]
fn prng_is_xorshift64() {
    let mut p = Prng::new(0);
    assert_eq!(p.next_u64(), 1082269761);
    let mut q = Prng::new(42);
    assert_eq!(q.next_u64(), 45454805674);
    let mut r = Prng::new(7);
    let x = xorshift(7);
    assert_eq!(r.next_u32(), x as u32);
}

#[test]
fn prng_trits_and_trytes_follow_the_draws() {
    let mut p = Prng::new(1);
    // draws 1082269761, 1152992998833853505, ...: low 32 bits mod 3 are 0, 2
    assert_eq!(p.next_trit(), Trit::Neg);
    assert_eq!(p.next_trit(), Trit::Pos);
    let mut a = Prng::new(99);
    let mut b = Prng::new(99);
    let t = a.next_tryte();
    for i in 0..6 {
        let d = b.next_u32() % 3;
        let expect = if d == 0 { Trit::Neg } else if d == 1 { Trit::Zero } else { Trit::Pos };
        assert_eq!(t.0[i], expect);
    }
    assert_eq!(a.next_u64(), b.next_u64());
}

#[test]
fn prng_stream_is_the_seed_stream() {
    let mut a = Prng::new(31);
    let mut x = 31u64;
    for _ in 0..50 {
        x = xorshift(x);
        assert_eq!(a.next_u64(), x);
    }
    let mut b = Prng::new(31);
    b.next_tryte();
    let mut y = 31u64;
    for _ in 0..7 {
        y = xorshift(y);
    }
    assert_eq!(b.next_u64(), y);
}

#[test]
fn spawns_take_successive_trytes_of_the_stream() {
    let mut e = BrowserEngine::new(WasmConfig::with_seed(4242));
    let mut p = Prng::new(4242);
    e.spawn_agent().unwrap();
    e.spawn_agent_with_state(Tryte::from_i32(5)).unwrap();
    e.connect(0, 1);
    e.tick_n(3);
    e.spawn_agent().unwrap();
    assert_eq!(e.get_agent(0).unwrap().state.0[1..], p.next_tryte().0[1..]);
    assert_eq!(e.get_agent(2).unwrap().state, p.next_tryte());
}

#[test]
fn can_tick_n_decides_the_counter_room() {
    let mut e = BrowserEngine::new(WasmConfig::with_seed(1));
    e.spawn_agent().unwrap();
    e.spawn_agent().unwrap();
    assert!(e.can_tick_n(u32::MAX));
    e.connect(0, 1);
    e.get_agent_mut(0).unwrap().generation = u32::MAX - 3;
    assert!(e.can_tick_n(3));
    assert!(!e.can_tick_n(4));
    e.tick_n(3);
    assert_eq!(e.get_agent(0).unwrap().generation, u32::MAX);
    assert!(e.can_tick_n(0));
    assert!(!e.can_tick_n(1));
}

#[test]
fn prng_outputs_never_zero() {
    for seed in [0u64, 1, 2, u64::MAX, 0x8000_0000_0000_0000] {
        let mut p = Prng::new(seed);
        for _ in 0..1000 {
            assert_ne!(p.next_u64(), 0);
        }
    }
}

// --- agents ---

#[test]
fn agent_evaluate_updates_state_energy_generation() {
    let mut a = TernaryAgent::new(5, Tryte::from_i32(1));
    assert_eq!(a.energy, 128);
    assert_eq!(a.generation, 0);
    assert!(a.connections.is_empty());
    a.evaluate(Tryte::from_i32(1)); // Pos + Pos: sum digit Neg
    assert_eq!(a.state.0[0], Trit::Neg);
    assert_eq!(a.energy, 127);
    assert_eq!(a.generation, 1);
    a.evaluate(Tryte::from_i32(-1)); // Neg + Neg: sum digit Pos
    assert_eq!(a.state.0[0], Trit::Pos);
    assert_eq!(a.energy, 128);
    a.evaluate(Tryte::from_i32(0)); // Pos + Zero: Pos
    assert_eq!(a.energy, 129);
    assert_eq!(a.generation, 3);
    assert_eq!(a.id, 5);
}

#[test]
fn agent_energy_saturates() {
    let mut a = TernaryAgent::new(0, Tryte::from_i32(1));
    a.energy = 255;
    a.evaluate(Tryte::from_i32(0));
    assert_eq!(a.energy, 255);
    let mut b = TernaryAgent::new(0, Tryte::from_i32(-1));
    b.energy = 0;
    assert!(!b.is_alive());
    b.evaluate(Tryte::from_i32(0));
    assert_eq!(b.energy, 0);
}

// --- engine ---

#[test]
fn engine_spawn_with_state_and_lookup() {
    let mut e = BrowserEngine::new(WasmConfig { max_agents: 2, ..WasmConfig::with_seed(3) });
    assert_eq!(e.spawn_agent_with_state(Tryte::from_i32(7)), Some(0));
    assert_eq!(e.spawn_agent_with_state(Tryte::from_i32(-7)), Some(1));
    assert_eq!(e.spawn_agent_with_state(Tryte::from_i32(1)), None);
    assert_eq!(e.agent_count(), 2);
    assert_eq!(e.get_agent(1).unwrap().state.to_i32(), -7);
    assert!(e.get_agent(2).is_none());
    let states: Vec<i32> = e.collect_states().iter().map(|t| t.to_i32()).collect();
    assert_eq!(states, vec![7, -7]);
}

#[test]
fn engine_spawn_draws_state_from_the_seed() {
    let mut e = BrowserEngine::new(WasmConfig::with_seed(77));
    let mut p = Prng::new(77);
    e.spawn_agent().unwrap();
    assert_eq!(e.get_agent(0).unwrap().state, p.next_tryte());
    assert_eq!(e.get_agent(0).unwrap().energy, 128);
}

#[test]
fn engine_connect_links_both_ways_once() {
    let mut e = BrowserEngine::new(WasmConfig::with_seed(5));
    e.spawn_agent().unwrap();
    e.spawn_agent().unwrap();
    assert!(!e.connect(0, 2));
    assert!(e.get_agent(0).unwrap().connections.is_empty());
    assert!(e.connect(0, 1));
    assert!(e.connect(1, 0));
    assert_eq!(e.get_agent(0).unwrap().connections, vec![1]);
    assert_eq!(e.get_agent(1).unwrap().connections, vec![0]);
    assert!(e.connect(1, 1));
    assert_eq!(e.get_agent(1).unwrap().connections, vec![0, 1]);
}

#[test]
fn engine_tick_uses_states_from_before_the_tick() {
    let mut e = BrowserEngine::new(WasmConfig::with_seed(5));
    e.spawn_agent_with_state(Tryte::from_i32(1)).unwrap();
    e.spawn_agent_with_state(Tryte::from_i32(1)).unwrap();
    e.spawn_agent_with_state(Tryte::from_i32(1)).unwrap();
    e.connect(0, 1);
    e.tick();
    // agents 0 and 1 each read the other's old lowest trit (Pos): Pos + Pos -> Neg
    assert_eq!(e.get_agent(0).unwrap().state.0[0], Trit::Neg);
    assert_eq!(e.get_agent(1).unwrap().state.0[0], Trit::Neg);
    assert_eq!(e.get_agent(0).unwrap().energy, 127);
    assert_eq!(e.get_agent(0).unwrap().generation, 1);
    // agent 2 has no connection and is untouched
    assert_eq!(e.get_agent(2).unwrap().state.to_i32(), 1);
    assert_eq!(e.get_agent(2).unwrap().generation, 0);
    e.tick_n(4);
    assert_eq!(e.current_tick(), 5);
    assert_eq!(e.get_agent(0).unwrap().generation, 5);
    assert_eq!(e.agent_count(), 3);
}

#[test]
fn engine_alive_count_and_mutable_access() {
    let mut e = BrowserEngine::new(WasmConfig::with_seed(8));
    e.spawn_agent().unwrap();
    e.spawn_agent().unwrap();
    assert_eq!(e.alive_count(), 2);
    e.get_agent_mut(1).unwrap().energy = 0;
    assert_eq!(e.alive_count(), 1);
    assert!(e.get_agent_mut(9).is_none());
}

#[test]
fn engine_state_hash_mixes_tick_ids_states_energy() {
    let mut e = BrowserEngine::new(WasmConfig::with_seed(8));
    assert_eq!(e.state_hash(), 0);
    e.spawn_agent_with_state(Tryte::from_i32(-2)).unwrap();
    e.spawn_agent_with_state(Tryte::from_i32(5)).unwrap();
    let mut h: u64 = 0;
    for (id, v) in [(0u64, -2i32), (1, 5)] {
        h ^= id.wrapping_mul(0x9E3779B97F4A7C15);
        h ^= (v as u64).wrapping_shl(16);
        h ^= 128;
    }
    assert_eq!(e.state_hash(), h);
}

#[test]
fn engine_runs_are_deterministic() {
    let run = || {
        let mut e = BrowserEngine::new(WasmConfig::with_seed(2024));
        for _ in 0..6 {
            e.spawn_agent().unwrap();
        }
        for i in 0..6u32 {
            e.connect(i, (i + 1) % 6);
        }
        e.tick_n(20);
        e.state_hash()
    };
    assert_eq!(run(), run());
}

// --- cells ---

#[test]
fn cell_new_and_key() {
    let c = Cell::new(2, 3, CellExpr::Ref((0, 0)));
    assert_eq!(c.ref_key(), (2, 3));
    assert!(c.dirty);
    assert_eq!(c.generation, 0);
    assert_eq!(c.cached_value.to_i32(), 0);
}

#[test]
fn cell_grid_is_row_major_and_zero() {
    let e = CellEngine::new_grid(2, 3, &WasmConfig::default());
    assert_eq!(e.cell_count(), 6);
    assert!(e.export_values().iter().all(|t| t.to_i32() == 0));
    let empty = CellEngine::new(&WasmConfig::default());
    assert_eq!(empty.cell_count(), 0);
    assert_eq!(empty.get_value(0, 0).to_i32(), 0);
}

#[test]
fn cell_references_and_missing_cells() {
    let mut e = CellEngine::new_grid(2, 2, &WasmConfig::default());
    e.set_cell(0, 0, CellExpr::Literal(Tryte::from_i32(9)));
    e.set_cell(0, 1, CellExpr::Ref((0, 0)));
    e.set_cell(1, 0, CellExpr::Ref((0, 1)));
    e.set_cell(1, 1, CellExpr::Ref((5, 5)));
    e.evaluate_all();
    assert_eq!(e.get_value(1, 0).to_i32(), 9);
    assert_eq!(e.get_value(1, 1).to_i32(), 0);
    assert_eq!(e.get_value(7, 7).to_i32(), 0);
}

#[test]
fn cell_cycles_stop_at_the_depth_limit() {
    let mut e = CellEngine::new_grid(1, 2, &WasmConfig::default());
    e.set_cell(0, 0, CellExpr::Ref((0, 1)));
    e.set_cell(0, 1, CellExpr::Ref((0, 0)));
    e.evaluate_all();
    assert_eq!(e.get_value(0, 0).to_i32(), 0);
    // a chain longer than the depth limit reads 0
    let cfg = WasmConfig { max_eval_depth: 1, ..WasmConfig::default() };
    let mut s = CellEngine::new_grid(1, 3, &cfg);
    s.set_cell(0, 0, CellExpr::Literal(Tryte::from_i32(4)));
    s.set_cell(0, 1, CellExpr::Ref((0, 0)));
    s.set_cell(0, 2, CellExpr::Ref((0, 1)));
    s.evaluate_all();
    assert_eq!(s.get_value(0, 1).to_i32(), 4);
    assert_eq!(s.get_value(0, 2).to_i32(), 0);
}

#[test]
fn cell_arithmetic_clamps_and_threshold_signs() {
    let mut e = CellEngine::new_grid(1, 6, &WasmConfig::default());
    e.set_cell(0, 0, CellExpr::Literal(Tryte::from_i32(20)));
    e.set_cell(0, 1, CellExpr::Literal(Tryte::from_i32(30)));
    e.set_cell(0, 2, CellExpr::Product((0, 0), (0, 1)));
    e.set_cell(0, 3, CellExpr::Threshold((0, 0), (0, 1)));
    e.set_cell(0, 4, CellExpr::Threshold((0, 0), (0, 0)));
    e.set_cell(0, 5, CellExpr::Sum((0, 2), (0, 2)));
    e.evaluate_all();
    assert_eq!(e.get_value(0, 2).to_i32(), 364);
    assert_eq!(e.get_value(0, 3).to_i32(), -1);
    assert_eq!(e.get_value(0, 4).to_i32(), 0);
    assert_eq!(e.get_value(0, 5).to_i32(), 364);
}

#[test]
fn cell_evaluation_recomputes_the_grid_and_settles() {
    let mut e = CellEngine::new_grid(1, 2, &WasmConfig::default());
    e.set_cell(0, 0, CellExpr::Literal(Tryte::from_i32(3)));
    e.set_cell(0, 1, CellExpr::Ref((0, 0)));
    e.evaluate_all();
    assert_eq!(e.get_value(0, 1).to_i32(), 3);
    e.set_cell(0, 0, CellExpr::Literal(Tryte::from_i32(8)));
    // values stay cached until the next evaluation
    assert_eq!(e.get_value(0, 1).to_i32(), 3);
    e.evaluate_all();
    // the whole grid is recomputed, so the dependent cell follows
    assert_eq!(e.get_value(0, 1).to_i32(), 8);
    e.mark_all_dirty();
    e.evaluate_all();
    assert_eq!(e.get_value(0, 1).to_i32(), 8);
    let before = e.export_values();
    e.evaluate_all();
    assert_eq!(e.export_values(), before);
}

#[test]
fn cell_set_on_new_key_appends() {
    let mut e = CellEngine::new_grid(1, 1, &WasmConfig::default());
    e.set_cell(4, 4, CellExpr::Literal(Tryte::from_i32(-5)));
    assert_eq!(e.cell_count(), 2);
    e.evaluate_all();
    assert_eq!(e.get_value(4, 4).to_i32(), -5);
}

#[test]
fn cell_export_import_round_trip() {
    let mut e = CellEngine::new_grid(2, 2, &WasmConfig::default());
    e.set_cell(0, 0, CellExpr::Literal(Tryte::from_i32(11)));
    e.set_cell(1, 1, CellExpr::Sum((0, 0), (0, 0)));
    e.evaluate_all();
    let values = e.export_values();
    let mut f = CellEngine::new_grid(2, 2, &WasmConfig::default());
    f.import_values(&values);
    f.evaluate_all();
    assert_eq!(f.export_values(), values);
    assert_eq!(f.get_value(1, 1).to_i32(), 22);
    // extra values beyond the cells are ignored
    let mut g = CellEngine::new_grid(1, 1, &WasmConfig::default());
    g.import_values(&values);
    assert_eq!(g.cell_count(), 1);
    g.evaluate_all();
    assert_eq!(g.get_value(0, 0).to_i32(), 11);
}

// --- host helpers ---

#[test]
fn host_agent_state_packs_low_bytes_and_clamps() {
    assert_eq!(agent_state_from_host(0x12, 0x01).to_i32(), 274);
    assert_eq!(agent_state_from_host(-1, 0).to_i32(), 255);
    assert_eq!(agent_state_from_host(0x100, 0).to_i32(), 0);
    assert_eq!(agent_state_from_host(0, 2).to_i32(), 364);
}

#[test]
fn host_trits_are_read_by_sign() {
    assert_eq!(serialize_host_trits(&[-3, 0, 7, -1], 16), vec![36u8]);
    assert_eq!(serialize_host_trits(&[], 16), Vec::<u8>::new());
    // the bytes to write are cut to the host buffer's length
    assert_eq!(serialize_host_trits(&[1, 1, 1, 1, 1, -1], 2), vec![170u8, 2]);
    assert_eq!(serialize_host_trits(&[1, 1, 1, 1, 1, -1], 0), Vec::<u8>::new());
}

#[test]
fn cell_dependents_follow_an_edit() {
    let mut e = CellEngine::new_grid(1, 2, &WasmConfig::default());
    e.set_cell(0, 1, CellExpr::Ref((0, 0)));
    e.set_cell(0, 0, CellExpr::Literal(Tryte::from_i32(5)));
    e.evaluate_all();
    assert_eq!(e.get_value(0, 1).to_i32(), 5);
    e.set_cell(0, 0, CellExpr::Literal(Tryte::from_i32(7)));
    e.evaluate_all();
    assert_eq!(e.get_value(0, 1).to_i32(), 7);
}

#[test]
fn can_set_cell_checks_the_generation_room() {
    let mut e = CellEngine::new_grid(1, 1, &WasmConfig::default());
    assert!(e.can_set_cell(0, 0));
    assert!(e.can_set_cell(3, 3));
    e.set_cell(0, 0, CellExpr::Literal(Tryte::from_i32(1)));
    assert!(e.can_set_cell(0, 0));
}
