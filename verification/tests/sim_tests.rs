use syncrim::common::{Input, SimError};
use syncrim::component_store::ComponentStore;
use syncrim::components::{
    Alu, AluOp, Component, Constant, Mux, Probe, RegFile, Register, Wire,
};
use syncrim::menu::{Menu, MenuEvent};
use syncrim::simulator::Simulator;

fn constant(id: &str, value: u32) -> Component {
    Component::Constant(Constant { id: id.to_string(), pos: (0, 0), value })
}

fn register(id: &str, src: &str) -> Component {
    Component::Register(Register { id: id.to_string(), pos: (0, 0), r_in: Input::new(src, 0) })
}

fn wire(id: &str, src: &str) -> Component {
    Component::Wire(Wire {
        id: id.to_string(),
        pos: (0, 0),
        delta: (30, 0),
        input: Input::new(src, 0),
    })
}

fn probe(id: &str, src: &str) -> Component {
    Component::Probe(Probe { id: id.to_string(), pos: (0, 0), input: Input::new(src, 0) })
}

fn reg_circuit() -> ComponentStore {
    // Constant(3) -> Wire -> Register.r_in, Register.out -> Wire -> Probe.
    let mut cs = ComponentStore::new();
    cs.push(constant("c", 3));
    cs.push(register("reg", "c"));
    cs.push(wire("w1", "c"));
    cs.push(wire("w2", "reg"));
    cs.push(probe("p_reg", "reg"));
    cs
}

fn read(sim: &Simulator, id: &str, index: usize) -> u32 {
    sim.get_input_val(&Input::new(id, index)).unwrap_or_else(|_| panic!("unresolved input"))
}

#[test]
fn state_vector_length_matches_arities() {
    let sim = Simulator::new(reg_circuit()).unwrap();
    // c, reg, w1, w2 each declare one output; the probe declares none.
    assert_eq!(sim.state_len(), 4);
    assert_eq!(sim.cycle(), 0);
}

#[test]
fn register_delays_by_one_cycle() {
    let mut sim = Simulator::new(reg_circuit()).unwrap();
    // At cycle 0 the probe reads the register's initial value.
    assert_eq!(read(&sim, "reg", 0), 0);
    assert_eq!(read(&sim, "w2", 0), 0);
    sim.clock().unwrap();
    assert_eq!(read(&sim, "reg", 0), 3);
    assert_eq!(read(&sim, "w2", 0), 3);
    assert_eq!(read(&sim, "c", 0), 3);
}

#[test]
fn clock_then_un_clock_restores_state() {
    let mut sim = Simulator::new(reg_circuit()).unwrap();
    let before: Vec<u32> = ["c", "reg", "w1", "w2"].iter().map(|i| read(&sim, i, 0)).collect();
    sim.clock().unwrap();
    sim.clock().unwrap();
    sim.clock().unwrap();
    sim.un_clock().unwrap();
    sim.un_clock().unwrap();
    sim.un_clock().unwrap();
    let after: Vec<u32> = ["c", "reg", "w1", "w2"].iter().map(|i| read(&sim, i, 0)).collect();
    assert_eq!(before, after);
    assert_eq!(sim.cycle(), 0);
}

#[test]
fn un_clock_at_cycle_zero_underflows() {
    let mut sim = Simulator::new(reg_circuit()).unwrap();
    assert!(matches!(sim.un_clock(), Err(SimError::HistoryUnderflow)));
}

#[test]
fn combinatorial_cycle_is_rejected() {
    let mut cs = ComponentStore::new();
    cs.push(wire("a", "b"));
    cs.push(wire("b", "a"));
    match Simulator::new(cs) {
        Err(SimError::CombinatorialLoopError { ids }) => {
            assert_eq!(ids.len(), 2);
        },
        _ => panic!("expected a combinatorial loop error"),
    }
    // Replacing one member with a register makes the feedback legal.
    let mut cs2 = ComponentStore::new();
    cs2.push(register("a", "b"));
    cs2.push(wire("b", "a"));
    assert!(Simulator::new(cs2).is_ok());
}

#[test]
fn mux_selects_and_rejects_out_of_range() {
    let mut cs = ComponentStore::new();
    cs.push(constant("sel", 1));
    cs.push(constant("a", 10));
    cs.push(constant("b", 20));
    cs.push(Component::Mux(Mux {
        id: "m".to_string(),
        pos: (0, 0),
        select: Input::new("sel", 0),
        m_in: vec![Input::new("a", 0), Input::new("b", 0)],
    }));
    let sim = Simulator::new(cs).unwrap();
    assert_eq!(read(&sim, "m", 0), 20);

    // A select value beyond the input list fails evaluation.
    let mut cs2 = ComponentStore::new();
    cs2.push(constant("sel", 2));
    cs2.push(constant("a", 10));
    cs2.push(constant("b", 20));
    cs2.push(Component::Mux(Mux {
        id: "m".to_string(),
        pos: (0, 0),
        select: Input::new("sel", 0),
        m_in: vec![Input::new("a", 0), Input::new("b", 0)],
    }));
    match Simulator::new(cs2) {
        Err(SimError::IndexError { id, value }) => {
            assert_eq!(id, "m");
            assert_eq!(value, 2);
        },
        _ => panic!("expected an index error"),
    }
}

#[test]
fn reg_file_write_before_read_same_cycle() {
    let mut cs = ComponentStore::new();
    cs.push(constant("ra1", 4));
    cs.push(constant("ra2", 0));
    cs.push(constant("wd", 42));
    cs.push(constant("wa", 4));
    cs.push(constant("we", 1));
    cs.push(Component::RegFile(RegFile {
        id: "rf".to_string(),
        pos: (0, 0),
        read_addr1: Input::new("ra1", 0),
        read_addr2: Input::new("ra2", 0),
        write_data: Input::new("wd", 0),
        write_addr: Input::new("wa", 0),
        write_enable: Input::new("we", 0),
        registers: vec![0; 32],
    }));
    let sim = Simulator::new(cs).unwrap();
    // The enabled write is visible to the same-pass read of address 4.
    assert_eq!(read(&sim, "rf", 0), 42);
    // Address 0 is hard-wired to 0.
    assert_eq!(read(&sim, "rf", 1), 0);
}

#[test]
fn alu_computes_wrapping_add() {
    let mut cs = ComponentStore::new();
    cs.push(constant("a", 0xffff_ffff));
    cs.push(constant("b", 2));
    cs.push(Component::Alu(Alu {
        id: "alu".to_string(),
        pos: (0, 0),
        op: AluOp::Add,
        a: Input::new("a", 0),
        b: Input::new("b", 0),
    }));
    let sim = Simulator::new(cs).unwrap();
    assert_eq!(read(&sim, "alu", 0), 1);
}

#[test]
fn duplicate_and_dangling_ids_are_rejected() {
    let mut cs = ComponentStore::new();
    cs.push(constant("c", 1));
    cs.push(constant("c", 2));
    match Simulator::new(cs) {
        Err(SimError::ValidationError { id }) => assert_eq!(id, "c"),
        _ => panic!("expected a validation error"),
    }
    let mut cs2 = ComponentStore::new();
    cs2.push(wire("w", "nowhere"));
    assert!(matches!(Simulator::new(cs2), Err(SimError::ValidationError { .. })));
    let mut cs3 = ComponentStore::new();
    cs3.push(constant("c", 1));
    cs3.push(probe("p", "c"));
    let mut bad = ComponentStore::new();
    bad.push(constant("c", 1));
    bad.push(Component::Probe(Probe {
        id: "p".to_string(),
        pos: (0, 0),
        input: Input { id: "c".to_string(), index: 3 },
    }));
    assert!(matches!(Simulator::new(bad), Err(SimError::ValidationError { .. })));
}

#[test]
fn register_chain_delays_two_cycles() {
    // c -> R1 -> R2: a value entering the chain must take two clock edges
    // to reach R2, not one.
    let mut cs = ComponentStore::new();
    cs.push(constant("c", 3));
    cs.push(register("r1", "c"));
    cs.push(register("r2", "r1"));
    cs.push(probe("p", "r2"));
    let mut sim = Simulator::new(cs).unwrap();
    assert_eq!(read(&sim, "r1", 0), 0);
    assert_eq!(read(&sim, "r2", 0), 0);
    sim.clock().unwrap();
    assert_eq!(read(&sim, "r1", 0), 3);
    assert_eq!(read(&sim, "r2", 0), 0);
    sim.clock().unwrap();
    assert_eq!(read(&sim, "r2", 0), 3);
}

#[test]
fn register_chain_ignores_declaration_order() {
    // The same chain declared back to front behaves identically: registers
    // capture prior-cycle values whatever their position in the store.
    let mut cs = ComponentStore::new();
    cs.push(probe("p", "r2"));
    cs.push(register("r2", "r1"));
    cs.push(register("r1", "c"));
    cs.push(constant("c", 3));
    let mut sim = Simulator::new(cs).unwrap();
    sim.clock().unwrap();
    assert_eq!(read(&sim, "r1", 0), 3);
    assert_eq!(read(&sim, "r2", 0), 0);
    sim.clock().unwrap();
    assert_eq!(read(&sim, "r2", 0), 3);
}

#[test]
fn two_register_feedback_trails_by_one_cycle() {
    // A captures B+1, B captures A: legal clocked feedback.  B must always
    // hold A's previous value, one edge behind.
    let mut cs = ComponentStore::new();
    cs.push(constant("one", 1));
    cs.push(Component::Alu(Alu {
        id: "inc".to_string(),
        pos: (0, 0),
        op: AluOp::Add,
        a: Input::new("b", 0),
        b: Input::new("one", 0),
    }));
    cs.push(register("a", "inc"));
    cs.push(register("b", "a"));
    let mut sim = Simulator::new(cs).unwrap();
    assert_eq!(read(&sim, "a", 0), 0);
    assert_eq!(read(&sim, "b", 0), 0);
    sim.clock().unwrap();
    assert_eq!(read(&sim, "a", 0), 1);
    assert_eq!(read(&sim, "b", 0), 0);
    sim.clock().unwrap();
    assert_eq!(read(&sim, "a", 0), 1);
    assert_eq!(read(&sim, "b", 0), 1);
    sim.clock().unwrap();
    assert_eq!(read(&sim, "a", 0), 2);
    assert_eq!(read(&sim, "b", 0), 1);
}

#[test]
fn failed_clock_leaves_state_intact() {
    // The register emits 0 at cycle 0, so the mux select is in range; after
    // one clock edge it would emit 5, which is out of range for two inputs.
    let mut cs = ComponentStore::new();
    cs.push(constant("five", 5));
    cs.push(register("r", "five"));
    cs.push(constant("a", 10));
    cs.push(constant("b", 20));
    cs.push(Component::Mux(Mux {
        id: "m".to_string(),
        pos: (0, 0),
        select: Input::new("r", 0),
        m_in: vec![Input::new("a", 0), Input::new("b", 0)],
    }));
    let mut sim = Simulator::new(cs).unwrap();
    assert_eq!(read(&sim, "m", 0), 10);
    match sim.clock() {
        Err(SimError::IndexError { id, value }) => {
            assert_eq!(id, "m");
            assert_eq!(value, 5);
        },
        _ => panic!("expected the pass to fail"),
    }
    // The failed pass committed nothing.
    assert_eq!(sim.cycle(), 0);
    assert_eq!(read(&sim, "m", 0), 10);
    assert_eq!(read(&sim, "r", 0), 0);
}

#[test]
fn unknown_component_query_is_reported() {
    let sim = Simulator::new(reg_circuit()).unwrap();
    assert!(matches!(
        sim.get_input_val(&Input::new("nowhere", 0)),
        Err(SimError::UnknownComponent { .. })
    ));
    assert!(matches!(
        sim.get_input_val(&Input::new("c", 7)),
        Err(SimError::ValidationError { .. })
    ));
    assert!(sim.get_id_start_index(&"reg".to_string()).is_ok());
}

#[test]
fn reset_rebuilds_cycle_zero() {
    let mut sim = Simulator::new(reg_circuit()).unwrap();
    sim.clock().unwrap();
    sim.clock().unwrap();
    sim.reset();
    assert_eq!(sim.cycle(), 0);
    assert_eq!(read(&sim, "reg", 0), 0);
    assert!(matches!(sim.un_clock(), Err(SimError::HistoryUnderflow)));
}

#[test]
fn menu_controls_drive_the_simulator() {
    let mut sim = Simulator::new(reg_circuit()).unwrap();
    let mut menu = Menu::new();
    assert!(menu.pause);
    menu.control(&mut sim, MenuEvent::Play).unwrap();
    assert!(!menu.pause);
    menu.control(&mut sim, MenuEvent::Step).unwrap();
    assert_eq!(sim.cycle(), 1);
    menu.control(&mut sim, MenuEvent::StepBack).unwrap();
    assert_eq!(sim.cycle(), 0);
    menu.control(&mut sim, MenuEvent::Step).unwrap();
    menu.control(&mut sim, MenuEvent::Reset).unwrap();
    assert!(menu.pause);
    assert_eq!(sim.cycle(), 0);
}

#[test]
fn save_then_load_round_trips() {
    let cs = reg_circuit();
    let bytes = cs.save();
    let loaded = ComponentStore::load(&bytes).unwrap();
    assert!(cs.same_as(&loaded));
    assert_eq!(loaded.len(), 5);
}

#[test]
fn save_load_keeps_every_kind_and_field() {
    let mut cs = ComponentStore::new();
    cs.push(Component::Constant(Constant { id: "c".to_string(), pos: (-7, 9), value: 3 }));
    cs.push(Component::Wire(Wire {
        id: "w".to_string(),
        pos: (1, 2),
        delta: (-3, 4),
        input: Input::new("c", 0),
    }));
    cs.push(Component::Mux(Mux {
        id: "m".to_string(),
        pos: (5, 6),
        select: Input::new("c", 0),
        m_in: vec![Input::new("c", 0), Input::new("w", 0)],
    }));
    cs.push(Component::Alu(Alu {
        id: "alu".to_string(),
        pos: (0, 0),
        op: AluOp::Xor,
        a: Input::new("c", 0),
        b: Input::new("w", 0),
    }));
    cs.push(register("reg", "c"));
    cs.push(Component::RegFile(RegFile {
        id: "rf".to_string(),
        pos: (8, -8),
        read_addr1: Input::new("c", 0),
        read_addr2: Input::new("c", 0),
        write_data: Input::new("c", 0),
        write_addr: Input::new("c", 0),
        write_enable: Input::new("c", 0),
        registers: (0..32).collect(),
    }));
    cs.push(probe("p", "reg"));
    let bytes = cs.save();
    let loaded = ComponentStore::load(&bytes).unwrap();
    assert!(cs.same_as(&loaded));
}

#[test]
fn load_rejects_unknown_kind_and_truncation() {
    let cs = reg_circuit();
    let mut bytes = cs.save();
    // Truncated input.
    let cut = bytes.len() - 1;
    let truncated: Vec<u8> = bytes[..cut].to_vec();
    assert!(matches!(
        ComponentStore::load(&truncated),
        Err(SimError::DecodeError { .. })
    ));
    // An unrecognized kind discriminant: the first record's tag byte sits
    // right after the 8-byte record count.
    bytes[8] = 99;
    assert!(matches!(
        ComponentStore::load(&bytes),
        Err(SimError::UnsupportedComponentKind { kind: 99 })
    ));
}
