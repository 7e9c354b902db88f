//! The closed set of component variants and their port descriptors.
//!
//! Each component has a unique string id, a position used only by
//! presentation layers, a fixed set of input edges, and a declared output
//! arity.  The simulator reads all of that through [`Component::get_id_ports`]
//! and the access methods here; the evaluation semantics live in the
//! simulator module.

use vstd::prelude::*;

use crate::common::{Input, InputV, Output, OutputType, Ports, Signal};

verus! {

/// Emits a fixed configured value on its single output.
pub struct Constant {
    pub id: String,
    pub pos: (i64, i64),
    pub value: Signal,
}

/// Identity relay: forwards its single input to its single output.
pub struct Wire {
    pub id: String,
    pub pos: (i64, i64),
    pub delta: (i64, i64),
    pub input: Input,
}

/// Emits `m_in[select]`; a select value outside `0..m_in.len()` raises an
/// index error during evaluation.
pub struct Mux {
    pub id: String,
    pub pos: (i64, i64),
    pub select: Input,
    pub m_in: Vec<Input>,
}

/// The arithmetic or logic function an [`Alu`] is configured with.
#[derive(PartialEq, Eq, Structural, Clone, Copy)]
pub enum AluOp {
    Add,
    Sub,
    And,
    Or,
    Xor,
}

/// Computes a configured function of its two inputs on its single output.
/// Additive operations wrap modulo `2^32`.
pub struct Alu {
    pub id: String,
    pub pos: (i64, i64),
    pub op: AluOp,
    pub a: Input,
    pub b: Input,
}

/// Holds one stored word.  Its output carries the word captured at the
/// previous clock edge; each pass it captures its input value as the word
/// emitted from the following cycle onward.
pub struct Register {
    pub id: String,
    pub pos: (i64, i64),
    pub r_in: Input,
}

/// A 32-entry addressable store with two read ports and one write port.
/// Address 0 is hard-wired to read as 0.  An enabled write is applied before
/// the reads of the same evaluation pass.  `registers` holds the initial
/// contents (a valid store gives it exactly 32 entries).
pub struct RegFile {
    pub id: String,
    pub pos: (i64, i64),
    pub read_addr1: Input,
    pub read_addr2: Input,
    pub write_data: Input,
    pub write_addr: Input,
    pub write_enable: Input,
    pub registers: Vec<Signal>,
}

/// Pure observer: declares no outputs and exposes another component's
/// current slot value to external readers.
pub struct Probe {
    pub id: String,
    pub pos: (i64, i64),
    pub input: Input,
}

/// One netlist component, over the closed set of variants.
pub enum Component {
    Constant(Constant),
    Wire(Wire),
    Mux(Mux),
    Alu(Alu),
    Register(Register),
    RegFile(RegFile),
    Probe(Probe),
}

/// The mathematical value of a [`Component`]: ids as character sequences,
/// positions as integer pairs, edges as [`InputV`] values.
pub enum CompV {
    Constant { id: Seq<char>, pos: (int, int), value: u32 },
    Wire { id: Seq<char>, pos: (int, int), delta: (int, int), input: InputV },
    Mux { id: Seq<char>, pos: (int, int), select: InputV, m_in: Seq<InputV> },
    Alu { id: Seq<char>, pos: (int, int), op: AluOp, a: InputV, b: InputV },
    Register { id: Seq<char>, pos: (int, int), r_in: InputV },
    RegFile {
        id: Seq<char>,
        pos: (int, int),
        read_addr1: InputV,
        read_addr2: InputV,
        write_data: InputV,
        write_addr: InputV,
        write_enable: InputV,
        registers: Seq<u32>,
    },
    Probe { id: Seq<char>, pos: (int, int), input: InputV },
}

impl View for Component {
    type V = CompV;

    open spec fn view(&self) -> CompV {
        match self {
            Component::Constant(c) => CompV::Constant {
                id: c.id@,
                pos: (c.pos.0 as int, c.pos.1 as int),
                value: c.value,
            },
            Component::Wire(c) => CompV::Wire {
                id: c.id@,
                pos: (c.pos.0 as int, c.pos.1 as int),
                delta: (c.delta.0 as int, c.delta.1 as int),
                input: c.input@,
            },
            Component::Mux(c) => CompV::Mux {
                id: c.id@,
                pos: (c.pos.0 as int, c.pos.1 as int),
                select: c.select@,
                m_in: c.m_in.deep_view(),
            },
            Component::Alu(c) => CompV::Alu {
                id: c.id@,
                pos: (c.pos.0 as int, c.pos.1 as int),
                op: c.op,
                a: c.a@,
                b: c.b@,
            },
            Component::Register(c) => CompV::Register {
                id: c.id@,
                pos: (c.pos.0 as int, c.pos.1 as int),
                r_in: c.r_in@,
            },
            Component::RegFile(c) => CompV::RegFile {
                id: c.id@,
                pos: (c.pos.0 as int, c.pos.1 as int),
                read_addr1: c.read_addr1@,
                read_addr2: c.read_addr2@,
                write_data: c.write_data@,
                write_addr: c.write_addr@,
                write_enable: c.write_enable@,
                registers: c.registers.deep_view(),
            },
            Component::Probe(c) => CompV::Probe {
                id: c.id@,
                pos: (c.pos.0 as int, c.pos.1 as int),
                input: c.input@,
            },
        }
    }
}

impl DeepView for Component {
    type V = CompV;

    open spec fn deep_view(&self) -> CompV {
        self.view()
    }
}

/// The component's unique id.
pub open spec fn comp_id(c: CompV) -> Seq<char> {
    match c {
        CompV::Constant { id, .. } => id,
        CompV::Wire { id, .. } => id,
        CompV::Mux { id, .. } => id,
        CompV::Alu { id, .. } => id,
        CompV::Register { id, .. } => id,
        CompV::RegFile { id, .. } => id,
        CompV::Probe { id, .. } => id,
    }
}

/// The component's declared output arity: how many slots of the signal state
/// vector it owns.
pub open spec fn comp_arity(c: CompV) -> nat {
    match c {
        CompV::Constant { .. } => 1,
        CompV::Wire { .. } => 1,
        CompV::Mux { .. } => 1,
        CompV::Alu { .. } => 1,
        CompV::Register { .. } => 1,
        CompV::RegFile { .. } => 2,
        CompV::Probe { .. } => 0,
    }
}

/// The component's scheduling class.  Only the register carries its value
/// across the clock edge through its output slot; every other variant is
/// recomputed from current inputs each pass.
pub open spec fn comp_out_type(c: CompV) -> OutputType {
    match c {
        CompV::Register { .. } => OutputType::Sequential,
        _ => OutputType::Combinatorial,
    }
}

/// The input edges that constrain the evaluation schedule, as listed by
/// `get_id_ports`.  For the register file these are the two read addresses
/// only: its write port edges are legal feedback and must not create
/// scheduling constraints.
pub open spec fn comp_ports_inputs(c: CompV) -> Seq<InputV> {
    match c {
        CompV::Constant { .. } => seq![],
        CompV::Wire { input, .. } => seq![input],
        CompV::Mux { select, m_in, .. } => seq![select] + m_in,
        CompV::Alu { a, b, .. } => seq![a, b],
        CompV::Register { r_in, .. } => seq![r_in],
        CompV::RegFile { read_addr1, read_addr2, .. } => seq![read_addr1, read_addr2],
        CompV::Probe { input, .. } => seq![input],
    }
}

/// Every input edge of the component, write ports included.  All of these
/// must resolve in a valid store.
pub open spec fn comp_all_inputs(c: CompV) -> Seq<InputV> {
    match c {
        CompV::RegFile {
            read_addr1,
            read_addr2,
            write_data,
            write_addr,
            write_enable,
            ..
        } => seq![read_addr1, read_addr2, write_data, write_addr, write_enable],
        _ => comp_ports_inputs(c),
    }
}

/// The value an ALU configured with `op` emits for input words `a` and `b`.
pub open spec fn alu_math(op: AluOp, a: u32, b: u32) -> u32 {
    match op {
        AluOp::Add => vstd::wrapping::u32_specs::wrapping_add(a, b),
        AluOp::Sub => vstd::wrapping::u32_specs::wrapping_sub(a, b),
        AluOp::And => a & b,
        AluOp::Or => a | b,
        AluOp::Xor => a ^ b,
    }
}

/// Computes the configured ALU function of two input words.
pub fn alu_compute(op: AluOp, a: u32, b: u32) -> (r: u32)
    ensures
        r == alu_math(op, a, b),
{
    match op {
        AluOp::Add => a.wrapping_add(b),
        AluOp::Sub => a.wrapping_sub(b),
        AluOp::And => a & b,
        AluOp::Or => a | b,
        AluOp::Xor => a ^ b,
    }
}

/// Copies an edge reference.
fn clone_input(inp: &Input) -> (r: Input)
    ensures
        r@ == inp@,
{
    Input { id: inp.id.clone(), index: inp.index }
}

/// True when two edge lists agree element by element.
fn inputs_same(a: &Vec<Input>, b: &Vec<Input>) -> (r: bool)
    ensures
        r == (a.deep_view() == b.deep_view()),
{
    if a.len() != b.len() {
        proof {
            assert(a.deep_view().len() != b.deep_view().len());
        }
        return false;
    }
    let n = a.len();
    let mut i: usize = 0;
    while i < n
        invariant
            i <= n,
            n == a@.len() == b@.len(),
            forall|j: int| 0 <= j < i ==> a@[j]@ == #[trigger] b@[j]@,
        decreases n - i,
    {
        if !a[i].same_as(&b[i]) {
            proof {
                assert(a.deep_view()[i as int] != b.deep_view()[i as int]);
            }
            return false;
        }
        i += 1;
    }
    proof {
        assert(a.deep_view() =~= b.deep_view());
    }
    true
}

/// True when two words of initial register contents agree element by element.
fn words_same(a: &Vec<Signal>, b: &Vec<Signal>) -> (r: bool)
    ensures
        r == (a.deep_view() == b.deep_view()),
{
    if a.len() != b.len() {
        proof {
            assert(a.deep_view().len() != b.deep_view().len());
        }
        return false;
    }
    let n = a.len();
    let mut i: usize = 0;
    while i < n
        invariant
            i <= n,
            n == a@.len() == b@.len(),
            forall|j: int| 0 <= j < i ==> a@[j] == #[trigger] b@[j],
        decreases n - i,
    {
        if a[i] != b[i] {
            proof {
                assert(a.deep_view()[i as int] != b.deep_view()[i as int]);
            }
            return false;
        }
        i += 1;
    }
    proof {
        assert(a.deep_view() =~= b.deep_view());
    }
    true
}

/// Copies a list of edge references.
fn clone_inputs(v: &Vec<Input>) -> (r: Vec<Input>)
    ensures
        r.deep_view() == v.deep_view(),
{
    let mut out: Vec<Input> = Vec::new();
    let mut i: usize = 0;
    while i < v.len()
        invariant
            i <= v.len(),
            out@.len() == i,
            forall|j: int| 0 <= j < i ==> out@[j]@ == #[trigger] v@[j]@,
        decreases v.len() - i,
    {
        out.push(clone_input(&v[i]));
        i += 1;
    }
    proof {
        assert(out.deep_view() =~= v.deep_view());
    }
    out
}

impl Component {
    /// The component's id.
    pub fn id(&self) -> (r: &String)
        ensures
            r@ == comp_id(self@),
    {
        match self {
            Component::Constant(c) => &c.id,
            Component::Wire(c) => &c.id,
            Component::Mux(c) => &c.id,
            Component::Alu(c) => &c.id,
            Component::Register(c) => &c.id,
            Component::RegFile(c) => &c.id,
            Component::Probe(c) => &c.id,
        }
    }

    /// The component's declared output arity.
    pub fn arity(&self) -> (r: usize)
        ensures
            r as nat == comp_arity(self@),
    {
        match self {
            Component::Constant(_) => 1,
            Component::Wire(_) => 1,
            Component::Mux(_) => 1,
            Component::Alu(_) => 1,
            Component::Register(_) => 1,
            Component::RegFile(_) => 2,
            Component::Probe(_) => 0,
        }
    }

    /// The component's scheduling class.
    pub fn out_type(&self) -> (r: OutputType)
        ensures
            r == comp_out_type(self@),
    {
        match self {
            Component::Register(_) => OutputType::Sequential,
            _ => OutputType::Combinatorial,
        }
    }

    /// The component's id together with its port descriptor: the scheduling
    /// input edges, the output type, and one kind tag per output slot.
    pub fn get_id_ports(&self) -> (r: (String, Ports))
        ensures
            r.0@ == comp_id(self@),
            r.1.inputs.deep_view() == comp_ports_inputs(self@),
            r.1.out_type == comp_out_type(self@),
            r.1.outputs@.len() == comp_arity(self@),
    {
        let inputs = self.ports_inputs();
        let out_type = self.out_type();
        let arity = self.arity();
        let mut outputs: Vec<Output> = Vec::new();
        let mut i: usize = 0;
        while i < arity
            invariant
                outputs@.len() == i,
                i <= arity,
            decreases arity - i,
        {
            outputs.push(Output::Function);
            i += 1;
        }
        (self.id().clone(), Ports { inputs, out_type, outputs })
    }

    /// The input edges that constrain the evaluation schedule.
    pub fn ports_inputs(&self) -> (r: Vec<Input>)
        ensures
            r.deep_view() == comp_ports_inputs(self@),
    {
        let mut out: Vec<Input> = Vec::new();
        match self {
            Component::Constant(_) => {},
            Component::Wire(c) => {
                out.push(clone_input(&c.input));
            },
            Component::Mux(c) => {
                out.push(clone_input(&c.select));
                let mut i: usize = 0;
                while i < c.m_in.len()
                    invariant
                        i <= c.m_in.len(),
                        out@.len() == i + 1,
                        out@[0]@ == c.select@,
                        forall|j: int| 0 <= j < i ==> out@[j + 1]@ == #[trigger] c.m_in@[j]@,
                    decreases c.m_in.len() - i,
                {
                    out.push(clone_input(&c.m_in[i]));
                    i += 1;
                }
            },
            Component::Alu(c) => {
                out.push(clone_input(&c.a));
                out.push(clone_input(&c.b));
            },
            Component::Register(c) => {
                out.push(clone_input(&c.r_in));
            },
            Component::RegFile(c) => {
                out.push(clone_input(&c.read_addr1));
                out.push(clone_input(&c.read_addr2));
            },
            Component::Probe(c) => {
                out.push(clone_input(&c.input));
            },
        }
        proof {
            assert(out.deep_view() =~= comp_ports_inputs(self@));
        }
        out
    }

    /// True when both components have the same kind, id, geometry,
    /// configuration, and input edges.
    pub fn same_as(&self, other: &Component) -> (r: bool)
        ensures
            r == (self@ == other@),
    {
        match (self, other) {
            (Component::Constant(a), Component::Constant(b)) => {
                a.id == b.id && a.pos.0 == b.pos.0 && a.pos.1 == b.pos.1 && a.value == b.value
            },
            (Component::Wire(a), Component::Wire(b)) => {
                a.id == b.id && a.pos.0 == b.pos.0 && a.pos.1 == b.pos.1 && a.delta.0 == b.delta.0
                    && a.delta.1 == b.delta.1 && a.input.same_as(&b.input)
            },
            (Component::Mux(a), Component::Mux(b)) => {
                a.id == b.id && a.pos.0 == b.pos.0 && a.pos.1 == b.pos.1 && a.select.same_as(
                    &b.select,
                ) && inputs_same(&a.m_in, &b.m_in)
            },
            (Component::Alu(a), Component::Alu(b)) => {
                a.id == b.id && a.pos.0 == b.pos.0 && a.pos.1 == b.pos.1 && a.op == b.op
                    && a.a.same_as(&b.a) && a.b.same_as(&b.b)
            },
            (Component::Register(a), Component::Register(b)) => {
                a.id == b.id && a.pos.0 == b.pos.0 && a.pos.1 == b.pos.1 && a.r_in.same_as(&b.r_in)
            },
            (Component::RegFile(a), Component::RegFile(b)) => {
                a.id == b.id && a.pos.0 == b.pos.0 && a.pos.1 == b.pos.1 && a.read_addr1.same_as(
                    &b.read_addr1,
                ) && a.read_addr2.same_as(&b.read_addr2) && a.write_data.same_as(&b.write_data)
                    && a.write_addr.same_as(&b.write_addr) && a.write_enable.same_as(
                    &b.write_enable,
                ) && words_same(&a.registers, &b.registers)
            },
            (Component::Probe(a), Component::Probe(b)) => {
                a.id == b.id && a.pos.0 == b.pos.0 && a.pos.1 == b.pos.1 && a.input.same_as(
                    &b.input,
                )
            },
            _ => false,
        }
    }

    /// Every input edge of the component, write ports included.
    pub fn all_inputs(&self) -> (r: Vec<Input>)
        ensures
            r.deep_view() == comp_all_inputs(self@),
    {
        match self {
            Component::RegFile(c) => {
                let mut out: Vec<Input> = Vec::new();
                out.push(clone_input(&c.read_addr1));
                out.push(clone_input(&c.read_addr2));
                out.push(clone_input(&c.write_data));
                out.push(clone_input(&c.write_addr));
                out.push(clone_input(&c.write_enable));
                proof {
                    assert(out.deep_view() =~= comp_all_inputs(self@));
                }
                out
            },
            _ => self.ports_inputs(),
        }
    }
}

} // verus!
