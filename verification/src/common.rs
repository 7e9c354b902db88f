//! Basic signal-level types shared by the netlist and the simulator: the
//! `Signal` word, edge references (`Input`), port descriptors, and the error
//! taxonomy.

use vstd::prelude::*;

verus! {

/// One fixed-width unsigned value carried on one output slot.
pub type Signal = u32;

/// A named reference to `(producer component id, output index)`.
///
/// Every `Input` of a valid store names an existing component id, with an
/// output index within that component's declared arity.  At simulator build
/// time each `Input` is resolved once into a flat slot index.
pub struct Input {
    pub id: String,
    pub index: usize,
}

/// The mathematical value of an [`Input`]: the referenced id as a character
/// sequence and the output index.
pub struct InputV {
    pub id: Seq<char>,
    pub index: int,
}

impl View for Input {
    type V = InputV;

    open spec fn view(&self) -> InputV {
        InputV { id: self.id@, index: self.index as int }
    }
}

impl DeepView for Input {
    type V = InputV;

    open spec fn deep_view(&self) -> InputV {
        self.view()
    }
}

impl Input {
    /// Builds an edge reference to output `index` of component `id`.
    pub fn new(id: &str, index: usize) -> (r: Input)
        ensures
            r@.id == id@,
            r@.index == index as int,
    {
        Input { id: id.to_owned(), index }
    }

    /// True when both fields agree.
    pub fn same_as(&self, other: &Input) -> (r: bool)
        ensures
            r == (self@ == other@),
    {
        let ids_eq = self.id == other.id;
        let r = ids_eq && self.index == other.index;
        proof {
            if r {
                assert(self@ =~= other@);
            }
        }
        r
    }
}

/// Scheduling class of a component's outputs.
///
/// `Combinatorial` outputs are recomputed from current-cycle inputs on every
/// evaluation pass; `Sequential` outputs carry persistent storage captured at
/// the previous clock edge.
#[derive(PartialEq, Eq, Structural, Clone, Copy)]
pub enum OutputType {
    Combinatorial,
    Sequential,
}

/// Kind tag for one declared output slot.
#[derive(PartialEq, Eq, Structural, Clone, Copy)]
pub enum Output {
    Function,
}

/// Per-component port descriptor: ordered input edges, output type, and one
/// kind tag per output slot (the output arity is `outputs.len()`).
pub struct Ports {
    pub inputs: Vec<Input>,
    pub out_type: OutputType,
    pub outputs: Vec<Output>,
}

/// Everything that can go wrong while building, loading or stepping a
/// circuit.  Build-time errors abort construction; `IndexError` aborts the
/// clock pass that raised it, leaving the previously committed state intact;
/// `HistoryUnderflow` is a recoverable report.
#[derive(Debug)]
pub enum SimError {
    /// A duplicate id, a dangling `Input`, or an out-of-range port index,
    /// found while validating a store; `id` names the offending component.
    ValidationError { id: String },
    /// An unrecognized component kind discriminant in a persisted store.
    UnsupportedComponentKind { kind: u8 },
    /// A persisted store whose bytes do not follow the record format;
    /// `at` is the offset at which decoding stopped.
    DecodeError { at: usize },
    /// An `Input` named a component id absent from the compiled store.
    UnknownComponent { id: String },
    /// The combinatorial components named in `ids` block each other in a
    /// dependency cycle that passes through no sequential component.
    CombinatorialLoopError { ids: Vec<String> },
    /// A select or address value out of range during an evaluation pass;
    /// `id` names the component and `value` the offending signal value.
    IndexError { id: String, value: Signal },
    /// `un_clock` was called with no history to pop (already at cycle 0).
    HistoryUnderflow,
}

} // verus!
