//! The netlist container: an ordered, id-keyed collection of components,
//! with the structural validation that runs eagerly before any simulator is
//! built.

use vstd::prelude::*;

use crate::common::{InputV, SimError};
use crate::components::{comp_all_inputs, comp_arity, comp_id, CompV, Component};

verus! {

/// The netlist: an ordered sequence of owned components.  A valid store has
/// unique ids, every input edge resolving to an existing component within
/// its declared arity, and 32 initial entries in every register file.
pub struct ComponentStore {
    pub store: Vec<Component>,
}

impl View for ComponentStore {
    type V = Seq<CompV>;

    open spec fn view(&self) -> Seq<CompV> {
        self.store.deep_view()
    }
}

/// The position of the first component of `s` with id `id`, scanning from
/// position `i`; `-1` when there is none.
pub open spec fn find_id_from(s: Seq<CompV>, id: Seq<char>, i: int) -> int
    decreases s.len() - i,
    when 0 <= i
{
    if i >= s.len() {
        -1
    } else if comp_id(s[i]) == id {
        i
    } else {
        find_id_from(s, id, i + 1)
    }
}

/// The position of the first component of `s` with id `id`; `-1` when no
/// component has that id.
pub open spec fn find_id(s: Seq<CompV>, id: Seq<char>) -> int {
    find_id_from(s, id, 0)
}

/// What `find_id_from` returns: either `-1` and no component at or after `i`
/// has the id, or the first position at or after `i` whose component has it.
pub proof fn lemma_find_id_from(s: Seq<CompV>, id: Seq<char>, i: int)
    requires
        0 <= i <= s.len(),
    ensures
        find_id_from(s, id, i) == -1 ==> forall|j: int|
            i <= j < s.len() ==> comp_id(#[trigger] s[j]) != id,
        find_id_from(s, id, i) != -1 ==> {
            let r = find_id_from(s, id, i);
            &&& i <= r < s.len()
            &&& comp_id(s[r]) == id
            &&& forall|j: int| i <= j < r ==> comp_id(#[trigger] s[j]) != id
        },
    decreases s.len() - i,
{
    if i < s.len() && comp_id(s[i]) != id {
        lemma_find_id_from(s, id, i + 1);
    }
}

/// `find_id` characterized over the whole sequence.
pub proof fn lemma_find_id(s: Seq<CompV>, id: Seq<char>)
    ensures
        find_id(s, id) == -1 ==> forall|j: int|
            0 <= j < s.len() ==> comp_id(#[trigger] s[j]) != id,
        find_id(s, id) != -1 ==> {
            let r = find_id(s, id);
            &&& 0 <= r < s.len()
            &&& comp_id(s[r]) == id
            &&& forall|j: int| 0 <= j < r ==> comp_id(#[trigger] s[j]) != id
        },
{
    lemma_find_id_from(s, id, 0);
}

/// No two components of `s` share an id.
pub open spec fn ids_unique(s: Seq<CompV>) -> bool {
    forall|i: int, j: int|
        0 <= i < j < s.len() ==> comp_id(#[trigger] s[i]) != comp_id(#[trigger] s[j])
}

/// The edge `inp` names an existing component of `s` and an output index
/// within that component's declared arity.
pub open spec fn input_ok(s: Seq<CompV>, inp: InputV) -> bool {
    &&& find_id(s, inp.id) != -1
    &&& 0 <= inp.index < comp_arity(s[find_id(s, inp.id)])
}

/// Every input edge of component `c` resolves in `s`.
pub open spec fn comp_inputs_ok(s: Seq<CompV>, c: CompV) -> bool {
    forall|t: int| 0 <= t < comp_all_inputs(c).len() ==> input_ok(s, #[trigger] comp_all_inputs(c)[t])
}

/// A register file carries exactly 32 initial entries.
pub open spec fn comp_shape_ok(c: CompV) -> bool {
    c matches CompV::RegFile { registers, .. } ==> registers.len() == 32
}

/// The store invariant that validation establishes: unique ids, resolvable
/// edges, well-shaped register files.
pub open spec fn valid_store(s: Seq<CompV>) -> bool {
    &&& ids_unique(s)
    &&& forall|k: int| 0 <= k < s.len() ==> comp_inputs_ok(s, #[trigger] s[k])
    &&& forall|k: int| 0 <= k < s.len() ==> comp_shape_ok(#[trigger] s[k])
}

/// `id` names a component of `s` that validation may reject: an id held by
/// two components, or the id of a component with an unresolvable input edge
/// or a mis-shaped register file.
pub open spec fn validation_offender(s: Seq<CompV>, id: Seq<char>) -> bool {
    ||| exists|i: int, j: int|
        0 <= i < j < s.len() && comp_id(#[trigger] s[i]) == comp_id(#[trigger] s[j]) && comp_id(
            s[i],
        ) == id
    ||| exists|k: int|
        0 <= k < s.len() && comp_id(#[trigger] s[k]) == id && !comp_inputs_ok(s, s[k])
    ||| exists|k: int|
        0 <= k < s.len() && comp_id(#[trigger] s[k]) == id && !comp_shape_ok(s[k])
}

impl ComponentStore {
    /// An empty netlist.
    pub fn new() -> (r: ComponentStore)
        ensures
            r@.len() == 0,
    {
        ComponentStore { store: Vec::new() }
    }

    /// How many components the store holds.
    pub fn len(&self) -> (r: usize)
        ensures
            r == self@.len(),
    {
        self.store.len()
    }

    /// Appends a component to the netlist.
    pub fn push(&mut self, c: Component)
        ensures
            final(self)@ == old(self)@.push(c@),
    {
        self.store.push(c);
        proof {
            assert(self@ =~= old(self)@.push(c@));
        }
    }

    /// The position of the first component with the given id, if any.
    pub fn get_component_index(&self, id: &String) -> (r: Option<usize>)
        ensures
            match r {
                Some(k) => find_id(self@, id@) == k,
                None => find_id(self@, id@) == -1,
            },
    {
        let n = self.store.len();
        let mut i: usize = 0;
        while i < n
            invariant
                i <= n,
                n == self@.len(),
                find_id_from(self@, id@, 0) == find_id_from(self@, id@, i as int),
            decreases n - i,
        {
            if *self.store[i].id() == *id {
                return Some(i);
            }
            i += 1;
        }
        None
    }

    /// True when both stores hold the same components, in the same order,
    /// with the same ids, kinds, configuration, geometry and input edges.
    pub fn same_as(&self, other: &ComponentStore) -> (r: bool)
        ensures
            r == (self@ == other@),
    {
        if self.store.len() != other.store.len() {
            return false;
        }
        let n = self.store.len();
        let mut i: usize = 0;
        while i < n
            invariant
                i <= n,
                n == self@.len() == other@.len(),
                forall|j: int| 0 <= j < i ==> self@[j] == #[trigger] other@[j],
            decreases n - i,
        {
            if !self.store[i].same_as(&other.store[i]) {
                proof {
                    assert(self@[i as int] != other@[i as int]);
                }
                return false;
            }
            i += 1;
        }
        proof {
            assert(self@ =~= other@);
        }
        true
    }

    /// Checks the store invariant: unique ids, every input edge resolving
    /// within the declared arity of an existing component, 32 entries in
    /// every register file.  On rejection the error names an offending
    /// component id.
    pub fn validate(&self) -> (r: Result<(), SimError>)
        ensures
            r is Ok <==> valid_store(self@),
            r matches Err(e) ==> e matches SimError::ValidationError { id }
                && validation_offender(self@, id@),
    {
        let n = self.store.len();
        // Unique ids.
        let mut i: usize = 0;
        while i < n
            invariant
                i <= n,
                n == self@.len(),
                forall|p: int, q: int|
                    0 <= p < q < n && p < i ==> comp_id(#[trigger] self@[p]) != comp_id(
                        #[trigger] self@[q],
                    ),
            decreases n - i,
        {
            let mut j: usize = i + 1;
            while j < n
                invariant
                    i < j <= n,
                    n == self@.len(),
                    forall|q: int| i < q < j ==> comp_id(#[trigger] self@[q]) != comp_id(self@[i as int]),
                decreases n - j,
            {
                if *self.store[i].id() == *self.store[j].id() {
                    proof {
                        let s = self@;
                        assert(0 <= i < j < s.len() && comp_id(s[i as int]) == comp_id(
                            s[j as int],
                        ));
                        assert(!ids_unique(s));
                        assert(validation_offender(s, comp_id(s[i as int])));
                    }
                    return Err(SimError::ValidationError { id: self.store[i].id().clone() });
                }
                j += 1;
            }
            i += 1;
        }
        assert(ids_unique(self@));
        // Resolvable edges and register-file shape.
        let mut k: usize = 0;
        while k < n
            invariant
                k <= n,
                n == self@.len(),
                ids_unique(self@),
                forall|p: int| 0 <= p < k ==> comp_inputs_ok(self@, #[trigger] self@[p]),
                forall|p: int| 0 <= p < k ==> comp_shape_ok(#[trigger] self@[p]),
            decreases n - k,
        {
            let inputs = self.store[k].all_inputs();
            let m = inputs.len();
            let mut t: usize = 0;
            while t < m
                invariant
                    t <= m,
                    k < n == self@.len(),
                    inputs.deep_view() == comp_all_inputs(self@[k as int]),
                    m == inputs@.len(),
                    forall|q: int| 0 <= q < t ==> input_ok(self@, #[trigger] comp_all_inputs(
                        self@[k as int],
                    )[q]),
                decreases m - t,
            {
                assert(inputs@[t as int]@ == comp_all_inputs(self@[k as int])[t as int]);
                let found = self.get_component_index(&inputs[t].id);
                match found {
                    None => {
                        proof {
                            let s = self@;
                            let ki = k as int;
                            assert(!input_ok(s, comp_all_inputs(s[ki])[t as int]));
                            assert(!comp_inputs_ok(s, s[ki]));
                            assert(validation_offender(s, comp_id(s[ki])));
                        }
                        return Err(SimError::ValidationError { id: self.store[k].id().clone() });
                    },
                    Some(f) => {
                        proof {
                            lemma_find_id(self@, inputs@[t as int]@.id);
                        }
                        if inputs[t].index >= self.store[f].arity() {
                            proof {
                                let s = self@;
                                let ki = k as int;
                                assert(!input_ok(s, comp_all_inputs(s[ki])[t as int]));
                                assert(!comp_inputs_ok(s, s[ki]));
                                assert(validation_offender(s, comp_id(s[ki])));
                            }
                            return Err(
                                SimError::ValidationError { id: self.store[k].id().clone() },
                            );
                        }
                    },
                }
                t += 1;
            }
            match &self.store[k] {
                Component::RegFile(rf) => {
                    if rf.registers.len() != 32 {
                        proof {
                            let s = self@;
                            let ki = k as int;
                            assert(!comp_shape_ok(s[ki]));
                            assert(validation_offender(s, comp_id(s[ki])));
                        }
                        return Err(SimError::ValidationError { id: self.store[k].id().clone() });
                    }
                },
                _ => {},
            }
            k += 1;
        }
        Ok(())
    }
}

} // verus!
