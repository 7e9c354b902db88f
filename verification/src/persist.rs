//! Persistence: the tagged-record byte format a netlist is saved to and
//! loaded from.
//!
//! A persisted store is a record count followed by one record per
//! component: a kind discriminant byte, the id, the geometry, the
//! variant-specific configuration and the input edges.  Counts and indices
//! are 8 little-endian bytes, signal words and characters 4, coordinates 8
//! (offset binary).  Loading rejects unknown discriminants, malformed
//! bytes and structurally invalid stores before handing the store back.

use vstd::prelude::*;

use crate::common::{Input, InputV, SimError};
use crate::component_store::{valid_store, validation_offender, ComponentStore};
use crate::components::{
    Alu, AluOp, CompV, Component, Constant, Mux, Probe, RegFile, Register, Wire,
};

verus! {

/// Relies on `char::from_u32`: returns the character with the given code
/// point exactly when the value is a Unicode scalar (not a surrogate, at
/// most `0x10FFFF`).
pub assume_specification[ char::from_u32 ](x: u32) -> (r: Option<char>)
    ensures
        r is Some <==> vstd::utf8::is_scalar(x),
        r matches Some(c) ==> c as u32 == x,
;

/// Relies on `String::push`: appends one character to the string.
pub assume_specification[ String::push ](s: &mut String, c: char)
    ensures
        final(s)@ == old(s)@.push(c),
;

/// The little-endian bytes of a 32-bit word.
pub open spec fn enc_u32(x: u32) -> Seq<u8> {
    seq![
        (x & 0xff) as u8,
        ((x >> 8) & 0xff) as u8,
        ((x >> 16) & 0xff) as u8,
        ((x >> 24) & 0xff) as u8,
    ]
}

/// The little-endian bytes of a 64-bit word.
pub open spec fn enc_u64(x: u64) -> Seq<u8> {
    seq![
        (x & 0xff) as u8,
        ((x >> 8) & 0xff) as u8,
        ((x >> 16) & 0xff) as u8,
        ((x >> 24) & 0xff) as u8,
        ((x >> 32) & 0xff) as u8,
        ((x >> 40) & 0xff) as u8,
        ((x >> 48) & 0xff) as u8,
        ((x >> 56) & 0xff) as u8,
    ]
}

/// One byte off the front.
pub open spec fn dec_u8(b: Seq<u8>) -> Option<(u8, Seq<u8>)> {
    if b.len() < 1 {
        None
    } else {
        Some((b[0], b.skip(1)))
    }
}

/// A 32-bit word off the front.
pub open spec fn dec_u32(b: Seq<u8>) -> Option<(u32, Seq<u8>)> {
    if b.len() < 4 {
        None
    } else {
        Some(
            (
                (b[0] as u32) | ((b[1] as u32) << 8) | ((b[2] as u32) << 16) | (
                (b[3] as u32) << 24),
                b.skip(4),
            ),
        )
    }
}

/// A 64-bit word off the front.
pub open spec fn dec_u64(b: Seq<u8>) -> Option<(u64, Seq<u8>)> {
    if b.len() < 8 {
        None
    } else {
        Some(
            (
                (b[0] as u64) | ((b[1] as u64) << 8) | ((b[2] as u64) << 16) | (
                (b[3] as u64) << 24) | ((b[4] as u64) << 32) | ((b[5] as u64) << 40) | (
                (b[6] as u64) << 48) | ((b[7] as u64) << 56),
                b.skip(8),
            ),
        )
    }
}

/// Encoding a 32-bit word and decoding it gives the word back and leaves
/// the rest untouched.
pub proof fn lemma_dec_enc_u32(x: u32, rest: Seq<u8>)
    ensures
        dec_u32(enc_u32(x) + rest) == Some((x, rest)),
{
    let b = enc_u32(x) + rest;
    assert(b.len() >= 4);
    assert(b[0] == (x & 0xff) as u8 && b[1] == ((x >> 8) & 0xff) as u8 && b[2] == ((x >> 16)
        & 0xff) as u8 && b[3] == ((x >> 24) & 0xff) as u8);
    assert((((x & 0xff) as u8) as u32) | ((((x >> 8) & 0xff) as u8) as u32) << 8 | ((((x >> 16)
        & 0xff) as u8) as u32) << 16 | ((((x >> 24) & 0xff) as u8) as u32) << 24 == x)
        by (bit_vector);
    assert(b.skip(4) =~= rest);
}

/// Encoding a 64-bit word and decoding it gives the word back and leaves
/// the rest untouched.
pub proof fn lemma_dec_enc_u64(x: u64, rest: Seq<u8>)
    ensures
        dec_u64(enc_u64(x) + rest) == Some((x, rest)),
{
    let b = enc_u64(x) + rest;
    assert(b.len() >= 8);
    assert(b[0] == (x & 0xff) as u8 && b[1] == ((x >> 8) & 0xff) as u8 && b[2] == ((x >> 16)
        & 0xff) as u8 && b[3] == ((x >> 24) & 0xff) as u8 && b[4] == ((x >> 32) & 0xff) as u8
        && b[5] == ((x >> 40) & 0xff) as u8 && b[6] == ((x >> 48) & 0xff) as u8 && b[7] == ((x
        >> 56) & 0xff) as u8);
    assert((((x & 0xff) as u8) as u64) | ((((x >> 8) & 0xff) as u8) as u64) << 8 | ((((x >> 16)
        & 0xff) as u8) as u64) << 16 | ((((x >> 24) & 0xff) as u8) as u64) << 24 | ((((x >> 32)
        & 0xff) as u8) as u64) << 32 | ((((x >> 40) & 0xff) as u8) as u64) << 40 | ((((x >> 48)
        & 0xff) as u8) as u64) << 48 | ((((x >> 56) & 0xff) as u8) as u64) << 56 == x)
        by (bit_vector);
    assert(b.skip(8) =~= rest);
}

/// The characters of a string, 4 bytes each.
pub open spec fn enc_chars(cs: Seq<char>) -> Seq<u8>
    decreases cs.len(),
{
    if cs.len() == 0 {
        Seq::empty()
    } else {
        enc_u32(cs[0] as u32) + enc_chars(cs.skip(1))
    }
}

/// A string: its character count, then its characters.
pub open spec fn enc_str(cs: Seq<char>) -> Seq<u8> {
    enc_u64(cs.len() as u64) + enc_chars(cs)
}

/// An input edge: the producer id, then the output index.
pub open spec fn enc_input(i: InputV) -> Seq<u8> {
    enc_str(i.id) + enc_u64(i.index as u64)
}

/// A coordinate as offset binary: shifting by `2^63` maps the signed
/// 64-bit range onto the unsigned one, so no cast ever truncates.
pub open spec fn u64_of_coord(x: int) -> u64
    recommends
        i64::MIN <= x <= i64::MAX,
{
    (x + 0x8000000000000000) as u64
}

/// The inverse shift.
pub open spec fn coord_of_u64(u: u64) -> int {
    u as int - 0x8000000000000000
}

/// A position or delta: two offset-binary 64-bit coordinates.
pub open spec fn enc_pos(p: (int, int)) -> Seq<u8> {
    enc_u64(u64_of_coord(p.0)) + enc_u64(u64_of_coord(p.1))
}

/// `n` characters off the front.
pub open spec fn dec_chars(n: nat, b: Seq<u8>) -> Option<(Seq<char>, Seq<u8>)>
    decreases n,
{
    if n == 0 {
        Some((Seq::empty(), b))
    } else {
        match dec_u32(b) {
            None => None,
            Some((x, rest)) => if vstd::utf8::is_scalar(x) {
                match dec_chars((n - 1) as nat, rest) {
                    None => None,
                    Some((cs, rest2)) => Some((seq![x as char] + cs, rest2)),
                }
            } else {
                None
            },
        }
    }
}

/// A string off the front; the count must fit a machine word.
pub open spec fn dec_str(b: Seq<u8>) -> Option<(Seq<char>, Seq<u8>)> {
    match dec_u64(b) {
        None => None,
        Some((n, rest)) => if n <= usize::MAX as u64 {
            dec_chars(n as nat, rest)
        } else {
            None
        },
    }
}

/// An input edge off the front; the index must fit a machine word.
pub open spec fn dec_input(b: Seq<u8>) -> Option<(InputV, Seq<u8>)> {
    match dec_str(b) {
        None => None,
        Some((id, rest)) => match dec_u64(rest) {
            None => None,
            Some((ix, rest2)) => if ix <= usize::MAX as u64 {
                Some((InputV { id, index: ix as int }, rest2))
            } else {
                None
            },
        },
    }
}

/// A position off the front.
pub open spec fn dec_pos(b: Seq<u8>) -> Option<((int, int), Seq<u8>)> {
    match dec_u64(b) {
        None => None,
        Some((x, rest)) => match dec_u64(rest) {
            None => None,
            Some((y, rest2)) => Some(((coord_of_u64(x), coord_of_u64(y)), rest2)),
        },
    }
}

/// The bounds under which a value survives the byte format: lengths and
/// indices fit a machine word (they come from machine values), coordinates
/// fit 64 signed bits.
pub open spec fn input_fits(i: InputV) -> bool {
    &&& i.id.len() <= usize::MAX
    &&& 0 <= i.index <= usize::MAX
}

pub open spec fn pos_fits(p: (int, int)) -> bool {
    &&& i64::MIN <= p.0 <= i64::MAX
    &&& i64::MIN <= p.1 <= i64::MAX
}

/// Encoding characters and decoding as many gives them back.
pub proof fn lemma_dec_enc_chars(cs: Seq<char>, rest: Seq<u8>)
    ensures
        dec_chars(cs.len(), enc_chars(cs) + rest) == Some((cs, rest)),
    decreases cs.len(),
{
    if cs.len() == 0 {
        assert(enc_chars(cs) + rest =~= rest);
        assert(dec_chars(0, rest) == Some((Seq::<char>::empty(), rest)));
        assert(cs =~= Seq::<char>::empty());
    } else {
        let c = cs[0];
        let tail = cs.skip(1);
        assert(enc_chars(cs) + rest =~= enc_u32(c as u32) + (enc_chars(tail) + rest));
        lemma_dec_enc_u32(c as u32, enc_chars(tail) + rest);
        vstd::utf8::char_is_scalar(c);
        vstd::utf8::char_u32_cast(c, c as u32);
        lemma_dec_enc_chars(tail, rest);
        assert(seq![c] + tail =~= cs);
    }
}

/// Encoding a string and decoding it gives it back.
pub proof fn lemma_dec_enc_str(cs: Seq<char>, rest: Seq<u8>)
    requires
        cs.len() <= usize::MAX,
    ensures
        dec_str(enc_str(cs) + rest) == Some((cs, rest)),
{
    assert(enc_str(cs) + rest =~= enc_u64(cs.len() as u64) + (enc_chars(cs) + rest));
    lemma_dec_enc_u64(cs.len() as u64, enc_chars(cs) + rest);
    lemma_dec_enc_chars(cs, rest);
}

/// Encoding an input edge and decoding it gives it back.
pub proof fn lemma_dec_enc_input(i: InputV, rest: Seq<u8>)
    requires
        input_fits(i),
    ensures
        dec_input(enc_input(i) + rest) == Some((i, rest)),
{
    assert(enc_input(i) + rest =~= enc_str(i.id) + (enc_u64(i.index as u64) + rest));
    lemma_dec_enc_str(i.id, enc_u64(i.index as u64) + rest);
    lemma_dec_enc_u64(i.index as u64, rest);
}

/// Encoding a position and decoding it gives it back.
pub proof fn lemma_dec_enc_pos(p: (int, int), rest: Seq<u8>)
    requires
        pos_fits(p),
    ensures
        dec_pos(enc_pos(p) + rest) == Some((p, rest)),
{
    assert(enc_pos(p) + rest =~= enc_u64(u64_of_coord(p.0)) + (enc_u64(u64_of_coord(p.1))
        + rest));
    lemma_dec_enc_u64(u64_of_coord(p.0), enc_u64(u64_of_coord(p.1)) + rest);
    lemma_dec_enc_u64(u64_of_coord(p.1), rest);
    assert(coord_of_u64(u64_of_coord(p.0)) == p.0);
    assert(coord_of_u64(u64_of_coord(p.1)) == p.1);
}

/// The discriminant byte of an ALU function.
pub open spec fn op_tag(op: AluOp) -> u8 {
    match op {
        AluOp::Add => 1,
        AluOp::Sub => 2,
        AluOp::And => 3,
        AluOp::Or => 4,
        AluOp::Xor => 5,
    }
}

/// The ALU function a discriminant byte names, if any.
pub open spec fn op_of_tag(t: u8) -> Option<AluOp> {
    if t == 1 {
        Some(AluOp::Add)
    } else if t == 2 {
        Some(AluOp::Sub)
    } else if t == 3 {
        Some(AluOp::And)
    } else if t == 4 {
        Some(AluOp::Or)
    } else if t == 5 {
        Some(AluOp::Xor)
    } else {
        None
    }
}

/// A list of input edges, in order.
pub open spec fn enc_inputs(is: Seq<InputV>) -> Seq<u8>
    decreases is.len(),
{
    if is.len() == 0 {
        Seq::empty()
    } else {
        enc_input(is[0]) + enc_inputs(is.skip(1))
    }
}

/// A list of signal words, in order.
pub open spec fn enc_words(ws: Seq<u32>) -> Seq<u8>
    decreases ws.len(),
{
    if ws.len() == 0 {
        Seq::empty()
    } else {
        enc_u32(ws[0]) + enc_words(ws.skip(1))
    }
}

/// `n` input edges off the front.
pub open spec fn dec_inputs(n: nat, b: Seq<u8>) -> Option<(Seq<InputV>, Seq<u8>)>
    decreases n,
{
    if n == 0 {
        Some((Seq::empty(), b))
    } else {
        match dec_input(b) {
            None => None,
            Some((i, rest)) => match dec_inputs((n - 1) as nat, rest) {
                None => None,
                Some((is, rest2)) => Some((seq![i] + is, rest2)),
            },
        }
    }
}

/// `n` signal words off the front.
pub open spec fn dec_words(n: nat, b: Seq<u8>) -> Option<(Seq<u32>, Seq<u8>)>
    decreases n,
{
    if n == 0 {
        Some((Seq::empty(), b))
    } else {
        match dec_u32(b) {
            None => None,
            Some((w, rest)) => match dec_words((n - 1) as nat, rest) {
                None => None,
                Some((ws, rest2)) => Some((seq![w] + ws, rest2)),
            },
        }
    }
}

/// One tagged component record.
#[verifier::opaque]
pub open spec fn enc_comp(c: CompV) -> Seq<u8> {
    match c {
        CompV::Constant { id, pos, value } => seq![1u8] + enc_str(id) + enc_pos(pos) + enc_u32(
            value,
        ),
        CompV::Wire { id, pos, delta, input } => seq![2u8] + enc_str(id) + enc_pos(pos) + enc_pos(
            delta,
        ) + enc_input(input),
        CompV::Mux { id, pos, select, m_in } => seq![3u8] + enc_str(id) + enc_pos(pos) + enc_input(
            select,
        ) + enc_u64(m_in.len() as u64) + enc_inputs(m_in),
        CompV::Alu { id, pos, op, a, b } => seq![4u8] + enc_str(id) + enc_pos(pos) + seq![
            op_tag(op),
        ] + enc_input(a) + enc_input(b),
        CompV::Register { id, pos, r_in } => seq![5u8] + enc_str(id) + enc_pos(pos) + enc_input(
            r_in,
        ),
        CompV::RegFile {
            id,
            pos,
            read_addr1,
            read_addr2,
            write_data,
            write_addr,
            write_enable,
            registers,
        } => seq![6u8] + enc_str(id) + enc_pos(pos) + enc_input(read_addr1) + enc_input(read_addr2)
            + enc_input(write_data) + enc_input(write_addr) + enc_input(write_enable) + enc_u64(
            registers.len() as u64,
        ) + enc_words(registers),
        CompV::Probe { id, pos, input } => seq![7u8] + enc_str(id) + enc_pos(pos) + enc_input(
            input,
        ),
    }
}

/// One tagged component record off the front.
#[verifier::opaque]
pub open spec fn dec_comp(b: Seq<u8>) -> Option<(CompV, Seq<u8>)> {
    match dec_u8(b) {
        None => None,
        Some((tag, r0)) => match dec_str(r0) {
            None => None,
            Some((id, r1)) => match dec_pos(r1) {
                None => None,
                Some((pos, r2)) => if tag == 1 {
                    match dec_u32(r2) {
                        None => None,
                        Some((value, r3)) => Some((CompV::Constant { id, pos, value }, r3)),
                    }
                } else if tag == 2 {
                    match dec_pos(r2) {
                        None => None,
                        Some((delta, r3)) => match dec_input(r3) {
                            None => None,
                            Some((input, r4)) => Some(
                                (CompV::Wire { id, pos, delta, input }, r4),
                            ),
                        },
                    }
                } else if tag == 3 {
                    match dec_input(r2) {
                        None => None,
                        Some((select, r3)) => match dec_u64(r3) {
                            None => None,
                            Some((n, r4)) => if n <= usize::MAX as u64 {
                                match dec_inputs(n as nat, r4) {
                                    None => None,
                                    Some((m_in, r5)) => Some(
                                        (CompV::Mux { id, pos, select, m_in }, r5),
                                    ),
                                }
                            } else {
                                None
                            },
                        },
                    }
                } else if tag == 4 {
                    match dec_u8(r2) {
                        None => None,
                        Some((ot, r3)) => match op_of_tag(ot) {
                            None => None,
                            Some(op) => match dec_input(r3) {
                                None => None,
                                Some((a, r4)) => match dec_input(r4) {
                                    None => None,
                                    Some((bb, r5)) => Some(
                                        (CompV::Alu { id, pos, op, a, b: bb }, r5),
                                    ),
                                },
                            },
                        },
                    }
                } else if tag == 5 {
                    match dec_input(r2) {
                        None => None,
                        Some((r_in, r3)) => Some((CompV::Register { id, pos, r_in }, r3)),
                    }
                } else if tag == 6 {
                    match dec_input(r2) {
                        None => None,
                        Some((read_addr1, r3)) => match dec_input(r3) {
                            None => None,
                            Some((read_addr2, r4)) => match dec_input(r4) {
                                None => None,
                                Some((write_data, r5)) => match dec_input(r5) {
                                    None => None,
                                    Some((write_addr, r6)) => match dec_input(r6) {
                                        None => None,
                                        Some((write_enable, r7)) => match dec_u64(r7) {
                                            None => None,
                                            Some((n, r8)) => if n <= usize::MAX as u64 {
                                                match dec_words(n as nat, r8) {
                                                    None => None,
                                                    Some((registers, r9)) => Some(
                                                        (
                                                            CompV::RegFile {
                                                                id,
                                                                pos,
                                                                read_addr1,
                                                                read_addr2,
                                                                write_data,
                                                                write_addr,
                                                                write_enable,
                                                                registers,
                                                            },
                                                            r9,
                                                        ),
                                                    ),
                                                }
                                            } else {
                                                None
                                            },
                                        },
                                    },
                                },
                            },
                        },
                    }
                } else if tag == 7 {
                    match dec_input(r2) {
                        None => None,
                        Some((input, r3)) => Some((CompV::Probe { id, pos, input }, r3)),
                    }
                } else {
                    None
                },
            },
        },
    }
}

/// The bounds under which a component survives the byte format.
pub open spec fn comp_fits(c: CompV) -> bool {
    match c {
        CompV::Constant { id, pos, .. } => id.len() <= usize::MAX && pos_fits(pos),
        CompV::Wire { id, pos, delta, input } => id.len() <= usize::MAX && pos_fits(pos)
            && pos_fits(delta) && input_fits(input),
        CompV::Mux { id, pos, select, m_in } => id.len() <= usize::MAX && pos_fits(pos)
            && input_fits(select) && m_in.len() <= usize::MAX && (forall|t: int|
            0 <= t < m_in.len() ==> input_fits(#[trigger] m_in[t])),
        CompV::Alu { id, pos, a, b, .. } => id.len() <= usize::MAX && pos_fits(pos) && input_fits(
            a,
        ) && input_fits(b),
        CompV::Register { id, pos, r_in } => id.len() <= usize::MAX && pos_fits(pos) && input_fits(
            r_in,
        ),
        CompV::RegFile {
            id,
            pos,
            read_addr1,
            read_addr2,
            write_data,
            write_addr,
            write_enable,
            registers,
        } => id.len() <= usize::MAX && pos_fits(pos) && input_fits(read_addr1) && input_fits(
            read_addr2,
        ) && input_fits(write_data) && input_fits(write_addr) && input_fits(write_enable)
            && registers.len() <= usize::MAX,
        CompV::Probe { id, pos, input } => id.len() <= usize::MAX && pos_fits(pos) && input_fits(
            input,
        ),
    }
}

/// The bounds under which a store survives the byte format: every length
/// and index fits a machine word, as it does for any store held in memory.
pub open spec fn store_fits(s: Seq<CompV>) -> bool {
    &&& s.len() <= usize::MAX
    &&& forall|k: int| 0 <= k < s.len() ==> comp_fits(#[trigger] s[k])
}

/// A whole store: the record count, then one record per component.
pub open spec fn enc_store(s: Seq<CompV>) -> Seq<u8> {
    enc_u64(s.len() as u64) + enc_comps(s)
}

/// The records of a store, in order.
pub open spec fn enc_comps(s: Seq<CompV>) -> Seq<u8>
    decreases s.len(),
{
    if s.len() == 0 {
        Seq::empty()
    } else {
        enc_comp(s[0]) + enc_comps(s.skip(1))
    }
}

/// `n` component records off the front.
pub open spec fn dec_comps(n: nat, b: Seq<u8>) -> Option<(Seq<CompV>, Seq<u8>)>
    decreases n,
{
    if n == 0 {
        Some((Seq::empty(), b))
    } else {
        match dec_comp(b) {
            None => None,
            Some((c, rest)) => match dec_comps((n - 1) as nat, rest) {
                None => None,
                Some((cs, rest2)) => Some((seq![c] + cs, rest2)),
            },
        }
    }
}

/// What `save` writes for a store.
pub open spec fn spec_save(s: Seq<CompV>) -> Seq<u8> {
    enc_store(s)
}

/// What a byte sequence parses to: the store, provided every record
/// decodes and no bytes trail.  Validation is a separate, further check.
pub open spec fn spec_parse(b: Seq<u8>) -> Option<Seq<CompV>> {
    match dec_u64(b) {
        None => None,
        Some((n, rest)) => if n <= usize::MAX as u64 {
            match dec_comps(n as nat, rest) {
                None => None,
                Some((s, rest2)) => if rest2.len() == 0 {
                    Some(s)
                } else {
                    None
                },
            }
        } else {
            None
        },
    }
}

/// Encoding a list of input edges and decoding as many gives them back.
pub proof fn lemma_dec_enc_inputs(is: Seq<InputV>, rest: Seq<u8>)
    requires
        forall|t: int| 0 <= t < is.len() ==> input_fits(#[trigger] is[t]),
    ensures
        dec_inputs(is.len(), enc_inputs(is) + rest) == Some((is, rest)),
    decreases is.len(),
{
    if is.len() == 0 {
        assert(enc_inputs(is) + rest =~= rest);
        assert(is =~= Seq::<InputV>::empty());
    } else {
        let tail = is.skip(1);
        assert(enc_inputs(is) + rest =~= enc_input(is[0]) + (enc_inputs(tail) + rest));
        lemma_dec_enc_input(is[0], enc_inputs(tail) + rest);
        assert(forall|t: int| 0 <= t < tail.len() ==> input_fits(#[trigger] tail[t]));
        lemma_dec_enc_inputs(tail, rest);
        assert(seq![is[0]] + tail =~= is);
    }
}

/// Encoding a list of signal words and decoding as many gives them back.
pub proof fn lemma_dec_enc_words(ws: Seq<u32>, rest: Seq<u8>)
    ensures
        dec_words(ws.len(), enc_words(ws) + rest) == Some((ws, rest)),
    decreases ws.len(),
{
    if ws.len() == 0 {
        assert(enc_words(ws) + rest =~= rest);
        assert(ws =~= Seq::<u32>::empty());
    } else {
        let tail = ws.skip(1);
        assert(enc_words(ws) + rest =~= enc_u32(ws[0]) + (enc_words(tail) + rest));
        lemma_dec_enc_u32(ws[0], enc_words(tail) + rest);
        lemma_dec_enc_words(tail, rest);
        assert(seq![ws[0]] + tail =~= ws);
    }
}

/// Encoding a constant record and decoding it gives it back.
proof fn lemma_dec_enc_constant(c: CompV, rest: Seq<u8>)
    requires
        comp_fits(c),
        c matches CompV::Constant { .. },
    ensures
        dec_comp(enc_comp(c) + rest) == Some((c, rest)),
{
    reveal(enc_comp);
    reveal(dec_comp);
    if let CompV::Constant { id, pos, value } = c {
        let r3 = rest;
        let r2 = enc_u32(value) + r3;
        let r1 = enc_pos(pos) + r2;
        let r0 = enc_str(id) + r1;
        assert(enc_comp(c) + rest =~= seq![1u8] + r0);
        assert((seq![1u8] + r0).skip(1) =~= r0);
        lemma_dec_enc_str(id, r1);
        lemma_dec_enc_pos(pos, r2);
        lemma_dec_enc_u32(value, r3);
    }
}

/// Encoding a wire record and decoding it gives it back.
proof fn lemma_dec_enc_wire(c: CompV, rest: Seq<u8>)
    requires
        comp_fits(c),
        c matches CompV::Wire { .. },
    ensures
        dec_comp(enc_comp(c) + rest) == Some((c, rest)),
{
    reveal(enc_comp);
    reveal(dec_comp);
    if let CompV::Wire { id, pos, delta, input } = c {
        let r4 = rest;
        let r3 = enc_input(input) + r4;
        let r2 = enc_pos(delta) + r3;
        let r1 = enc_pos(pos) + r2;
        let r0 = enc_str(id) + r1;
        assert(enc_comp(c) + rest =~= seq![2u8] + r0);
        assert((seq![2u8] + r0).skip(1) =~= r0);
        lemma_dec_enc_str(id, r1);
        lemma_dec_enc_pos(pos, r2);
        lemma_dec_enc_pos(delta, r3);
        lemma_dec_enc_input(input, r4);
    }
}

/// Encoding a mux record and decoding it gives it back.
#[verifier::rlimit(100)]
#[verifier::spinoff_prover]
proof fn lemma_dec_enc_mux(c: CompV, rest: Seq<u8>)
    requires
        comp_fits(c),
        c matches CompV::Mux { .. },
    ensures
        dec_comp(enc_comp(c) + rest) == Some((c, rest)),
{
    reveal(enc_comp);
    reveal(dec_comp);
    if let CompV::Mux { id, pos, select, m_in } = c {
        let r5 = rest;
        let r4 = enc_inputs(m_in) + r5;
        let r3 = enc_u64(m_in.len() as u64) + r4;
        let r2 = enc_input(select) + r3;
        let r1 = enc_pos(pos) + r2;
        let r0 = enc_str(id) + r1;
        assert(enc_comp(c) + rest =~= seq![3u8] + r0);
        assert((seq![3u8] + r0).skip(1) =~= r0);
        lemma_dec_enc_str(id, r1);
        lemma_dec_enc_pos(pos, r2);
        lemma_dec_enc_input(select, r3);
        lemma_dec_enc_u64(m_in.len() as u64, r4);
        lemma_dec_enc_inputs(m_in, r5);
    }
}

/// Encoding an ALU record and decoding it gives it back.
#[verifier::rlimit(60)]
#[verifier::spinoff_prover]
proof fn lemma_dec_enc_alu(c: CompV, rest: Seq<u8>)
    requires
        comp_fits(c),
        c matches CompV::Alu { .. },
    ensures
        dec_comp(enc_comp(c) + rest) == Some((c, rest)),
{
    reveal(enc_comp);
    reveal(dec_comp);
    if let CompV::Alu { id, pos, op, a, b } = c {
        let r5 = rest;
        let r4 = enc_input(b) + r5;
        let r3 = enc_input(a) + r4;
        let r2 = seq![op_tag(op)] + r3;
        let r1 = enc_pos(pos) + r2;
        let r0 = enc_str(id) + r1;
        assert(enc_comp(c) + rest =~= seq![4u8] + r0);
        assert((seq![4u8] + r0).skip(1) =~= r0);
        lemma_dec_enc_str(id, r1);
        lemma_dec_enc_pos(pos, r2);
        assert(r2.skip(1) =~= r3);
        assert(op_of_tag(op_tag(op)) == Some(op));
        lemma_dec_enc_input(a, r4);
        lemma_dec_enc_input(b, r5);
    }
}

/// Encoding a register record and decoding it gives it back.
proof fn lemma_dec_enc_register(c: CompV, rest: Seq<u8>)
    requires
        comp_fits(c),
        c matches CompV::Register { .. },
    ensures
        dec_comp(enc_comp(c) + rest) == Some((c, rest)),
{
    reveal(enc_comp);
    reveal(dec_comp);
    if let CompV::Register { id, pos, r_in } = c {
        let r3 = rest;
        let r2 = enc_input(r_in) + r3;
        let r1 = enc_pos(pos) + r2;
        let r0 = enc_str(id) + r1;
        assert(enc_comp(c) + rest =~= seq![5u8] + r0);
        assert((seq![5u8] + r0).skip(1) =~= r0);
        lemma_dec_enc_str(id, r1);
        lemma_dec_enc_pos(pos, r2);
        lemma_dec_enc_input(r_in, r3);
    }
}

/// Encoding a register-file record and decoding it gives it back.
#[verifier::rlimit(60)]
#[verifier::spinoff_prover]
proof fn lemma_dec_enc_reg_file(c: CompV, rest: Seq<u8>)
    requires
        comp_fits(c),
        c matches CompV::RegFile { .. },
    ensures
        dec_comp(enc_comp(c) + rest) == Some((c, rest)),
{
    reveal(enc_comp);
    reveal(dec_comp);
    if let CompV::RegFile {
        id,
        pos,
        read_addr1,
        read_addr2,
        write_data,
        write_addr,
        write_enable,
        registers,
    } = c {
        let r9 = rest;
        let r8 = enc_words(registers) + r9;
        let r7 = enc_u64(registers.len() as u64) + r8;
        let r6 = enc_input(write_enable) + r7;
        let r5 = enc_input(write_addr) + r6;
        let r4 = enc_input(write_data) + r5;
        let r3 = enc_input(read_addr2) + r4;
        let r2 = enc_input(read_addr1) + r3;
        let r1 = enc_pos(pos) + r2;
        let r0 = enc_str(id) + r1;
        assert(enc_comp(c) + rest =~= seq![6u8] + r0);
        assert((seq![6u8] + r0).skip(1) =~= r0);
        lemma_dec_enc_str(id, r1);
        lemma_dec_enc_pos(pos, r2);
        lemma_dec_enc_input(read_addr1, r3);
        lemma_dec_enc_input(read_addr2, r4);
        lemma_dec_enc_input(write_data, r5);
        lemma_dec_enc_input(write_addr, r6);
        lemma_dec_enc_input(write_enable, r7);
        lemma_dec_enc_u64(registers.len() as u64, r8);
        lemma_dec_enc_words(registers, r9);
    }
}

/// Encoding a probe record and decoding it gives it back.
#[verifier::rlimit(100)]
#[verifier::spinoff_prover]
proof fn lemma_dec_enc_probe(c: CompV, rest: Seq<u8>)
    requires
        comp_fits(c),
        c matches CompV::Probe { .. },
    ensures
        dec_comp(enc_comp(c) + rest) == Some((c, rest)),
{
    reveal(enc_comp);
    reveal(dec_comp);
    if let CompV::Probe { id, pos, input } = c {
        let r3 = rest;
        let r2 = enc_input(input) + r3;
        let r1 = enc_pos(pos) + r2;
        let r0 = enc_str(id) + r1;
        assert(enc_comp(c) + rest =~= seq![7u8] + r0);
        assert((seq![7u8] + r0).skip(1) =~= r0);
        lemma_dec_enc_str(id, r1);
        lemma_dec_enc_pos(pos, r2);
        lemma_dec_enc_input(input, r3);
    }
}

/// Encoding one component record and decoding it gives it back.
pub proof fn lemma_dec_enc_comp(c: CompV, rest: Seq<u8>)
    requires
        comp_fits(c),
    ensures
        dec_comp(enc_comp(c) + rest) == Some((c, rest)),
{
    match c {
        CompV::Constant { .. } => lemma_dec_enc_constant(c, rest),
        CompV::Wire { .. } => lemma_dec_enc_wire(c, rest),
        CompV::Mux { .. } => lemma_dec_enc_mux(c, rest),
        CompV::Probe { .. } => lemma_dec_enc_probe(c, rest),
        CompV::Alu { .. } => lemma_dec_enc_alu(c, rest),
        CompV::Register { .. } => lemma_dec_enc_register(c, rest),
        CompV::RegFile { .. } => lemma_dec_enc_reg_file(c, rest),
    }
}

/// Encoding a list of records and decoding as many gives them back.
pub proof fn lemma_dec_enc_comps(s: Seq<CompV>, rest: Seq<u8>)
    requires
        forall|k: int| 0 <= k < s.len() ==> comp_fits(#[trigger] s[k]),
    ensures
        dec_comps(s.len(), enc_comps(s) + rest) == Some((s, rest)),
    decreases s.len(),
{
    if s.len() == 0 {
        assert(enc_comps(s) + rest =~= rest);
        assert(s =~= Seq::<CompV>::empty());
    } else {
        let tail = s.skip(1);
        assert(enc_comps(s) + rest =~= enc_comp(s[0]) + (enc_comps(tail) + rest));
        lemma_dec_enc_comp(s[0], enc_comps(tail) + rest);
        assert(forall|k: int| 0 <= k < tail.len() ==> comp_fits(#[trigger] tail[k]));
        lemma_dec_enc_comps(tail, rest);
        assert(seq![s[0]] + tail =~= s);
    }
}

/// The persistence round trip: what `save` writes, parsing gives back,
/// identically — same ids, kinds, configuration, geometry and input graph.
pub proof fn lemma_parse_save(s: Seq<CompV>)
    requires
        store_fits(s),
    ensures
        spec_parse(spec_save(s)) == Some(s),
{
    assert(spec_save(s) =~= enc_u64(s.len() as u64) + (enc_comps(s) + Seq::<u8>::empty()));
    lemma_dec_enc_u64(s.len() as u64, enc_comps(s) + Seq::<u8>::empty());
    lemma_dec_enc_comps(s, Seq::<u8>::empty());
}

/// Appending one character extends the encoding at the back.
proof fn lemma_enc_chars_push(cs: Seq<char>, c: char)
    ensures
        enc_chars(cs.push(c)) == enc_chars(cs) + enc_u32(c as u32),
    decreases cs.len(),
{
    if cs.len() == 0 {
        let p = cs.push(c);
        assert(p[0] == c);
        assert(p.skip(1) =~= Seq::<char>::empty());
        assert(enc_chars(p) == enc_u32(c as u32) + enc_chars(p.skip(1)));
        assert(enc_chars(p.skip(1)) == enc_chars(Seq::<char>::empty()));
        assert(enc_chars(Seq::<char>::empty()) == Seq::<u8>::empty());
        assert(enc_chars(cs) == Seq::<u8>::empty());
        assert(enc_chars(p) =~= enc_chars(cs) + enc_u32(c as u32));
    } else {
        let p = cs.push(c);
        assert(p.skip(1) =~= cs.skip(1).push(c));
        lemma_enc_chars_push(cs.skip(1), c);
        assert(p[0] == cs[0]);
        assert(enc_chars(p) == enc_u32(cs[0] as u32) + enc_chars(p.skip(1)));
        assert(enc_chars(cs) == enc_u32(cs[0] as u32) + enc_chars(cs.skip(1)));
        assert(enc_chars(p) =~= enc_chars(cs) + enc_u32(c as u32));
    }
}

/// Appending one input edge extends the encoding at the back.
proof fn lemma_enc_inputs_push(is: Seq<InputV>, i: InputV)
    ensures
        enc_inputs(is.push(i)) == enc_inputs(is) + enc_input(i),
    decreases is.len(),
{
    if is.len() == 0 {
        let p = is.push(i);
        assert(p[0] == i);
        assert(p.skip(1) =~= Seq::<InputV>::empty());
        assert(enc_inputs(p) == enc_input(i) + enc_inputs(p.skip(1)));
        assert(enc_inputs(p.skip(1)) == enc_inputs(Seq::<InputV>::empty()));
        assert(enc_inputs(Seq::<InputV>::empty()) == Seq::<u8>::empty());
        assert(enc_inputs(is) == Seq::<u8>::empty());
        assert(enc_inputs(p) =~= enc_inputs(is) + enc_input(i));
    } else {
        let p = is.push(i);
        assert(p.skip(1) =~= is.skip(1).push(i));
        lemma_enc_inputs_push(is.skip(1), i);
        assert(p[0] == is[0]);
        assert(enc_inputs(p) == enc_input(is[0]) + enc_inputs(p.skip(1)));
        assert(enc_inputs(is) == enc_input(is[0]) + enc_inputs(is.skip(1)));
        assert(enc_inputs(p) =~= enc_inputs(is) + enc_input(i));
    }
}

/// Appending one signal word extends the encoding at the back.
proof fn lemma_enc_words_push(ws: Seq<u32>, w: u32)
    ensures
        enc_words(ws.push(w)) == enc_words(ws) + enc_u32(w),
    decreases ws.len(),
{
    if ws.len() == 0 {
        let p = ws.push(w);
        assert(p[0] == w);
        assert(p.skip(1) =~= Seq::<u32>::empty());
        assert(enc_words(p) == enc_u32(w) + enc_words(p.skip(1)));
        assert(enc_words(p.skip(1)) == enc_words(Seq::<u32>::empty()));
        assert(enc_words(Seq::<u32>::empty()) == Seq::<u8>::empty());
        assert(enc_words(ws) == Seq::<u8>::empty());
        assert(enc_words(p) =~= enc_words(ws) + enc_u32(w));
    } else {
        let p = ws.push(w);
        assert(p.skip(1) =~= ws.skip(1).push(w));
        lemma_enc_words_push(ws.skip(1), w);
        assert(p[0] == ws[0]);
        assert(enc_words(p) == enc_u32(ws[0]) + enc_words(p.skip(1)));
        assert(enc_words(ws) == enc_u32(ws[0]) + enc_words(ws.skip(1)));
        assert(enc_words(p) =~= enc_words(ws) + enc_u32(w));
    }
}

/// Appending one record extends the encoding at the back.
proof fn lemma_enc_comps_push(s: Seq<CompV>, c: CompV)
    ensures
        enc_comps(s.push(c)) == enc_comps(s) + enc_comp(c),
    decreases s.len(),
{
    if s.len() == 0 {
        let p = s.push(c);
        assert(p[0] == c);
        assert(p.skip(1) =~= Seq::<CompV>::empty());
        assert(enc_comps(p) == enc_comp(c) + enc_comps(p.skip(1)));
        assert(enc_comps(p.skip(1)) == enc_comps(Seq::<CompV>::empty()));
        assert(enc_comps(Seq::<CompV>::empty()) == Seq::<u8>::empty());
        assert(enc_comps(s) == Seq::<u8>::empty());
        assert(enc_comps(p) =~= enc_comps(s) + enc_comp(c));
    } else {
        let p = s.push(c);
        assert(p.skip(1) =~= s.skip(1).push(c));
        lemma_enc_comps_push(s.skip(1), c);
        assert(p[0] == s[0]);
        assert(enc_comps(p) == enc_comp(s[0]) + enc_comps(p.skip(1)));
        assert(enc_comps(s) == enc_comp(s[0]) + enc_comps(s.skip(1)));
        assert(enc_comps(p) =~= enc_comps(s) + enc_comp(c));
    }
}

/// Writes a 32-bit word, little-endian.
fn wr_u32(out: &mut Vec<u8>, x: u32)
    ensures
        final(out)@ == old(out)@ + enc_u32(x),
{
    out.push((x & 0xff) as u8);
    out.push(((x >> 8) & 0xff) as u8);
    out.push(((x >> 16) & 0xff) as u8);
    out.push(((x >> 24) & 0xff) as u8);
    proof {
        assert(out@ =~= old(out)@ + enc_u32(x));
    }
}

/// Writes a 64-bit word, little-endian.
fn wr_u64(out: &mut Vec<u8>, x: u64)
    ensures
        final(out)@ == old(out)@ + enc_u64(x),
{
    out.push((x & 0xff) as u8);
    out.push(((x >> 8) & 0xff) as u8);
    out.push(((x >> 16) & 0xff) as u8);
    out.push(((x >> 24) & 0xff) as u8);
    out.push(((x >> 32) & 0xff) as u8);
    out.push(((x >> 40) & 0xff) as u8);
    out.push(((x >> 48) & 0xff) as u8);
    out.push(((x >> 56) & 0xff) as u8);
    proof {
        assert(out@ =~= old(out)@ + enc_u64(x));
    }
}

/// Writes a string: character count, then each character's code point.
fn wr_str(out: &mut Vec<u8>, s: &str)
    ensures
        final(out)@ == old(out)@ + enc_str(s@),
        s@.len() <= usize::MAX,
{
    let n = s.unicode_len();
    wr_u64(out, n as u64);
    let ghost mid = out@;
    let mut i: usize = 0;
    while i < n
        invariant
            i <= n,
            n == s@.len(),
            out@ == mid + enc_chars(s@.take(i as int)),
        decreases n - i,
    {
        let c = s.get_char(i);
        wr_u32(out, c as u32);
        proof {
            assert(s@.take(i + 1) =~= s@.take(i as int).push(s@[i as int]));
            lemma_enc_chars_push(s@.take(i as int), s@[i as int]);
            assert(out@ =~= mid + enc_chars(s@.take(i + 1)));
        }
        i += 1;
    }
    proof {
        assert(s@.take(n as int) =~= s@);
        assert(out@ =~= old(out)@ + enc_str(s@));
    }
}

/// Writes an input edge: the producer id, then the output index.
fn wr_input(out: &mut Vec<u8>, inp: &Input)
    ensures
        final(out)@ == old(out)@ + enc_input(inp@),
        input_fits(inp@),
{
    wr_str(out, inp.id.as_str());
    wr_u64(out, inp.index as u64);
    proof {
        assert(out@ =~= old(out)@ + enc_input(inp@));
    }
}

/// The offset-binary form of a coordinate.
fn coord_bits(x: i64) -> (r: u64)
    ensures
        r == u64_of_coord(x as int),
{
    if x >= 0 {
        (x as u64) + 0x8000000000000000u64
    } else {
        (x - i64::MIN) as u64
    }
}

/// Writes a position: two offset-binary coordinates.
fn wr_pos(out: &mut Vec<u8>, x: i64, y: i64)
    ensures
        final(out)@ == old(out)@ + enc_pos((x as int, y as int)),
{
    wr_u64(out, coord_bits(x));
    wr_u64(out, coord_bits(y));
    proof {
        assert(out@ =~= old(out)@ + enc_pos((x as int, y as int)));
    }
}

/// Reads one byte at the cursor.
fn rd_u8(b: &Vec<u8>, pos: &mut usize) -> (r: Result<u8, SimError>)
    requires
        *old(pos) <= b@.len(),
    ensures
        *final(pos) <= b@.len(),
        match r {
            Ok(v) => dec_u8(b@.skip(*old(pos) as int)) == Some(
                (v, b@.skip(*final(pos) as int)),
            ),
            Err(e) => dec_u8(b@.skip(*old(pos) as int)) is None && (e matches
                SimError::DecodeError { .. }) && *final(pos) == *old(pos),
        },
{
    if b.len() - *pos < 1 {
        return Err(SimError::DecodeError { at: *pos });
    }
    let v = b[*pos];
    *pos = *pos + 1;
    proof {
        assert(b@.skip(*old(pos) as int)[0] == b@[*old(pos) as int]);
        assert(b@.skip(*old(pos) as int).skip(1) =~= b@.skip(*old(pos) + 1));
    }
    Ok(v)
}

/// Reads a 32-bit little-endian word at the cursor.
fn rd_u32(b: &Vec<u8>, pos: &mut usize) -> (r: Result<u32, SimError>)
    requires
        *old(pos) <= b@.len(),
    ensures
        *final(pos) <= b@.len(),
        match r {
            Ok(v) => dec_u32(b@.skip(*old(pos) as int)) == Some(
                (v, b@.skip(*final(pos) as int)),
            ),
            Err(e) => dec_u32(b@.skip(*old(pos) as int)) is None && (e matches
                SimError::DecodeError { .. }) && *final(pos) == *old(pos),
        },
{
    if b.len() - *pos < 4 {
        return Err(SimError::DecodeError { at: *pos });
    }
    let p = *pos;
    let v = (b[p] as u32) | ((b[p + 1] as u32) << 8u32) | ((b[p + 2] as u32) << 16u32) | ((b[p
        + 3] as u32) << 24u32);
    *pos = p + 4;
    proof {
        let rem = b@.skip(p as int);
        assert(rem[0] == b@[p as int] && rem[1] == b@[p + 1] && rem[2] == b@[p + 2] && rem[3]
            == b@[p + 3]);
        assert(rem.skip(4) =~= b@.skip(p + 4));
    }
    Ok(v)
}

/// Reads a 64-bit little-endian word at the cursor.
fn rd_u64(b: &Vec<u8>, pos: &mut usize) -> (r: Result<u64, SimError>)
    requires
        *old(pos) <= b@.len(),
    ensures
        *final(pos) <= b@.len(),
        match r {
            Ok(v) => dec_u64(b@.skip(*old(pos) as int)) == Some(
                (v, b@.skip(*final(pos) as int)),
            ),
            Err(e) => dec_u64(b@.skip(*old(pos) as int)) is None && (e matches
                SimError::DecodeError { .. }) && *final(pos) == *old(pos),
        },
{
    if b.len() - *pos < 8 {
        return Err(SimError::DecodeError { at: *pos });
    }
    let p = *pos;
    let v = (b[p] as u64) | ((b[p + 1] as u64) << 8u64) | ((b[p + 2] as u64) << 16u64) | ((b[p
        + 3] as u64) << 24u64) | ((b[p + 4] as u64) << 32u64) | ((b[p + 5] as u64) << 40u64) | (
    (b[p + 6] as u64) << 48u64) | ((b[p + 7] as u64) << 56u64);
    *pos = p + 8;
    proof {
        let rem = b@.skip(p as int);
        assert(rem[0] == b@[p as int] && rem[1] == b@[p + 1] && rem[2] == b@[p + 2] && rem[3]
            == b@[p + 3] && rem[4] == b@[p + 4] && rem[5] == b@[p + 5] && rem[6] == b@[p + 6]
            && rem[7] == b@[p + 7]);
        assert(rem.skip(8) =~= b@.skip(p + 8));
    }
    Ok(v)
}

/// Reads a string at the cursor: character count, then code points.
#[verifier::loop_isolation(false)]
fn rd_str(b: &Vec<u8>, pos: &mut usize) -> (r: Result<String, SimError>)
    requires
        *old(pos) <= b@.len(),
    ensures
        *final(pos) <= b@.len(),
        match r {
            Ok(s) => dec_str(b@.skip(*old(pos) as int)) == Some(
                (s@, b@.skip(*final(pos) as int)),
            ),
            Err(e) => dec_str(b@.skip(*old(pos) as int)) is None && (e matches
                SimError::DecodeError { .. }),
        },
{
    let n64 = match rd_u64(b, pos) {
        Ok(v) => v,
        Err(e) => {
            return Err(e);
        },
    };
    if n64 > usize::MAX as u64 {
        return Err(SimError::DecodeError { at: *pos });
    }
    let n = n64 as usize;
    let ghost start = *pos as int;
    let mut acc = String::new();
    let mut i: usize = 0;
    while i < n
        invariant
            i <= n,
            *pos <= b@.len(),
            acc@.len() == i,
            match dec_chars((n - i) as nat, b@.skip(*pos as int)) {
                None => dec_chars(n as nat, b@.skip(start)) is None,
                Some((cs, rest)) => dec_chars(n as nat, b@.skip(start)) == Some(
                    (acc@ + cs, rest),
                ),
            },
        decreases n - i,
    {
        let ghost pos0 = *pos as int;
        let x = match rd_u32(b, pos) {
            Ok(v) => v,
            Err(e) => {
                proof {
                    assert(dec_chars((n - i) as nat, b@.skip(pos0)) is None);
                }
                return Err(e);
            },
        };
        let c = match char::from_u32(x) {
            Some(c) => c,
            None => {
                proof {
                    assert(dec_chars((n - i) as nat, b@.skip(pos0)) is None);
                }
                return Err(SimError::DecodeError { at: *pos });
            },
        };
        let ghost acc0 = acc@;
        acc.push(c);
        proof {
            let rem0 = b@.skip(pos0);
            let rem1 = b@.skip(*pos as int);
            vstd::utf8::char_u32_cast(c, x);
            assert(x as char == c);
            match dec_chars((n - i - 1) as nat, rem1) {
                None => {
                    assert(dec_chars((n - i) as nat, rem0) is None);
                },
                Some((cs2, rest2)) => {
                    assert(dec_chars((n - i) as nat, rem0) == Some((seq![c] + cs2, rest2)));
                    assert(acc@ + cs2 =~= acc0 + (seq![c] + cs2));
                },
            }
        }
        i += 1;
    }
    proof {
        assert(dec_chars(0, b@.skip(*pos as int)) == Some(
            (Seq::<char>::empty(), b@.skip(*pos as int)),
        ));
        assert(acc@ + Seq::<char>::empty() =~= acc@);
    }
    Ok(acc)
}

/// Reads an input edge at the cursor.
fn rd_input(b: &Vec<u8>, pos: &mut usize) -> (r: Result<Input, SimError>)
    requires
        *old(pos) <= b@.len(),
    ensures
        *final(pos) <= b@.len(),
        match r {
            Ok(inp) => dec_input(b@.skip(*old(pos) as int)) == Some(
                (inp@, b@.skip(*final(pos) as int)),
            ),
            Err(e) => dec_input(b@.skip(*old(pos) as int)) is None && (e matches
                SimError::DecodeError { .. }),
        },
{
    let id = match rd_str(b, pos) {
        Ok(s) => s,
        Err(e) => {
            return Err(e);
        },
    };
    let ix64 = match rd_u64(b, pos) {
        Ok(v) => v,
        Err(e) => {
            return Err(e);
        },
    };
    if ix64 > usize::MAX as u64 {
        return Err(SimError::DecodeError { at: *pos });
    }
    Ok(Input { id, index: ix64 as usize })
}

/// Reads a position at the cursor.
fn rd_pos(b: &Vec<u8>, pos: &mut usize) -> (r: Result<(i64, i64), SimError>)
    requires
        *old(pos) <= b@.len(),
    ensures
        *final(pos) <= b@.len(),
        match r {
            Ok(p) => dec_pos(b@.skip(*old(pos) as int)) == Some(
                ((p.0 as int, p.1 as int), b@.skip(*final(pos) as int)),
            ),
            Err(e) => dec_pos(b@.skip(*old(pos) as int)) is None && (e matches
                SimError::DecodeError { .. }),
        },
{
    let xu = match rd_u64(b, pos) {
        Ok(v) => v,
        Err(e) => {
            return Err(e);
        },
    };
    let yu = match rd_u64(b, pos) {
        Ok(v) => v,
        Err(e) => {
            return Err(e);
        },
    };
    let x: i64 = if xu >= 0x8000000000000000u64 {
        (xu - 0x8000000000000000u64) as i64
    } else {
        -((0x7fffffffffffffffu64 - xu) as i64) - 1
    };
    let y: i64 = if yu >= 0x8000000000000000u64 {
        (yu - 0x8000000000000000u64) as i64
    } else {
        -((0x7fffffffffffffffu64 - yu) as i64) - 1
    };
    proof {
        assert(x as int == coord_of_u64(xu));
        assert(y as int == coord_of_u64(yu));
    }
    Ok((x, y))
}

/// Reads `n` input edges at the cursor.
#[verifier::loop_isolation(false)]
fn rd_inputs(b: &Vec<u8>, pos: &mut usize, n: usize) -> (r: Result<Vec<Input>, SimError>)
    requires
        *old(pos) <= b@.len(),
    ensures
        *final(pos) <= b@.len(),
        match r {
            Ok(v) => dec_inputs(n as nat, b@.skip(*old(pos) as int)) == Some(
                (v.deep_view(), b@.skip(*final(pos) as int)),
            ),
            Err(e) => dec_inputs(n as nat, b@.skip(*old(pos) as int)) is None && (e matches
                SimError::DecodeError { .. }),
        },
{
    let ghost start = *pos as int;
    let mut acc: Vec<Input> = Vec::new();
    let mut i: usize = 0;
    while i < n
        invariant
            i <= n,
            *pos <= b@.len(),
            acc@.len() == i,
            match dec_inputs((n - i) as nat, b@.skip(*pos as int)) {
                None => dec_inputs(n as nat, b@.skip(start)) is None,
                Some((is, rest)) => dec_inputs(n as nat, b@.skip(start)) == Some(
                    (acc.deep_view() + is, rest),
                ),
            },
        decreases n - i,
    {
        let ghost pos0 = *pos as int;
        let inp = match rd_input(b, pos) {
            Ok(v) => v,
            Err(e) => {
                proof {
                    assert(dec_inputs((n - i) as nat, b@.skip(pos0)) is None);
                }
                return Err(e);
            },
        };
        let ghost acc0 = acc.deep_view();
        acc.push(inp);
        proof {
            let rem1 = b@.skip(*pos as int);
            match dec_inputs((n - i - 1) as nat, rem1) {
                None => {
                    assert(dec_inputs((n - i) as nat, b@.skip(pos0)) is None);
                },
                Some((is2, rest2)) => {
                    assert(dec_inputs((n - i) as nat, b@.skip(pos0)) == Some(
                        (seq![inp@] + is2, rest2),
                    ));
                    assert(acc.deep_view() =~= acc0.push(inp@));
                    assert(acc.deep_view() + is2 =~= acc0 + (seq![inp@] + is2));
                },
            }
        }
        i += 1;
    }
    proof {
        assert(acc.deep_view() + Seq::<InputV>::empty() =~= acc.deep_view());
    }
    Ok(acc)
}

/// Reads `n` signal words at the cursor.
#[verifier::loop_isolation(false)]
fn rd_words(b: &Vec<u8>, pos: &mut usize, n: usize) -> (r: Result<Vec<u32>, SimError>)
    requires
        *old(pos) <= b@.len(),
    ensures
        *final(pos) <= b@.len(),
        match r {
            Ok(v) => dec_words(n as nat, b@.skip(*old(pos) as int)) == Some(
                (v@, b@.skip(*final(pos) as int)),
            ),
            Err(e) => dec_words(n as nat, b@.skip(*old(pos) as int)) is None && (e matches
                SimError::DecodeError { .. }),
        },
{
    let ghost start = *pos as int;
    let mut acc: Vec<u32> = Vec::new();
    let mut i: usize = 0;
    while i < n
        invariant
            i <= n,
            *pos <= b@.len(),
            acc@.len() == i,
            match dec_words((n - i) as nat, b@.skip(*pos as int)) {
                None => dec_words(n as nat, b@.skip(start)) is None,
                Some((ws, rest)) => dec_words(n as nat, b@.skip(start)) == Some(
                    (acc@ + ws, rest),
                ),
            },
        decreases n - i,
    {
        let ghost pos0 = *pos as int;
        let w = match rd_u32(b, pos) {
            Ok(v) => v,
            Err(e) => {
                proof {
                    assert(dec_words((n - i) as nat, b@.skip(pos0)) is None);
                }
                return Err(e);
            },
        };
        let ghost acc0 = acc@;
        acc.push(w);
        proof {
            let rem1 = b@.skip(*pos as int);
            match dec_words((n - i - 1) as nat, rem1) {
                None => {
                    assert(dec_words((n - i) as nat, b@.skip(pos0)) is None);
                },
                Some((ws2, rest2)) => {
                    assert(dec_words((n - i) as nat, b@.skip(pos0)) == Some(
                        (seq![w] + ws2, rest2),
                    ));
                    assert(acc@ + ws2 =~= acc0 + (seq![w] + ws2));
                },
            }
        }
        i += 1;
    }
    proof {
        assert(acc@ + Seq::<u32>::empty() =~= acc@);
    }
    Ok(acc)
}

/// Writes the input edges of a list, in order.
#[verifier::loop_isolation(false)]
fn wr_inputs(out: &mut Vec<u8>, v: &Vec<Input>)
    ensures
        final(out)@ == old(out)@ + enc_inputs(v.deep_view()),
        forall|j: int| 0 <= j < v.deep_view().len() ==> input_fits(#[trigger] v.deep_view()[j]),
{
    let mut i: usize = 0;
    while i < v.len()
        invariant
            i <= v@.len(),
            out@ == old(out)@ + enc_inputs(v.deep_view().take(i as int)),
            forall|j: int| 0 <= j < i ==> input_fits(#[trigger] v.deep_view()[j]),
        decreases v@.len() - i,
    {
        wr_input(out, &v[i]);
        proof {
            assert(v.deep_view().take(i + 1) =~= v.deep_view().take(i as int).push(
                v.deep_view()[i as int],
            ));
            lemma_enc_inputs_push(v.deep_view().take(i as int), v.deep_view()[i as int]);
            assert(out@ =~= old(out)@ + enc_inputs(v.deep_view().take(i + 1)));
        }
        i += 1;
    }
    proof {
        assert(v.deep_view().take(v@.len() as int) =~= v.deep_view());
    }
}

/// Writes the signal words of a list, in order.
#[verifier::loop_isolation(false)]
fn wr_words(out: &mut Vec<u8>, v: &Vec<u32>)
    ensures
        final(out)@ == old(out)@ + enc_words(v@),
{
    let mut i: usize = 0;
    while i < v.len()
        invariant
            i <= v@.len(),
            out@ == old(out)@ + enc_words(v@.take(i as int)),
        decreases v@.len() - i,
    {
        wr_u32(out, v[i]);
        proof {
            assert(v@.take(i + 1) =~= v@.take(i as int).push(v@[i as int]));
            lemma_enc_words_push(v@.take(i as int), v@[i as int]);
            assert(out@ =~= old(out)@ + enc_words(v@.take(i + 1)));
        }
        i += 1;
    }
    proof {
        assert(v@.take(v@.len() as int) =~= v@);
    }
}

/// Writes a constant record.
fn wr_constant(out: &mut Vec<u8>, x: &Constant)
    ensures
        final(out)@ == old(out)@ + enc_comp(
            CompV::Constant { id: x.id@, pos: (x.pos.0 as int, x.pos.1 as int), value: x.value },
        ),
        x.id@.len() <= usize::MAX,
{
    proof {
        reveal(enc_comp);
    }
    out.push(1);
    wr_str(out, x.id.as_str());
    wr_pos(out, x.pos.0, x.pos.1);
    wr_u32(out, x.value);
    proof {
        assert(out@ =~= old(out)@ + enc_comp(
            CompV::Constant { id: x.id@, pos: (x.pos.0 as int, x.pos.1 as int), value: x.value },
        ));
    }
}

/// Writes a wire record.
fn wr_wire(out: &mut Vec<u8>, x: &Wire)
    ensures
        final(out)@ == old(out)@ + enc_comp(
            CompV::Wire {
                id: x.id@,
                pos: (x.pos.0 as int, x.pos.1 as int),
                delta: (x.delta.0 as int, x.delta.1 as int),
                input: x.input@,
            },
        ),
        x.id@.len() <= usize::MAX && input_fits(x.input@),
{
    proof {
        reveal(enc_comp);
    }
    out.push(2);
    wr_str(out, x.id.as_str());
    wr_pos(out, x.pos.0, x.pos.1);
    wr_pos(out, x.delta.0, x.delta.1);
    wr_input(out, &x.input);
    proof {
        assert(out@ =~= old(out)@ + enc_comp(
            CompV::Wire {
                id: x.id@,
                pos: (x.pos.0 as int, x.pos.1 as int),
                delta: (x.delta.0 as int, x.delta.1 as int),
                input: x.input@,
            },
        ));
    }
}

/// Writes a mux record.
fn wr_mux(out: &mut Vec<u8>, x: &Mux)
    ensures
        final(out)@ == old(out)@ + enc_comp(
            CompV::Mux {
                id: x.id@,
                pos: (x.pos.0 as int, x.pos.1 as int),
                select: x.select@,
                m_in: x.m_in.deep_view(),
            },
        ),
        x.id@.len() <= usize::MAX && input_fits(x.select@) && x.m_in.deep_view().len()
            <= usize::MAX,
        forall|j: int|
            0 <= j < x.m_in.deep_view().len() ==> input_fits(#[trigger] x.m_in.deep_view()[j]),
{
    proof {
        reveal(enc_comp);
    }
    out.push(3);
    wr_str(out, x.id.as_str());
    wr_pos(out, x.pos.0, x.pos.1);
    wr_input(out, &x.select);
    wr_u64(out, x.m_in.len() as u64);
    wr_inputs(out, &x.m_in);
    proof {
        assert(out@ =~= old(out)@ + enc_comp(
            CompV::Mux {
                id: x.id@,
                pos: (x.pos.0 as int, x.pos.1 as int),
                select: x.select@,
                m_in: x.m_in.deep_view(),
            },
        ));
    }
}

/// Writes an ALU record.
fn wr_alu(out: &mut Vec<u8>, x: &Alu)
    ensures
        final(out)@ == old(out)@ + enc_comp(
            CompV::Alu {
                id: x.id@,
                pos: (x.pos.0 as int, x.pos.1 as int),
                op: x.op,
                a: x.a@,
                b: x.b@,
            },
        ),
        x.id@.len() <= usize::MAX && input_fits(x.a@) && input_fits(x.b@),
{
    proof {
        reveal(enc_comp);
    }
    out.push(4);
    wr_str(out, x.id.as_str());
    wr_pos(out, x.pos.0, x.pos.1);
    let t: u8 = match x.op {
        AluOp::Add => 1,
        AluOp::Sub => 2,
        AluOp::And => 3,
        AluOp::Or => 4,
        AluOp::Xor => 5,
    };
    out.push(t);
    wr_input(out, &x.a);
    wr_input(out, &x.b);
    proof {
        assert(out@ =~= old(out)@ + enc_comp(
            CompV::Alu {
                id: x.id@,
                pos: (x.pos.0 as int, x.pos.1 as int),
                op: x.op,
                a: x.a@,
                b: x.b@,
            },
        ));
    }
}

/// Writes a register record.
fn wr_register(out: &mut Vec<u8>, x: &Register)
    ensures
        final(out)@ == old(out)@ + enc_comp(
            CompV::Register { id: x.id@, pos: (x.pos.0 as int, x.pos.1 as int), r_in: x.r_in@ },
        ),
        x.id@.len() <= usize::MAX && input_fits(x.r_in@),
{
    proof {
        reveal(enc_comp);
    }
    out.push(5);
    wr_str(out, x.id.as_str());
    wr_pos(out, x.pos.0, x.pos.1);
    wr_input(out, &x.r_in);
    proof {
        assert(out@ =~= old(out)@ + enc_comp(
            CompV::Register { id: x.id@, pos: (x.pos.0 as int, x.pos.1 as int), r_in: x.r_in@ },
        ));
    }
}

/// Writes a register-file record.
#[verifier::rlimit(60)]
#[verifier::spinoff_prover]
fn wr_reg_file(out: &mut Vec<u8>, x: &RegFile)
    ensures
        final(out)@ == old(out)@ + enc_comp(
            CompV::RegFile {
                id: x.id@,
                pos: (x.pos.0 as int, x.pos.1 as int),
                read_addr1: x.read_addr1@,
                read_addr2: x.read_addr2@,
                write_data: x.write_data@,
                write_addr: x.write_addr@,
                write_enable: x.write_enable@,
                registers: x.registers.deep_view(),
            },
        ),
        x.id@.len() <= usize::MAX && input_fits(x.read_addr1@) && input_fits(x.read_addr2@)
            && input_fits(x.write_data@) && input_fits(x.write_addr@) && input_fits(
            x.write_enable@,
        ) && x.registers.deep_view().len() <= usize::MAX,
{
    proof {
        reveal(enc_comp);
    }
    out.push(6);
    wr_str(out, x.id.as_str());
    wr_pos(out, x.pos.0, x.pos.1);
    wr_input(out, &x.read_addr1);
    wr_input(out, &x.read_addr2);
    wr_input(out, &x.write_data);
    wr_input(out, &x.write_addr);
    wr_input(out, &x.write_enable);
    wr_u64(out, x.registers.len() as u64);
    wr_words(out, &x.registers);
    proof {
        assert(x.registers.deep_view() =~= x.registers@);
        assert(out@ =~= old(out)@ + enc_comp(
            CompV::RegFile {
                id: x.id@,
                pos: (x.pos.0 as int, x.pos.1 as int),
                read_addr1: x.read_addr1@,
                read_addr2: x.read_addr2@,
                write_data: x.write_data@,
                write_addr: x.write_addr@,
                write_enable: x.write_enable@,
                registers: x.registers.deep_view(),
            },
        ));
    }
}

/// Writes a probe record.
fn wr_probe(out: &mut Vec<u8>, x: &Probe)
    ensures
        final(out)@ == old(out)@ + enc_comp(
            CompV::Probe { id: x.id@, pos: (x.pos.0 as int, x.pos.1 as int), input: x.input@ },
        ),
        x.id@.len() <= usize::MAX && input_fits(x.input@),
{
    proof {
        reveal(enc_comp);
    }
    out.push(7);
    wr_str(out, x.id.as_str());
    wr_pos(out, x.pos.0, x.pos.1);
    wr_input(out, &x.input);
    proof {
        assert(out@ =~= old(out)@ + enc_comp(
            CompV::Probe { id: x.id@, pos: (x.pos.0 as int, x.pos.1 as int), input: x.input@ },
        ));
    }
}

/// Writes one tagged component record.
fn wr_comp(out: &mut Vec<u8>, c: &Component)
    ensures
        final(out)@ == old(out)@ + enc_comp(c@),
        comp_fits(c@),
{
    match c {
        Component::Constant(x) => wr_constant(out, x),
        Component::Wire(x) => wr_wire(out, x),
        Component::Mux(x) => wr_mux(out, x),
        Component::Alu(x) => wr_alu(out, x),
        Component::Register(x) => wr_register(out, x),
        Component::RegFile(x) => wr_reg_file(out, x),
        Component::Probe(x) => wr_probe(out, x),
    }
}

/// Reads one tagged component record at the cursor.
#[verifier::rlimit(100)]
#[verifier::spinoff_prover]
fn rd_comp(b: &Vec<u8>, pos: &mut usize) -> (r: Result<Component, SimError>)
    requires
        *old(pos) <= b@.len(),
    ensures
        *final(pos) <= b@.len(),
        match r {
            Ok(c) => dec_comp(b@.skip(*old(pos) as int)) == Some(
                (c@, b@.skip(*final(pos) as int)),
            ),
            Err(e) => dec_comp(b@.skip(*old(pos) as int)) is None && (e matches
                SimError::DecodeError { .. } || e matches SimError::UnsupportedComponentKind {
                    ..
                }),
        },
{
    proof {
        reveal(dec_comp);
    }
    let tag = match rd_u8(b, pos) {
        Ok(v) => v,
        Err(e) => {
            return Err(e);
        },
    };
    let id = match rd_str(b, pos) {
        Ok(v) => v,
        Err(_) => {
            return Err(SimError::DecodeError { at: *pos });
        },
    };
    let p = match rd_pos(b, pos) {
        Ok(v) => v,
        Err(_) => {
            return Err(SimError::DecodeError { at: *pos });
        },
    };
    if tag == 1 {
        let value = match rd_u32(b, pos) {
            Ok(v) => v,
            Err(e) => {
                return Err(e);
            },
        };
        Ok(Component::Constant(Constant { id, pos: p, value }))
    } else if tag == 2 {
        let delta = match rd_pos(b, pos) {
            Ok(v) => v,
            Err(_) => {
                return Err(SimError::DecodeError { at: *pos });
            },
        };
        let input = match rd_input(b, pos) {
            Ok(v) => v,
            Err(e) => {
                return Err(e);
            },
        };
        Ok(Component::Wire(Wire { id, pos: p, delta, input }))
    } else if tag == 3 {
        let select = match rd_input(b, pos) {
            Ok(v) => v,
            Err(e) => {
                return Err(e);
            },
        };
        let n64 = match rd_u64(b, pos) {
            Ok(v) => v,
            Err(_) => {
                return Err(SimError::DecodeError { at: *pos });
            },
        };
        if n64 > usize::MAX as u64 {
            return Err(SimError::DecodeError { at: *pos });
        }
        let m_in = match rd_inputs(b, pos, n64 as usize) {
            Ok(v) => v,
            Err(e) => {
                return Err(e);
            },
        };
        Ok(Component::Mux(Mux { id, pos: p, select, m_in }))
    } else if tag == 4 {
        let ot = match rd_u8(b, pos) {
            Ok(v) => v,
            Err(_) => {
                return Err(SimError::DecodeError { at: *pos });
            },
        };
        let op = if ot == 1 {
            AluOp::Add
        } else if ot == 2 {
            AluOp::Sub
        } else if ot == 3 {
            AluOp::And
        } else if ot == 4 {
            AluOp::Or
        } else if ot == 5 {
            AluOp::Xor
        } else {
            return Err(SimError::DecodeError { at: *pos });
        };
        let a = match rd_input(b, pos) {
            Ok(v) => v,
            Err(e) => {
                return Err(e);
            },
        };
        let b2 = match rd_input(b, pos) {
            Ok(v) => v,
            Err(e) => {
                return Err(e);
            },
        };
        Ok(Component::Alu(Alu { id, pos: p, op, a, b: b2 }))
    } else if tag == 5 {
        let r_in = match rd_input(b, pos) {
            Ok(v) => v,
            Err(e) => {
                return Err(e);
            },
        };
        Ok(Component::Register(Register { id, pos: p, r_in }))
    } else if tag == 6 {
        let read_addr1 = match rd_input(b, pos) {
            Ok(v) => v,
            Err(e) => {
                return Err(e);
            },
        };
        let read_addr2 = match rd_input(b, pos) {
            Ok(v) => v,
            Err(e) => {
                return Err(e);
            },
        };
        let write_data = match rd_input(b, pos) {
            Ok(v) => v,
            Err(e) => {
                return Err(e);
            },
        };
        let write_addr = match rd_input(b, pos) {
            Ok(v) => v,
            Err(e) => {
                return Err(e);
            },
        };
        let write_enable = match rd_input(b, pos) {
            Ok(v) => v,
            Err(e) => {
                return Err(e);
            },
        };
        let n64 = match rd_u64(b, pos) {
            Ok(v) => v,
            Err(_) => {
                return Err(SimError::DecodeError { at: *pos });
            },
        };
        if n64 > usize::MAX as u64 {
            return Err(SimError::DecodeError { at: *pos });
        }
        let registers = match rd_words(b, pos, n64 as usize) {
            Ok(v) => v,
            Err(e) => {
                return Err(e);
            },
        };
        proof {
            assert(registers.deep_view() =~= registers@);
        }
        Ok(Component::RegFile(RegFile {
            id,
            pos: p,
            read_addr1,
            read_addr2,
            write_data,
            write_addr,
            write_enable,
            registers,
        }))
    } else if tag == 7 {
        let input = match rd_input(b, pos) {
            Ok(v) => v,
            Err(e) => {
                return Err(e);
            },
        };
        Ok(Component::Probe(Probe { id, pos: p, input }))
    } else {
        Err(SimError::UnsupportedComponentKind { kind: tag })
    }
}

impl ComponentStore {
    /// Serializes the netlist to its tagged-record byte form.  The result
    /// is exactly the specified encoding of the store's value, and every
    /// length in that value is thereby known to fit a machine word.
    #[verifier::loop_isolation(false)]
    pub fn save(&self) -> (r: Vec<u8>)
        ensures
            r@ == spec_save(self@),
            store_fits(self@),
    {
        let mut out: Vec<u8> = Vec::new();
        wr_u64(&mut out, self.store.len() as u64);
        let mut k: usize = 0;
        while k < self.store.len()
            invariant
                k <= self@.len(),
                out@ == enc_u64(self@.len() as u64) + enc_comps(self@.take(k as int)),
                forall|j: int| 0 <= j < k ==> comp_fits(#[trigger] self@[j]),
            decreases self@.len() - k,
        {
            wr_comp(&mut out, &self.store[k]);
            proof {
                assert(self@[k as int] == self.store@[k as int]@);
                assert(self@.take(k + 1) =~= self@.take(k as int).push(self@[k as int]));
                lemma_enc_comps_push(self@.take(k as int), self@[k as int]);
                assert(out@ =~= enc_u64(self@.len() as u64) + enc_comps(self@.take(k + 1)));
                assert(comp_fits(self@[k as int]));
            }
            k += 1;
        }
        proof {
            assert(self@.take(self@.len() as int) =~= self@);
        }
        out
    }

    /// Parses and validates a persisted netlist.  Succeeds exactly when
    /// the bytes parse as a record sequence with nothing trailing and the
    /// parsed store passes validation; the error separates malformed bytes
    /// (`DecodeError`), unknown discriminants (`UnsupportedComponentKind`)
    /// and structural rejections (`ValidationError`, naming an offending
    /// id).
    #[verifier::loop_isolation(false)]
    pub fn load(bytes: &Vec<u8>) -> (r: Result<ComponentStore, SimError>)
        ensures
            match r {
                Ok(st) => {
                    &&& spec_parse(bytes@) == Some(st@)
                    &&& valid_store(st@)
                },
                Err(e) => match e {
                    SimError::DecodeError { .. } => spec_parse(bytes@) is None,
                    SimError::UnsupportedComponentKind { .. } => spec_parse(bytes@) is None,
                    SimError::ValidationError { id } => spec_parse(bytes@) is Some
                        && !valid_store(spec_parse(bytes@)->Some_0) && validation_offender(
                        spec_parse(bytes@)->Some_0,
                        id@,
                    ),
                    _ => false,
                },
            },
            r is Ok <==> (spec_parse(bytes@) is Some && valid_store(spec_parse(bytes@)->Some_0)),
    {
        let mut pos: usize = 0;
        proof {
            assert(bytes@.skip(0) =~= bytes@);
        }
        let n64 = match rd_u64(bytes, &mut pos) {
            Ok(v) => v,
            Err(e) => {
                return Err(e);
            },
        };
        if n64 > usize::MAX as u64 {
            return Err(SimError::DecodeError { at: pos });
        }
        let n = n64 as usize;
        let ghost start = pos as int;
        let mut comps: Vec<Component> = Vec::new();
        let mut i: usize = 0;
        while i < n
            invariant
                i <= n,
                pos <= bytes@.len(),
                comps@.len() == i,
                match dec_comps((n - i) as nat, bytes@.skip(pos as int)) {
                    None => dec_comps(n as nat, bytes@.skip(start)) is None,
                    Some((cs, rest)) => dec_comps(n as nat, bytes@.skip(start)) == Some(
                        (comps.deep_view() + cs, rest),
                    ),
                },
            decreases n - i,
        {
            let ghost pos0 = pos as int;
            let c = match rd_comp(bytes, &mut pos) {
                Ok(v) => v,
                Err(e) => {
                    proof {
                        assert(dec_comps((n - i) as nat, bytes@.skip(pos0)) is None);
                    }
                    return Err(e);
                },
            };
            let ghost comps0 = comps.deep_view();
            comps.push(c);
            proof {
                let rem1 = bytes@.skip(pos as int);
                match dec_comps((n - i - 1) as nat, rem1) {
                    None => {
                        assert(dec_comps((n - i) as nat, bytes@.skip(pos0)) is None);
                    },
                    Some((cs2, rest2)) => {
                        assert(dec_comps((n - i) as nat, bytes@.skip(pos0)) == Some(
                            (seq![c@] + cs2, rest2),
                        ));
                        assert(comps.deep_view() =~= comps0.push(c@));
                        assert(comps.deep_view() + cs2 =~= comps0 + (seq![c@] + cs2));
                    },
                }
            }
            i += 1;
        }
        proof {
            assert(dec_comps(0, bytes@.skip(pos as int)) == Some(
                (Seq::<CompV>::empty(), bytes@.skip(pos as int)),
            ));
            assert(comps.deep_view() + Seq::<CompV>::empty() =~= comps.deep_view());
        }
        if pos != bytes.len() {
            proof {
                assert(bytes@.skip(pos as int).len() != 0);
            }
            return Err(SimError::DecodeError { at: pos });
        }
        proof {
            assert(bytes@.skip(pos as int).len() == 0);
        }
        let st = ComponentStore { store: comps };
        match st.validate() {
            Ok(()) => Ok(st),
            Err(e) => Err(e),
        }
    }
}

} // verus!
