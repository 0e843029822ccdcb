//! The liquid tables the extractor reads (materials, objects, types), the
//! copy-table rule that fills them, and the vertex format of a liquid
//! instance.

use vstd::prelude::*;
use std::collections::HashMap;
use crate::extractor::adt::{LiquidInstance, LVF_DEPTH};

verus! {

broadcast use vstd::std_specs::hash::group_hash_axioms;

/// A liquid type: its sound bank (the liquid kind) and its material.
#[derive(Debug, Clone, Copy, Default, PartialEq, Eq, Structural)]
pub struct LiquidTypeEntry {
    pub sound_bank: u8,
    pub material_id: u8,
}

/// The liquid tables, by id.
#[derive(Debug, Clone)]
pub struct LiquidTables {
    /// The vertex format of each liquid material.
    pub materials: HashMap<u32, i8>,
    /// The liquid type of each liquid object (read, not used).
    pub objects: HashMap<u32, i16>,
    pub types: HashMap<u32, LiquidTypeEntry>,
}

impl LiquidTables {
    /// Empty tables.
    pub fn new() -> (r: LiquidTables)
        ensures
            r.materials@ == Map::<u32, i8>::empty(),
            r.objects@ == Map::<u32, i16>::empty(),
            r.types@ == Map::<u32, LiquidTypeEntry>::empty(),
    {
        LiquidTables { materials: HashMap::new(), objects: HashMap::new(), types: HashMap::new() }
    }
}

/// `m` after the copy rows `copies`, in order: each row `(new, source)`
/// sets `new` to the value of `source`, where a missing `source` is first
/// inserted with `dflt` (indexing that inserts).
pub open spec fn copies_applied<V>(m: Map<u32, V>, copies: Seq<(u32, u32)>, dflt: V) -> Map<u32, V>
    decreases copies.len(),
{
    if copies.len() == 0 {
        m
    } else {
        let m1 = copies_applied(m, copies.drop_last(), dflt);
        let (new_row, source) = copies.last();
        if m1.contains_key(source) {
            m1.insert(new_row, m1[source])
        } else {
            m1.insert(source, dflt).insert(new_row, dflt)
        }
    }
}

/// Applies the copy rows to `map`; `dflt` is the value type's default.
pub fn apply_copies<V: Copy>(map: &mut HashMap<u32, V>, copies: &[(u32, u32)], dflt: V)
    ensures
        final(map)@ == copies_applied(old(map)@, copies@, dflt),
{
    let mut i: usize = 0;
    while i < copies.len()
        invariant
            i <= copies@.len(),
            map@ == copies_applied(old(map)@, copies@.take(i as int), dflt),
        decreases copies@.len() - i,
    {
        let (new_row, source) = copies[i];
        let value = match map.get(&source) {
            Some(v) => *v,
            None => {
                map.insert(source, dflt);
                dflt
            },
        };
        map.insert(new_row, value);
        proof {
            assert(copies@.take(i + 1).drop_last() =~= copies@.take(i as int));
        }
        i += 1;
    }
    assert(copies@.take(i as int) =~= copies@);
}

/// The vertex format of a liquid instance: its own below 42; for a liquid
/// object, depth-only for type 2, else the format of the material of its
/// liquid type, sign-extended; `u16::MAX` when type or material is unknown.
pub open spec fn spec_liquid_vertex_format(inst: LiquidInstance, types: Map<u32, LiquidTypeEntry>, materials: Map<u32, i8>) -> u16 {
    if inst.liquid_vertex_format < 42 {
        inst.liquid_vertex_format
    } else if inst.liquid_type == 2 {
        LVF_DEPTH
    } else if types.contains_key(inst.liquid_type as u32) && materials.contains_key(types[inst.liquid_type as u32].material_id as u32) {
        let lvf = materials[types[inst.liquid_type as u32].material_id as u32];
        if lvf >= 0 { lvf as u16 } else { (lvf + 0x1_0000) as u16 }
    } else {
        u16::MAX
    }
}

/// The vertex format of `inst`.
pub fn get_liquid_vertex_format(inst: &LiquidInstance, tables: &LiquidTables) -> (r: u16)
    ensures
        r == spec_liquid_vertex_format(*inst, tables.types@, tables.materials@),
{
    if inst.liquid_vertex_format < 42 {
        return inst.liquid_vertex_format;
    }
    if inst.liquid_type == 2 {
        return LVF_DEPTH;
    }
    match tables.types.get(&(inst.liquid_type as u32)) {
        Some(t) => match tables.materials.get(&(t.material_id as u32)) {
            Some(lvf) => {
                let v = *lvf;
                if v >= 0 {
                    v as u16
                } else {
                    (v as i32 + 0x1_0000) as u16
                }
            },
            None => u16::MAX,
        },
        None => u16::MAX,
    }
}

} // verus!
