use vstd::prelude::*;

verus! {

/// The instruction catalog. Register operands are 8 bits wide, constant-pool
/// operands 8 or 16 bits, small immediates 16 bits signed.
#[derive(Debug, Clone, Copy, PartialEq, Eq, Structural)]
pub enum ByteCode {
    /// Read the global named by a constant into a register: (dst, name const).
    GetGlobal(u8, u8),
    /// Write a register into the global named by a constant: (name const, src).
    SetGlobal(u8, u8),
    /// Write a constant into the global named by a constant: (name const, const).
    SetGlobalConst(u8, u8),
    /// Copy one global into another: (name const, source name const).
    SetGlobalGlobal(u8, u8),
    /// Load a constant into a register: (dst, const).
    LoadConst(u8, u16),
    /// Load nil into a register.
    LoadNil(u8),
    /// Load a boolean into a register.
    LoadBool(u8, bool),
    /// Load a small integer into a register.
    LoadInt(u8, i16),
    /// Copy a register: (dst, src).
    Move(u8, u8),
    /// Call the value below the argument register: (argument register, result count).
    Call(u8, u8),
    /// Reserved: create a table (dst, array size, map size).
    NewTable(u8, u8, u8),
    /// Reserved: table[key] = value, all in registers.
    SetTable(u8, u8, u8),
    /// Reserved: table.field = value, the field named by a constant.
    SetField(u8, u8, u8),
    /// Reserved: store a run of registers in a table's array part.
    SetList(u8, u8),
}

} // verus!
