//! The bytecode that templates compile to.

use vstd::prelude::*;
use crate::template::{Endian, FieldType};

verus! {

/// The fixed-size scalar types the bytecode reads.
#[derive(Debug, Clone, Copy, PartialEq, Eq, Structural)]
pub enum ScalarType {
    U8,
    U16,
    U32,
    U64,
    I8,
    I16,
    I32,
    I64,
    F32,
    F64,
}

/// One instruction. `name_idx` indexes the string table, `var_idx` the
/// variable slots, `target` and `end_pc` the instruction list.
#[derive(Debug)]
pub enum Instruction {
    ReadScalar { name_idx: usize, var_idx: usize, scalar_type: ScalarType, endian: Endian },
    ReadBytes { name_idx: usize, var_idx: usize, length: VarLength },
    ReadString { name_idx: usize, var_idx: usize, length: VarLength, encoding: StringEncoding },
    PushFrame { name_idx: Option<usize> },
    PopFrame,
    Jump { target: usize },
    JumpIfEq { var_idx: usize, value: JumpValue, target: usize },
    JumpIfNe { var_idx: usize, value: JumpValue, target: usize },
    JumpIfIn { var_idx: usize, values: Vec<JumpValue>, target: usize },
    JumpIfNotIn { var_idx: usize, values: Vec<JumpValue>, target: usize },
    LoopStart { var_idx: usize, count: LoopCount, end_pc: usize },
    LoopNext,
    StoreArray { name_idx: usize },
    StoreVar { var_idx: usize },
}

/// The length of a byte or string read.
#[derive(Debug, Clone, Copy, PartialEq, Eq, Structural)]
pub enum VarLength {
    Fixed(usize),
    Ref(usize),
    Remaining,
}

#[derive(Debug, Clone, Copy, PartialEq, Eq, Structural)]
pub enum StringEncoding {
    Utf8,
    Utf16Le,
    Utf16Be,
}

/// How many times a loop runs.
#[derive(Debug, Clone, Copy, PartialEq, Eq, Structural)]
pub enum LoopCount {
    Fixed(usize),
    Ref(usize),
    UntilEof,
}

/// A constant a variable is compared with; a double is held as its bit pattern.
#[derive(Debug)]
pub enum JumpValue {
    Int(i64),
    UInt(u64),
    Float(u64),
    Str(String),
}

/// The model of a `JumpValue`.
pub enum JumpConst {
    Int(i64),
    UInt(u64),
    Float(u64),
    Str(Seq<char>),
}

impl View for JumpValue {
    type V = JumpConst;

    open spec fn view(&self) -> JumpConst {
        match self {
            JumpValue::Int(i) => JumpConst::Int(*i),
            JumpValue::UInt(u) => JumpConst::UInt(*u),
            JumpValue::Float(f) => JumpConst::Float(*f),
            JumpValue::Str(s) => JumpConst::Str(s@),
        }
    }
}

pub open spec fn jump_consts(vs: Seq<JumpValue>) -> Seq<JumpConst> {
    vs.map_values(|v: JumpValue| v@)
}

/// The model of an `Instruction`.
pub enum Op {
    ReadScalar { name_idx: usize, var_idx: usize, scalar_type: ScalarType, endian: Endian },
    ReadBytes { name_idx: usize, var_idx: usize, length: VarLength },
    ReadString { name_idx: usize, var_idx: usize, length: VarLength, encoding: StringEncoding },
    PushFrame { name_idx: Option<usize> },
    PopFrame,
    Jump { target: usize },
    JumpIfEq { var_idx: usize, value: JumpConst, target: usize },
    JumpIfNe { var_idx: usize, value: JumpConst, target: usize },
    JumpIfIn { var_idx: usize, values: Seq<JumpConst>, target: usize },
    JumpIfNotIn { var_idx: usize, values: Seq<JumpConst>, target: usize },
    LoopStart { var_idx: usize, count: LoopCount, end_pc: usize },
    LoopNext,
    StoreArray { name_idx: usize },
    StoreVar { var_idx: usize },
}

impl View for Instruction {
    type V = Op;

    open spec fn view(&self) -> Op {
        match self {
            Instruction::ReadScalar { name_idx, var_idx, scalar_type, endian } => Op::ReadScalar {
                name_idx: *name_idx,
                var_idx: *var_idx,
                scalar_type: *scalar_type,
                endian: *endian,
            },
            Instruction::ReadBytes { name_idx, var_idx, length } => Op::ReadBytes {
                name_idx: *name_idx,
                var_idx: *var_idx,
                length: *length,
            },
            Instruction::ReadString { name_idx, var_idx, length, encoding } => Op::ReadString {
                name_idx: *name_idx,
                var_idx: *var_idx,
                length: *length,
                encoding: *encoding,
            },
            Instruction::PushFrame { name_idx } => Op::PushFrame { name_idx: *name_idx },
            Instruction::PopFrame => Op::PopFrame,
            Instruction::Jump { target } => Op::Jump { target: *target },
            Instruction::JumpIfEq { var_idx, value, target } => Op::JumpIfEq {
                var_idx: *var_idx,
                value: value@,
                target: *target,
            },
            Instruction::JumpIfNe { var_idx, value, target } => Op::JumpIfNe {
                var_idx: *var_idx,
                value: value@,
                target: *target,
            },
            Instruction::JumpIfIn { var_idx, values, target } => Op::JumpIfIn {
                var_idx: *var_idx,
                values: jump_consts(values@),
                target: *target,
            },
            Instruction::JumpIfNotIn { var_idx, values, target } => Op::JumpIfNotIn {
                var_idx: *var_idx,
                values: jump_consts(values@),
                target: *target,
            },
            Instruction::LoopStart { var_idx, count, end_pc } => Op::LoopStart {
                var_idx: *var_idx,
                count: *count,
                end_pc: *end_pc,
            },
            Instruction::LoopNext => Op::LoopNext,
            Instruction::StoreArray { name_idx } => Op::StoreArray { name_idx: *name_idx },
            Instruction::StoreVar { var_idx } => Op::StoreVar { var_idx: *var_idx },
        }
    }
}

pub open spec fn ops_of(instrs: Seq<Instruction>) -> Seq<Op> {
    instrs.map_values(|i: Instruction| i@)
}

pub open spec fn strings_of(ss: Seq<String>) -> Seq<Seq<char>> {
    ss.map_values(|s: String| s@)
}

/// A compiled template.
#[derive(Debug)]
pub struct BytecodeProgram {
    pub instructions: Vec<Instruction>,
    pub string_table: Vec<String>,
    pub num_vars: usize,
    pub signature: Option<Signature>,
}

/// Bytes a payload must hold at `offset` for the program to run on it.
#[derive(Debug)]
pub struct Signature {
    pub offset: usize,
    pub bytes: Vec<u8>,
}

/// Every index an instruction holds is in range: names in the string
/// table, variables below `num_vars`, jump targets at most the instruction count.
pub open spec fn op_well_formed(op: Op, n_strings: nat, n_vars: nat, n_ops: nat) -> bool {
    match op {
        Op::ReadScalar { name_idx, var_idx, .. } => name_idx < n_strings && var_idx < n_vars,
        Op::ReadBytes { name_idx, var_idx, length } => name_idx < n_strings && var_idx < n_vars
            && (length matches VarLength::Ref(v) ==> v < n_vars),
        Op::ReadString { name_idx, var_idx, length, .. } => name_idx < n_strings && var_idx < n_vars
            && (length matches VarLength::Ref(v) ==> v < n_vars),
        Op::PushFrame { name_idx } => name_idx matches Some(n) ==> n < n_strings,
        Op::PopFrame => true,
        Op::Jump { target } => target <= n_ops,
        Op::JumpIfEq { var_idx, target, .. } => var_idx < n_vars && target <= n_ops,
        Op::JumpIfNe { var_idx, target, .. } => var_idx < n_vars && target <= n_ops,
        Op::JumpIfIn { var_idx, target, .. } => var_idx < n_vars && target <= n_ops,
        Op::JumpIfNotIn { var_idx, target, .. } => var_idx < n_vars && target <= n_ops,
        Op::LoopStart { var_idx, count, end_pc } => var_idx < n_vars && end_pc <= n_ops
            && (count matches LoopCount::Ref(v) ==> v < n_vars),
        Op::LoopNext => true,
        Op::StoreArray { name_idx } => name_idx < n_strings,
        Op::StoreVar { .. } => true,
    }
}

pub open spec fn ops_well_formed(ops: Seq<Op>, n_strings: nat, n_vars: nat, n_ops: nat) -> bool {
    forall|i: int| 0 <= i < ops.len() ==> op_well_formed(#[trigger] ops[i], n_strings, n_vars, n_ops)
}

impl BytecodeProgram {
    pub open spec fn well_formed(&self) -> bool {
        ops_well_formed(
            ops_of(self.instructions@),
            self.string_table@.len(),
            self.num_vars as nat,
            self.instructions@.len(),
        )
    }

    /// Tells whether every index the program holds is in range.
    pub fn is_well_formed(&self) -> (r: bool)
        ensures
            r == self.well_formed(),
    {
        let ns = self.string_table.len();
        let nv = self.num_vars;
        let n = self.instructions.len();
        let mut i: usize = 0;
        while i < n
            invariant
                ns == self.string_table@.len(),
                nv == self.num_vars,
                n == self.instructions@.len(),
                i <= n,
                forall|j: int| 0 <= j < i ==> op_well_formed(#[trigger] ops_of(self.instructions@)[j], ns as nat, nv as nat, n as nat),
            decreases n - i,
        {
            let ok = match &self.instructions[i] {
                Instruction::ReadScalar { name_idx, var_idx, .. } => *name_idx < ns && *var_idx < nv,
                Instruction::ReadBytes { name_idx, var_idx, length } => *name_idx < ns && *var_idx < nv
                    && match length { VarLength::Ref(v) => *v < nv, _ => true },
                Instruction::ReadString { name_idx, var_idx, length, .. } => *name_idx < ns && *var_idx < nv
                    && match length { VarLength::Ref(v) => *v < nv, _ => true },
                Instruction::PushFrame { name_idx } => match name_idx { Some(x) => *x < ns, None => true },
                Instruction::PopFrame => true,
                Instruction::Jump { target } => *target <= n,
                Instruction::JumpIfEq { var_idx, target, .. } => *var_idx < nv && *target <= n,
                Instruction::JumpIfNe { var_idx, target, .. } => *var_idx < nv && *target <= n,
                Instruction::JumpIfIn { var_idx, target, .. } => *var_idx < nv && *target <= n,
                Instruction::JumpIfNotIn { var_idx, target, .. } => *var_idx < nv && *target <= n,
                Instruction::LoopStart { var_idx, count, end_pc } => *var_idx < nv && *end_pc <= n
                    && match count { LoopCount::Ref(v) => *v < nv, _ => true },
                Instruction::LoopNext => true,
                Instruction::StoreArray { name_idx } => *name_idx < ns,
                Instruction::StoreVar { .. } => true,
            };
            if !ok {
                assert(!op_well_formed(ops_of(self.instructions@)[i as int], ns as nat, nv as nat, n as nat));
                return false;
            }
            i = i + 1;
        }
        true
    }
}

/// The field types that are fixed-size scalars.
pub open spec fn scalar_field_type(ft: FieldType) -> bool {
    !(ft == FieldType::Bytes || ft == FieldType::String)
}

/// Tells whether a field type is a fixed-size scalar.
pub fn is_scalar_type(ft: &FieldType) -> (r: bool)
    ensures
        r == scalar_field_type(*ft),
{
    match ft {
        FieldType::U8 | FieldType::U16 | FieldType::U32 | FieldType::U64 | FieldType::I8
        | FieldType::I16 | FieldType::I32 | FieldType::I64 | FieldType::F32 | FieldType::F64 => true,
        _ => false,
    }
}

/// The scalar type of a scalar field type.
pub open spec fn scalar_type_spec(ft: FieldType) -> ScalarType {
    match ft {
        FieldType::U8 => ScalarType::U8,
        FieldType::U16 => ScalarType::U16,
        FieldType::U32 => ScalarType::U32,
        FieldType::U64 => ScalarType::U64,
        FieldType::I8 => ScalarType::I8,
        FieldType::I16 => ScalarType::I16,
        FieldType::I32 => ScalarType::I32,
        FieldType::I64 => ScalarType::I64,
        FieldType::F32 => ScalarType::F32,
        _ => ScalarType::F64,
    }
}

impl ScalarType {
    /// The scalar type of a scalar field type; bytes and strings have none.
    pub fn from_field_type(ft: &FieldType) -> (r: ScalarType)
        requires
            scalar_field_type(*ft),
        ensures
            r == scalar_type_spec(*ft),
    {
        match ft {
            FieldType::U8 => ScalarType::U8,
            FieldType::U16 => ScalarType::U16,
            FieldType::U32 => ScalarType::U32,
            FieldType::U64 => ScalarType::U64,
            FieldType::I8 => ScalarType::I8,
            FieldType::I16 => ScalarType::I16,
            FieldType::I32 => ScalarType::I32,
            FieldType::I64 => ScalarType::I64,
            FieldType::F32 => ScalarType::F32,
            _ => ScalarType::F64,
        }
    }
}

} // verus!
