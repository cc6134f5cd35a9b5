//! Compiling templates to bytecode.

use vstd::prelude::*;
use crate::bytecode::{
    is_scalar_type, jump_consts, ops_of, ops_well_formed, op_well_formed, scalar_field_type,
    scalar_type_spec, strings_of, BytecodeProgram, Instruction, JumpConst, JumpValue, LoopCount, Op,
    ScalarType, Signature, StringEncoding, VarLength,
};
use crate::hexcodec::{hex_decode, hex_decoded, HexError};
use crate::json::{compare_keys, json_as_i64, json_as_u64, Json, JsonNumber, JsonValue, KeyOrder};
use crate::template::{Condition, ConditionalBranch, Endian, Field, FieldType, ProtocolTemplate, TemplateSignature};

verus! {

/// Why a template does not compile. `S` is the text type: `String` in
/// results, character sequences in the model.
#[derive(Debug)]
pub enum CompileErrorOf<S> {
    InvalidSignatureHex(HexError),
    CountFieldNotFound(S),
    ConditionFieldNotFound(S),
    LengthFieldNotFound(S),
    UnsupportedConditionValue,
}

pub type CompileError = CompileErrorOf<String>;

impl View for CompileErrorOf<String> {
    type V = CompileErrorOf<Seq<char>>;

    open spec fn view(&self) -> CompileErrorOf<Seq<char>> {
        match self {
            CompileErrorOf::InvalidSignatureHex(e) => CompileErrorOf::InvalidSignatureHex(*e),
            CompileErrorOf::CountFieldNotFound(s) => CompileErrorOf::CountFieldNotFound(s@),
            CompileErrorOf::ConditionFieldNotFound(s) => CompileErrorOf::ConditionFieldNotFound(s@),
            CompileErrorOf::LengthFieldNotFound(s) => CompileErrorOf::LengthFieldNotFound(s@),
            CompileErrorOf::UnsupportedConditionValue => CompileErrorOf::UnsupportedConditionValue,
        }
    }
}

/// The end of a compilation: an error, or a condition with no `eq`, `ne`
/// or `in` operator, which the bytecode cannot test.
#[derive(Debug)]
pub enum CompileFailureOf<S> {
    Error(CompileErrorOf<S>),
    UnsupportedCondition,
}

pub type CompileFailure = CompileFailureOf<String>;

impl View for CompileFailureOf<String> {
    type V = CompileFailureOf<Seq<char>>;

    open spec fn view(&self) -> CompileFailureOf<Seq<char>> {
        match self {
            CompileFailureOf::Error(e) => CompileFailureOf::Error(e@),
            CompileFailureOf::UnsupportedCondition => CompileFailureOf::UnsupportedCondition,
        }
    }
}

/// What compilation has produced so far: instructions, interned strings,
/// and variable names (a variable's index is its place in `vars`).
pub struct CompState {
    pub ops: Seq<Op>,
    pub strings: Seq<Seq<char>>,
    pub vars: Seq<Seq<char>>,
}

pub type CompResult = Result<CompState, CompileFailureOf<Seq<char>>>;

/// The index of the first occurrence of `x`.
pub open spec fn first_index(s: Seq<Seq<char>>, x: Seq<char>) -> Option<nat>
    decreases s.len(),
{
    if s.len() == 0 {
        None
    } else if s[0] == x {
        Some(0)
    } else {
        match first_index(s.drop_first(), x) {
            Some(i) => Some(i + 1),
            None => None,
        }
    }
}

proof fn lemma_first_index(s: Seq<Seq<char>>, x: Seq<char>, i: int)
    requires
        0 <= i <= s.len(),
        forall|j: int| 0 <= j < i ==> s[j] != x,
    ensures
        i < s.len() && s[i] == x ==> first_index(s, x) == Some(i as nat),
        i == s.len() ==> first_index(s, x) is None,
    decreases i,
{
    if i > 0 {
        let t = s.drop_first();
        assert forall|j: int| 0 <= j < i - 1 implies t[j] != x by {
            assert(t[j] == s[j + 1]);
        }
        lemma_first_index(t, x, i - 1);
    }
}

/// The index of `s` in the string table, adding it at the end when new.
pub open spec fn intern(st: CompState, s: Seq<char>) -> (CompState, nat) {
    match first_index(st.strings, s) {
        Some(i) => (st, i),
        None => (CompState { strings: st.strings.push(s), ..st }, st.strings.len()),
    }
}

/// The variable named `name`, created at the end when new.
pub open spec fn var_slot(st: CompState, name: Seq<char>) -> (CompState, nat) {
    match first_index(st.vars, name) {
        Some(i) => (st, i),
        None => (CompState { vars: st.vars.push(name), ..st }, st.vars.len()),
    }
}

pub open spec fn emit(st: CompState, op: Op) -> CompState {
    CompState { ops: st.ops.push(op), ..st }
}

/// A jump instruction with its target replaced.
pub open spec fn retarget(op: Op, target: usize) -> Op {
    match op {
        Op::Jump { .. } => Op::Jump { target },
        Op::JumpIfEq { var_idx, value, .. } => Op::JumpIfEq { var_idx, value, target },
        Op::JumpIfNe { var_idx, value, .. } => Op::JumpIfNe { var_idx, value, target },
        Op::JumpIfIn { var_idx, values, .. } => Op::JumpIfIn { var_idx, values, target },
        Op::JumpIfNotIn { var_idx, values, .. } => Op::JumpIfNotIn { var_idx, values, target },
        _ => op,
    }
}

pub open spec fn is_jump(op: Op) -> bool {
    op is Jump || op is JumpIfEq || op is JumpIfNe || op is JumpIfIn || op is JumpIfNotIn
}

pub open spec fn patch(st: CompState, pc: nat, target: nat) -> CompState {
    CompState { ops: st.ops.update(pc as int, retarget(st.ops[pc as int], target as usize)), ..st }
}

pub open spec fn patch_all(st: CompState, pcs: Seq<nat>, target: nat) -> CompState
    decreases pcs.len(),
{
    if pcs.len() == 0 {
        st
    } else {
        patch_all(patch(st, pcs[0], target), pcs.drop_first(), target)
    }
}

/// The jump constant of a condition value: integers as signed when they
/// fit, else unsigned; doubles; strings. Other values are refused.
pub open spec fn jump_const_of(v: Json) -> Option<JumpConst> {
    match v {
        Json::Number(n) => match json_as_i64(v) {
            Some(i) => Some(JumpConst::Int(i)),
            None => match json_as_u64(v) {
                Some(u) => Some(JumpConst::UInt(u)),
                None => match n {
                    JsonNumber::Float(b) => Some(JumpConst::Float(b)),
                    _ => None,
                },
            },
        },
        Json::Str(s) => Some(JumpConst::Str(s)),
        _ => None,
    }
}

pub open spec fn jump_consts_of(vs: Seq<Json>) -> Option<Seq<JumpConst>>
    decreases vs.len(),
{
    if vs.len() == 0 {
        Some(Seq::empty())
    } else {
        match jump_const_of(vs[0]) {
            Some(c) => match jump_consts_of(vs.drop_first()) {
                Some(rest) => Some(seq![c] + rest),
                None => None,
            },
            None => None,
        }
    }
}

/// Compiles a condition to a jump with target 0 taken when the condition
/// holds (`jump_on_true`) or fails; gives the jump's place.
pub open spec fn cond_jump_spec(cond: Condition, st: CompState, jump_on_true: bool) -> Result<(CompState, nat), CompileFailureOf<Seq<char>>> {
    match first_index(st.vars, cond.field@) {
        None => Err(CompileFailureOf::Error(CompileErrorOf::ConditionFieldNotFound(cond.field@))),
        Some(var_idx) => {
            let vi = var_idx as usize;
            if cond.eq is Some {
                match jump_const_of(cond.eq->0@) {
                    None => Err(CompileFailureOf::Error(CompileErrorOf::UnsupportedConditionValue)),
                    Some(c) => Ok((emit(st, if jump_on_true {
                        Op::JumpIfEq { var_idx: vi, value: c, target: 0 }
                    } else {
                        Op::JumpIfNe { var_idx: vi, value: c, target: 0 }
                    }), st.ops.len())),
                }
            } else if cond.ne is Some {
                match jump_const_of(cond.ne->0@) {
                    None => Err(CompileFailureOf::Error(CompileErrorOf::UnsupportedConditionValue)),
                    Some(c) => Ok((emit(st, if jump_on_true {
                        Op::JumpIfNe { var_idx: vi, value: c, target: 0 }
                    } else {
                        Op::JumpIfEq { var_idx: vi, value: c, target: 0 }
                    }), st.ops.len())),
                }
            } else if cond.in_list is Some {
                match jump_consts_of(crate::json::values_view(cond.in_list->0@)) {
                    None => Err(CompileFailureOf::Error(CompileErrorOf::UnsupportedConditionValue)),
                    Some(cs) => Ok((emit(st, if jump_on_true {
                        Op::JumpIfIn { var_idx: vi, values: cs, target: 0 }
                    } else {
                        Op::JumpIfNotIn { var_idx: vi, values: cs, target: 0 }
                    }), st.ops.len())),
                }
            } else {
                Err(CompileFailureOf::UnsupportedCondition)
            }
        },
    }
}

/// The length of a byte or string field: fixed, another field's variable, or the rest.
pub open spec fn var_length_spec(length: Option<usize>, length_field: Option<String>, st: CompState) -> Result<VarLength, CompileFailureOf<Seq<char>>> {
    match length {
        Some(l) => Ok(VarLength::Fixed(l)),
        None => match length_field {
            Some(f) => match first_index(st.vars, f@) {
                Some(i) => Ok(VarLength::Ref(i as usize)),
                None => Err(CompileFailureOf::Error(CompileErrorOf::LengthFieldNotFound(f@))),
            },
            None => Ok(VarLength::Remaining),
        },
    }
}

pub open spec fn string_encoding_spec(encoding: Option<String>) -> StringEncoding {
    match encoding {
        Some(e) => if e@ == "utf-16le"@ {
            StringEncoding::Utf16Le
        } else if e@ == "utf-16be"@ {
            StringEncoding::Utf16Be
        } else {
            StringEncoding::Utf8
        },
        None => StringEncoding::Utf8,
    }
}

pub open spec fn loop_var_name() -> Seq<char> {
    "__loop_elem"@
}

/// The instructions of one field, appended to `st`.
pub open spec fn compile_field_spec(f: Field, st: CompState, dend: Endian) -> CompResult
    decreases f, 0nat,
{
    match f {
        Field::Scalar { name, data_type, endian, length, length_field, encoding } => {
            let (st1, var_idx) = var_slot(st, name@);
            let (st2, name_idx) = intern(st1, name@);
            let eff = match endian { Some(e) => e, None => dend };
            if scalar_field_type(data_type) {
                Ok(emit(st2, Op::ReadScalar {
                    name_idx: name_idx as usize,
                    var_idx: var_idx as usize,
                    scalar_type: scalar_type_spec(data_type),
                    endian: eff,
                }))
            } else {
                match var_length_spec(length, length_field, st2) {
                    Err(e) => Err(e),
                    Ok(vl) => if data_type == FieldType::Bytes {
                        Ok(emit(st2, Op::ReadBytes { name_idx: name_idx as usize, var_idx: var_idx as usize, length: vl }))
                    } else {
                        Ok(emit(st2, Op::ReadString {
                            name_idx: name_idx as usize,
                            var_idx: var_idx as usize,
                            length: vl,
                            encoding: string_encoding_spec(encoding),
                        }))
                    },
                }
            }
        },
        Field::Struct { name, fields } => {
            let (st1, name_idx) = match name {
                Some(n) => {
                    let (s, i) = intern(st, n@);
                    (s, Some(i as usize))
                },
                None => (st, None),
            };
            match compile_fields_spec(fields@, 0, emit(st1, Op::PushFrame { name_idx }), dend) {
                Ok(st3) => Ok(emit(st3, Op::PopFrame)),
                Err(e) => Err(e),
            }
        },
        Field::Conditional { name, conditions, default } => {
            let (st1, name_idx) = match name {
                Some(n) => {
                    let (s, i) = intern(st, n@);
                    (emit(s, Op::PushFrame { name_idx: Some(i as usize) }), Some(i as usize))
                },
                None => (st, None),
            };
            match compile_branches_spec(conditions@, 0, st1, Seq::empty(), dend) {
                Err(e) => Err(e),
                Ok((st2, end_jumps)) => {
                    let r3 = match default {
                        Some(d) => compile_fields_spec(d@, 0, st2, dend),
                        None => Ok(st2),
                    };
                    match r3 {
                        Err(e) => Err(e),
                        Ok(st3) => {
                            let st4 = patch_all(st3, end_jumps, st3.ops.len());
                            if name_idx is Some {
                                Ok(emit(st4, Op::PopFrame))
                            } else {
                                Ok(st4)
                            }
                        },
                    }
                },
            }
        },
        Field::Array { name, element, count, count_field, until_eof } => {
            let (st1, array_name_idx) = intern(st, name@);
            let lc: Result<LoopCount, CompileFailureOf<Seq<char>>> = if until_eof {
                Ok(LoopCount::UntilEof)
            } else {
                match count {
                    Some(c) => Ok(LoopCount::Fixed(c)),
                    None => match count_field {
                        Some(cf) => match first_index(st1.vars, cf@) {
                            Some(i) => Ok(LoopCount::Ref(i as usize)),
                            None => Err(CompileFailureOf::Error(CompileErrorOf::CountFieldNotFound(cf@))),
                        },
                        None => Ok(LoopCount::UntilEof),
                    },
                }
            };
            match lc {
                Err(e) => Err(e),
                Ok(loop_count) => {
                    let (st2, loop_var) = var_slot(st1, loop_var_name());
                    let ls_pc = st2.ops.len();
                    let st3 = emit(st2, Op::LoopStart { var_idx: loop_var as usize, count: loop_count, end_pc: 0 });
                    let body = match *element {
                        Field::Struct { fields, .. } => compile_fields_spec(fields@, 0, st3, dend),
                        other => compile_field_spec(other, st3, dend),
                    };
                    match body {
                        Err(e) => Err(e),
                        Ok(st4) => {
                            let st5 = emit(st4, Op::LoopNext);
                            let sa_pc = st5.ops.len();
                            let st6 = emit(st5, Op::StoreArray { name_idx: array_name_idx as usize });
                            Ok(CompState {
                                ops: st6.ops.update(ls_pc as int, Op::LoopStart {
                                    var_idx: loop_var as usize,
                                    count: loop_count,
                                    end_pc: sa_pc as usize,
                                }),
                                ..st6
                            })
                        },
                    }
                },
            }
        },
    }
}

/// The instructions of `fs[i..]`, appended to `st` one field after another.
pub open spec fn compile_fields_spec(fs: Seq<Field>, i: int, st: CompState, dend: Endian) -> CompResult
    decreases fs, fs.len() - i,
{
    if i < 0 || i >= fs.len() {
        Ok(st)
    } else {
        match compile_field_spec(fs[i], st, dend) {
            Ok(st2) => compile_fields_spec(fs, i + 1, st2, dend),
            Err(e) => Err(e),
        }
    }
}

/// The branches `bs[i..]`, each as: a jump past it unless its condition
/// holds (always, when it has none), its fields, and a jump to the end whose
/// place is added to `end_jumps`.
pub open spec fn compile_branches_spec(bs: Seq<ConditionalBranch>, i: int, st: CompState, end_jumps: Seq<nat>, dend: Endian) -> Result<(CompState, Seq<nat>), CompileFailureOf<Seq<char>>>
    decreases bs, bs.len() - i,
{
    if i < 0 || i >= bs.len() {
        Ok((st, end_jumps))
    } else {
        let skip: Result<(CompState, nat), CompileFailureOf<Seq<char>>> = match bs[i].when {
            Some(cond) => cond_jump_spec(cond, st, false),
            None => Ok((emit(st, Op::Jump { target: 0 }), st.ops.len())),
        };
        match skip {
            Err(e) => Err(e),
            Ok((st1, skip_pc)) => match compile_fields_spec(bs[i].fields@, 0, st1, dend) {
                Err(e) => Err(e),
                Ok(st2) => {
                    let end_jump_pc = st2.ops.len();
                    let st3 = emit(st2, Op::Jump { target: 0 });
                    let st4 = patch(st3, skip_pc, st3.ops.len());
                    compile_branches_spec(bs, i + 1, st4, end_jumps.push(end_jump_pc), dend)
                },
            },
        }
    }
}

/// The signature of a template: its offset and the bytes its hexadecimal text stands for.
pub open spec fn signature_spec(ts: TemplateSignature) -> Result<(usize, Seq<u8>), CompileFailureOf<Seq<char>>> {
    match hex_decoded(vstd::utf8::encode_utf8(ts.bytes@)) {
        Ok(b) => Ok((ts.offset, b)),
        Err(e) => Err(CompileFailureOf::Error(CompileErrorOf::InvalidSignatureHex(e))),
    }
}

pub open spec fn empty_state() -> CompState {
    CompState { ops: Seq::empty(), strings: Seq::empty(), vars: Seq::empty() }
}

/// The compilation of a whole template: its signature, then its fields in
/// a fresh state with the template's byte order as default.
pub open spec fn compile_template_spec(t: ProtocolTemplate) -> Result<(Option<(usize, Seq<u8>)>, CompState), CompileFailureOf<Seq<char>>> {
    let sig: Result<Option<(usize, Seq<u8>)>, CompileFailureOf<Seq<char>>> = match t.signature {
        Some(ts) => match signature_spec(ts) {
            Ok(x) => Ok(Some(x)),
            Err(e) => Err(e),
        },
        None => Ok(None),
    };
    match sig {
        Err(e) => Err(e),
        Ok(sg) => match compile_fields_spec(t.fields@, 0, empty_state(), t.endian) {
            Ok(st) => Ok((sg, st)),
            Err(e) => Err(e),
        },
    }
}

pub open spec fn state_well_formed(st: CompState) -> bool {
    ops_well_formed(st.ops, st.strings.len(), st.vars.len(), st.ops.len())
}

/// `b` extends `a`: its instruction list keeps `a`'s as a prefix except
/// for retargeted jumps at or after `a`'s end, and no table shrinks.
pub open spec fn extends(a: CompState, b: CompState) -> bool {
    &&& a.ops.len() <= b.ops.len()
    &&& forall|i: int| 0 <= i < a.ops.len() ==> b.ops[i] == #[trigger] a.ops[i]
    &&& a.strings.len() <= b.strings.len()
    &&& a.vars.len() <= b.vars.len()
}

proof fn lemma_wf_grow(st: CompState, strings: nat, vars: nat, n: nat)
    requires
        state_well_formed(st),
        st.strings.len() <= strings,
        st.vars.len() <= vars,
        st.ops.len() <= n,
    ensures
        ops_well_formed(st.ops, strings, vars, n),
{
    assert forall|i: int| 0 <= i < st.ops.len() implies op_well_formed(#[trigger] st.ops[i], strings, vars, n) by {
        assert(op_well_formed(st.ops[i], st.strings.len(), st.vars.len(), st.ops.len()));
    }
}

struct CompileContext {
    instructions: Vec<Instruction>,
    string_table: Vec<String>,
    var_names: Vec<String>,
    default_endian: Endian,
}

impl CompileContext {
    spec fn st(&self) -> CompState {
        CompState {
            ops: ops_of(self.instructions@),
            strings: strings_of(self.string_table@),
            vars: strings_of(self.var_names@),
        }
    }

    fn new(default_endian: Endian) -> (r: Self)
        ensures
            r.st() == empty_state(),
            r.default_endian == default_endian,
    {
        let r = CompileContext {
            instructions: Vec::new(),
            string_table: Vec::new(),
            var_names: Vec::new(),
            default_endian,
        };
        assert(r.st().ops =~= Seq::<Op>::empty());
        assert(r.st().strings =~= Seq::<Seq<char>>::empty());
        assert(r.st().vars =~= Seq::<Seq<char>>::empty());
        r
    }

    fn find(names: &Vec<String>, s: &str) -> (r: Option<usize>)
        ensures
            match first_index(strings_of(names@), s@) {
                Some(i) => r is Some && r->Some_0 as nat == i && i < names@.len(),
                None => r is None,
            },
    {
        let mut i: usize = 0;
        while i < names.len()
            invariant
                i <= names@.len(),
                forall|j: int| 0 <= j < i ==> strings_of(names@)[j] != s@,
            decreases names@.len() - i,
        {
            if compare_keys(names[i].as_str(), s) == KeyOrder::Equal {
                proof { lemma_first_index(strings_of(names@), s@, i as int); }
                return Some(i);
            }
            i = i + 1;
        }
        proof { lemma_first_index(strings_of(names@), s@, i as int); }
        None
    }

    fn intern_string(&mut self, s: &str) -> (r: usize)
        ensures
            final(self).st() == intern(old(self).st(), s@).0,
            r as nat == intern(old(self).st(), s@).1,
            final(self).default_endian == old(self).default_endian,
    {
        match Self::find(&self.string_table, s) {
            Some(idx) => {
                assert(self.st() == intern(old(self).st(), s@).0);
                idx
            },
            None => {
                let idx = self.string_table.len();
                self.string_table.push(s.to_owned());
                assert(strings_of(self.string_table@) =~= strings_of(old(self).string_table@).push(s@));
                assert(first_index(strings_of(old(self).string_table@), s@) is None);
                assert(self.st().strings == intern(old(self).st(), s@).0.strings);
                assert(self.st() == intern(old(self).st(), s@).0);
                idx
            },
        }
    }

    fn get_or_create_var(&mut self, name: &str) -> (r: usize)
        ensures
            final(self).st() == var_slot(old(self).st(), name@).0,
            r as nat == var_slot(old(self).st(), name@).1,
            final(self).default_endian == old(self).default_endian,
    {
        match Self::find(&self.var_names, name) {
            Some(idx) => {
                assert(self.st() == var_slot(old(self).st(), name@).0);
                idx
            },
            None => {
                let idx = self.var_names.len();
                self.var_names.push(name.to_owned());
                assert(strings_of(self.var_names@) =~= strings_of(old(self).var_names@).push(name@));
                assert(first_index(strings_of(old(self).var_names@), name@) is None);
                assert(self.st().vars == var_slot(old(self).st(), name@).0.vars);
                assert(self.st() == var_slot(old(self).st(), name@).0);
                idx
            },
        }
    }

    fn emit(&mut self, inst: Instruction)
        ensures
            final(self).st() == emit(old(self).st(), inst@),
            final(self).default_endian == old(self).default_endian,
    {
        let ghost op = inst@;
        self.instructions.push(inst);
        assert(ops_of(self.instructions@) =~= ops_of(old(self).instructions@).push(op));
    }

    fn current_pc(&self) -> (r: usize)
        ensures
            r == self.st().ops.len(),
    {
        self.instructions.len()
    }

    /// Sets the target of the jump at `pc`.
    fn patch_jump(&mut self, pc: usize, target: usize)
        requires
            pc < old(self).st().ops.len(),
            is_jump(old(self).st().ops[pc as int]),
        ensures
            final(self).st() == patch(old(self).st(), pc as nat, target as nat),
            final(self).default_endian == old(self).default_endian,
    {
        let mut tmp = Instruction::PopFrame;
        std::mem::swap(&mut tmp, &mut self.instructions[pc]);
        let ghost old_op = old(self).st().ops[pc as int];
        assert(tmp@ == old_op);
        let new_inst = match tmp {
            Instruction::Jump { .. } => Instruction::Jump { target },
            Instruction::JumpIfEq { var_idx, value, .. } => Instruction::JumpIfEq { var_idx, value, target },
            Instruction::JumpIfNe { var_idx, value, .. } => Instruction::JumpIfNe { var_idx, value, target },
            Instruction::JumpIfIn { var_idx, values, .. } => Instruction::JumpIfIn { var_idx, values, target },
            Instruction::JumpIfNotIn { var_idx, values, .. } => Instruction::JumpIfNotIn { var_idx, values, target },
            other => other,
        };
        assert(new_inst@ == retarget(old_op, target));
        self.instructions.set(pc, new_inst);
        assert(ops_of(self.instructions@) =~= ops_of(old(self).instructions@).update(pc as int, retarget(old_op, target)));
    }

    /// Sets the end of the loop that starts at `pc`.
    fn patch_loop_end(&mut self, pc: usize, end_pc: usize)
        requires
            pc < old(self).st().ops.len(),
            old(self).st().ops[pc as int] is LoopStart,
        ensures
            final(self).st() == (CompState {
                ops: old(self).st().ops.update(pc as int, Op::LoopStart {
                    var_idx: old(self).st().ops[pc as int]->LoopStart_var_idx,
                    count: old(self).st().ops[pc as int]->LoopStart_count,
                    end_pc,
                }),
                ..old(self).st()
            }),
            final(self).default_endian == old(self).default_endian,
    {
        let mut tmp = Instruction::PopFrame;
        std::mem::swap(&mut tmp, &mut self.instructions[pc]);
        let ghost old_op = old(self).st().ops[pc as int];
        assert(tmp@ == old_op);
        let new_inst = match tmp {
            Instruction::LoopStart { var_idx, count, .. } => Instruction::LoopStart { var_idx, count, end_pc },
            other => other,
        };
        self.instructions.set(pc, new_inst);
        assert(ops_of(self.instructions@) =~= ops_of(old(self).instructions@).update(pc as int, new_inst@));
    }
}

pub(crate) proof fn lemma_jump_consts_of(vs: Seq<Json>)
    ensures
        jump_consts_of(vs) is Some <==> forall|j: int| 0 <= j < vs.len() ==> #[trigger] jump_const_of(vs[j]) is Some,
        jump_consts_of(vs) is Some ==> jump_consts_of(vs)->0.len() == vs.len()
            && forall|j: int| 0 <= j < vs.len() ==> jump_consts_of(vs)->0[j] == #[trigger] jump_const_of(vs[j])->0,
    decreases vs.len(),
{
    if vs.len() > 0 {
        let t = vs.drop_first();
        lemma_jump_consts_of(t);
        assert forall|j: int| 0 <= j < t.len() implies t[j] == vs[j + 1] by {}
        if jump_const_of(vs[0]) is Some && jump_consts_of(t) is Some {
            assert forall|j: int| 0 <= j < vs.len() implies jump_consts_of(vs)->0[j] == #[trigger] jump_const_of(vs[j])->0 by {
                if j > 0 {
                    assert(jump_const_of(t[j - 1]) == jump_const_of(vs[j]));
                }
            }
        }
        if forall|j: int| 0 <= j < vs.len() ==> #[trigger] jump_const_of(vs[j]) is Some {
            assert(jump_const_of(vs[0]) is Some);
            assert forall|j: int| 0 <= j < t.len() implies #[trigger] jump_const_of(t[j]) is Some by {
                assert(jump_const_of(vs[j + 1]) is Some);
            }
        }
        if jump_consts_of(vs) is Some {
            assert(jump_const_of(vs[0]) is Some);
            assert forall|j: int| 0 <= j < vs.len() implies #[trigger] jump_const_of(vs[j]) is Some by {
                if j > 0 {
                    assert(jump_const_of(t[j - 1]) is Some);
                }
            }
        }
    }
}

fn value_to_jump_value(v: &JsonValue) -> (r: Result<JumpValue, CompileFailure>)
    ensures
        match jump_const_of(v@) {
            Some(c) => r is Ok && r->Ok_0@ == c,
            None => r is Err && r->Err_0@ == CompileFailureOf::<Seq<char>>::Error(CompileErrorOf::UnsupportedConditionValue),
        },
{
    match v {
        JsonValue::Number(n) => {
            match crate::json::as_i64(v) {
                Some(i) => Ok(JumpValue::Int(i)),
                None => match crate::json::as_u64(v) {
                    Some(u) => Ok(JumpValue::UInt(u)),
                    None => match n {
                        JsonNumber::Float(b) => Ok(JumpValue::Float(*b)),
                        _ => Err(CompileFailureOf::Error(CompileErrorOf::UnsupportedConditionValue)),
                    },
                },
            }
        },
        JsonValue::String(s) => Ok(JumpValue::Str(s.clone())),
        _ => Err(CompileFailureOf::Error(CompileErrorOf::UnsupportedConditionValue)),
    }
}

fn jump_values(vs: &Vec<JsonValue>) -> (r: Result<Vec<JumpValue>, CompileFailure>)
    ensures
        match jump_consts_of(crate::json::values_view(vs@)) {
            Some(cs) => r is Ok && jump_consts(r->Ok_0@) == cs,
            None => r is Err && r->Err_0@ == CompileFailureOf::<Seq<char>>::Error(CompileErrorOf::UnsupportedConditionValue),
        },
{
    let ghost vv = crate::json::values_view(vs@);
    proof { lemma_jump_consts_of(vv); }
    let mut out: Vec<JumpValue> = Vec::new();
    let mut i: usize = 0;
    while i < vs.len()
        invariant
            vv == crate::json::values_view(vs@),
            i <= vs@.len(),
            out@.len() == i,
            forall|j: int| 0 <= j < i ==> #[trigger] jump_const_of(vv[j]) is Some && out@[j]@ == jump_const_of(vv[j])->0,
        decreases vs@.len() - i,
    {
        match value_to_jump_value(&vs[i]) {
            Ok(c) => {
                out.push(c);
            },
            Err(e) => {
                assert(jump_const_of(vv[i as int]) is None);
                proof { lemma_jump_consts_of(vv); }
                return Err(e);
            },
        }
        i = i + 1;
    }
    proof { lemma_jump_consts_of(vv); }
    assert(jump_consts(out@) =~= jump_consts_of(vv)->0);
    Ok(out)
}

fn compile_cond_jump(cond: &Condition, ctx: &mut CompileContext, jump_on_true: bool) -> (r: Result<usize, CompileFailure>)
    requires
        state_well_formed(old(ctx).st()),
    ensures
        final(ctx).default_endian == old(ctx).default_endian,
        match cond_jump_spec(*cond, old(ctx).st(), jump_on_true) {
            Ok((s, pc)) => r is Ok && r->Ok_0 as nat == pc && final(ctx).st() == s,
            Err(e) => r is Err && r->Err_0@ == e,
        },
        r is Ok ==> state_well_formed(final(ctx).st()) && extends(old(ctx).st(), final(ctx).st())
            && r->Ok_0 == old(ctx).st().ops.len() && final(ctx).st().ops.len() == old(ctx).st().ops.len() + 1
            && is_jump(final(ctx).st().ops[r->Ok_0 as int]),
{
    let var_idx = match CompileContext::find(&ctx.var_names, cond.field.as_str()) {
        Some(i) => i,
        None => {
            return Err(CompileFailureOf::Error(CompileErrorOf::ConditionFieldNotFound(cond.field.clone())));
        },
    };
    let ghost st0 = ctx.st();
    if let Some(eq_val) = &cond.eq {
        let jv = value_to_jump_value(eq_val)?;
        let inst = if jump_on_true {
            Instruction::JumpIfEq { var_idx, value: jv, target: 0 }
        } else {
            Instruction::JumpIfNe { var_idx, value: jv, target: 0 }
        };
        ctx.emit(inst);
        proof { lemma_emit_wf(st0, inst@); }
        return Ok(ctx.current_pc() - 1);
    }
    if let Some(ne_val) = &cond.ne {
        let jv = value_to_jump_value(ne_val)?;
        let inst = if jump_on_true {
            Instruction::JumpIfNe { var_idx, value: jv, target: 0 }
        } else {
            Instruction::JumpIfEq { var_idx, value: jv, target: 0 }
        };
        ctx.emit(inst);
        proof { lemma_emit_wf(st0, inst@); }
        return Ok(ctx.current_pc() - 1);
    }
    if let Some(in_vals) = &cond.in_list {
        let jvs = jump_values(in_vals)?;
        let inst = if jump_on_true {
            Instruction::JumpIfIn { var_idx, values: jvs, target: 0 }
        } else {
            Instruction::JumpIfNotIn { var_idx, values: jvs, target: 0 }
        };
        ctx.emit(inst);
        proof { lemma_emit_wf(st0, inst@); }
        return Ok(ctx.current_pc() - 1);
    }
    Err(CompileFailureOf::UnsupportedCondition)
}

proof fn lemma_emit_wf(st: CompState, op: Op)
    requires
        state_well_formed(st),
        op_well_formed(op, st.strings.len(), st.vars.len(), st.ops.len() + 1),
    ensures
        state_well_formed(emit(st, op)),
        extends(st, emit(st, op)),
{
    lemma_wf_grow(st, st.strings.len(), st.vars.len(), st.ops.len() + 1);
    let e = emit(st, op);
    assert forall|i: int| 0 <= i < e.ops.len() implies op_well_formed(#[trigger] e.ops[i], e.strings.len(), e.vars.len(), e.ops.len()) by {
        if i < st.ops.len() {
            assert(e.ops[i] == st.ops[i]);
        }
    }
}

fn resolve_var_length(length: Option<usize>, length_field: &Option<String>, ctx: &CompileContext) -> (r: Result<VarLength, CompileFailure>)
    ensures
        match var_length_spec(length, *length_field, ctx.st()) {
            Ok(vl) => r == Ok::<VarLength, CompileFailure>(vl) && (vl matches VarLength::Ref(v) ==> v < ctx.st().vars.len()),
            Err(e) => r is Err && r->Err_0@ == e,
        },
{
    if let Some(l) = length {
        return Ok(VarLength::Fixed(l));
    }
    if let Some(field_name) = length_field {
        match CompileContext::find(&ctx.var_names, field_name.as_str()) {
            Some(i) => return Ok(VarLength::Ref(i)),
            None => return Err(CompileFailureOf::Error(CompileErrorOf::LengthFieldNotFound(field_name.clone()))),
        }
    }
    Ok(VarLength::Remaining)
}

pub(crate) fn string_encoding(encoding: &Option<String>) -> (r: StringEncoding)
    ensures
        r == string_encoding_spec(*encoding),
{
    match encoding {
        Some(e) => {
            proof {
                reveal_strlit("utf-16le");
                reveal_strlit("utf-16be");
            }
            if compare_keys(e.as_str(), "utf-16le") == KeyOrder::Equal {
                StringEncoding::Utf16Le
            } else if compare_keys(e.as_str(), "utf-16be") == KeyOrder::Equal {
                StringEncoding::Utf16Be
            } else {
                StringEncoding::Utf8
            }
        },
        None => StringEncoding::Utf8,
    }
}

proof fn lemma_first_index_bound(s: Seq<Seq<char>>, x: Seq<char>)
    ensures
        first_index(s, x) matches Some(i) ==> i < s.len() && s[i as int] == x,
    decreases s.len(),
{
    if s.len() > 0 {
        lemma_first_index_bound(s.drop_first(), x);
    }
}

proof fn lemma_slots_bound(st: CompState, x: Seq<char>)
    ensures
        intern(st, x).1 < intern(st, x).0.strings.len(),
        var_slot(st, x).1 < var_slot(st, x).0.vars.len(),
        intern(st, x).0.ops == st.ops && intern(st, x).0.vars == st.vars,
        var_slot(st, x).0.ops == st.ops && var_slot(st, x).0.strings == st.strings,
        intern(st, x).0.strings.len() >= st.strings.len(),
        var_slot(st, x).0.vars.len() >= st.vars.len(),
{
    lemma_first_index_bound(st.strings, x);
    lemma_first_index_bound(st.vars, x);
}

proof fn lemma_extends_trans(a: CompState, b: CompState, c: CompState)
    requires
        extends(a, b),
        extends(b, c),
    ensures
        extends(a, c),
{
    assert forall|i: int| 0 <= i < a.ops.len() implies c.ops[i] == #[trigger] a.ops[i] by {
        assert(c.ops[i] == b.ops[i]);
    }
}

proof fn lemma_tables_grow(a: CompState, b: CompState)
    requires
        state_well_formed(a),
        b.ops == a.ops,
        a.strings.len() <= b.strings.len(),
        a.vars.len() <= b.vars.len(),
    ensures
        state_well_formed(b),
        extends(a, b),
{
    lemma_wf_grow(a, b.strings.len(), b.vars.len(), b.ops.len());
}

/// Patching a jump emitted after `base` keeps what `base` had and keeps
/// every index in range.
proof fn lemma_patch(base: CompState, st: CompState, pc: nat, target: nat)
    requires
        state_well_formed(st),
        extends(base, st),
        base.ops.len() <= pc < st.ops.len(),
        target <= st.ops.len(),
        is_jump(st.ops[pc as int]),
    ensures
        state_well_formed(patch(st, pc, target)),
        extends(base, patch(st, pc, target)),
        patch(st, pc, target).ops.len() == st.ops.len(),
        forall|k: int| 0 <= k < st.ops.len() && is_jump(#[trigger] st.ops[k]) ==> is_jump(patch(st, pc, target).ops[k]),
{
    let p = patch(st, pc, target);
    assert(op_well_formed(st.ops[pc as int], st.strings.len(), st.vars.len(), st.ops.len()));
    assert forall|i: int| 0 <= i < p.ops.len() implies op_well_formed(#[trigger] p.ops[i], p.strings.len(), p.vars.len(), p.ops.len()) by {
        if i != pc {
            assert(p.ops[i] == st.ops[i]);
        }
    }
    assert forall|i: int| 0 <= i < base.ops.len() implies p.ops[i] == #[trigger] base.ops[i] by {
        assert(p.ops[i] == st.ops[i]);
    }
}

pub open spec fn nats(v: Seq<usize>) -> Seq<nat> {
    v.map_values(|x: usize| x as nat)
}

pub open spec fn result_matches(spec: CompResult, r: Result<(), CompileFailure>, st: CompState) -> bool {
    match spec {
        Ok(s) => r is Ok && st == s,
        Err(e) => r is Err && r->Err_0@ == e,
    }
}

#[verifier::loop_isolation(false)]
fn compile_fields(fields: &Vec<Field>, ctx: &mut CompileContext) -> (r: Result<(), CompileFailure>)
    requires
        state_well_formed(old(ctx).st()),
    ensures
        final(ctx).default_endian == old(ctx).default_endian,
        result_matches(compile_fields_spec(fields@, 0, old(ctx).st(), old(ctx).default_endian), r, final(ctx).st()),
        r is Ok ==> state_well_formed(final(ctx).st()) && extends(old(ctx).st(), final(ctx).st()),
    decreases fields,
{
    let ghost st0 = ctx.st();
    let ghost d = ctx.default_endian;
    let mut i: usize = 0;
    while i < fields.len()
        invariant
            i <= fields@.len(),
            ctx.default_endian == d,
            state_well_formed(ctx.st()),
            extends(st0, ctx.st()),
            compile_fields_spec(fields@, 0, st0, d) == compile_fields_spec(fields@, i as int, ctx.st(), d),
        decreases fields@.len() - i,
    {
        proof { assert(decreases_to!(fields => fields@[i as int])); }
        let ghost before = ctx.st();
        compile_field(&fields[i], ctx)?;
        proof { lemma_extends_trans(st0, before, ctx.st()); }
        i = i + 1;
    }
    Ok(())
}

#[verifier::loop_isolation(false)]
fn compile_branches(bs: &Vec<ConditionalBranch>, ctx: &mut CompileContext) -> (r: Result<Vec<usize>, CompileFailure>)
    requires
        state_well_formed(old(ctx).st()),
    ensures
        final(ctx).default_endian == old(ctx).default_endian,
        match compile_branches_spec(bs@, 0, old(ctx).st(), Seq::empty(), old(ctx).default_endian) {
            Ok((s, ej)) => r is Ok && final(ctx).st() == s && nats(r->Ok_0@) == ej,
            Err(e) => r is Err && r->Err_0@ == e,
        },
        r is Ok ==> state_well_formed(final(ctx).st()) && extends(old(ctx).st(), final(ctx).st())
            && forall|k: int| 0 <= k < r->Ok_0@.len() ==> old(ctx).st().ops.len() <= #[trigger] r->Ok_0@[k] < final(ctx).st().ops.len()
                && is_jump(final(ctx).st().ops[r->Ok_0@[k] as int]),
    decreases bs,
{
    let ghost st0 = ctx.st();
    let ghost d = ctx.default_endian;
    let mut end_jumps: Vec<usize> = Vec::new();
    let mut i: usize = 0;
    assert(nats(end_jumps@) =~= Seq::<nat>::empty());
    while i < bs.len()
        invariant
            i <= bs@.len(),
            ctx.default_endian == d,
            state_well_formed(ctx.st()),
            extends(st0, ctx.st()),
            compile_branches_spec(bs@, 0, st0, Seq::empty(), d) == compile_branches_spec(bs@, i as int, ctx.st(), nats(end_jumps@), d),
            forall|k: int| 0 <= k < end_jumps@.len() ==> st0.ops.len() <= #[trigger] end_jumps@[k] < ctx.st().ops.len()
                && is_jump(ctx.st().ops[end_jumps@[k] as int]),
        decreases bs@.len() - i,
    {
        let ghost s_in = ctx.st();
        let skip_branch_pc = match &bs[i].when {
            Some(cond) => compile_cond_jump(cond, ctx, false)?,
            None => {
                ctx.emit(Instruction::Jump { target: 0 });
                proof { lemma_emit_wf(s_in, Op::Jump { target: 0 }); }
                ctx.current_pc() - 1
            },
        };
        let ghost s1 = ctx.st();
        proof { lemma_extends_trans(st0, s_in, s1); }
        proof { assert(decreases_to!(bs => bs@[i as int].fields)); }
        compile_fields(&bs[i].fields, ctx)?;
        let ghost s2 = ctx.st();
        proof { lemma_extends_trans(st0, s1, s2); }
        let end_jump_pc = ctx.current_pc();
        ctx.emit(Instruction::Jump { target: 0 });
        proof {
            lemma_emit_wf(s2, Op::Jump { target: 0 });
            lemma_extends_trans(st0, s2, ctx.st());
        }
        let ghost s3 = ctx.st();
        let ghost ej_before = end_jumps@;
        end_jumps.push(end_jump_pc);
        let branch_end = ctx.current_pc();
        proof {
            lemma_extends_trans(s_in, s1, s2);
            lemma_extends_trans(s_in, s2, s3);
            assert(is_jump(s1.ops[skip_branch_pc as int]));
            assert(s2.ops[skip_branch_pc as int] == s1.ops[skip_branch_pc as int]);
            assert(s3.ops[skip_branch_pc as int] == s2.ops[skip_branch_pc as int]);
            lemma_patch(s_in, s3, skip_branch_pc as nat, branch_end as nat);
            lemma_patch(st0, s3, skip_branch_pc as nat, branch_end as nat);
        }
        ctx.patch_jump(skip_branch_pc, branch_end);
        proof {
            assert(nats(end_jumps@) =~= nats(ej_before).push(end_jump_pc as nat));
            assert forall|k: int| 0 <= k < end_jumps@.len() implies st0.ops.len() <= #[trigger] end_jumps@[k] < ctx.st().ops.len()
                && is_jump(ctx.st().ops[end_jumps@[k] as int]) by {
                if k < ej_before.len() {
                    assert(end_jumps@[k] == ej_before[k]);
                    assert(s3.ops[ej_before[k] as int] == s1.ops[ej_before[k] as int] || true);
                    assert(is_jump(s3.ops[ej_before[k] as int])) by {
                        assert(s1.ops[ej_before[k] as int] == s_in.ops[ej_before[k] as int]);
                        assert(s2.ops[ej_before[k] as int] == s1.ops[ej_before[k] as int]);
                        assert(s3.ops[ej_before[k] as int] == s2.ops[ej_before[k] as int]);
                    }
                } else {
                    assert(end_jumps@[k] == end_jump_pc);
                }
            }
        }
        i = i + 1;
    }
    Ok(end_jumps)
}

#[verifier::loop_isolation(false)]
#[verifier::spinoff_prover]
#[verifier::rlimit(100)]
fn compile_field(field: &Field, ctx: &mut CompileContext) -> (r: Result<(), CompileFailure>)
    requires
        state_well_formed(old(ctx).st()),
    ensures
        final(ctx).default_endian == old(ctx).default_endian,
        result_matches(compile_field_spec(*field, old(ctx).st(), old(ctx).default_endian), r, final(ctx).st()),
        r is Ok ==> state_well_formed(final(ctx).st()) && extends(old(ctx).st(), final(ctx).st()),
    decreases field,
{
    let ghost st0 = ctx.st();
    let ghost d = ctx.default_endian;
    match field {
        Field::Scalar { name, data_type, endian, length, length_field, encoding } => {
            let var_idx = ctx.get_or_create_var(name.as_str());
            let ghost s1 = ctx.st();
            proof { lemma_slots_bound(st0, name@); lemma_slots_bound(s1, name@); }
            let name_idx = ctx.intern_string(name.as_str());
            let ghost s2 = ctx.st();
            proof {
                lemma_tables_grow(st0, s1);
                lemma_tables_grow(s1, s2);
                lemma_extends_trans(st0, s1, s2);
            }
            let eff_endian = match endian {
                Some(e) => *e,
                None => ctx.default_endian,
            };
            if is_scalar_type(data_type) {
                let scalar_type = ScalarType::from_field_type(data_type);
                let inst = Instruction::ReadScalar { name_idx, var_idx, scalar_type, endian: eff_endian };
                ctx.emit(inst);
                proof { lemma_emit_wf(s2, inst@); lemma_extends_trans(st0, s2, ctx.st()); }
            } else if *data_type == FieldType::Bytes {
                let var_len = resolve_var_length(*length, length_field, ctx)?;
                let inst = Instruction::ReadBytes { name_idx, var_idx, length: var_len };
                ctx.emit(inst);
                proof { lemma_emit_wf(s2, inst@); lemma_extends_trans(st0, s2, ctx.st()); }
            } else {
                let var_len = resolve_var_length(*length, length_field, ctx)?;
                let enc = string_encoding(encoding);
                let inst = Instruction::ReadString { name_idx, var_idx, length: var_len, encoding: enc };
                ctx.emit(inst);
                proof { lemma_emit_wf(s2, inst@); lemma_extends_trans(st0, s2, ctx.st()); }
            }
            Ok(())
        },
        Field::Struct { name, fields } => {
            let name_idx = match name {
                Some(n) => {
                    let ni = ctx.intern_string(n.as_str());
                    proof { lemma_slots_bound(st0, n@); }
                    Some(ni)
                },
                None => None,
            };
            let ghost s1 = ctx.st();
            proof { lemma_tables_grow(st0, s1); }
            ctx.emit(Instruction::PushFrame { name_idx });
            proof { lemma_emit_wf(s1, Op::PushFrame { name_idx }); lemma_extends_trans(st0, s1, ctx.st()); }
            let ghost s2 = ctx.st();
            proof { assert(decreases_to!(field => *fields)); }
            compile_fields(fields, ctx)?;
            let ghost s3 = ctx.st();
            proof { lemma_extends_trans(st0, s2, s3); }
            ctx.emit(Instruction::PopFrame);
            proof { lemma_emit_wf(s3, Op::PopFrame); lemma_extends_trans(st0, s3, ctx.st()); }
            Ok(())
        },
        Field::Conditional { name, conditions, default } => {
            let name_idx = match name {
                Some(n) => {
                    let ni = ctx.intern_string(n.as_str());
                    proof { lemma_slots_bound(st0, n@); }
                    Some(ni)
                },
                None => None,
            };
            let ghost s0b = ctx.st();
            proof { lemma_tables_grow(st0, s0b); }
            if let Some(n) = name_idx {
                ctx.emit(Instruction::PushFrame { name_idx: Some(n) });
                proof { lemma_emit_wf(s0b, Op::PushFrame { name_idx: Some(n) }); lemma_extends_trans(st0, s0b, ctx.st()); }
            }
            let ghost s1 = ctx.st();
            proof { assert(decreases_to!(field => *conditions)); }
            let end_jumps = compile_branches(conditions, ctx)?;
            let ghost s2 = ctx.st();
            proof { lemma_extends_trans(st0, s1, s2); }
            if let Some(default_fields) = default {
                proof { assert(decreases_to!(field => *default_fields)); }
                compile_fields(default_fields, ctx)?;
            }
            let ghost s3 = ctx.st();
            proof { lemma_extends_trans(st0, s2, s3); }
            let final_end = ctx.current_pc();
            let mut k: usize = 0;
            assert(nats(end_jumps@).subrange(0, end_jumps@.len() as int) =~= nats(end_jumps@));
            while k < end_jumps.len()
                invariant
                    k <= end_jumps@.len(),
                    ctx.default_endian == d,
                    state_well_formed(ctx.st()),
                    extends(s1, ctx.st()),
                    extends(st0, ctx.st()),
                    ctx.st().ops.len() == s3.ops.len(),
                    final_end == s3.ops.len(),
                    patch_all(s3, nats(end_jumps@), final_end as nat)
                        == patch_all(ctx.st(), nats(end_jumps@).subrange(k as int, end_jumps@.len() as int), final_end as nat),
                    forall|j: int| 0 <= j < end_jumps@.len() ==> s1.ops.len() <= #[trigger] end_jumps@[j] < ctx.st().ops.len()
                        && is_jump(ctx.st().ops[end_jumps@[j] as int]),
                decreases end_jumps@.len() - k,
            {
                let ghost cur = ctx.st();
                let ghost rest = nats(end_jumps@).subrange(k as int, end_jumps@.len() as int);
                proof {
                    lemma_patch(s1, cur, end_jumps@[k as int] as nat, final_end as nat);
                    lemma_patch(st0, cur, end_jumps@[k as int] as nat, final_end as nat);
                    assert(rest[0] == end_jumps@[k as int] as nat);
                    assert(rest.drop_first() =~= nats(end_jumps@).subrange(k + 1, end_jumps@.len() as int));
                }
                ctx.patch_jump(end_jumps[k], final_end);
                k = k + 1;
            }
            proof {
                assert(nats(end_jumps@).subrange(k as int, end_jumps@.len() as int) =~= Seq::<nat>::empty());
            }
            if name_idx.is_some() {
                let ghost s4 = ctx.st();
                ctx.emit(Instruction::PopFrame);
                proof { lemma_emit_wf(s4, Op::PopFrame); lemma_extends_trans(st0, s4, ctx.st()); }
            }
            Ok(())
        },
        Field::Array { name, element, count, count_field, until_eof } => {
            let array_name_idx = ctx.intern_string(name.as_str());
            let ghost s1 = ctx.st();
            proof { lemma_slots_bound(st0, name@); lemma_tables_grow(st0, s1); }
            let loop_count = if *until_eof {
                LoopCount::UntilEof
            } else if let Some(c) = count {
                LoopCount::Fixed(*c)
            } else if let Some(cf) = count_field {
                match CompileContext::find(&ctx.var_names, cf.as_str()) {
                    Some(vi) => LoopCount::Ref(vi),
                    None => {
                        return Err(CompileFailureOf::Error(CompileErrorOf::CountFieldNotFound(cf.clone())));
                    },
                }
            } else {
                LoopCount::UntilEof
            };
            let loop_var_idx = ctx.get_or_create_var("__loop_elem");
            let ghost s2 = ctx.st();
            proof { lemma_slots_bound(s1, loop_var_name()); lemma_tables_grow(s1, s2); lemma_extends_trans(st0, s1, s2); }
            let loop_start_pc = ctx.current_pc();
            let ls = Instruction::LoopStart { var_idx: loop_var_idx, count: loop_count, end_pc: 0 };
            ctx.emit(ls);
            proof { lemma_emit_wf(s2, ls@); lemma_extends_trans(st0, s2, ctx.st()); }
            let ghost s3 = ctx.st();
            match &**element {
                Field::Struct { fields, .. } => {
                    proof { assert(decreases_to!(field => *fields)); }
                    compile_fields(fields, ctx)?;
                },
                other => {
                    proof { assert(decreases_to!(field => *other)); }
                    compile_field(other, ctx)?;
                },
            }
            let ghost s4 = ctx.st();
            proof { lemma_extends_trans(st0, s3, s4); lemma_extends_trans(s2, s3, s4); }
            ctx.emit(Instruction::LoopNext);
            proof { lemma_emit_wf(s4, Op::LoopNext); lemma_extends_trans(st0, s4, ctx.st()); lemma_extends_trans(s2, s4, ctx.st()); }
            let ghost s5 = ctx.st();
            let store_array_pc = ctx.current_pc();
            ctx.emit(Instruction::StoreArray { name_idx: array_name_idx });
            proof {
                lemma_emit_wf(s5, Op::StoreArray { name_idx: array_name_idx });
                lemma_extends_trans(st0, s5, ctx.st());
                lemma_extends_trans(s2, s5, ctx.st());
            }
            let ghost s6 = ctx.st();
            proof {
                assert(s6.ops[loop_start_pc as int] == s3.ops[loop_start_pc as int]);
            }
            ctx.patch_loop_end(loop_start_pc, store_array_pc);
            proof {
                let p = ctx.st();
                assert(op_well_formed(s6.ops[loop_start_pc as int], s6.strings.len(), s6.vars.len(), s6.ops.len()));
                assert forall|i: int| 0 <= i < p.ops.len() implies op_well_formed(#[trigger] p.ops[i], p.strings.len(), p.vars.len(), p.ops.len()) by {
                    if i != loop_start_pc {
                        assert(p.ops[i] == s6.ops[i]);
                    }
                }
                assert forall|i: int| 0 <= i < st0.ops.len() implies p.ops[i] == #[trigger] st0.ops[i] by {
                    assert(p.ops[i] == s6.ops[i]);
                }
            }
            Ok(())
        },
    }
}

fn parse_signature(ts: &TemplateSignature) -> (r: Result<Signature, CompileFailure>)
    ensures
        match signature_spec(*ts) {
            Ok((o, b)) => r is Ok && r->Ok_0.offset == o && r->Ok_0.bytes@ == b,
            Err(e) => r is Err && r->Err_0@ == e,
        },
{
    match hex_decode(ts.bytes.as_str().as_bytes()) {
        Ok(bytes) => Ok(Signature { offset: ts.offset, bytes }),
        Err(e) => Err(CompileFailureOf::Error(CompileErrorOf::InvalidSignatureHex(e))),
    }
}

/// The program a compilation state and signature make.
pub open spec fn program_is(p: BytecodeProgram, sig: Option<(usize, Seq<u8>)>, st: CompState) -> bool {
    &&& ops_of(p.instructions@) == st.ops
    &&& strings_of(p.string_table@) == st.strings
    &&& p.num_vars == st.vars.len()
    &&& match sig {
        Some((o, b)) => p.signature is Some && p.signature->0.offset == o && p.signature->0.bytes@ == b,
        None => p.signature is None,
    }
}

/// Compiles a template, reporting a condition that the bytecode cannot
/// test instead of stopping on it. A program that comes out is well formed
/// and its string table holds each name once.
pub fn try_compile_template(template: &ProtocolTemplate) -> (r: Result<BytecodeProgram, CompileFailure>)
    ensures
        match compile_template_spec(*template) {
            Ok((sig, st)) => r is Ok && program_is(r->Ok_0, sig, st),
            Err(e) => r is Err && r->Err_0@ == e,
        },
        r matches Ok(p) ==> p.well_formed(),
        r matches Ok(p) ==> strings_of(p.string_table@).no_duplicates(),
{
    let mut ctx = CompileContext::new(template.endian);
    let signature = match &template.signature {
        Some(sig) => Some(parse_signature(sig)?),
        None => None,
    };
    proof {
        assert(state_well_formed(ctx.st()));
    }
    compile_fields(&template.fields, &mut ctx)?;
    let ghost st = ctx.st();
    let p = BytecodeProgram {
        num_vars: ctx.var_names.len(),
        instructions: ctx.instructions,
        string_table: ctx.string_table,
        signature,
    };
    assert(ops_of(p.instructions@) == st.ops);
    proof { lemma_template_strings_distinct(*template); }
    Ok(p)
}

/// Compiles a template to bytecode. Templates with a condition that has
/// none of the `eq`, `ne`, `in` operators, reached while compiling, are left
/// out: the bytecode cannot test them.
pub fn compile_template(template: &ProtocolTemplate) -> (r: Result<BytecodeProgram, CompileError>)
    requires
        !(compile_template_spec(*template) matches Err(CompileFailureOf::UnsupportedCondition)),
    ensures
        match compile_template_spec(*template) {
            Ok((sig, st)) => r is Ok && program_is(r->Ok_0, sig, st),
            Err(CompileFailureOf::Error(e)) => r is Err && r->Err_0@ == e,
            Err(CompileFailureOf::UnsupportedCondition) => false,
        },
        r matches Ok(p) ==> p.well_formed(),
        r matches Ok(p) ==> strings_of(p.string_table@).no_duplicates(),
{
    match try_compile_template(template) {
        Ok(p) => Ok(p),
        Err(CompileFailureOf::Error(e)) => Err(e),
        Err(CompileFailureOf::UnsupportedCondition) => {
            assert(false);
            Err(CompileErrorOf::UnsupportedConditionValue)
        },
    }
}

// ---------------------------------------------------------------------
// The string table holds each name once

proof fn lemma_first_index_absent(s: Seq<Seq<char>>, x: Seq<char>)
    ensures
        first_index(s, x) is None ==> forall|j: int| 0 <= j < s.len() ==> s[j] != x,
    decreases s.len(),
{
    if s.len() > 0 && s[0] != x {
        let t = s.drop_first();
        lemma_first_index_absent(t, x);
        if first_index(s, x) is None {
            assert forall|j: int| 0 <= j < s.len() implies s[j] != x by {
                if j > 0 {
                    assert(s[j] == t[j - 1]);
                }
            }
        }
    }
}

proof fn lemma_intern_distinct(st: CompState, x: Seq<char>)
    requires
        st.strings.no_duplicates(),
    ensures
        intern(st, x).0.strings.no_duplicates(),
{
    lemma_first_index_absent(st.strings, x);
}

proof fn lemma_patch_all_strings(st: CompState, pcs: Seq<nat>, target: nat)
    ensures
        patch_all(st, pcs, target).strings == st.strings,
    decreases pcs.len(),
{
    if pcs.len() > 0 {
        lemma_patch_all_strings(patch(st, pcs[0], target), pcs.drop_first(), target);
    }
}

proof fn lemma_field_strings_distinct(f: Field, st: CompState, dend: Endian)
    requires
        st.strings.no_duplicates(),
        compile_field_spec(f, st, dend) is Ok,
    ensures
        compile_field_spec(f, st, dend)->Ok_0.strings.no_duplicates(),
    decreases f, 0nat,
{
    match f {
        Field::Scalar { name, .. } => {
            lemma_intern_distinct(var_slot(st, name@).0, name@);
        },
        Field::Struct { name, fields } => {
            if let Some(n) = name {
                lemma_intern_distinct(st, n@);
            }
            let st1 = match name {
                Some(n) => intern(st, n@).0,
                None => st,
            };
            let name_idx = match name {
                Some(n) => Some(intern(st, n@).1 as usize),
                None => None,
            };
            lemma_fields_strings_distinct(fields@, 0, emit(st1, Op::PushFrame { name_idx }), dend);
        },
        Field::Conditional { name, conditions, default } => {
            if let Some(n) = name {
                lemma_intern_distinct(st, n@);
            }
            let st1 = match name {
                Some(n) => {
                    let (s, i) = intern(st, n@);
                    emit(s, Op::PushFrame { name_idx: Some(i as usize) })
                },
                None => st,
            };
            lemma_branches_strings_distinct(conditions@, 0, st1, Seq::empty(), dend);
            let (st2, end_jumps) = compile_branches_spec(conditions@, 0, st1, Seq::empty(), dend)->Ok_0;
            if let Some(d) = default {
                lemma_fields_strings_distinct(d@, 0, st2, dend);
            }
            let st3 = match default {
                Some(d) => compile_fields_spec(d@, 0, st2, dend)->Ok_0,
                None => st2,
            };
            lemma_patch_all_strings(st3, end_jumps, st3.ops.len());
        },
        Field::Array { name, element, .. } => {
            lemma_intern_distinct(st, name@);
            let st2 = var_slot(intern(st, name@).0, loop_var_name()).0;
            let lv = var_slot(intern(st, name@).0, loop_var_name()).1;
            let lc = match f {
                Field::Array { count, count_field, until_eof, .. } => if until_eof {
                    LoopCount::UntilEof
                } else {
                    match count {
                        Some(c) => LoopCount::Fixed(c),
                        None => match count_field {
                            Some(cf) => LoopCount::Ref(first_index(intern(st, name@).0.vars, cf@)->Some_0 as usize),
                            None => LoopCount::UntilEof,
                        },
                    }
                },
                _ => LoopCount::UntilEof,
            };
            let st3 = emit(st2, Op::LoopStart { var_idx: lv as usize, count: lc, end_pc: 0 });
            assert(decreases_to!(f => *element));
            match *element {
                Field::Struct { fields, .. } => {
                    assert(decreases_to!(*element => fields));
                    lemma_fields_strings_distinct(fields@, 0, st3, dend);
                },
                other => lemma_field_strings_distinct(other, st3, dend),
            }
        },
    }
}

proof fn lemma_fields_strings_distinct(fs: Seq<Field>, i: int, st: CompState, dend: Endian)
    requires
        st.strings.no_duplicates(),
        compile_fields_spec(fs, i, st, dend) is Ok,
    ensures
        compile_fields_spec(fs, i, st, dend)->Ok_0.strings.no_duplicates(),
    decreases fs, fs.len() - i,
{
    if 0 <= i < fs.len() {
        lemma_field_strings_distinct(fs[i], st, dend);
        lemma_fields_strings_distinct(fs, i + 1, compile_field_spec(fs[i], st, dend)->Ok_0, dend);
    }
}

proof fn lemma_branches_strings_distinct(bs: Seq<ConditionalBranch>, i: int, st: CompState, end_jumps: Seq<nat>, dend: Endian)
    requires
        st.strings.no_duplicates(),
        compile_branches_spec(bs, i, st, end_jumps, dend) is Ok,
    ensures
        compile_branches_spec(bs, i, st, end_jumps, dend)->Ok_0.0.strings.no_duplicates(),
    decreases bs, bs.len() - i,
{
    if 0 <= i < bs.len() {
        let skip: Result<(CompState, nat), CompileFailureOf<Seq<char>>> = match bs[i].when {
            Some(cond) => cond_jump_spec(cond, st, false),
            None => Ok((emit(st, Op::Jump { target: 0 }), st.ops.len())),
        };
        let (st1, skip_pc) = skip->Ok_0;
        lemma_fields_strings_distinct(bs[i].fields@, 0, st1, dend);
        let st2 = compile_fields_spec(bs[i].fields@, 0, st1, dend)->Ok_0;
        let st3 = emit(st2, Op::Jump { target: 0 });
        let st4 = patch(st3, skip_pc, st3.ops.len());
        lemma_branches_strings_distinct(bs, i + 1, st4, end_jumps.push(st2.ops.len()), dend);
    }
}

/// A compiled template's string table holds each name once.
pub proof fn lemma_template_strings_distinct(t: ProtocolTemplate)
    requires
        compile_template_spec(t) is Ok,
    ensures
        compile_template_spec(t)->Ok_0.1.strings.no_duplicates(),
{
    lemma_fields_strings_distinct(t.fields@, 0, empty_state(), t.endian);
}

} // verus!
