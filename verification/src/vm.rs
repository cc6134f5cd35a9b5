//! The bytecode machine that runs compiled templates over payloads.

use vstd::prelude::*;
use crate::bytecode::{
    ops_of, strings_of, BytecodeProgram, Instruction, JumpConst, JumpValue, LoopCount, Op,
    ScalarType, StringEncoding, VarLength,
};
use crate::hexcodec::{hex_encode, hex_text};
use crate::json::{
    clone_entries, deep_clone, entries_view, json_as_i64, json_as_size, json_as_u64, obj_insert,
    obj_merge, obj_merge_into, obj_set, values_view, Json, JsonNumber, JsonValue,
};
use crate::numeric::{f64_eq, f64_equal, number_f64_bits, number_to_f64};
use crate::scalar::{decode_scalar, decode_text, decoded_text, scalar_json, scalar_width, scalar_width_exec, uint_at};
use crate::template::Endian;

verus! {

/// Why a run of the machine stops without a result.
#[derive(Debug, Clone, Copy, PartialEq, Eq, Structural)]
pub enum VmError {
    EndOfDataReadingU8,
    EndOfData { need: u64, remaining: usize },
    PopFrameWithoutFrame,
    VariableNotSet(usize),
    InvalidLoopCount,
    LoopNextWithoutLoop,
    MissingElementFrame,
    StoreArrayWithoutLoop,
    InvalidLength,
}

/// An object under construction, named or merged into its parent when done.
pub struct FrameModel {
    pub name: Option<Seq<char>>,
    pub object: Seq<(Seq<char>, Json)>,
}

/// A running loop: iterations done, how many to do (`u64::MAX`: until the
/// data ends), where its body starts, and the items collected.
pub struct LoopModel {
    pub current: u64,
    pub count: u64,
    pub start_pc: nat,
    pub items: Seq<Json>,
}

/// The machine's state: read position, variable slots, open frames, open
/// loops, and the top-level object.
pub struct VmState {
    pub offset: nat,
    pub vars: Seq<Option<Json>>,
    pub frames: Seq<FrameModel>,
    pub loops: Seq<LoopModel>,
    pub result: Seq<(Seq<char>, Json)>,
}

/// What one step does: go on to a state and instruction, stop with an
/// error, or get stuck where the machine itself would fail (a read whose end
/// passes the largest offset, a loop counter that would overflow).
pub enum Step {
    Next(VmState, nat),
    Fail(VmError),
    Stuck,
}

/// Sets a named value in the innermost frame, or in the top-level object.
pub open spec fn set_scope(s: VmState, name: Seq<char>, v: Json) -> VmState {
    if s.frames.len() > 0 {
        let f = s.frames.last();
        VmState {
            frames: s.frames.update(s.frames.len() - 1, FrameModel { object: obj_insert(f.object, name, v), ..f }),
            ..s
        }
    } else {
        VmState { result: obj_insert(s.result, name, v), ..s }
    }
}

/// The object a finished frame adds to its scope: under its name, or its
/// entries merged in when it has none (a value that is no object adds nothing).
pub open spec fn merge_named(o: Seq<(Seq<char>, Json)>, name: Option<Seq<char>>, v: Json) -> Seq<(Seq<char>, Json)> {
    match name {
        Some(n) => obj_insert(o, n, v),
        None => match v {
            Json::Object(entries) => obj_merge(o, entries),
            _ => o,
        },
    }
}

pub open spec fn add_scope(s: VmState, name: Option<Seq<char>>, v: Json) -> VmState {
    if s.frames.len() > 0 {
        let f = s.frames.last();
        VmState {
            frames: s.frames.update(s.frames.len() - 1, FrameModel { object: merge_named(f.object, name, v), ..f }),
            ..s
        }
    } else {
        VmState { result: merge_named(s.result, name, v), ..s }
    }
}

/// A signed 64-bit integer taken modulo 2^64.
pub open spec fn wrap_u64(x: i64) -> u64 {
    if x < 0 { (x + 0x1_0000_0000_0000_0000) as u64 } else { x as u64 }
}

/// An unsigned 64-bit integer taken as two's complement.
pub open spec fn wrap_i64(x: u64) -> i64 {
    if x > 0x7fff_ffff_ffff_ffff { (x - 0x1_0000_0000_0000_0000) as i64 } else { x as i64 }
}

/// Whether a variable's value matches a jump constant: integers compare as
/// signed or unsigned 64-bit values, doubles as doubles, strings as text.
pub open spec fn value_matches(a: Json, b: JumpConst) -> bool {
    match b {
        JumpConst::Int(i) => match json_as_i64(a) {
            Some(x) => x == i,
            None => match json_as_u64(a) {
                Some(x) => wrap_i64(x) == i,
                None => false,
            },
        },
        JumpConst::UInt(u) => match json_as_u64(a) {
            Some(x) => x == u,
            None => match json_as_i64(a) {
                Some(x) => wrap_u64(x) == u,
                None => false,
            },
        },
        JumpConst::Float(f) => match a {
            Json::Number(n) => f64_eq(number_f64_bits(n), f),
            _ => false,
        },
        JumpConst::Str(s) => match a {
            Json::Str(t) => t == s,
            _ => false,
        },
    }
}

pub open spec fn any_matches(a: Json, bs: Seq<JumpConst>) -> bool {
    exists|i: int| 0 <= i < bs.len() && value_matches(a, #[trigger] bs[i])
}

/// The length a byte or string read takes.
pub open spec fn length_of(s: VmState, vl: VarLength, dlen: nat) -> Result<u64, VmError> {
    match vl {
        VarLength::Fixed(n) => Ok(n as u64),
        VarLength::Ref(vi) => match s.vars[vi as int] {
            Some(v) => match json_as_size(v) {
                Some(n) => Ok(n),
                None => Err(VmError::InvalidLength),
            },
            None => Err(VmError::InvalidLength),
        },
        VarLength::Remaining => Ok((dlen - s.offset) as u64),
    }
}

/// Stores a value read at the current offset under its name and in its
/// variable, and moves past `width` bytes.
pub open spec fn store_read(s: VmState, name: Seq<char>, var_idx: usize, v: Json, width: nat) -> VmState {
    let s1 = set_scope(s, name, v);
    VmState { vars: s1.vars.update(var_idx as int, Some(v)), offset: s.offset + width, ..s1 }
}

pub open spec fn empty_frame() -> FrameModel {
    FrameModel { name: None, object: Seq::empty() }
}

/// An array item from an element frame: the frame's only value, or the
/// frame's object when it holds more or fewer than one entry.
pub open spec fn loop_item(o: Seq<(Seq<char>, Json)>) -> Json {
    if o.len() == 1 {
        o[0].1
    } else {
        Json::Object(o)
    }
}

/// One step of the machine at `pc` (which must be inside the program).
#[verifier::opaque]
pub open spec fn vm_step(ops: Seq<Op>, strings: Seq<Seq<char>>, d: Seq<u8>, s: VmState, pc: nat) -> Step {
    let remaining = d.len() - s.offset;
    match ops[pc as int] {
        Op::ReadScalar { name_idx, var_idx, scalar_type, endian } => {
            let w = scalar_width(scalar_type);
            if w == 1 && s.offset >= d.len() {
                Step::Fail(VmError::EndOfDataReadingU8)
            } else if w != 1 && s.offset + w > d.len() {
                Step::Fail(VmError::EndOfData { need: w as u64, remaining: remaining as usize })
            } else {
                let v = scalar_json(scalar_type, uint_at(d, s.offset as int, w, endian));
                Step::Next(store_read(s, strings[name_idx as int], var_idx, v, w), pc + 1)
            }
        },
        Op::ReadBytes { name_idx, var_idx, length } => match length_of(s, length, d.len()) {
            Err(e) => Step::Fail(e),
            Ok(len) => if s.offset + len > usize::MAX {
                Step::Stuck
            } else if len > remaining {
                Step::Fail(VmError::EndOfData { need: len, remaining: remaining as usize })
            } else {
                let v = Json::Str(hex_text(d.subrange(s.offset as int, s.offset + len)));
                Step::Next(store_read(s, strings[name_idx as int], var_idx, v, len as nat), pc + 1)
            },
        },
        Op::ReadString { name_idx, var_idx, length, encoding } => match length_of(s, length, d.len()) {
            Err(e) => Step::Fail(e),
            Ok(len) => if s.offset + len > usize::MAX {
                Step::Stuck
            } else if len > remaining {
                Step::Fail(VmError::EndOfData { need: len, remaining: remaining as usize })
            } else {
                let v = Json::Str(decoded_text(d.subrange(s.offset as int, s.offset + len), encoding));
                Step::Next(store_read(s, strings[name_idx as int], var_idx, v, len as nat), pc + 1)
            },
        },
        Op::PushFrame { name_idx } => Step::Next(
            VmState {
                frames: s.frames.push(FrameModel {
                    name: match name_idx { Some(i) => Some(strings[i as int]), None => None },
                    object: Seq::empty(),
                }),
                ..s
            },
            pc + 1,
        ),
        Op::PopFrame => if s.frames.len() == 0 {
            Step::Fail(VmError::PopFrameWithoutFrame)
        } else {
            let f = s.frames.last();
            Step::Next(add_scope(VmState { frames: s.frames.drop_last(), ..s }, f.name, Json::Object(f.object)), pc + 1)
        },
        Op::Jump { target } => Step::Next(s, target as nat),
        Op::JumpIfEq { var_idx, value, target } => match s.vars[var_idx as int] {
            None => Step::Fail(VmError::VariableNotSet(var_idx)),
            Some(v) => Step::Next(s, if value_matches(v, value) { target as nat } else { pc + 1 }),
        },
        Op::JumpIfNe { var_idx, value, target } => match s.vars[var_idx as int] {
            None => Step::Fail(VmError::VariableNotSet(var_idx)),
            Some(v) => Step::Next(s, if !value_matches(v, value) { target as nat } else { pc + 1 }),
        },
        Op::JumpIfIn { var_idx, values, target } => match s.vars[var_idx as int] {
            None => Step::Fail(VmError::VariableNotSet(var_idx)),
            Some(v) => Step::Next(s, if any_matches(v, values) { target as nat } else { pc + 1 }),
        },
        Op::JumpIfNotIn { var_idx, values, target } => match s.vars[var_idx as int] {
            None => Step::Fail(VmError::VariableNotSet(var_idx)),
            Some(v) => Step::Next(s, if !any_matches(v, values) { target as nat } else { pc + 1 }),
        },
        Op::LoopStart { var_idx, count, end_pc } => {
            let c: Result<u64, VmError> = match count {
                LoopCount::Fixed(n) => Ok(n as u64),
                LoopCount::Ref(vi) => match s.vars[vi as int] {
                    Some(v) => match json_as_size(v) {
                        Some(n) => Ok(n),
                        None => Err(VmError::InvalidLoopCount),
                    },
                    None => Err(VmError::InvalidLoopCount),
                },
                LoopCount::UntilEof => Ok(u64::MAX),
            };
            match c {
                Err(e) => Step::Fail(e),
                // No element to read: the body is skipped and the array stays empty.
                Ok(c) => if c == 0 || (c == u64::MAX && s.offset >= d.len()) {
                    Step::Next(
                        VmState {
                            loops: s.loops.push(LoopModel { current: 0, count: 0, start_pc: pc + 1, items: Seq::empty() }),
                            vars: s.vars.update(var_idx as int, None),
                            ..s
                        },
                        end_pc as nat,
                    )
                } else {
                    Step::Next(
                        VmState {
                            loops: s.loops.push(LoopModel { current: 0, count: c, start_pc: pc + 1, items: Seq::empty() }),
                            vars: s.vars.update(var_idx as int, None),
                            frames: s.frames.push(empty_frame()),
                            ..s
                        },
                        pc + 1,
                    )
                },
            }
        },
        Op::LoopNext => if s.loops.len() == 0 {
            Step::Fail(VmError::LoopNextWithoutLoop)
        } else if s.frames.len() == 0 {
            Step::Fail(VmError::MissingElementFrame)
        } else if s.loops.last().current == u64::MAX {
            Step::Stuck
        } else {
            let ls = s.loops.last();
            let f = s.frames.last();
            let current = (ls.current + 1) as u64;
            let ls2 = LoopModel { current, items: ls.items.push(loop_item(f.object)), ..ls };
            let cont = if ls.count == u64::MAX { s.offset < d.len() } else { current < ls.count };
            let s2 = VmState { loops: s.loops.update(s.loops.len() - 1, ls2), frames: s.frames.drop_last(), ..s };
            if cont {
                Step::Next(VmState { frames: s2.frames.push(empty_frame()), ..s2 }, ls.start_pc)
            } else {
                Step::Next(s2, pc + 1)
            }
        },
        Op::StoreArray { name_idx } => if s.loops.len() == 0 {
            Step::Fail(VmError::StoreArrayWithoutLoop)
        } else {
            let ls = s.loops.last();
            Step::Next(set_scope(VmState { loops: s.loops.drop_last(), ..s }, strings[name_idx as int], Json::Array(ls.items)), pc + 1)
        },
        Op::StoreVar { .. } => Step::Next(s, pc + 1),
    }
}

/// The outcome of running from `pc` in at most `fuel` steps: the top-level
/// object once `pc` leaves the program, an error, or `None` when the steps
/// run out or the machine gets stuck.
pub open spec fn run_within(ops: Seq<Op>, strings: Seq<Seq<char>>, d: Seq<u8>, s: VmState, pc: nat, fuel: nat) -> Option<Result<Json, VmError>>
    decreases fuel,
{
    if pc >= ops.len() {
        Some(Ok(Json::Object(s.result)))
    } else if fuel == 0 {
        None
    } else {
        match vm_step(ops, strings, d, s, pc) {
            Step::Fail(e) => Some(Err(e)),
            Step::Stuck => None,
            Step::Next(s2, pc2) => run_within(ops, strings, d, s2, pc2, (fuel - 1) as nat),
        }
    }
}

struct Frame {
    name: Option<String>,
    object: Vec<(String, JsonValue)>,
}

struct LoopState {
    current: u64,
    count: u64,
    start_pc: usize,
    items: Vec<JsonValue>,
}

pub open spec fn opt_json(v: Option<JsonValue>) -> Option<Json> {
    match v {
        Some(x) => Some(x@),
        None => None,
    }
}

pub open spec fn opt_text(v: Option<String>) -> Option<Seq<char>> {
    match v {
        Some(x) => Some(x@),
        None => None,
    }
}

spec fn frame_model(f: Frame) -> FrameModel {
    FrameModel { name: opt_text(f.name), object: entries_view(f.object@) }
}

spec fn loop_model(l: LoopState) -> LoopModel {
    LoopModel { current: l.current, count: l.count, start_pc: l.start_pc as nat, items: values_view(l.items@) }
}

/// A run of a compiled program over one payload.
pub struct VmParser<'a> {
    data: &'a [u8],
    offset: usize,
    program: &'a BytecodeProgram,
    vars: Vec<Option<JsonValue>>,
    frames: Vec<Frame>,
    loop_stack: Vec<LoopState>,
    result: Vec<(String, JsonValue)>,
}

impl<'a> VmParser<'a> {
    /// The machine's state.
    pub closed spec fn state(&self) -> VmState {
        VmState {
            offset: self.offset as nat,
            vars: self.vars@.map_values(|v: Option<JsonValue>| opt_json(v)),
            frames: self.frames@.map_values(|f: Frame| frame_model(f)),
            loops: self.loop_stack@.map_values(|l: LoopState| loop_model(l)),
            result: entries_view(self.result@),
        }
    }

    pub closed spec fn data_view(&self) -> Seq<u8> {
        self.data@
    }

    pub closed spec fn program_ops(&self) -> Seq<Op> {
        ops_of(self.program.instructions@)
    }

    pub closed spec fn program_strings(&self) -> Seq<Seq<char>> {
        strings_of(self.program.string_table@)
    }

    /// The machine can run: its program is well formed, it has one slot
    /// per program variable, and its offset is inside the data.
    pub closed spec fn ready(&self) -> bool {
        &&& self.program.well_formed()
        &&& self.vars@.len() == self.program.num_vars
        &&& self.offset <= self.data@.len()
    }

    /// A machine at the start of `data`, every variable unset, no frame,
    /// no loop, an empty top-level object.
    pub fn new(data: &'a [u8], program: &'a BytecodeProgram) -> (r: Self)
        ensures
            r.state() == (VmState {
                offset: 0,
                vars: Seq::new(program.num_vars as nat, |i: int| None::<Json>),
                frames: Seq::empty(),
                loops: Seq::empty(),
                result: Seq::empty(),
            }),
            r.data_view() == data@,
            r.program_ops() == ops_of(program.instructions@),
            r.program_strings() == strings_of(program.string_table@),
            program.well_formed() ==> r.ready(),
    {
        let mut vars: Vec<Option<JsonValue>> = Vec::new();
        let mut i: usize = 0;
        while i < program.num_vars
            invariant
                i <= program.num_vars,
                vars@.len() == i,
                forall|j: int| 0 <= j < i ==> vars@[j] is None,
            decreases program.num_vars - i,
        {
            vars.push(None);
            i = i + 1;
        }
        let r = VmParser {
            data,
            offset: 0,
            program,
            vars,
            frames: Vec::new(),
            loop_stack: Vec::new(),
            result: Vec::new(),
        };
        assert(r.state().vars =~= Seq::new(program.num_vars as nat, |i: int| None::<Json>));
        assert(r.state().frames =~= Seq::<FrameModel>::empty());
        assert(r.state().loops =~= Seq::<LoopModel>::empty());
        assert(r.state().result =~= Seq::<(Seq<char>, Json)>::empty());
        r
    }

    spec fn same_run(&self, other: &Self) -> bool {
        &&& self.data == other.data
        &&& self.program == other.program
    }

    fn set_current_scope(&mut self, name: String, value: JsonValue)
        ensures
            final(self).state() == set_scope(old(self).state(), name@, value@),
            final(self).same_run(old(self)),
            final(self).vars@.len() == old(self).vars@.len(),
            final(self).offset == old(self).offset,
    {
        let ghost s0 = self.state();
        let ghost nv = name@;
        let ghost vv = value@;
        if self.frames.len() > 0 {
            let mut f = self.frames.pop().unwrap();
            let ghost f0 = frame_model(f);
            proof { assert(f0 == s0.frames.last()); }
            obj_set(&mut f.object, name, value);
            let ghost f1 = frame_model(f);
            self.frames.push(f);
            proof {
                assert(f1 == FrameModel { object: obj_insert(f0.object, nv, vv), ..f0 });
                assert(self.state().frames =~= s0.frames.update(s0.frames.len() - 1, f1));
            }
        } else {
            obj_set(&mut self.result, name, value);
        }
    }

    fn add_to_current_scope(&mut self, name: Option<String>, value: JsonValue)
        ensures
            final(self).state() == add_scope(old(self).state(), opt_text(name), value@),
            final(self).same_run(old(self)),
            final(self).vars@.len() == old(self).vars@.len(),
            final(self).offset == old(self).offset,
    {
        let ghost s0 = self.state();
        let ghost nv = opt_text(name);
        let ghost vv = value@;
        if self.frames.len() > 0 {
            let mut f = self.frames.pop().unwrap();
            let ghost f0 = frame_model(f);
            proof { assert(f0 == s0.frames.last()); }
            Self::merge_into(&mut f.object, name, value);
            let ghost f1 = frame_model(f);
            self.frames.push(f);
            proof {
                assert(f1 == FrameModel { object: merge_named(f0.object, nv, vv), ..f0 });
                assert(self.state().frames =~= s0.frames.update(s0.frames.len() - 1, f1));
            }
        } else {
            Self::merge_into(&mut self.result, name, value);
        }
    }

    fn merge_into(o: &mut Vec<(String, JsonValue)>, name: Option<String>, value: JsonValue)
        ensures
            entries_view(final(o)@) == merge_named(entries_view(old(o)@), opt_text(name), value@),
    {
        match name {
            Some(n) => obj_set(o, n, value),
            None => match value {
                JsonValue::Object(entries) => {
                    proof { crate::json::lemma_object_view(entries); }
                    obj_merge_into(o, entries);
                },
                _ => {},
            },
        }
    }

    fn resolve_length(&self, vl: &VarLength) -> (r: Result<u64, VmError>)
        requires
            self.ready(),
            vl matches VarLength::Ref(v) ==> v < self.vars@.len(),
        ensures
            r == length_of(self.state(), *vl, self.data@.len()),
    {
        match vl {
            VarLength::Fixed(n) => Ok(*n as u64),
            VarLength::Ref(var_idx) => match &self.vars[*var_idx] {
                Some(v) => match crate::json::as_size(v) {
                    Some(n) => Ok(n),
                    None => Err(VmError::InvalidLength),
                },
                None => Err(VmError::InvalidLength),
            },
            VarLength::Remaining => Ok((self.data.len() - self.offset) as u64),
        }
    }
}

fn value_matches_exec(a: &JsonValue, b: &JumpValue) -> (r: bool)
    ensures
        r == value_matches(a@, b@),
{
    match b {
        JumpValue::Int(i) => match crate::json::as_i64(a) {
            Some(x) => x == *i,
            None => match crate::json::as_u64(a) {
                Some(x) => {
                    let w: i64 = if x > 0x7fff_ffff_ffff_ffff {
                        ((x - 0x8000_0000_0000_0000) as i64) - 0x7fff_ffff_ffff_ffff - 1
                    } else {
                        x as i64
                    };
                    w == *i
                },
                None => false,
            },
        },
        JumpValue::UInt(u) => match crate::json::as_u64(a) {
            Some(x) => x == *u,
            None => match crate::json::as_i64(a) {
                Some(x) => {
                    let w: u64 = if x < 0 {
                        ((x + 0x7fff_ffff_ffff_ffff + 1) as u64) + 0x8000_0000_0000_0000
                    } else {
                        x as u64
                    };
                    w == *u
                },
                None => false,
            },
        },
        JumpValue::Float(f) => match a {
            JsonValue::Number(n) => f64_equal(number_to_f64(*n), *f),
            _ => false,
        },
        JumpValue::Str(s) => match a {
            JsonValue::String(t) => crate::json::compare_keys(t.as_str(), s.as_str()) == crate::json::KeyOrder::Equal,
            _ => false,
        },
    }
}

fn any_matches_exec(a: &JsonValue, bs: &Vec<JumpValue>) -> (r: bool)
    ensures
        r == any_matches(a@, crate::bytecode::jump_consts(bs@)),
{
    let ghost cs = crate::bytecode::jump_consts(bs@);
    let mut i: usize = 0;
    while i < bs.len()
        invariant
            i <= bs@.len(),
            cs == crate::bytecode::jump_consts(bs@),
            forall|j: int| 0 <= j < i ==> !value_matches(a@, #[trigger] cs[j]),
        decreases bs@.len() - i,
    {
        if value_matches_exec(a, &bs[i]) {
            assert(value_matches(a@, cs[i as int]));
            return true;
        }
        i = i + 1;
    }
    false
}

impl<'a> VmParser<'a> {
    /// Whether a payload holds the program's signature bytes at its
    /// offset; a program without signature accepts every payload.
    #[verifier::loop_isolation(false)]
    pub fn check_signature(data: &[u8], program: &BytecodeProgram) -> (r: bool)
        requires
            program.signature matches Some(sig) ==> sig.offset + sig.bytes@.len() <= usize::MAX,
        ensures
            r == match program.signature {
                Some(sig) => data@.len() >= sig.offset + sig.bytes@.len()
                    && data@.subrange(sig.offset as int, sig.offset + sig.bytes@.len()) == sig.bytes@,
                None => true,
            },
    {
        match &program.signature {
            Some(sig) => {
                if data.len() < sig.offset + sig.bytes.len() {
                    return false;
                }
                let mut i: usize = 0;
                while i < sig.bytes.len()
                    invariant
                        i <= sig.bytes@.len(),
                        sig.offset + sig.bytes@.len() <= data@.len(),
                        forall|j: int| 0 <= j < i ==> data@[sig.offset + j] == sig.bytes@[j],
                    decreases sig.bytes@.len() - i,
                {
                    if data[sig.offset + i] != sig.bytes[i] {
                        assert(data@.subrange(sig.offset as int, sig.offset + sig.bytes@.len())[i as int] != sig.bytes@[i as int]);
                        return false;
                    }
                    i = i + 1;
                }
                assert(data@.subrange(sig.offset as int, sig.offset + sig.bytes@.len()) =~= sig.bytes@);
                true
            },
            None => true,
        }
    }
}

pub open spec fn step_matches(st: Step, r: Result<usize, VmError>, after: VmState) -> bool {
    match st {
        Step::Next(s2, pc2) => r is Ok && r->Ok_0 as nat == pc2 && after == s2,
        Step::Fail(e) => r == Err::<usize, VmError>(e),
        Step::Stuck => false,
    }
}

impl<'a> VmParser<'a> {
    spec fn step_spec(&self, pc: usize) -> Step {
        vm_step(self.program_ops(), self.program_strings(), self.data@, self.state(), pc as nat)
    }

    proof fn lemma_op_wf(&self, pc: usize)
        requires
            self.ready(),
            pc < self.program_ops().len(),
        ensures
            crate::bytecode::op_well_formed(self.program_ops()[pc as int], self.program_strings().len(), self.vars@.len(), self.program_ops().len()),
            self.program_ops()[pc as int] == self.program.instructions@[pc as int]@,
    {
        assert(crate::bytecode::op_well_formed(ops_of(self.program.instructions@)[pc as int], self.program.string_table@.len(), self.program.num_vars as nat, self.program.instructions@.len()));
    }

    /// Stores a value read at the current offset; `width` bytes were read.
    fn store_value(&mut self, name_idx: usize, var_idx: usize, v: JsonValue, width: usize)
        requires
            old(self).ready(),
            name_idx < old(self).program_strings().len(),
            var_idx < old(self).vars@.len(),
            old(self).offset + width <= old(self).data@.len(),
        ensures
            final(self).state() == store_read(old(self).state(), old(self).program_strings()[name_idx as int], var_idx, v@, width as nat),
            final(self).ready(),
            final(self).same_run(old(self)),
    {
        let program = self.program;
        let _n = self.data.len();
        let field_name = program.string_table[name_idx].clone();
        let ghost s0 = self.state();
        let ghost vv = v@;
        let c = deep_clone(&v);
        self.set_current_scope(field_name, c);
        let ghost s1 = self.state();
        self.vars.set(var_idx, Some(v));
        self.offset = self.offset + width;
        proof {
            assert(self.state().vars =~= s1.vars.update(var_idx as int, Some(vv)));
        }
    }

    fn step_read_scalar(&mut self, pc: usize, name_idx: usize, var_idx: usize, scalar_type: ScalarType, endian: Endian) -> (r: Result<usize, VmError>)
        requires
            old(self).ready(),
            pc < old(self).program_ops().len(),
            old(self).program_ops()[pc as int] == (Op::ReadScalar { name_idx, var_idx, scalar_type, endian }),
        ensures
            step_matches(old(self).step_spec(pc), r, final(self).state()),
            final(self).ready(),
            final(self).same_run(old(self)),
    {
        reveal(vm_step);
        let _ninstr = self.program.instructions.len();
        proof { self.lemma_op_wf(pc); }
        let w = scalar_width_exec(scalar_type);
        let n = self.data.len();
        if w == 1 {
            if self.offset >= n {
                return Err(VmError::EndOfDataReadingU8);
            }
        } else if w > n - self.offset {
            return Err(VmError::EndOfData { need: w as u64, remaining: n - self.offset });
        }
        let v = decode_scalar(self.data, self.offset, scalar_type, endian);
        self.store_value(name_idx, var_idx, v, w);
        Ok(pc + 1)
    }

    fn step_read_run(&mut self, pc: usize, name_idx: usize, var_idx: usize, length: VarLength, encoding: Option<StringEncoding>) -> (r: Result<usize, VmError>)
        requires
            old(self).ready(),
            pc < old(self).program_ops().len(),
            match encoding {
                None => old(self).program_ops()[pc as int] == (Op::ReadBytes { name_idx, var_idx, length }),
                Some(e) => old(self).program_ops()[pc as int] == (Op::ReadString { name_idx, var_idx, length, encoding: e }),
            },
            !(old(self).step_spec(pc) is Stuck),
        ensures
            step_matches(old(self).step_spec(pc), r, final(self).state()),
            final(self).ready(),
            final(self).same_run(old(self)),
    {
        reveal(vm_step);
        let _ninstr = self.program.instructions.len();
        proof { self.lemma_op_wf(pc); }
        let len = match self.resolve_length(&length) {
            Ok(l) => l,
            Err(e) => return Err(e),
        };
        let n = self.data.len();
        let remaining = n - self.offset;
        if len > remaining as u64 {
            return Err(VmError::EndOfData { need: len, remaining });
        }
        let l = len as usize;
        let bytes = &self.data[self.offset..self.offset + l];
        let text = match encoding {
            None => hex_encode(bytes),
            Some(e) => decode_text(bytes, e),
        };
        self.store_value(name_idx, var_idx, JsonValue::String(text), l);
        Ok(pc + 1)
    }

    fn step_pop_frame(&mut self, pc: usize) -> (r: Result<usize, VmError>)
        requires
            old(self).ready(),
            pc < old(self).program_ops().len(),
            old(self).program_ops()[pc as int] == Op::PopFrame,
        ensures
            step_matches(old(self).step_spec(pc), r, final(self).state()),
            final(self).ready(),
            final(self).same_run(old(self)),
    {
        reveal(vm_step);
        let _ninstr = self.program.instructions.len();
        let ghost s0 = self.state();
        match self.frames.pop() {
            None => Err(VmError::PopFrameWithoutFrame),
            Some(frame) => {
                let ghost fm = frame_model(frame);
                proof {
                    assert(fm == s0.frames.last());
                    assert(self.state().frames =~= s0.frames.drop_last());
                    assert(self.state() == (VmState { frames: s0.frames.drop_last(), ..s0 }));
                }
                let obj = JsonValue::Object(frame.object);
                proof { crate::json::lemma_object_view(frame.object); }
                self.add_to_current_scope(frame.name, obj);
                Ok(pc + 1)
            },
        }
    }

    fn step_loop_start(&mut self, pc: usize, var_idx: usize, count: LoopCount, end_pc: usize) -> (r: Result<usize, VmError>)
        requires
            old(self).ready(),
            pc < old(self).program_ops().len(),
            old(self).program_ops()[pc as int] == (Op::LoopStart { var_idx, count, end_pc }),
        ensures
            step_matches(old(self).step_spec(pc), r, final(self).state()),
            final(self).ready(),
            final(self).same_run(old(self)),
    {
        reveal(vm_step);
        let _ninstr = self.program.instructions.len();
        proof { self.lemma_op_wf(pc); }
        let ghost s0 = self.state();
        let c: u64 = match count {
            LoopCount::Fixed(n) => n as u64,
            LoopCount::Ref(vi) => match &self.vars[vi] {
                Some(v) => match crate::json::as_size(v) {
                    Some(n) => n,
                    None => return Err(VmError::InvalidLoopCount),
                },
                None => return Err(VmError::InvalidLoopCount),
            },
            LoopCount::UntilEof => u64::MAX,
        };
        if c == 0 || (c == u64::MAX && self.offset >= self.data.len()) {
            let items: Vec<JsonValue> = Vec::new();
            assert(values_view(items@) =~= Seq::<Json>::empty());
            self.loop_stack.push(LoopState { current: 0, count: 0, start_pc: pc + 1, items });
            self.vars.set(var_idx, None);
            proof {
                assert(self.state().vars =~= s0.vars.update(var_idx as int, None));
                assert(self.state().loops =~= s0.loops.push(LoopModel { current: 0, count: 0, start_pc: (pc + 1) as nat, items: Seq::empty() }));
            }
            return Ok(end_pc);
        }
        let items: Vec<JsonValue> = Vec::new();
        assert(values_view(items@) =~= Seq::<Json>::empty());
        let object: Vec<(String, JsonValue)> = Vec::new();
        assert(entries_view(object@) =~= Seq::<(Seq<char>, Json)>::empty());
        self.loop_stack.push(LoopState { current: 0, count: c, start_pc: pc + 1, items });
        self.vars.set(var_idx, None);
        self.frames.push(Frame { name: None, object });
        proof {
            assert(self.state().vars =~= s0.vars.update(var_idx as int, None));
            assert(self.state().loops =~= s0.loops.push(LoopModel { current: 0, count: c, start_pc: (pc + 1) as nat, items: Seq::empty() }));
            assert(self.state().frames =~= s0.frames.push(empty_frame()));
        }
        Ok(pc + 1)
    }

    fn step_loop_next(&mut self, pc: usize) -> (r: Result<usize, VmError>)
        requires
            old(self).ready(),
            pc < old(self).program_ops().len(),
            old(self).program_ops()[pc as int] == Op::LoopNext,
            !(old(self).step_spec(pc) is Stuck),
        ensures
            step_matches(old(self).step_spec(pc), r, final(self).state()),
            final(self).ready(),
            final(self).same_run(old(self)),
    {
        reveal(vm_step);
        let _ninstr = self.program.instructions.len();
        let ghost s0 = self.state();
        if self.loop_stack.len() == 0 {
            return Err(VmError::LoopNextWithoutLoop);
        }
        let mut ls = self.loop_stack.pop().unwrap();
        let ghost lm = loop_model(ls);
        proof { assert(lm == s0.loops.last()); }
        let elem_frame = match self.frames.pop() {
            Some(f) => f,
            None => {
                self.loop_stack.push(ls);
                proof { assert(self.state().loops =~= s0.loops); }
                return Err(VmError::MissingElementFrame);
            },
        };
        let ghost fm = frame_model(elem_frame);
        proof { assert(fm == s0.frames.last()); }
        let item = if elem_frame.object.len() == 1 {
            let mut obj = elem_frame.object;
            let (_k, v) = obj.pop().unwrap();
            v
        } else {
            proof { crate::json::lemma_object_view(elem_frame.object); }
            JsonValue::Object(elem_frame.object)
        };
        let ghost iv = item@;
        proof { assert(iv == loop_item(fm.object)); }
        ls.items.push(item);
        ls.current = ls.current + 1;
        let should_continue = if ls.count == u64::MAX {
            self.offset < self.data.len()
        } else {
            ls.current < ls.count
        };
        let start_pc = ls.start_pc;
        let ghost lm2 = loop_model(ls);
        self.loop_stack.push(ls);
        proof {
            assert(lm2 == LoopModel { current: (lm.current + 1) as u64, items: lm.items.push(iv), ..lm }) by {
                assert(values_view(ls.items@) =~= values_view(old(self).loop_stack@.last().items@).push(iv));
            }
            assert(self.state().loops =~= s0.loops.update(s0.loops.len() - 1, lm2));
            assert(self.state().frames =~= s0.frames.drop_last());
        }
        if should_continue {
            let object: Vec<(String, JsonValue)> = Vec::new();
            assert(entries_view(object@) =~= Seq::<(Seq<char>, Json)>::empty());
            self.frames.push(Frame { name: None, object });
            proof {
                assert(self.state().frames =~= s0.frames.drop_last().push(empty_frame()));
            }
            Ok(start_pc)
        } else {
            Ok(pc + 1)
        }
    }

    fn step_store_array(&mut self, pc: usize, name_idx: usize) -> (r: Result<usize, VmError>)
        requires
            old(self).ready(),
            pc < old(self).program_ops().len(),
            old(self).program_ops()[pc as int] == (Op::StoreArray { name_idx }),
        ensures
            step_matches(old(self).step_spec(pc), r, final(self).state()),
            final(self).ready(),
            final(self).same_run(old(self)),
    {
        reveal(vm_step);
        let _ninstr = self.program.instructions.len();
        proof { self.lemma_op_wf(pc); }
        let ghost s0 = self.state();
        let program = self.program;
        let field_name = program.string_table[name_idx].clone();
        match self.loop_stack.pop() {
            None => Err(VmError::StoreArrayWithoutLoop),
            Some(ls) => {
                proof {
                    assert(loop_model(ls) == s0.loops.last());
                    assert(self.state().loops =~= s0.loops.drop_last());
                    assert(self.state() == (VmState { loops: s0.loops.drop_last(), ..s0 }));
                    crate::json::lemma_array_view(ls.items);
                }
                let arr = JsonValue::Array(ls.items);
                self.set_current_scope(field_name, arr);
                Ok(pc + 1)
            },
        }
    }
}

impl<'a> VmParser<'a> {
    /// One step of the machine at `pc`.
    fn step(&mut self, pc: usize) -> (r: Result<usize, VmError>)
        requires
            old(self).ready(),
            pc < old(self).program_ops().len(),
            !(old(self).step_spec(pc) is Stuck),
        ensures
            step_matches(old(self).step_spec(pc), r, final(self).state()),
            final(self).ready(),
            final(self).same_run(old(self)),
    {
        reveal(vm_step);
        let _ninstr = self.program.instructions.len();
        proof { self.lemma_op_wf(pc); }
        let program = self.program;
        match &program.instructions[pc] {
            Instruction::ReadScalar { name_idx, var_idx, scalar_type, endian } => {
                self.step_read_scalar(pc, *name_idx, *var_idx, *scalar_type, *endian)
            },
            Instruction::ReadBytes { name_idx, var_idx, length } => {
                self.step_read_run(pc, *name_idx, *var_idx, *length, None)
            },
            Instruction::ReadString { name_idx, var_idx, length, encoding } => {
                self.step_read_run(pc, *name_idx, *var_idx, *length, Some(*encoding))
            },
            Instruction::PushFrame { name_idx } => {
                let ghost s0 = self.state();
                let name = match name_idx {
                    Some(i) => Some(program.string_table[*i].clone()),
                    None => None,
                };
                let object: Vec<(String, JsonValue)> = Vec::new();
                assert(entries_view(object@) =~= Seq::<(Seq<char>, Json)>::empty());
                let f = Frame { name, object };
                proof {
                    assert(frame_model(f) == FrameModel {
                        name: match *name_idx { Some(i) => Some(self.program_strings()[i as int]), None => None },
                        object: Seq::empty(),
                    });
                }
                self.frames.push(f);
                proof { assert(self.state().frames =~= s0.frames.push(frame_model(f))); }
                Ok(pc + 1)
            },
            Instruction::PopFrame => self.step_pop_frame(pc),
            Instruction::Jump { target } => Ok(*target),
            Instruction::JumpIfEq { var_idx, value, target } => match &self.vars[*var_idx] {
                Some(v) => if value_matches_exec(v, value) { Ok(*target) } else { Ok(pc + 1) },
                None => Err(VmError::VariableNotSet(*var_idx)),
            },
            Instruction::JumpIfNe { var_idx, value, target } => match &self.vars[*var_idx] {
                Some(v) => if !value_matches_exec(v, value) { Ok(*target) } else { Ok(pc + 1) },
                None => Err(VmError::VariableNotSet(*var_idx)),
            },
            Instruction::JumpIfIn { var_idx, values, target } => match &self.vars[*var_idx] {
                Some(v) => if any_matches_exec(v, values) { Ok(*target) } else { Ok(pc + 1) },
                None => Err(VmError::VariableNotSet(*var_idx)),
            },
            Instruction::JumpIfNotIn { var_idx, values, target } => match &self.vars[*var_idx] {
                Some(v) => if !any_matches_exec(v, values) { Ok(*target) } else { Ok(pc + 1) },
                None => Err(VmError::VariableNotSet(*var_idx)),
            },
            Instruction::LoopStart { var_idx, count, end_pc } => self.step_loop_start(pc, *var_idx, *count, *end_pc),
            Instruction::LoopNext => self.step_loop_next(pc),
            Instruction::StoreArray { name_idx } => self.step_store_array(pc, *name_idx),
            Instruction::StoreVar { .. } => Ok(pc + 1),
        }
    }

    /// The outcome of at most `fuel` steps from the machine's current state.
    pub open spec fn outcome_within(&self, fuel: nat) -> Option<Result<Json, VmError>> {
        run_within(self.program_ops(), self.program_strings(), self.data_view(), self.state(), 0, fuel)
    }

    /// The run from the current state ends, with a result or an error,
    /// without the machine getting stuck.
    pub open spec fn run_ends(&self) -> bool {
        exists|fuel: nat| self.outcome_within(fuel) is Some
    }

    pub open spec fn run_outcome(&self) -> Result<Json, VmError> {
        self.outcome_within(choose|fuel: nat| self.outcome_within(fuel) is Some)->0
    }

    /// Runs the program from the first instruction until the instruction
    /// counter leaves the program; gives the top-level object, or the first
    /// error. Only runs that end are admitted: a loop until the end of the
    /// data whose body reads nothing would run for ever.
    pub fn run(&mut self) -> (r: Result<JsonValue, VmError>)
        requires
            old(self).ready(),
            old(self).run_ends(),
        ensures
            match old(self).run_outcome() {
                Ok(j) => r is Ok && r->Ok_0@ == j,
                Err(e) => r == Err::<JsonValue, VmError>(e),
            },
    {
        let ghost fuel = choose|fuel: nat| self.outcome_within(fuel) is Some;
        let ghost ops = self.program_ops();
        let ghost strings = self.program_strings();
        let ghost d = self.data@;
        let ghost goal = self.outcome_within(fuel);
        assert(goal is Some && goal->0 == old(self).run_outcome());
        let mut pc: usize = 0;
        let ghost mut left: nat = fuel;
        let n = self.program.instructions.len();
        while pc < n
            invariant
                self.ready(),
                n == ops.len(),
                ops == self.program_ops(),
                strings == self.program_strings(),
                d == self.data@,
                goal is Some,
                goal->0 == old(self).run_outcome(),
                run_within(ops, strings, d, self.state(), pc as nat, left) == goal,
            decreases left,
        {
            let ghost before = self.state();
            let ghost st = self.step_spec(pc);
            assert(left > 0);
            assert(run_within(ops, strings, d, before, pc as nat, left) == match st {
                Step::Fail(e) => Some(Err(e)),
                Step::Stuck => None,
                Step::Next(s2, pc2) => run_within(ops, strings, d, s2, pc2, (left - 1) as nat),
            });
            assert(!(st is Stuck));
            match self.step(pc) {
                Ok(next) => {
                    pc = next;
                    proof { left = (left - 1) as nat; }
                },
                Err(e) => {
                    assert(goal == Some(Err::<Json, VmError>(e)));
                    return Err(e);
                },
            }
        }
        let entries = clone_entries(&self.result);
        proof { crate::json::lemma_object_view(entries); }
        Ok(JsonValue::Object(entries))
    }

    /// Runs the program for at most `limit` steps: `None` when the steps run
    /// out or the machine would get stuck, else the outcome of `run`.
    pub fn run_bounded(&mut self, limit: u64) -> (r: Option<Result<JsonValue, VmError>>)
        requires
            old(self).ready(),
        ensures
            match old(self).outcome_within(limit as nat) {
                None => r is None,
                Some(Ok(j)) => r matches Some(Ok(v)) && v@ == j,
                Some(Err(e)) => r == Some(Err::<JsonValue, VmError>(e)),
            },
    {
        let ghost ops = self.program_ops();
        let ghost strings = self.program_strings();
        let ghost d = self.data@;
        let ghost goal = self.outcome_within(limit as nat);
        let mut pc: usize = 0;
        let mut left: u64 = limit;
        let n = self.program.instructions.len();
        while pc < n
            invariant
                self.ready(),
                n == ops.len(),
                ops == self.program_ops(),
                strings == self.program_strings(),
                d == self.data@,
                goal == old(self).outcome_within(limit as nat),
                run_within(ops, strings, d, self.state(), pc as nat, left as nat) == goal,
            decreases left,
        {
            let ghost before = self.state();
            let ghost st = self.step_spec(pc);
            if left == 0 {
                assert(goal is None);
                return None;
            }
            assert(run_within(ops, strings, d, before, pc as nat, left as nat) == match st {
                Step::Fail(e) => Some(Err(e)),
                Step::Stuck => None,
                Step::Next(s2, pc2) => run_within(ops, strings, d, s2, pc2, (left - 1) as nat),
            });
            if self.would_get_stuck(pc) {
                assert(goal is None);
                return None;
            }
            match self.step(pc) {
                Ok(next) => {
                    pc = next;
                    left = left - 1;
                },
                Err(e) => {
                    assert(goal == Some(Err::<Json, VmError>(e)));
                    return Some(Err(e));
                },
            }
        }
        let entries = clone_entries(&self.result);
        proof { crate::json::lemma_object_view(entries); }
        Some(Ok(JsonValue::Object(entries)))
    }

    /// Whether the step at `pc` would get the machine stuck.
    fn would_get_stuck(&self, pc: usize) -> (r: bool)
        requires
            self.ready(),
            pc < self.program_ops().len(),
        ensures
            r == (self.step_spec(pc) is Stuck),
    {
        reveal(vm_step);
        proof { self.lemma_op_wf(pc); }
        let n = self.data.len();
        match &self.program.instructions[pc] {
            Instruction::ReadBytes { length, .. } | Instruction::ReadString { length, .. } => {
                match self.resolve_length(length) {
                    Ok(len) => self.offset as u64 > u64::MAX - len || (self.offset as u64 + len) as u128 > usize::MAX as u128,
                    Err(_) => false,
                }
            },
            Instruction::LoopNext => {
                self.loop_stack.len() > 0 && self.frames.len() > 0 && self.loop_stack[self.loop_stack.len() - 1].current == u64::MAX
            },
            _ => false,
        }
    }
}

// ---------------------------------------------------------------------
// More steps do not change an outcome

/// A run that ends within some number of steps ends the same way given more.
pub proof fn lemma_run_within_more_fuel(ops: Seq<Op>, strings: Seq<Seq<char>>, d: Seq<u8>, s: VmState, pc: nat, f1: nat, f2: nat)
    requires
        f1 <= f2,
        run_within(ops, strings, d, s, pc, f1) is Some,
    ensures
        run_within(ops, strings, d, s, pc, f2) == run_within(ops, strings, d, s, pc, f1),
    decreases f1,
{
    if pc < ops.len() && f1 > 0 {
        match vm_step(ops, strings, d, s, pc) {
            Step::Next(s2, pc2) => lemma_run_within_more_fuel(ops, strings, d, s2, pc2, (f1 - 1) as nat, (f2 - 1) as nat),
            _ => {},
        }
    }
}

impl<'a> VmParser<'a> {
    /// What a bounded run gives, when it gives an outcome, is the outcome
    /// of the unbounded run.
    pub proof fn lemma_bounded_run_agrees(&self, limit: nat)
        requires
            self.outcome_within(limit) is Some,
        ensures
            self.run_ends(),
            self.run_outcome() == self.outcome_within(limit)->0,
    {
        let f = choose|fuel: nat| self.outcome_within(fuel) is Some;
        let ops = self.program_ops();
        let strings = self.program_strings();
        if f <= limit {
            lemma_run_within_more_fuel(ops, strings, self.data@, self.state(), 0, f, limit);
        } else {
            lemma_run_within_more_fuel(ops, strings, self.data@, self.state(), 0, limit, f);
        }
    }
}

// ---------------------------------------------------------------------
// One packet

/// What running a compiled template on one payload comes to.
#[derive(Debug)]
pub enum PacketOutcome {
    /// The payload does not hold the program's signature.
    SignatureMismatch,
    /// The object the program read.
    Parsed(JsonValue),
    /// The error the machine stopped with.
    Failed(VmError),
    /// The machine neither ended nor stopped within the steps allowed.
    Unfinished,
}

/// The payload holds the program's signature, which ends within the
/// largest `usize`.
pub open spec fn signature_holds(data: Seq<u8>, program: BytecodeProgram) -> bool {
    match program.signature {
        Some(sig) => sig.offset + sig.bytes@.len() <= usize::MAX && data.len() >= sig.offset + sig.bytes@.len()
            && data.subrange(sig.offset as int, sig.offset + sig.bytes@.len()) == sig.bytes@,
        None => true,
    }
}

/// Runs a compiled template on one payload for at most `limit` steps:
/// payloads without the signature are skipped, others give the object read
/// or the machine's error.
pub fn run_packet(payload: &[u8], program: &BytecodeProgram, limit: u64) -> (r: PacketOutcome)
    requires
        program.well_formed(),
    ensures
        !signature_holds(payload@, *program) ==> r is SignatureMismatch,
        signature_holds(payload@, *program) ==> match run_within(
            ops_of(program.instructions@),
            strings_of(program.string_table@),
            payload@,
            crate::engines::start_state(program.num_vars as nat),
            0,
            limit as nat,
        ) {
            None => r is Unfinished,
            Some(Ok(j)) => r matches PacketOutcome::Parsed(v) && v@ == j,
            Some(Err(e)) => r == PacketOutcome::Failed(e),
        },
{
    let fits = match &program.signature {
        Some(sig) => sig.offset <= usize::MAX - sig.bytes.len(),
        None => true,
    };
    if !fits || !VmParser::check_signature(payload, program) {
        return PacketOutcome::SignatureMismatch;
    }
    let mut vm = VmParser::new(payload, program);
    proof {
        assert(vm.state() == crate::engines::start_state(program.num_vars as nat));
    }
    match vm.run_bounded(limit) {
        None => PacketOutcome::Unfinished,
        Some(Ok(v)) => PacketOutcome::Parsed(v),
        Some(Err(e)) => PacketOutcome::Failed(e),
    }
}

} // verus!
