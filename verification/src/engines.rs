//! The two parsing engines side by side: on templates made of scalar fields
//! and structures, running the compiled bytecode gives what the interpreter
//! gives, result or error; with arrays of scalars as well, it gives the
//! interpreter's result whenever there is one.

use vstd::prelude::*;
use crate::bytecode::{scalar_field_type, scalar_type_spec, Op, VarLength};
use crate::compiler::{
    compile_field_spec, compile_fields_spec, compile_template_spec, emit, first_index, intern, var_slot, CompState,
    CompileFailureOf,
};
use crate::json::Json;
use crate::parser::{parse_field_spec, parse_fields_spec, parse_template_spec, Input, ParseErrorOf, Run, SpecError};
use crate::scalar::scalar_width;
use crate::template::{Field, FieldType, ProtocolTemplate};
use crate::vm::{add_scope, run_within, store_read, vm_step, FrameModel, VmError, VmState};

verus! {

/// A field that both engines read in the same way: a scalar whose length,
/// where it has one, is written in the template, or a structure of such
/// fields. Conditions, arrays and lengths taken from other fields are not:
/// there the machine looks a name up in its variables, which hold the last
/// value read under that name anywhere, while the interpreter looks it up
/// among the fields parsed at the current level.
pub open spec fn plain_field(f: Field) -> bool
    decreases f, 0nat,
{
    match f {
        Field::Scalar { data_type, length, length_field, .. } => scalar_field_type(data_type) || length is Some
            || length_field is None,
        Field::Struct { fields, .. } => plain_fields(fields@, 0),
        _ => false,
    }
}

/// The fields `fs[i..]` are plain.
pub open spec fn plain_fields(fs: Seq<Field>, i: int) -> bool
    decreases fs, fs.len() - i,
{
    if i < 0 || i >= fs.len() {
        true
    } else {
        plain_field(fs[i]) && plain_fields(fs, i + 1)
    }
}

/// A field on which the machine gives what the interpreter gives whenever
/// the interpreter succeeds: a plain field, a structure of such fields, an
/// array of a fixed number of plain scalars, or an array of fixed-size
/// scalars read to the end of the data. Arrays part from this elsewhere: the
/// machine reads on where the interpreter stops at the end of the data, it
/// takes its count from a variable where the interpreter searches the fields
/// read at its level, and it keeps the fields of a structured element
/// without the structure's name.
pub open spec fn listed_field(f: Field) -> bool
    decreases f, 0nat,
{
    match f {
        Field::Scalar { .. } => plain_field(f),
        Field::Struct { fields, .. } => listed_fields(fields@, 0),
        Field::Array { element, count, until_eof, .. } => *element is Scalar && plain_field(*element) && if until_eof {
            scalar_field_type(element->Scalar_data_type)
        } else {
            count matches Some(c) && c < usize::MAX
        },
        _ => false,
    }
}

/// The fields `fs[i..]` are listed.
pub open spec fn listed_fields(fs: Seq<Field>, i: int) -> bool
    decreases fs, fs.len() - i,
{
    if i < 0 || i >= fs.len() {
        true
    } else {
        listed_field(fs[i]) && listed_fields(fs, i + 1)
    }
}

proof fn lemma_plain_listed(f: Field)
    requires
        plain_field(f),
    ensures
        listed_field(f),
    decreases f, 0nat,
{
    if let Field::Struct { fields, .. } = f {
        lemma_plain_fields_listed(fields@, 0);
    }
}

proof fn lemma_plain_fields_listed(fs: Seq<Field>, i: int)
    requires
        plain_fields(fs, i),
    ensures
        listed_fields(fs, i),
    decreases fs, fs.len() - i,
{
    if 0 <= i < fs.len() {
        lemma_plain_listed(fs[i]);
        lemma_plain_fields_listed(fs, i + 1);
    }
}

/// The object that a read stores into: the innermost frame's, or the
/// top-level result.
pub open spec fn scope(s: VmState) -> Seq<(Seq<char>, Json)> {
    if s.frames.len() > 0 {
        s.frames.last().object
    } else {
        s.result
    }
}

/// `s2` differs from `s` only in the innermost object, the offset and the
/// variables.
pub open spec fn outer_kept(s: VmState, s2: VmState) -> bool {
    &&& s2.frames.len() == s.frames.len()
    &&& s2.loops == s.loops
    &&& s.frames.len() > 0 ==> {
        &&& s2.frames.drop_last() == s.frames.drop_last()
        &&& s2.frames.last().name == s.frames.last().name
        &&& s2.result == s.result
    }
}

/// An interpreter error and a machine error that report the same thing.
pub open spec fn same_error(e: SpecError, v: VmError) -> bool {
    match e {
        ParseErrorOf::EndOfDataReadingU8 => v == VmError::EndOfDataReadingU8,
        ParseErrorOf::EndOfData { need, remaining } => v == (VmError::EndOfData { need: need as u64, remaining }),
        _ => false,
    }
}

/// The machine as `VmParser::new` sets it up for `n` variables.
pub open spec fn start_state(n: nat) -> VmState {
    VmState {
        offset: 0,
        vars: Seq::new(n, |i: int| None::<Json>),
        frames: Seq::empty(),
        loops: Seq::empty(),
        result: Seq::empty(),
    }
}

/// Compiling from `a` to `b` kept `a`'s instructions and strings in place.
pub open spec fn grows(a: CompState, b: CompState) -> bool {
    &&& a.ops.len() <= b.ops.len()
    &&& forall|k: int| 0 <= k < a.ops.len() ==> b.ops[k] == #[trigger] a.ops[k]
    &&& a.strings.len() <= b.strings.len()
    &&& forall|k: int| 0 <= k < a.strings.len() ==> b.strings[k] == #[trigger] a.strings[k]
}

/// From `st`'s end on, the program `ops` holds the instructions that
/// compiling on to `st2` added, and its string table `strings` holds all of
/// `st2`'s strings.
pub open spec fn holds(st: CompState, st2: CompState, ops: Seq<Op>, strings: Seq<Seq<char>>) -> bool {
    &&& st2.ops.len() <= ops.len()
    &&& forall|k: int| st.ops.len() <= k < st2.ops.len() ==> ops[k] == #[trigger] st2.ops[k]
    &&& st2.strings.len() <= strings.len()
    &&& forall|k: int| 0 <= k < st2.strings.len() ==> strings[k] == #[trigger] st2.strings[k]
}

/// Exactly `k` steps from instruction `pc`, each going on to a next
/// instruction: the state and instruction reached, or `None` when a step
/// fails or gets stuck, or the program is left before.
#[verifier::opaque]
pub open spec fn run_steps(ops: Seq<Op>, strings: Seq<Seq<char>>, d: Seq<u8>, s: VmState, pc: nat, k: nat) -> Option<(VmState, nat)>
    decreases k,
{
    if k == 0 {
        Some((s, pc))
    } else if pc >= ops.len() {
        None
    } else {
        match vm_step(ops, strings, d, s, pc) {
            crate::vm::Step::Next(s2, pc2) => run_steps(ops, strings, d, s2, pc2, (k - 1) as nat),
            _ => None,
        }
    }
}

proof fn lemma_steps_then(ops: Seq<Op>, strings: Seq<Seq<char>>, d: Seq<u8>, s: VmState, pc: nat, k1: nat, k2: nat)
    requires
        run_steps(ops, strings, d, s, pc, k1) is Some,
    ensures
        ({
            let mid = run_steps(ops, strings, d, s, pc, k1)->Some_0;
            run_steps(ops, strings, d, s, pc, k1 + k2) == run_steps(ops, strings, d, mid.0, mid.1, k2)
        }),
    decreases k1,
{
    reveal(run_steps);
    if k1 > 0 {
        match vm_step(ops, strings, d, s, pc) {
            crate::vm::Step::Next(s2, pc2) => {
                lemma_steps_then(ops, strings, d, s2, pc2, (k1 - 1) as nat, k2);
                assert((k1 + k2 - 1) as nat == (k1 - 1) as nat + k2);
            },
            _ => {},
        }
    }
}

proof fn lemma_steps_within(ops: Seq<Op>, strings: Seq<Seq<char>>, d: Seq<u8>, s: VmState, pc: nat, k: nat, fuel: nat)
    requires
        run_steps(ops, strings, d, s, pc, k) is Some,
    ensures
        ({
            let end = run_steps(ops, strings, d, s, pc, k)->Some_0;
            run_within(ops, strings, d, s, pc, fuel + k) == run_within(ops, strings, d, end.0, end.1, fuel)
        }),
    decreases k,
{
    reveal(run_steps);
    if k > 0 {
        match vm_step(ops, strings, d, s, pc) {
            crate::vm::Step::Next(s2, pc2) => {
                lemma_steps_within(ops, strings, d, s2, pc2, (k - 1) as nat, fuel);
                assert((fuel + k - 1) as nat == fuel + (k - 1) as nat);
            },
            _ => {},
        }
    }
}

/// A single step that goes on.
proof fn lemma_one_step(ops: Seq<Op>, strings: Seq<Seq<char>>, d: Seq<u8>, s: VmState, pc: nat, s2: VmState, pc2: nat)
    requires
        pc < ops.len(),
        vm_step(ops, strings, d, s, pc) == crate::vm::Step::Next(s2, pc2),
    ensures
        run_steps(ops, strings, d, s, pc, 1) == Some((s2, pc2)),
{
    reveal_with_fuel(run_steps, 2);
}

pub(crate) proof fn lemma_first_index_found(s: Seq<Seq<char>>, x: Seq<char>)
    ensures
        first_index(s, x) matches Some(i) ==> i < s.len() && s[i as int] == x,
    decreases s.len(),
{
    if s.len() > 0 && s[0] != x {
        let t = s.drop_first();
        lemma_first_index_found(t, x);
        if let Some(i) = first_index(t, x) {
            assert(s[(i + 1) as int] == t[i as int]);
        }
    }
}

proof fn lemma_intern(st: CompState, x: Seq<char>)
    ensures
        intern(st, x).1 < intern(st, x).0.strings.len(),
        intern(st, x).0.strings[intern(st, x).1 as int] == x,
        intern(st, x).0.ops == st.ops,
        grows(st, intern(st, x).0),
{
    lemma_first_index_found(st.strings, x);
}

proof fn lemma_field_grows(f: Field, st: CompState, dend: crate::template::Endian)
    requires
        listed_field(f),
        compile_field_spec(f, st, dend) is Ok,
    ensures
        grows(st, compile_field_spec(f, st, dend)->Ok_0),
    decreases f, 1nat,
{
    match f {
        Field::Scalar { name, .. } => {
            let st1 = var_slot(st, name@).0;
            lemma_intern(st1, name@);
            let st2a = intern(st1, name@).0;
            let st2 = compile_field_spec(f, st, dend)->Ok_0;
            assert(grows(st, st1));
            assert(st2.strings == st2a.strings && st2.ops.len() == st2a.ops.len() + 1);
            assert(forall|k: int| 0 <= k < st2a.ops.len() ==> st2.ops[k] == st2a.ops[k]);
            assert(grows(st2a, st2));
            assert(grows(st1, st2a));
            assert forall|k: int| 0 <= k < st.ops.len() implies st2.ops[k] == #[trigger] st.ops[k] by {
                assert(st2a.ops[k] == st1.ops[k]);
            }
            assert forall|k: int| 0 <= k < st.strings.len() implies st2.strings[k] == #[trigger] st.strings[k] by {
                assert(st2a.strings[k] == st1.strings[k]);
            }
        },
        Field::Struct { name, fields } => {
            let st1 = match name {
                Some(n) => intern(st, n@).0,
                None => st,
            };
            if let Some(n) = name {
                lemma_intern(st, n@);
            }
            let name_idx = match name {
                Some(n) => Some(intern(st, n@).1 as usize),
                None => None,
            };
            let stp = emit(st1, Op::PushFrame { name_idx });
            lemma_fields_grow(fields@, 0, stp, dend);
            let st3 = compile_fields_spec(fields@, 0, stp, dend)->Ok_0;
            let st2 = compile_field_spec(f, st, dend)->Ok_0;
            assert(st2 == emit(st3, Op::PopFrame));
            assert(grows(st, st1));
            assert forall|k: int| 0 <= k < st.ops.len() implies st2.ops[k] == #[trigger] st.ops[k] by {
                assert(stp.ops[k] == st1.ops[k]);
                assert(st3.ops[k] == stp.ops[k]);
                assert(st2.ops[k] == st3.ops[k]);
            }
            assert forall|k: int| 0 <= k < st.strings.len() implies st2.strings[k] == #[trigger] st.strings[k] by {
                assert(stp.strings[k] == st1.strings[k]);
                assert(st3.strings[k] == stp.strings[k]);
            }
        },
        Field::Array { .. } => {
            lemma_array_layout(f, st, dend);
        },
        _ => {},
    }
}

/// The compilation state at the start of the element of an array: its
/// name interned, its loop variable made, and the loop's first instruction
/// emitted.
spec fn array_body_start(f: Field, st: CompState) -> CompState {
    match f {
        Field::Array { name, .. } => {
            let st1 = intern(st, name@).0;
            let (st2, lv) = var_slot(st1, crate::compiler::loop_var_name());
            emit(st2, Op::LoopStart { var_idx: lv as usize, count: array_loop_count(f), end_pc: 0 })
        },
        _ => st,
    }
}

/// How many times the loop of a listed array runs: to the end of the data,
/// or its fixed count.
spec fn array_loop_count(f: Field) -> crate::bytecode::LoopCount {
    if f->Array_until_eof {
        crate::bytecode::LoopCount::UntilEof
    } else {
        crate::bytecode::LoopCount::Fixed(f->Array_count->0)
    }
}

/// The instructions of a listed array: the loop's start, the element's
/// read, the loop's next, and the store of the array under its name.
proof fn lemma_array_layout(f: Field, st: CompState, dend: crate::template::Endian)
    requires
        f is Array,
        listed_field(f),
        compile_field_spec(f, st, dend) is Ok,
    ensures
        ({
            let st2 = compile_field_spec(f, st, dend)->Ok_0;
            let pc = st.ops.len() as int;
            let st3 = array_body_start(f, st);
            let elem = *f->Array_element;
            let name = f->Array_name;
            let ani = intern(st, name@).1;
            let lv = var_slot(intern(st, name@).0, crate::compiler::loop_var_name()).1;
            &&& st3.ops.len() == pc + 1
            &&& compile_field_spec(elem, st3, dend) is Ok
            &&& compile_field_spec(elem, st3, dend)->Ok_0.ops.len() == pc + 2
            &&& st2.ops.len() == pc + 4
            &&& st2.ops[pc] == (Op::LoopStart {
                var_idx: lv as usize,
                count: array_loop_count(f),
                end_pc: (pc + 3) as usize,
            })
            &&& st2.ops[pc + 1] == compile_field_spec(elem, st3, dend)->Ok_0.ops[pc + 1]
            &&& st2.ops[pc + 2] == Op::LoopNext
            &&& st2.ops[pc + 3] == (Op::StoreArray { name_idx: ani as usize })
            &&& st2.strings == compile_field_spec(elem, st3, dend)->Ok_0.strings
            &&& ani < st2.strings.len()
            &&& st2.strings[ani as int] == name@
            &&& grows(st, st2)
        }),
    decreases f, 0nat,
{
    match f {
        Field::Array { name, element, count, count_field, until_eof } => {
            lemma_intern(st, name@);
            let st1 = intern(st, name@).0;
            let st2v = var_slot(st1, crate::compiler::loop_var_name()).0;
            let st3 = array_body_start(f, st);
            let elem = *element;
            lemma_field_grows(elem, st3, dend);
            let st4 = compile_field_spec(elem, st3, dend)->Ok_0;
            assert(st4.ops.len() == st3.ops.len() + 1) by {
                lemma_intern(var_slot(st3, elem->Scalar_name@).0, elem->Scalar_name@);
            }
            let st5 = emit(st4, Op::LoopNext);
            let st6 = emit(st5, Op::StoreArray { name_idx: intern(st, name@).1 as usize });
            let st2 = compile_field_spec(f, st, dend)->Ok_0;
            assert(st2.ops == st6.ops.update(st.ops.len() as int, st2.ops[st.ops.len() as int]));
            assert(st2.strings == st6.strings);
            assert(st4.strings[intern(st, name@).1 as int] == st3.strings[intern(st, name@).1 as int]);
            assert forall|k: int| 0 <= k < st.ops.len() implies st2.ops[k] == #[trigger] st.ops[k] by {
                assert(st4.ops[k] == st3.ops[k]);
            }
            assert forall|k: int| 0 <= k < st.strings.len() implies st2.strings[k] == #[trigger] st.strings[k] by {
                assert(st4.strings[k] == st3.strings[k]);
                assert(st1.strings[k] == st.strings[k]);
            }
        },
        _ => {},
    }
}

proof fn lemma_fields_grow(fs: Seq<Field>, i: int, st: CompState, dend: crate::template::Endian)
    requires
        listed_fields(fs, i),
        compile_fields_spec(fs, i, st, dend) is Ok,
    ensures
        grows(st, compile_fields_spec(fs, i, st, dend)->Ok_0),
    decreases fs, fs.len() - i,
{
    if 0 <= i < fs.len() {
        lemma_field_grows(fs[i], st, dend);
        lemma_fields_grow(fs, i + 1, compile_field_spec(fs[i], st, dend)->Ok_0, dend);
    }
}

/// What running the instructions of a field from `s` does: with `n` more
/// steps than it has instructions, the machine reaches their end with the
/// field stored as the interpreter stores it, or stops with the
/// interpreter's error.
pub open spec fn field_run_agrees(
    ops: Seq<Op>,
    strings: Seq<Seq<char>>,
    inp: Input,
    r: Run<(nat, Seq<(Seq<char>, Json)>)>,
    st: CompState,
    st2: CompState,
    s: VmState,
    s2: VmState,
    fuel: nat,
) -> bool {
    let n = (st2.ops.len() - st.ops.len()) as nat;
    let run = run_within(ops, strings, inp.data, s, st.ops.len(), fuel + n);
    match r {
        Run::Done((o2, c2)) => run == run_within(ops, strings, inp.data, s2, st2.ops.len(), fuel)
            && s2.offset == o2 && o2 <= inp.data.len() && scope(s2) == c2 && outer_kept(s, s2),
        Run::Failed(e) => run matches Some(Err(v)) && same_error(e, v),
        Run::Aborted => true,
    }
}

proof fn lemma_scalar_runs(
    ops: Seq<Op>,
    strings: Seq<Seq<char>>,
    inp: Input,
    f: Field,
    st: CompState,
    s: VmState,
    fuel: nat,
) -> (s2: VmState)
    requires
        f is Scalar,
        plain_field(f),
        compile_field_spec(f, st, inp.endian) is Ok,
        holds(st, compile_field_spec(f, st, inp.endian)->Ok_0, ops, strings),
        strings.len() <= usize::MAX,
        inp.data.len() <= usize::MAX,
        s.offset <= inp.data.len(),
        !(parse_field_spec(inp, f, s.offset, scope(s)) is Aborted),
    ensures
        field_run_agrees(ops, strings, inp, parse_field_spec(inp, f, s.offset, scope(s)), st,
            compile_field_spec(f, st, inp.endian)->Ok_0, s, s2, fuel),
        compile_field_spec(f, st, inp.endian)->Ok_0.ops.len() == st.ops.len() + 1,
        parse_field_spec(inp, f, s.offset, scope(s)) is Done ==> run_steps(ops, strings, inp.data, s, st.ops.len(), 1)
            == Some((s2, st.ops.len() + 1)),
{
    reveal(vm_step);
    let d = inp.data;
    let dend = inp.endian;
    let pc = st.ops.len();
    let off = s.offset;
    match f {
        Field::Scalar { name, data_type, endian, length, length_field, encoding } => {
            let st1 = var_slot(st, name@).0;
            let vi = var_slot(st, name@).1 as usize;
            lemma_intern(st1, name@);
            let ni = intern(st1, name@).1;
            let st2 = compile_field_spec(f, st, dend)->Ok_0;
            let eff = match endian {
                Some(e) => e,
                None => dend,
            };
            assert(st2.ops.len() == pc + 1);
            assert(ops[pc as int] == st2.ops[pc as int]);
            assert(strings[ni as int] == st2.strings[ni as int]);
            assert(strings[ni as usize as int] == name@);
            let r = crate::parser::scalar_spec(d, off, data_type, eff, length, length_field, encoding, scope(s));
            if scalar_field_type(data_type) {
                let sty = scalar_type_spec(data_type);
                let w = scalar_width(sty);
                assert(ops[pc as int] == (Op::ReadScalar { name_idx: ni as usize, var_idx: vi, scalar_type: sty, endian: eff }));
                match r {
                    Run::Done((o2, v)) => {
                        let s2 = store_read(s, name@, vi, v, w);
                        assert(vm_step(ops, strings, d, s, pc) == crate::vm::Step::Next(s2, pc + 1));
                        lemma_one_step(ops, strings, d, s, pc, s2, pc + 1);
                        assert(s2.frames.len() > 0 ==> s2.frames.drop_last() =~= s.frames.drop_last());
                        s2
                    },
                    _ => s,
                }
            } else {
                let len: nat = match length {
                    Some(l) => l as nat,
                    None => (d.len() - off) as nat,
                };
                let vl = match length {
                    Some(l) => VarLength::Fixed(l),
                    None => VarLength::Remaining,
                };
                assert(crate::compiler::var_length_spec(length, length_field, intern(st1, name@).0) == Ok::<VarLength, CompileFailureOf<Seq<char>>>(vl));
                let op = if data_type == FieldType::Bytes {
                    Op::ReadBytes { name_idx: ni as usize, var_idx: vi, length: vl }
                } else {
                    Op::ReadString { name_idx: ni as usize, var_idx: vi, length: vl, encoding: crate::compiler::string_encoding_spec(encoding) }
                };
                assert(ops[pc as int] == op);
                assert(crate::vm::length_of(s, vl, d.len()) == Ok::<u64, VmError>(len as u64));
                match r {
                    Run::Done((o2, v)) => {
                        let s2 = store_read(s, name@, vi, v, len);
                        assert(vm_step(ops, strings, d, s, pc) == crate::vm::Step::Next(s2, pc + 1));
                        lemma_one_step(ops, strings, d, s, pc, s2, pc + 1);
                        assert(s2.frames.len() > 0 ==> s2.frames.drop_last() =~= s.frames.drop_last());
                        s2
                    },
                    _ => s,
                }
            }
        },
        _ => s,
    }
}

proof fn lemma_struct_runs(
    ops: Seq<Op>,
    strings: Seq<Seq<char>>,
    inp: Input,
    f: Field,
    st: CompState,
    s: VmState,
    fuel: nat,
) -> (s2: VmState)
    requires
        f is Struct,
        plain_field(f),
        compile_field_spec(f, st, inp.endian) is Ok,
        holds(st, compile_field_spec(f, st, inp.endian)->Ok_0, ops, strings),
        strings.len() <= usize::MAX,
        inp.data.len() <= usize::MAX,
        s.offset <= inp.data.len(),
        !(parse_field_spec(inp, f, s.offset, scope(s)) is Aborted),
    ensures
        field_run_agrees(ops, strings, inp, parse_field_spec(inp, f, s.offset, scope(s)), st,
            compile_field_spec(f, st, inp.endian)->Ok_0, s, s2, fuel),
    decreases f, 0nat,
{
    let d = inp.data;
    let dend = inp.endian;
    let pc = st.ops.len();
    match f {
        Field::Struct { name, fields } => {
            let st1 = match name {
                Some(n) => intern(st, n@).0,
                None => st,
            };
            if let Some(n) = name {
                lemma_intern(st, n@);
            }
            let name_idx = match name {
                Some(n) => Some(intern(st, n@).1 as usize),
                None => None,
            };
            let stp = emit(st1, Op::PushFrame { name_idx });
            lemma_plain_fields_listed(fields@, 0);
            lemma_fields_grow(fields@, 0, stp, dend);
            let st3 = compile_fields_spec(fields@, 0, stp, dend)->Ok_0;
            let st2 = compile_field_spec(f, st, dend)->Ok_0;
            assert(st2 == emit(st3, Op::PopFrame));
            assert(stp.ops[pc as int] == (Op::PushFrame { name_idx }));
            assert(st3.ops[pc as int] == stp.ops[pc as int]);
            assert(st2.ops[pc as int] == st3.ops[pc as int]);
            assert(ops[pc as int] == st2.ops[pc as int]);
            assert(ops[st3.ops.len() as int] == st2.ops[st3.ops.len() as int]);
            let fname = match name {
                Some(n) => Some(n@),
                None => None,
            };
            if let Some(n) = name {
                let i = intern(st, n@).1;
                assert(stp.strings[i as int] == n@);
                assert(st3.strings[i as int] == stp.strings[i as int]);
                assert(strings[i as int] == st2.strings[i as int]);
                assert(i as usize as int == i);
            }
            let sp = VmState { frames: s.frames.push(FrameModel { name: fname, object: Seq::empty() }), ..s };
            assert(vm_step(ops, strings, d, s, pc) == crate::vm::Step::Next(sp, pc + 1)) by {
                reveal(vm_step);
            }
            let inner = (st3.ops.len() - stp.ops.len()) as nat;
            lemma_step(ops, strings, d, s, pc, sp, fuel + 1 + inner);
            assert forall|k: int| stp.ops.len() <= k < st3.ops.len() implies ops[k] == #[trigger] st3.ops[k] by {
                assert(st2.ops[k] == st3.ops[k]);
            }
            assert(holds(stp, st3, ops, strings));
            assert(scope(sp) == Seq::<(Seq<char>, Json)>::empty());
            let s3 = lemma_fields_run(ops, strings, inp, fields@, 0, stp, sp, fuel + 1);
            let r = parse_fields_spec(inp, fields@, 0, s.offset, Seq::empty());
            match r {
                Run::Done((o2, sub)) => {
                    let fr = s3.frames.last();
                    let s4 = add_scope(VmState { frames: s3.frames.drop_last(), ..s3 }, fr.name, Json::Object(fr.object));
                    lemma_pop_frame(s, sp, s3);
                    assert(vm_step(ops, strings, d, s3, st3.ops.len()) == crate::vm::Step::Next(s4, st3.ops.len() + 1)) by {
                        reveal(vm_step);
                    }
                    lemma_step(ops, strings, d, s3, st3.ops.len(), s4, fuel);
                    s4
                },
                _ => s,
            }
        },
        _ => s,
    }
}

/// Closing the frame opened at `s`: the frame's object goes into the
/// enclosing one under the frame's name, or merged into it.
proof fn lemma_pop_frame(s: VmState, sp: VmState, s3: VmState)
    requires
        sp.frames == s.frames.push(FrameModel { name: sp.frames.last().name, object: Seq::empty() }),
        sp.loops == s.loops,
        sp.result == s.result,
        outer_kept(sp, s3),
    ensures
        ({
            let fr = s3.frames.last();
            let s4 = add_scope(VmState { frames: s3.frames.drop_last(), ..s3 }, fr.name, Json::Object(fr.object));
            &&& fr.name == sp.frames.last().name
            &&& scope(s4) == crate::vm::merge_named(scope(s), fr.name, Json::Object(scope(s3)))
            &&& s4.offset == s3.offset
            &&& outer_kept(s, s4)
        }),
{
    assert(sp.frames.drop_last() =~= s.frames);
    let fr = s3.frames.last();
    let s4 = add_scope(VmState { frames: s3.frames.drop_last(), ..s3 }, fr.name, Json::Object(fr.object));
    assert(s4.frames.len() > 0 ==> s4.frames.drop_last() =~= s.frames.drop_last());
}

/// One step that goes on to the next instruction.
proof fn lemma_step(ops: Seq<Op>, strings: Seq<Seq<char>>, d: Seq<u8>, s: VmState, pc: nat, s2: VmState, fuel: nat)
    requires
        pc < ops.len(),
        vm_step(ops, strings, d, s, pc) == crate::vm::Step::Next(s2, pc + 1),
    ensures
        run_within(ops, strings, d, s, pc, fuel + 1) == run_within(ops, strings, d, s2, pc + 1, fuel),
{
}

/// Running the instructions of one plain field.
proof fn lemma_field_runs(
    ops: Seq<Op>,
    strings: Seq<Seq<char>>,
    inp: Input,
    f: Field,
    st: CompState,
    s: VmState,
    fuel: nat,
) -> (s2: VmState)
    requires
        plain_field(f),
        compile_field_spec(f, st, inp.endian) is Ok,
        holds(st, compile_field_spec(f, st, inp.endian)->Ok_0, ops, strings),
        strings.len() <= usize::MAX,
        inp.data.len() <= usize::MAX,
        s.offset <= inp.data.len(),
        !(parse_field_spec(inp, f, s.offset, scope(s)) is Aborted),
    ensures
        field_run_agrees(ops, strings, inp, parse_field_spec(inp, f, s.offset, scope(s)), st,
            compile_field_spec(f, st, inp.endian)->Ok_0, s, s2, fuel),
    decreases f, 1nat,
{
    if f is Scalar {
        lemma_scalar_runs(ops, strings, inp, f, st, s, fuel)
    } else {
        lemma_struct_runs(ops, strings, inp, f, st, s, fuel)
    }
}

/// Running the instructions of the plain fields `fs[i..]`, one field after another.
proof fn lemma_fields_run(
    ops: Seq<Op>,
    strings: Seq<Seq<char>>,
    inp: Input,
    fs: Seq<Field>,
    i: int,
    st: CompState,
    s: VmState,
    fuel: nat,
) -> (s2: VmState)
    requires
        plain_fields(fs, i),
        compile_fields_spec(fs, i, st, inp.endian) is Ok,
        holds(st, compile_fields_spec(fs, i, st, inp.endian)->Ok_0, ops, strings),
        strings.len() <= usize::MAX,
        inp.data.len() <= usize::MAX,
        s.offset <= inp.data.len(),
        !(parse_fields_spec(inp, fs, i, s.offset, scope(s)) is Aborted),
    ensures
        field_run_agrees(ops, strings, inp, parse_fields_spec(inp, fs, i, s.offset, scope(s)), st,
            compile_fields_spec(fs, i, st, inp.endian)->Ok_0, s, s2, fuel),
    decreases fs, fs.len() - i,
{
    let dend = inp.endian;
    lemma_plain_fields_listed(fs, i);
    lemma_fields_grow(fs, i, st, dend);
    if i < 0 || i >= fs.len() {
        s
    } else {
        let st1 = compile_field_spec(fs[i], st, dend)->Ok_0;
        let st2 = compile_fields_spec(fs, i, st, dend)->Ok_0;
        lemma_plain_fields_listed(fs, i + 1);
        lemma_field_grows(fs[i], st, dend);
        lemma_fields_grow(fs, i + 1, st1, dend);
        let n2 = (st2.ops.len() - st1.ops.len()) as nat;
        let s1 = lemma_field_runs(ops, strings, inp, fs[i], st, s, fuel + n2);
        match parse_field_spec(inp, fs[i], s.offset, scope(s)) {
            Run::Done((o1, c1)) => {
                let s2 = lemma_fields_run(ops, strings, inp, fs, i + 1, st1, s1, fuel);
                s2
            },
            _ => s1,
        }
    }
}

// ---------------------------------------------------------------------
// Runs that the interpreter completes

/// When the interpreter reads a field, `k` steps from `pc` bring the
/// machine to the end of the field's instructions with the field stored as
/// the interpreter stores it.
pub open spec fn field_done_agrees(
    ops: Seq<Op>,
    strings: Seq<Seq<char>>,
    inp: Input,
    r: Run<(nat, Seq<(Seq<char>, Json)>)>,
    st2: CompState,
    pc: nat,
    s: VmState,
    s2: VmState,
    k: nat,
) -> bool {
    match r {
        Run::Done((o2, c2)) => run_steps(ops, strings, inp.data, s, pc, k) == Some((s2, st2.ops.len()))
            && s2.offset == o2 && o2 <= inp.data.len() && scope(s2) == c2 && outer_kept(s, s2),
        _ => false,
    }
}

proof fn lemma_no_steps(ops: Seq<Op>, strings: Seq<Seq<char>>, d: Seq<u8>, s: VmState, pc: nat)
    ensures
        run_steps(ops, strings, d, s, pc, 0) == Some((s, pc)),
{
    reveal(run_steps);
}

/// The elements of a listed array from the `i`-th on, each read into a
/// fresh frame and added to the loop's items by the loop's next instruction.
proof fn lemma_items_run(
    ops: Seq<Op>,
    strings: Seq<Seq<char>>,
    inp: Input,
    elem: Field,
    st3: CompState,
    c: nat,
    s: VmState,
    i: nat,
    items: Seq<Json>,
) -> (r: (VmState, nat))
    requires
        elem is Scalar,
        plain_field(elem),
        compile_field_spec(elem, st3, inp.endian) is Ok,
        holds(st3, compile_field_spec(elem, st3, inp.endian)->Ok_0, ops, strings),
        st3.ops.len() + 1 < ops.len(),
        ops[st3.ops.len() + 1int] == Op::LoopNext,
        strings.len() <= usize::MAX,
        inp.data.len() <= usize::MAX,
        s.offset <= inp.data.len(),
        i < c < usize::MAX,
        s.loops.len() > 0,
        s.loops.last() == (crate::vm::LoopModel { current: i as u64, count: c as u64, start_pc: st3.ops.len(), items }),
        s.frames.len() > 0,
        s.frames.last() == crate::vm::empty_frame(),
        crate::parser::parse_items_spec(inp, elem, c, false, i, s.offset, items) is Done,
    ensures
        ({
            let (s2, k) = r;
            let (o2, items2) = crate::parser::parse_items_spec(inp, elem, c, false, i, s.offset, items)->Done_0;
            &&& run_steps(ops, strings, inp.data, s, st3.ops.len(), k) == Some((s2, st3.ops.len() + 2))
            &&& s2.offset == o2
            &&& o2 <= inp.data.len()
            &&& s2.loops == s.loops.drop_last().push(
                crate::vm::LoopModel { current: c as u64, count: c as u64, start_pc: st3.ops.len(), items: items2 },
            )
            &&& s2.frames == s.frames.drop_last()
            &&& s2.result == s.result
        }),
    decreases c - i,
{
    let d = inp.data;
    let pc = st3.ops.len();
    let st4 = compile_field_spec(elem, st3, inp.endian)->Ok_0;
    assert(scope(s) == Seq::<(Seq<char>, Json)>::empty());
    assert(s.offset < d.len());
    let s1 = lemma_scalar_runs(ops, strings, inp, elem, st3, s, 0);
    match parse_field_spec(inp, elem, s.offset, Seq::empty()) {
        Run::Done((o1, sub)) => {
            let items1 = items.push(crate::parser::element_value(sub));
            assert(crate::parser::parse_items_spec(inp, elem, c, false, i, s.offset, items)
                == crate::parser::parse_items_spec(inp, elem, c, false, i + 1, o1, items1));
            assert(run_steps(ops, strings, d, s, pc, 1) == Some((s1, pc + 1)));
            let ls = s1.loops.last();
            let fr = s1.frames.last();
            let ls2 = crate::vm::LoopModel { current: (ls.current + 1) as u64, items: ls.items.push(crate::vm::loop_item(fr.object)), ..ls };
            let s2 = VmState { loops: s1.loops.update(s1.loops.len() - 1, ls2), frames: s1.frames.drop_last(), ..s1 };
            assert(s1.frames.drop_last() =~= s.frames.drop_last());
            assert(crate::vm::loop_item(fr.object) == crate::parser::element_value(sub));
            if i + 1 < c {
                let s3 = VmState { frames: s2.frames.push(crate::vm::empty_frame()), ..s2 };
                assert(vm_step(ops, strings, d, s1, pc + 1) == crate::vm::Step::Next(s3, pc)) by {
                    reveal(vm_step);
                }
                lemma_one_step(ops, strings, d, s1, pc + 1, s3, pc);
                lemma_steps_then(ops, strings, d, s, pc, 1, 1);
                assert(s3.loops.drop_last() =~= s.loops.drop_last());
                assert(s3.frames.drop_last() =~= s.frames.drop_last());
                let (s4, k) = lemma_items_run(ops, strings, inp, elem, st3, c, s3, i + 1, items.push(crate::parser::element_value(sub)));
                lemma_steps_then(ops, strings, d, s, pc, 2, k);
                assert(s4.loops =~= s.loops.drop_last().push(
                    crate::vm::LoopModel { current: c as u64, count: c as u64, start_pc: pc, items: s4.loops.last().items },
                ));
                (s4, k + 2)
            } else {
                assert(vm_step(ops, strings, d, s1, pc + 1) == crate::vm::Step::Next(s2, pc + 2)) by {
                    reveal(vm_step);
                }
                lemma_one_step(ops, strings, d, s1, pc + 1, s2, pc + 2);
                lemma_steps_then(ops, strings, d, s, pc, 1, 1);
                assert(crate::parser::parse_items_spec(inp, elem, c, false, i + 1, o1, items1) == Run::Done((o1, items1)));
                assert(s2.loops =~= s.loops.drop_last().push(ls2));
                assert(s2.frames =~= s.frames.drop_last());
                assert(run_steps(ops, strings, d, s, pc, 2) == Some((s2, pc + 2)));
                (s2, 2)
            }
        },
        _ => (s, 0),
    }
}

/// The elements of an array read to the end of the data, from the `i`-th
/// on: each element takes at least one byte, so the loop ends with the data.
proof fn lemma_eof_items_run(
    ops: Seq<Op>,
    strings: Seq<Seq<char>>,
    inp: Input,
    elem: Field,
    st3: CompState,
    s: VmState,
    i: nat,
    items: Seq<Json>,
) -> (r: (VmState, nat))
    requires
        elem is Scalar,
        plain_field(elem),
        scalar_field_type(elem->Scalar_data_type),
        compile_field_spec(elem, st3, inp.endian) is Ok,
        holds(st3, compile_field_spec(elem, st3, inp.endian)->Ok_0, ops, strings),
        st3.ops.len() + 1 < ops.len(),
        ops[st3.ops.len() + 1int] == Op::LoopNext,
        strings.len() <= usize::MAX,
        inp.data.len() <= usize::MAX,
        i <= s.offset < inp.data.len(),
        s.loops.len() > 0,
        s.loops.last() == (crate::vm::LoopModel { current: i as u64, count: u64::MAX, start_pc: st3.ops.len(), items }),
        s.frames.len() > 0,
        s.frames.last() == crate::vm::empty_frame(),
        crate::parser::parse_items_spec(inp, elem, usize::MAX as nat, true, i, s.offset, items) is Done,
    ensures
        ({
            let (s2, k) = r;
            let (o2, items2) = crate::parser::parse_items_spec(inp, elem, usize::MAX as nat, true, i, s.offset, items)->Done_0;
            &&& run_steps(ops, strings, inp.data, s, st3.ops.len(), k) == Some((s2, st3.ops.len() + 2))
            &&& s2.offset == o2
            &&& o2 <= inp.data.len()
            &&& s2.loops.len() == s.loops.len()
            &&& s2.loops.drop_last() == s.loops.drop_last()
            &&& s2.loops.last().items == items2
            &&& s2.frames == s.frames.drop_last()
            &&& s2.result == s.result
        }),
    decreases inp.data.len() - s.offset,
{
    let d = inp.data;
    let pc = st3.ops.len();
    let n = usize::MAX as nat;
    assert(scope(s) == Seq::<(Seq<char>, Json)>::empty());
    let s1 = lemma_scalar_runs(ops, strings, inp, elem, st3, s, 0);
    match parse_field_spec(inp, elem, s.offset, Seq::empty()) {
        Run::Done((o1, sub)) => {
            assert(o1 > s.offset);
            let items1 = items.push(crate::parser::element_value(sub));
            assert(crate::parser::parse_items_spec(inp, elem, n, true, i, s.offset, items)
                == crate::parser::parse_items_spec(inp, elem, n, true, i + 1, o1, items1));
            assert(run_steps(ops, strings, d, s, pc, 1) == Some((s1, pc + 1)));
            let ls = s1.loops.last();
            let fr = s1.frames.last();
            let ls2 = crate::vm::LoopModel { current: (ls.current + 1) as u64, items: ls.items.push(crate::vm::loop_item(fr.object)), ..ls };
            let s2 = VmState { loops: s1.loops.update(s1.loops.len() - 1, ls2), frames: s1.frames.drop_last(), ..s1 };
            assert(s1.frames.drop_last() =~= s.frames.drop_last());
            assert(crate::vm::loop_item(fr.object) == crate::parser::element_value(sub));
            if o1 < d.len() {
                let s3 = VmState { frames: s2.frames.push(crate::vm::empty_frame()), ..s2 };
                assert(vm_step(ops, strings, d, s1, pc + 1) == crate::vm::Step::Next(s3, pc)) by {
                    reveal(vm_step);
                }
                lemma_one_step(ops, strings, d, s1, pc + 1, s3, pc);
                lemma_steps_then(ops, strings, d, s, pc, 1, 1);
                assert(s3.loops.drop_last() =~= s.loops.drop_last());
                assert(s3.frames.drop_last() =~= s.frames.drop_last());
                let (s4, k) = lemma_eof_items_run(ops, strings, inp, elem, st3, s3, i + 1, items1);
                lemma_steps_then(ops, strings, d, s, pc, 2, k);
                (s4, k + 2)
            } else {
                assert(vm_step(ops, strings, d, s1, pc + 1) == crate::vm::Step::Next(s2, pc + 2)) by {
                    reveal(vm_step);
                }
                lemma_one_step(ops, strings, d, s1, pc + 1, s2, pc + 2);
                lemma_steps_then(ops, strings, d, s, pc, 1, 1);
                assert(crate::parser::parse_items_spec(inp, elem, n, true, i + 1, o1, items1) == Run::Done((o1, items1)));
                assert(s2.loops.drop_last() =~= s.loops.drop_last());
                assert(s2.frames =~= s.frames.drop_last());
                (s2, 2)
            }
        },
        _ => (s, 0),
    }
}

/// A listed array read to the end of the data.
proof fn lemma_eof_array_runs(ops: Seq<Op>, strings: Seq<Seq<char>>, inp: Input, f: Field, st: CompState, s: VmState) -> (r: (VmState, nat))
    requires
        f matches Field::Array { until_eof: true, .. },
        listed_field(f),
        compile_field_spec(f, st, inp.endian) is Ok,
        holds(st, compile_field_spec(f, st, inp.endian)->Ok_0, ops, strings),
        ops.len() <= usize::MAX,
        strings.len() <= usize::MAX,
        inp.data.len() <= usize::MAX,
        s.offset <= inp.data.len(),
        parse_field_spec(inp, f, s.offset, scope(s)) is Done,
    ensures
        field_done_agrees(ops, strings, inp, parse_field_spec(inp, f, s.offset, scope(s)),
            compile_field_spec(f, st, inp.endian)->Ok_0, st.ops.len(), s, r.0, r.1),
{
    let d = inp.data;
    let dend = inp.endian;
    let pc = st.ops.len();
    let n = usize::MAX as nat;
    lemma_array_layout(f, st, dend);
    match f {
        Field::Array { name, element, count, count_field, until_eof } => {
            let elem = *element;
            let st3 = array_body_start(f, st);
            let st4 = compile_field_spec(elem, st3, dend)->Ok_0;
            let st2 = compile_field_spec(f, st, dend)->Ok_0;
            let ani = intern(st, name@).1;
            let lv = var_slot(intern(st, name@).0, crate::compiler::loop_var_name()).1;
            assert(ops[pc as int] == st2.ops[pc as int]);
            assert(ops[pc + 1int] == st2.ops[pc + 1int]);
            assert(ops[pc + 2int] == st2.ops[pc + 2int]);
            assert(ops[pc + 3int] == st2.ops[pc + 3int]);
            assert(strings[ani as int] == st2.strings[ani as int]);
            assert(holds(st3, st4, ops, strings));
            if s.offset >= d.len() {
                let lz = crate::vm::LoopModel { current: 0, count: 0, start_pc: pc + 1, items: Seq::empty() };
                let sz = VmState { loops: s.loops.push(lz), vars: s.vars.update(lv as usize as int, None), ..s };
                assert(vm_step(ops, strings, d, s, pc) == crate::vm::Step::Next(sz, pc + 3)) by {
                    reveal(vm_step);
                }
                lemma_one_step(ops, strings, d, s, pc, sz, pc + 3);
                let s4 = crate::vm::set_scope(VmState { loops: sz.loops.drop_last(), ..sz }, name@, Json::Array(Seq::empty()));
                assert(sz.loops.drop_last() =~= s.loops);
                assert(vm_step(ops, strings, d, sz, pc + 3) == crate::vm::Step::Next(s4, pc + 4)) by {
                    reveal(vm_step);
                }
                lemma_one_step(ops, strings, d, sz, pc + 3, s4, pc + 4);
                lemma_steps_then(ops, strings, d, s, pc, 1, 1);
                assert(crate::parser::parse_items_spec(inp, elem, n, true, 0, s.offset, Seq::empty())
                    == Run::Done((s.offset, Seq::<Json>::empty())));
                assert(s4.frames.len() > 0 ==> s4.frames.drop_last() =~= s.frames.drop_last());
                (s4, 2)
            } else {
                let lm = crate::vm::LoopModel { current: 0, count: u64::MAX, start_pc: pc + 1, items: Seq::empty() };
                let s1 = VmState {
                    loops: s.loops.push(lm),
                    vars: s.vars.update(lv as usize as int, None),
                    frames: s.frames.push(crate::vm::empty_frame()),
                    ..s
                };
                assert(vm_step(ops, strings, d, s, pc) == crate::vm::Step::Next(s1, pc + 1)) by {
                    reveal(vm_step);
                }
                lemma_one_step(ops, strings, d, s, pc, s1, pc + 1);
                let (se, k) = lemma_eof_items_run(ops, strings, inp, elem, st3, s1, 0, Seq::empty());
                match crate::parser::parse_items_spec(inp, elem, n, true, 0, s.offset, Seq::empty()) {
                    Run::Done((o2, items2)) => {
                        let s4 = crate::vm::set_scope(VmState { loops: se.loops.drop_last(), ..se }, name@, Json::Array(items2));
                        assert(se.loops.drop_last() =~= s.loops);
                        assert(se.frames =~= s.frames);
                        assert(vm_step(ops, strings, d, se, pc + 3) == crate::vm::Step::Next(s4, pc + 4)) by {
                            reveal(vm_step);
                        }
                        lemma_one_step(ops, strings, d, se, pc + 3, s4, pc + 4);
                        lemma_steps_then(ops, strings, d, s, pc, 1, k);
                        lemma_steps_then(ops, strings, d, s, pc, 1 + k, 1);
                        assert(s4.frames.len() > 0 ==> s4.frames.drop_last() =~= s.frames.drop_last());
                        (s4, k + 2)
                    },
                    _ => (s, 0),
                }
            }
        },
        _ => (s, 0),
    }
}

/// A listed array: the loop's start, every element, and the store of the items.
proof fn lemma_array_runs(ops: Seq<Op>, strings: Seq<Seq<char>>, inp: Input, f: Field, st: CompState, s: VmState) -> (r: (VmState, nat))
    requires
        f is Array,
        listed_field(f),
        compile_field_spec(f, st, inp.endian) is Ok,
        holds(st, compile_field_spec(f, st, inp.endian)->Ok_0, ops, strings),
        ops.len() <= usize::MAX,
        strings.len() <= usize::MAX,
        inp.data.len() <= usize::MAX,
        s.offset <= inp.data.len(),
        parse_field_spec(inp, f, s.offset, scope(s)) is Done,
    ensures
        field_done_agrees(ops, strings, inp, parse_field_spec(inp, f, s.offset, scope(s)),
            compile_field_spec(f, st, inp.endian)->Ok_0, st.ops.len(), s, r.0, r.1),
{
    let d = inp.data;
    let dend = inp.endian;
    let pc = st.ops.len();
    lemma_array_layout(f, st, dend);
    match f {
        Field::Array { name, element, count, count_field, until_eof } => {
            let c = count->0;
            let elem = *element;
            let st3 = array_body_start(f, st);
            let st4 = compile_field_spec(elem, st3, dend)->Ok_0;
            let st2 = compile_field_spec(f, st, dend)->Ok_0;
            let ani = intern(st, name@).1;
            let lv = var_slot(intern(st, name@).0, crate::compiler::loop_var_name()).1;
            assert(ops[pc as int] == st2.ops[pc as int]);
            assert(ops[pc + 1int] == st2.ops[pc + 1int]);
            assert(ops[pc + 2int] == st2.ops[pc + 2int]);
            assert(ops[pc + 3int] == st2.ops[pc + 3int]);
            assert(strings[ani as int] == st2.strings[ani as int]);
            assert(holds(st3, st4, ops, strings));
            if until_eof {
                lemma_eof_array_runs(ops, strings, inp, f, st, s)
            } else if c == 0 {
                lemma_empty_array_runs(ops, strings, inp, f, st, s)
            } else {
            let lm = crate::vm::LoopModel { current: 0, count: c as u64, start_pc: pc + 1, items: Seq::empty() };
            let s1 = VmState {
                loops: s.loops.push(lm),
                vars: s.vars.update(lv as usize as int, None),
                frames: s.frames.push(crate::vm::empty_frame()),
                ..s
            };
            assert(vm_step(ops, strings, d, s, pc) == crate::vm::Step::Next(s1, pc + 1)) by {
                reveal(vm_step);
            }
            lemma_one_step(ops, strings, d, s, pc, s1, pc + 1);
            let (se, k) = lemma_items_run(ops, strings, inp, elem, st3, c as nat, s1, 0, Seq::empty());
            match crate::parser::parse_items_spec(inp, elem, c as nat, false, 0, s.offset, Seq::empty()) {
                Run::Done((o2, items2)) => {
                    let s4 = crate::vm::set_scope(VmState { loops: se.loops.drop_last(), ..se }, name@, Json::Array(items2));
                    assert(se.loops.drop_last() =~= s.loops);
                    assert(se.frames =~= s.frames);
                    assert(vm_step(ops, strings, d, se, pc + 3) == crate::vm::Step::Next(s4, pc + 4)) by {
                        reveal(vm_step);
                    }
                    lemma_one_step(ops, strings, d, se, pc + 3, s4, pc + 4);
                    lemma_steps_then(ops, strings, d, s, pc, 1, k);
                    lemma_steps_then(ops, strings, d, s, pc, 1 + k, 1);
                    assert(s4.frames.len() > 0 ==> s4.frames.drop_last() =~= s.frames.drop_last());
                    (s4, k + 2)
                },
                _ => (s, 0),
            }
            }
        },
        _ => (s, 0),
    }
}

/// A listed array of no element: the loop's start goes straight to the
/// store of the empty array.
proof fn lemma_empty_array_runs(ops: Seq<Op>, strings: Seq<Seq<char>>, inp: Input, f: Field, st: CompState, s: VmState) -> (r: (VmState, nat))
    requires
        f matches Field::Array { count: Some(c), until_eof: false, .. } && c == 0,
        listed_field(f),
        compile_field_spec(f, st, inp.endian) is Ok,
        holds(st, compile_field_spec(f, st, inp.endian)->Ok_0, ops, strings),
        ops.len() <= usize::MAX,
        strings.len() <= usize::MAX,
        inp.data.len() <= usize::MAX,
        s.offset <= inp.data.len(),
    ensures
        field_done_agrees(ops, strings, inp, parse_field_spec(inp, f, s.offset, scope(s)),
            compile_field_spec(f, st, inp.endian)->Ok_0, st.ops.len(), s, r.0, r.1),
{
    let d = inp.data;
    let dend = inp.endian;
    let pc = st.ops.len();
    lemma_array_layout(f, st, dend);
    match f {
        Field::Array { name, element, count, count_field, until_eof } => {
            let elem = *element;
            let st2 = compile_field_spec(f, st, dend)->Ok_0;
            let ani = intern(st, name@).1;
            let lv = var_slot(intern(st, name@).0, crate::compiler::loop_var_name()).1;
            assert(ops[pc as int] == st2.ops[pc as int]);
            assert(ops[pc + 3int] == st2.ops[pc + 3int]);
            assert(strings[ani as int] == st2.strings[ani as int]);
            let lz = crate::vm::LoopModel { current: 0, count: 0, start_pc: pc + 1, items: Seq::empty() };
            let sz = VmState { loops: s.loops.push(lz), vars: s.vars.update(lv as usize as int, None), ..s };
            assert(vm_step(ops, strings, d, s, pc) == crate::vm::Step::Next(sz, pc + 3)) by {
                reveal(vm_step);
            }
            lemma_one_step(ops, strings, d, s, pc, sz, pc + 3);
            let s4 = crate::vm::set_scope(VmState { loops: sz.loops.drop_last(), ..sz }, name@, Json::Array(Seq::empty()));
            assert(sz.loops.drop_last() =~= s.loops);
            assert(vm_step(ops, strings, d, sz, pc + 3) == crate::vm::Step::Next(s4, pc + 4)) by {
                reveal(vm_step);
            }
            lemma_one_step(ops, strings, d, sz, pc + 3, s4, pc + 4);
            lemma_steps_then(ops, strings, d, s, pc, 1, 1);
            assert(crate::parser::parse_items_spec(inp, elem, 0, false, 0, s.offset, Seq::empty())
                == Run::Done((s.offset, Seq::<Json>::empty())));
            assert(s4.frames.len() > 0 ==> s4.frames.drop_last() =~= s.frames.drop_last());
            (s4, 2)
        },
        _ => (s, 0),
    }
}

proof fn lemma_listed_struct_runs(ops: Seq<Op>, strings: Seq<Seq<char>>, inp: Input, f: Field, st: CompState, s: VmState) -> (r: (VmState, nat))
    requires
        f is Struct,
        listed_field(f),
        compile_field_spec(f, st, inp.endian) is Ok,
        holds(st, compile_field_spec(f, st, inp.endian)->Ok_0, ops, strings),
        ops.len() <= usize::MAX,
        strings.len() <= usize::MAX,
        inp.data.len() <= usize::MAX,
        s.offset <= inp.data.len(),
        parse_field_spec(inp, f, s.offset, scope(s)) is Done,
    ensures
        field_done_agrees(ops, strings, inp, parse_field_spec(inp, f, s.offset, scope(s)),
            compile_field_spec(f, st, inp.endian)->Ok_0, st.ops.len(), s, r.0, r.1),
    decreases f, 0nat,
{
    let d = inp.data;
    let dend = inp.endian;
    let pc = st.ops.len();
    match f {
        Field::Struct { name, fields } => {
            let st1 = match name {
                Some(n) => intern(st, n@).0,
                None => st,
            };
            if let Some(n) = name {
                lemma_intern(st, n@);
            }
            let name_idx = match name {
                Some(n) => Some(intern(st, n@).1 as usize),
                None => None,
            };
            let stp = emit(st1, Op::PushFrame { name_idx });
            lemma_fields_grow(fields@, 0, stp, dend);
            let st3 = compile_fields_spec(fields@, 0, stp, dend)->Ok_0;
            let st2 = compile_field_spec(f, st, dend)->Ok_0;
            assert(st2 == emit(st3, Op::PopFrame));
            assert(stp.ops[pc as int] == (Op::PushFrame { name_idx }));
            assert(st3.ops[pc as int] == stp.ops[pc as int]);
            assert(st2.ops[pc as int] == st3.ops[pc as int]);
            assert(ops[pc as int] == st2.ops[pc as int]);
            assert(ops[st3.ops.len() as int] == st2.ops[st3.ops.len() as int]);
            let fname = match name {
                Some(n) => Some(n@),
                None => None,
            };
            if let Some(n) = name {
                let i = intern(st, n@).1;
                assert(stp.strings[i as int] == n@);
                assert(st3.strings[i as int] == stp.strings[i as int]);
                assert(strings[i as int] == st2.strings[i as int]);
                assert(i as usize as int == i);
            }
            let sp = VmState { frames: s.frames.push(FrameModel { name: fname, object: Seq::empty() }), ..s };
            assert(vm_step(ops, strings, d, s, pc) == crate::vm::Step::Next(sp, pc + 1)) by {
                reveal(vm_step);
            }
            lemma_one_step(ops, strings, d, s, pc, sp, pc + 1);
            assert forall|k: int| stp.ops.len() <= k < st3.ops.len() implies ops[k] == #[trigger] st3.ops[k] by {
                assert(st2.ops[k] == st3.ops[k]);
            }
            assert(holds(stp, st3, ops, strings));
            assert(scope(sp) == Seq::<(Seq<char>, Json)>::empty());
            let (s3, k) = lemma_listed_fields_run(ops, strings, inp, fields@, 0, stp, sp);
            match parse_fields_spec(inp, fields@, 0, s.offset, Seq::empty()) {
                Run::Done((o2, sub)) => {
                    let fr = s3.frames.last();
                    let s4 = add_scope(VmState { frames: s3.frames.drop_last(), ..s3 }, fr.name, Json::Object(fr.object));
                    lemma_pop_frame(s, sp, s3);
                    assert(vm_step(ops, strings, d, s3, st3.ops.len()) == crate::vm::Step::Next(s4, st3.ops.len() + 1)) by {
                        reveal(vm_step);
                    }
                    lemma_one_step(ops, strings, d, s3, st3.ops.len(), s4, st3.ops.len() + 1);
                    lemma_steps_then(ops, strings, d, s, pc, 1, k);
                    lemma_steps_then(ops, strings, d, s, pc, 1 + k, 1);
                    (s4, k + 2)
                },
                _ => (s, 0),
            }
        },
        _ => (s, 0),
    }
}

/// Running the instructions of one listed field that the interpreter reads.
proof fn lemma_listed_field_runs(ops: Seq<Op>, strings: Seq<Seq<char>>, inp: Input, f: Field, st: CompState, s: VmState) -> (r: (VmState, nat))
    requires
        listed_field(f),
        compile_field_spec(f, st, inp.endian) is Ok,
        holds(st, compile_field_spec(f, st, inp.endian)->Ok_0, ops, strings),
        ops.len() <= usize::MAX,
        strings.len() <= usize::MAX,
        inp.data.len() <= usize::MAX,
        s.offset <= inp.data.len(),
        parse_field_spec(inp, f, s.offset, scope(s)) is Done,
    ensures
        field_done_agrees(ops, strings, inp, parse_field_spec(inp, f, s.offset, scope(s)),
            compile_field_spec(f, st, inp.endian)->Ok_0, st.ops.len(), s, r.0, r.1),
    decreases f, 1nat,
{
    if f is Scalar {
        let s2 = lemma_scalar_runs(ops, strings, inp, f, st, s, 0);
        (s2, 1)
    } else if f is Struct {
        lemma_listed_struct_runs(ops, strings, inp, f, st, s)
    } else {
        lemma_array_runs(ops, strings, inp, f, st, s)
    }
}

/// Running the instructions of the listed fields `fs[i..]`, one field after another.
proof fn lemma_listed_fields_run(
    ops: Seq<Op>,
    strings: Seq<Seq<char>>,
    inp: Input,
    fs: Seq<Field>,
    i: int,
    st: CompState,
    s: VmState,
) -> (r: (VmState, nat))
    requires
        listed_fields(fs, i),
        compile_fields_spec(fs, i, st, inp.endian) is Ok,
        holds(st, compile_fields_spec(fs, i, st, inp.endian)->Ok_0, ops, strings),
        ops.len() <= usize::MAX,
        strings.len() <= usize::MAX,
        inp.data.len() <= usize::MAX,
        s.offset <= inp.data.len(),
        parse_fields_spec(inp, fs, i, s.offset, scope(s)) is Done,
    ensures
        field_done_agrees(ops, strings, inp, parse_fields_spec(inp, fs, i, s.offset, scope(s)),
            compile_fields_spec(fs, i, st, inp.endian)->Ok_0, st.ops.len(), s, r.0, r.1),
    decreases fs, fs.len() - i,
{
    let dend = inp.endian;
    let d = inp.data;
    lemma_fields_grow(fs, i, st, dend);
    if i < 0 || i >= fs.len() {
        lemma_no_steps(ops, strings, d, s, st.ops.len());
        (s, 0)
    } else {
        let st1 = compile_field_spec(fs[i], st, dend)->Ok_0;
        lemma_field_grows(fs[i], st, dend);
        lemma_fields_grow(fs, i + 1, st1, dend);
        let (s1, k1) = lemma_listed_field_runs(ops, strings, inp, fs[i], st, s);
        let (s2, k2) = lemma_listed_fields_run(ops, strings, inp, fs, i + 1, st1, s1);
        lemma_steps_then(ops, strings, d, s, st.ops.len(), k1, k2);
        (s2, k1 + k2)
    }
}

/// Whenever the interpreter reads a payload with a template of listed
/// fields (scalars, structures, arrays of scalars of a fixed number or to
/// the end of the data), the bytecode machine, started as `VmParser::new`
/// starts it on the compiled template, ends within the returned number of
/// steps with the same object. The data, the instructions and the string table have
/// lengths that fit a `usize`, as in memory.
pub proof fn lemma_engines_agree_on_success(t: ProtocolTemplate, inp: Input) -> (k: nat)
    requires
        listed_fields(t.fields@, 0),
        compile_template_spec(t) is Ok,
        inp.endian == t.endian,
        compile_template_spec(t)->Ok_0.1.ops.len() <= usize::MAX,
        compile_template_spec(t)->Ok_0.1.strings.len() <= usize::MAX,
        inp.data.len() <= usize::MAX,
        parse_template_spec(inp, t, 0) is Done,
    ensures
        ({
            let st = compile_template_spec(t)->Ok_0.1;
            run_within(st.ops, st.strings, inp.data, start_state(st.vars.len()), 0, k)
                == Some(Ok::<Json, VmError>(parse_template_spec(inp, t, 0)->Done_0.1))
        }),
{
    let st = compile_template_spec(t)->Ok_0.1;
    let s0 = start_state(st.vars.len());
    let e0 = CompState { ops: Seq::empty(), strings: Seq::empty(), vars: Seq::empty() };
    assert(e0 == crate::compiler::empty_state());
    assert(st == compile_fields_spec(t.fields@, 0, e0, t.endian)->Ok_0);
    assert(holds(e0, st, st.ops, st.strings));
    let (s2, k) = lemma_listed_fields_run(st.ops, st.strings, inp, t.fields@, 0, e0, s0);
    lemma_steps_within(st.ops, st.strings, inp.data, s0, 0, k, 0);
    k
}

/// On a template made of scalar fields and structures, the bytecode
/// machine, started as `VmParser::new` starts it on the compiled template,
/// ends within as many steps as the program has instructions, with the
/// object the interpreter gives or with the interpreter's end-of-data error.
/// Left out are the inputs on which the interpreter stops the process
/// (UTF-16 text of odd length, a field whose end passes the largest
/// `usize`): there the machine decodes the text or gets stuck. The data and
/// the string table have lengths that fit a `usize`, as in memory.
pub proof fn lemma_engines_agree(t: ProtocolTemplate, inp: Input)
    requires
        plain_fields(t.fields@, 0),
        compile_template_spec(t) is Ok,
        inp.endian == t.endian,
        compile_template_spec(t)->Ok_0.1.strings.len() <= usize::MAX,
        inp.data.len() <= usize::MAX,
        !(parse_template_spec(inp, t, 0) is Aborted),
    ensures
        ({
            let st = compile_template_spec(t)->Ok_0.1;
            let out = run_within(st.ops, st.strings, inp.data, start_state(st.vars.len()), 0, st.ops.len());
            match parse_template_spec(inp, t, 0) {
                Run::Done((_, j)) => out == Some(Ok::<Json, VmError>(j)),
                Run::Failed(e) => out matches Some(Err(v)) && same_error(e, v),
                Run::Aborted => true,
            }
        }),
{
    let st = compile_template_spec(t)->Ok_0.1;
    let s0 = start_state(st.vars.len());
    let e0 = CompState { ops: Seq::empty(), strings: Seq::empty(), vars: Seq::empty() };
    assert(e0 == crate::compiler::empty_state());
    assert(st == compile_fields_spec(t.fields@, 0, e0, t.endian)->Ok_0);
    assert(holds(e0, st, st.ops, st.strings));
    let s2 = lemma_fields_run(st.ops, st.strings, inp, t.fields@, 0, e0, s0, 0);
}

} // verus!
