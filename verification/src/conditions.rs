//! Conditions in the two engines: the machine's tests of compiled
//! conditions against the interpreter's tests of the same conditions.

use vstd::prelude::*;
use crate::compiler::{first_index, CompState};
use crate::json::Json;
use crate::vm::{vm_step, VmState};

verus! {

/// A condition value and a field value that both engines compare alike:
/// two texts, or two integers that fit an `i64`.
pub open spec fn comparable(v: Json, c: Json) -> bool {
    (v is Str && c is Str) || (crate::json::json_as_i64(v) is Some && crate::json::json_as_i64(c) is Some)
}

/// On comparable values, the machine's test of a value against the jump
/// constant compiled from a condition value is the interpreter's equality:
/// texts match when they are the same text, integers when they are the
/// same integer.
pub proof fn lemma_jump_constant_matches(v: Json, c: Json)
    requires
        comparable(v, c),
    ensures
        crate::compiler::jump_const_of(c) is Some,
        crate::vm::value_matches(v, crate::compiler::jump_const_of(c)->0) <==> crate::parser::values_equal(v, c),
        v is Str ==> (crate::vm::value_matches(v, crate::compiler::jump_const_of(c)->0) <==> v == c),
        v is Number ==> (crate::vm::value_matches(v, crate::compiler::jump_const_of(c)->0)
            <==> crate::json::json_as_i64(v) == crate::json::json_as_i64(c)),
{
}

/// A condition that the bytecode can test: exactly one of `eq`, `ne` and
/// `in`, and no ordering.
pub open spec fn single_test(c: crate::template::Condition) -> bool {
    &&& c.gt is None && c.lt is None && c.ge is None && c.le is None
    &&& (c.eq is Some && c.ne is None && c.in_list is None)
        || (c.eq is None && c.ne is Some && c.in_list is None)
        || (c.eq is None && c.ne is None && c.in_list is Some)
}

/// Every value the condition names is comparable with `v`.
pub open spec fn condition_comparable(c: crate::template::Condition, v: Json) -> bool {
    &&& (c.eq matches Some(x) ==> comparable(v, x@))
    &&& (c.ne matches Some(x) ==> comparable(v, x@))
    &&& (c.in_list matches Some(l) ==> forall|i: int| 0 <= i < l@.len() ==> comparable(v, #[trigger] l@[i]@))
}

/// The jump compiled for a condition is taken exactly when the condition,
/// as the interpreter tests it on the field's value, has the outcome the
/// jump was compiled for (`jump_on_true`): a branch's skip jump is taken
/// exactly when its condition fails. The machine holds the field's value in
/// the field's variable; the values compared are comparable.
pub proof fn lemma_condition_jump(
    cond: crate::template::Condition,
    st: CompState,
    jump_on_true: bool,
    v: Json,
    s: VmState,
    strings: Seq<Seq<char>>,
    d: Seq<u8>,
    texts: spec_fn(Seq<char>) -> Option<u64>,
)
    requires
        crate::compiler::cond_jump_spec(cond, st, jump_on_true) is Ok,
        single_test(cond),
        condition_comparable(cond, v),
        st.vars.len() <= usize::MAX,
        first_index(st.vars, cond.field@) matches Some(i) && i < s.vars.len() && s.vars[i as int] == Some(v),
    ensures
        ({
            let (st1, pc) = crate::compiler::cond_jump_spec(cond, st, jump_on_true)->Ok_0;
            vm_step(st1.ops, strings, d, s, pc) == crate::vm::Step::Next(
                s,
                if crate::parser::condition_holds(cond, v, texts) == jump_on_true { 0 } else { pc + 1 },
            )
        }),
{
    reveal(vm_step);
    crate::engines::lemma_first_index_found(st.vars, cond.field@);
    let i = first_index(st.vars, cond.field@)->0;
    assert(i as usize as int == i);
    if let Some(x) = cond.eq {
        lemma_jump_constant_matches(v, x@);
    } else if let Some(x) = cond.ne {
        lemma_jump_constant_matches(v, x@);
    } else if let Some(l) = cond.in_list {
        let vs = crate::json::values_view(l@);
        crate::compiler::lemma_jump_consts_of(vs);
        let cs = crate::compiler::jump_consts_of(vs)->0;
        assert forall|k: int| 0 <= k < vs.len() implies crate::compiler::jump_const_of(#[trigger] vs[k]) is Some by {
            assert(vs[k] == l@[k]@);
            lemma_jump_constant_matches(v, l@[k]@);
        }
        assert(crate::vm::any_matches(v, cs) <==> crate::parser::any_equal(v, vs)) by {
            if crate::vm::any_matches(v, cs) {
                let k = choose|k: int| 0 <= k < cs.len() && crate::vm::value_matches(v, #[trigger] cs[k]);
                assert(vs[k] == l@[k]@);
                lemma_jump_constant_matches(v, l@[k]@);
                assert(crate::parser::values_equal(v, vs[k]));
            }
            if crate::parser::any_equal(v, vs) {
                let k = choose|k: int| 0 <= k < vs.len() && crate::parser::values_equal(v, #[trigger] vs[k]);
                assert(vs[k] == l@[k]@);
                lemma_jump_constant_matches(v, l@[k]@);
                assert(crate::vm::value_matches(v, cs[k]));
            }
        }
    }
}

} // verus!
