//! Turning inferred fields into a template draft.

use vstd::prelude::*;
use crate::analyzer::{
    const_bytes, detect_signature, guesses, has_constant_run, infer_fields, inferred_fields_spec,
    signature_run, stats_consistent, EndianGuess, FieldGuess, FieldPatternOf, InferredField,
    PayloadAnalysis, PatternModel,
};
use crate::hexcodec::{hex_encode, hex_text};
use crate::decimal::{append_decimal, decimal};
use vstd::string::{StrSliceExecFns, StringExecFns};
use crate::template::{Endian, Field, FieldType, ProtocolTemplate, TemplateSignature};

verus! {

/// The byte order a guess names, if it names one.
pub open spec fn definite_endian(e: EndianGuess) -> Option<Endian> {
    match e {
        EndianGuess::Big => Some(Endian::Big),
        EndianGuess::Little => Some(Endian::Little),
        EndianGuess::Uncertain => None,
    }
}

/// The byte order of a multi-byte pattern, if it names one.
pub open spec fn pattern_endian(p: PatternModel) -> Option<Endian> {
    match p {
        FieldPatternOf::UInt16 { endian, .. } => definite_endian(endian),
        FieldPatternOf::UInt32 { endian, .. } => definite_endian(endian),
        FieldPatternOf::LengthField { endian, .. } => definite_endian(endian),
        FieldPatternOf::CountField { endian, .. } => definite_endian(endian),
        _ => None,
    }
}

/// The template's byte order: that of the first field that names one,
/// else big-endian.
pub open spec fn template_endian(gs: Seq<FieldGuess>) -> Endian
    decreases gs.len(),
{
    if gs.len() == 0 {
        Endian::Big
    } else {
        match pattern_endian(gs[0].pattern) {
            Some(e) => e,
            None => template_endian(gs.drop_first()),
        }
    }
}

/// The byte order written on a field: its own when it differs from the
/// template's, else none.
pub open spec fn endian_override(e: EndianGuess, template: Endian) -> Option<Endian> {
    let own = match definite_endian(e) {
        Some(x) => x,
        None => template,
    };
    if own != template { Some(own) } else { None }
}

/// The type of a length or count field of `size` bytes.
pub open spec fn sized_type(size: usize) -> FieldType {
    if size == 2 {
        FieldType::U16
    } else if size == 4 {
        FieldType::U32
    } else {
        FieldType::U8
    }
}

/// `f` is the scalar field with these parts and no length field.
pub open spec fn scalar_field_is(
    f: Field,
    name: Seq<char>,
    data_type: FieldType,
    endian: Option<Endian>,
    length: Option<usize>,
    encoding: Option<Seq<char>>,
) -> bool {
    match f {
        Field::Scalar { name: n, data_type: t, endian: e, length: l, length_field: lf, encoding: enc } => {
            &&& n@ == name
            &&& t == data_type
            &&& e == endian
            &&& l == length
            &&& lf is None
            &&& match enc {
                Some(x) => encoding == Some(x@),
                None => encoding is None,
            }
        },
        _ => false,
    }
}

/// The template field of an inferred field, under the template's byte order.
pub open spec fn field_for(f: Field, g: FieldGuess, template: Endian) -> bool {
    match g.pattern {
        FieldPatternOf::Constant(b) => scalar_field_is(f, g.name, FieldType::Bytes, None, Some(b.len() as usize), None),
        FieldPatternOf::UInt8 { .. } => scalar_field_is(f, g.name, FieldType::U8, None, None, None),
        FieldPatternOf::UInt16 { endian, .. } => scalar_field_is(f, g.name, FieldType::U16, endian_override(endian, template), None, None),
        FieldPatternOf::UInt32 { endian, .. } => scalar_field_is(f, g.name, FieldType::U32, endian_override(endian, template), None, None),
        FieldPatternOf::LengthField { field_size, endian, .. } => scalar_field_is(
            f,
            "length"@,
            sized_type(field_size),
            endian_override(endian, template),
            None,
            None,
        ),
        FieldPatternOf::CountField { field_size, endian } => scalar_field_is(
            f,
            "count"@,
            sized_type(field_size),
            endian_override(endian, template),
            None,
            None,
        ),
        FieldPatternOf::AsciiChar => scalar_field_is(f, g.name, FieldType::String, None, Some(1), Some("utf-8"@)),
        FieldPatternOf::RandomBytes | FieldPatternOf::Unknown => scalar_field_is(f, g.name, FieldType::U8, None, None, None),
    }
}

fn endian_of(e: EndianGuess, default_endian: Endian) -> (r: Option<Endian>)
    ensures
        r == endian_override(e, default_endian),
{
    let f_endian = match e {
        EndianGuess::Big => Endian::Big,
        EndianGuess::Little => Endian::Little,
        EndianGuess::Uncertain => default_endian,
    };
    if f_endian != default_endian { Some(f_endian) } else { None }
}

fn sized_field_type(size: usize) -> (r: FieldType)
    ensures
        r == sized_type(size),
{
    if size == 2 {
        FieldType::U16
    } else if size == 4 {
        FieldType::U32
    } else {
        FieldType::U8
    }
}

fn plain_scalar(name: String, data_type: FieldType, endian: Option<Endian>, length: Option<usize>, encoding: Option<String>) -> (r: Field)
    ensures
        r matches Field::Scalar { name: n, data_type: t, endian: e, length: l, length_field: None, encoding: enc }
            && n@ == name@ && t == data_type && e == endian && l == length && enc == encoding,
{
    Field::Scalar { name, data_type, endian, length, length_field: None, encoding }
}

/// The template field of an inferred field.
pub fn inferred_to_field(inferred: &InferredField, default_endian: Endian) -> (r: Field)
    ensures
        field_for(r, inferred@, default_endian),
{
    proof {
        reveal_strlit("length");
        reveal_strlit("count");
        reveal_strlit("utf-8");
    }
    let name = inferred.suggested_name.clone();
    match &inferred.pattern {
        FieldPatternOf::Constant(bytes) => plain_scalar(name, FieldType::Bytes, None, Some(bytes.len()), None),
        FieldPatternOf::UInt8 { .. } => plain_scalar(name, FieldType::U8, None, None, None),
        FieldPatternOf::UInt16 { endian, .. } => plain_scalar(name, FieldType::U16, endian_of(*endian, default_endian), None, None),
        FieldPatternOf::UInt32 { endian, .. } => plain_scalar(name, FieldType::U32, endian_of(*endian, default_endian), None, None),
        FieldPatternOf::LengthField { field_size, endian, .. } => {
            plain_scalar("length".to_owned(), sized_field_type(*field_size), endian_of(*endian, default_endian), None, None)
        },
        FieldPatternOf::CountField { field_size, endian } => {
            plain_scalar("count".to_owned(), sized_field_type(*field_size), endian_of(*endian, default_endian), None, None)
        },
        FieldPatternOf::AsciiChar => plain_scalar(name, FieldType::String, None, Some(1), Some("utf-8".to_owned())),
        FieldPatternOf::RandomBytes | FieldPatternOf::Unknown => plain_scalar(name, FieldType::U8, None, None, None),
    }
}

/// `text` is the hexadecimal text of the signature run starting at `s`.
pub open spec fn signature_text(st: Seq<crate::analyzer::ByteStats>, s: int, text: Seq<char>) -> bool {
    exists|l: int| #[trigger] signature_run(st, s, l) && text == hex_text(const_bytes(st, s, s + l))
}

/// The byte order of the first field that names one, else big-endian.
fn first_named_endian(fields: &Vec<InferredField>) -> (r: Endian)
    ensures
        r == template_endian(guesses(fields@)),
{
    let ghost gs = guesses(fields@);
    let mut i: usize = 0;
    assert(gs.subrange(0, gs.len() as int) =~= gs);
    while i < fields.len()
        invariant
            gs == guesses(fields@),
            i <= fields@.len(),
            template_endian(gs) == template_endian(gs.subrange(i as int, gs.len() as int)),
        decreases fields@.len() - i,
    {
        let ghost rest = gs.subrange(i as int, gs.len() as int);
        assert(rest[0] == fields@[i as int]@);
        assert(rest.drop_first() =~= gs.subrange(i + 1, gs.len() as int));
        let e = match &fields[i].pattern {
            FieldPatternOf::UInt16 { endian: e, .. } => Some(*e),
            FieldPatternOf::UInt32 { endian: e, .. } => Some(*e),
            FieldPatternOf::LengthField { endian: e, .. } => Some(*e),
            FieldPatternOf::CountField { endian: e, .. } => Some(*e),
            _ => None,
        };
        match e {
            Some(EndianGuess::Big) => {
                return Endian::Big;
            },
            Some(EndianGuess::Little) => {
                return Endian::Little;
            },
            _ => {},
        }
        i = i + 1;
    }
    assert(gs.subrange(i as int, gs.len() as int) =~= Seq::<FieldGuess>::empty());
    Endian::default()
}

/// A template draft from the statistics: the inferred fields, the first
/// byte order they name (big-endian when none does), and the longest run
/// of constant bytes as signature.
pub fn generate_template(analysis: &PayloadAnalysis, name: Option<&str>) -> (r: ProtocolTemplate)
    requires
        stats_consistent(analysis.byte_stats@),
    ensures
        match name {
            Some(n) => r.name matches Some(x) && x@ == n@,
            None => r.name is None,
        },
        r.endian == template_endian(inferred_fields_spec(*analysis)),
        match r.signature {
            Some(sig) => signature_text(analysis.byte_stats@, sig.offset as int, sig.bytes@),
            None => !has_constant_run(analysis.byte_stats@),
        },
        r.fields@.len() == inferred_fields_spec(*analysis).len(),
        forall|i: int| 0 <= i < r.fields@.len() ==> field_for(#[trigger] r.fields@[i], inferred_fields_spec(*analysis)[i], r.endian),
{
    let inferred_fields = infer_fields(analysis);
    let ghost gs = guesses(inferred_fields@);
    let endian = first_named_endian(&inferred_fields);
    let mut fields: Vec<Field> = Vec::new();
    let mut k: usize = 0;
    while k < inferred_fields.len()
        invariant
            gs == guesses(inferred_fields@),
            k <= inferred_fields@.len(),
            fields@.len() == k,
            forall|j: int| 0 <= j < k ==> field_for(#[trigger] fields@[j], gs[j], endian),
        decreases inferred_fields@.len() - k,
    {
        let f = inferred_to_field(&inferred_fields[k], endian);
        fields.push(f);
        k = k + 1;
    }
    let signature = match detect_signature(analysis) {
        Some((offset, bytes)) => {
            let ghost l = bytes@.len() as int;
            let text = hex_encode(bytes.as_slice());
            let sig = TemplateSignature { offset, bytes: text };
            assert(signature_run(analysis.byte_stats@, sig.offset as int, l)
                && sig.bytes@ == hex_text(const_bytes(analysis.byte_stats@, sig.offset as int, sig.offset + l)));
            assert(signature_text(analysis.byte_stats@, sig.offset as int, sig.bytes@));
            Some(sig)
        },
        None => None,
    };
    let template_name = match name {
        Some(n) => Some(n.to_owned()),
        None => None,
    };
    ProtocolTemplate { name: template_name, endian, signature, fields }
}

// ---------------------------------------------------------------------
// The analysis summary

/// An uppercase hexadecimal digit.
pub open spec fn upper_hex_digit(d: nat) -> char {
    seq!['0', '1', '2', '3', '4', '5', '6', '7', '8', '9', 'A', 'B', 'C', 'D', 'E', 'F'][d as int]
}

/// A byte as `0x` and two uppercase hexadecimal digits.
pub open spec fn hex_byte_text(b: u8) -> Seq<char> {
    "0x"@ + seq![upper_hex_digit((b / 16) as nat), upper_hex_digit((b % 16) as nat)]
}

/// `s` with spaces before it up to `width` characters.
pub open spec fn pad_left(s: Seq<char>, width: nat) -> Seq<char> {
    if s.len() < width {
        Seq::new((width - s.len()) as nat, |i: int| ' ') + s
    } else {
        s
    }
}

/// The number of constant offsets among `st`.
pub open spec fn constant_count(st: Seq<crate::analyzer::ByteStats>) -> nat
    decreases st.len(),
{
    if st.len() == 0 {
        0
    } else {
        constant_count(st.drop_last()) + if st.last().is_constant { 1nat } else { 0nat }
    }
}

/// The summary line of offset `i`: its value or range, and how many values it took.
pub open spec fn byte_line(i: nat, b: crate::analyzer::ByteStats) -> Seq<char> {
    let range = if b.is_constant {
        hex_byte_text(b.constant_value->0)
    } else {
        hex_byte_text(b.min) + "-"@ + hex_byte_text(b.max)
    };
    "  ["@ + pad_left(decimal(i), 3) + "] "@ + crate::editor::pad_right(range, 10) + " "@
        + (if b.is_constant { "常量"@ } else { "变化"@ }) + " (唯一值: "@ + decimal(b.unique_values@.len()) + ")"@
}

/// The lines for the first `n` offsets, each after a line break.
pub open spec fn byte_lines(st: Seq<crate::analyzer::ByteStats>, n: nat) -> Seq<char>
    decreases n,
{
    if n == 0 {
        Seq::empty()
    } else {
        byte_lines(st, (n - 1) as nat) + "\n"@ + byte_line((n - 1) as nat, st[n - 1])
    }
}

/// The analysis summary: packet count, length range with the mean as
/// `average` renders it, the analysed offsets, the counts of constant and
/// varying offsets, and a line for each of the first 32 offsets.
pub open spec fn summary_text(a: PayloadAnalysis, average: Seq<char>) -> Seq<char> {
    let st = a.byte_stats@;
    let last = if st.len() == 0 { 0nat } else { (st.len() - 1) as nat };
    let shown = if st.len() < 32 { st.len() } else { 32 };
    "总包数: "@ + decimal(a.total_packets as nat) + "\n"@
        + "长度范围: "@ + decimal(a.min_length as nat) + " - "@ + decimal(a.max_length as nat) + " (平均 "@ + average + ")"@ + "\n"@
        + "分析字节范围: 0 - "@ + decimal(last) + "\n"@
        + "\n"@
        + "字节分布概览:"@ + "\n"@
        + "  常数字节数: "@ + decimal(constant_count(st)) + "\n"@
        + "  变字节数: "@ + decimal((st.len() - constant_count(st)) as nat) + "\n"@
        + "\n"@
        + "前32字节详情:"@
        + byte_lines(st, shown)
}

fn hex_digit_str(d: u8) -> (r: &'static str)
    requires
        d < 16,
    ensures
        r@ == seq![upper_hex_digit(d as nat)],
{
    proof {
        reveal_strlit("0"); reveal_strlit("1"); reveal_strlit("2"); reveal_strlit("3");
        reveal_strlit("4"); reveal_strlit("5"); reveal_strlit("6"); reveal_strlit("7");
        reveal_strlit("8"); reveal_strlit("9"); reveal_strlit("A"); reveal_strlit("B");
        reveal_strlit("C"); reveal_strlit("D"); reveal_strlit("E"); reveal_strlit("F");
    }
    let r = if d == 0 { "0" } else if d == 1 { "1" } else if d == 2 { "2" } else if d == 3 { "3" }
        else if d == 4 { "4" } else if d == 5 { "5" } else if d == 6 { "6" } else if d == 7 { "7" }
        else if d == 8 { "8" } else if d == 9 { "9" } else if d == 10 { "A" } else if d == 11 { "B" }
        else if d == 12 { "C" } else if d == 13 { "D" } else if d == 14 { "E" } else { "F" };
    assert(r@ =~= seq![upper_hex_digit(d as nat)]);
    r
}

fn hex_byte_string(b: u8) -> (r: String)
    ensures
        r@ == hex_byte_text(b),
{
    proof { reveal_strlit("0x"); }
    let mut s = "0x".to_owned();
    s.append(hex_digit_str(b / 16));
    s.append(hex_digit_str(b % 16));
    assert(s@ =~= hex_byte_text(b));
    s
}

fn append_padded_left(s: &mut String, text: &str, width: usize)
    ensures
        final(s)@ == old(s)@ + pad_left(text@, width as nat),
{
    let n = text.unicode_len();
    let ghost start = old(s)@;
    let mut k: usize = n;
    while k < width
        invariant
            n == text@.len(),
            n <= k,
            k >= width ==> k == n || k == width,
            s@ == start + Seq::new((k - n) as nat, |i: int| ' '),
        decreases width - k,
    {
        proof { reveal_strlit(" "); }
        s.append(" ");
        assert(s@ =~= start + Seq::new((k + 1 - n) as nat, |i: int| ' '));
        k = k + 1;
    }
    s.append(text);
    assert(s@ =~= old(s)@ + pad_left(text@, width as nat));
}

fn byte_line_string(i: usize, b: &crate::analyzer::ByteStats) -> (r: String)
    requires
        b.is_constant ==> b.constant_value is Some,
    ensures
        r@ == byte_line(i as nat, *b),
{
    proof {
        reveal_strlit("-"); reveal_strlit("  ["); reveal_strlit("] "); reveal_strlit(" ");
        reveal_strlit("常量"); reveal_strlit("变化"); reveal_strlit(" (唯一值: "); reveal_strlit(")");
    }
    let range = if b.is_constant {
        let v = match b.constant_value {
            Some(v) => v,
            None => 0,
        };
        hex_byte_string(v)
    } else {
        let mut r = hex_byte_string(b.min);
        r.append("-");
        let hi = hex_byte_string(b.max);
        r.append(hi.as_str());
        r
    };
    let mut index = String::new();
    append_decimal(&mut index, i as u64);
    let mut s = "  [".to_owned();
    append_padded_left(&mut s, index.as_str(), 3);
    s.append("] ");
    crate::editor::append_padded(&mut s, range.as_str(), 10);
    s.append(" ");
    s.append(if b.is_constant { "常量" } else { "变化" });
    s.append(" (唯一值: ");
    append_decimal(&mut s, b.unique_values.len() as u64);
    s.append(")");
    assert(s@ =~= byte_line(i as nat, *b));
    s
}

/// The analysis summary shown before template editing; `average` is the
/// mean payload length as it is to be shown.
pub fn generate_analysis_summary(analysis: &PayloadAnalysis, average: &str) -> (r: String)
    requires
        stats_consistent(analysis.byte_stats@),
    ensures
        r@ == summary_text(*analysis, average@),
{
    proof {
        reveal_strlit("总包数: "); reveal_strlit("\n"); reveal_strlit("长度范围: "); reveal_strlit(" - ");
        reveal_strlit(" (平均 "); reveal_strlit(")"); reveal_strlit("分析字节范围: 0 - ");
        reveal_strlit("字节分布概览:"); reveal_strlit("  常数字节数: "); reveal_strlit("  变字节数: ");
        reveal_strlit("前32字节详情:");
    }
    let stats = &analysis.byte_stats;
    let ghost st = stats@;
    let n = stats.len();
    let mut constants: usize = 0;
    let mut i: usize = 0;
    while i < n
        invariant
            st == stats@,
            n == st.len(),
            i <= n,
            constants == constant_count(st.subrange(0, i as int)),
            constants <= i,
        decreases n - i,
    {
        assert(st.subrange(0, i + 1).drop_last() =~= st.subrange(0, i as int));
        if stats[i].is_constant {
            constants = constants + 1;
        }
        i = i + 1;
    }
    assert(st.subrange(0, n as int) =~= st);
    let mut s = "总包数: ".to_owned();
    append_decimal(&mut s, analysis.total_packets as u64);
    s.append("\n");
    s.append("长度范围: ");
    append_decimal(&mut s, analysis.min_length as u64);
    s.append(" - ");
    append_decimal(&mut s, analysis.max_length as u64);
    s.append(" (平均 ");
    s.append(average);
    s.append(")");
    s.append("\n");
    s.append("分析字节范围: 0 - ");
    append_decimal(&mut s, if n == 0 { 0 } else { (n - 1) as u64 });
    s.append("\n");
    s.append("\n");
    s.append("字节分布概览:");
    s.append("\n");
    s.append("  常数字节数: ");
    append_decimal(&mut s, constants as u64);
    s.append("\n");
    s.append("  变字节数: ");
    append_decimal(&mut s, (n - constants) as u64);
    s.append("\n");
    s.append("\n");
    s.append("前32字节详情:");
    let ghost head = s@;
    let shown = if n < 32 { n } else { 32 };
    let mut k: usize = 0;
    while k < shown
        invariant
            st == stats@,
            stats_consistent(st),
            shown <= n,
            n == st.len(),
            k <= shown,
            s@ == head + byte_lines(st, k as nat),
        decreases shown - k,
    {
        proof { reveal_strlit("\n"); }
        s.append("\n");
        let line = byte_line_string(k, &stats[k]);
        s.append(line.as_str());
        assert(s@ =~= head + byte_lines(st, (k + 1) as nat));
        k = k + 1;
    }
    assert(s@ =~= summary_text(*analysis, average@));
    s
}

// ---------------------------------------------------------------------
// A generated signature compiles to the bytes it came from

/// The signature the generator writes compiles back to the constant bytes
/// of the run it was taken from.
pub proof fn lemma_generated_signature_compiles(st: Seq<crate::analyzer::ByteStats>, sig: TemplateSignature)
    requires
        signature_text(st, sig.offset as int, sig.bytes@),
    ensures
        exists|l: int| #[trigger] signature_run(st, sig.offset as int, l)
            && crate::compiler::signature_spec(sig) == Ok::<(usize, Seq<u8>), crate::compiler::CompileFailureOf<Seq<char>>>(
                (sig.offset, const_bytes(st, sig.offset as int, sig.offset + l)),
            ),
{
    let l = choose|l: int| #[trigger] signature_run(st, sig.offset as int, l)
        && sig.bytes@ == hex_text(const_bytes(st, sig.offset as int, sig.offset + l));
    crate::hexcodec::lemma_hex_roundtrip(const_bytes(st, sig.offset as int, sig.offset + l));
}

// ---------------------------------------------------------------------
// A generated template compiles

/// Scalar fields that take no length from another field compile, and both
/// engines read them alike.
proof fn lemma_scalars_compile(fs: Seq<Field>, i: int, st: crate::compiler::CompState, dend: Endian)
    requires
        0 <= i,
        forall|k: int| i <= k < fs.len() ==> #[trigger] fs[k] matches Field::Scalar { length_field: None, .. },
    ensures
        crate::compiler::compile_fields_spec(fs, i, st, dend) is Ok,
        crate::engines::plain_fields(fs, i),
    decreases fs.len() - i,
{
    if i < fs.len() {
        assert(fs[i] matches Field::Scalar { length_field: None, .. });
        let st1 = crate::compiler::compile_field_spec(fs[i], st, dend)->Ok_0;
        lemma_scalars_compile(fs, i + 1, st1, dend);
        assert(crate::engines::plain_field(fs[i]));
    }
}

/// A template drafted from payload statistics, as `generate_template`
/// describes its result, compiles to bytecode, and is made of fields on
/// which the bytecode machine and the interpreter agree
/// (`crate::engines::lemma_engines_agree`).
pub proof fn lemma_generated_template_compiles(analysis: PayloadAnalysis, t: ProtocolTemplate)
    requires
        match t.signature {
            Some(sig) => signature_text(analysis.byte_stats@, sig.offset as int, sig.bytes@),
            None => true,
        },
        t.fields@.len() == inferred_fields_spec(analysis).len(),
        forall|i: int| 0 <= i < t.fields@.len() ==> field_for(#[trigger] t.fields@[i], inferred_fields_spec(analysis)[i], t.endian),
    ensures
        crate::compiler::compile_template_spec(t) is Ok,
        crate::engines::plain_fields(t.fields@, 0),
{
    let gs = inferred_fields_spec(analysis);
    assert forall|k: int| 0 <= k < t.fields@.len() implies #[trigger] t.fields@[k] matches Field::Scalar { length_field: None, .. } by {
        assert(field_for(t.fields@[k], gs[k], t.endian));
    }
    lemma_scalars_compile(t.fields@, 0, crate::compiler::empty_state(), t.endian);
    if let Some(sig) = t.signature {
        lemma_generated_signature_compiles(analysis.byte_stats@, sig);
    }
}

/// How many bytes a scalar field reads when its length does not come from
/// another field: its type's width, or its fixed length.
pub open spec fn field_width(f: Field) -> Option<nat> {
    match f {
        Field::Scalar { data_type, length, length_field, .. } => if crate::bytecode::scalar_field_type(data_type) {
            Some(crate::scalar::scalar_width(crate::bytecode::scalar_type_spec(data_type)))
        } else {
            match (length, length_field) {
                (Some(l), _) => Some(l as nat),
                _ => None,
            }
        },
        _ => None,
    }
}

/// The byte order a scalar field is read in under a template's default.
pub open spec fn field_byte_order(f: Field, default: Endian) -> Endian {
    match f {
        Field::Scalar { endian: Some(e), .. } => e,
        _ => default,
    }
}

/// A template drafted from payload statistics, as `generate_template`
/// describes its result, reads each multi-byte field in the byte order
/// that was guessed for it, when one was; the others in the template's.
pub proof fn lemma_generated_fields_keep_byte_order(analysis: PayloadAnalysis, t: ProtocolTemplate)
    requires
        t.fields@.len() == inferred_fields_spec(analysis).len(),
        forall|i: int| 0 <= i < t.fields@.len() ==> field_for(#[trigger] t.fields@[i], inferred_fields_spec(analysis)[i], t.endian),
    ensures
        forall|i: int| 0 <= i < t.fields@.len() ==> field_byte_order(#[trigger] t.fields@[i], t.endian) == match pattern_endian(
            inferred_fields_spec(analysis)[i].pattern,
        ) {
            Some(e) => e,
            None => t.endian,
        },
{
    assert forall|i: int| 0 <= i < t.fields@.len() implies field_byte_order(#[trigger] t.fields@[i], t.endian) == match pattern_endian(
        inferred_fields_spec(analysis)[i].pattern,
    ) {
        Some(e) => e,
        None => t.endian,
    } by {
        assert(field_for(t.fields@[i], inferred_fields_spec(analysis)[i], t.endian));
    }
}

/// A template drafted from payload statistics, as `generate_template`
/// describes its result, reads with each field as many bytes as the
/// inferred field it comes from: a 32-bit field four, a 16-bit field two, a
/// constant run its length. Its fields thus lie side by side over the
/// analysed bytes, the first at offset 0 and the last ending where the
/// analysis ends.
pub proof fn lemma_generated_fields_read_their_sizes(analysis: PayloadAnalysis, t: ProtocolTemplate)
    requires
        t.fields@.len() == inferred_fields_spec(analysis).len(),
        forall|i: int| 0 <= i < t.fields@.len() ==> field_for(#[trigger] t.fields@[i], inferred_fields_spec(analysis)[i], t.endian),
    ensures
        forall|i: int| 0 <= i < t.fields@.len() ==> field_width(#[trigger] t.fields@[i]) == Some(inferred_fields_spec(analysis)[i].size),
        crate::analyzer::tiles(inferred_fields_spec(analysis), 0, analysis.byte_stats@.len() as int),
{
    let gs = inferred_fields_spec(analysis);
    crate::analyzer::lemma_inferred_sizes(analysis);
    crate::analyzer::lemma_inferred_fields_fit(analysis);
    crate::analyzer::lemma_inferred_fields_tile(analysis);
    assert forall|i: int| 0 <= i < t.fields@.len() implies field_width(#[trigger] t.fields@[i]) == Some(gs[i].size) by {
        assert(field_for(t.fields@[i], gs[i], t.endian));
        assert(crate::analyzer::pattern_size_fits(gs[i]));
        assert(crate::analyzer::inferred_field_fits(analysis.byte_stats@, gs[i]));
        assert(analysis.byte_stats.len() == analysis.byte_stats@.len());
    }
}

} // verus!
