//! The edits a template editor makes to a draft template, and the labels
//! it shows for fields.

use vstd::prelude::*;
use vstd::string::{StrSliceExecFns, StringExecFns};
use crate::decimal::{append_decimal, decimal};
use crate::parser::text_u64;
use crate::template::{Endian, Field, FieldType, ProtocolTemplate};

verus! {

/// The short name of a field type.
pub open spec fn field_type_text(ft: FieldType) -> Seq<char> {
    match ft {
        FieldType::U8 => "u8"@,
        FieldType::U16 => "u16"@,
        FieldType::U32 => "u32"@,
        FieldType::U64 => "u64"@,
        FieldType::I8 => "i8"@,
        FieldType::I16 => "i16"@,
        FieldType::I32 => "i32"@,
        FieldType::I64 => "i64"@,
        FieldType::F32 => "f32"@,
        FieldType::F64 => "f64"@,
        FieldType::Bytes => "bytes"@,
        FieldType::String => "string"@,
    }
}

pub fn field_type_to_str(ft: FieldType) -> (r: &'static str)
    ensures
        r@ == field_type_text(ft),
{
    match ft {
        FieldType::U8 => "u8",
        FieldType::U16 => "u16",
        FieldType::U32 => "u32",
        FieldType::U64 => "u64",
        FieldType::I8 => "i8",
        FieldType::I16 => "i16",
        FieldType::I32 => "i32",
        FieldType::I64 => "i64",
        FieldType::F32 => "f32",
        FieldType::F64 => "f64",
        FieldType::Bytes => "bytes",
        FieldType::String => "string",
    }
}

/// `s` with spaces after it up to `width` characters.
pub open spec fn pad_right(s: Seq<char>, width: nat) -> Seq<char> {
    if s.len() < width {
        s + Seq::new((width - s.len()) as nat, |i: int| ' ')
    } else {
        s
    }
}

/// The label of the field at `idx` in the editor's list: its number, its
/// name padded to twenty characters, and what it is.
pub open spec fn field_label(idx: nat, f: Field) -> Seq<char> {
    let head = "["@ + decimal(idx) + "] "@;
    match f {
        Field::Scalar { name, data_type, length, .. } => head + pad_right(name@, 20) + " "@ + field_type_text(data_type)
            + match length {
            Some(n) => " ["@ + decimal(n as nat) + "]"@,
            None => Seq::empty(),
        },
        Field::Struct { name, fields } => head + pad_right(
            match name {
                Some(n) => n@,
                None => "(匿名)"@,
            },
            20,
        ) + " struct ("@ + decimal(fields@.len()) + "字段)"@,
        Field::Conditional { name, .. } => head + pad_right(
            match name {
                Some(n) => n@,
                None => "(匿名)"@,
            },
            20,
        ) + " conditional"@,
        Field::Array { name, element, .. } => head + pad_right(name@, 20) + " "@ + match *element {
            Field::Scalar { data_type, .. } => field_type_text(data_type),
            _ => "struct"@,
        } + "[]"@,
    }
}

pub(crate) fn append_padded(s: &mut String, text: &str, width: usize)
    ensures
        final(s)@ == old(s)@ + pad_right(text@, width as nat),
{
    s.append(text);
    let n = text.unicode_len();
    let ghost start = old(s)@ + text@;
    let mut k: usize = n;
    while k < width
        invariant
            n == text@.len(),
            n <= k,
            k >= width ==> k == n || k == width,
            s@ == start + Seq::new((k - n) as nat, |i: int| ' '),
        decreases width - k,
    {
        proof { reveal_strlit(" "); }
        s.append(" ");
        assert(s@ =~= start + Seq::new((k + 1 - n) as nat, |i: int| ' '));
        k = k + 1;
    }
    proof {
        if n < width {
            assert(s@ =~= old(s)@ + pad_right(text@, width as nat));
        } else {
            assert(s@ =~= old(s)@ + pad_right(text@, width as nat));
        }
    }
}

/// The label of the field at `idx` in the editor's list.
pub fn format_field_label(idx: usize, field: &Field) -> (r: String)
    ensures
        r@ == field_label(idx as nat, *field),
{
    proof {
        reveal_strlit("[");
        reveal_strlit("] ");
        reveal_strlit(" ");
        reveal_strlit(" [");
        reveal_strlit("]");
        reveal_strlit("(匿名)");
        reveal_strlit(" struct (");
        reveal_strlit("字段)");
        reveal_strlit(" conditional");
        reveal_strlit("struct");
        reveal_strlit("[]");
    }
    let mut s = String::new();
    s.append("[");
    append_decimal(&mut s, idx as u64);
    s.append("] ");
    let ghost head = "["@ + decimal(idx as nat) + "] "@;
    assert(s@ =~= head);
    match field {
        Field::Scalar { name, data_type, length, .. } => {
            append_padded(&mut s, name.as_str(), 20);
            s.append(" ");
            s.append(field_type_to_str(*data_type));
            match length {
                Some(n) => {
                    s.append(" [");
                    append_decimal(&mut s, *n as u64);
                    s.append("]");
                },
                None => {},
            }
        },
        Field::Struct { name, fields } => {
            match name {
                Some(n) => append_padded(&mut s, n.as_str(), 20),
                None => append_padded(&mut s, "(匿名)", 20),
            }
            s.append(" struct (");
            append_decimal(&mut s, fields.len() as u64);
            s.append("字段)");
        },
        Field::Conditional { name, .. } => {
            match name {
                Some(n) => append_padded(&mut s, n.as_str(), 20),
                None => append_padded(&mut s, "(匿名)", 20),
            }
            s.append(" conditional");
        },
        Field::Array { name, element, .. } => {
            append_padded(&mut s, name.as_str(), 20);
            s.append(" ");
            match &**element {
                Field::Scalar { data_type, .. } => s.append(field_type_to_str(*data_type)),
                _ => s.append("struct"),
            }
            s.append("[]");
        },
    }
    assert(s@ =~= field_label(idx as nat, *field));
    s
}

/// The field types the editor offers, in the order it lists them.
pub open spec fn editable_types() -> Seq<FieldType> {
    seq![
        FieldType::U8,
        FieldType::U16,
        FieldType::U32,
        FieldType::U64,
        FieldType::I8,
        FieldType::I16,
        FieldType::I32,
        FieldType::I64,
        FieldType::Bytes,
        FieldType::String,
    ]
}

pub fn editable_field_types() -> (r: Vec<FieldType>)
    ensures
        r@ == editable_types(),
{
    let r = vec![
        FieldType::U8,
        FieldType::U16,
        FieldType::U32,
        FieldType::U64,
        FieldType::I8,
        FieldType::I16,
        FieldType::I32,
        FieldType::I64,
        FieldType::Bytes,
        FieldType::String,
    ];
    assert(r@ =~= editable_types());
    r
}

/// Where a type stands in the editor's list; the first entry for a type
/// the list lacks.
pub open spec fn type_position(ft: FieldType) -> nat {
    match ft {
        FieldType::U8 => 0,
        FieldType::U16 => 1,
        FieldType::U32 => 2,
        FieldType::U64 => 3,
        FieldType::I8 => 4,
        FieldType::I16 => 5,
        FieldType::I32 => 6,
        FieldType::I64 => 7,
        FieldType::Bytes => 8,
        FieldType::String => 9,
        _ => 0,
    }
}

/// The entry of the editor's type list to select for a type.
pub fn type_selection_index(ft: FieldType) -> (r: usize)
    ensures
        r == type_position(ft),
        r < editable_types().len(),
        ft != FieldType::F32 && ft != FieldType::F64 ==> editable_types()[r as int] == ft,
{
    let types = editable_field_types();
    let mut sel_idx: usize = 0;
    let mut i: usize = 0;
    while i < types.len()
        invariant
            types@ == editable_types(),
            i <= types@.len(),
            sel_idx < 10,
            (exists|j: int| 0 <= j < i && types@[j] == ft) ==> sel_idx == type_position(ft),
            !(exists|j: int| 0 <= j < i && types@[j] == ft) ==> sel_idx == 0,
        decreases types@.len() - i,
    {
        if types[i] == ft {
            sel_idx = i;
        }
        i = i + 1;
    }
    proof {
        if ft != FieldType::F32 && ft != FieldType::F64 {
            assert(types@[type_position(ft) as int] == ft);
        }
    }
    sel_idx
}

/// Text read as a length, as `str::parse::<usize>` reads it.
pub open spec fn text_usize(s: Seq<char>) -> Option<usize> {
    match text_u64(s) {
        Some(v) => if v <= usize::MAX { Some(v as usize) } else { None },
        None => None,
    }
}

pub fn parse_length(text: &str) -> (r: Option<usize>)
    ensures
        r == text_usize(text@),
{
    match crate::parser::parse_text_u64(text) {
        Some(v) => if v <= usize::MAX as u64 { Some(v as usize) } else { None },
        None => None,
    }
}

/// The other byte order.
pub fn toggle_endian(t: &mut ProtocolTemplate)
    ensures
        final(t).endian == match old(t).endian {
            Endian::Big => Endian::Little,
            Endian::Little => Endian::Big,
        },
        final(t).name == old(t).name,
        final(t).signature == old(t).signature,
        final(t).fields == old(t).fields,
{
    t.endian = match t.endian {
        Endian::Big => Endian::Little,
        Endian::Little => Endian::Big,
    };
}

/// The template's name from the editor's input: none for empty input.
pub fn set_template_name(t: &mut ProtocolTemplate, name: &str)
    ensures
        match final(t).name {
            Some(n) => name@.len() > 0 && n@ == name@,
            None => name@.len() == 0,
        },
        final(t).endian == old(t).endian,
        final(t).signature == old(t).signature,
        final(t).fields == old(t).fields,
{
    t.name = if name.unicode_len() == 0 { None } else { Some(name.to_owned()) };
}

pub fn clear_signature(t: &mut ProtocolTemplate)
    ensures
        final(t).signature is None,
        final(t).name == old(t).name,
        final(t).endian == old(t).endian,
        final(t).fields == old(t).fields,
{
    t.signature = None;
}

/// The index a field moves to: `delta` places on, kept within the list.
pub open spec fn moved_index(selected: int, delta: int, len: int) -> int {
    let target = selected + delta;
    if target < 0 { 0 } else if target > len - 1 { len - 1 } else { target }
}

proof fn lemma_swap_by_moves<A>(f0: Seq<A>, f4: Seq<A>, lo: int, hi: int)
    requires
        0 <= lo < hi < f0.len(),
        f4 == f0.remove(hi).remove(lo).insert(lo, f0[hi]).insert(hi, f0[lo]),
    ensures
        f4 =~= f0.update(lo, f0[hi]).update(hi, f0[lo]),
{
    let f1 = f0.remove(hi);
    let f2 = f1.remove(lo);
    let f3 = f2.insert(lo, f0[hi]);
    assert(f4.len() == f0.len());
    assert forall|k: int| 0 <= k < f0.len() implies f4[k] == f0.update(lo, f0[hi]).update(hi, f0[lo])[k] by {
        if k < lo {
            assert(f1[k] == f0[k]);
            assert(f2[k] == f1[k]);
            assert(f3[k] == f2[k]);
        } else if k == lo {
            assert(f3[k] == f0[hi]);
        } else if k < hi {
            assert(f1[k] == f0[k]);
            assert(f2[k - 1] == f1[k]);
            assert(f3[k] == f2[k - 1]);
        } else if k > hi {
            assert(f1[k - 1] == f0[k]);
            assert(f2[k - 2] == f1[k - 1]);
            assert(f3[k - 1] == f2[k - 2]);
            assert(f4[k] == f3[k - 1]);
        }
    }
}

/// Moves the selected field `delta` places, within the list; lists of
/// fewer than two fields stay as they are.
pub fn move_field(t: &mut ProtocolTemplate, selected: usize, delta: i32)
    requires
        selected < old(t).fields@.len() <= i32::MAX as nat,
    ensures
        final(t).name == old(t).name,
        final(t).endian == old(t).endian,
        final(t).signature == old(t).signature,
        ({
            let len = old(t).fields@.len() as int;
            let j = moved_index(selected as int, delta as int, len);
            if len < 2 || j == selected {
                final(t).fields@ == old(t).fields@
            } else {
                final(t).fields@ == old(t).fields@.update(selected as int, old(t).fields@[j]).update(j, old(t).fields@[selected as int])
            }
        }),
{
    let len = t.fields.len();
    if len < 2 {
        return;
    }
    let target: i64 = selected as i64 + delta as i64;
    let new_idx: usize = if target < 0 {
        0
    } else if target > len as i64 - 1 {
        len - 1
    } else {
        target as usize
    };
    if new_idx != selected {
        let ghost f0 = t.fields@;
        let (lo, hi) = if selected < new_idx { (selected, new_idx) } else { (new_idx, selected) };
        let upper = t.fields.remove(hi);
        let lower = t.fields.remove(lo);
        t.fields.insert(lo, upper);
        t.fields.insert(hi, lower);
        proof { lemma_swap_by_moves(f0, t.fields@, lo as int, hi as int); }
        assert(t.fields@ =~= f0.update(selected as int, f0[new_idx as int]).update(new_idx as int, f0[selected as int]));
    }
}

/// Removes the selected field, when there is one.
pub fn delete_field(t: &mut ProtocolTemplate, selected: usize)
    ensures
        final(t).name == old(t).name,
        final(t).endian == old(t).endian,
        final(t).signature == old(t).signature,
        selected < old(t).fields@.len() ==> final(t).fields@ == old(t).fields@.remove(selected as int),
        selected >= old(t).fields@.len() ==> final(t).fields@ == old(t).fields@,
{
    if !t.fields.is_empty() && selected < t.fields.len() {
        t.fields.remove(selected);
    }
}

/// Adds a scalar field with only a name and a type.
pub fn add_scalar_field(t: &mut ProtocolTemplate, name: String, data_type: FieldType)
    ensures
        final(t).name == old(t).name,
        final(t).endian == old(t).endian,
        final(t).signature == old(t).signature,
        final(t).fields@.len() == old(t).fields@.len() + 1,
        final(t).fields@.subrange(0, old(t).fields@.len() as int) == old(t).fields@,
        final(t).fields@.last() == (Field::Scalar {
            name,
            data_type,
            endian: None,
            length: None,
            length_field: None,
            encoding: None,
        }),
{
    let field = Field::Scalar { name, data_type, endian: None, length: None, length_field: None, encoding: None };
    t.fields.push(field);
    assert(t.fields@.subrange(0, old(t).fields@.len() as int) =~= old(t).fields@);
}

/// The editor's changes to the scalar field at `idx`: its name, its type,
/// its length (the text read as a number, none when it is not one), and
/// its length field (none for empty text). Other fields, and indexes past
/// the end, are left as they are.
pub fn apply_scalar_edit(t: &mut ProtocolTemplate, idx: usize, new_name: String, new_type: FieldType, length_text: &str, length_field_text: String)
    ensures
        final(t).name == old(t).name,
        final(t).endian == old(t).endian,
        final(t).signature == old(t).signature,
        final(t).fields@.len() == old(t).fields@.len(),
        forall|j: int| 0 <= j < old(t).fields@.len() && j != idx ==> final(t).fields@[j] == old(t).fields@[j],
        idx < old(t).fields@.len() ==> match old(t).fields@[idx as int] {
            Field::Scalar { endian, encoding, .. } => final(t).fields@[idx as int] matches Field::Scalar {
                name: n,
                data_type: dt,
                endian: e2,
                length: l,
                length_field: lf,
                encoding: enc2,
            } && n == new_name && dt == new_type && e2 == endian && enc2 == encoding && l == text_usize(length_text@)
                && match lf {
                Some(x) => x == length_field_text && length_field_text@.len() > 0,
                None => length_field_text@.len() == 0,
            },
            _ => final(t).fields@[idx as int] == old(t).fields@[idx as int],
        },
{
    let new_len = parse_length(length_text);
    let new_len_field = if length_field_text.as_str().unicode_len() == 0 { None } else { Some(length_field_text) };
    if idx < t.fields.len() {
        let is_scalar = match &t.fields[idx] {
            Field::Scalar { .. } => true,
            _ => false,
        };
        if is_scalar {
            let old_field = t.fields.remove(idx);
            match old_field {
                Field::Scalar { endian, encoding, .. } => {
                    let f = Field::Scalar {
                        name: new_name,
                        data_type: new_type,
                        endian,
                        length: new_len,
                        length_field: new_len_field,
                        encoding,
                    };
                    t.fields.insert(idx, f);
                },
                other => {
                    t.fields.insert(idx, other);
                },
            }
        }
    }
}

/// The template a cancelled edit leaves: no name, big-endian, no signature,
/// no fields.
pub fn cancelled_template() -> (r: ProtocolTemplate)
    ensures
        r.name is None,
        r.endian == Endian::Big,
        r.signature is None,
        r.fields@.len() == 0,
{
    ProtocolTemplate { name: None, endian: Endian::Big, signature: None, fields: Vec::new() }
}

/// What an edit session gives back: nothing for a template without name,
/// signature or fields (a cancelled one), else the template.
pub fn editor_result(t: ProtocolTemplate) -> (r: Option<ProtocolTemplate>)
    ensures
        (t.fields@.len() == 0 && t.signature is None && t.name is None) ==> r is None,
        !(t.fields@.len() == 0 && t.signature is None && t.name is None) ==> r == Some(t),
{
    if t.fields.is_empty() && t.signature.is_none() && t.name.is_none() {
        None
    } else {
        Some(t)
    }
}

/// Moving a field and then moving it back by the opposite step restores
/// the order of the fields: the second move picks the first one's place
/// again, and swapping twice is no swap.
pub proof fn lemma_move_back(fs: Seq<Field>, selected: int, delta: int)
    requires
        0 <= selected < fs.len(),
        2 <= fs.len(),
        moved_index(selected, delta, fs.len() as int) != selected,
    ensures
        ({
            let j = moved_index(selected, delta, fs.len() as int);
            let moved = fs.update(selected, fs[j]).update(j, fs[selected]);
            &&& moved_index(j, selected - j, fs.len() as int) == selected
            &&& moved.update(j, moved[selected]).update(selected, moved[j]) =~= fs
        }),
{
}

/// Deleting the field just added gives back the fields from before.
pub proof fn lemma_delete_added(before: Seq<Field>, after: Seq<Field>)
    requires
        after.len() == before.len() + 1,
        after.subrange(0, before.len() as int) == before,
    ensures
        after.remove(before.len() as int) =~= before,
{
}

} // verus!
