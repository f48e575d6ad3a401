//! The laws of the codec engine, stated and proved over the
//! mathematical model that the engine's contracts use.
//!
//! Each public proof function here states one guarantee of the engine
//! for every input its hypotheses allow: written files read back to the
//! value-set they were written from; malformed lines, absent fields and
//! unparsable values are each reported precisely, never replaced by a
//! default; and reading does not depend on the order of the lines.

use vstd::prelude::*;

use crate::codec::{
    all_lines_wf, field_line, field_result, first_at, first_bad, has_char, key_of,
    lemma_first_at, lemma_first_at_unique, lemma_first_bad, lemma_lookup_found,
    lemma_lookup_index, lemma_lookup_none, lemma_resolve_all_ok, lemma_resolve_first_err,
    line_wf, lines_of, lookup, pairs_of, render_value, resolve_fields, spec_deserialize,
    spec_parse_value, spec_serialize, spec_tag_name, split_on, val_of,
};
use crate::error::SpecError;
use crate::numeric::{lemma_u32_round_trip, lemma_u32_to_str_digits, u32_str_wf, u32_to_str};
use crate::schema::{
    SpecField, SpecValue, TypeTag, field_name_ok, schema_wf, value_has_tag, values_match,
};

verus! {

/// A value can be written losslessly only if its rendering contains
/// neither the `=` delimiter nor a line break; integer renderings
/// always qualify, text values must avoid the two characters.
pub open spec fn value_representable(v: SpecValue) -> bool {
    match v {
        SpecValue::Str(s) => !s.contains('=') && !s.contains('\n'),
        SpecValue::U32(_) => true,
    }
}

/// Whether every value of a value-set is representable.
pub open spec fn values_representable(vals: Seq<SpecValue>) -> bool {
    forall|i: int| 0 <= i < vals.len() ==> value_representable(#[trigger] vals[i])
}

/// No two parsed pairs share a key.
pub open spec fn unique_keys(ps: Seq<(Seq<char>, Seq<char>)>) -> bool {
    forall|i: int, j: int| 0 <= i < j < ps.len() ==> ps[i].0 != ps[j].0
}

/// The canonical rendering of a representable value contains neither
/// `=` nor a line break.
proof fn lemma_render_clean(v: SpecValue)
    requires
        value_representable(v),
    ensures
        forall|k: int|
            0 <= k < render_value(v).len() ==> #[trigger] render_value(v)[k] != '=' && render_value(
                v,
            )[k] != '\n',
{
    match v {
        SpecValue::Str(s) => {
            assert forall|k: int| 0 <= k < s.len() implies #[trigger] s[k] != '=' && s[k] != '\n' by {
                if s[k] == '=' {
                    assert(s.contains('='));
                }
                if s[k] == '\n' {
                    assert(s.contains('\n'));
                }
            }
        },
        SpecValue::U32(n) => {
            lemma_u32_to_str_digits(n as nat);
        },
    }
}

/// The line written for one representable field is well formed, carries
/// the field's name as its key and the value's rendering as its raw
/// value, and contains no line break.
proof fn lemma_field_line_props(f: SpecField, v: SpecValue)
    requires
        field_name_ok(f.name),
        value_representable(v),
    ensures
        line_wf(field_line(f, v)),
        key_of(field_line(f, v)) == f.name,
        val_of(field_line(f, v)) == render_value(v),
        !has_char(field_line(f, v), '\n'),
{
    let l = field_line(f, v);
    let r = render_value(v);
    lemma_render_clean(v);
    assert forall|k: int| 0 <= k < f.name.len() implies f.name[k] != '=' && f.name[k] != '\n' by {
        if f.name[k] == '=' {
            assert(f.name.contains('='));
        }
        if f.name[k] == '\n' {
            assert(f.name.contains('\n'));
        }
    }
    assert forall|k: int| 0 <= k < f.name.len() implies l[k] != '=' by {
        assert(l[k] == f.name[k]);
    }
    assert(l[f.name.len() as int] == '=');
    lemma_first_at_unique(l, '=', f.name.len() as int);
    assert(key_of(l) =~= f.name);
    assert(val_of(l) =~= r);
    let suf = l.subrange(f.name.len() as int + 1, l.len() as int);
    assert(suf =~= r);
    assert forall|k: int| 0 <= k < suf.len() implies suf[k] != '=' by {
        assert(suf[k] == r[k]);
    }
    lemma_first_at_unique(suf, '=', suf.len() as int);
    assert forall|k: int| 0 <= k < l.len() implies l[k] != '\n' by {
        if k < f.name.len() {
            assert(l[k] == f.name[k]);
        } else if k == f.name.len() {
            assert(l[k] == '=');
        } else {
            assert(l[k] == r[k - f.name.len() - 1]);
        }
    }
    lemma_first_at_unique(l, '\n', l.len() as int);
}

/// Splitting a text that starts with a separator-free segment and its
/// separator peels off exactly that segment.
proof fn lemma_split_on_prepend(l: Seq<char>, rest: Seq<char>, c: char)
    requires
        !has_char(l, c),
    ensures
        split_on(l + seq![c] + rest, c) == seq![l] + split_on(rest, c),
{
    let s = l + seq![c] + rest;
    lemma_first_at(l, c);
    assert forall|k: int| 0 <= k < l.len() implies s[k] != c by {
        assert(s[k] == l[k]);
    }
    assert(s[l.len() as int] == c);
    lemma_first_at_unique(s, c, l.len() as int);
    assert(s.subrange(0, l.len() as int) =~= l);
    assert(s.subrange(l.len() as int + 1, s.len() as int) =~= rest);
}

/// The serialized text of `n` representable fields splits on line
/// breaks into their `n` lines followed by one empty final segment.
proof fn lemma_serialize_split(fields: Seq<SpecField>, vals: Seq<SpecValue>)
    requires
        vals.len() == fields.len(),
        forall|i: int| 0 <= i < fields.len() ==> field_name_ok((#[trigger] fields[i]).name),
        values_representable(vals),
    ensures
        split_on(spec_serialize(fields, vals), '\n') == Seq::new(
            fields.len() as nat,
            |i: int| field_line(fields[i], vals[i]),
        ).push(Seq::empty()),
    decreases fields.len(),
{
    let want = Seq::new(fields.len() as nat, |i: int| field_line(fields[i], vals[i])).push(
        Seq::empty(),
    );
    if fields.len() == 0 {
        let s = spec_serialize(fields, vals);
        assert(s.len() == 0);
        assert(first_at(s, '\n') == 0);
        assert(split_on(s, '\n') == seq![s]);
        assert(seq![s] =~= want);
    } else {
        let rf = fields.drop_first();
        let rv = vals.drop_first();
        assert forall|i: int| 0 <= i < rf.len() implies field_name_ok((#[trigger] rf[i]).name) by {
            assert(rf[i] == fields[i + 1]);
        }
        assert forall|i: int| 0 <= i < rv.len() implies value_representable(#[trigger] rv[i]) by {
            assert(rv[i] == vals[i + 1]);
        }
        lemma_serialize_split(rf, rv);
        lemma_field_line_props(fields[0], vals[0]);
        let l0 = field_line(fields[0], vals[0]);
        let rest = spec_serialize(rf, rv);
        assert(spec_serialize(fields, vals) =~= l0 + seq!['\n'] + rest);
        lemma_split_on_prepend(l0, rest, '\n');
        assert(seq![l0] + split_on(rest, '\n') =~= want);
    }
}

/// Deterministic write order: the written text consists of exactly one
/// line per field, in schema declaration order, whatever the values —
/// the lines of the output are the fields' lines, in order.
pub proof fn lemma_serialize_lines(fields: Seq<SpecField>, vals: Seq<SpecValue>)
    requires
        vals.len() == fields.len(),
        forall|i: int| 0 <= i < fields.len() ==> field_name_ok((#[trigger] fields[i]).name),
        values_representable(vals),
    ensures
        lines_of(spec_serialize(fields, vals)) == Seq::new(
            fields.len() as nat,
            |i: int| field_line(fields[i], vals[i]),
        ),
{
    lemma_serialize_split(fields, vals);
    let want = Seq::new(fields.len() as nat, |i: int| field_line(fields[i], vals[i]));
    let segs = split_on(spec_serialize(fields, vals), '\n');
    assert(segs.last().len() == 0);
    assert(segs.drop_last() =~= want);
}

/// Round-trip: reading back a written value-set reconstructs it. For
/// any well-formed schema and any matching, representable value-set,
/// deserializing the serialized text yields exactly the original
/// values.
pub proof fn lemma_round_trip(fields: Seq<SpecField>, vals: Seq<SpecValue>)
    requires
        schema_wf(fields),
        values_match(fields, vals),
        values_representable(vals),
    ensures
        spec_deserialize(fields, spec_serialize(fields, vals)) == Ok::<_, SpecError>(vals),
{
    let text = spec_serialize(fields, vals);
    lemma_serialize_lines(fields, vals);
    let ls = lines_of(text);
    assert forall|i: int| 0 <= i < ls.len() implies line_wf(#[trigger] ls[i]) by {
        lemma_field_line_props(fields[i], vals[i]);
    }
    let ps = pairs_of(ls);
    assert forall|i: int| 0 <= i < fields.len() implies field_result(#[trigger] fields[i], ps)
        == Ok::<_, SpecError>(vals[i]) by {
        assert forall|k: int| 0 <= k < i implies (#[trigger] ps[k]).0 != fields[i].name by {
            lemma_field_line_props(fields[k], vals[k]);
            assert(ps[k].0 == fields[k].name);
        }
        lemma_field_line_props(fields[i], vals[i]);
        assert(ps[i].0 == fields[i].name);
        assert(ps[i].1 == render_value(vals[i]));
        lemma_lookup_found(ps, fields[i].name, i);
        match vals[i] {
            SpecValue::Str(s) => {
                assert(fields[i].tag == TypeTag::Str);
            },
            SpecValue::U32(n) => {
                assert(fields[i].tag == TypeTag::U32);
                lemma_u32_to_str_digits(n as nat);
                lemma_u32_round_trip(n as nat);
                assert(u32_str_wf(u32_to_str(n as nat)));
            },
        }
    }
    lemma_resolve_all_ok(fields, ps);
    assert(Seq::new(fields.len(), |i: int| field_result(fields[i], ps)->Ok_0) =~= vals);
}

/// Malformed-line rejection: the first line that does not split into
/// exactly two `=`-delimited parts decides the result, a `Format` error
/// carrying that line verbatim — whatever the schema.
pub proof fn lemma_malformed_line_rejected(fields: Seq<SpecField>, text: Seq<char>, j: int)
    requires
        0 <= j < lines_of(text).len(),
        !line_wf(lines_of(text)[j]),
        forall|i: int| 0 <= i < j ==> line_wf(#[trigger] lines_of(text)[i]),
    ensures
        spec_deserialize(fields, text) == Err::<Seq<SpecValue>, _>(
            SpecError::Format(lines_of(text)[j]),
        ),
{
    let ls = lines_of(text);
    lemma_first_bad(ls);
    if first_bad(ls) < j {
        assert(line_wf(ls[first_bad(ls) as int]));
    }
    assert(first_bad(ls) == j);
}

/// Missing-field detection: with every line well formed, the first
/// schema field — in schema order — whose name no line carries decides
/// the result, a `Missing` error naming that field.
pub proof fn lemma_missing_field_detected(fields: Seq<SpecField>, text: Seq<char>, f: int)
    requires
        all_lines_wf(lines_of(text)),
        0 <= f < fields.len(),
        lookup(pairs_of(lines_of(text)), fields[f].name) is None,
        forall|i: int|
            0 <= i < f ==> field_result(#[trigger] fields[i], pairs_of(lines_of(text))) is Ok,
    ensures
        spec_deserialize(fields, text) == Err::<Seq<SpecValue>, _>(
            SpecError::Missing(fields[f].name),
        ),
{
    lemma_resolve_first_err(fields, pairs_of(lines_of(text)), f);
}

/// A field absent from every line is never served by a default: the
/// read fails, whatever the other fields hold.
pub proof fn lemma_absent_field_never_ok(fields: Seq<SpecField>, text: Seq<char>, f: int)
    requires
        0 <= f < fields.len(),
        forall|k: int|
            0 <= k < pairs_of(lines_of(text)).len() ==> (#[trigger] pairs_of(
                lines_of(text),
            )[k]).0 != fields[f].name,
    ensures
        spec_deserialize(fields, text) is Err,
{
    let ls = lines_of(text);
    let ps = pairs_of(ls);
    if all_lines_wf(ls) {
        lemma_lookup_none(ps, fields[f].name);
        lemma_resolve_is_err(fields, ps, f);
    }
}

/// When some field fails to resolve, resolution fails.
proof fn lemma_resolve_is_err(fields: Seq<SpecField>, ps: Seq<(Seq<char>, Seq<char>)>, f: int)
    requires
        0 <= f < fields.len(),
        field_result(fields[f], ps) is Err,
    ensures
        resolve_fields(fields, ps) is Err,
    decreases fields.len(),
{
    if fields.len() > 0 && field_result(fields[0], ps) is Ok {
        assert(fields.drop_first()[f - 1] == fields[f]);
        lemma_resolve_is_err(fields.drop_first(), ps, f - 1);
    }
}

/// Type-mismatch detection: with every line well formed, the first
/// schema field — in schema order — whose raw value fails its declared
/// type's parse rule decides the result, a `Parse` error carrying the
/// declared type name and the raw value; no default is ever
/// substituted.
pub proof fn lemma_type_mismatch_detected(fields: Seq<SpecField>, text: Seq<char>, f: int)
    requires
        all_lines_wf(lines_of(text)),
        0 <= f < fields.len(),
        lookup(pairs_of(lines_of(text)), fields[f].name) is Some,
        spec_parse_value(
            fields[f].tag,
            lookup(pairs_of(lines_of(text)), fields[f].name)->Some_0,
        ) is None,
        forall|i: int|
            0 <= i < f ==> field_result(#[trigger] fields[i], pairs_of(lines_of(text))) is Ok,
    ensures
        spec_deserialize(fields, text) == Err::<Seq<SpecValue>, _>(
            SpecError::Parse(
                spec_tag_name(fields[f].tag),
                lookup(pairs_of(lines_of(text)), fields[f].name)->Some_0,
            ),
        ),
{
    lemma_resolve_first_err(fields, pairs_of(lines_of(text)), f);
}

/// Two pair sets on which every lookup agrees resolve every schema the
/// same way.
proof fn lemma_resolve_same_lookup(
    fields: Seq<SpecField>,
    ps1: Seq<(Seq<char>, Seq<char>)>,
    ps2: Seq<(Seq<char>, Seq<char>)>,
)
    requires
        forall|n: Seq<char>| #[trigger] lookup(ps1, n) == lookup(ps2, n),
    ensures
        resolve_fields(fields, ps1) == resolve_fields(fields, ps2),
    decreases fields.len(),
{
    if fields.len() > 0 {
        assert(lookup(ps1, fields[0].name) == lookup(ps2, fields[0].name));
        lemma_resolve_same_lookup(fields.drop_first(), ps1, ps2);
    }
}

/// Order-independence of fields on read: two texts whose well-formed
/// lines are the same up to reordering — with no key occurring twice —
/// deserialize identically, for every schema.
pub proof fn lemma_order_independence(fields: Seq<SpecField>, text1: Seq<char>, text2: Seq<char>)
    requires
        all_lines_wf(lines_of(text1)),
        lines_of(text1).to_multiset() == lines_of(text2).to_multiset(),
        unique_keys(pairs_of(lines_of(text1))),
        unique_keys(pairs_of(lines_of(text2))),
    ensures
        spec_deserialize(fields, text1) == spec_deserialize(fields, text2),
{
    broadcast use vstd::seq_lib::to_multiset_contains;

    let ls1 = lines_of(text1);
    let ls2 = lines_of(text2);
    let ps1 = pairs_of(ls1);
    let ps2 = pairs_of(ls2);
    assert forall|j: int| 0 <= j < ls2.len() implies line_wf(#[trigger] ls2[j]) by {
        assert(ls2.contains(ls2[j]));
        assert(ls2.to_multiset().count(ls2[j]) > 0);
        assert(ls1.to_multiset().count(ls2[j]) > 0);
        assert(ls1.contains(ls2[j]));
        let i = choose|i: int| 0 <= i < ls1.len() && ls1[i] == ls2[j];
        assert(line_wf(ls1[i]));
    }
    assert forall|n: Seq<char>| #[trigger] lookup(ps1, n) == lookup(ps2, n) by {
        if lookup(ps1, n) is Some {
            let j1 = lemma_lookup_index(ps1, n);
            assert(ls1.contains(ls1[j1]));
            assert(ls1.to_multiset().count(ls1[j1]) > 0);
            assert(ls2.to_multiset().count(ls1[j1]) > 0);
            assert(ls2.contains(ls1[j1]));
            let j2 = choose|j: int| 0 <= j < ls2.len() && ls2[j] == ls1[j1];
            assert(ps2[j2] == ps1[j1]);
            assert forall|k: int| 0 <= k < j2 implies (#[trigger] ps2[k]).0 != n by {
                if ps2[k].0 == n {
                    assert(ps2[k].0 == ps2[j2].0);
                }
            }
            lemma_lookup_found(ps2, n, j2);
        } else {
            lemma_lookup_none(ps1, n);
            if lookup(ps2, n) is Some {
                let j2 = lemma_lookup_index(ps2, n);
                assert(ls2.contains(ls2[j2]));
                assert(ls2.to_multiset().count(ls2[j2]) > 0);
                assert(ls1.to_multiset().count(ls2[j2]) > 0);
                assert(ls1.contains(ls2[j2]));
                let i = choose|i: int| 0 <= i < ls1.len() && ls1[i] == ls2[j2];
                assert(ps1[i].0 == n);
            }
        }
    }
    lemma_resolve_same_lookup(fields, ps1, ps2);
}

} // verus!
