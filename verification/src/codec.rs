//! The codec engine: the read and write algorithm over an ordered set of
//! named, typed field descriptors.
//!
//! Reading splits a text blob into lines on `\n`, requires every line to
//! split into exactly two `=`-delimited parts, and resolves each schema
//! field by name against the parsed pairs, in schema order; the first
//! failure aborts the whole read. Writing emits `name=value` lines in
//! schema declaration order, each terminated by a newline.
//!
//! Two details of the line format that the engine fixes deliberately:
//! a single empty final segment — produced by a file that ends in a
//! newline, or by an empty file — is ignored rather than rejected, so
//! that written files read back; and when several lines share a key, the
//! first occurrence wins, as lookup takes the first match.

use vstd::prelude::*;

use crate::error::{Error, SpecError};
use crate::numeric::{parse_u32, spec_parse_u32, u32_to_str, u32_to_string};
use crate::schema::{
    Schema, SpecField, SpecValue, TypeTag, Value, ValueSet, field_name_ok, schema_wf,
    value_has_tag, values_match,
};

verus! {

/// The position of the first occurrence of `c` in `s`, or `s.len()` if
/// `s` does not contain `c`.
pub open spec fn first_at(s: Seq<char>, c: char) -> nat
    decreases s.len(),
{
    if s.len() == 0 {
        0
    } else if s[0] == c {
        0
    } else {
        1 + first_at(s.drop_first(), c)
    }
}

/// Whether `s` contains the character `c`.
pub open spec fn has_char(s: Seq<char>, c: char) -> bool {
    first_at(s, c) < s.len()
}

/// The defining properties of [`first_at`]: it is the first position
/// holding `c`, or the length when there is none.
pub proof fn lemma_first_at(s: Seq<char>, c: char)
    ensures
        first_at(s, c) <= s.len(),
        forall|k: int| 0 <= k < first_at(s, c) ==> s[k] != c,
        first_at(s, c) < s.len() ==> s[first_at(s, c) as int] == c,
    decreases s.len(),
{
    if s.len() != 0 && s[0] != c {
        lemma_first_at(s.drop_first(), c);
        assert forall|k: int| 0 <= k < first_at(s, c) implies s[k] != c by {
            if k > 0 {
                assert(s.drop_first()[k - 1] == s[k]);
            }
        }
    }
}

/// Any position that is a first occurrence of `c` — or the length, when
/// no position holds `c` — is [`first_at`].
pub proof fn lemma_first_at_unique(s: Seq<char>, c: char, j: int)
    requires
        0 <= j <= s.len(),
        forall|k: int| 0 <= k < j ==> s[k] != c,
        j < s.len() ==> s[j] == c,
    ensures
        first_at(s, c) == j,
{
    lemma_first_at(s, c);
    let i = first_at(s, c) as int;
    if i < j {
        assert(s[i] != c);
    }
    if j < i {
        assert(s[j] != c);
    }
}

/// `s` split into segments on the separator `c`: always one more
/// segment than there are occurrences of `c`, none containing `c`.
pub open spec fn split_on(s: Seq<char>, c: char) -> Seq<Seq<char>>
    decreases s.len(),
{
    let i = first_at(s, c) as int;
    if i >= s.len() {
        seq![s]
    } else {
        seq![s.subrange(0, i)] + split_on(s.subrange(i + 1, s.len() as int), c)
    }
}

/// The lines of a configuration text: the `\n`-separated segments, with
/// a single empty final segment — the product of a trailing newline, or
/// of an empty text — ignored.
pub open spec fn lines_of(text: Seq<char>) -> Seq<Seq<char>> {
    let segs = split_on(text, '\n');
    if segs.len() > 0 && segs.last().len() == 0 {
        segs.drop_last()
    } else {
        segs
    }
}

/// A line is well formed when it splits into exactly two `=`-delimited
/// parts, that is, when it contains exactly one `=`.
pub open spec fn line_wf(l: Seq<char>) -> bool {
    let i = first_at(l, '=') as int;
    i < l.len() && !has_char(l.subrange(i + 1, l.len() as int), '=')
}

/// The key of a well-formed line: everything before the `=`.
pub open spec fn key_of(l: Seq<char>) -> Seq<char> {
    l.subrange(0, first_at(l, '=') as int)
}

/// The raw value of a well-formed line: everything after the `=`.
pub open spec fn val_of(l: Seq<char>) -> Seq<char> {
    l.subrange(first_at(l, '=') as int + 1, l.len() as int)
}

/// Whether every line is well formed.
pub open spec fn all_lines_wf(ls: Seq<Seq<char>>) -> bool {
    forall|i: int| 0 <= i < ls.len() ==> line_wf(#[trigger] ls[i])
}

/// The index of the first malformed line, or `ls.len()` if every line
/// is well formed.
pub open spec fn first_bad(ls: Seq<Seq<char>>) -> nat
    decreases ls.len(),
{
    if ls.len() == 0 {
        0
    } else if !line_wf(ls[0]) {
        0
    } else {
        1 + first_bad(ls.drop_first())
    }
}

/// The defining properties of [`first_bad`].
pub proof fn lemma_first_bad(ls: Seq<Seq<char>>)
    ensures
        first_bad(ls) <= ls.len(),
        forall|k: int| 0 <= k < first_bad(ls) ==> line_wf(#[trigger] ls[k]),
        first_bad(ls) < ls.len() ==> !line_wf(ls[first_bad(ls) as int]),
        all_lines_wf(ls) <==> first_bad(ls) == ls.len(),
    decreases ls.len(),
{
    if ls.len() != 0 && line_wf(ls[0]) {
        lemma_first_bad(ls.drop_first());
        assert forall|k: int| 0 <= k < first_bad(ls) implies line_wf(#[trigger] ls[k]) by {
            if k > 0 {
                assert(ls.drop_first()[k - 1] == ls[k]);
            }
        }
        if first_bad(ls) == ls.len() {
            assert forall|i: int| 0 <= i < ls.len() implies line_wf(#[trigger] ls[i]) by {
                if i > 0 {
                    assert(ls.drop_first()[i - 1] == ls[i]);
                }
            }
        }
        if all_lines_wf(ls) {
            assert forall|i: int| 0 <= i < ls.drop_first().len() implies line_wf(
                #[trigger] ls.drop_first()[i],
            ) by {
                assert(ls.drop_first()[i] == ls[i + 1]);
            }
        }
    }
}

/// The key/raw-value pairs of a sequence of lines.
pub open spec fn pairs_of(ls: Seq<Seq<char>>) -> Seq<(Seq<char>, Seq<char>)> {
    ls.map_values(|l: Seq<char>| (key_of(l), val_of(l)))
}

/// The raw value of the first pair whose key is `name`, if any: when
/// several lines share a key, the first occurrence wins.
pub open spec fn lookup(ps: Seq<(Seq<char>, Seq<char>)>, name: Seq<char>) -> Option<Seq<char>>
    decreases ps.len(),
{
    if ps.len() == 0 {
        None
    } else if ps[0].0 == name {
        Some(ps[0].1)
    } else {
        lookup(ps.drop_first(), name)
    }
}

/// [`lookup`] returns the first match.
pub proof fn lemma_lookup_found(ps: Seq<(Seq<char>, Seq<char>)>, name: Seq<char>, j: int)
    requires
        0 <= j < ps.len(),
        ps[j].0 == name,
        forall|k: int| 0 <= k < j ==> (#[trigger] ps[k]).0 != name,
    ensures
        lookup(ps, name) == Some(ps[j].1),
    decreases ps.len(),
{
    if j > 0 {
        assert(ps[0].0 != name);
        assert(ps.drop_first()[j - 1] == ps[j]);
        assert forall|k: int| 0 <= k < j - 1 implies (#[trigger] ps.drop_first()[k]).0 != name by {
            assert(ps.drop_first()[k] == ps[k + 1]);
        }
        lemma_lookup_found(ps.drop_first(), name, j - 1);
    }
}

/// [`lookup`] fails exactly when no pair carries the key.
pub proof fn lemma_lookup_none(ps: Seq<(Seq<char>, Seq<char>)>, name: Seq<char>)
    ensures
        (lookup(ps, name) is None) <==> (forall|k: int|
            0 <= k < ps.len() ==> (#[trigger] ps[k]).0 != name),
    decreases ps.len(),
{
    if ps.len() != 0 {
        lemma_lookup_none(ps.drop_first(), name);
        if ps[0].0 != name {
            if lookup(ps, name) is None {
                assert forall|k: int| 0 <= k < ps.len() implies (#[trigger] ps[k]).0 != name by {
                    if k > 0 {
                        assert(ps.drop_first()[k - 1] == ps[k]);
                    }
                }
            } else {
                assert(!(lookup(ps.drop_first(), name) is None));
                let k = choose|k: int|
                    0 <= k < ps.drop_first().len() && (#[trigger] ps.drop_first()[k]).0 == name;
                assert(ps[k + 1] == ps.drop_first()[k]);
            }
        }
    }
}

/// A witness index for a successful [`lookup`].
pub proof fn lemma_lookup_index(ps: Seq<(Seq<char>, Seq<char>)>, name: Seq<char>) -> (j: int)
    requires
        lookup(ps, name) is Some,
    ensures
        0 <= j < ps.len(),
        ps[j].0 == name,
        Some(ps[j].1) == lookup(ps, name),
    decreases ps.len(),
{
    if ps[0].0 == name {
        0
    } else {
        let j = lemma_lookup_index(ps.drop_first(), name) + 1;
        assert(ps.drop_first()[j - 1] == ps[j]);
        j
    }
}

/// What parsing a raw value string into a declared type returns:
/// text fields take the raw string verbatim; integer fields go through
/// the canonical decimal parse rule.
pub open spec fn spec_parse_value(tag: TypeTag, raw: Seq<char>) -> Option<SpecValue> {
    match tag {
        TypeTag::Str => Some(SpecValue::Str(raw)),
        TypeTag::U32 => match spec_parse_u32(raw) {
            Some(n) => Some(SpecValue::U32(n)),
            None => None,
        },
    }
}

/// The declared type's name, as reported in `Parse` errors.
pub open spec fn spec_tag_name(tag: TypeTag) -> Seq<char> {
    match tag {
        TypeTag::Str => "String"@,
        TypeTag::U32 => "u32"@,
    }
}

/// How a single schema field resolves against the parsed pairs: its
/// value, or the precise error.
pub open spec fn field_result(f: SpecField, ps: Seq<(Seq<char>, Seq<char>)>) -> Result<
    SpecValue,
    SpecError,
> {
    match lookup(ps, f.name) {
        None => Err(SpecError::Missing(f.name)),
        Some(raw) => match spec_parse_value(f.tag, raw) {
            None => Err(SpecError::Parse(spec_tag_name(f.tag), raw)),
            Some(v) => Ok(v),
        },
    }
}

/// Resolve every schema field, in schema order, against the parsed
/// pairs: all values, or the error of the first field that fails.
pub open spec fn resolve_fields(fields: Seq<SpecField>, ps: Seq<(Seq<char>, Seq<char>)>) -> Result<
    Seq<SpecValue>,
    SpecError,
>
    decreases fields.len(),
{
    if fields.len() == 0 {
        Ok(Seq::empty())
    } else {
        match field_result(fields[0], ps) {
            Err(e) => Err(e),
            Ok(v) => match resolve_fields(fields.drop_first(), ps) {
                Err(e) => Err(e),
                Ok(vs) => Ok(seq![v] + vs),
            },
        }
    }
}

/// When every field resolves, [`resolve_fields`] returns the resolved
/// values, in schema order.
pub proof fn lemma_resolve_all_ok(fields: Seq<SpecField>, ps: Seq<(Seq<char>, Seq<char>)>)
    requires
        forall|i: int| 0 <= i < fields.len() ==> field_result(#[trigger] fields[i], ps) is Ok,
    ensures
        resolve_fields(fields, ps) == Ok::<_, SpecError>(
            Seq::new(fields.len(), |i: int| field_result(fields[i], ps)->Ok_0),
        ),
    decreases fields.len(),
{
    let want = Seq::new(fields.len(), |i: int| field_result(fields[i], ps)->Ok_0);
    if fields.len() == 0 {
        assert(want =~= Seq::<SpecValue>::empty());
    } else {
        let rest = fields.drop_first();
        assert forall|i: int| 0 <= i < rest.len() implies field_result(
            #[trigger] rest[i],
            ps,
        ) is Ok by {
            assert(rest[i] == fields[i + 1]);
        }
        lemma_resolve_all_ok(rest, ps);
        let rest_want = Seq::new(rest.len(), |i: int| field_result(rest[i], ps)->Ok_0);
        assert(want =~= seq![field_result(fields[0], ps)->Ok_0] + rest_want);
    }
}

/// The first field that fails to resolve decides the error.
pub proof fn lemma_resolve_first_err(
    fields: Seq<SpecField>,
    ps: Seq<(Seq<char>, Seq<char>)>,
    j: int,
)
    requires
        0 <= j < fields.len(),
        field_result(fields[j], ps) is Err,
        forall|i: int| 0 <= i < j ==> field_result(#[trigger] fields[i], ps) is Ok,
    ensures
        resolve_fields(fields, ps) == Err::<Seq<SpecValue>, _>(field_result(fields[j], ps)->Err_0),
    decreases fields.len(),
{
    if j > 0 {
        let rest = fields.drop_first();
        assert(rest[j - 1] == fields[j]);
        assert forall|i: int| 0 <= i < j - 1 implies field_result(#[trigger] rest[i], ps) is Ok by {
            assert(rest[i] == fields[i + 1]);
        }
        lemma_resolve_first_err(rest, ps, j - 1);
    }
}

/// What deserialization returns, for every schema and every input text:
/// the value-set, or the precise first error.
pub open spec fn spec_deserialize(fields: Seq<SpecField>, text: Seq<char>) -> Result<
    Seq<SpecValue>,
    SpecError,
> {
    let ls = lines_of(text);
    if !all_lines_wf(ls) {
        Err(SpecError::Format(ls[first_bad(ls) as int]))
    } else {
        resolve_fields(fields, pairs_of(ls))
    }
}

/// The canonical rendering of a value: text verbatim, integers in
/// canonical decimal notation.
pub open spec fn render_value(v: SpecValue) -> Seq<char> {
    match v {
        SpecValue::Str(s) => s,
        SpecValue::U32(n) => u32_to_str(n as nat),
    }
}

/// The line written for one field, without its terminating newline.
pub open spec fn field_line(f: SpecField, v: SpecValue) -> Seq<char> {
    f.name + seq!['='] + render_value(v)
}

/// What serialization emits: one `name=value` line per field, each
/// terminated by a newline, concatenated in schema declaration order.
pub open spec fn spec_serialize(fields: Seq<SpecField>, vals: Seq<SpecValue>) -> Seq<char>
    decreases fields.len(),
{
    if fields.len() == 0 {
        Seq::empty()
    } else {
        field_line(fields[0], vals[0]) + seq!['\n'] + spec_serialize(
            fields.drop_first(),
            vals.drop_first(),
        )
    }
}

/// The views of a sequence of owned strings.
pub open spec fn str_views(ss: Seq<String>) -> Seq<Seq<char>> {
    ss.map_values(|x: String| x@)
}

/// The views of a sequence of owned key/value pairs.
pub open spec fn pair_views(ps: Seq<(String, String)>) -> Seq<(Seq<char>, Seq<char>)> {
    ps.map_values(|p: (String, String)| (p.0@, p.1@))
}

/// The view of a deserialization result.
pub open spec fn result_view(r: Result<ValueSet, Error>) -> Result<Seq<SpecValue>, SpecError> {
    match r {
        Ok(vs) => Ok(vs@),
        Err(e) => Err(e@),
    }
}

/// The position of the first occurrence of `c` in `s` at or after
/// `from`, if any.
fn find_from(s: &str, from: usize, c: char) -> (r: Option<usize>)
    requires
        from as int <= s@.len(),
    ensures
        match r {
            Some(j) => from <= j && (j as int) < s@.len() && s@[j as int] == c && (forall|k: int|
                from <= k < j ==> s@[k] != c),
            None => forall|k: int| from <= k < s@.len() ==> s@[k] != c,
        },
{
    let len = s.unicode_len();
    let mut i = from;
    while i < len
        invariant
            from <= i <= len,
            len == s@.len(),
            forall|k: int| from <= k < i ==> s@[k] != c,
        decreases len - i,
    {
        if s.get_char(i) == c {
            return Some(i);
        }
        i = i + 1;
    }
    None
}

/// Split `s` into segments on the separator `c`.
fn split_str(s: &str, c: char) -> (segs: Vec<String>)
    ensures
        str_views(segs@) == split_on(s@, c),
{
    let len = s.unicode_len();
    let mut segs: Vec<String> = Vec::new();
    let mut pos: usize = 0;
    proof {
        assert(str_views(segs@) =~= Seq::<Seq<char>>::empty());
        assert(s@.subrange(0, len as int) =~= s@);
        assert(str_views(segs@) + split_on(s@, c) =~= split_on(s@, c));
    }
    loop
        invariant
            pos <= len,
            len == s@.len(),
            split_on(s@, c) == str_views(segs@) + split_on(
                s@.subrange(pos as int, len as int),
                c,
            ),
        decreases len - pos,
    {
        let ghost suffix = s@.subrange(pos as int, len as int);
        let ghost old_views = str_views(segs@);
        match find_from(s, pos, c) {
            Some(j) => {
                proof {
                    assert forall|k: int| 0 <= k < j - pos implies suffix[k] != c by {
                        assert(suffix[k] == s@[pos + k]);
                    }
                    assert(suffix[j - pos] == s@[j as int]);
                    lemma_first_at_unique(suffix, c, j - pos);
                    assert(suffix.subrange(0, j - pos) =~= s@.subrange(pos as int, j as int));
                    assert(suffix.subrange(j - pos + 1, suffix.len() as int) =~= s@.subrange(
                        j as int + 1,
                        len as int,
                    ));
                }
                let seg = s.substring_char(pos, j).to_owned();
                segs.push(seg);
                proof {
                    assert(str_views(segs@) =~= old_views.push(s@.subrange(
                        pos as int,
                        j as int,
                    )));
                    assert(str_views(segs@) + split_on(
                        s@.subrange(j as int + 1, len as int),
                        c,
                    ) =~= old_views + split_on(suffix, c));
                }
                pos = j + 1;
            },
            None => {
                proof {
                    assert forall|k: int| 0 <= k < suffix.len() implies suffix[k] != c by {
                        assert(suffix[k] == s@[pos + k]);
                    }
                    lemma_first_at_unique(suffix, c, suffix.len() as int);
                    assert(split_on(suffix, c) == seq![suffix]);
                }
                let seg = s.substring_char(pos, len).to_owned();
                segs.push(seg);
                proof {
                    assert(str_views(segs@) =~= old_views.push(suffix));
                    assert(old_views.push(suffix) =~= old_views + seq![suffix]);
                }
                return segs;
            },
        }
    }
}

/// Split one line into its key and raw value, or detect that it is
/// malformed: a line is accepted exactly when it contains one `=`.
fn split_line(line: &String) -> (r: Option<(String, String)>)
    ensures
        match r {
            Some(kv) => line_wf(line@) && kv.0@ == key_of(line@) && kv.1@ == val_of(line@),
            None => !line_wf(line@),
        },
{
    let s = line.as_str();
    let len = s.unicode_len();
    match find_from(s, 0, '=') {
        None => {
            proof {
                lemma_first_at_unique(line@, '=', line@.len() as int);
            }
            None
        },
        Some(i) => {
            proof {
                lemma_first_at_unique(line@, '=', i as int);
            }
            let ghost suf = line@.subrange(i as int + 1, line@.len() as int);
            match find_from(s, i + 1, '=') {
                Some(j2) => {
                    proof {
                        assert(suf[j2 - i - 1] == line@[j2 as int]);
                        lemma_first_at(suf, '=');
                        if !has_char(suf, '=') {
                            assert(suf[j2 - i - 1] != '=');
                        }
                    }
                    None
                },
                None => {
                    proof {
                        assert forall|k: int| 0 <= k < suf.len() implies suf[k] != '=' by {
                            assert(suf[k] == line@[i + 1 + k]);
                        }
                        lemma_first_at_unique(suf, '=', suf.len() as int);
                    }
                    let key = s.substring_char(0, i).to_owned();
                    let val = s.substring_char(i + 1, len).to_owned();
                    Some((key, val))
                },
            }
        },
    }
}

/// The declared type's name, as embedded in `Parse` errors.
fn tag_name(tag: TypeTag) -> (r: String)
    ensures
        r@ == spec_tag_name(tag),
{
    match tag {
        TypeTag::Str => "String".to_owned(),
        TypeTag::U32 => "u32".to_owned(),
    }
}

/// Parse one raw value string into the declared type.
fn parse_value(tag: TypeTag, raw: &String) -> (r: Option<Value>)
    ensures
        match r {
            Some(v) => spec_parse_value(tag, raw@) == Some(v@),
            None => spec_parse_value(tag, raw@) is None,
        },
{
    match tag {
        TypeTag::Str => Some(Value::Str(raw.clone())),
        TypeTag::U32 => match parse_u32(raw.as_str()) {
            Some(n) => Some(Value::U32(n)),
            None => None,
        },
    }
}

/// Find the raw value of the first pair whose key is `name`.
fn lookup_pair<'a>(pairs: &'a Vec<(String, String)>, name: &String) -> (r: Option<&'a String>)
    ensures
        match r {
            Some(v) => lookup(pair_views(pairs@), name@) == Some(v@),
            None => lookup(pair_views(pairs@), name@) is None,
        },
{
    let mut j: usize = 0;
    while j < pairs.len()
        invariant
            j <= pairs.len(),
            forall|k: int| 0 <= k < j ==> (#[trigger] pair_views(pairs@)[k]).0 != name@,
        decreases pairs.len() - j,
    {
        if pairs[j].0 == *name {
            proof {
                lemma_lookup_found(pair_views(pairs@), name@, j as int);
            }
            return Some(&pairs[j].1);
        }
        proof {
            assert(pair_views(pairs@)[j as int].0 == pairs@[j as int].0@);
        }
        j = j + 1;
    }
    proof {
        lemma_lookup_none(pair_views(pairs@), name@);
    }
    None
}

/// Deserialize a configuration text into a value-set for `schema`, or
/// fail with the precise first error: `Format` for the first malformed
/// line, then — in schema order — `Missing` for an absent field or
/// `Parse` for a value that fails its declared type's parse rule. The
/// read is all-or-nothing: no partial value-set is ever returned.
pub fn deserialize(schema: &Schema, text: &str) -> (r: Result<ValueSet, Error>)
    ensures
        result_view(r) == spec_deserialize(schema@, text@),
{
    let mut lines = split_str(text, '\n');
    let ghost segs = str_views(lines@);
    if lines.len() > 0 && lines[lines.len() - 1].as_str().is_empty() {
        proof {
            assert(segs.last() == lines@[lines@.len() - 1]@);
        }
        lines.pop();
        proof {
            assert(str_views(lines@) =~= segs.drop_last());
        }
    }
    let ghost ls = lines_of(text@);
    proof {
        assert(str_views(lines@) == ls);
    }
    let mut pairs: Vec<(String, String)> = Vec::new();
    let mut k: usize = 0;
    while k < lines.len()
        invariant
            k <= lines.len(),
            str_views(lines@) == ls,
            ls == lines_of(text@),
            pairs@.len() == k,
            forall|i: int| 0 <= i < k ==> line_wf(#[trigger] ls[i]),
            forall|i: int|
                0 <= i < k ==> (#[trigger] pair_views(pairs@)[i]) == (key_of(ls[i]), val_of(ls[i])),
        decreases lines.len() - k,
    {
        let ghost old_pairs = pair_views(pairs@);
        proof {
            assert(lines@[k as int]@ == ls[k as int]);
        }
        match split_line(&lines[k]) {
            None => {
                proof {
                    lemma_first_bad(ls);
                    assert(!line_wf(ls[k as int]));
                    if first_bad(ls) < k {
                        assert(line_wf(ls[first_bad(ls) as int]));
                    }
                    assert(first_bad(ls) == k);
                }
                return Err(Error::Format(lines[k].clone()));
            },
            Some(kv) => {
                pairs.push(kv);
                proof {
                    assert(pair_views(pairs@) =~= old_pairs.push((kv.0@, kv.1@)));
                }
            },
        }
        k = k + 1;
    }
    proof {
        lemma_first_bad(ls);
        assert(all_lines_wf(ls));
        assert(pair_views(pairs@) =~= pairs_of(ls));
    }
    let ghost ps = pairs_of(ls);
    let mut values: Vec<Value> = Vec::new();
    let mut f: usize = 0;
    while f < schema.fields.len()
        invariant
            f <= schema.fields.len(),
            pair_views(pairs@) == ps,
            ps == pairs_of(ls),
            ls == lines_of(text@),
            all_lines_wf(ls),
            values@.len() == f,
            forall|i: int| 0 <= i < f ==> field_result(#[trigger] schema@[i], ps) is Ok,
            forall|i: int|
                0 <= i < f ==> (#[trigger] values@[i])@ == field_result(schema@[i], ps)->Ok_0,
        decreases schema.fields.len() - f,
    {
        let ghost old_values = values@;
        let fd = &schema.fields[f];
        proof {
            assert(schema@[f as int] == fd@);
        }
        match lookup_pair(&pairs, &fd.name) {
            None => {
                proof {
                    assert(field_result(schema@[f as int], ps) == Err::<SpecValue, _>(
                        SpecError::Missing(fd.name@),
                    ));
                    lemma_resolve_first_err(schema@, ps, f as int);
                }
                return Err(Error::Missing(fd.name.clone()));
            },
            Some(raw) => match parse_value(fd.tag, raw) {
                None => {
                    proof {
                        assert(field_result(schema@[f as int], ps) == Err::<SpecValue, _>(
                            SpecError::Parse(spec_tag_name(fd.tag), raw@),
                        ));
                        lemma_resolve_first_err(schema@, ps, f as int);
                    }
                    return Err(Error::Parse(tag_name(fd.tag), raw.clone()));
                },
                Some(v) => {
                    proof {
                        assert(field_result(schema@[f as int], ps) == Ok::<_, SpecError>(v@));
                    }
                    values.push(v);
                    proof {
                        assert forall|i: int| 0 <= i < f + 1 implies (#[trigger] values@[i])@
                            == field_result(schema@[i], ps)->Ok_0 by {
                            if i < f {
                                assert(values@[i] == old_values[i]);
                            }
                        }
                    }
                },
            },
        }
        f = f + 1;
    }
    proof {
        lemma_resolve_all_ok(schema@, ps);
        assert(values@.map_values(|v: Value| v@) =~= Seq::new(
            schema@.len(),
            |i: int| field_result(schema@[i], ps)->Ok_0,
        ));
    }
    Ok(ValueSet { values })
}

/// Serialize the fields from position `f` on, in schema order.
fn serialize_from(schema: &Schema, vs: &ValueSet, f: usize) -> (out: String)
    requires
        vs@.len() == schema@.len(),
        f as int <= schema@.len(),
    ensures
        out@ == spec_serialize(
            schema@.subrange(f as int, schema@.len() as int),
            vs@.subrange(f as int, vs@.len() as int),
        ),
    decreases schema@.len() - f,
{
    let n = schema.fields.len();
    let ghost tail_fields = schema@.subrange(f as int, schema@.len() as int);
    let ghost tail_vals = vs@.subrange(f as int, vs@.len() as int);
    if f == n {
        proof {
            assert(tail_fields =~= Seq::<SpecField>::empty());
        }
        String::new()
    } else {
        proof {
            reveal_strlit("=");
            reveal_strlit("\n");
            assert(tail_fields[0] == schema@[f as int]);
            assert(tail_vals[0] == vs@[f as int]);
            assert(tail_fields.drop_first() =~= schema@.subrange(
                f as int + 1,
                schema@.len() as int,
            ));
            assert(tail_vals.drop_first() =~= vs@.subrange(f as int + 1, vs@.len() as int));
        }
        let mut line = schema.fields[f].name.clone();
        line.append("=");
        proof {
            assert("="@ =~= seq!['=']);
            assert("\n"@ =~= seq!['\n']);
        }
        match &vs.values[f] {
            Value::Str(s) => {
                line.append(s.as_str());
            },
            Value::U32(n) => {
                let rendered = u32_to_string(*n);
                line.append(rendered.as_str());
            },
        }
        line.append("\n");
        let rest = serialize_from(schema, vs, f + 1);
        line.append(rest.as_str());
        proof {
            assert(vs@[f as int] == vs.values@[f as int]@);
            assert(line@ =~= spec_serialize(tail_fields, tail_vals));
        }
        line
    }
}

/// Serialize a value-set into its canonical text: one `name=value` line
/// per schema field, in schema declaration order, each terminated by a
/// newline. Serialization cannot fail and never mutates the value-set.
pub fn serialize(schema: &Schema, vs: &ValueSet) -> (out: String)
    requires
        vs@.len() == schema@.len(),
    ensures
        out@ == spec_serialize(schema@, vs@),
{
    let out = serialize_from(schema, vs, 0);
    proof {
        assert(schema@.subrange(0, schema@.len() as int) =~= schema@);
        assert(vs@.subrange(0, vs@.len() as int) =~= vs@);
    }
    out
}

/// Whether a field name can stand as a key: free of `=` and of line
/// breaks.
fn name_ok(name: &String) -> (r: bool)
    ensures
        r == field_name_ok(name@),
{
    let s = name.as_str();
    let no_eq = match find_from(s, 0, '=') {
        None => {
            proof {
                if name@.contains('=') {
                    let k = choose|k: int| 0 <= k < name@.len() && name@[k] == '=';
                    assert(name@[k] != '=');
                }
            }
            true
        },
        Some(j) => {
            proof {
                assert(name@[j as int] == '=');
            }
            false
        },
    };
    let no_nl = match find_from(s, 0, '\n') {
        None => {
            proof {
                if name@.contains('\n') {
                    let k = choose|k: int| 0 <= k < name@.len() && name@[k] == '\n';
                    assert(name@[k] != '\n');
                }
            }
            true
        },
        Some(j) => {
            proof {
                assert(name@[j as int] == '\n');
            }
            false
        },
    };
    no_eq && no_nl
}

impl Schema {
    /// Check the schema invariant: field names pairwise distinct, each
    /// representable as a key.
    pub fn is_wf(&self) -> (r: bool)
        ensures
            r == schema_wf(self@),
    {
        let n = self.fields.len();
        let mut i: usize = 0;
        while i < n
            invariant
                0 <= i <= n,
                n == self@.len(),
                forall|a: int, b: int| 0 <= a < b < i ==> self@[a].name != self@[b].name,
                forall|k: int| 0 <= k < i ==> field_name_ok((#[trigger] self@[k]).name),
            decreases n - i,
        {
            if !name_ok(&self.fields[i].name) {
                proof {
                    assert(!field_name_ok(self@[i as int].name));
                }
                return false;
            }
            let mut j: usize = 0;
            while j < i
                invariant
                    0 <= j <= i < n,
                    n == self@.len(),
                    forall|a: int| 0 <= a < j ==> self@[a].name != self@[i as int].name,
                decreases i - j,
            {
                if self.fields[j].name == self.fields[i].name {
                    proof {
                        assert(self@[j as int].name == self@[i as int].name);
                    }
                    return false;
                }
                proof {
                    assert(self@[j as int].name != self@[i as int].name);
                }
                j = j + 1;
            }
            i = i + 1;
        }
        true
    }
}

/// The declared type that a value inhabits.
pub fn value_tag(v: &Value) -> (t: TypeTag)
    ensures
        value_has_tag(v@, t),
        forall|u: TypeTag| value_has_tag(v@, u) ==> u == t,
{
    match v {
        Value::Str(_) => TypeTag::Str,
        Value::U32(_) => TypeTag::U32,
    }
}

impl ValueSet {
    /// Check the value-set invariant against a schema: one value per
    /// field, each of its field's declared type.
    pub fn matches_schema(&self, schema: &Schema) -> (r: bool)
        ensures
            r == values_match(schema@, self@),
    {
        let n = schema.fields.len();
        if self.values.len() != n {
            return false;
        }
        let mut i: usize = 0;
        while i < n
            invariant
                0 <= i <= n,
                n == self@.len() == schema@.len(),
                forall|k: int| 0 <= k < i ==> value_has_tag(#[trigger] self@[k], schema@[k].tag),
            decreases n - i,
        {
            let t = value_tag(&self.values[i]);
            if !(t == schema.fields[i].tag) {
                proof {
                    assert(!value_has_tag(self@[i as int], schema@[i as int].tag));
                }
                return false;
            }
            proof {
                assert(value_has_tag(self@[i as int], schema@[i as int].tag));
            }
            i = i + 1;
        }
        true
    }

    /// Look up a field's value by name: schemas resolve fields by name,
    /// not position. Returns the value at the first schema position
    /// carrying `name`, or nothing when no field has that name.
    pub fn get<'a>(&'a self, schema: &Schema, name: &String) -> (r: Option<&'a Value>)
        requires
            self@.len() == schema@.len(),
        ensures
            match r {
                Some(v) => exists|i: int|
                    0 <= i < schema@.len() && (#[trigger] schema@[i]).name == name@ && v@
                        == self@[i],
                None => forall|i: int| 0 <= i < schema@.len() ==> (#[trigger] schema@[i]).name != name@,
            },
    {
        let n = schema.fields.len();
        let mut i: usize = 0;
        while i < n
            invariant
                0 <= i <= n,
                n == self@.len() == schema@.len(),
                forall|k: int| 0 <= k < i ==> (#[trigger] schema@[k]).name != name@,
            decreases n - i,
        {
            if schema.fields[i].name == *name {
                proof {
                    assert(schema@[i as int].name == name@);
                    assert(self.values@[i as int]@ == self@[i as int]);
                }
                return Some(&self.values[i]);
            }
            proof {
                assert(schema@[i as int].name != name@);
            }
            i = i + 1;
        }
        None
    }
}

} // verus!
