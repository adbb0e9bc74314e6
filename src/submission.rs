//! Reading a multipart form submission: what to do with each part, the named
//! fields gathered from the parts, and the entity those fields hold.
use crate::bindings::{uuid_text, uuid_text_of};
use crate::entity::EntityDescriptor;
use crate::form::{
    list_fields, path1, below, decode, decode_value, encode_fields, fields_below, fields_view, fits, form_fields,
    lemma_below_append, lemma_below_nest, nest, nest_into, DecodeError, FieldsView, FormField,
};
use crate::name_path::{
    bracket_free, child_name, encode_name, encode_path, is_valid_path,
    lemma_parse_encoded_name, parse_name, parse_name_spec, strings_view, PathView,
};
use crate::property::{lemma_view_values, view_values, PropertyValue, Value};
use crate::schema::{Kind, Schema};
use vstd::prelude::*;

verus! {

/// A field as submitted: its full name and its text.
#[derive(Clone, Debug)]
pub struct NamedField {
    pub name: String,
    pub value: String,
}

pub open spec fn named_view(fs: Seq<NamedField>) -> Seq<(Seq<char>, Seq<char>)> {
    fs.map_values(|f: NamedField| (f.name@, f.value@))
}

/// What to do with a multipart part.
#[derive(Clone, Copy, Debug, PartialEq, Eq, Structural)]
pub enum PartAction {
    /// Store the part's bytes as an uploaded file.
    StoreFile,
    /// Read the part's text as the field's value.
    ReadText,
    /// A file input left empty: nothing was uploaded.
    Skip,
    /// Refuse the submission.
    Fail(DecodeError),
}

pub open spec fn has_char(s: Seq<char>, c: char) -> bool {
    exists|i: int| 0 <= i < s.len() && s[i] == c
}

/// What is done with a part, given whether it is named and the file name it came with.
pub open spec fn part_action_spec(has_name: bool, filename: Option<Seq<char>>) -> PartAction {
    if !has_name {
        PartAction::Fail(DecodeError::NameMissing)
    } else {
        match filename {
            None => PartAction::ReadText,
            Some(f) => if f.len() == 0 {
                PartAction::Skip
            } else if has_char(f, '/') {
                PartAction::Fail(DecodeError::FilenameSlash)
            } else {
                PartAction::StoreFile
            },
        }
    }
}

fn text_has_char(s: &str, c: char) -> (r: bool)
    ensures
        r == has_char(s@, c),
{
    let cs = crate::name_path::chars_of(s);
    let mut i: usize = 0;
    while i < cs.len()
        invariant
            cs@ == s@,
            i <= cs.len(),
            forall|j: int| 0 <= j < i ==> cs@[j] != c,
        decreases cs.len() - i,
    {
        if cs[i] == c {
            return true;
        }
        i = i + 1;
    }
    false
}

/// The file name an upload is stored under: refused where there is none or
/// where it holds `/`, so that nothing is written outside the upload's own
/// directory.
pub fn upload_file_name(filename: &Option<String>) -> (r: Result<(), DecodeError>)
    ensures
        r is Ok <==> (filename matches Some(f) && f@.len() > 0 && !has_char(f@, '/')),
        r == Err::<(), DecodeError>(DecodeError::FilenameMissing) <==> (filename is None || (
        filename matches Some(f) && f@.len() == 0)),
{
    match filename {
        None => Err(DecodeError::FilenameMissing),
        Some(f) => {
            if f.as_str().is_empty() {
                proof {
                    assert(f@.len() == 0);
                }
                Err(DecodeError::FilenameMissing)
            } else if text_has_char(f.as_str(), '/') {
                proof {
                    assert(f@.len() > 0);
                }
                Err(DecodeError::FilenameSlash)
            } else {
                proof {
                    assert(f@.len() > 0);
                }
                Ok(())
            }
        },
    }
}

/// Gathers the named fields of a submission, part by part, in arrival order.
#[derive(Clone, Debug)]
pub struct FormCollector {
    pub fields: Vec<NamedField>,
}

impl FormCollector {
    pub fn new() -> (r: FormCollector)
        ensures
            r.fields@.len() == 0,
    {
        FormCollector { fields: Vec::new() }
    }

    /// What to do with a part: a part without a name is refused; one without
    /// a file name is a text field; one with an empty file name is a file
    /// input left empty and is skipped; a file name holding `/` is refused
    /// before anything is written; any other file is stored.
    pub fn part_action(has_name: bool, filename: &Option<String>) -> (r: PartAction)
        ensures
            r == part_action_spec(
                has_name,
                match filename {
                    Some(f) => Some(f@),
                    None => None,
                },
            ),
    {
        if !has_name {
            return PartAction::Fail(DecodeError::NameMissing);
        }
        match filename {
            None => PartAction::ReadText,
            Some(f) => {
                if f.as_str().is_empty() {
                    proof {
                        assert(f@.len() == 0);
                    }
                    PartAction::Skip
                } else if text_has_char(f.as_str(), '/') {
                    proof {
                        assert(f@.len() > 0);
                    }
                    PartAction::Fail(DecodeError::FilenameSlash)
                } else {
                    proof {
                        assert(f@.len() > 0);
                    }
                    PartAction::StoreFile
                }
            },
        }
    }

    /// Records a text field.
    pub fn add_text(&mut self, name: String, value: String)
        ensures
            named_view(final(self).fields@) == named_view(old(self).fields@).push(
                (name@, value@),
            ),
    {
        let ghost before = self.fields@;
        self.fields.push(NamedField { name, value });
        proof {
            assert(named_view(self.fields@) =~= named_view(before).push((name@, value@)));
        }
    }

    /// Records a stored upload: the name it was uploaded as at `name[name]`, then the
    /// id it is stored under at `name[id]`.
    pub fn add_file(&mut self, name: &str, id: u128, filename: String)
        ensures
            named_view(final(self).fields@) == named_view(old(self).fields@).push(
                (name@ + "["@ + "name"@ + "]"@, filename@),
            ).push((name@ + "["@ + "id"@ + "]"@, uuid_text_of(id))),
    {
        let n1 = child_name(name, "name");
        let n2 = child_name(name, "id");
        let t = uuid_text(id);
        proof {
            reveal_strlit("[");
            reveal_strlit("]");
            assert(n1@ =~= name@ + "["@ + "name"@ + "]"@);
            assert(n2@ =~= name@ + "["@ + "id"@ + "]"@);
        }
        self.add_text(n1, filename);
        self.add_text(n2, t);
    }

    /// The entity that the gathered fields hold.
    pub fn finish(&self, schema: &Schema, entity: &EntityDescriptor) -> (r: Result<
        Vec<PropertyValue>,
        DecodeError,
    >)
        requires
            schema.wf(),
            entity.fits(schema),
        ensures
            r matches Ok(vs) ==> submission_spec(
                schema.kinds@,
                entity.fields@,
                named_view(self.fields@),
            ) == Ok::<Seq<Value>, DecodeError>(view_values(vs@)),
            r matches Err(e) ==> submission_spec(
                schema.kinds@,
                entity.fields@,
                named_view(self.fields@),
            ) == Err::<Seq<Value>, DecodeError>(e),
    {
        match parse_fields(&self.fields) {
            Err(e) => Err(e),
            Ok(fs) => decode_entity(schema, entity, &fs),
        }
    }
}

/// The fields that the names spell, or `MalformedName` where one spells no path.
pub open spec fn parsed_fields(named: Seq<(Seq<char>, Seq<char>)>) -> Result<
    FieldsView,
    DecodeError,
>
    decreases named.len(),
{
    if named.len() == 0 {
        Ok(Seq::empty())
    } else {
        match parsed_fields(named.drop_last()) {
            Err(e) => Err(e),
            Ok(fs) => match parse_name_spec(named.last().0) {
                None => Err(DecodeError::MalformedName),
                Some(p) => Ok(fs.push((p, named.last().1))),
            },
        }
    }
}

/// Each named field with its name read as a path.
pub fn parse_fields(named: &Vec<NamedField>) -> (r: Result<Vec<FormField>, DecodeError>)
    ensures
        r matches Ok(fs) ==> parsed_fields(named_view(named@)) == Ok::<FieldsView, DecodeError>(
            fields_view(fs@),
        ),
        r matches Err(e) ==> parsed_fields(named_view(named@)) == Err::<FieldsView, DecodeError>(
            e,
        ),
{
    let ghost nv = named_view(named@);
    let mut out: Vec<FormField> = Vec::new();
    let mut i: usize = 0;
    proof {
        assert(nv.subrange(0, 0) =~= Seq::<(Seq<char>, Seq<char>)>::empty());
        assert(fields_view(out@) =~= Seq::<(PathView, Seq<char>)>::empty());
    }
    while i < named.len()
        invariant
            i <= named@.len(),
            nv == named_view(named@),
            parsed_fields(nv.subrange(0, i as int)) == Ok::<FieldsView, DecodeError>(
                fields_view(out@),
            ),
        decreases named.len() - i,
    {
        proof {
            assert(nv.subrange(0, i + 1).drop_last() =~= nv.subrange(0, i as int));
        }
        match parse_name(named[i].name.as_str()) {
            None => {
                proof {
                    lemma_parsed_fields_error(nv, (i + 1) as nat);
                    assert(nv.subrange(0, nv.len() as int) =~= nv);
                }
                return Err(DecodeError::MalformedName);
            },
            Some(p) => {
                let ghost before = out@;
                out.push(FormField { path: p, value: named[i].value.clone() });
                proof {
                    assert(fields_view(out@) =~= fields_view(before).push(out@.last().view()));
                }
            },
        }
        i = i + 1;
    }
    proof {
        assert(nv.subrange(0, i as int) =~= nv);
    }
    Ok(out)
}

proof fn lemma_parsed_fields_error(nv: Seq<(Seq<char>, Seq<char>)>, i: nat)
    requires
        i <= nv.len(),
        parsed_fields(nv.subrange(0, i as int)) is Err,
    ensures
        parsed_fields(nv) == parsed_fields(nv.subrange(0, i as int)),
    decreases nv.len() - i,
{
    if i < nv.len() {
        assert(nv.subrange(0, (i + 1) as int).drop_last() =~= nv.subrange(0, i as int));
        lemma_parsed_fields_error(nv, i + 1);
    } else {
        assert(nv.subrange(0, i as int) =~= nv);
    }
}

impl EntityDescriptor {
    /// Every field's kind is registered in `schema` and its name holds no bracket.
    pub open spec fn fits(&self, schema: &Schema) -> bool {
        forall|j: int|
            0 <= j < self.fields@.len() ==> #[trigger] self.fields@[j].kind < schema.kinds@.len()
                && bracket_free(self.fields@[j].name@)
    }
}

impl EntityDescriptor {
    /// Whether every field's kind is registered in `schema` and no field name holds a bracket.
    pub fn fits_schema(&self, schema: &Schema) -> (r: bool)
        ensures
            r == self.fits(schema),
    {
        let mut i: usize = 0;
        while i < self.fields.len()
            invariant
                i <= self.fields@.len(),
                forall|j: int|
                    0 <= j < i ==> #[trigger] self.fields@[j].kind < schema.kinds@.len()
                        && bracket_free(self.fields@[j].name@),
            decreases self.fields.len() - i,
        {
            let f = &self.fields[i];
            if f.kind >= schema.kinds.len() || !crate::name_path::text_bracket_free(&f.name) {
                return false;
            }
            i = i + 1;
        }
        true
    }
}

/// The values of the first `n` input fields of an entity, each read from
/// the fields below its name; fields not shown in the form are not read.
pub open spec fn decode_entity_spec(
    kinds: Seq<Kind>,
    dfields: Seq<crate::entity::FieldDescriptor>,
    fs: FieldsView,
    n: nat,
) -> Result<Seq<Value>, DecodeError>
    decreases n,
{
    if n == 0 {
        Ok(Seq::empty())
    } else {
        match decode_entity_spec(kinds, dfields, fs, (n - 1) as nat) {
            Err(e) => Err(e),
            Ok(vs) => {
                let d = dfields[(n - 1) as int];
                if d.skip_input {
                    Ok(vs)
                } else {
                    match decode(kinds, d.kind as nat, below(fs, d.name@)) {
                        Ok(v) => Ok(vs.push(v)),
                        Err(e) => Err(e),
                    }
                }
            },
        }
    }
}

/// What a submission of named fields holds: each name read as a path, then
/// each input field of the entity read from the fields below its name.
pub open spec fn submission_spec(
    kinds: Seq<Kind>,
    dfields: Seq<crate::entity::FieldDescriptor>,
    named: Seq<(Seq<char>, Seq<char>)>,
) -> Result<Seq<Value>, DecodeError> {
    match parsed_fields(named) {
        Err(e) => Err(e),
        Ok(fs) => decode_entity_spec(kinds, dfields, fs, dfields.len()),
    }
}

proof fn lemma_decode_entity_error(
    kinds: Seq<Kind>,
    dfields: Seq<crate::entity::FieldDescriptor>,
    fs: FieldsView,
    i: nat,
    n: nat,
)
    requires
        i <= n,
        decode_entity_spec(kinds, dfields, fs, i) is Err,
    ensures
        decode_entity_spec(kinds, dfields, fs, n) == decode_entity_spec(kinds, dfields, fs, i),
    decreases n - i,
{
    if i < n {
        lemma_decode_entity_error(kinds, dfields, fs, i, (n - 1) as nat);
    }
}

/// The values of an entity's input fields, in order, from the parsed fields.
pub fn decode_entity(schema: &Schema, entity: &EntityDescriptor, fs: &Vec<FormField>) -> (r:
    Result<Vec<PropertyValue>, DecodeError>)
    requires
        schema.wf(),
        entity.fits(schema),
    ensures
        r matches Ok(vs) ==> decode_entity_spec(
            schema.kinds@,
            entity.fields@,
            fields_view(fs@),
            entity.fields@.len(),
        ) == Ok::<Seq<Value>, DecodeError>(view_values(vs@)),
        r matches Err(e) ==> decode_entity_spec(
            schema.kinds@,
            entity.fields@,
            fields_view(fs@),
            entity.fields@.len(),
        ) == Err::<Seq<Value>, DecodeError>(e),
{
    let ghost fv = fields_view(fs@);
    let n = entity.fields.len();
    let mut out: Vec<PropertyValue> = Vec::new();
    let mut i: usize = 0;
    while i < n
        invariant
            schema.wf(),
            entity.fits(schema),
            n == entity.fields@.len(),
            fv == fields_view(fs@),
            i <= n,
            decode_entity_spec(schema.kinds@, entity.fields@, fv, i as nat) == Ok::<
                Seq<Value>,
                DecodeError,
            >(view_values(out@)),
        decreases n - i,
    {
        let d = &entity.fields[i];
        if !d.skip_input {
            let part = fields_below(fs, d.name.as_str());
            match decode_value(schema, d.kind, &part) {
                Ok(v) => {
                    let ghost before = out@;
                    out.push(v);
                    proof {
                        assert(out@.drop_last() =~= before);
                    }
                },
                Err(e) => {
                    proof {
                        lemma_decode_entity_error(
                            schema.kinds@,
                            entity.fields@,
                            fv,
                            (i + 1) as nat,
                            n as nat,
                        );
                    }
                    return Err(e);
                },
            }
        }
        i = i + 1;
    }
    Ok(out)
}

/// How many of the first `n` fields are shown in the input form.
pub open spec fn input_count(dfields: Seq<crate::entity::FieldDescriptor>, n: nat) -> nat
    decreases n,
{
    if n == 0 {
        0
    } else {
        input_count(dfields, (n - 1) as nat) + if dfields[n - 1].skip_input {
            0nat
        } else {
            1nat
        }
    }
}

/// No two fields shown in the input form share a name.
pub open spec fn input_names_distinct(dfields: Seq<crate::entity::FieldDescriptor>) -> bool {
    forall|a: int, b: int|
        0 <= a < b < dfields.len() && !dfields[a].skip_input && !dfields[b].skip_input ==> (
        #[trigger] dfields[a]).name@ != (#[trigger] dfields[b]).name@
}

/// The fields a form showing the entity's input values submits unchanged:
/// those of each input field, below its name.
pub open spec fn entity_fields(
    kinds: Seq<Kind>,
    dfields: Seq<crate::entity::FieldDescriptor>,
    vals: Seq<Value>,
    n: nat,
) -> FieldsView
    decreases n,
{
    if n == 0 {
        Seq::empty()
    } else {
        let d = dfields[n - 1];
        let rest = entity_fields(kinds, dfields, vals, (n - 1) as nat);
        if d.skip_input {
            rest
        } else {
            rest + nest(
                d.name@,
                form_fields(kinds, d.kind as nat, vals[input_count(dfields, (n - 1) as nat) as int]),
            )
        }
    }
}

/// Every input value fits its field's kind.
pub open spec fn values_fit(
    kinds: Seq<Kind>,
    dfields: Seq<crate::entity::FieldDescriptor>,
    vals: Seq<Value>,
) -> bool {
    forall|j: int|
        0 <= j < dfields.len() && !dfields[j].skip_input ==> fits(
            kinds,
            (#[trigger] dfields[j]).kind as nat,
            vals[input_count(dfields, j as nat) as int],
        )
}

proof fn lemma_input_count_le(dfields: Seq<crate::entity::FieldDescriptor>, a: nat, b: nat)
    requires
        a <= b <= dfields.len(),
    ensures
        input_count(dfields, a) <= input_count(dfields, b),
        a < b && !dfields[a as int].skip_input ==> input_count(dfields, a) < input_count(dfields, b),
    decreases b - a,
{
    if a < b {
        lemma_input_count_le(dfields, a, (b - 1) as nat);
    }
}

proof fn lemma_below_entity_fields(
    kinds: Seq<Kind>,
    dfields: Seq<crate::entity::FieldDescriptor>,
    vals: Seq<Value>,
    n: nat,
    j: int,
)
    requires
        n <= dfields.len(),
        0 <= j < dfields.len(),
        !dfields[j].skip_input,
        input_names_distinct(dfields),
    ensures
        below(entity_fields(kinds, dfields, vals, n), dfields[j].name@) == if j < n {
            form_fields(kinds, dfields[j].kind as nat, vals[input_count(dfields, j as nat) as int])
        } else {
            Seq::<(crate::name_path::PathView, Seq<char>)>::empty()
        },
    decreases n,
{
    let s = dfields[j].name@;
    if n == 0 {
    } else {
        let m = (n - 1) as nat;
        lemma_below_entity_fields(kinds, dfields, vals, m, j);
        let d = dfields[m as int];
        if !d.skip_input {
            let g = form_fields(kinds, d.kind as nat, vals[input_count(dfields, m) as int]);
            let rest = entity_fields(kinds, dfields, vals, m);
            lemma_below_append(rest, nest(d.name@, g), s);
            lemma_below_nest(d.name@, s, g);
            if j == m {
                assert(Seq::<(crate::name_path::PathView, Seq<char>)>::empty() + g =~= g);
            } else {
                if j < m {
                    assert(dfields[j].name@ != dfields[m as int].name@);
                } else {
                    assert(dfields[m as int].name@ != dfields[j].name@);
                }
                assert(below(rest, s) + Seq::<(crate::name_path::PathView, Seq<char>)>::empty()
                    =~= below(rest, s));
            }
        }
    }
}

proof fn lemma_decode_entity_fields(
    kinds: Seq<Kind>,
    dfields: Seq<crate::entity::FieldDescriptor>,
    vals: Seq<Value>,
    fs: FieldsView,
    n: nat,
)
    requires
        n <= dfields.len(),
        input_count(dfields, dfields.len() as nat) == vals.len(),
        forall|j: int|
            0 <= j < dfields.len() && !dfields[j].skip_input ==> decode(
                kinds,
                (#[trigger] dfields[j]).kind as nat,
                below(fs, dfields[j].name@),
            ) == Ok::<Value, DecodeError>(vals[input_count(dfields, j as nat) as int]),
    ensures
        decode_entity_spec(kinds, dfields, fs, n) == Ok::<Seq<Value>, DecodeError>(
            vals.subrange(0, input_count(dfields, n) as int),
        ),
    decreases n,
{
    if n > 0 {
        let m = (n - 1) as nat;
        lemma_decode_entity_fields(kinds, dfields, vals, fs, m);
        lemma_input_count_le(dfields, n, dfields.len() as nat);
        if !dfields[m as int].skip_input {
            assert(vals.subrange(0, input_count(dfields, m) as int).push(
                vals[input_count(dfields, m) as int],
            ) =~= vals.subrange(0, input_count(dfields, n) as int));
        }
    } else {
        assert(vals.subrange(0, 0) =~= Seq::<Value>::empty());
    }
}

proof fn lemma_round_trips(kinds: Seq<Kind>, k: nat, v: Value, fs: FieldsView)
    requires
        fs == form_fields(kinds, k, v),
        fits(kinds, k, v) ==> decode(kinds, k, fs) == Ok::<Value, DecodeError>(v),
    ensures
        round_trips(kinds, k, v),
{
    reveal(round_trips);
}

proof fn lemma_entity_fields_step(
    kinds: Seq<Kind>,
    dfields: Seq<crate::entity::FieldDescriptor>,
    vals: Seq<Value>,
    j: nat,
)
    requires
        j < dfields.len(),
    ensures
        entity_fields(kinds, dfields, vals, j + 1) == if dfields[j as int].skip_input {
            entity_fields(kinds, dfields, vals, j)
        } else {
            entity_fields(kinds, dfields, vals, j) + nest(
                dfields[j as int].name@,
                form_fields(kinds, dfields[j as int].kind as nat, vals[input_count(dfields, j) as int]),
            )
        },
{
}

proof fn lemma_entity_round_trip(
    kinds: Seq<Kind>,
    dfields: Seq<crate::entity::FieldDescriptor>,
    vals: Seq<Value>,
    fs: FieldsView,
)
    requires
        fs == entity_fields(kinds, dfields, vals, dfields.len() as nat),
        values_fit(kinds, dfields, vals),
        input_names_distinct(dfields),
        input_count(dfields, dfields.len() as nat) == vals.len(),
        forall|i: int|
            0 <= i < dfields.len() && !dfields[i].skip_input ==> round_trips(
                kinds,
                (#[trigger] dfields[i]).kind as nat,
                vals[input_count(dfields, i as nat) as int],
            ),
    ensures
        decode_entity_spec(kinds, dfields, fs, dfields.len() as nat) == Ok::<Seq<Value>, DecodeError>(
            vals,
        ),
{
    assert forall|i: int| 0 <= i < dfields.len() && !dfields[i].skip_input implies decode(
        kinds,
        (#[trigger] dfields[i]).kind as nat,
        below(fs, dfields[i].name@),
    ) == Ok::<Value, DecodeError>(vals[input_count(dfields, i as nat) as int]) by {
        lemma_below_entity_fields(kinds, dfields, vals, dfields.len() as nat, i);
        reveal(round_trips);
        assert(round_trips(kinds, dfields[i].kind as nat, vals[input_count(dfields, i as nat) as int]));
    }
    lemma_decode_entity_fields(kinds, dfields, vals, fs, dfields.len() as nat);
    assert(vals.subrange(0, vals.len() as int) =~= vals);
}

/// A value of kind `k` that fits it reads back from its own fields.
#[verifier::opaque]
pub open spec fn round_trips(kinds: Seq<Kind>, k: nat, v: Value) -> bool {
    fits(kinds, k, v) ==> decode(kinds, k, form_fields(kinds, k, v)) == Ok::<Value, DecodeError>(v)
}

/// The fields a form showing an entity's input values submits unchanged.
/// Where each value fits its field's kind and no two input fields share a
/// name, the entity reads back from them as exactly those values.
#[verifier::rlimit(100)]
#[verifier::spinoff_prover]
pub fn encode_entity(schema: &Schema, entity: &EntityDescriptor, values: &Vec<PropertyValue>) -> (r:
    Vec<FormField>)
    requires
        schema.wf(),
        entity.fits(schema),
        values@.len() == input_count(entity.fields@, entity.fields@.len() as nat),
    ensures
        fields_view(r@) == entity_fields(
            schema.kinds@,
            entity.fields@,
            view_values(values@),
            entity.fields@.len() as nat,
        ),
        values_fit(schema.kinds@, entity.fields@, view_values(values@)) && input_names_distinct(
            entity.fields@,
        ) ==> decode_entity_spec(
            schema.kinds@,
            entity.fields@,
            fields_view(r@),
            entity.fields@.len() as nat,
        ) == Ok::<Seq<Value>, DecodeError>(view_values(values@)),
{
    let ghost kinds = schema.kinds@;
    let ghost dfields = entity.fields@;
    let ghost vals = view_values(values@);
    proof {
        lemma_view_values(values@);
    }
    let nvals = values.len();
    let mut r: Vec<FormField> = Vec::new();
    let mut c: usize = 0;
    let mut j: usize = 0;
    proof {
        assert(fields_view(r@) =~= Seq::<(crate::name_path::PathView, Seq<char>)>::empty());
    }
    while j < entity.fields.len()
        invariant
            schema.wf(),
            entity.fits(schema),
            kinds == schema.kinds@,
            dfields == entity.fields@,
            vals == view_values(values@),
            vals.len() == values@.len(),
            nvals == values@.len(),
            forall|i: int| 0 <= i < values@.len() ==> #[trigger] vals[i] == values@[i].view(),
            values@.len() == input_count(dfields, dfields.len() as nat),
            j <= dfields.len(),
            c as nat == input_count(dfields, j as nat),
            fields_view(r@) == entity_fields(kinds, dfields, vals, j as nat),
            forall|i: int|
                0 <= i < j && !dfields[i].skip_input ==> round_trips(
                    kinds,
                    (#[trigger] dfields[i]).kind as nat,
                    vals[input_count(dfields, i as nat) as int],
                ),
        decreases entity.fields.len() - j,
    {
        let d = &entity.fields[j];
        proof {
            assert(d.skip_input == dfields[j as int].skip_input);
            lemma_input_count_le(dfields, (j + 1) as nat, dfields.len() as nat);
            lemma_input_count_le(dfields, j as nat, dfields.len() as nat);
        }
        let ghost before = fields_view(r@);
        if !d.skip_input {
            let part = encode_fields(schema, d.kind, &values[c]);
            nest_into(&mut r, d.name.as_str(), &part);
            proof {
                assert(vals[c as int] == values@[c as int].view());
                lemma_round_trips(kinds, d.kind as nat, vals[c as int], fields_view(part@));
                lemma_entity_fields_step(kinds, dfields, vals, j as nat);
                assert(c < nvals);
            }
            c = c + 1;
        } else {
            proof {
                lemma_entity_fields_step(kinds, dfields, vals, j as nat);
            }
        }
        j = j + 1;
    }
    proof {
        if values_fit(kinds, dfields, vals) && input_names_distinct(dfields) {
            lemma_entity_round_trip(kinds, dfields, vals, fields_view(r@));
        }
    }
    r
}

/// Every segment of every path holds no bracket.
pub open spec fn segments_ok(fs: FieldsView) -> bool {
    forall|i: int, m: int|
        0 <= i < fs.len() && 0 <= m < fs[i].0.len() ==> bracket_free(#[trigger] fs[i].0[m])
}

/// The names of the fields, with their texts.
pub open spec fn names_of(fs: FieldsView) -> Seq<(Seq<char>, Seq<char>)> {
    fs.map_values(|f: (PathView, Seq<char>)| (encode_name(f.0), f.1))
}

proof fn lemma_segments_append(a: FieldsView, b: FieldsView)
    requires
        segments_ok(a),
        segments_ok(b),
    ensures
        segments_ok(a + b),
{
    assert forall|i: int, m: int| 0 <= i < (a + b).len() && 0 <= m < (a + b)[i].0.len() implies bracket_free(
        #[trigger] (a + b)[i].0[m],
    ) by {
        if i < a.len() {
            assert((a + b)[i] == a[i]);
        } else {
            assert((a + b)[i] == b[i - a.len()]);
        }
    }
}

proof fn lemma_segments_nest(seg: Seq<char>, g: FieldsView)
    requires
        bracket_free(seg),
        segments_ok(g),
    ensures
        segments_ok(nest(seg, g)),
        forall|i: int| 0 <= i < nest(seg, g).len() ==> #[trigger] nest(seg, g)[i].0.len() > 0,
{
    assert forall|i: int, m: int|
        0 <= i < nest(seg, g).len() && 0 <= m < nest(seg, g)[i].0.len() implies bracket_free(
        #[trigger] nest(seg, g)[i].0[m],
    ) by {
        assert(nest(seg, g)[i].0 == seq![seg] + g[i].0);
        if m > 0 {
            assert(nest(seg, g)[i].0[m] == g[i].0[m - 1]);
        }
    }
}

proof fn lemma_literal_segments()
    ensures
        bracket_free("id_old"@),
        bracket_free("name_old"@),
        bracket_free("alt_text"@),
{
    reveal_strlit("id_old");
    reveal_strlit("name_old");
    reveal_strlit("alt_text");
}

proof fn lemma_single_segment(s: Seq<char>, v: Seq<char>)
    requires
        bracket_free(s),
    ensures
        segments_ok(seq![(path1(s), v)]),
{
}

/// The paths of the fields a value submits hold no bracket in any segment.
proof fn lemma_form_fields_segments(kinds: Seq<Kind>, k: nat, v: Value)
    requires
        crate::schema::kinds_wf(kinds),
    ensures
        segments_ok(form_fields(kinds, k, v)),
    decreases k, 0nat,
{
    if k < kinds.len() {
        assert(crate::schema::kind_wf(kinds[k as int], k));
        match kinds[k as int] {
            Kind::File => {
                if let Value::File(f) = v {
                    lemma_literal_segments();
                    let a = (path1("id_old"@), crate::bindings::uuid_text_of(f.id));
                    let b = (path1("name_old"@), f.name);
                    lemma_single_segment("id_old"@, a.1);
                    lemma_single_segment("name_old"@, b.1);
                    lemma_segments_append(seq![a], seq![b]);
                    assert(seq![a] + seq![b] =~= form_fields(kinds, k, v));
                }
            },
            Kind::Image => {
                if let Value::Image(f, alt) = v {
                    lemma_literal_segments();
                    let a = (path1("id_old"@), crate::bindings::uuid_text_of(f.id));
                    let b = (path1("name_old"@), f.name);
                    let c = (path1("alt_text"@), alt);
                    lemma_single_segment("id_old"@, a.1);
                    lemma_single_segment("name_old"@, b.1);
                    lemma_single_segment("alt_text"@, c.1);
                    lemma_segments_append(seq![a], seq![b]);
                    lemma_segments_append(seq![a] + seq![b], seq![c]);
                    assert(seq![a] + seq![b] + seq![c] =~= form_fields(kinds, k, v));
                }
            },
            Kind::List(e) => {
                if let Value::List(items) = v {
                    lemma_list_fields_segments(kinds, e as nat, items, items.len());
                }
            },
            Kind::Optional(e) => {
                if let Value::Optional(Some(b)) = v {
                    lemma_form_fields_segments(kinds, e as nat, *b);
                }
            },
            Kind::Union(u) => {
                if let Value::Variant(name, payload) = v {
                    lemma_single_segment(u.tag@, name);
                    let head = seq![(path1(u.tag@), name)];
                    match crate::schema::variant_index(u.variants@, name) {
                        Some(j) => {
                            crate::schema::lemma_variant_index(u.variants@, name);
                            match (u.variants@[j as int].payload, payload) {
                                (Some(p), Some(b)) => {
                                    lemma_form_fields_segments(kinds, p as nat, *b);
                                    lemma_segments_nest(u.content@, form_fields(kinds, p as nat, *b));
                                    lemma_segments_append(
                                        head,
                                        nest(u.content@, form_fields(kinds, p as nat, *b)),
                                    );
                                },
                                _ => {
                                    assert(head + Seq::<(PathView, Seq<char>)>::empty() =~= head);
                                },
                            }
                        },
                        None => {
                            assert(head + Seq::<(PathView, Seq<char>)>::empty() =~= head);
                        },
                    }
                }
            },
            _ => {},
        }
    }
}

proof fn lemma_list_fields_segments(kinds: Seq<Kind>, e: nat, items: Seq<Value>, n: nat)
    requires
        crate::schema::kinds_wf(kinds),
        n <= items.len(),
    ensures
        segments_ok(list_fields(kinds, e, items, n)),
    decreases e, n,
{
    if n > 0 {
        let m = (n - 1) as nat;
        lemma_list_fields_segments(kinds, e, items, m);
        lemma_form_fields_segments(kinds, e, items[m as int]);
        crate::name_path::lemma_decimal_digits(m);
        let d = crate::name_path::decimal(m);
        assert(bracket_free(d)) by {
            assert forall|i: int| 0 <= i < d.len() implies #[trigger] d[i] != '[' && d[i] != ']' by {
                assert(crate::name_path::is_digit(d[i]));
            }
        }
        lemma_segments_nest(d, form_fields(kinds, e, items[m as int]));
        lemma_segments_append(
            list_fields(kinds, e, items, m),
            nest(d, form_fields(kinds, e, items[m as int])),
        );
    }
}

/// The fields of an entity lie below input field names, with no bracket in any segment.
proof fn lemma_entity_fields_valid(
    kinds: Seq<Kind>,
    dfields: Seq<crate::entity::FieldDescriptor>,
    vals: Seq<Value>,
    n: nat,
)
    requires
        crate::schema::kinds_wf(kinds),
        n <= dfields.len(),
        forall|j: int| 0 <= j < dfields.len() ==> bracket_free(#[trigger] dfields[j].name@),
    ensures
        segments_ok(entity_fields(kinds, dfields, vals, n)),
        forall|i: int|
            0 <= i < entity_fields(kinds, dfields, vals, n).len() ==> is_valid_path(
                #[trigger] entity_fields(kinds, dfields, vals, n)[i].0,
            ),
    decreases n,
{
    if n > 0 {
        let m = (n - 1) as nat;
        lemma_entity_fields_valid(kinds, dfields, vals, m);
        let d = dfields[m as int];
        if !d.skip_input {
            let g = form_fields(kinds, d.kind as nat, vals[input_count(dfields, m) as int]);
            let rest = entity_fields(kinds, dfields, vals, m);
            lemma_form_fields_segments(kinds, d.kind as nat, vals[input_count(dfields, m) as int]);
            lemma_segments_nest(d.name@, g);
            lemma_segments_append(rest, nest(d.name@, g));
            let all = entity_fields(kinds, dfields, vals, n);
            assert(all == rest + nest(d.name@, g));
            assert forall|i: int| 0 <= i < all.len() implies is_valid_path(#[trigger] all[i].0) by {
                if i < rest.len() {
                    assert(all[i] == rest[i]);
                } else {
                    assert(all[i] == nest(d.name@, g)[i - rest.len()]);
                }
                assert forall|x: int| 0 <= x < all[i].0.len() implies bracket_free(#[trigger] all[i].0[x]) by {}
            }
        }
    }
}

proof fn lemma_parsed_names(fs: FieldsView)
    requires
        forall|i: int| 0 <= i < fs.len() ==> is_valid_path(#[trigger] fs[i].0),
    ensures
        parsed_fields(names_of(fs)) == Ok::<FieldsView, DecodeError>(fs),
    decreases fs.len(),
{
    if fs.len() > 0 {
        let init = fs.drop_last();
        assert forall|i: int| 0 <= i < init.len() implies is_valid_path(#[trigger] init[i].0) by {
            assert(init[i] == fs[i]);
        }
        lemma_parsed_names(init);
        assert(names_of(fs).drop_last() =~= names_of(init));
        lemma_parse_encoded_name(fs.last().0);
        let nm = names_of(fs);
        assert(nm.last() == (encode_name(fs.last().0), fs.last().1));
        assert(parse_name_spec(nm.last().0) == Some(fs.last().0));
        assert(init.push((fs.last().0, nm.last().1)) =~= fs);
    } else {
        assert(names_of(fs) =~= Seq::<(Seq<char>, Seq<char>)>::empty());
        assert(fs =~= Seq::<(PathView, Seq<char>)>::empty());
    }
}

/// The named fields a form showing an entity's input values submits
/// unchanged. Where each value fits its field's kind and no two input fields
/// share a name, the submission reads back as exactly those values.
pub fn encode_entity_form(schema: &Schema, entity: &EntityDescriptor, values: &Vec<PropertyValue>) -> (r:
    Vec<NamedField>)
    requires
        schema.wf(),
        entity.fits(schema),
        values@.len() == input_count(entity.fields@, entity.fields@.len() as nat),
    ensures
        named_view(r@) == names_of(
            entity_fields(
                schema.kinds@,
                entity.fields@,
                view_values(values@),
                entity.fields@.len() as nat,
            ),
        ),
        values_fit(schema.kinds@, entity.fields@, view_values(values@)) && input_names_distinct(
            entity.fields@,
        ) ==> submission_spec(schema.kinds@, entity.fields@, named_view(r@)) == Ok::<
            Seq<Value>,
            DecodeError,
        >(view_values(values@)),
{
    let fs = encode_entity(schema, entity, values);
    let ghost fv = fields_view(fs@);
    proof {
        assert forall|j: int| 0 <= j < entity.fields@.len() implies bracket_free(
            #[trigger] entity.fields@[j].name@,
        ) by {
            assert(entity.fields@[j].kind < schema.kinds@.len());
        }
        lemma_entity_fields_valid(
            schema.kinds@,
            entity.fields@,
            view_values(values@),
            entity.fields@.len() as nat,
        );
    }
    let mut r: Vec<NamedField> = Vec::new();
    let mut i: usize = 0;
    while i < fs.len()
        invariant
            i <= fs@.len(),
            fv == fields_view(fs@),
            forall|x: int| 0 <= x < fv.len() ==> is_valid_path(#[trigger] fv[x].0),
            named_view(r@) == names_of(fv.subrange(0, i as int)),
        decreases fs.len() - i,
    {
        proof {
            assert(fv[i as int].0 == strings_view(fs@[i as int].path@));
            assert(is_valid_path(fv[i as int].0));
        }
        let name = encode_path(&fs[i].path);
        let ghost before = r@;
        r.push(NamedField { name, value: fs[i].value.clone() });
        proof {
            assert(names_of(fv.subrange(0, i + 1)) =~= names_of(fv.subrange(0, i as int)).push(
                (encode_name(fv[i as int].0), fv[i as int].1),
            ));
            assert(named_view(r@) =~= named_view(before).push((name@, fs@[i as int].value@)));
        }
        i = i + 1;
    }
    proof {
        assert(fv.subrange(0, i as int) =~= fv);
        if values_fit(schema.kinds@, entity.fields@, view_values(values@)) && input_names_distinct(
            entity.fields@,
        ) {
            lemma_parsed_names(fv);
        }
    }
    r
}

} // verus!
