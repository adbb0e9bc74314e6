//! Property values as flat form fields and back.
//!
//! A value of a kind is submitted as a list of fields, each a path relative to
//! the property and a text. Scalars sit at the empty path; a list element at
//! its decimal index; a union's variant name at its tag segment and its
//! payload below its content segment; a file at `id`/`name` (a new upload) or
//! `id_old`/`name_old` (the one kept from before). Where one path occurs
//! twice, the first field wins. A list's indices must run densely from 0.
use crate::bindings::{
    in_rfc3339_range, parse_rfc3339, parse_uuid, rfc3339_of, rfc3339_parsed, rfc3339_text,
    uuid_parsed, uuid_text, uuid_text_of,
};
use crate::name_path::{
    decimal, index_segment, lemma_decimal_injective, lemma_decimal_is_index, parse_index,
    segment_index, strings_view, PathView,
};
use crate::property::{
    lemma_view_values, view_values, File, FileView, Image, Markdown, PropertyValue, Text,
    Timestamp, Value,
};
use crate::schema::{kinds_wf, lemma_variant_index, variant_index, Kind, Schema};
use vstd::prelude::*;

verus! {

/// Why a submission could not be read as a value.
#[derive(Clone, Copy, Debug, PartialEq, Eq, Structural)]
pub enum DecodeError {
    /// A multipart part came without a name.
    NameMissing,
    /// A field name is not of the form `base[seg]...[seg]`.
    MalformedName,
    /// A field that the kind needs was not submitted.
    MissingField,
    /// A checkbox value other than `true`, `on`, `false` or `off`.
    InvalidBoolean,
    /// A date-time that is not RFC 3339.
    InvalidDateTime,
    /// A file id or UUID that does not parse.
    InvalidUuid,
    /// A variant name that the union does not have.
    UnknownVariant,
    /// List indices that do not run densely from 0.
    SparseIndex,
    /// The schema refers to a kind it does not hold.
    UnknownKind,
    /// A file part came without a file name.
    FilenameMissing,
    /// A file name holds `/`.
    FilenameSlash,
}

/// One submitted field: a path and its text.
#[derive(Clone, Debug)]
pub struct FormField {
    pub path: Vec<String>,
    pub value: String,
}

pub type FieldsView = Seq<(PathView, Seq<char>)>;

impl FormField {
    pub open spec fn view(&self) -> (PathView, Seq<char>) {
        (strings_view(self.path@), self.value@)
    }
}

pub open spec fn fields_view(fs: Seq<FormField>) -> FieldsView {
    fs.map_values(|f: FormField| f.view())
}

pub open spec fn path1(s: Seq<char>) -> PathView {
    seq![s]
}

/// The text of the first field at `path`.
pub open spec fn lookup(fs: FieldsView, path: PathView) -> Option<Seq<char>>
    decreases fs.len(),
{
    if fs.len() == 0 {
        None
    } else {
        match lookup(fs.drop_last(), path) {
            Some(v) => Some(v),
            None => if fs.last().0 == path {
                Some(fs.last().1)
            } else {
                None
            },
        }
    }
}

/// The fields below segment `seg`, with that segment taken off their paths.
pub open spec fn below(fs: FieldsView, seg: Seq<char>) -> FieldsView
    decreases fs.len(),
{
    if fs.len() == 0 {
        Seq::empty()
    } else {
        let rest = below(fs.drop_last(), seg);
        let f = fs.last();
        if f.0.len() > 0 && f.0[0] == seg {
            rest.push((f.0.drop_first(), f.1))
        } else {
            rest
        }
    }
}

/// The fields put below segment `seg`.
pub open spec fn nest(seg: Seq<char>, fs: FieldsView) -> FieldsView {
    fs.map_values(|f: (PathView, Seq<char>)| (seq![seg] + f.0, f.1))
}

/// The list index that a field's first segment denotes.
pub open spec fn field_index(f: (PathView, Seq<char>)) -> Option<nat> {
    if f.0.len() > 0 {
        segment_index(f.0[0])
    } else {
        None
    }
}

/// Some field lies below index `i`.
pub open spec fn has_index(fs: FieldsView, i: nat) -> bool
    decreases fs.len(),
{
    fs.len() > 0 && (has_index(fs.drop_last(), i) || field_index(fs.last()) == Some(i))
}

/// Some field lies below an index of at least `n`.
pub open spec fn has_index_from(fs: FieldsView, n: nat) -> bool
    decreases fs.len(),
{
    fs.len() > 0 && (has_index_from(fs.drop_last(), n) || (field_index(fs.last()) matches Some(
        m,
    ) && m >= n))
}

/// The least index from `i` on that no field lies below (at most the number of fields).
pub open spec fn first_gap(fs: FieldsView, i: nat) -> nat
    decreases fs.len() - i,
{
    if i < fs.len() && has_index(fs, i) {
        first_gap(fs, i + 1)
    } else {
        i
    }
}

pub open spec fn first_of(a: Option<Seq<char>>, b: Option<Seq<char>>) -> Option<Seq<char>> {
    match a {
        Some(x) => Some(x),
        None => b,
    }
}

/// A file: a new upload's `id` and `name`, else those kept from before.
pub open spec fn decode_file(fs: FieldsView) -> Result<FileView, DecodeError> {
    match first_of(lookup(fs, path1("id"@)), lookup(fs, path1("id_old"@))) {
        None => Err(DecodeError::MissingField),
        Some(t) => match uuid_parsed(t) {
            None => Err(DecodeError::InvalidUuid),
            Some(id) => match first_of(lookup(fs, path1("name"@)), lookup(fs, path1("name_old"@))) {
                None => Err(DecodeError::MissingField),
                Some(name) => Ok(FileView { id, name }),
            },
        },
    }
}

pub open spec fn decode_bool(s: Seq<char>) -> Result<Value, DecodeError> {
    if s == "true"@ || s == "on"@ {
        Ok(Value::Boolean(true))
    } else if s == "false"@ || s == "off"@ {
        Ok(Value::Boolean(false))
    } else {
        Err(DecodeError::InvalidBoolean)
    }
}

/// The value of kind `k` that the fields `fs` hold.
pub open spec fn decode(kinds: Seq<Kind>, k: nat, fs: FieldsView) -> Result<Value, DecodeError>
    decreases k, 0nat,
{
    if k >= kinds.len() {
        Err(DecodeError::UnknownKind)
    } else {
        match kinds[k as int] {
            Kind::Text => match lookup(fs, Seq::empty()) {
                Some(s) => Ok(Value::Text(s)),
                None => Err(DecodeError::MissingField),
            },
            Kind::Markdown => match lookup(fs, Seq::empty()) {
                Some(s) => Ok(Value::Markdown(s)),
                None => Err(DecodeError::MissingField),
            },
            Kind::Boolean => match lookup(fs, Seq::empty()) {
                Some(s) => decode_bool(s),
                None => Ok(Value::Boolean(false)),
            },
            Kind::DateTime => match lookup(fs, Seq::empty()) {
                Some(s) => match rfc3339_parsed(s) {
                    Some(t) => Ok(Value::DateTime(Timestamp { secs: t.0, nanos: t.1 })),
                    None => Err(DecodeError::InvalidDateTime),
                },
                None => Err(DecodeError::MissingField),
            },
            Kind::Uuid => match lookup(fs, Seq::empty()) {
                Some(s) => match uuid_parsed(s) {
                    Some(u) => Ok(Value::Uuid(u)),
                    None => Err(DecodeError::InvalidUuid),
                },
                None => Err(DecodeError::MissingField),
            },
            Kind::File => match decode_file(fs) {
                Ok(f) => Ok(Value::File(f)),
                Err(e) => Err(e),
            },
            Kind::Image => match decode_file(fs) {
                Ok(f) => Ok(
                    Value::Image(
                        f,
                        match lookup(fs, path1("alt_text"@)) {
                            Some(a) => a,
                            None => Seq::empty(),
                        },
                    ),
                ),
                Err(e) => Err(e),
            },
            Kind::List(e) => if e >= k {
                Err(DecodeError::UnknownKind)
            } else {
                let n = first_gap(fs, 0);
                if has_index_from(fs, n) {
                    Err(DecodeError::SparseIndex)
                } else {
                    match decode_items(kinds, e as nat, fs, n) {
                        Ok(items) => Ok(Value::List(items)),
                        Err(x) => Err(x),
                    }
                }
            },
            Kind::Optional(e) => if e >= k {
                Err(DecodeError::UnknownKind)
            } else if fs.len() == 0 {
                Ok(Value::Optional(None))
            } else {
                match decode(kinds, e as nat, fs) {
                    Ok(v) => Ok(Value::Optional(Some(Box::new(v)))),
                    Err(x) => Err(x),
                }
            },
            Kind::Union(u) => match lookup(fs, path1(u.tag@)) {
                None => Err(DecodeError::MissingField),
                Some(name) => match variant_index(u.variants@, name) {
                    None => Err(DecodeError::UnknownVariant),
                    Some(j) => match u.variants@[j as int].payload {
                        None => Ok(Value::Variant(name, None)),
                        Some(p) => if p >= k {
                            Err(DecodeError::UnknownKind)
                        } else {
                            match decode(kinds, p as nat, below(fs, u.content@)) {
                                Ok(v) => Ok(Value::Variant(name, Some(Box::new(v)))),
                                Err(x) => Err(x),
                            }
                        },
                    },
                },
            },
        }
    }
}

/// The first `n` elements of a list of kind `e`, each from the fields below its index.
pub open spec fn decode_items(kinds: Seq<Kind>, e: nat, fs: FieldsView, n: nat) -> Result<
    Seq<Value>,
    DecodeError,
>
    decreases e, n,
{
    if n == 0 {
        Ok(Seq::empty())
    } else {
        match decode_items(kinds, e, fs, (n - 1) as nat) {
            Err(x) => Err(x),
            Ok(items) => match decode(kinds, e, below(fs, decimal((n - 1) as nat))) {
                Ok(v) => Ok(items.push(v)),
                Err(x) => Err(x),
            },
        }
    }
}

/// The fields that keep a stored file when no new one is uploaded.
pub open spec fn previous_file_fields(f: FileView) -> FieldsView {
    seq![(path1("id_old"@), uuid_text_of(f.id)), (path1("name_old"@), f.name)]
}

/// The fields that a form showing value `v` of kind `k` submits unchanged.
pub open spec fn form_fields(kinds: Seq<Kind>, k: nat, v: Value) -> FieldsView
    decreases k, 0nat,
{
    if k >= kinds.len() {
        Seq::empty()
    } else {
        match kinds[k as int] {
            Kind::Text => match v {
                Value::Text(s) => seq![(Seq::empty(), s)],
                _ => Seq::empty(),
            },
            Kind::Markdown => match v {
                Value::Markdown(s) => seq![(Seq::empty(), s)],
                _ => Seq::empty(),
            },
            Kind::Boolean => match v {
                Value::Boolean(b) => if b {
                    seq![(Seq::empty(), "true"@)]
                } else {
                    Seq::empty()
                },
                _ => Seq::empty(),
            },
            Kind::DateTime => match v {
                Value::DateTime(t) => match rfc3339_of(t.pair()) {
                    Some(s) => seq![(Seq::empty(), s)],
                    None => Seq::empty(),
                },
                _ => Seq::empty(),
            },
            Kind::Uuid => match v {
                Value::Uuid(u) => seq![(Seq::empty(), uuid_text_of(u))],
                _ => Seq::empty(),
            },
            Kind::File => match v {
                Value::File(f) => previous_file_fields(f),
                _ => Seq::empty(),
            },
            Kind::Image => match v {
                Value::Image(f, alt) => previous_file_fields(f).push((path1("alt_text"@), alt)),
                _ => Seq::empty(),
            },
            Kind::List(e) => if e >= k {
                Seq::empty()
            } else {
                match v {
                    Value::List(items) => list_fields(kinds, e as nat, items, items.len()),
                    _ => Seq::empty(),
                }
            },
            Kind::Optional(e) => if e >= k {
                Seq::empty()
            } else {
                match v {
                    Value::Optional(Some(b)) => form_fields(kinds, e as nat, *b),
                    _ => Seq::empty(),
                }
            },
            Kind::Union(u) => match v {
                Value::Variant(name, payload) => seq![(path1(u.tag@), name)] + match variant_index(
                    u.variants@,
                    name,
                ) {
                    Some(j) => match (u.variants@[j as int].payload, payload) {
                        (Some(p), Some(b)) => if p < k {
                            nest(u.content@, form_fields(kinds, p as nat, *b))
                        } else {
                            Seq::empty()
                        },
                        _ => Seq::empty(),
                    },
                    None => Seq::empty(),
                },
                _ => Seq::empty(),
            },
        }
    }
}

/// The fields of the first `n` elements of a list of kind `e`, each below its index.
pub open spec fn list_fields(kinds: Seq<Kind>, e: nat, items: Seq<Value>, n: nat) -> FieldsView
    decreases e, n,
{
    if n == 0 {
        Seq::empty()
    } else {
        list_fields(kinds, e, items, (n - 1) as nat) + nest(
            decimal((n - 1) as nat),
            form_fields(kinds, e, items[n - 1]),
        )
    }
}

/// Value `v` is of kind `k`, and every list element and optional payload in
/// it submits at least one field (a list of unchecked checkboxes submits
/// nothing, and cannot be told from a shorter one).
pub open spec fn fits(kinds: Seq<Kind>, k: nat, v: Value) -> bool
    decreases k, 0nat,
{
    if k >= kinds.len() {
        false
    } else {
        match kinds[k as int] {
            Kind::Text => v is Text,
            Kind::Markdown => v is Markdown,
            Kind::Boolean => v is Boolean,
            Kind::DateTime => match v {
                Value::DateTime(t) => rfc3339_of(t.pair()) is Some && in_rfc3339_range(t.pair()),
                _ => false,
            },
            Kind::Uuid => v is Uuid,
            Kind::File => v is File,
            Kind::Image => v is Image,
            Kind::List(e) => match v {
                Value::List(items) => e < k && items.len() <= usize::MAX && fits_items(
                    kinds,
                    e as nat,
                    items,
                    items.len(),
                ),
                _ => false,
            },
            Kind::Optional(e) => match v {
                Value::Optional(None) => e < k,
                Value::Optional(Some(b)) => e < k && fits(kinds, e as nat, *b) && form_fields(
                    kinds,
                    e as nat,
                    *b,
                ).len() > 0,
                _ => false,
            },
            Kind::Union(u) => match v {
                Value::Variant(name, payload) => match variant_index(u.variants@, name) {
                    Some(j) => match (u.variants@[j as int].payload, payload) {
                        (None, None) => true,
                        (Some(p), Some(b)) => p < k && fits(kinds, p as nat, *b),
                        _ => false,
                    },
                    None => false,
                },
                _ => false,
            },
        }
    }
}

pub open spec fn fits_items(kinds: Seq<Kind>, e: nat, items: Seq<Value>, n: nat) -> bool
    decreases e, n,
{
    n == 0 || (fits_items(kinds, e, items, (n - 1) as nat) && fits(kinds, e, items[n - 1])
        && form_fields(kinds, e, items[n - 1]).len() > 0)
}

fn paths_equal(a: &Vec<String>, b: &Vec<String>) -> (r: bool)
    ensures
        r == (strings_view(a@) == strings_view(b@)),
{
    if a.len() != b.len() {
        proof {
            assert(strings_view(a@).len() != strings_view(b@).len());
        }
        return false;
    }
    let mut i: usize = 0;
    while i < a.len()
        invariant
            a@.len() == b@.len(),
            i <= a@.len(),
            forall|j: int| 0 <= j < i ==> #[trigger] a@[j]@ == b@[j]@,
        decreases a.len() - i,
    {
        if a[i] != b[i] {
            proof {
                assert(strings_view(a@)[i as int] != strings_view(b@)[i as int]);
            }
            return false;
        }
        i = i + 1;
    }
    proof {
        assert(strings_view(a@) =~= strings_view(b@));
    }
    true
}

/// The path of one segment.
pub fn path_of(seg: &str) -> (r: Vec<String>)
    ensures
        strings_view(r@) == path1(seg@),
{
    let mut v: Vec<String> = Vec::new();
    v.push(seg.to_owned());
    proof {
        assert(strings_view(v@) =~= path1(seg@));
    }
    v
}

fn text_is(s: &String, lit: &str) -> (r: bool)
    ensures
        r == (s@ == lit@),
{
    let t = lit.to_owned();
    *s == t
}

/// The text of the first field at `path`.
pub fn lookup_field(fs: &Vec<FormField>, path: &Vec<String>) -> (r: Option<String>)
    ensures
        r matches Some(s) ==> lookup(fields_view(fs@), strings_view(path@)) == Some(s@),
        r is None ==> lookup(fields_view(fs@), strings_view(path@)) is None,
{
    let ghost fv = fields_view(fs@);
    let ghost p = strings_view(path@);
    let mut r: Option<String> = None;
    let mut i: usize = 0;
    while i < fs.len()
        invariant
            i <= fs@.len(),
            fv == fields_view(fs@),
            p == strings_view(path@),
            r matches Some(s) ==> lookup(fv.subrange(0, i as int), p) == Some(s@),
            r is None ==> lookup(fv.subrange(0, i as int), p) is None,
        decreases fs.len() - i,
    {
        proof {
            assert(fv.subrange(0, i + 1).drop_last() =~= fv.subrange(0, i as int));
            assert(fv.subrange(0, i + 1).last() == fs@[i as int].view());
        }
        if r.is_none() && paths_equal(&fs[i].path, path) {
            r = Some(fs[i].value.clone());
        }
        i = i + 1;
    }
    proof {
        assert(fv.subrange(0, i as int) =~= fv);
    }
    r
}

fn tail_path(p: &Vec<String>) -> (r: Vec<String>)
    requires
        p.len() > 0,
    ensures
        strings_view(r@) == strings_view(p@).drop_first(),
{
    let mut v: Vec<String> = Vec::new();
    let mut i: usize = 1;
    while i < p.len()
        invariant
            1 <= i <= p@.len(),
            v@.len() == i - 1,
            forall|j: int| 0 <= j < i - 1 ==> #[trigger] v@[j]@ == p@[j + 1]@,
        decreases p.len() - i,
    {
        v.push(p[i].clone());
        i = i + 1;
    }
    proof {
        assert(strings_view(v@) =~= strings_view(p@).drop_first());
    }
    v
}

/// The fields below segment `seg`, with that segment taken off their paths.
pub fn fields_below(fs: &Vec<FormField>, seg: &str) -> (r: Vec<FormField>)
    ensures
        fields_view(r@) == below(fields_view(fs@), seg@),
{
    let ghost fv = fields_view(fs@);
    let seg_s = seg.to_owned();
    let mut r: Vec<FormField> = Vec::new();
    let mut i: usize = 0;
    proof {
        assert(fields_view(r@) =~= below(fv.subrange(0, 0), seg@));
    }
    while i < fs.len()
        invariant
            i <= fs@.len(),
            seg_s@ == seg@,
            fv == fields_view(fs@),
            fields_view(r@) == below(fv.subrange(0, i as int), seg@),
        decreases fs.len() - i,
    {
        let ghost before = r@;
        proof {
            assert(fv.subrange(0, i + 1).drop_last() =~= fv.subrange(0, i as int));
            assert(fv.subrange(0, i + 1).last() == fs@[i as int].view());
        }
        let f = &fs[i];
        if f.path.len() > 0 && f.path[0] == seg_s {
            let tail = tail_path(&f.path);
            r.push(FormField { path: tail, value: f.value.clone() });
            proof {
                assert(fields_view(r@) =~= fields_view(before).push(r@.last().view()));
            }
        }
        i = i + 1;
    }
    proof {
        assert(fv.subrange(0, i as int) =~= fv);
    }
    r
}

fn field_index_of(f: &FormField) -> (r: Option<usize>)
    ensures
        r matches Some(m) ==> field_index(f.view()) == Some(m as nat),
        r is None ==> field_index(f.view()) is None,
{
    if f.path.len() == 0 {
        None
    } else {
        parse_index(f.path[0].as_str())
    }
}

fn has_index_exec(fs: &Vec<FormField>, n: usize) -> (r: bool)
    ensures
        r == has_index(fields_view(fs@), n as nat),
{
    let ghost fv = fields_view(fs@);
    let mut r = false;
    let mut i: usize = 0;
    while i < fs.len()
        invariant
            i <= fs@.len(),
            fv == fields_view(fs@),
            r == has_index(fv.subrange(0, i as int), n as nat),
        decreases fs.len() - i,
    {
        proof {
            assert(fv.subrange(0, i + 1).drop_last() =~= fv.subrange(0, i as int));
            assert(fv.subrange(0, i + 1).last() == fs@[i as int].view());
        }
        match field_index_of(&fs[i]) {
            Some(m) => {
                if m == n {
                    r = true;
                }
            },
            None => {},
        }
        i = i + 1;
    }
    proof {
        assert(fv.subrange(0, i as int) =~= fv);
    }
    r
}

fn has_index_from_exec(fs: &Vec<FormField>, n: usize) -> (r: bool)
    ensures
        r == has_index_from(fields_view(fs@), n as nat),
{
    let ghost fv = fields_view(fs@);
    let mut r = false;
    let mut i: usize = 0;
    while i < fs.len()
        invariant
            i <= fs@.len(),
            fv == fields_view(fs@),
            r == has_index_from(fv.subrange(0, i as int), n as nat),
        decreases fs.len() - i,
    {
        proof {
            assert(fv.subrange(0, i + 1).drop_last() =~= fv.subrange(0, i as int));
            assert(fv.subrange(0, i + 1).last() == fs@[i as int].view());
        }
        match field_index_of(&fs[i]) {
            Some(m) => {
                if m >= n {
                    r = true;
                }
            },
            None => {},
        }
        i = i + 1;
    }
    proof {
        assert(fv.subrange(0, i as int) =~= fv);
    }
    r
}

/// How many list elements the fields hold: the first index that no field lies below.
pub fn count_indices(fs: &Vec<FormField>) -> (r: usize)
    ensures
        r as nat == first_gap(fields_view(fs@), 0),
{
    let ghost fv = fields_view(fs@);
    let mut i: usize = 0;
    while i < fs.len() && has_index_exec(fs, i)
        invariant
            i <= fs@.len(),
            fv == fields_view(fs@),
            first_gap(fv, 0) == first_gap(fv, i as nat),
        decreases fs.len() - i,
    {
        i = i + 1;
    }
    i
}

pub(crate) fn find_variant(vs: &Vec<crate::schema::VariantKind>, name: &String) -> (r: Option<usize>)
    ensures
        r matches Some(j) ==> variant_index(vs@, name@) == Some(j as nat),
        r is None ==> variant_index(vs@, name@) is None,
{
    let mut r: Option<usize> = None;
    let mut i: usize = 0;
    while i < vs.len()
        invariant
            i <= vs@.len(),
            r matches Some(j) ==> variant_index(vs@.subrange(0, i as int), name@) == Some(
                j as nat,
            ),
            r is None ==> variant_index(vs@.subrange(0, i as int), name@) is None,
        decreases vs.len() - i,
    {
        proof {
            assert(vs@.subrange(0, i + 1).drop_last() =~= vs@.subrange(0, i as int));
        }
        if r.is_none() && vs[i].name == *name {
            r = Some(i);
        }
        i = i + 1;
    }
    proof {
        assert(vs@.subrange(0, i as int) =~= vs@);
    }
    r
}

/// A file from the fields of a file input.
pub fn decode_file_fields(fs: &Vec<FormField>) -> (r: Result<File, DecodeError>)
    ensures
        r matches Ok(f) ==> decode_file(fields_view(fs@)) == Ok::<FileView, DecodeError>(f.view()),
        r matches Err(e) ==> decode_file(fields_view(fs@)) == Err::<FileView, DecodeError>(e),
{
    let id_text = match lookup_field(fs, &path_of("id")) {
        Some(t) => Some(t),
        None => lookup_field(fs, &path_of("id_old")),
    };
    match id_text {
        None => Err(DecodeError::MissingField),
        Some(t) => match parse_uuid(t.as_str()) {
            None => Err(DecodeError::InvalidUuid),
            Some(id) => {
                let name = match lookup_field(fs, &path_of("name")) {
                    Some(n) => Some(n),
                    None => lookup_field(fs, &path_of("name_old")),
                };
                match name {
                    None => Err(DecodeError::MissingField),
                    Some(n) => Ok(File { id, name: n }),
                }
            },
        },
    }
}

fn decode_bool_text(s: &String) -> (r: Result<PropertyValue, DecodeError>)
    ensures
        r matches Ok(v) ==> decode_bool(s@) == Ok::<Value, DecodeError>(v.view()),
        r matches Err(e) ==> decode_bool(s@) == Err::<Value, DecodeError>(e),
{
    if text_is(s, "true") || text_is(s, "on") {
        Ok(PropertyValue::Boolean(true))
    } else if text_is(s, "false") || text_is(s, "off") {
        Ok(PropertyValue::Boolean(false))
    } else {
        Err(DecodeError::InvalidBoolean)
    }
}

/// The value of kind `k` that the fields hold.
pub fn decode_value(schema: &Schema, k: usize, fs: &Vec<FormField>) -> (r: Result<
    PropertyValue,
    DecodeError,
>)
    requires
        schema.wf(),
        k < schema.kinds@.len(),
    ensures
        r matches Ok(v) ==> decode(schema.kinds@, k as nat, fields_view(fs@)) == Ok::<Value, DecodeError>(
            v.view(),
        ),
        r matches Err(e) ==> decode(schema.kinds@, k as nat, fields_view(fs@)) == Err::<Value, DecodeError>(e),
    decreases k,
{
    let ghost kinds = schema.kinds@;
    let ghost fv = fields_view(fs@);
    let empty: Vec<String> = Vec::new();
    proof {
        assert(strings_view(empty@) =~= Seq::<Seq<char>>::empty());
        assert(kinds_wf(kinds));
        assert(crate::schema::kind_wf(kinds[k as int], k as nat));
    }
    match &schema.kinds[k] {
        Kind::Text => match lookup_field(fs, &empty) {
            Some(s) => Ok(PropertyValue::Text(Text(s))),
            None => Err(DecodeError::MissingField),
        },
        Kind::Markdown => match lookup_field(fs, &empty) {
            Some(s) => Ok(PropertyValue::Markdown(Markdown(s))),
            None => Err(DecodeError::MissingField),
        },
        Kind::Boolean => match lookup_field(fs, &empty) {
            Some(s) => decode_bool_text(&s),
            None => Ok(PropertyValue::Boolean(false)),
        },
        Kind::DateTime => match lookup_field(fs, &empty) {
            Some(s) => match parse_rfc3339(s.as_str()) {
                Some(t) => Ok(PropertyValue::DateTime(Timestamp { secs: t.0, nanos: t.1 })),
                None => Err(DecodeError::InvalidDateTime),
            },
            None => Err(DecodeError::MissingField),
        },
        Kind::Uuid => match lookup_field(fs, &empty) {
            Some(s) => match parse_uuid(s.as_str()) {
                Some(u) => Ok(PropertyValue::Uuid(u)),
                None => Err(DecodeError::InvalidUuid),
            },
            None => Err(DecodeError::MissingField),
        },
        Kind::File => match decode_file_fields(fs) {
            Ok(f) => Ok(PropertyValue::File(f)),
            Err(e) => Err(e),
        },
        Kind::Image => match decode_file_fields(fs) {
            Ok(f) => {
                let alt = match lookup_field(fs, &path_of("alt_text")) {
                    Some(a) => a,
                    None => String::new(),
                };
                Ok(PropertyValue::Image(Image { file: f, alt_text: alt }))
            },
            Err(e) => Err(e),
        },
        Kind::List(e) => {
            let e = *e;
            let n = count_indices(fs);
            if has_index_from_exec(fs, n) {
                return Err(DecodeError::SparseIndex);
            }
            let mut items: Vec<PropertyValue> = Vec::new();
            let mut i: usize = 0;
            while i < n
                invariant
                    schema.wf(),
                    kinds == schema.kinds@,
                    fv == fields_view(fs@),
                    e < k < kinds.len(),
                    kinds[k as int] == Kind::List(e),
                    n as nat == first_gap(fv, 0),
                    !has_index_from(fv, n as nat),
                    i <= n,
                    decode_items(kinds, e as nat, fv, i as nat) == Ok::<Seq<Value>, DecodeError>(
                        view_values(items@),
                    ),
                decreases n - i,
            {
                let seg = index_segment(i);
                let part = fields_below(fs, seg.as_str());
                match decode_value(schema, e, &part) {
                    Ok(v) => {
                        let ghost before = items@;
                        items.push(v);
                        proof {
                            assert(items@.drop_last() =~= before);
                        }
                    },
                    Err(x) => {
                        proof {
                            lemma_decode_items_error(kinds, e as nat, fv, (i + 1) as nat, n as nat);
                        }
                        return Err(x);
                    },
                }
                i = i + 1;
            }
            Ok(PropertyValue::List(items))
        },
        Kind::Optional(e) => {
            if fs.len() == 0 {
                Ok(PropertyValue::Optional(None))
            } else {
                match decode_value(schema, *e, fs) {
                    Ok(v) => Ok(PropertyValue::Optional(Some(Box::new(v)))),
                    Err(x) => Err(x),
                }
            }
        },
        Kind::Union(u) => match lookup_field(fs, &path_of(u.tag.as_str())) {
            None => Err(DecodeError::MissingField),
            Some(name) => match find_variant(&u.variants, &name) {
                None => Err(DecodeError::UnknownVariant),
                Some(j) => match {
                    proof {
                        lemma_variant_index(u.variants@, name@);
                        assert(u.variants@[j as int].payload matches Some(p) ==> p < k);
                    }
                    u.variants[j].payload
                } {
                    None => Ok(PropertyValue::Variant(name, None)),
                    Some(p) => {
                        let part = fields_below(fs, u.content.as_str());
                        match decode_value(schema, p, &part) {
                            Ok(v) => Ok(PropertyValue::Variant(name, Some(Box::new(v)))),
                            Err(x) => Err(x),
                        }
                    },
                },
            },
        },
    }
}

/// An error among the first `i` elements is the error of the first `n >= i`.
proof fn lemma_decode_items_error(kinds: Seq<Kind>, e: nat, fs: FieldsView, i: nat, n: nat)
    requires
        i <= n,
        decode_items(kinds, e, fs, i) is Err,
    ensures
        decode_items(kinds, e, fs, n) == decode_items(kinds, e, fs, i),
    decreases n - i,
{
    if i < n {
        lemma_decode_items_error(kinds, e, fs, i, (n - 1) as nat);
    }
}

pub proof fn lemma_lookup_append(a: FieldsView, b: FieldsView, p: PathView)
    ensures
        lookup(a + b, p) == first_of(lookup(a, p), lookup(b, p)),
    decreases b.len(),
{
    if b.len() == 0 {
        assert(a + b =~= a);
    } else {
        lemma_lookup_append(a, b.drop_last(), p);
        assert((a + b).drop_last() =~= a + b.drop_last());
    }
}

pub proof fn lemma_below_append(a: FieldsView, b: FieldsView, seg: Seq<char>)
    ensures
        below(a + b, seg) == below(a, seg) + below(b, seg),
    decreases b.len(),
{
    if b.len() == 0 {
        assert(a + b =~= a);
        assert(below(a, seg) + below(b, seg) =~= below(a, seg));
    } else {
        lemma_below_append(a, b.drop_last(), seg);
        assert((a + b).drop_last() =~= a + b.drop_last());
        let f = b.last();
        if f.0.len() > 0 && f.0[0] == seg {
            assert(below(a + b, seg) =~= below(a, seg) + below(b, seg));
        } else {
            assert(below(a + b, seg) =~= below(a, seg) + below(b, seg));
        }
    }
}

/// Fields put below a segment are found below it again, and below no other.
pub proof fn lemma_below_nest(seg: Seq<char>, other: Seq<char>, g: FieldsView)
    ensures
        below(nest(seg, g), seg) == g,
        other != seg ==> below(nest(seg, g), other) == Seq::<(PathView, Seq<char>)>::empty(),
    decreases g.len(),
{
    if g.len() > 0 {
        lemma_below_nest(seg, other, g.drop_last());
        assert(nest(seg, g).drop_last() =~= nest(seg, g.drop_last()));
        let f = nest(seg, g).last();
        assert(f.0 == seq![seg] + g.last().0);
        assert(f.0[0] == seg);
        assert(f.0.drop_first() =~= g.last().0);
        assert(below(nest(seg, g), seg) =~= g);
    } else {
        assert(nest(seg, g) =~= Seq::<(PathView, Seq<char>)>::empty());
    }
}

/// What lies at a path below a segment is what lies at the longer path.
pub proof fn lemma_lookup_below(fs: FieldsView, seg: Seq<char>, p: PathView)
    ensures
        lookup(below(fs, seg), p) == lookup(fs, seq![seg] + p),
    decreases fs.len(),
{
    if fs.len() > 0 {
        let init = fs.drop_last();
        lemma_lookup_below(init, seg, p);
        let f = fs.last();
        if f.0.len() > 0 && f.0[0] == seg {
            assert(below(fs, seg) == below(init, seg).push((f.0.drop_first(), f.1)));
            assert(below(fs, seg).drop_last() =~= below(init, seg));
            assert((f.0.drop_first() == p) <==> (f.0 == seq![seg] + p)) by {
                if f.0 == seq![seg] + p {
                    assert(f.0.drop_first() =~= p);
                }
                if f.0.drop_first() == p {
                    assert(f.0 =~= seq![seg] + p);
                }
            }
        } else {
            assert(f.0 != seq![seg] + p) by {
                if f.0 == seq![seg] + p {
                    assert(f.0[0] == seg);
                }
            }
        }
    }
}

pub proof fn lemma_has_index_append(a: FieldsView, b: FieldsView, i: nat, n: nat)
    ensures
        has_index(a + b, i) == (has_index(a, i) || has_index(b, i)),
        has_index_from(a + b, n) == (has_index_from(a, n) || has_index_from(b, n)),
    decreases b.len(),
{
    if b.len() == 0 {
        assert(a + b =~= a);
    } else {
        lemma_has_index_append(a, b.drop_last(), i, n);
        assert((a + b).drop_last() =~= a + b.drop_last());
    }
}

/// Fields put below index `j` lie below index `j` alone.
pub proof fn lemma_has_index_nest(j: nat, g: FieldsView, i: nat, n: nat)
    requires
        j <= usize::MAX,
    ensures
        has_index(nest(decimal(j), g), i) == (g.len() > 0 && i == j),
        has_index_from(nest(decimal(j), g), n) == (g.len() > 0 && j >= n),
    decreases g.len(),
{
    lemma_decimal_is_index(j);
    if g.len() > 0 {
        lemma_has_index_nest(j, g.drop_last(), i, n);
        assert(nest(decimal(j), g).drop_last() =~= nest(decimal(j), g.drop_last()));
        let f = nest(decimal(j), g).last();
        assert(f.0[0] == decimal(j));
        assert(field_index(f) == Some(j));
    }
}

proof fn lemma_first_gap(fs: FieldsView, i: nat, n: nat)
    requires
        i <= n <= fs.len(),
        forall|m: nat| m < n ==> #[trigger] has_index(fs, m),
        !has_index(fs, n),
    ensures
        first_gap(fs, i) == n,
    decreases n - i,
{
    if i < n {
        lemma_first_gap(fs, i + 1, n);
    }
}

proof fn lemma_list_fields_shape(kinds: Seq<Kind>, e: nat, items: Seq<Value>, n: nat)
    requires
        n <= items.len() <= usize::MAX,
        forall|j: int| 0 <= j < n ==> #[trigger] form_fields(kinds, e, items[j]).len() > 0,
    ensures
        list_fields(kinds, e, items, n).len() >= n,
        forall|i: nat| #[trigger] has_index(list_fields(kinds, e, items, n), i) == (i < n),
        forall|m: nat| m >= n ==> !#[trigger] has_index_from(list_fields(kinds, e, items, n), m),
        forall|j: nat|
            j < n ==> #[trigger] below(list_fields(kinds, e, items, n), decimal(j)) == form_fields(
                kinds,
                e,
                items[j as int],
            ),
    decreases n,
{
    if n > 0 {
        let m = (n - 1) as nat;
        let a = list_fields(kinds, e, items, m);
        let g = form_fields(kinds, e, items[m as int]);
        let b = nest(decimal(m), g);
        lemma_list_fields_shape(kinds, e, items, m);
        assert(list_fields(kinds, e, items, n) == a + b);
        assert forall|i: nat| #[trigger] has_index(list_fields(kinds, e, items, n), i) == (i < n) by {
            lemma_has_index_append(a, b, i, 0);
            lemma_has_index_nest(m, g, i, 0);
        }
        assert forall|q: nat| q >= n implies !#[trigger] has_index_from(
            list_fields(kinds, e, items, n),
            q,
        ) by {
            lemma_has_index_append(a, b, 0, q);
            lemma_has_index_nest(m, g, 0, q);
        }
        assert forall|j: nat| j < n implies #[trigger] below(
            list_fields(kinds, e, items, n),
            decimal(j),
        ) == form_fields(kinds, e, items[j as int]) by {
            lemma_below_append(a, b, decimal(j));
            lemma_decimal_injective(j, m);
            lemma_below_nest(decimal(m), decimal(j), g);
            if j == m {
                assert(below(a, decimal(j)) =~= Seq::<(PathView, Seq<char>)>::empty()) by {
                    lemma_below_empty_if_no_index(a, j);
                }
                assert(below(a, decimal(j)) + below(b, decimal(j)) =~= g);
            } else {
                assert(below(a, decimal(j)) + below(b, decimal(j)) =~= below(a, decimal(j)));
            }
        }
    }
}

/// No field lies below index `j`, so nothing is found below its decimal segment.
proof fn lemma_below_empty_if_no_index(fs: FieldsView, j: nat)
    requires
        j <= usize::MAX,
        !has_index(fs, j),
    ensures
        below(fs, decimal(j)) == Seq::<(PathView, Seq<char>)>::empty(),
    decreases fs.len(),
{
    lemma_decimal_is_index(j);
    if fs.len() > 0 {
        lemma_below_empty_if_no_index(fs.drop_last(), j);
    }
}

proof fn lemma_decode_items_parts(
    kinds: Seq<Kind>,
    e: nat,
    items: Seq<Value>,
    fs: FieldsView,
    n: nat,
)
    requires
        n <= items.len(),
        forall|j: nat|
            j < items.len() ==> #[trigger] decode(kinds, e, below(fs, decimal(j))) is Ok,
    ensures
        decode_items(kinds, e, fs, n) matches Ok(out) && out.len() == n && forall|j: int|
            0 <= j < n ==> out[j] == decode(kinds, e, below(fs, decimal(j as nat)))->Ok_0,
    decreases n,
{
    if n > 0 {
        lemma_decode_items_parts(kinds, e, items, fs, (n - 1) as nat);
        assert(decode(kinds, e, below(fs, decimal((n - 1) as nat))) is Ok);
    }
}

/// A list submitted with `n` elements, each of which submits at least one
/// field and reads back as some value, reads back as exactly `n` elements:
/// the `i`-th is what the `i`-th element's own fields read as.
pub proof fn lemma_list_decodes_in_order(kinds: Seq<Kind>, k: nat, items: Seq<Value>)
    requires
        kinds_wf(kinds),
        k < kinds.len(),
        kinds[k as int] is List,
        items.len() <= usize::MAX,
        forall|j: int|
            0 <= j < items.len() ==> #[trigger] form_fields(
                kinds,
                kinds[k as int]->List_0 as nat,
                items[j],
            ).len() > 0 && decode(
                kinds,
                kinds[k as int]->List_0 as nat,
                form_fields(kinds, kinds[k as int]->List_0 as nat, items[j]),
            ) is Ok,
    ensures
        decode(kinds, k, form_fields(kinds, k, Value::List(items))) matches Ok(Value::List(out))
            && out.len() == items.len() && forall|j: int|
            0 <= j < items.len() ==> out[j] == decode(
                kinds,
                kinds[k as int]->List_0 as nat,
                form_fields(kinds, kinds[k as int]->List_0 as nat, items[j]),
            )->Ok_0,
{
    let e = kinds[k as int]->List_0 as nat;
    assert(crate::schema::kind_wf(kinds[k as int], k));
    let n = items.len();
    let fs = list_fields(kinds, e, items, n);
    assert(form_fields(kinds, k, Value::List(items)) == fs);
    lemma_list_fields_shape(kinds, e, items, n);
    assert(!has_index(fs, n));
    assert forall|m: nat| m < n implies #[trigger] has_index(fs, m) by {}
    lemma_first_gap(fs, 0, n);
    assert(!has_index_from(fs, n));
    assert forall|j: nat| j < items.len() implies #[trigger] decode(
        kinds,
        e,
        below(fs, decimal(j)),
    ) is Ok by {
        assert(below(fs, decimal(j)) == form_fields(kinds, e, items[j as int]));
    }
    lemma_decode_items_parts(kinds, e, items, fs, n);
    let out = decode_items(kinds, e, fs, n)->Ok_0;
    assert forall|j: int| 0 <= j < items.len() implies out[j] == decode(
        kinds,
        e,
        form_fields(kinds, e, items[j]),
    )->Ok_0 by {
        assert(below(fs, decimal(j as nat)) == form_fields(kinds, e, items[j]));
    }
}

/// A tagged union reads its tag field and the fields below its content
/// segment alone. Where the chosen variant carries a scalar (text, markdown,
/// boolean, date-time, UUID) or nothing, only the field at the content
/// segment itself counts: whatever else is submitted, content meant for
/// other variants included, is ignored.
pub proof fn lemma_union_ignores_stray(kinds: Seq<Kind>, k: nat, fs1: FieldsView, fs2: FieldsView)
    requires
        kinds_wf(kinds),
        k < kinds.len(),
        kinds[k as int] is Union,
        lookup(fs1, path1(kinds[k as int]->Union_0.tag@)) == lookup(
            fs2,
            path1(kinds[k as int]->Union_0.tag@),
        ),
        lookup(fs1, path1(kinds[k as int]->Union_0.content@)) == lookup(
            fs2,
            path1(kinds[k as int]->Union_0.content@),
        ),
        forall|j: int|
            0 <= j < kinds[k as int]->Union_0.variants@.len() ==> (
            #[trigger] kinds[k as int]->Union_0.variants@[j].payload matches Some(p) ==> p
                < kinds.len() && is_scalar(kinds[p as int])),
    ensures
        decode(kinds, k, fs1) == decode(kinds, k, fs2),
{
    let u = kinds[k as int]->Union_0;
    let e: PathView = Seq::empty();
    lemma_lookup_below(fs1, u.content@, e);
    lemma_lookup_below(fs2, u.content@, e);
    assert(seq![u.content@] + e =~= path1(u.content@));
    match lookup(fs1, path1(u.tag@)) {
        None => {},
        Some(name) => {
            lemma_variant_index(u.variants@, name);
            match variant_index(u.variants@, name) {
                None => {},
                Some(j) => {
                    match u.variants@[j as int].payload {
                        None => {},
                        Some(p) => {
                            assert(is_scalar(kinds[p as int]));
                            assert(decode(kinds, p as nat, below(fs1, u.content@)) == decode(
                                kinds,
                                p as nat,
                                below(fs2, u.content@),
                            ));
                        },
                    }
                },
            }
        },
    }
}

/// A kind read from the single field at its own path.
pub open spec fn is_scalar(kind: Kind) -> bool {
    kind is Text || kind is Markdown || kind is Boolean || kind is DateTime || kind is Uuid
}

/// A file input left without a new upload keeps the stored file: with no
/// `id` and `name` submitted, the kept `id_old` and `name_old` are read.
pub proof fn lemma_keep_previous_file(fs: FieldsView, id: u128, name: Seq<char>)
    requires
        lookup(fs, path1("id"@)) is None,
        lookup(fs, path1("name"@)) is None,
        lookup(fs, path1("id_old"@)) matches Some(t) && uuid_parsed(t) == Some(id),
        lookup(fs, path1("name_old"@)) == Some(name),
    ensures
        decode_file(fs) == Ok::<FileView, DecodeError>(FileView { id, name }),
{
}

proof fn lemma_lookup_one(x: (PathView, Seq<char>), p: PathView)
    ensures
        lookup(seq![x], p) == (if x.0 == p {
            Some(x.1)
        } else {
            None
        }),
{
    reveal_with_fuel(lookup, 2);
    assert(seq![x].drop_last() =~= Seq::<(PathView, Seq<char>)>::empty());
}

proof fn lemma_below_one(x: (PathView, Seq<char>), seg: Seq<char>)
    requires
        x.0.len() > 0,
        x.0[0] != seg,
    ensures
        below(seq![x], seg) == Seq::<(PathView, Seq<char>)>::empty(),
{
    reveal_with_fuel(below, 2);
    assert(seq![x].drop_last() =~= Seq::<(PathView, Seq<char>)>::empty());
}

proof fn lemma_file_keys_distinct()
    ensures
        path1("id"@) != path1("id_old"@),
        path1("id"@) != path1("name_old"@),
        path1("id"@) != path1("alt_text"@),
        path1("name"@) != path1("id_old"@),
        path1("name"@) != path1("name_old"@),
        path1("name"@) != path1("alt_text"@),
        path1("id_old"@) != path1("name_old"@),
        path1("id_old"@) != path1("alt_text"@),
        path1("name_old"@) != path1("alt_text"@),
{
    reveal_strlit("id");
    reveal_strlit("name");
    reveal_strlit("id_old");
    reveal_strlit("name_old");
    reveal_strlit("alt_text");
    assert("id"@.len() == 2);
    assert("name"@.len() == 4);
    assert("id_old"@.len() == 6);
    assert("name_old"@.len() == 8 && "name_old"@[0] == 'n');
    assert("alt_text"@.len() == 8 && "alt_text"@[0] == 'a');
    assert(path1("id"@)[0] != path1("id_old"@)[0]);
    assert(path1("id"@)[0] != path1("name_old"@)[0]);
    assert(path1("id"@)[0] != path1("alt_text"@)[0]);
    assert(path1("name"@)[0] != path1("id_old"@)[0]);
    assert(path1("name"@)[0] != path1("name_old"@)[0]);
    assert(path1("name"@)[0] != path1("alt_text"@)[0]);
    assert(path1("id_old"@)[0] != path1("name_old"@)[0]);
    assert(path1("id_old"@)[0] != path1("alt_text"@)[0]);
    assert(path1("name_old"@)[0] != path1("alt_text"@)[0]);
}

/// The kept-file fields, followed by fields at none of the file's paths, read as the file.
proof fn lemma_previous_file_decodes(f: FileView, extra: FieldsView)
    requires
        uuid_parsed(uuid_text_of(f.id)) == Some(f.id),
        lookup(extra, path1("id"@)) is None,
        lookup(extra, path1("name"@)) is None,
    ensures
        decode_file(previous_file_fields(f) + extra) == Ok::<FileView, DecodeError>(f),
{
    let a = (path1("id_old"@), uuid_text_of(f.id));
    let b = (path1("name_old"@), f.name);
    let fs = previous_file_fields(f) + extra;
    assert(previous_file_fields(f) =~= seq![a] + seq![b]);
    assert(fs =~= seq![a] + (seq![b] + extra));
    lemma_file_keys_distinct();
    let keys = seq![path1("id"@), path1("id_old"@), path1("name"@), path1("name_old"@)];
    assert forall|i: int| 0 <= i < 4 implies lookup(fs, #[trigger] keys[i]) == first_of(
        lookup(seq![a], keys[i]),
        first_of(lookup(seq![b], keys[i]), lookup(extra, keys[i])),
    ) by {
        lemma_lookup_append(seq![a], seq![b] + extra, keys[i]);
        lemma_lookup_append(seq![b], extra, keys[i]);
    }
    assert(lookup(fs, keys[0]) is None) by {
        lemma_lookup_one(a, keys[0]);
        lemma_lookup_one(b, keys[0]);
    }
    assert(lookup(fs, keys[1]) == Some(uuid_text_of(f.id))) by {
        lemma_lookup_one(a, keys[1]);
    }
    assert(lookup(fs, keys[2]) is None) by {
        lemma_lookup_one(a, keys[2]);
        lemma_lookup_one(b, keys[2]);
    }
    assert(lookup(fs, keys[3]) == Some(f.name)) by {
        lemma_lookup_one(a, keys[3]);
        lemma_lookup_one(b, keys[3]);
    }
}

/// Appends the fields of `fs`, each put below segment `seg`.
pub(crate) fn nest_into(out: &mut Vec<FormField>, seg: &str, fs: &Vec<FormField>)
    ensures
        fields_view(final(out)@) == fields_view(old(out)@) + nest(seg@, fields_view(fs@)),
{
    let ghost start = fields_view(out@);
    let ghost g = fields_view(fs@);
    let mut i: usize = 0;
    proof {
        assert(nest(seg@, g.subrange(0, 0)) =~= Seq::<(PathView, Seq<char>)>::empty());
        assert(fields_view(out@) =~= start + nest(seg@, g.subrange(0, 0)));
    }
    while i < fs.len()
        invariant
            i <= fs@.len(),
            g == fields_view(fs@),
            fields_view(out@) == start + nest(seg@, g.subrange(0, i as int)),
        decreases fs.len() - i,
    {
        let f = &fs[i];
        let mut path: Vec<String> = Vec::new();
        path.push(seg.to_owned());
        let mut j: usize = 0;
        while j < f.path.len()
            invariant
                j <= f.path@.len(),
                path@.len() == j + 1,
                path@[0]@ == seg@,
                forall|m: int| 1 <= m <= j ==> #[trigger] path@[m]@ == f.path@[m - 1]@,
            decreases f.path.len() - j,
        {
            path.push(f.path[j].clone());
            j = j + 1;
        }
        let ghost before = out@;
        out.push(FormField { path, value: f.value.clone() });
        proof {
            assert(strings_view(out@.last().path@) =~= seq![seg@] + strings_view(f.path@));
            assert(fields_view(out@) =~= fields_view(before).push(out@.last().view()));
            assert(nest(seg@, g.subrange(0, i + 1)) =~= nest(seg@, g.subrange(0, i as int)).push(
                (seq![seg@] + g[i as int].0, g[i as int].1),
            ));
            assert(fields_view(out@) =~= start + nest(seg@, g.subrange(0, i + 1)));
        }
        i = i + 1;
    }
    proof {
        assert(g.subrange(0, i as int) =~= g);
    }
}

fn push_field(out: &mut Vec<FormField>, path: Vec<String>, value: String)
    ensures
        fields_view(final(out)@) == fields_view(old(out)@).push((strings_view(path@), value@)),
{
    let ghost before = out@;
    out.push(FormField { path, value });
    proof {
        assert(fields_view(out@) =~= fields_view(before).push((strings_view(path@), value@)));
    }
}

/// The fields a file input showing `f` submits when no new file is chosen:
/// its id and name in the hidden `id_old` and `name_old` fields.
pub fn previous_file(f: &File) -> (r: Vec<FormField>)
    ensures
        fields_view(r@) == previous_file_fields(f.view()),
        uuid_parsed(uuid_text_of(f.id)) == Some(f.id),
        decode_file(fields_view(r@)) == Ok::<FileView, DecodeError>(f.view()),
{
    let mut r: Vec<FormField> = Vec::new();
    let t = uuid_text(f.id);
    push_field(&mut r, path_of("id_old"), t);
    push_field(&mut r, path_of("name_old"), f.name.clone());
    proof {
        assert(fields_view(r@) =~= previous_file_fields(f.view()));
        assert(fields_view(r@) + Seq::<(PathView, Seq<char>)>::empty() =~= fields_view(r@));
        lemma_previous_file_decodes(f.view(), Seq::empty());
    }
    r
}

/// The fields that a form showing `v` as kind `k` submits unchanged. Where
/// `v` fits the kind, they read back as `v`.
pub fn encode_fields(schema: &Schema, k: usize, v: &PropertyValue) -> (r: Vec<FormField>)
    requires
        schema.wf(),
        k < schema.kinds@.len(),
    ensures
        fields_view(r@) == form_fields(schema.kinds@, k as nat, v.view()),
        fits(schema.kinds@, k as nat, v.view()) ==> decode(
            schema.kinds@,
            k as nat,
            fields_view(r@),
        ) == Ok::<Value, DecodeError>(v.view()),
    decreases k,
{
    let ghost kinds = schema.kinds@;
    let ghost e0: PathView = Seq::empty();
    let mut r: Vec<FormField> = Vec::new();
    proof {
        assert(kinds_wf(kinds));
        assert(crate::schema::kind_wf(kinds[k as int], k as nat));
        assert(fields_view(r@) =~= Seq::<(PathView, Seq<char>)>::empty());
    }
    match &schema.kinds[k] {
        Kind::Text => {
            if let PropertyValue::Text(t) = v {
                push_field(&mut r, Vec::new(), t.0.clone());
                proof {
                    assert(strings_view(Seq::<String>::empty()) =~= e0);
                    lemma_lookup_one((e0, t.0@), e0);
                    assert(fields_view(r@) =~= seq![(e0, t.0@)]);
                }
            }
        },
        Kind::Markdown => {
            if let PropertyValue::Markdown(t) = v {
                push_field(&mut r, Vec::new(), t.0.clone());
                proof {
                    assert(strings_view(Seq::<String>::empty()) =~= e0);
                    lemma_lookup_one((e0, t.0@), e0);
                    assert(fields_view(r@) =~= seq![(e0, t.0@)]);
                }
            }
        },
        Kind::Boolean => {
            if let PropertyValue::Boolean(b) = v {
                if *b {
                    push_field(&mut r, Vec::new(), "true".to_owned());
                    proof {
                        assert(strings_view(Seq::<String>::empty()) =~= e0);
                        lemma_lookup_one((e0, "true"@), e0);
                        assert(fields_view(r@) =~= seq![(e0, "true"@)]);
                    }
                }
            }
        },
        Kind::DateTime => {
            if let PropertyValue::DateTime(t) = v {
                match rfc3339_text((t.secs, t.nanos)) {
                    Some(s) => {
                        push_field(&mut r, Vec::new(), s);
                        proof {
                            assert(strings_view(Seq::<String>::empty()) =~= e0);
                            lemma_lookup_one((e0, fields_view(r@)[0].1), e0);
                            assert(fields_view(r@) =~= seq![(e0, fields_view(r@)[0].1)]);
                        }
                    },
                    None => {},
                }
            }
        },
        Kind::Uuid => {
            if let PropertyValue::Uuid(u) = v {
                push_field(&mut r, Vec::new(), uuid_text(*u));
                proof {
                    assert(strings_view(Seq::<String>::empty()) =~= e0);
                    lemma_lookup_one((e0, uuid_text_of(*u)), e0);
                    assert(fields_view(r@) =~= seq![(e0, uuid_text_of(*u))]);
                }
            }
        },
        Kind::File => {
            if let PropertyValue::File(f) = v {
                r = previous_file(f);
            }
        },
        Kind::Image => {
            if let PropertyValue::Image(img) = v {
                r = previous_file(&img.file);
                let ghost prev = fields_view(r@);
                push_field(&mut r, path_of("alt_text"), img.alt_text.clone());
                proof {
                    let x = (path1("alt_text"@), img.alt_text@);
                    assert(fields_view(r@) =~= prev + seq![x]);
                    lemma_file_keys_distinct();
                    lemma_lookup_one(x, path1("id"@));
                    lemma_lookup_one(x, path1("name"@));
                    lemma_previous_file_decodes(img.file.view(), seq![x]);
                    lemma_lookup_append(prev, seq![x], path1("alt_text"@));
                    lemma_lookup_one(x, path1("alt_text"@));
                    lemma_lookup_one((path1("id_old"@), uuid_text_of(img.file.id)), path1("alt_text"@));
                    lemma_lookup_one((path1("name_old"@), img.file.name@), path1("alt_text"@));
                    lemma_lookup_append(
                        seq![(path1("id_old"@), uuid_text_of(img.file.id))],
                        seq![(path1("name_old"@), img.file.name@)],
                        path1("alt_text"@),
                    );
                    assert(prev =~= seq![(path1("id_old"@), uuid_text_of(img.file.id))] + seq![
                        (path1("name_old"@), img.file.name@),
                    ]);
                }
            }
        },
        Kind::List(e) => {
            let e = *e;
            if let PropertyValue::List(items) = v {
                let ghost vals = view_values(items@);
                proof {
                    lemma_view_values(items@);
                }
                let mut i: usize = 0;
                while i < items.len()
                    invariant
                        schema.wf(),
                        kinds == schema.kinds@,
                        e < k < kinds.len(),
                        kinds[k as int] == Kind::List(e),
                        i <= items@.len(),
                        vals == view_values(items@),
                        vals.len() == items@.len(),
                        forall|j: int| 0 <= j < items@.len() ==> #[trigger] vals[j] == items@[j].view(),
                        fields_view(r@) == list_fields(kinds, e as nat, vals, i as nat),
                        forall|j: int|
                            0 <= j < i ==> fits(kinds, e as nat, #[trigger] vals[j]) ==> decode(
                                kinds,
                                e as nat,
                                form_fields(kinds, e as nat, vals[j]),
                            ) == Ok::<Value, DecodeError>(vals[j]),
                    decreases items.len() - i,
                {
                    let part = encode_fields(schema, e, &items[i]);
                    let seg = index_segment(i);
                    nest_into(&mut r, seg.as_str(), &part);
                    i = i + 1;
                }
                proof {
                    if fits(kinds, k as nat, v.view()) {
                        lemma_fits_items(kinds, e as nat, vals, vals.len());
                        assert forall|j: int| 0 <= j < vals.len() implies #[trigger] form_fields(
                            kinds,
                            e as nat,
                            vals[j],
                        ).len() > 0 && decode(
                            kinds,
                            e as nat,
                            form_fields(kinds, e as nat, vals[j]),
                        ) is Ok by {
                            assert(fits(kinds, e as nat, vals[j]));
                        }
                        lemma_list_decodes_in_order(kinds, k as nat, vals);
                        let out = decode(kinds, k as nat, fields_view(r@))->Ok_0->List_0;
                        assert(out =~= vals);
                    }
                }
            }
        },
        Kind::Optional(e) => {
            if let PropertyValue::Optional(o) = v {
                if let Some(b) = o {
                    r = encode_fields(schema, *e, b);
                }
            }
        },
        Kind::Union(u) => {
            if let PropertyValue::Variant(name, payload) = v {
                push_field(&mut r, path_of(u.tag.as_str()), name.clone());
                let ghost head = fields_view(r@);
                let ghost x = (path1(u.tag@), name@);
                proof {
                    assert(head =~= seq![x]);
                    lemma_lookup_one(x, path1(u.tag@));
                    assert(x.0[0] != u.content@);
                    lemma_below_one(x, u.content@);
                }
                match find_variant(&u.variants, name) {
                    Some(j) => {
                        proof {
                            lemma_variant_index(u.variants@, name@);
                            assert(u.variants@[j as int].payload matches Some(p) ==> p < k);
                        }
                        match u.variants[j].payload {
                            Some(p) => {
                                match payload {
                                    Some(b) => {
                                        let inner = encode_fields(schema, p, b);
                                        nest_into(&mut r, u.content.as_str(), &inner);
                                        proof {
                                            let g = fields_view(inner@);
                                            lemma_lookup_append(
                                                head,
                                                nest(u.content@, g),
                                                path1(u.tag@),
                                            );
                                            lemma_below_append(head, nest(u.content@, g), u.content@);
                                            lemma_below_nest(u.content@, u.content@, g);
                                            assert(Seq::<(PathView, Seq<char>)>::empty() + g =~= g);
                                        }
                                    },
                                    None => {
                                        proof {
                                            assert(head + Seq::<(PathView, Seq<char>)>::empty() =~= head);
                                        }
                                    },
                                }
                            },
                            None => {
                                proof {
                                    assert(head + Seq::<(PathView, Seq<char>)>::empty() =~= head);
                                }
                            },
                        }
                    },
                    None => {
                        proof {
                            assert(head + Seq::<(PathView, Seq<char>)>::empty() =~= head);
                        }
                    },
                }
            }
        },
    }
    r
}

proof fn lemma_fits_items(kinds: Seq<Kind>, e: nat, items: Seq<Value>, n: nat)
    requires
        n <= items.len(),
        fits_items(kinds, e, items, n),
    ensures
        forall|j: int|
            0 <= j < n ==> #[trigger] fits(kinds, e, items[j]) && form_fields(
                kinds,
                e,
                items[j],
            ).len() > 0,
    decreases n,
{
    if n > 0 {
        lemma_fits_items(kinds, e, items, (n - 1) as nat);
    }
}

} // verus!
