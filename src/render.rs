//! What the forms and pages show: for each property, the controls of its
//! input and the field names they carry; for the sidebar, its links. Turning
//! these into markup is pure formatting.
use crate::bindings::{cased, escape_regex, regex_escaped, to_case, url_encoded, uuid_text, uuid_text_of, TextCase};
use crate::name_path::{child_name, index_segment};
use crate::property::{File, PropertyValue, Value};
use crate::schema::{kinds_wf, lemma_variant_index, variant_index, Kind, Schema, UnionKind};
use vstd::prelude::*;

verus! {

/// Where a variant's content block stands relative to the selected one.
#[derive(Clone, Copy, Debug, PartialEq, Eq, Structural)]
pub enum Placement {
    Before,
    Selected,
    After,
}

pub open spec fn placement_spec(i: nat, selected: nat) -> Placement {
    if i < selected {
        Placement::Before
    } else if i == selected {
        Placement::Selected
    } else {
        Placement::After
    }
}

/// Where variant `i` stands relative to the selected variant.
pub fn placement(i: usize, selected: usize) -> (r: Placement)
    ensures
        r == placement_spec(i as nat, selected as nat),
{
    if i < selected {
        Placement::Before
    } else if i == selected {
        Placement::Selected
    } else {
        Placement::After
    }
}

/// One control of a property's input.
#[derive(Debug)]
pub enum Control {
    /// A single-line text input.
    Text { name: String, placeholder: String, value: Option<String>, required: bool },
    /// A markdown editor.
    Markdown { name: String, placeholder: String, value: String, required: bool },
    /// A date-time picker whose hidden field carries the RFC 3339 text.
    DateTime { name: String, value: Option<String>, required: bool },
    /// A checkbox submitting `true` when checked.
    Checkbox { name: String, checked: bool },
    /// A file input. `previous` holds the names and values of the hidden
    /// fields that keep the stored file when no new one is chosen.
    File {
        name: String,
        previous: Option<((String, String), (String, String))>,
        required: bool,
        images_only: bool,
    },
    /// A text input for an image's alternative text.
    AltText { name: String, value: Option<String> },
    /// A list: one block per element, and the template block that the
    /// browser copies for a new element, renaming `name[]` to `name[i]`.
    List { name: String, pattern: String, items: Vec<Vec<Control>>, template: Vec<Control> },
    /// A tagged union: one radio button per variant under `tag_name`, and
    /// one content block per variant, enabled only for the selected one.
    Union { tag_name: String, selected: usize, variants: Vec<VariantControl> },
}

/// One variant of a union's input.
#[derive(Debug)]
pub struct VariantControl {
    pub value: String,
    pub label: String,
    pub placement: Placement,
    pub content: Vec<Control>,
}

/// The input of variant `j`: its name as the radio button's value, and its
/// block placed relative to the selected variant.
pub open spec fn variant_ok(c: VariantControl, v: crate::schema::VariantKind, j: int, selected: usize) -> bool {
    &&& c.value@ == v.name@
    &&& c.placement == placement_spec(j as nat, selected as nat)
}

pub open spec fn child(name: Seq<char>, seg: Seq<char>) -> Seq<char> {
    name + seq!['['] + seg + seq![']']
}

/// The variant a union's input selects: the value's own, else the first.
pub open spec fn selected_spec(u: UnionKind, value: Option<Value>) -> nat {
    match value {
        Some(Value::Variant(n, _)) => match variant_index(u.variants@, n) {
            Some(j) => j,
            None => 0,
        },
        _ => 0,
    }
}

/// The variant a union's input selects: that of the value shown, else the first.
pub fn selected_variant(u: &UnionKind, value: Option<&PropertyValue>) -> (r: usize)
    ensures
        r as nat == selected_spec(
            *u,
            match value {
                Some(v) => Some(v.view()),
                None => None,
            },
        ),
        u.variants@.len() > 0 ==> r < u.variants@.len(),
{
    match value {
        Some(PropertyValue::Variant(n, _)) => {
            proof {
                lemma_variant_index(u.variants@, n@);
            }
            match crate::form::find_variant(&u.variants, n) {
                Some(j) => j,
                None => 0,
            }
        },
        _ => 0,
    }
}

/// The controls of the input of a property of kind `k`, showing `value` if
/// there is one, named `name`.
pub fn input_controls(
    schema: &Schema,
    k: usize,
    value: Option<&PropertyValue>,
    name: &str,
    human: &str,
    required: bool,
) -> (r: Vec<Control>)
    requires
        schema.wf(),
        k < schema.kinds@.len(),
    ensures
        schema.kinds@[k as int] is Optional || r@.len() > 0,
        schema.kinds@[k as int] is Text ==> (r@.len() == 1 && text_control_ok(
            r@[0],
            name@,
            value,
            required,
        )),
        schema.kinds@[k as int] is Markdown ==> (r@.len() == 1 && markdown_ok(
            r@[0],
            name@,
            value,
            required,
        )),
        schema.kinds@[k as int] is DateTime ==> (r@.len() == 1 && date_time_ok(
            r@[0],
            name@,
            value,
            required,
        )),
        schema.kinds@[k as int] is Uuid ==> (r@.len() == 1 && uuid_input_ok(
            r@[0],
            name@,
            value,
            required,
        )),
        schema.kinds@[k as int] is Boolean ==> (r@.len() == 1 && checkbox_ok(
            r@[0],
            name@,
            value_is_true(value),
        )),
        schema.kinds@[k as int] is File ==> (r@.len() == 1 && file_control_ok(
            r@[0],
            name@,
            file_shown(value),
            required,
        )),
        schema.kinds@[k as int] is Image ==> (r@.len() == 2 && file_control_ok(
            r@[0],
            name@,
            image_file_shown(value),
            required,
        ) && alt_ok(r@[1], name@)),
        schema.kinds@[k as int] is List ==> (r@.len() == 1 && list_control_ok(
            r@[0],
            name@,
            list_len(value),
        )),
        (match schema.kinds@[k as int] {
            Kind::Union(u) => r@.len() == 1 && union_control_ok(
                r@[0],
                name@,
                u,
                match value {
                    Some(v) => Some(v.view()),
                    None => None,
                },
            ),
            _ => true,
        }),
    decreases k,
{
    proof {
        assert(kinds_wf(schema.kinds@));
        assert(crate::schema::kind_wf(schema.kinds@[k as int], k as nat));
    }
    let mut r: Vec<Control> = Vec::new();
    match &schema.kinds[k] {
        Kind::Text => {
            let v = match value {
                Some(PropertyValue::Text(t)) => Some(t.0.clone()),
                _ => None,
            };
            r.push(Control::Text { name: name.to_owned(), placeholder: human.to_owned(), value: v, required });
        },
        Kind::Uuid => {
            let v = match value {
                Some(PropertyValue::Uuid(u)) => Some(uuid_text(*u)),
                _ => None,
            };
            r.push(Control::Text { name: name.to_owned(), placeholder: human.to_owned(), value: v, required });
        },
        Kind::Markdown => {
            let v = match value {
                Some(PropertyValue::Markdown(t)) => t.0.clone(),
                _ => String::new(),
            };
            r.push(Control::Markdown { name: name.to_owned(), placeholder: human.to_owned(), value: v, required });
        },
        Kind::DateTime => {
            let v = match value {
                Some(PropertyValue::DateTime(t)) => crate::bindings::rfc3339_text((t.secs, t.nanos)),
                _ => None,
            };
            r.push(Control::DateTime { name: name.to_owned(), value: v, required });
        },
        Kind::Boolean => {
            let checked = match value {
                Some(PropertyValue::Boolean(b)) => *b,
                _ => false,
            };
            r.push(Control::Checkbox { name: name.to_owned(), checked });
        },
        Kind::File => {
            let f = match value {
                Some(PropertyValue::File(f)) => Some(f),
                _ => None,
            };
            r.push(file_control(name, f, required, false));
        },
        Kind::Image => {
            let (f, alt) = match value {
                Some(PropertyValue::Image(img)) => (Some(&img.file), Some(img.alt_text.clone())),
                _ => (None, None),
            };
            r.push(file_control(name, f, required, true));
            r.push(Control::AltText { name: child_name(name, "alt_text"), value: alt });
        },
        Kind::List(e) => {
            let e = *e;
            let mut items: Vec<Vec<Control>> = Vec::new();
            match value {
                Some(PropertyValue::List(vs)) => {
                    let mut i: usize = 0;
                    while i < vs.len()
                        invariant
                            schema.wf(),
                            e < k < schema.kinds@.len(),
                            i <= vs@.len(),
                            items@.len() == i,
                        decreases vs.len() - i,
                    {
                        let item_name = child_name(name, index_segment(i).as_str());
                        items.push(input_controls(schema, e, Some(&vs[i]), item_name.as_str(), human, required));
                        i = i + 1;
                    }
                },
                _ => {},
            }
            let template_name = child_name(name, "");
            let template = input_controls(schema, e, None, template_name.as_str(), human, required);
            r.push(Control::List { name: name.to_owned(), pattern: escape_regex(name), items, template });
        },
        Kind::Optional(e) => {
            let inner = match value {
                Some(PropertyValue::Optional(Some(b))) => Some(&**b),
                _ => None,
            };
            r = input_controls(schema, *e, inner, name, human, false);
        },
        Kind::Union(u) => {
            let selected = selected_variant(u, value);
            let content_name = child_name(name, u.content.as_str());
            let mut variants: Vec<VariantControl> = Vec::new();
            let mut i: usize = 0;
            while i < u.variants.len()
                invariant
                    schema.wf(),
                    kinds_wf(schema.kinds@),
                    crate::schema::union_wf(*u, k as nat),
                    k < schema.kinds@.len(),
                    i <= u.variants@.len(),
                    variants@.len() == i,
                    forall|j: int|
                        0 <= j < i ==> variant_ok(#[trigger] variants@[j], u.variants@[j], j, selected),
                decreases u.variants.len() - i,
            {
                let vk = &u.variants[i];
                let label = to_case(vk.name.as_str(), TextCase::Title);
                let content = match vk.payload {
                    Some(p) => {
                        proof {
                            assert(u.variants@[i as int].payload matches Some(q) ==> q < k);
                        }
                        let inner = if i == selected {
                            match value {
                                Some(PropertyValue::Variant(_, Some(b))) => Some(&**b),
                                _ => None,
                            }
                        } else {
                            None
                        };
                        input_controls(schema, p, inner, content_name.as_str(), label.as_str(), required)
                    },
                    None => Vec::new(),
                };
                let value_text = vk.name.clone();
                let pl = placement(i, selected);
                let ghost before = variants@;
                variants.push(VariantControl { value: value_text, label, placement: pl, content });
                proof {
                    assert(variant_ok(variants@[i as int], u.variants@[i as int], i as int, selected));
                    assert forall|j: int| 0 <= j < i + 1 implies variant_ok(
                        #[trigger] variants@[j],
                        u.variants@[j],
                        j,
                        selected,
                    ) by {
                        if j < i {
                            assert(variants@[j] == before[j]);
                        }
                    }
                }
                i = i + 1;
            }
            r.push(Control::Union { tag_name: child_name(name, u.tag.as_str()), selected, variants });
        },
    }
    r
}

/// A text input named `name` holding the text shown, or nothing.
pub open spec fn text_control_ok(c: Control, name: Seq<char>, value: Option<&PropertyValue>, required: bool) -> bool {
    match c {
        Control::Text { name: n, value: v, required: q, .. } => n@ == name && q == required
            && match value {
            Some(PropertyValue::Text(t)) => v matches Some(s) && s@ == t.0@,
            _ => v is None,
        },
        _ => false,
    }
}

/// A markdown editor named `name` holding the text shown, or nothing.
pub open spec fn markdown_ok(c: Control, name: Seq<char>, value: Option<&PropertyValue>, required: bool) -> bool {
    match c {
        Control::Markdown { name: n, value: v, required: q, .. } => n@ == name && q == required
            && v@ == match value {
            Some(PropertyValue::Markdown(m)) => m.0@,
            _ => Seq::<char>::empty(),
        },
        _ => false,
    }
}

/// A date-time input named `name` whose hidden field carries the RFC 3339
/// text of the instant shown.
pub open spec fn date_time_ok(c: Control, name: Seq<char>, value: Option<&PropertyValue>, required: bool) -> bool {
    match c {
        Control::DateTime { name: n, value: v, required: q } => n@ == name && q == required
            && match value {
            Some(PropertyValue::DateTime(t)) => match v {
                Some(s) => crate::bindings::rfc3339_of(t.pair()) == Some(s@),
                None => crate::bindings::rfc3339_of(t.pair()) is None,
            },
            _ => v is None,
        },
        _ => false,
    }
}

/// A text input named `name` holding the UUID shown, hyphenated.
pub open spec fn uuid_input_ok(c: Control, name: Seq<char>, value: Option<&PropertyValue>, required: bool) -> bool {
    match c {
        Control::Text { name: n, value: v, required: q, .. } => n@ == name && q == required
            && match value {
            Some(PropertyValue::Uuid(u)) => v matches Some(s) && s@ == uuid_text_of(*u),
            _ => v is None,
        },
        _ => false,
    }
}

pub open spec fn value_is_true(value: Option<&PropertyValue>) -> bool {
    match value {
        Some(PropertyValue::Boolean(b)) => *b,
        _ => false,
    }
}

pub open spec fn checkbox_ok(c: Control, name: Seq<char>, checked: bool) -> bool {
    match c {
        Control::Checkbox { name: n, checked: x } => n@ == name && x == checked,
        _ => false,
    }
}

pub open spec fn alt_ok(c: Control, name: Seq<char>) -> bool {
    match c {
        Control::AltText { name: n, .. } => n@ == child(name, "alt_text"@),
        _ => false,
    }
}

pub open spec fn list_len(value: Option<&PropertyValue>) -> nat {
    match value {
        Some(PropertyValue::List(vs)) => vs@.len(),
        _ => 0,
    }
}

/// A list control named `name` with one block per element shown.
pub open spec fn list_control_ok(c: Control, name: Seq<char>, n: nat) -> bool {
    match c {
        Control::List { name: x, pattern: p, items: its, .. } => x@ == name && p@ == regex_escaped(
            name,
        ) && its@.len() == n,
        _ => false,
    }
}

/// A union control: its radio buttons under `name[tag]`, the selected
/// variant that of the value shown (else the first), one block per variant,
/// each placed before, at or after the selected one.
pub open spec fn union_control_ok(c: Control, name: Seq<char>, u: UnionKind, value: Option<Value>) -> bool {
    match c {
        Control::Union { tag_name: t, selected: s, variants: vs } => {
            &&& t@ == child(name, u.tag@)
            &&& s as nat == selected_spec(u, value)
            &&& vs@.len() == u.variants@.len()
            &&& forall|j: int| 0 <= j < vs@.len() ==> variant_ok(#[trigger] vs@[j], u.variants@[j], j, s)
        },
        _ => false,
    }
}

pub open spec fn file_shown(value: Option<&PropertyValue>) -> Option<File> {
    match value {
        Some(PropertyValue::File(f)) => Some(*f),
        _ => None,
    }
}

pub open spec fn image_file_shown(value: Option<&PropertyValue>) -> Option<File> {
    match value {
        Some(PropertyValue::Image(img)) => Some(img.file),
        _ => None,
    }
}

/// A file control named `name`: where a file is shown, hidden fields
/// `name[id_old]` and `name[name_old]` carry its id and name, so that
/// submitting no new file keeps it, and a new file is then not required.
pub open spec fn file_control_ok(c: Control, name: Seq<char>, shown: Option<File>, required: bool) -> bool {
    match c {
        Control::File { name: n, previous: p, required: q, .. } => {
            &&& n@ == name
            &&& match shown {
                Some(f) => previous_ok(p, name, &f) && !q,
                None => p is None && q == required,
            }
        },
        _ => false,
    }
}

pub open spec fn previous_ok(p: Option<((String, String), (String, String))>, name: Seq<char>, f: &File) -> bool {
    match p {
        Some(((n1, v1), (n2, v2))) => n1@ == child(name, "id_old"@) && v1@ == uuid_text_of(f.id)
            && n2@ == child(name, "name_old"@) && v2@ == f.name@,
        None => false,
    }
}

fn file_control(name: &str, f: Option<&File>, required: bool, images_only: bool) -> (r: Control)
    ensures
        r matches Control::File { name: n, previous: p, required: q, images_only: io } && n@ == name@
            && io == images_only && match f {
            Some(f) => previous_ok(p, name@, f) && !q,
            None => p is None && q == required,
        },
{
    let previous = match f {
        Some(f) => {
            let id_name = child_name(name, "id_old");
            let name_name = child_name(name, "name_old");
            Some(((id_name, uuid_text(f.id)), (name_name, f.name.clone())))
        },
        None => None,
    };
    let req = required && f.is_none();
    Control::File { name: name.to_owned(), previous, required: req, images_only }
}

/// A link of the sidebar.
#[derive(Clone, Debug)]
pub struct NavLink {
    pub href: String,
    pub label: String,
    pub active: bool,
}

/// A link to the list of `name`: `/{name in kebab case}`, labelled in
/// title case, marked where `name` is the active one.
pub open spec fn link_ok(l: NavLink, name: String, active: Seq<char>) -> bool {
    &&& l.href@ == "/"@ + cased(name@, TextCase::Kebab)
    &&& l.label@ == cased(name@, TextCase::Title)
    &&& l.active == (name@ == active)
}

/// The sidebar: one link per entity, to `/{plural in kebab case}`, labelled
/// in title case, the one for `active` marked.
pub fn sidebar_links(names_plural: &Vec<String>, active: &str) -> (r: Vec<NavLink>)
    ensures
        r@.len() == names_plural@.len(),
        forall|i: int| 0 <= i < r@.len() ==> link_ok(#[trigger] r@[i], names_plural@[i], active@),
{
    let active_s = active.to_owned();
    let mut r: Vec<NavLink> = Vec::new();
    let mut i: usize = 0;
    while i < names_plural.len()
        invariant
            i <= names_plural@.len(),
            active_s@ == active@,
            r@.len() == i,
            forall|j: int| 0 <= j < i ==> link_ok(#[trigger] r@[j], names_plural@[j], active@),
        decreases names_plural.len() - i,
    {
        let n = &names_plural[i];
        let mut href = "/".to_owned();
        let k = to_case(n.as_str(), TextCase::Kebab);
        href.append(k.as_str());
        let label = to_case(n.as_str(), TextCase::Title);
        let is_active = *n == active_s;
        let ghost before = r@;
        r.push(NavLink { href, label, active: is_active });
        proof {
            assert(link_ok(r@[i as int], names_plural@[i as int], active@));
            assert forall|j: int| 0 <= j < i + 1 implies link_ok(
                #[trigger] r@[j],
                names_plural@[j],
                active@,
            ) by {
                if j < i {
                    assert(r@[j] == before[j]);
                }
            }
        }
        i = i + 1;
    }
    r
}

/// The page of one entity: `/{name in kebab case}/{id, percent-encoded}`.
pub fn entity_href(name: &str, id: &str) -> (r: String)
    ensures
        r@ == "/"@ + cased(name@, TextCase::Kebab) + "/"@ + url_encoded(id@),
{
    crate::dispatch::created_location(name, id)
}

/// A name as a heading or label: in title case.
pub fn display_name(s: &str) -> (r: String)
    ensures
        r@ == cased(s@, TextCase::Title),
{
    to_case(s, TextCase::Title)
}

/// The page for adding an entity: `/{plural in kebab case}/add`.
pub fn add_href(name_plural: &str) -> (r: String)
    ensures
        r@ == "/"@ + cased(name_plural@, TextCase::Kebab) + "/add"@,
{
    let k = to_case(name_plural, TextCase::Kebab);
    let mut r = "/".to_owned();
    r.append(k.as_str());
    r.append("/add");
    r
}

} // verus!
