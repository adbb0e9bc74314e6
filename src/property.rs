//! Property values: the scalars, files, lists, optionals and tagged unions
//! that an entity's fields hold, and their mathematical model.
use crate::bindings::{uuid_text, uuid_text_of};
use vstd::prelude::*;

verus! {

/// Plain single-line text.
#[derive(Clone, Debug, PartialEq, Eq, Hash, Default)]
pub struct Text(pub String);

/// Markdown source, edited in a markdown editor.
#[derive(Clone, Debug, PartialEq, Eq, Hash, Default)]
pub struct Markdown(pub String);

/// A value stored as JSON; it is entered and shown as the value it wraps.
#[derive(Clone, Copy, Debug, PartialEq, Eq, PartialOrd, Ord, Hash, Default)]
pub struct Json<T>(pub T);

/// A UTC instant: whole seconds and nanoseconds after the Unix epoch.
#[derive(Clone, Copy, Debug, PartialEq, Eq, Structural)]
pub struct Timestamp {
    pub secs: i64,
    pub nanos: u32,
}

impl Timestamp {
    pub open spec fn pair(self) -> (i64, u32) {
        (self.secs, self.nanos)
    }
}

/// An uploaded file: stored under its id, with the name it was uploaded as.
#[derive(Clone, Debug)]
pub struct File {
    pub id: u128,
    pub name: String,
}

/// An uploaded image with its alternative text.
#[derive(Clone, Debug)]
pub struct Image {
    pub file: File,
    pub alt_text: String,
}

/// The model of a file reference.
pub struct FileView {
    pub id: u128,
    pub name: Seq<char>,
}

/// The model of a property value.
pub enum Value {
    Text(Seq<char>),
    Markdown(Seq<char>),
    Boolean(bool),
    DateTime(Timestamp),
    Uuid(u128),
    File(FileView),
    Image(FileView, Seq<char>),
    List(Seq<Value>),
    Optional(Option<Box<Value>>),
    Variant(Seq<char>, Option<Box<Value>>),
}

/// A property value.
#[derive(Debug)]
pub enum PropertyValue {
    Text(Text),
    Markdown(Markdown),
    Boolean(bool),
    DateTime(Timestamp),
    Uuid(u128),
    File(File),
    Image(Image),
    List(Vec<PropertyValue>),
    Optional(Option<Box<PropertyValue>>),
    /// The active variant of a tagged union, by name, with its payload.
    Variant(String, Option<Box<PropertyValue>>),
}

impl File {
    pub open spec fn view(&self) -> FileView {
        FileView { id: self.id, name: self.name@ }
    }

    pub fn new(id: u128, name: String) -> (r: File)
        ensures
            r.id == id,
            r.name@ == name@,
    {
        File { id, name }
    }

    /// Where the file is served: `/uploads/{id}/{name}`.
    pub fn url(&self) -> (r: String)
        ensures
            r@ == "/uploads/"@ + uuid_text_of(self.id) + "/"@ + self.name@,
    {
        let mut r = "/uploads/".to_owned();
        let id = uuid_text(self.id);
        r.append(id.as_str());
        r.append("/");
        r.append(self.name.as_str());
        r
    }

    /// Where the file is stored below `uploads_dir`: `{uploads_dir}/{id}/{name}`.
    pub fn path(&self, uploads_dir: &str) -> (r: String)
        ensures
            r@ == uploads_dir@ + "/"@ + uuid_text_of(self.id) + "/"@ + self.name@,
    {
        let mut r = uploads_dir.to_owned();
        let id = uuid_text(self.id);
        r.append("/");
        r.append(id.as_str());
        r.append("/");
        r.append(self.name.as_str());
        r
    }
}

pub open spec fn view_values(items: Seq<PropertyValue>) -> Seq<Value>
    decreases items,
{
    if items.len() == 0 {
        Seq::empty()
    } else {
        view_values(items.drop_last()).push(items.last().view())
    }
}

pub proof fn lemma_view_values(items: Seq<PropertyValue>)
    ensures
        view_values(items).len() == items.len(),
        forall|i: int| 0 <= i < items.len() ==> #[trigger] view_values(items)[i] == items[i].view(),
    decreases items.len(),
{
    if items.len() > 0 {
        lemma_view_values(items.drop_last());
        assert forall|i: int| 0 <= i < items.len() implies #[trigger] view_values(items)[i]
            == items[i].view() by {
            if i < items.len() - 1 {
                assert(items.drop_last()[i] == items[i]);
            }
        }
    }
}

impl PropertyValue {
    pub open spec fn view(&self) -> Value
        decreases self,
    {
        match self {
            PropertyValue::Text(t) => Value::Text(t.0@),
            PropertyValue::Markdown(t) => Value::Markdown(t.0@),
            PropertyValue::Boolean(b) => Value::Boolean(*b),
            PropertyValue::DateTime(t) => Value::DateTime(*t),
            PropertyValue::Uuid(u) => Value::Uuid(*u),
            PropertyValue::File(f) => Value::File(f.view()),
            PropertyValue::Image(i) => Value::Image(i.file.view(), i.alt_text@),
            PropertyValue::List(items) => Value::List(view_values(items@)),
            PropertyValue::Optional(o) => match o {
                Some(b) => Value::Optional(Some(Box::new(b.view()))),
                None => Value::Optional(None),
            },
            PropertyValue::Variant(name, payload) => match payload {
                Some(b) => Value::Variant(name@, Some(Box::new(b.view()))),
                None => Value::Variant(name@, None),
            },
        }
    }
}

} // verus!
