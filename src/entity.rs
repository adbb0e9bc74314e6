//! Entity descriptors, built once from a type's name and its field options,
//! naming its fields and columns.
use crate::bindings::TextCase;
use crate::name_path::bracket_free;
use crate::schema::{opt_view, renamed, renamed_name, RenameAll, Schema, SchemaError};
use vstd::prelude::*;

verus! {

/// A column of the list view.
#[derive(Clone, Debug)]
pub struct ColumnInfo {
    pub name: String,
    /// whether the column is hidden by default
    pub hidden: bool,
}

/// How one field of an entity type is declared.
#[derive(Clone, Debug)]
pub struct FieldOptions {
    pub ident: String,
    pub kind: usize,
    /// the field that identifies the entity
    pub id: bool,
    /// not shown as a column of the list view
    pub skip_column: bool,
    /// not shown in the input form
    pub skip_input: bool,
    pub rename: Option<String>,
    pub column_hidden: bool,
}

/// A field of an entity, as the forms and lists use it.
#[derive(Clone, Debug)]
pub struct FieldDescriptor {
    pub name: String,
    pub human_name: String,
    pub kind: usize,
    pub skip_column: bool,
    pub skip_input: bool,
    pub column_hidden: bool,
}

/// An entity type: its names, its id field and its fields in order.
#[derive(Clone, Debug)]
pub struct EntityDescriptor {
    pub name: String,
    pub name_plural: String,
    pub id_field: usize,
    pub fields: Vec<FieldDescriptor>,
}

pub open spec fn case_of(rename_all: Option<RenameAll>) -> Option<TextCase> {
    match rename_all {
        Some(r) => Some(r.text_case()),
        None => None,
    }
}

/// The name a field goes by.
pub open spec fn field_name(o: FieldOptions, rename_all: Option<RenameAll>) -> Seq<char> {
    renamed(o.ident@, opt_view(o.rename), case_of(rename_all))
}

/// The descriptor a field's options give.
pub open spec fn describes(d: FieldDescriptor, o: FieldOptions, rename_all: Option<RenameAll>) -> bool {
    &&& d.name@ == field_name(o, rename_all)
    &&& d.human_name@ == d.name@
    &&& d.kind == o.kind
    &&& d.skip_column == o.skip_column
    &&& d.skip_input == o.skip_input
    &&& d.column_hidden == o.column_hidden
}

pub open spec fn id_count(opts: Seq<FieldOptions>) -> nat
    decreases opts.len(),
{
    if opts.len() == 0 {
        0
    } else {
        id_count(opts.drop_last()) + if opts.last().id {
            1nat
        } else {
            0nat
        }
    }
}

/// Why a type's declaration gives no entity, if it gives none: no id field,
/// more than one, a field of an unregistered kind, or a field name holding a
/// bracket, checked in that order.
pub open spec fn entity_error(
    kinds_len: nat,
    opts: Seq<FieldOptions>,
    rename_all: Option<RenameAll>,
) -> Option<SchemaError> {
    if id_count(opts) == 0 {
        Some(SchemaError::MissingId)
    } else if id_count(opts) > 1 {
        Some(SchemaError::DuplicateId)
    } else if exists|i: int| 0 <= i < opts.len() && #[trigger] opts[i].kind >= kinds_len {
        Some(SchemaError::UnknownKind)
    } else if exists|i: int|
        0 <= i < opts.len() && !bracket_free(field_name(#[trigger] opts[i], rename_all)) {
        Some(SchemaError::InvalidName)
    } else {
        None
    }
}

proof fn lemma_id_count_step(opts: Seq<FieldOptions>, i: int)
    requires
        0 <= i < opts.len(),
    ensures
        id_count(opts.subrange(0, i + 1)) == id_count(opts.subrange(0, i)) + if opts[i].id {
            1nat
        } else {
            0nat
        },
{
    assert(opts.subrange(0, i + 1).drop_last() =~= opts.subrange(0, i));
}

proof fn lemma_single_id(opts: Seq<FieldOptions>, k: int, n: int)
    requires
        0 <= k < n <= opts.len(),
        opts[k].id,
        id_count(opts.subrange(0, n)) == 1,
    ensures
        forall|j: int| 0 <= j < n && j != k ==> !(#[trigger] opts[j].id),
    decreases n,
{
    assert forall|j: int| 0 <= j < n && j != k implies !(#[trigger] opts[j].id) by {
        if opts[j].id {
            lemma_two_ids(opts, k, j, n);
        }
    }
}

proof fn lemma_two_ids(opts: Seq<FieldOptions>, a: int, b: int, n: int)
    requires
        0 <= a < n <= opts.len(),
        0 <= b < n,
        a != b,
        opts[a].id,
        opts[b].id,
    ensures
        id_count(opts.subrange(0, n)) >= 2,
    decreases n,
{
    lemma_id_count_step(opts, n - 1);
    if a < n - 1 && b < n - 1 {
        lemma_two_ids(opts, a, b, n - 1);
    } else {
        let other = if a == n - 1 {
            b
        } else {
            a
        };
        lemma_one_id(opts, other, n - 1);
    }
}

proof fn lemma_one_id(opts: Seq<FieldOptions>, a: int, n: int)
    requires
        0 <= a < n <= opts.len(),
        opts[a].id,
    ensures
        id_count(opts.subrange(0, n)) >= 1,
    decreases n,
{
    lemma_id_count_step(opts, n - 1);
    if a < n - 1 {
        lemma_one_id(opts, a, n - 1);
    }
}

impl EntityDescriptor {
    /// Describes an entity type: named by `rename`, else by its type name in
    /// snake case; its plural adds `s`; each field named by its own rename,
    /// else by its identifier in the `rename_all` casing. Exactly one field
    /// must be the id, every kind must be registered, and no field name may
    /// hold a bracket.
    pub fn describe(
        schema: &Schema,
        ident: String,
        rename: Option<String>,
        rename_all: Option<RenameAll>,
        opts: Vec<FieldOptions>,
    ) -> (r: Result<EntityDescriptor, SchemaError>)
        ensures
            r matches Err(e) ==> entity_error(schema.kinds@.len() as nat, opts@, rename_all)
                == Some(e),
            r matches Ok(d) ==> {
                &&& entity_error(schema.kinds@.len() as nat, opts@, rename_all) is None
                &&& d.name@ == renamed(ident@, opt_view(rename), Some(TextCase::Snake))
                &&& d.name_plural@ == d.name@ + "s"@
                &&& d.fields@.len() == opts@.len()
                &&& d.id_field < opts@.len()
                &&& opts@[d.id_field as int].id
                &&& forall|j: int| 0 <= j < opts@.len() && j != d.id_field ==> !(
                #[trigger] opts@[j].id)
                &&& forall|j: int|
                    0 <= j < opts@.len() ==> describes(
                        #[trigger] d.fields@[j],
                        opts@[j],
                        rename_all,
                    )
                &&& forall|j: int| 0 <= j < opts@.len() ==> #[trigger] d.fields@[j].kind
                    < schema.kinds@.len()
                &&& forall|j: int| 0 <= j < opts@.len() ==> bracket_free(
                    #[trigger] d.fields@[j].name@,
                )
            },
    {
        let n = opts.len();
        let ghost kl = schema.kinds@.len() as nat;
        let mut count: usize = 0;
        let mut id_field: usize = 0;
        let mut i: usize = 0;
        while i < n
            invariant
                n == opts@.len(),
                i <= n,
                count as nat == id_count(opts@.subrange(0, i as int)),
                count <= i,
                count > 0 ==> id_field < i && opts@[id_field as int].id,
            decreases n - i,
        {
            proof {
                lemma_id_count_step(opts@, i as int);
            }
            if opts[i].id {
                if count == 0 {
                    id_field = i;
                }
                count = count + 1;
            }
            i = i + 1;
        }
        proof {
            assert(opts@.subrange(0, n as int) =~= opts@);
        }
        if count == 0 {
            return Err(SchemaError::MissingId);
        }
        if count > 1 {
            return Err(SchemaError::DuplicateId);
        }
        proof {
            lemma_single_id(opts@, id_field as int, n as int);
        }
        let mut i: usize = 0;
        while i < n
            invariant
                n == opts@.len(),
                i <= n,
                kl == schema.kinds@.len(),
                id_count(opts@) == 1,
                forall|j: int| 0 <= j < i ==> #[trigger] opts@[j].kind < kl,
            decreases n - i,
        {
            if opts[i].kind >= schema.kinds.len() {
                proof {
                    assert(opts@[i as int].kind >= kl);
                }
                return Err(SchemaError::UnknownKind);
            }
            i = i + 1;
        }
        let mut fields: Vec<FieldDescriptor> = Vec::new();
        let case = match rename_all {
            Some(ra) => Some(ra.case()),
            None => None,
        };
        let mut i: usize = 0;
        while i < n
            invariant
                n == opts@.len(),
                i <= n,
                case == case_of(rename_all),
                id_count(opts@) == 1,
                fields@.len() == i,
                forall|j: int| 0 <= j < n ==> #[trigger] opts@[j].kind < kl,
                forall|j: int| 0 <= j < i ==> describes(#[trigger] fields@[j], opts@[j], rename_all),
                forall|j: int| 0 <= j < i ==> bracket_free(#[trigger] fields@[j].name@),
                kl == schema.kinds@.len(),
            decreases n - i,
        {
            let o = &opts[i];
            let rn = match &o.rename {
                Some(x) => Some(x.clone()),
                None => None,
            };
            let name = renamed_name(o.ident.clone(), rn, case);
            if !crate::name_path::text_bracket_free(&name) {
                proof {
                    assert(!bracket_free(field_name(opts@[i as int], rename_all)));
                }
                return Err(SchemaError::InvalidName);
            }
            let human = name.clone();
            fields.push(
                FieldDescriptor {
                    name,
                    human_name: human,
                    kind: o.kind,
                    skip_column: o.skip_column,
                    skip_input: o.skip_input,
                    column_hidden: o.column_hidden,
                },
            );
            i = i + 1;
        }
        proof {
            assert forall|j: int| 0 <= j < opts@.len() implies bracket_free(
                field_name(#[trigger] opts@[j], rename_all),
            ) by {
                assert(describes(fields@[j], opts@[j], rename_all));
            }
        }
        let base = renamed_name(ident, rename, Some(TextCase::Snake));
        let mut plural = base.clone();
        plural.append("s");
        Ok(EntityDescriptor { name: base, name_plural: plural, id_field, fields })
    }

    /// The columns of the list view: the fields not skipped there, in order.
    pub fn columns(&self) -> (r: Vec<ColumnInfo>)
        ensures
            columns_view(r@) == columns_of(self.fields@),
    {
        let ghost fs = self.fields@;
        let mut r: Vec<ColumnInfo> = Vec::new();
        let mut i: usize = 0;
        proof {
            assert(columns_view(r@) =~= Seq::<(Seq<char>, bool)>::empty());
        }
        while i < self.fields.len()
            invariant
                fs == self.fields@,
                i <= fs.len(),
                columns_view(r@) == columns_of(fs.subrange(0, i as int)),
            decreases fs.len() - i,
        {
            proof {
                assert(fs.subrange(0, i + 1).drop_last() =~= fs.subrange(0, i as int));
            }
            let f = &self.fields[i];
            if !f.skip_column {
                let ghost before = r@;
                r.push(ColumnInfo { name: f.name.clone(), hidden: f.column_hidden });
                proof {
                    assert(columns_view(r@) =~= columns_view(before).push((f.name@, f.column_hidden)));
                }
            }
            i = i + 1;
        }
        proof {
            assert(fs.subrange(0, i as int) =~= fs);
        }
        r
    }

    /// How many columns the list view has.
    pub fn column_count(&self) -> (r: usize)
        ensures
            r == columns_of(self.fields@).len(),
    {
        self.columns().len()
    }

    /// The positions of the fields shown in the input form, in order.
    pub fn input_fields(&self) -> (r: Vec<usize>)
        ensures
            r@ == inputs_of(self.fields@),
    {
        let ghost fs = self.fields@;
        let mut r: Vec<usize> = Vec::new();
        let mut i: usize = 0;
        while i < self.fields.len()
            invariant
                fs == self.fields@,
                i <= fs.len(),
                r@ == inputs_of(fs.subrange(0, i as int)),
            decreases fs.len() - i,
        {
            proof {
                assert(fs.subrange(0, i + 1).drop_last() =~= fs.subrange(0, i as int));
            }
            if !self.fields[i].skip_input {
                r.push(i);
            }
            i = i + 1;
        }
        proof {
            assert(fs.subrange(0, i as int) =~= fs);
        }
        r
    }
}

pub open spec fn columns_view(cs: Seq<ColumnInfo>) -> Seq<(Seq<char>, bool)> {
    cs.map_values(|c: ColumnInfo| (c.name@, c.hidden))
}

/// The names and hidden flags of the fields shown as columns.
pub open spec fn columns_of(fs: Seq<FieldDescriptor>) -> Seq<(Seq<char>, bool)>
    decreases fs.len(),
{
    if fs.len() == 0 {
        Seq::empty()
    } else {
        let rest = columns_of(fs.drop_last());
        if fs.last().skip_column {
            rest
        } else {
            rest.push((fs.last().name@, fs.last().column_hidden))
        }
    }
}

/// The positions of the fields shown in the input form.
pub open spec fn inputs_of(fs: Seq<FieldDescriptor>) -> Seq<usize>
    decreases fs.len(),
{
    if fs.len() == 0 {
        Seq::empty()
    } else {
        let rest = inputs_of(fs.drop_last());
        if fs.last().skip_input {
            rest
        } else {
            rest.push((fs.len() - 1) as usize)
        }
    }
}

} // verus!
