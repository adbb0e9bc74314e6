//! The schema registry: property kinds registered one by one, each able to
//! refer only to kinds registered before it, and the descriptors of
//! entities built from them.
use crate::bindings::{cased, to_case, TextCase};
use crate::name_path::bracket_free;
use vstd::prelude::*;

verus! {

/// One variant of a tagged union: its name, and the kind of its payload if it has one.
#[derive(Clone, Debug)]
pub struct VariantKind {
    pub name: String,
    pub payload: Option<usize>,
}

/// A tagged union: the segment that carries the variant's name, the segment
/// under which its payload is nested, and the variants.
#[derive(Clone, Debug)]
pub struct UnionKind {
    pub tag: String,
    pub content: String,
    pub variants: Vec<VariantKind>,
}

/// The kind of a property. Compound kinds name their parts by registry index.
#[derive(Clone, Debug)]
pub enum Kind {
    Text,
    Markdown,
    Boolean,
    DateTime,
    Uuid,
    File,
    Image,
    List(usize),
    Optional(usize),
    Union(UnionKind),
}

/// Why a schema or an entity description was refused.
#[derive(Clone, Copy, Debug, PartialEq, Eq, Structural)]
pub enum SchemaError {
    /// A kind refers to one that is not registered before it.
    UnknownKind,
    /// A name used in field names holds `[` or `]`.
    InvalidName,
    /// A tagged union's tag and content segments are the same.
    TagIsContent,
    /// Two variants of a tagged union share a name.
    DuplicateVariant,
    /// An entity has no id field.
    MissingId,
    /// An entity has more than one id field.
    DuplicateId,
}

pub open spec fn variant_names_distinct(vs: Seq<VariantKind>) -> bool {
    forall|i: int, j: int|
        0 <= i < j < vs.len() ==> #[trigger] vs[i].name@ != #[trigger] vs[j].name@
}

/// A union registered at index `k`: well-formed keys, distinct variant names,
/// payload kinds registered before it.
pub open spec fn union_wf(u: UnionKind, k: nat) -> bool {
    &&& bracket_free(u.tag@)
    &&& bracket_free(u.content@)
    &&& u.tag@ != u.content@
    &&& variant_names_distinct(u.variants@)
    &&& forall|i: int|
        0 <= i < u.variants@.len() ==> (#[trigger] u.variants@[i].payload matches Some(p) ==> p
            < k)
}

/// The kind at index `k` refers only to kinds before it.
pub open spec fn kind_wf(kind: Kind, k: nat) -> bool {
    match kind {
        Kind::List(e) => e < k,
        Kind::Optional(e) => e < k,
        Kind::Union(u) => union_wf(u, k),
        _ => true,
    }
}

pub open spec fn kinds_wf(kinds: Seq<Kind>) -> bool {
    forall|k: int| 0 <= k < kinds.len() ==> kind_wf(#[trigger] kinds[k], k as nat)
}

/// The first variant of a union's variant list with the given name.
pub open spec fn variant_index(vs: Seq<VariantKind>, name: Seq<char>) -> Option<nat>
    decreases vs.len(),
{
    if vs.len() == 0 {
        None
    } else {
        match variant_index(vs.drop_last(), name) {
            Some(i) => Some(i),
            None => if vs.last().name@ == name {
                Some((vs.len() - 1) as nat)
            } else {
                None
            },
        }
    }
}

pub proof fn lemma_variant_index(vs: Seq<VariantKind>, name: Seq<char>)
    ensures
        variant_index(vs, name) matches Some(i) ==> i < vs.len() && vs[i as int].name@ == name
            && forall|j: int| 0 <= j < i ==> #[trigger] vs[j].name@ != name,
        variant_index(vs, name) is None ==> forall|j: int|
            0 <= j < vs.len() ==> #[trigger] vs[j].name@ != name,
    decreases vs.len(),
{
    if vs.len() > 0 {
        let init = vs.drop_last();
        lemma_variant_index(init, name);
        assert forall|j: int| 0 <= j < vs.len() - 1 implies vs[j] == #[trigger] init[j] by {}
        match variant_index(init, name) {
            Some(i) => {
                assert(vs[i as int] == init[i as int]);
                assert forall|j: int| 0 <= j < i implies #[trigger] vs[j].name@ != name by {
                    assert(vs[j] == init[j]);
                }
            },
            None => {
                assert forall|j: int| 0 <= j < vs.len() - 1 implies #[trigger] vs[j].name@ != name by {
                    assert(vs[j] == init[j]);
                }
            },
        }
    }
}

/// The registry of property kinds.
#[derive(Clone, Debug)]
pub struct Schema {
    pub kinds: Vec<Kind>,
}

impl Schema {
    pub open spec fn wf(&self) -> bool {
        kinds_wf(self.kinds@)
    }

    pub fn new() -> (r: Schema)
        ensures
            r.wf(),
            r.kinds@.len() == 0,
    {
        Schema { kinds: Vec::new() }
    }

    /// Whether every kind refers only to kinds registered before it and every
    /// union is well-formed.
    pub fn is_wf(&self) -> (r: bool)
        ensures
            r == self.wf(),
    {
        let mut i: usize = 0;
        while i < self.kinds.len()
            invariant
                i <= self.kinds@.len(),
                forall|k: int| 0 <= k < i ==> kind_wf(#[trigger] self.kinds@[k], k as nat),
            decreases self.kinds.len() - i,
        {
            if check_kind(&self.kinds[i], i).is_err() {
                return false;
            }
            i = i + 1;
        }
        true
    }

    /// Registers a kind and returns its index; refused where it refers to a
    /// kind not yet registered, or is a union with malformed keys or
    /// duplicate variant names.
    pub fn add(&mut self, kind: Kind) -> (r: Result<usize, SchemaError>)
        requires
            old(self).wf(),
        ensures
            final(self).wf(),
            r matches Ok(k) ==> k == old(self).kinds@.len() && final(self).kinds@ == old(
                self,
            ).kinds@.push(kind),
            r is Ok <==> kind_wf(kind, old(self).kinds@.len() as nat),
            r is Err ==> final(self).kinds@ == old(self).kinds@,
    {
        let n = self.kinds.len();
        match check_kind(&kind, n) {
            Err(e) => Err(e),
            Ok(()) => {
                self.kinds.push(kind);
                proof {
                    assert forall|k: int| 0 <= k < self.kinds@.len() implies kind_wf(
                        #[trigger] self.kinds@[k],
                        k as nat,
                    ) by {
                        if k < n {
                            assert(self.kinds@[k] == old(self).kinds@[k]);
                        }
                    }
                }
                Ok(n)
            },
        }
    }
}

fn check_kind(kind: &Kind, n: usize) -> (r: Result<(), SchemaError>)
    ensures
        r is Ok <==> kind_wf(*kind, n as nat),
{
    match kind {
        Kind::List(e) => if *e < n {
            Ok(())
        } else {
            Err(SchemaError::UnknownKind)
        },
        Kind::Optional(e) => if *e < n {
            Ok(())
        } else {
            Err(SchemaError::UnknownKind)
        },
        Kind::Union(u) => {
            proof {
                assert(kind_wf(*kind, n as nat) == union_wf(*u, n as nat));
            }
            if !crate::name_path::text_bracket_free(&u.tag) || !crate::name_path::text_bracket_free(&u.content) {
                return Err(SchemaError::InvalidName);
            }
            if u.tag == u.content {
                return Err(SchemaError::TagIsContent);
            }
            let vs = &u.variants;
            let mut i: usize = 0;
            while i < vs.len()
                invariant
                    i <= vs@.len(),
                    vs@ == u.variants@,
                    kind_wf(*kind, n as nat) == union_wf(*u, n as nat),
                    bracket_free(u.tag@),
                    bracket_free(u.content@),
                    u.tag@ != u.content@,
                    forall|a: int, b: int|
                        0 <= a < b < i ==> #[trigger] vs@[a].name@ != #[trigger] vs@[b].name@,
                    forall|a: int|
                        0 <= a < i ==> (#[trigger] vs@[a].payload matches Some(p) ==> p < n),
                decreases vs.len() - i,
            {
                if let Some(p) = vs[i].payload {
                    if p >= n {
                        proof {
                            assert(u.variants@[i as int].payload == Some(p));
                            assert(!union_wf(*u, n as nat));
                        }
                        return Err(SchemaError::UnknownKind);
                    }
                }
                let mut j: usize = 0;
                while j < i
                    invariant
                        j <= i < vs@.len(),
                        vs@ == u.variants@,
                        kind_wf(*kind, n as nat) == union_wf(*u, n as nat),
                        forall|a: int| 0 <= a < j ==> #[trigger] vs@[a].name@ != vs@[i as int].name@,
                        forall|a: int, b: int|
                            0 <= a < b < i ==> #[trigger] vs@[a].name@ != #[trigger] vs@[b].name@,
                        forall|a: int|
                            0 <= a <= i ==> (#[trigger] vs@[a].payload matches Some(p) ==> p < n),
                    decreases i - j,
                {
                    if vs[j].name == vs[i].name {
                        proof {
                            assert(u.variants@[j as int].name@ == u.variants@[i as int].name@);
                            assert(!variant_names_distinct(u.variants@));
                        }
                        return Err(SchemaError::DuplicateVariant);
                    }
                    j = j + 1;
                }
                i = i + 1;
            }
            Ok(())
        },
        _ => Ok(()),
    }
}

/// How the fields of an entity are renamed as a whole.
#[derive(Clone, Copy, Debug, PartialEq, Eq, Structural)]
pub enum RenameAll {
    Lower,
    Upper,
    Pascal,
    Camel,
    Snake,
    ScreamingSnake,
    Kebab,
    ScreamingKebab,
}

impl RenameAll {
    pub open spec fn text_case(self) -> TextCase {
        match self {
            RenameAll::Lower => TextCase::Lower,
            RenameAll::Upper => TextCase::Upper,
            RenameAll::Pascal => TextCase::Pascal,
            RenameAll::Camel => TextCase::Camel,
            RenameAll::Snake => TextCase::Snake,
            RenameAll::ScreamingSnake => TextCase::ScreamingSnake,
            RenameAll::Kebab => TextCase::Kebab,
            RenameAll::ScreamingKebab => TextCase::UpperKebab,
        }
    }

    /// The casing this renaming applies.
    pub fn case(self) -> (r: TextCase)
        ensures
            r == self.text_case(),
    {
        match self {
            RenameAll::Lower => TextCase::Lower,
            RenameAll::Upper => TextCase::Upper,
            RenameAll::Pascal => TextCase::Pascal,
            RenameAll::Camel => TextCase::Camel,
            RenameAll::Snake => TextCase::Snake,
            RenameAll::ScreamingSnake => TextCase::ScreamingSnake,
            RenameAll::Kebab => TextCase::Kebab,
            RenameAll::ScreamingKebab => TextCase::UpperKebab,
        }
    }
}

pub open spec fn renamed(s: Seq<char>, rename: Option<Seq<char>>, case: Option<TextCase>) -> Seq<
    char,
> {
    match rename {
        Some(r) => r,
        None => match case {
            Some(c) => cased(s, c),
            None => s,
        },
    }
}

pub open spec fn opt_view(o: Option<String>) -> Option<Seq<char>> {
    match o {
        Some(s) => Some(s@),
        None => None,
    }
}

/// The name an item goes by: an explicit rename, else the identifier in the
/// given casing, else the identifier itself.
pub fn renamed_name(s: String, rename: Option<String>, case: Option<TextCase>) -> (r: String)
    ensures
        r@ == renamed(s@, opt_view(rename), case),
{
    match rename {
        Some(r) => r,
        None => match case {
            Some(c) => to_case(s.as_str(), c),
            None => s,
        },
    }
}

} // verus!
