//! The configuration of a GraphQL schema: types with their fields and
//! arguments, unions, enums and the root operation types.

pub mod auth;
pub mod copies;
pub mod n_plus_one;
pub mod npo;
pub mod position;
pub mod resolver;
pub mod source;
pub mod static_config;
pub mod transformer;
pub mod url_query;

use vstd::prelude::*;
use crate::strmap::StrMap;
use crate::strset::StrSet;
use crate::config::resolver::{all_batched, batched_all, Http, Resolver};

verus! {

/// An argument of a field.
#[derive(Clone, Debug, PartialEq, Eq)]
pub struct Arg {
    pub type_of: String,
    pub list: bool,
    pub required: bool,
    pub doc: Option<String>,
}

/// A field of a type.
#[derive(Debug)]
pub struct Field {
    /// Name of the type the field returns.
    pub type_of: String,
    /// Whether the field returns a list.
    pub list: bool,
    /// Whether the field is non-null.
    pub required: bool,
    /// Whether the items of a list field are non-null.
    pub list_type_required: bool,
    pub args: StrMap<Arg>,
    pub doc: Option<String>,
    /// Whether the field is left out of the schema.
    pub omit: bool,
    pub resolvers: Vec<Resolver>,
}

/// A field added to a type by a path through nested fields.
#[derive(Clone, Debug, PartialEq, Eq)]
pub struct AddField {
    pub name: String,
    pub path: Vec<String>,
}

/// An object, input or interface type.
#[derive(Debug)]
pub struct Type {
    pub fields: StrMap<Field>,
    pub added_fields: Vec<AddField>,
    /// Interfaces the type implements.
    pub implements: StrSet,
    pub tag: Option<String>,
    /// Resolvers of the type itself, used to fetch entities.
    pub resolvers: Vec<Resolver>,
    pub doc: Option<String>,
}

/// A union of types.
#[derive(Clone, Debug, PartialEq, Eq)]
pub struct Union {
    pub types: StrSet,
    pub doc: Option<String>,
}

/// An enum and its variants.
#[derive(Clone, Debug, PartialEq, Eq)]
pub struct Enum {
    pub variants: StrSet,
    pub doc: Option<String>,
}

/// The names of the root operation types.
#[derive(Clone, Debug, PartialEq, Eq)]
pub struct RootSchema {
    pub query: Option<String>,
    pub mutation: Option<String>,
    pub subscription: Option<String>,
}

/// Settings of the upstream that the configuration itself records.
#[derive(Clone, Debug, PartialEq, Eq)]
pub struct Upstream {
    pub base_url: Option<String>,
}

/// A schema configuration.
#[derive(Debug)]
pub struct Config {
    pub schema: RootSchema,
    pub upstream: Upstream,
    pub enable_federation: bool,
    pub types: StrMap<Type>,
    pub unions: StrMap<Union>,
    pub enums: StrMap<Enum>,
}

impl Field {
    /// Whether the field has a resolver.
    pub open spec fn spec_has_resolver(self) -> bool {
        self.resolvers@.len() > 0
    }

    /// Whether the field has resolvers and all of them fetch in batches.
    pub open spec fn spec_has_batched_resolver(self) -> bool {
        self.resolvers@.len() > 0 && all_batched(self.resolvers@)
    }

    /// Whether the field has a resolver.
    pub fn has_resolver(&self) -> (r: bool)
        ensures
            r == self.spec_has_resolver(),
    {
        self.resolvers.len() > 0
    }

    /// Whether the field has resolvers and all of them fetch in batches.
    pub fn has_batched_resolver(&self) -> (r: bool)
        ensures
            r == self.spec_has_batched_resolver(),
    {
        batched_all(&self.resolvers)
    }

    /// A field with an empty type name and nothing else set.
    pub fn new() -> (r: Field)
        ensures
            r.type_of@ == Seq::<char>::empty(),
            r.args.wf(),
            r.args.entries@.len() == 0,
            !r.list,
            !r.required,
            !r.list_type_required,
            !r.omit,
            r.resolvers@.len() == 0,
            r.doc is None,
    {
        Field {
            type_of: String::new(),
            list: false,
            required: false,
            list_type_required: false,
            args: StrMap::new(),
            doc: None,
            omit: false,
            resolvers: Vec::new(),
        }
    }

    /// The field with its type set to `type_of`.
    pub fn type_of(self, type_of: String) -> (r: Field)
        ensures
            r == (Field { type_of, ..self }),
    {
        Field { type_of, ..self }
    }

    /// The field turned into a list.
    pub fn into_list(self) -> (r: Field)
        ensures
            r == (Field { list: true, ..self }),
    {
        Field { list: true, ..self }
    }

    /// The field turned non-null.
    pub fn into_required(self) -> (r: Field)
        ensures
            r == (Field { required: true, ..self }),
    {
        Field { required: true, ..self }
    }

    /// The field with an `@http` resolver added.
    pub fn http(self, http: Http) -> (r: Field)
        ensures
            r.resolvers@ == self.resolvers@.push(Resolver::Http(http)),
            r.type_of == self.type_of,
            r.list == self.list,
            r.required == self.required,
            r.args == self.args,
    {
        let mut f = self;
        f.resolvers.push(Resolver::Http(http));
        f
    }
}

impl Type {
    /// Whether the type has an entity resolver.
    pub fn has_resolver(&self) -> (r: bool)
        ensures
            r == (self.resolvers@.len() > 0),
    {
        self.resolvers.len() > 0
    }

    /// Whether the type has resolvers and all of them fetch in batches.
    pub fn has_batched_resolver(&self) -> (r: bool)
        ensures
            r == (self.resolvers@.len() > 0 && all_batched(self.resolvers@)),
    {
        batched_all(&self.resolvers)
    }

    /// The type has nothing: no fields, interfaces, tag, resolvers or
    /// documentation.
    pub open spec fn is_blank(self) -> bool {
        &&& self.fields.wf()
        &&& self.fields.entries@.len() == 0
        &&& self.implements.wf()
        &&& self.implements.items@.len() == 0
        &&& self.added_fields@.len() == 0
        &&& self.tag is None
        &&& self.resolvers@.len() == 0
        &&& self.doc is None
    }

    /// A type without fields.
    pub fn new() -> (r: Type)
        ensures
            r.is_blank(),
            r.fields.wf(),
            r.fields.entries@.len() == 0,
            r.implements.wf(),
            r.added_fields@.len() == 0,
            r.resolvers@.len() == 0,
            r.tag is None,
    {
        Type {
            fields: StrMap::new(),
            added_fields: Vec::new(),
            implements: StrSet::new(),
            tag: None,
            resolvers: Vec::new(),
            doc: None,
        }
    }

    /// The type with the given fields added, later ones replacing earlier
    /// ones of the same name.
    pub fn fields(self, fields: Vec<(&str, Field)>) -> (r: Type)
        requires
            self.fields.wf(),
        ensures
            r.fields.wf(),
            r.fields.as_map() == fields_added(self.fields.as_map(), fields@),
    {
        let mut t = self;
        let mut fields = fields;
        let ghost all = fields@;
        let ghost mut done: int = 0;
        assert(fields@ =~= all.skip(0));
        while fields.len() > 0
            invariant
                t.fields.wf(),
                0 <= done <= all.len(),
                fields@ =~= all.skip(done),
                t.fields.as_map() == fields_added(self.fields.as_map(), all.take(done)),
            decreases fields@.len(),
        {
            let (name, field) = fields.remove(0);
            proof {
                assert(all[done] == (name, field));
                assert(all.take(done + 1).drop_last() =~= all.take(done));
                assert(all.take(done + 1).last() == (name, field));
            }
            t.fields.insert(crate::strings::copy_str(name), field);
            proof {
                done = done + 1;
            }
        }
        assert(all.take(all.len() as int) =~= all);
        t
    }
}

/// A map of types after adding a list of named types in order.
pub open spec fn types_added(m: Map<Seq<char>, Type>, s: Seq<(&str, Type)>) -> Map<Seq<char>, Type>
    decreases s.len(),
{
    if s.len() == 0 {
        m
    } else {
        types_added(m, s.drop_last()).insert(s.last().0@, s.last().1)
    }
}

/// A map of fields after adding a list of named fields in order.
pub open spec fn fields_added(m: Map<Seq<char>, Field>, s: Seq<(&str, Field)>) -> Map<
    Seq<char>,
    Field,
>
    decreases s.len(),
{
    if s.len() == 0 {
        m
    } else {
        fields_added(m, s.drop_last()).insert(s.last().0@, s.last().1)
    }
}

impl Arg {
    /// An argument of type `type_of` with nothing else set.
    pub fn new(type_of: String) -> (r: Arg)
        ensures
            r.type_of == type_of,
            !r.list,
            !r.required,
            r.doc is None,
    {
        Arg { type_of, list: false, required: false, doc: None }
    }
}

impl Type {
    /// The maps the type holds are well formed.
    pub open spec fn wf(self) -> bool {
        &&& self.fields.wf()
        &&& self.implements.wf()
        &&& forall|i: int|
            0 <= i < self.fields.entries@.len() ==> (#[trigger] self.fields.entries@[i]).1.args.wf()
    }
}

impl RootSchema {
    /// A schema without root operation types.
    pub fn new() -> (r: RootSchema)
        ensures
            r.query is None,
            r.mutation is None,
            r.subscription is None,
    {
        RootSchema { query: None, mutation: None, subscription: None }
    }
}

impl Config {
    /// The maps the configuration holds are well formed.
    pub open spec fn wf(self) -> bool {
        &&& self.types.wf()
        &&& self.unions.wf()
        &&& self.enums.wf()
        &&& forall|i: int|
            0 <= i < self.types.entries@.len() ==> (#[trigger] self.types.entries@[i]).1.wf()
        &&& forall|i: int|
            0 <= i < self.unions.entries@.len() ==> (#[trigger] self.unions.entries@[i]).1.types.wf()
        &&& forall|i: int|
            0 <= i < self.enums.entries@.len() ==> (#[trigger] self.enums.entries@[i]).1.variants.wf()
    }

    /// Whether type `t` has a field `f`.
    pub open spec fn has_field(self, t: Seq<char>, f: Seq<char>) -> bool {
        self.types.has(t) && self.types.get_spec(t).unwrap().fields.has(f)
    }

    /// The field `f` of type `t`.
    pub open spec fn field_spec(self, t: Seq<char>, f: Seq<char>) -> Field {
        self.types.get_spec(t).unwrap().fields.get_spec(f).unwrap()
    }

    /// An empty configuration.
    pub fn new() -> (r: Config)
        ensures
            r.wf(),
            r.types.entries@.len() == 0,
            r.unions.entries@.len() == 0,
            r.enums.entries@.len() == 0,
            r.schema.query is None,
            r.schema.mutation is None,
            r.schema.subscription is None,
            r.upstream.base_url is None,
            !r.enable_federation,
    {
        Config {
            schema: RootSchema::new(),
            upstream: Upstream { base_url: None },
            enable_federation: false,
            types: StrMap::new(),
            unions: StrMap::new(),
            enums: StrMap::new(),
        }
    }

    /// The configuration with its query type set to `name`.
    pub fn query(self, name: &str) -> (r: Config)
        ensures
            r.schema.query matches Some(q) && q@ == name@,
            r.schema.mutation == self.schema.mutation,
            r.schema.subscription == self.schema.subscription,
            r.types == self.types,
            r.unions == self.unions,
            r.enums == self.enums,
            r.upstream == self.upstream,
            r.enable_federation == self.enable_federation,
    {
        let mut c = self;
        c.schema.query = Some(crate::strings::copy_str(name));
        c
    }

    /// The configuration with the given types added, later ones replacing
    /// earlier ones of the same name.
    pub fn types(self, types: Vec<(&str, Type)>) -> (r: Config)
        requires
            self.wf(),
            forall|i: int| 0 <= i < types@.len() ==> (#[trigger] types@[i]).1.wf(),
        ensures
            r.wf(),
            r.types.as_map() == types_added(self.types.as_map(), types@),
            r.schema == self.schema,
            r.unions == self.unions,
            r.enums == self.enums,
            r.upstream == self.upstream,
            r.enable_federation == self.enable_federation,
    {
        let mut c = self;
        let mut types = types;
        let ghost all = types@;
        let ghost mut done: int = 0;
        assert(types@ =~= all.skip(0));
        while types.len() > 0
            invariant
                0 <= done <= all.len(),
                types@ =~= all.skip(done),
                c.types.as_map() == types_added(self.types.as_map(), all.take(done)),
                c.wf(),
                c.schema == self.schema,
                c.unions == self.unions,
                c.enums == self.enums,
                c.upstream == self.upstream,
                c.enable_federation == self.enable_federation,
                forall|i: int| 0 <= i < types@.len() ==> (#[trigger] types@[i]).1.wf(),
            decreases types@.len(),
        {
            let ghost before = types@;
            let (name, ty) = types.remove(0);
            assert(before[0].1.wf());
            assert forall|i: int| 0 <= i < types@.len() implies (#[trigger] types@[i]).1.wf() by {
                assert(types@[i] == before[i + 1]);
            }
            proof {
                assert(all[done] == (name, ty));
                assert(all.take(done + 1).drop_last() =~= all.take(done));
                assert(all.take(done + 1).last() == (name, ty));
            }
            c.insert_type(crate::strings::copy_str(name), ty);
            proof {
                done = done + 1;
            }
        }
        assert(all.take(all.len() as int) =~= all);
        c
    }

    /// Stores type `ty` under `name`.
    pub fn insert_type(&mut self, name: String, ty: Type)
        requires
            old(self).wf(),
            ty.wf(),
        ensures
            final(self).wf(),
            final(self).types.as_map() == old(self).types.as_map().insert(name@, ty),
            final(self).schema == old(self).schema,
            final(self).unions == old(self).unions,
            final(self).enums == old(self).enums,
            final(self).upstream == old(self).upstream,
            final(self).enable_federation == old(self).enable_federation,
    {
        let ghost oldt = self.types;
        self.types.insert(name, ty);
        proof {
            assert forall|i: int| 0 <= i < self.types.entries@.len() implies (#[trigger] self.types.entries@[i]).1.wf() by {
                let k = self.types.entries@[i].0@;
                self.types.lemma_at(i);
                if k != name@ {
                    assert(oldt.as_map().contains_key(k));
                    let j = oldt.pos(k);
                    oldt.lemma_at(j);
                    assert(oldt.entries@[j].1.wf());
                }
            }
        }
    }

    /// Removes the type named `name`, giving it back.
    pub fn remove_type(&mut self, name: &str) -> (r: Option<Type>)
        requires
            old(self).wf(),
        ensures
            final(self).wf(),
            final(self).types.as_map() == old(self).types.as_map().remove(name@),
            r == old(self).types.get_spec(name@),
            r matches Some(t) ==> t.wf(),
            final(self).schema == old(self).schema,
            final(self).unions == old(self).unions,
            final(self).enums == old(self).enums,
            final(self).upstream == old(self).upstream,
            final(self).enable_federation == old(self).enable_federation,
    {
        let ghost oldt = self.types;
        let r = self.types.remove(name);
        proof {
            let p = |t: Type| t.wf();
            oldt.lemma_all_values(p);
            self.types.lemma_all_values(p);
            assert forall|k: Seq<char>| #[trigger] self.types.as_map().contains_key(k) implies p(self.types.as_map()[k]) by {
                assert(oldt.as_map().contains_key(k));
            }
            assert forall|i: int| 0 <= i < self.types.entries@.len() implies (#[trigger] self.types.entries@[i]).1.wf() by {
                assert(p(self.types.entries@[i].1));
            }
            if r is Some {
                let i = oldt.pos(name@);
                oldt.lemma_at(i);
            }
        }
        r
    }

    /// Removes the enum named `name`, giving it back.
    pub fn remove_enum(&mut self, name: &str) -> (r: Option<Enum>)
        requires
            old(self).wf(),
        ensures
            final(self).wf(),
            final(self).enums.as_map() == old(self).enums.as_map().remove(name@),
            r == old(self).enums.get_spec(name@),
            r matches Some(t) ==> t.variants.wf(),
            final(self).schema == old(self).schema,
            final(self).types == old(self).types,
            final(self).unions == old(self).unions,
            final(self).upstream == old(self).upstream,
            final(self).enable_federation == old(self).enable_federation,
    {
        let ghost olde = self.enums;
        let r = self.enums.remove(name);
        proof {
            let p = |t: Enum| t.variants.wf();
            olde.lemma_all_values(p);
            self.enums.lemma_all_values(p);
            assert forall|k: Seq<char>| #[trigger] self.enums.as_map().contains_key(k) implies p(self.enums.as_map()[k]) by {
                assert(olde.as_map().contains_key(k));
            }
            assert forall|i: int| 0 <= i < self.enums.entries@.len() implies (#[trigger] self.enums.entries@[i]).1.variants.wf() by {
                assert(p(self.enums.entries@[i].1));
            }
            if r is Some {
                let i = olde.pos(name@);
                olde.lemma_at(i);
            }
        }
        r
    }

    /// Stores enum `en` under `name`.
    pub fn insert_enum(&mut self, name: String, en: Enum)
        requires
            old(self).wf(),
            en.variants.wf(),
        ensures
            final(self).wf(),
            final(self).enums.as_map() == old(self).enums.as_map().insert(name@, en),
            final(self).schema == old(self).schema,
            final(self).types == old(self).types,
            final(self).unions == old(self).unions,
            final(self).upstream == old(self).upstream,
            final(self).enable_federation == old(self).enable_federation,
    {
        let ghost olde = self.enums;
        self.enums.insert(name, en);
        proof {
            let p = |t: Enum| t.variants.wf();
            olde.lemma_all_values(p);
            self.enums.lemma_all_values(p);
            assert forall|k: Seq<char>| #[trigger] self.enums.as_map().contains_key(k) implies p(self.enums.as_map()[k]) by {
                if k != name@ {
                    assert(olde.as_map().contains_key(k));
                }
            }
            assert forall|i: int| 0 <= i < self.enums.entries@.len() implies (#[trigger] self.enums.entries@[i]).1.variants.wf() by {
                assert(p(self.enums.entries@[i].1));
            }
        }
    }

    /// Removes the union named `name`, giving it back.
    pub fn remove_union(&mut self, name: &str) -> (r: Option<Union>)
        requires
            old(self).wf(),
        ensures
            final(self).wf(),
            final(self).unions.as_map() == old(self).unions.as_map().remove(name@),
            r == old(self).unions.get_spec(name@),
            r matches Some(t) ==> t.types.wf(),
            final(self).schema == old(self).schema,
            final(self).types == old(self).types,
            final(self).enums == old(self).enums,
            final(self).upstream == old(self).upstream,
            final(self).enable_federation == old(self).enable_federation,
    {
        let ghost oldu = self.unions;
        let r = self.unions.remove(name);
        proof {
            let p = |t: Union| t.types.wf();
            oldu.lemma_all_values(p);
            self.unions.lemma_all_values(p);
            assert forall|k: Seq<char>| #[trigger] self.unions.as_map().contains_key(k) implies p(self.unions.as_map()[k]) by {
                assert(oldu.as_map().contains_key(k));
            }
            assert forall|i: int| 0 <= i < self.unions.entries@.len() implies (#[trigger] self.unions.entries@[i]).1.types.wf() by {
                assert(p(self.unions.entries@[i].1));
            }
            if r is Some {
                let i = oldu.pos(name@);
                oldu.lemma_at(i);
            }
        }
        r
    }

    /// Stores union `u` under `name`.
    pub fn insert_union(&mut self, name: String, u: Union)
        requires
            old(self).wf(),
            u.types.wf(),
        ensures
            final(self).wf(),
            final(self).unions.as_map() == old(self).unions.as_map().insert(name@, u),
            final(self).schema == old(self).schema,
            final(self).types == old(self).types,
            final(self).enums == old(self).enums,
            final(self).upstream == old(self).upstream,
            final(self).enable_federation == old(self).enable_federation,
    {
        let ghost oldu = self.unions;
        self.unions.insert(name, u);
        proof {
            let p = |t: Union| t.types.wf();
            oldu.lemma_all_values(p);
            self.unions.lemma_all_values(p);
            assert forall|k: Seq<char>| #[trigger] self.unions.as_map().contains_key(k) implies p(self.unions.as_map()[k]) by {
                if k != name@ {
                    assert(oldu.as_map().contains_key(k));
                }
            }
            assert forall|i: int| 0 <= i < self.unions.entries@.len() implies (#[trigger] self.unions.entries@[i]).1.types.wf() by {
                assert(p(self.unions.entries@[i].1));
            }
        }
    }

    /// The type named `name`.
    pub fn find_type(&self, name: &str) -> (r: Option<&Type>)
        requires
            self.types.wf(),
        ensures
            r is Some <==> self.types.has(name@),
            r matches Some(t) ==> self.types.get_spec(name@) == Some(*t),
    {
        self.types.get(name)
    }
}

/// Every pair of a type name and the name of one of its fields, type by
/// type in entry order.
pub open spec fn type_field_pairs(types: Seq<(String, Type)>) -> Seq<(Seq<char>, Seq<char>)>
    decreases types.len(),
{
    if types.len() == 0 {
        Seq::empty()
    } else {
        type_field_pairs(types.drop_last()) + Seq::new(
            types.last().1.fields.entries@.len(),
            |j: int| (types.last().0@, types.last().1.fields.entries@[j].0@),
        )
    }
}

/// Each field of each type occurs among the type-field pairs.
pub proof fn lemma_type_field_pairs(types: Seq<(String, Type)>, i: int, j: int)
    requires
        0 <= i < types.len(),
        0 <= j < types[i].1.fields.entries@.len(),
    ensures
        type_field_pairs(types).contains((types[i].0@, types[i].1.fields.entries@[j].0@)),
    decreases types.len(),
{
    let prefix = type_field_pairs(types.drop_last());
    let last = Seq::new(
        types.last().1.fields.entries@.len(),
        |k: int| (types.last().0@, types.last().1.fields.entries@[k].0@),
    );
    if i == types.len() - 1 {
        assert((prefix + last)[prefix.len() + j] == last[j]);
    } else {
        lemma_type_field_pairs(types.drop_last(), i, j);
        let k = choose|k: int| 0 <= k < prefix.len() && prefix[k] == (types[i].0@, types[i].1.fields.entries@[j].0@);
        assert((prefix + last)[k] == prefix[k]);
    }
}

/// Every field of the configuration is among its type-field pairs.
pub proof fn lemma_has_field_in_pairs(config: Config, t: Seq<char>, f: Seq<char>)
    requires
        config.wf(),
        config.has_field(t, f),
    ensures
        type_field_pairs(config.types.entries@).to_set().contains((t, f)),
{
    let i = config.types.pos(t);
    config.types.lemma_at(i);
    let ty = config.types.entries@[i].1;
    let j = ty.fields.pos(f);
    lemma_type_field_pairs(config.types.entries@, i, j);
}

impl Default for Field {
    fn default() -> (r: Field)
        ensures
            r.args.wf(),
            r.args.entries@.len() == 0,
            !r.list,
            !r.required,
            r.resolvers@.len() == 0,
    {
        Field::new()
    }
}

impl Default for Type {
    fn default() -> (r: Type)
        ensures
            r.fields.wf(),
            r.fields.entries@.len() == 0,
            r.implements.wf(),
            r.resolvers@.len() == 0,
    {
        Type::new()
    }
}

impl Default for Config {
    fn default() -> (r: Config)
        ensures
            r.wf(),
            r.types.entries@.len() == 0,
            r.schema.query is None,
    {
        Config::new()
    }
}

} // verus!
