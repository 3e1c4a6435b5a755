//! Renames arguments of fields, along with their uses in the paths and
//! bodies of the fields' `@http` and `@grpc` resolvers.

use vstd::prelude::*;
use indexmap::IndexMap;
use crate::config::{Config, Field, Type};
use crate::config::resolver::{Grpc, GrpcBody, Http, Resolver};
use crate::strings::{concat_str, copy_str};
use crate::valid::Cause;

verus! {

/// Where an argument to rename is defined, and its new name.
#[derive(Clone, Debug)]
pub struct Location {
    pub new_argument_name: String,
    pub field_name: String,
    /// The type the field belongs to.
    pub ty_name: String,
}

impl View for Location {
    type V = (Seq<char>, Seq<char>, Seq<char>);

    open spec fn view(&self) -> (Seq<char>, Seq<char>, Seq<char>) {
        (self.new_argument_name@, self.field_name@, self.ty_name@)
    }
}

/// The entries of a map from argument names to locations, in insertion
/// order.
pub uninterp spec fn location_entries(m: IndexMap<String, Location>) -> Seq<(Seq<char>, (Seq<char>, Seq<char>, Seq<char>))>;

/// What `str::replace` gives: `s` with each match of `from` replaced by
/// `to`, matches taken from the left without overlapping; an empty `from`
/// matches before each character and at the end.
pub open spec fn replaced(s: Seq<char>, from: Seq<char>, to: Seq<char>) -> Seq<char>
    decreases s.len(),
{
    if from.len() == 0 {
        if s.len() == 0 {
            to
        } else {
            to + seq![s[0]] + replaced(s.drop_first(), from, to)
        }
    } else if s.len() < from.len() {
        s
    } else if s.take(from.len() as int) == from {
        to + replaced(s.skip(from.len() as int), from, to)
    } else {
        seq![s[0]] + replaced(s.drop_first(), from, to)
    }
}

/// The entries of the map, in order.
///
/// Calls `IndexMap::iter` and clones each key and location.
#[verifier::external_body]
fn location_list(m: &IndexMap<String, Location>) -> (r: Vec<(String, Location)>)
    ensures
        r@.len() == location_entries(*m).len(),
        forall|i: int| 0 <= i < r@.len() ==> (#[trigger] r@[i]).0@ == location_entries(*m)[i].0
            && r@[i].1@ == location_entries(*m)[i].1,
{
    m.iter().map(|(k, l)| (k.clone(), l.clone())).collect()
}

/// `s` with each match of `from` replaced by `to`.
///
/// Calls `str::replace`, which replaces the matches of `from` from the left,
/// without overlapping, as `replaced` states.
#[verifier::external_body]
fn replace_str(s: &str, from: &str, to: &str) -> (r: String)
    ensures
        r@ == replaced(s@, from@, to@),
{
    s.replace(from, to)
}

pub open spec fn field_not_found_message(old: Seq<char>, ty: Seq<char>) -> Seq<char> {
    "Cannot rename argument as Field '"@ + old + "' not found in type '"@ + ty + "'."@
}

pub open spec fn arg_exists_message(old: Seq<char>, new: Seq<char>, fld: Seq<char>, ty: Seq<char>) -> Seq<char> {
    "Cannot rename argument from '"@ + old + "' to '"@ + new + "' as it already exists in field '"@ + fld
        + "' of type '"@ + ty + "'."@
}

/// The start of the messages about a rename that a resolver forbids.
pub open spec fn rename_prefix(old: Seq<char>, new: Seq<char>, fld: Seq<char>, ty: Seq<char>) -> Seq<char> {
    "Cannot rename argument '"@ + old + "' to '"@ + new + "' in field '"@ + fld + "' of type '"@ + ty
}

pub open spec fn unsupported_resolver_message(old: Seq<char>, new: Seq<char>, fld: Seq<char>, ty: Seq<char>) -> Seq<char> {
    rename_prefix(old, new, fld, ty) + "'. Renaming is only supported for HTTP and gRPC resolvers."@
}

pub open spec fn query_param_message(old: Seq<char>, new: Seq<char>, fld: Seq<char>, ty: Seq<char>) -> Seq<char> {
    rename_prefix(old, new, fld, ty) + "'. Renaming of query parameters is not allowed."@
}

pub open spec fn arg_missing_message(old: Seq<char>, fld: Seq<char>, ty: Seq<char>) -> Seq<char> {
    "Cannot rename argument '"@ + old + "' as it does not exist in field '"@ + fld + "' of type '"@ + ty + "'."@
}

/// Every resolver is an `@http` or a `@grpc` resolver.
pub open spec fn only_http_grpc(rs: Seq<Resolver>) -> bool {
    forall|k: int| 0 <= k < rs.len() ==> (#[trigger] rs[k] is Http || rs[k] is Grpc)
}

/// The resolver is an `@http` resolver with a query parameter named `old`.
pub open spec fn http_query_uses(r: Resolver, old: Seq<char>) -> bool {
    r matches Resolver::Http(h) && exists|q: int| 0 <= q < h.query@.len() && (#[trigger] h.query@[q]).key@ == old
}

/// Some `@http` resolver sends argument `old` as a query parameter.
pub open spec fn query_uses(rs: Seq<Resolver>, old: Seq<char>) -> bool {
    exists|k: int| 0 <= k < rs.len() && http_query_uses(#[trigger] rs[k], old)
}

/// Why renaming argument `old` of field `fld` of type `ty` to `new` is
/// refused, if it is.
pub open spec fn rename_error(c: Config, old: Seq<char>, new: Seq<char>, fld: Seq<char>, ty: Seq<char>) -> Option<Seq<char>> {
    if !(c.types.as_map().contains_key(ty) && c.types.as_map()[ty].fields.as_map().contains_key(fld)) {
        Some(field_not_found_message(old, ty))
    } else {
        let f = c.types.as_map()[ty].fields.as_map()[fld];
        if f.args.as_map().contains_key(new) {
            Some(arg_exists_message(old, new, fld, ty))
        } else if !only_http_grpc(f.resolvers@) {
            Some(unsupported_resolver_message(old, new, fld, ty))
        } else if query_uses(f.resolvers@, old) {
            Some(query_param_message(old, new, fld, ty))
        } else if !f.args.as_map().contains_key(old) {
            Some(arg_missing_message(old, fld, ty))
        } else {
            None
        }
    }
}

/// `b` holds the text of `a` with `old` replaced by `new`.
pub open spec fn opt_replaced(a: Option<String>, b: Option<String>, old: Seq<char>, new: Seq<char>) -> bool {
    match a {
        Some(x) => b matches Some(y) && y@ == replaced(x@, old, new),
        None => b is None,
    }
}

/// `b` is the body of a `@grpc` resolver `a` with `old` replaced by `new`
/// when it is a JSON string; any other JSON body is kept.
pub open spec fn grpc_body_replaced(a: Option<GrpcBody>, b: Option<GrpcBody>, old: Seq<char>, new: Seq<char>) -> bool {
    match a {
        Some(GrpcBody::Text(x)) => b matches Some(GrpcBody::Text(y)) && y@ == replaced(x@, old, new),
        _ => b == a,
    }
}

/// `b` is resolver `a` with `old` replaced by `new` in the path and body of
/// an `@http` resolver and in the body of a `@grpc` resolver that is a JSON
/// string.
pub open spec fn resolver_renamed(a: Resolver, b: Resolver, old: Seq<char>, new: Seq<char>) -> bool {
    match a {
        Resolver::Http(x) => (b matches Resolver::Http(y) && {
            &&& y.url == x.url
            &&& y.base_url == x.base_url
            &&& y.path@ == replaced(x.path@, old, new)
            &&& opt_replaced(x.body, y.body, old, new)
            &&& y.headers == x.headers
            &&& y.query == x.query
            &&& y.batch_key == x.batch_key
        }),
        Resolver::Grpc(x) => (b matches Resolver::Grpc(y) && {
            &&& y.url == x.url
            &&& y.method == x.method
            &&& grpc_body_replaced(x.body, y.body, old, new)
            &&& y.headers == x.headers
            &&& y.batch_key == x.batch_key
        }),
        _ => b == a,
    }
}

/// `b` is field `a` with argument `old` renamed to `new`.
pub open spec fn field_arg_renamed(a: Field, b: Field, old: Seq<char>, new: Seq<char>) -> bool {
    &&& b.type_of == a.type_of
    &&& b.list == a.list
    &&& b.required == a.required
    &&& b.list_type_required == a.list_type_required
    &&& b.doc == a.doc
    &&& b.omit == a.omit
    &&& b.args.wf()
    &&& b.args.as_map() == a.args.as_map().remove(old).insert(new, a.args.as_map()[old])
    &&& b.resolvers@.len() == a.resolvers@.len()
    &&& forall|k: int| 0 <= k < a.resolvers@.len() ==> resolver_renamed(#[trigger] a.resolvers@[k], b.resolvers@[k], old, new)
}

/// `b` is type `a` with argument `old` of field `fld` renamed to `new`.
pub open spec fn type_arg_renamed(a: Type, b: Type, old: Seq<char>, new: Seq<char>, fld: Seq<char>) -> bool {
    &&& b.wf()
    &&& b.fields.as_map() == a.fields.as_map().insert(fld, b.fields.as_map()[fld])
    &&& field_arg_renamed(a.fields.as_map()[fld], b.fields.as_map()[fld], old, new)
    &&& b.added_fields == a.added_fields
    &&& b.implements == a.implements
    &&& b.tag == a.tag
    &&& b.resolvers == a.resolvers
    &&& b.doc == a.doc
}

/// `b` is configuration `a` with argument `old` of field `fld` of type `ty`
/// renamed to `new`.
pub open spec fn config_arg_renamed(a: Config, b: Config, old: Seq<char>, new: Seq<char>, fld: Seq<char>, ty: Seq<char>) -> bool {
    &&& b.wf()
    &&& b.schema == a.schema
    &&& b.upstream == a.upstream
    &&& b.enable_federation == a.enable_federation
    &&& b.unions == a.unions
    &&& b.enums == a.enums
    &&& b.types.as_map() == a.types.as_map().insert(ty, b.types.as_map()[ty])
    &&& type_arg_renamed(a.types.as_map()[ty], b.types.as_map()[ty], old, new, fld)
}

/// One rename, from configuration `a` to `b`: a refused rename changes
/// nothing.
pub open spec fn rename_step(a: Config, b: Config, e: (Seq<char>, (Seq<char>, Seq<char>, Seq<char>))) -> bool {
    let (old, (new, fld, ty)) = e;
    match rename_error(a, old, new, fld, ty) {
        Some(_) => b == a,
        None => config_arg_renamed(a, b, old, new, fld, ty),
    }
}

/// The configurations `cs` are those the renames `es` go through, one after
/// the other.
pub open spec fn rename_chain(cs: Seq<Config>, es: Seq<(Seq<char>, (Seq<char>, Seq<char>, Seq<char>))>) -> bool {
    &&& cs.len() == es.len() + 1
    &&& forall|i: int| 0 <= i < es.len() ==> #[trigger] rename_step(cs[i], cs[i + 1], es[i])
}

/// Why each of the first `n` renames was refused, in order.
pub open spec fn step_errors(cs: Seq<Config>, es: Seq<(Seq<char>, (Seq<char>, Seq<char>, Seq<char>))>, n: nat) -> Seq<Seq<char>>
    decreases n,
{
    if n == 0 {
        Seq::empty()
    } else {
        let prev = step_errors(cs, es, (n - 1) as nat);
        let (old, (new, fld, ty)) = es[n - 1];
        match rename_error(cs[n - 1], old, new, fld, ty) {
            Some(m) => prev.push(m),
            None => prev,
        }
    }
}

fn cat(a: String, b: &str) -> (r: String)
    ensures
        r@ == a@ + b@,
{
    concat_str(a.as_str(), b)
}

fn rename_prefix_text(old: &str, new: &str, fld: &str, ty: &str) -> (r: String)
    ensures
        r@ == rename_prefix(old@, new@, fld@, ty@),
{
    cat(cat(cat(cat(cat(cat(cat(copy_str("Cannot rename argument '"), old), "' to '"), new), "' in field '"), fld), "' of type '"), ty)
}

/// Whether every resolver is an `@http` or a `@grpc` resolver.
fn all_http_grpc(rs: &Vec<Resolver>) -> (r: bool)
    ensures
        r == only_http_grpc(rs@),
{
    let n = rs.len();
    let mut k: usize = 0;
    while k < n
        invariant
            n == rs@.len(),
            k <= n,
            forall|j: int| 0 <= j < k ==> (#[trigger] rs@[j] is Http || rs@[j] is Grpc),
        decreases n - k,
    {
        match &rs[k] {
            Resolver::Http(_) => {},
            Resolver::Grpc(_) => {},
            _ => {
                return false;
            },
        }
        k = k + 1;
    }
    true
}

/// Whether some `@http` resolver has a query parameter named `old`.
fn any_query_uses(rs: &Vec<Resolver>, old: &str) -> (r: bool)
    ensures
        r == query_uses(rs@, old@),
{
    let n = rs.len();
    let mut k: usize = 0;
    while k < n
        invariant
            n == rs@.len(),
            k <= n,
            forall|j: int| 0 <= j < k ==> !http_query_uses(#[trigger] rs@[j], old@),
        decreases n - k,
    {
        match &rs[k] {
            Resolver::Http(h) => {
                let m = h.query.len();
                let mut q: usize = 0;
                while q < m
                    invariant
                        m == h.query@.len(),
                        q <= m,
                        k < rs@.len(),
                        rs@[k as int] == Resolver::Http(*h),
                        forall|j: int| 0 <= j < q ==> (#[trigger] h.query@[j]).key@ != old@,
                    decreases m - q,
                {
                    if crate::strings::str_eq(h.query[q].key.as_str(), old) {
                        assert(h.query@[q as int].key@ == old@);
                        assert(http_query_uses(rs@[k as int], old@));
                        return true;
                    }
                    q = q + 1;
                }
            },
            _ => {},
        }
        k = k + 1;
    }
    false
}

fn replace_opt(o: Option<String>, old: &str, new: &str) -> (r: Option<String>)
    ensures
        opt_replaced(o, r, old@, new@),
{
    match o {
        Some(b) => Some(replace_str(b.as_str(), old, new)),
        None => None,
    }
}

fn rename_in_resolver(r: Resolver, old: &str, new: &str) -> (o: Resolver)
    ensures
        resolver_renamed(r, o, old@, new@),
{
    match r {
        Resolver::Http(h) => {
            let Http { url, base_url, path, body, headers, query, batch_key } = h;
            let path = replace_str(path.as_str(), old, new);
            let body = replace_opt(body, old, new);
            Resolver::Http(Http { url, base_url, path, body, headers, query, batch_key })
        },
        Resolver::Grpc(g) => {
            let Grpc { url, method, body, headers, batch_key } = g;
            let body = match body {
                Some(GrpcBody::Text(t)) => Some(GrpcBody::Text(replace_str(t.as_str(), old, new))),
                other => other,
            };
            Resolver::Grpc(Grpc { url, method, body, headers, batch_key })
        },
        other => other,
    }
}

fn rename_in_resolvers(rs: Vec<Resolver>, old: &str, new: &str) -> (o: Vec<Resolver>)
    ensures
        o@.len() == rs@.len(),
        forall|k: int| 0 <= k < rs@.len() ==> resolver_renamed(#[trigger] rs@[k], o@[k], old@, new@),
{
    let ghost all = rs@;
    let mut rest = rs;
    let mut out: Vec<Resolver> = Vec::new();
    let n = rest.len();
    let mut i: usize = 0;
    while i < n
        invariant
            n == all.len(),
            i <= n,
            rest@ == all.skip(i as int),
            out@.len() == i,
            forall|k: int| 0 <= k < i ==> resolver_renamed(#[trigger] all[k], out@[k], old@, new@),
        decreases n - i,
    {
        let r = rest.remove(0);
        assert(r == all[i as int]);
        out.push(rename_in_resolver(r, old, new));
        assert(rest@ =~= all.skip(i + 1));
        i = i + 1;
    }
    out
}

/// Why the rename is refused, if it is.
fn refusal(config: &Config, old: &str, loc: &Location) -> (r: Option<String>)
    requires
        config.wf(),
    ensures
        r matches Some(m) ==> rename_error(*config, old@, loc@.0, loc@.1, loc@.2) == Some(m@),
        r is None ==> rename_error(*config, old@, loc@.0, loc@.1, loc@.2) is None,
{
    let ty = loc.ty_name.as_str();
    let fld = loc.field_name.as_str();
    let new = loc.new_argument_name.as_str();
    proof {
        config.types.lemma_all_values(|t: Type| t.wf());
    }
    let found = match config.types.get(ty) {
        Some(t) => {
            proof {
                t.fields.lemma_all_values(|f: Field| f.args.wf());
            }
            t.fields.get(fld)
        },
        None => None,
    };
    match found {
        None => Some(cat(cat(cat(cat(copy_str("Cannot rename argument as Field '"), old), "' not found in type '"), ty), "'.")),
        Some(f) => {
            if f.args.contains_key(new) {
                Some(
                    cat(
                        cat(
                            cat(
                                cat(
                                    cat(cat(cat(cat(copy_str("Cannot rename argument from '"), old), "' to '"), new), "' as it already exists in field '"),
                                    fld,
                                ),
                                "' of type '",
                            ),
                            ty,
                        ),
                        "'.",
                    ),
                )
            } else if !all_http_grpc(&f.resolvers) {
                Some(cat(rename_prefix_text(old, new, fld, ty), "'. Renaming is only supported for HTTP and gRPC resolvers."))
            } else if any_query_uses(&f.resolvers, old) {
                Some(cat(rename_prefix_text(old, new, fld, ty), "'. Renaming of query parameters is not allowed."))
            } else if !f.args.contains_key(old) {
                Some(
                    cat(
                        cat(cat(cat(cat(cat(copy_str("Cannot rename argument '"), old), "' as it does not exist in field '"), fld), "' of type '"), ty),
                        "'.",
                    ),
                )
            } else {
                None
            }
        },
    }
}

/// Renames argument `old` as `loc` says, or reports why it cannot.
fn rename_arg(config: Config, old: &str, loc: &Location) -> (r: (Config, Option<Cause>))
    requires
        config.wf(),
    ensures
        match rename_error(config, old@, loc@.0, loc@.1, loc@.2) {
            Some(m) => r.0 == config && (r.1 matches Some(c) && c.error@ == m && c.trace@.len() == 0),
            None => r.1 is None && config_arg_renamed(config, r.0, old@, loc@.0, loc@.1, loc@.2),
        },
{
    match refusal(&config, old, loc) {
        Some(m) => {
            return (config, Some(Cause::new(m)));
        },
        None => {},
    }
    let ghost a = config;
    let ty = loc.ty_name.as_str();
    let fld = loc.field_name.as_str();
    let new = loc.new_argument_name.as_str();
    proof {
        a.types.lemma_all_values(|t: Type| t.wf());
    }
    let Config { schema, upstream, enable_federation, types, unions, enums } = config;
    let mut types = types;
    let t = types.remove(ty).unwrap();
    let ghost ta = t;
    proof {
        assert(ta == a.types.as_map()[ty@]);
        assert(a.types.as_map().contains_key(ty@));
        assert(ta.wf());
        ta.fields.lemma_all_values(|f: Field| f.args.wf());
        assert(ta.fields.as_map().contains_key(fld@));
    }
    let mut t = t;
    let f = t.fields.remove(fld).unwrap();
    let ghost fa = f;
    assert(fa == ta.fields.as_map()[fld@]);
    let Field { type_of, list, required, list_type_required, args, doc, omit, resolvers } = f;
    let mut args = args;
    let arg = args.remove(old).unwrap();
    args.insert(copy_str(new), arg);
    let resolvers = rename_in_resolvers(resolvers, old, new);
    let nf = Field { type_of, list, required, list_type_required, args, doc, omit, resolvers };
    t.fields.insert(copy_str(fld), nf);
    proof {
        let pf = |f: Field| f.args.wf();
        ta.fields.lemma_all_values(pf);
        t.fields.lemma_all_values(pf);
        assert(t.fields.as_map() =~= ta.fields.as_map().insert(fld@, nf));
        assert forall|k: Seq<char>| #[trigger] t.fields.as_map().contains_key(k) implies pf(t.fields.as_map()[k]) by {
            if k != fld@ {
                assert(ta.fields.as_map().contains_key(k));
            }
        }
        assert forall|i: int| 0 <= i < t.fields.entries@.len() implies (#[trigger] t.fields.entries@[i]).1.args.wf() by {
            assert(pf(t.fields.entries@[i].1));
        }
        assert(t.implements == ta.implements);
        assert(t.wf());
        assert(field_arg_renamed(fa, nf, old@, new@));
        assert(type_arg_renamed(ta, t, old@, new@, fld@));
    }
    types.insert(copy_str(ty), t);
    let r = Config { schema, upstream, enable_federation, types, unions, enums };
    proof {
        let pt = |t: Type| t.wf();
        a.types.lemma_all_values(pt);
        r.types.lemma_all_values(pt);
        assert(r.types.as_map() =~= a.types.as_map().insert(ty@, t));
        assert forall|k: Seq<char>| #[trigger] r.types.as_map().contains_key(k) implies pt(r.types.as_map()[k]) by {
            if k != ty@ {
                assert(a.types.as_map().contains_key(k));
            }
        }
        assert forall|i: int| 0 <= i < r.types.entries@.len() implies (#[trigger] r.types.entries@[i]).1.wf() by {
            assert(pt(r.types.entries@[i].1));
        }
        assert(r.wf());
        assert(config_arg_renamed(a, r, old@, new@, fld@, ty@));
    }
    (r, None)
}

/// Renames arguments of fields: each entry maps an argument's current name
/// to where it is defined and its new name.
pub struct RenameArgs(IndexMap<String, Location>);

impl RenameArgs {
    /// The renames, in order.
    pub closed spec fn renames(self) -> Seq<(Seq<char>, (Seq<char>, Seq<char>, Seq<char>))> {
        location_entries(self.0)
    }

    /// The renames of the map, in its order.
    pub fn new(arg_rename_map: IndexMap<String, Location>) -> (r: RenameArgs)
        ensures
            r.renames() == location_entries(arg_rename_map),
    {
        RenameArgs(arg_rename_map)
    }

    /// Applies the renames one after the other. Every refused rename is
    /// reported, in order, and then nothing is returned but the reports;
    /// a refused rename changes nothing for those after it.
    pub fn transform(&self, config: Config) -> (r: Result<Config, Vec<Cause>>)
        requires
            config.wf(),
        ensures
            exists|cs: Seq<Config>| {
                &&& #[trigger] rename_chain(cs, self.renames())
                &&& cs[0] == config
                &&& match r {
                    Ok(c) => step_errors(cs, self.renames(), self.renames().len()).len() == 0 && c == cs.last(),
                    Err(v) => {
                        let errs = step_errors(cs, self.renames(), self.renames().len());
                        &&& errs.len() > 0
                        &&& v@.len() == errs.len()
                        &&& forall|i: int| 0 <= i < v@.len() ==> (#[trigger] v@[i]).error@ == errs[i] && v@[i].trace@.len() == 0
                    },
                }
            },
    {
        let entries = location_list(&self.0);
        let ghost es = self.renames();
        let ghost start = config;
        let mut c = config;
        let mut errors: Vec<Cause> = Vec::new();
        let ghost mut cs: Seq<Config> = seq![config];
        let n = entries.len();
        let mut i: usize = 0;
        while i < n
            invariant
                n == es.len(),
                es == location_entries(self.0),
                entries@.len() == n,
                forall|j: int| 0 <= j < n ==> (#[trigger] entries@[j]).0@ == es[j].0 && entries@[j].1@ == es[j].1,
                i <= n,
                cs.len() == i + 1,
                cs[0] == start,
                c == cs.last(),
                c.wf(),
                forall|j: int| 0 <= j < i ==> #[trigger] rename_step(cs[j], cs[j + 1], es[j]),
                errors@.len() == step_errors(cs, es, i as nat).len(),
                forall|j: int| 0 <= j < errors@.len() ==> (#[trigger] errors@[j]).error@ == step_errors(cs, es, i as nat)[j]
                    && errors@[j].trace@.len() == 0,
            decreases n - i,
        {
            let ghost before = c;
            let ghost prev = step_errors(cs, es, i as nat);
            let (c2, e) = rename_arg(c, entries[i].0.as_str(), &entries[i].1);
            proof {
                lemma_step_errors_push(cs, es, i as nat, c2);
                cs = cs.push(c2);
                assert(cs[i as int] == before);
                assert(rename_step(cs[i as int], cs[i + 1], es[i as int]));
                assert forall|j: int| 0 <= j < i + 1 implies #[trigger] rename_step(cs[j], cs[j + 1], es[j]) by {
                    if j < i {
                        assert(cs[j] == cs.drop_last()[j]);
                        assert(cs[j + 1] == cs.drop_last()[j + 1]);
                    }
                }
            }
            c = c2;
            match e {
                Some(cause) => {
                    errors.push(cause);
                },
                None => {},
            }
            proof {
                let now = step_errors(cs, es, (i + 1) as nat);
                assert(step_errors(cs, es, i as nat) == prev);
                assert(errors@.len() == now.len());
                assert forall|j: int| 0 <= j < errors@.len() implies (#[trigger] errors@[j]).error@ == now[j]
                    && errors@[j].trace@.len() == 0 by {
                    if j < prev.len() {
                        assert(now[j] == prev[j]);
                    }
                }
                if c.wf() {
                } else {
                    assert(rename_error(before, es[i as int].0, es[i as int].1.0, es[i as int].1.1, es[i as int].1.2) is Some);
                }
            }
            i = i + 1;
        }
        proof {
            assert(rename_chain(cs, es));
        }
        if errors.len() > 0 {
            Err(errors)
        } else {
            Ok(c)
        }
    }
}

proof fn lemma_step_errors_push(
    cs: Seq<Config>,
    es: Seq<(Seq<char>, (Seq<char>, Seq<char>, Seq<char>))>,
    n: nat,
    x: Config,
)
    requires
        n < cs.len(),
    ensures
        step_errors(cs.push(x), es, n) == step_errors(cs, es, n),
    decreases n,
{
    if n > 0 {
        lemma_step_errors_push(cs, es, (n - 1) as nat, x);
        assert(cs.push(x)[n - 1] == cs[n - 1]);
    }
}

} // verus!
