//! The names an ambiguous type takes when it is used both as input and as
//! output: one for each use.

use vstd::prelude::*;
use crate::config::{Arg, Config, Field, Type};
use crate::config::copies::{copy_opt, copy_resolvers, same_field};
use crate::config::transformer::type_merger::names_view;
use crate::config::transformer::union_input_type::{same_type_rest, with_fields};
use crate::strmap::StrMap;
use crate::strset::StrSet;
use crate::strings::{concat_str, str_eq};
use crate::valid::Cause;

verus! {

/// The input and output names for a type used both ways.
#[derive(Clone, Debug, PartialEq, Eq)]
pub struct Resolution {
    pub input: String,
    pub output: String,
}

impl Resolution {
    /// Whether the two names differ, so the uses can be told apart.
    pub fn is_unique(&self) -> (r: bool)
        ensures
            r == (self.input@ != self.output@),
    {
        !str_eq(self.input.as_str(), self.output.as_str())
    }
}

/// Records the resolution of `current_name`, unless one is recorded already.
pub fn insert_resolution(map: StrMap<Resolution>, current_name: &str, resolution: Resolution) -> (r: StrMap<Resolution>)
    requires
        map.wf(),
    ensures
        r.wf(),
        r.as_map() == if map.as_map().contains_key(current_name@) {
            map.as_map()
        } else {
            map.as_map().insert(current_name@, resolution)
        },
{
    let mut map = map;
    if !map.contains_key(current_name) {
        map.insert(crate::strings::copy_str(current_name), resolution);
    }
    map
}

/// The state of resolving: which type each current name holds (by its
/// name in the configuration), and the input and the output types.
pub type ResolveState = (Map<Seq<char>, Seq<char>>, Set<Seq<char>>, Set<Seq<char>>);

/// One resolution: `n` stops being a type name and leaves the input and the
/// output types; when it named a type, that type goes under the input and
/// the output names of `res`, which join the input and the output types.
pub open spec fn resolve_step(st: ResolveState, n: Seq<char>, res: Resolution) -> ResolveState {
    let (origin, ins, outs) = st;
    if origin.contains_key(n) {
        let o = origin[n];
        (
            origin.remove(n).insert(res.input@, o).insert(res.output@, o),
            ins.remove(n).insert(res.input@),
            outs.remove(n).insert(res.output@),
        )
    } else {
        (origin, ins.remove(n), outs.remove(n))
    }
}

/// The resolutions `es` applied one after the other, from `st`.
pub open spec fn resolve_fold(st: ResolveState, es: Seq<(String, Resolution)>) -> ResolveState
    decreases es.len(),
{
    if es.len() == 0 {
        st
    } else {
        resolve_step(resolve_fold(st, es.drop_last()), es.last().0@, es.last().1)
    }
}

/// Each type name holds its own type.
pub open spec fn own_names(ts: Map<Seq<char>, Type>) -> Map<Seq<char>, Seq<char>> {
    Map::new(|k: Seq<char>| ts.contains_key(k), |k: Seq<char>| k)
}

/// The type a field of type `k` names after resolving: a resolved name
/// becomes its output name in an output type, else its input name in an
/// input type.
pub open spec fn resolved_field_type(
    rm: Map<Seq<char>, Resolution>,
    ins: Set<Seq<char>>,
    outs: Set<Seq<char>>,
    k: Seq<char>,
    t: Seq<char>,
) -> Seq<char> {
    if rm.contains_key(t) {
        if outs.contains(k) {
            rm[t].output@
        } else if ins.contains(k) {
            rm[t].input@
        } else {
            t
        }
    } else {
        t
    }
}

/// The type an argument names after resolving: a resolved name becomes its
/// input name.
pub open spec fn resolved_arg_type(rm: Map<Seq<char>, Resolution>, t: Seq<char>) -> Seq<char> {
    if rm.contains_key(t) {
        rm[t].input@
    } else {
        t
    }
}

/// `b` is the arguments `a` with their types resolved.
pub open spec fn args_resolved(a: StrMap<Arg>, b: StrMap<Arg>, rm: Map<Seq<char>, Resolution>) -> bool {
    &&& b.entries@.len() == a.entries@.len()
    &&& forall|i: int| 0 <= i < a.entries@.len() ==> {
        let x = a.entries@[i].1;
        let y = (#[trigger] b.entries@[i]).1;
        &&& b.entries@[i].0 == a.entries@[i].0
        &&& y == (Arg { type_of: y.type_of, ..x })
        &&& y.type_of@ == resolved_arg_type(rm, x.type_of@)
    }
}

/// `b` is type `a`, held under the name `k`, with the types of its fields
/// and of their arguments resolved.
pub open spec fn type_resolved(
    a: Type,
    b: Type,
    k: Seq<char>,
    ins: Set<Seq<char>>,
    outs: Set<Seq<char>>,
    rm: Map<Seq<char>, Resolution>,
) -> bool {
    &&& same_type_rest(a, b)
    &&& b.fields.entries@.len() == a.fields.entries@.len()
    &&& forall|j: int| 0 <= j < a.fields.entries@.len() ==> {
        let (nm, f) = a.fields.entries@[j];
        let g = (#[trigger] b.fields.entries@[j]).1;
        &&& b.fields.entries@[j].0 == nm
        &&& g.type_of@ == resolved_field_type(rm, ins, outs, k, f.type_of@)
        &&& same_field(Field { type_of: g.type_of, args: g.args, ..f }, g)
        &&& args_resolved(f.args, g.args, rm)
    }
}

/// `r` is `c` after the resolutions `rs`, applied in key order starting
/// from the input types `ins0` and the output types `outs0`: each resolved
/// type is held under its new names, and fields and arguments name the new
/// types.
pub open spec fn resolved(c: Config, r: Config, ins0: Set<Seq<char>>, outs0: Set<Seq<char>>, rs: StrMap<Resolution>) -> bool {
    let (origin, ins, outs) = resolve_fold((own_names(c.types.as_map()), ins0, outs0), rs.entries@);
    &&& r.schema == c.schema
    &&& r.upstream == c.upstream
    &&& r.enable_federation == c.enable_federation
    &&& r.unions == c.unions
    &&& r.enums == c.enums
    &&& r.types.wf()
    &&& r.types.as_map().dom() == origin.dom()
    &&& forall|k: Seq<char>| #[trigger] r.types.as_map().contains_key(k) ==> c.types.as_map().contains_key(origin[k])
        && type_resolved(c.types.as_map()[origin[k]], r.types.as_map()[k], k, ins, outs, rs.as_map())
}

fn own_name_map(types: &StrMap<Type>) -> (r: StrMap<String>)
    requires
        types.wf(),
    ensures
        r.wf(),
        names_view(r) == own_names(types.as_map()),
{
    let mut out: Vec<(String, String)> = Vec::new();
    let n = types.entries.len();
    let mut i: usize = 0;
    while i < n
        invariant
            n == types.entries@.len(),
            i <= n,
            out@.len() == i,
            forall|j: int| 0 <= j < i ==> (#[trigger] out@[j]).0@ == types.entries@[j].0@ && out@[j].1@ == types.entries@[j].0@,
        decreases n - i,
    {
        out.push((types.entries[i].0.clone(), types.entries[i].0.clone()));
        i = i + 1;
    }
    let r = StrMap { entries: out };
    proof {
        assert forall|a: int, b: int| 0 <= a < b < r.entries@.len() implies crate::strings::seq_lt(
            #[trigger] r.entries@[a].0@,
            #[trigger] r.entries@[b].0@,
        ) by {
            assert(crate::strings::seq_lt(types.entries@[a].0@, types.entries@[b].0@));
        }
        assert forall|k: Seq<char>| #[trigger] names_view(r).contains_key(k) <==> own_names(types.as_map()).contains_key(k) by {
            if r.has(k) {
                let j = r.pos(k);
                assert(types.entries@[j].0@ == k);
            }
            if types.has(k) {
                let j = types.pos(k);
                assert(r.entries@[j].0@ == k);
            }
        }
        assert forall|k: Seq<char>| #[trigger] names_view(r).contains_key(k) implies names_view(r)[k] == k by {
            let j = r.pos(k);
            r.lemma_at(j);
        }
        assert(names_view(r) =~= own_names(types.as_map()));
    }
    r
}

fn resolve_args(args: &StrMap<Arg>, rs: &StrMap<Resolution>) -> (r: StrMap<Arg>)
    requires
        rs.wf(),
    ensures
        args_resolved(*args, r, rs.as_map()),
        r.keys() == args.keys(),
{
    let ghost all = args.entries@;
    let mut out: Vec<(String, Arg)> = Vec::new();
    let n = args.entries.len();
    let mut i: usize = 0;
    while i < n
        invariant
            rs.wf(),
            all == args.entries@,
            n == all.len(),
            i <= n,
            out@.len() == i,
            forall|j: int| 0 <= j < i ==> {
                let x = all[j].1;
                let y = (#[trigger] out@[j]).1;
                &&& out@[j].0 == all[j].0
                &&& y == (Arg { type_of: y.type_of, ..x })
                &&& y.type_of@ == resolved_arg_type(rs.as_map(), x.type_of@)
            },
        decreases n - i,
    {
        let a = &args.entries[i].1;
        let ty = match rs.get(a.type_of.as_str()) {
            Some(res) => res.input.clone(),
            None => a.type_of.clone(),
        };
        out.push((args.entries[i].0.clone(), Arg { type_of: ty, list: a.list, required: a.required, doc: copy_opt(&a.doc) }));
        i = i + 1;
    }
    let r = StrMap { entries: out };
    assert(r.keys() =~= args.keys());
    r
}

fn resolve_type(t: &Type, k: &str, ins: &StrSet, outs: &StrSet, rs: &StrMap<Resolution>) -> (u: Type)
    requires
        rs.wf(),
        ins.wf(),
        outs.wf(),
    ensures
        type_resolved(*t, u, k@, ins.as_set(), outs.as_set(), rs.as_map()),
        t.wf() ==> u.wf(),
{
    let ghost all = t.fields.entries@;
    let mut out: Vec<(String, Field)> = Vec::new();
    let n = t.fields.entries.len();
    let is_out = outs.contains(k);
    let is_in = ins.contains(k);
    let mut i: usize = 0;
    while i < n
        invariant
            rs.wf(),
            all == t.fields.entries@,
            n == all.len(),
            i <= n,
            out@.len() == i,
            is_out == outs.as_set().contains(k@),
            is_in == ins.as_set().contains(k@),
            forall|j: int| 0 <= j < i ==> {
                let (nm, f) = all[j];
                let g = (#[trigger] out@[j]).1;
                &&& out@[j].0 == nm
                &&& g.type_of@ == resolved_field_type(rs.as_map(), ins.as_set(), outs.as_set(), k@, f.type_of@)
                &&& same_field(Field { type_of: g.type_of, args: g.args, ..f }, g)
                &&& args_resolved(f.args, g.args, rs.as_map())
                &&& g.args.keys() == f.args.keys()
            },
        decreases n - i,
    {
        let f = &t.fields.entries[i].1;
        let ty = match rs.get(f.type_of.as_str()) {
            Some(res) => if is_out {
                res.output.clone()
            } else if is_in {
                res.input.clone()
            } else {
                f.type_of.clone()
            },
            None => f.type_of.clone(),
        };
        let g = Field {
            type_of: ty,
            list: f.list,
            required: f.required,
            list_type_required: f.list_type_required,
            args: resolve_args(&f.args, rs),
            doc: copy_opt(&f.doc),
            omit: f.omit,
            resolvers: copy_resolvers(&f.resolvers),
        };
        out.push((t.fields.entries[i].0.clone(), g));
        i = i + 1;
    }
    let fields = StrMap { entries: out };
    let u = with_fields(t, fields);
    proof {
        if t.wf() {
            assert forall|a: int, b: int| 0 <= a < b < u.fields.entries@.len() implies crate::strings::seq_lt(
                #[trigger] u.fields.entries@[a].0@,
                #[trigger] u.fields.entries@[b].0@,
            ) by {
                assert(crate::strings::seq_lt(all[a].0@, all[b].0@));
            }
            assert forall|j: int| 0 <= j < u.fields.entries@.len() implies (#[trigger] u.fields.entries@[j]).1.args.wf() by {
                assert(all[j].1.args.wf());
                let x = all[j].1.args;
                let y = u.fields.entries@[j].1.args;
                assert forall|a: int, b: int| 0 <= a < b < y.entries@.len() implies crate::strings::seq_lt(
                    #[trigger] y.entries@[a].0@,
                    #[trigger] y.entries@[b].0@,
                ) by {
                    assert(y.keys()[a] == x.keys()[a]);
                    assert(y.keys()[b] == x.keys()[b]);
                    assert(crate::strings::seq_lt(x.entries@[a].0@, x.entries@[b].0@));
                }
            }
        }
    }
    u
}

/// Applies the resolutions `rs`, in key order, to a configuration whose
/// input types are `input_types` and output types `output_types`: each
/// resolved name stops being a type name and its type goes under the
/// resolution's input and output names (which join the input and the
/// output types). Then each field whose type was resolved names the output
/// name in an output type, else the input name in an input type, and each
/// argument whose type was resolved names the input name.
pub fn apply_resolutions(config: Config, input_types: &StrSet, output_types: &StrSet, rs: &StrMap<Resolution>) -> (r: Config)
    requires
        config.wf(),
        input_types.wf(),
        output_types.wf(),
        rs.wf(),
    ensures
        resolved(config, r, input_types.as_set(), output_types.as_set(), *rs),
        r.wf(),
{
    let ghost c0 = config;
    let ghost ts = config.types.as_map();
    let ghost st0: ResolveState = (own_names(ts), input_types.as_set(), output_types.as_set());
    let mut origin = own_name_map(&config.types);
    let mut ins = input_types.copy();
    let mut outs = output_types.copy();
    let ghost es = rs.entries@;
    let n = rs.entries.len();
    let mut i: usize = 0;
    assert(es.take(0) =~= Seq::<(String, Resolution)>::empty());
    while i < n
        invariant
            es == rs.entries@,
            n == es.len(),
            i <= n,
            origin.wf(),
            ins.wf(),
            outs.wf(),
            (names_view(origin), ins.as_set(), outs.as_set()) == resolve_fold(st0, es.take(i as int)),
            forall|k: Seq<char>| #[trigger] names_view(origin).contains_key(k) ==> ts.contains_key(names_view(origin)[k]),
        decreases n - i,
    {
        let ghost before = names_view(origin);
        proof {
            assert(es.take(i + 1).drop_last() =~= es.take(i as int));
        }
        let name = &rs.entries[i].0;
        let res = &rs.entries[i].1;
        let found = origin.remove(name.as_str());
        ins.remove(name.as_str());
        outs.remove(name.as_str());
        match found {
            Some(o) => {
                proof {
                    assert(before.contains_key(name@));
                    assert(before[name@] == o@);
                }
                origin.insert(res.input.clone(), o.clone());
                origin.insert(res.output.clone(), o);
                ins.insert(res.input.clone());
                outs.insert(res.output.clone());
                proof {
                    assert(names_view(origin) =~= before.remove(name@).insert(res.input@, before[name@]).insert(
                        res.output@,
                        before[name@],
                    ));
                }
            },
            None => {
                proof {
                    assert(!before.contains_key(name@));
                    assert(names_view(origin) =~= before);
                }
            },
        }
        i = i + 1;
    }
    assert(es.take(n as int) =~= es);
    let Config { schema, upstream, enable_federation, types, unions, enums } = config;
    let m = origin.entries.len();
    let mut out: Vec<(String, Type)> = Vec::new();
    let mut j: usize = 0;
    proof {
        c0.types.lemma_all_values(|t: Type| t.wf());
    }
    while j < m
        invariant
            m == origin.entries@.len(),
            j <= m,
            origin.wf(),
            rs.wf(),
            ins.wf(),
            outs.wf(),
            types == c0.types,
            types.wf(),
            ts == types.as_map(),
            forall|k: Seq<char>| #[trigger] ts.contains_key(k) ==> ts[k].wf(),
            forall|k: Seq<char>| #[trigger] names_view(origin).contains_key(k) ==> ts.contains_key(names_view(origin)[k]),
            out@.len() == j,
            forall|x: int| 0 <= x < j ==> {
                let k = (#[trigger] out@[x]).0@;
                &&& k == origin.entries@[x].0@
                &&& type_resolved(ts[origin.entries@[x].1@], out@[x].1, k, ins.as_set(), outs.as_set(), rs.as_map())
                &&& out@[x].1.wf()
            },
        decreases m - j,
    {
        proof {
            origin.lemma_at(j as int);
        }
        let k = &origin.entries[j].0;
        let o = &origin.entries[j].1;
        match types.get(o.as_str()) {
            Some(t) => {
                proof {
                    assert(ts.contains_key(o@));
                    assert(*t == ts[o@]);
                    assert(t.wf());
                }
                let u = resolve_type(t, k.as_str(), &ins, &outs, rs);
                let ghost out0 = out@;
                out.push((k.clone(), u));
                proof {
                    assert forall|x: int| 0 <= x < j + 1 implies {
                        let kk = (#[trigger] out@[x]).0@;
                        &&& kk == origin.entries@[x].0@
                        &&& type_resolved(ts[origin.entries@[x].1@], out@[x].1, kk, ins.as_set(), outs.as_set(), rs.as_map())
                        &&& out@[x].1.wf()
                    } by {
                        if x < j {
                            assert(out@[x] == out0[x]);
                        }
                    }
                }
            },
            None => {
                proof {
                    assert(names_view(origin).contains_key(k@));
                    assert(names_view(origin)[k@] == o@);
                    assert(ts.contains_key(o@));
                    assert(false);
                }
            },
        }
        j = j + 1;
    }
    let r = Config { schema, upstream, enable_federation, types: StrMap { entries: out }, unions, enums };
    proof {
        let rt = r.types;
        assert forall|a: int, b: int| 0 <= a < b < rt.entries@.len() implies crate::strings::seq_lt(
            #[trigger] rt.entries@[a].0@,
            #[trigger] rt.entries@[b].0@,
        ) by {
            assert(crate::strings::seq_lt(origin.entries@[a].0@, origin.entries@[b].0@));
        }
        let ov = names_view(origin);
        assert forall|k: Seq<char>| #[trigger] rt.as_map().contains_key(k) <==> ov.contains_key(k) by {
            if rt.has(k) {
                let x = rt.pos(k);
                assert(origin.entries@[x].0@ == k);
                origin.lemma_at(x);
            }
            if ov.contains_key(k) {
                let x = origin.pos(k);
                origin.lemma_at(x);
                assert(rt.entries@[x].0@ == k);
            }
        }
        assert(rt.as_map().dom() =~= ov.dom());
        assert forall|k: Seq<char>| #[trigger] rt.as_map().contains_key(k) implies ts.contains_key(ov[k])
            && type_resolved(ts[ov[k]], rt.as_map()[k], k, ins.as_set(), outs.as_set(), rs.as_map()) && rt.as_map()[k].wf() by {
            let x = rt.pos(k);
            rt.lemma_at(x);
            origin.lemma_at(x);
            assert(rt.entries@[x].0@ == k);
        }
        assert forall|x: int| 0 <= x < rt.entries@.len() implies (#[trigger] rt.entries@[x]).1.wf() by {}
        assert(r.wf());
        assert(resolved(c0, r, input_types.as_set(), output_types.as_set(), *rs));
    }
    r
}

/// The types the arguments name, in order.
pub open spec fn arg_types(args: Seq<(String, Arg)>) -> Seq<Seq<char>> {
    args.map_values(|p: (String, Arg)| p.1.type_of@)
}

/// The types the arguments of the fields name, field by field.
pub open spec fn fields_arg_types(fs: Seq<(String, Field)>) -> Seq<Seq<char>>
    decreases fs.len(),
{
    if fs.len() == 0 {
        Seq::empty()
    } else {
        fields_arg_types(fs.drop_last()) + arg_types(fs.last().1.args.entries@)
    }
}

/// Whether `n` is used both as an input and as an output type.
pub open spec fn is_conflict(ins: Set<Seq<char>>, outs: Set<Seq<char>>, n: Seq<char>) -> bool {
    ins.contains(n) && outs.contains(n)
}

/// The names that get a resolution from the types named in `ns`: each of
/// them that is an output type and a type of the configuration, and each
/// output type that an argument of its fields names.
pub open spec fn names_from(ts: Map<Seq<char>, Type>, ns: Set<Seq<char>>, outs: Set<Seq<char>>) -> Set<Seq<char>> {
    Set::new(
        |k: Seq<char>|
            (ns.contains(k) && outs.contains(k) && ts.contains_key(k)) || (outs.contains(k) && exists|n: Seq<char>|
                ns.contains(n) && outs.contains(n) && #[trigger] ts.contains_key(n) && fields_arg_types(
                    ts[n].fields.entries@,
                ).contains(k)),
    )
}

/// The message for a resolution whose input and output names are the same.
pub open spec fn ambiguity_message(input: Seq<char>, output: Seq<char>) -> Seq<char> {
    "Unable to auto resolve Input: "@ + input + " and Output: "@ + output + " are same"@
}

/// The resolution the resolver gives for `name`.
fn resolve_one<F: Fn(&str) -> Resolution>(resolver: &F, name: &str) -> (r: Resolution)
    requires
        forall|x: &str| call_requires(*resolver, (x,)),
    ensures
        call_ensures(*resolver, (name,), r),
{
    resolver(name)
}

proof fn lemma_push_contains(s: Seq<Seq<char>>, x: Seq<char>, k: Seq<char>)
    ensures
        s.push(x).contains(k) <==> (s.contains(k) || k == x),
{
    if s.contains(k) {
        let i = choose|i: int| 0 <= i < s.len() && s[i] == k;
        assert(s.push(x)[i] == k);
    }
    if k == x {
        assert(s.push(x)[s.len() as int] == k);
    }
    if s.push(x).contains(k) {
        let i = choose|i: int| 0 <= i < s.push(x).len() && s.push(x)[i] == k;
        if i < s.len() {
            assert(s[i] == k);
        }
    }
}

/// The resolution `res` for `name`, and one from the resolver for each
/// output type that an argument of `ty`'s fields names, asked once for each.
fn resolve_type_args<F: Fn(&str) -> Resolution>(
    resolver: &F,
    name: &str,
    res: Resolution,
    ty: &Type,
    output_types: &StrSet,
) -> (per: StrMap<Resolution>)
    requires
        forall|x: &str| call_requires(*resolver, (x,)),
        call_ensures(*resolver, (name,), res),
        output_types.wf(),
    ensures
        per.wf(),
        per.as_map().dom() == Set::new(
            |k: Seq<char>| k == name@ || (output_types.as_set().contains(k) && fields_arg_types(ty.fields.entries@).contains(k)),
        ),
        forall|k: Seq<char>| #[trigger] per.as_map().contains_key(k) ==> exists|s: &str|
            s@ == k && #[trigger] call_ensures(*resolver, (s,), per.as_map()[k]),
{
    let ghost outs = output_types.as_set();
    let ghost fsv = ty.fields.entries@;
    let mut per = insert_resolution(StrMap::new(), name, res);
    proof {
        assert(fsv.take(0) =~= Seq::<(String, Field)>::empty());
        assert(per.as_map().dom() =~= Set::new(
            |k: Seq<char>| k == name@ || (outs.contains(k) && fields_arg_types(fsv.take(0)).contains(k)),
        ));
        assert(per.as_map()[name@] == res);
    }
    let fs = &ty.fields.entries;
    let nf = fs.len();
    let mut j: usize = 0;
    while j < nf
        invariant
            fsv == fs@,
            nf == fsv.len(),
            j <= nf,
            output_types.wf(),
            outs == output_types.as_set(),
            forall|x: &str| call_requires(*resolver, (x,)),
            per.wf(),
            per.as_map().dom() == Set::new(
                |k: Seq<char>| k == name@ || (outs.contains(k) && fields_arg_types(fsv.take(j as int)).contains(k)),
            ),
            forall|k: Seq<char>| #[trigger] per.as_map().contains_key(k) ==> exists|s: &str|
                s@ == k && #[trigger] call_ensures(*resolver, (s,), per.as_map()[k]),
        decreases nf - j,
    {
        let args = &fs[j].1.args.entries;
        let ghost av = args@;
        let ghost before = fields_arg_types(fsv.take(j as int));
        let na = args.len();
        let mut a: usize = 0;
        proof {
            assert(arg_types(av.take(0)) =~= Seq::<Seq<char>>::empty());
            assert(before + arg_types(av.take(0)) =~= before);
        }
        while a < na
            invariant
                av == args@,
                na == av.len(),
                a <= na,
                output_types.wf(),
                outs == output_types.as_set(),
                forall|x: &str| call_requires(*resolver, (x,)),
                per.wf(),
                per.as_map().dom() == Set::new(
                    |k: Seq<char>| k == name@ || (outs.contains(k) && (before + arg_types(av.take(a as int))).contains(k)),
                ),
                forall|k: Seq<char>| #[trigger] per.as_map().contains_key(k) ==> exists|s: &str|
                    s@ == k && #[trigger] call_ensures(*resolver, (s,), per.as_map()[k]),
            decreases na - a,
        {
            let t = &args[a].1.type_of;
            let ghost seen = before + arg_types(av.take(a as int));
            let ghost d0 = per.as_map().dom();
            proof {
                assert(before + arg_types(av.take(a + 1)) =~= seen.push(t@));
            }
            let tstr = t.as_str();
            if output_types.contains(tstr) && !per.contains_key(tstr) {
                let r2 = resolve_one(resolver, tstr);
                let ghost m0 = per.as_map();
                per = insert_resolution(per, tstr, r2);
                proof {
                    assert forall|k: Seq<char>| #[trigger] per.as_map().contains_key(k) implies exists|s: &str|
                        s@ == k && #[trigger] call_ensures(*resolver, (s,), per.as_map()[k]) by {
                        if k == t@ {
                            assert(tstr@ == k);
                            assert(per.as_map()[k] == r2);
                            assert(call_ensures(*resolver, (tstr,), per.as_map()[k]));
                        } else {
                            assert(m0.contains_key(k));
                            assert(per.as_map()[k] == m0[k]);
                        }
                    }
                }
            }
            proof {
                assert forall|k: Seq<char>| per.as_map().dom().contains(k) == (k == name@ || (outs.contains(k) && seen.push(t@).contains(k))) by {
                    lemma_push_contains(seen, t@, k);
                }
                assert(per.as_map().dom() =~= Set::new(
                    |k: Seq<char>| k == name@ || (outs.contains(k) && (before + arg_types(av.take(a + 1))).contains(k)),
                ));
            }
            a = a + 1;
        }
        proof {
            assert(av.take(na as int) =~= av);
            assert(fsv.take(j + 1).drop_last() =~= fsv.take(j as int));
            assert(fsv.take(j + 1).last() == fsv[j as int]);
            assert(fields_arg_types(fsv.take(j + 1)) == before + arg_types(av));
            assert(per.as_map().dom() =~= Set::new(
                |k: Seq<char>| k == name@ || (outs.contains(k) && fields_arg_types(fsv.take(j + 1)).contains(k)),
            ));
        }
        j = j + 1;
    }
    proof {
        assert(fsv.take(nf as int) =~= fsv);
    }
    per
}

/// Adds the entries of `per` to `global`; an entry of `per` replaces one of
/// `global` with the same name.
fn merge_into(global: &mut StrMap<Resolution>, per: StrMap<Resolution>)
    requires
        old(global).wf(),
        per.wf(),
    ensures
        final(global).wf(),
        final(global).as_map().dom() == old(global).as_map().dom().union(per.as_map().dom()),
        forall|k: Seq<char>| #[trigger] final(global).as_map().contains_key(k) ==> final(global).as_map()[k] == if per.as_map().contains_key(k) {
            per.as_map()[k]
        } else {
            old(global).as_map()[k]
        },
{
    let ghost g0 = global.as_map();
    let ghost pv = per;
    let ghost all = per.entries@;
    let mut rest = per.entries;
    let n = rest.len();
    let mut i: usize = 0;
    while i < n
        invariant
            pv.wf(),
            all == pv.entries@,
            n == all.len(),
            i <= n,
            rest@ == all.skip(i as int),
            global.wf(),
            forall|k: Seq<char>| #[trigger] global.as_map().contains_key(k) <==> (g0.contains_key(k) || exists|x: int|
                0 <= x < i && #[trigger] all[x].0@ == k),
            forall|x: int| 0 <= x < i ==> #[trigger] global.as_map()[all[x].0@] == all[x].1,
            forall|k: Seq<char>| #[trigger] global.as_map().contains_key(k) && !(exists|x: int| 0 <= x < i && #[trigger] all[x].0@ == k)
                ==> global.as_map()[k] == g0[k],
        decreases n - i,
    {
        let (k, v) = rest.remove(0);
        assert((k, v) == all[i as int]);
        let ghost m0 = global.as_map();
        global.insert(k, v);
        proof {
            let ki = all[i as int].0@;
            assert forall|x: int| 0 <= x < i implies all[x].0@ != ki by {
                if all[x].0@ == ki {
                    pv.lemma_unique(x, i as int);
                }
            }
            assert forall|q: Seq<char>| #[trigger] global.as_map().contains_key(q) <==> (g0.contains_key(q) || exists|x: int|
                0 <= x < i + 1 && #[trigger] all[x].0@ == q) by {
                if q == ki {
                    assert(all[i as int].0@ == q);
                } else if exists|x: int| 0 <= x < i + 1 && #[trigger] all[x].0@ == q {
                    let x = choose|x: int| 0 <= x < i + 1 && #[trigger] all[x].0@ == q;
                    assert(x != i);
                }
            }
            assert forall|x: int| 0 <= x < i + 1 implies #[trigger] global.as_map()[all[x].0@] == all[x].1 by {
                if x < i {
                    assert(all[x].0@ != ki);
                    assert(m0[all[x].0@] == all[x].1);
                }
            }
            assert forall|q: Seq<char>| #[trigger] global.as_map().contains_key(q) && !(exists|x: int| 0 <= x < i + 1 && #[trigger] all[x].0@ == q)
                implies global.as_map()[q] == g0[q] by {
                assert(q != all[i as int].0@);
                assert(!(exists|x: int| 0 <= x < i && #[trigger] all[x].0@ == q));
            }
        }
        assert(rest@ =~= all.skip(i + 1));
        i = i + 1;
    }
    proof {
        assert forall|k: Seq<char>| pv.as_map().contains_key(k) <==> exists|x: int| 0 <= x < n && #[trigger] all[x].0@ == k by {
            if pv.as_map().contains_key(k) {
                let x = pv.pos(k);
                pv.lemma_at(x);
            }
            if exists|x: int| 0 <= x < n && #[trigger] all[x].0@ == k {
                let x = choose|x: int| 0 <= x < n && #[trigger] all[x].0@ == k;
                pv.lemma_at(x);
            }
        }
        assert(global.as_map().dom() =~= g0.dom().union(pv.as_map().dom()));
        assert forall|k: Seq<char>| #[trigger] global.as_map().contains_key(k) implies global.as_map()[k] == if pv.as_map().contains_key(k) {
            pv.as_map()[k]
        } else {
            g0[k]
        } by {
            if pv.as_map().contains_key(k) {
                let x = pv.pos(k);
                pv.lemma_at(x);
                assert(global.as_map()[all[x].0@] == all[x].1);
            }
        }
    }
}

/// Asks the resolver for the names of each type used both as input and as
/// output (taken in order): a resolution whose names are the same is an
/// error, traced by the type's name. Otherwise, when the name is a type of
/// the configuration, it gets its resolution, and so does each output type
/// that an argument of its fields names, asked once for that type. Each
/// name's resolution is the one the resolver gave for it; when several types
/// ask for the same name, the last answer is kept. With no type used both
/// ways, nothing is asked and the resolutions are empty.
pub fn collect_resolutions<F: Fn(&str) -> Resolution>(
    resolver: &F,
    config: &Config,
    input_types: &StrSet,
    output_types: &StrSet,
) -> (r: Result<StrMap<Resolution>, Vec<Cause>>)
    requires
        config.wf(),
        input_types.wf(),
        output_types.wf(),
        forall|x: &str| call_requires(*resolver, (x,)),
    ensures
        r matches Ok(m) ==> {
            &&& m.wf()
            &&& m.as_map().dom() == names_from(config.types.as_map(), input_types.as_set(), output_types.as_set())
            &&& forall|k: Seq<char>| #[trigger] m.as_map().contains_key(k) ==> exists|s: &str|
                s@ == k && #[trigger] call_ensures(*resolver, (s,), m.as_map()[k])
        },
        r matches Err(e) ==> e@.len() > 0 && forall|x: int| 0 <= x < e@.len() ==> {
            &&& (#[trigger] e@[x]).trace@.len() == 1
            &&& is_conflict(input_types.as_set(), output_types.as_set(), e@[x].trace@[0]@)
            &&& exists|s: Seq<char>| e@[x].error@ == #[trigger] ambiguity_message(s, s)
        },
        (forall|n: Seq<char>| !is_conflict(input_types.as_set(), output_types.as_set(), n)) ==> (r matches Ok(m)
            && m.entries@.len() == 0),
{
    let ghost ins = input_types.as_set();
    let ghost outs = output_types.as_set();
    let ghost ts = config.types.as_map();
    let names = &input_types.items;
    let n = names.len();
    let mut global: StrMap<Resolution> = StrMap::new();
    let mut errs: Vec<Cause> = Vec::new();
    let ghost mut okset: Set<Seq<char>> = Set::empty();
    let mut i: usize = 0;
    proof {
        assert(names_from(ts, okset, outs) =~= Set::<Seq<char>>::empty());
        assert(global.as_map().dom() =~= Set::<Seq<char>>::empty());
    }
    while i < n
        invariant
            n == names@.len(),
            names == input_types.items,
            i <= n,
            input_types.wf(),
            output_types.wf(),
            config.wf(),
            ins == input_types.as_set(),
            outs == output_types.as_set(),
            ts == config.types.as_map(),
            forall|x: &str| call_requires(*resolver, (x,)),
            global.wf(),
            okset.subset_of(ins.intersect(outs)),
            forall|x: int| 0 <= x < i && is_conflict(ins, outs, names@[x]@) && errs@.len() == 0 ==> okset.contains(
                #[trigger] names@[x]@,
            ),
            forall|q: Seq<char>| #[trigger] okset.contains(q) ==> exists|x: int| 0 <= x < i && #[trigger] names@[x]@ == q,
            global.as_map().dom() == names_from(ts, okset, outs),
            forall|k: Seq<char>| #[trigger] global.as_map().contains_key(k) ==> exists|s: &str|
                s@ == k && #[trigger] call_ensures(*resolver, (s,), global.as_map()[k]),
            forall|x: int| 0 <= x < errs@.len() ==> {
                &&& (#[trigger] errs@[x]).trace@.len() == 1
                &&& is_conflict(ins, outs, errs@[x].trace@[0]@)
                &&& exists|s: Seq<char>| errs@[x].error@ == #[trigger] ambiguity_message(s, s)
            },
            (forall|q: Seq<char>| !is_conflict(ins, outs, q)) ==> errs@.len() == 0 && okset == Set::<Seq<char>>::empty(),
        decreases n - i,
    {
        let name = &names[i];
        let nm = name.as_str();
        if output_types.contains(nm) {
            proof {
                assert(ins.contains(name@));
            }
            let res = resolve_one(resolver, nm);
            if !res.is_unique() {
                let m1 = concat_str("Unable to auto resolve Input: ", res.input.as_str());
                let m2 = concat_str(m1.as_str(), " and Output: ");
                let m3 = concat_str(m2.as_str(), res.output.as_str());
                let msg = concat_str(m3.as_str(), " are same");
                proof {
                    assert(msg@ == ambiguity_message(res.input@, res.output@));
                }
                let ghost e0 = errs@;
                errs.push(Cause::new(msg).trace(name.as_str()));
                proof {
                    assert(is_conflict(ins, outs, name@));
                    assert forall|x: int| 0 <= x < errs@.len() implies {
                        &&& (#[trigger] errs@[x]).trace@.len() == 1
                        &&& is_conflict(ins, outs, errs@[x].trace@[0]@)
                        &&& exists|s: Seq<char>| errs@[x].error@ == #[trigger] ambiguity_message(s, s)
                    } by {
                        if x < e0.len() {
                            assert(errs@[x] == e0[x]);
                        } else {
                            assert(errs@[x].error@ == ambiguity_message(res.input@, res.output@));
                        }
                    }
                }
            } else {
                match config.find_type(name.as_str()) {
                    Some(ty) => {
                        let per = resolve_type_args(resolver, nm, res, ty, output_types);
                        let ghost g0 = global.as_map();
                        let ghost pm = per.as_map();
                        merge_into(&mut global, per);
                        proof {
                            assert forall|k: Seq<char>| #[trigger] global.as_map().contains_key(k) implies exists|s: &str|
                                s@ == k && #[trigger] call_ensures(*resolver, (s,), global.as_map()[k]) by {
                                if pm.contains_key(k) {
                                    assert(global.as_map()[k] == pm[k]);
                                } else {
                                    assert(g0.contains_key(k));
                                    assert(global.as_map()[k] == g0[k]);
                                }
                            }
                            let ok2 = okset.insert(name@);
                            assert(ts.contains_key(name@));
                            assert(*ty == ts[name@]);
                            assert(global.as_map().dom() =~= names_from(ts, ok2, outs)) by {
                                assert forall|k: Seq<char>| global.as_map().dom().contains(k) == names_from(ts, ok2, outs).contains(k) by {
                                    if names_from(ts, okset, outs).contains(k) {
                                        if !(okset.contains(k) && outs.contains(k) && ts.contains_key(k)) {
                                            let q = choose|q: Seq<char>| okset.contains(q) && outs.contains(q) && #[trigger] ts.contains_key(q)
                                                && fields_arg_types(ts[q].fields.entries@).contains(k);
                                            assert(ok2.contains(q));
                                        }
                                    }
                                    if names_from(ts, ok2, outs).contains(k) && k != name@ {
                                        if !(ok2.contains(k) && outs.contains(k) && ts.contains_key(k)) {
                                            let q = choose|q: Seq<char>| ok2.contains(q) && outs.contains(q) && #[trigger] ts.contains_key(q)
                                                && fields_arg_types(ts[q].fields.entries@).contains(k);
                                            if q != name@ {
                                                assert(names_from(ts, okset, outs).contains(k));
                                            }
                                        }
                                    }
                                }
                            }
                            okset = ok2;
                        }
                    },
                    None => {
                        proof {
                            let ok2 = okset.insert(name@);
                            assert(!ts.contains_key(name@));
                            assert(global.as_map().dom() =~= names_from(ts, ok2, outs)) by {
                                assert forall|k: Seq<char>| global.as_map().dom().contains(k) == names_from(ts, ok2, outs).contains(k) by {
                                    if names_from(ts, okset, outs).contains(k) {
                                        if !(okset.contains(k) && outs.contains(k) && ts.contains_key(k)) {
                                            let q = choose|q: Seq<char>| okset.contains(q) && outs.contains(q) && #[trigger] ts.contains_key(q)
                                                && fields_arg_types(ts[q].fields.entries@).contains(k);
                                            assert(ok2.contains(q));
                                        }
                                    }
                                    if names_from(ts, ok2, outs).contains(k) {
                                        if !(ok2.contains(k) && outs.contains(k) && ts.contains_key(k)) {
                                            let q = choose|q: Seq<char>| ok2.contains(q) && outs.contains(q) && #[trigger] ts.contains_key(q)
                                                && fields_arg_types(ts[q].fields.entries@).contains(k);
                                            assert(q != name@);
                                        }
                                    }
                                }
                            }
                            okset = ok2;
                        }
                    },
                }
            }
        }
        proof {
            assert forall|q: Seq<char>| #[trigger] okset.contains(q) implies exists|x: int| 0 <= x < i + 1 && #[trigger] names@[x]@ == q by {
                if q == name@ {
                    assert(names@[i as int]@ == q);
                } else {
                    let x = choose|x: int| 0 <= x < i && #[trigger] names@[x]@ == q;
                    assert(names@[x]@ == q);
                }
            }
        }
        i = i + 1;
    }
    if errs.len() > 0 {
        Err(errs)
    } else {
        proof {
            assert forall|q: Seq<char>| ins.contains(q) && outs.contains(q) implies okset.contains(q) by {
                let x = choose|x: int| 0 <= x < n && #[trigger] names@[x]@ == q;
                assert(okset.contains(names@[x]@));
            }
            assert(names_from(ts, okset, outs) =~= names_from(ts, ins, outs));
            if forall|q: Seq<char>| !is_conflict(ins, outs, q) {
                global.lemma_len();
                assert(global.as_map().dom() =~= Set::<Seq<char>>::empty());
            }
        }
        Ok(global)
    }
}

/// `rs` holds a resolution from the resolver for each name that gets one.
pub open spec fn resolutions_from<F: Fn(&str) -> Resolution>(
    resolver: F,
    c: Config,
    ins: Set<Seq<char>>,
    outs: Set<Seq<char>>,
    rs: StrMap<Resolution>,
) -> bool {
    &&& rs.wf()
    &&& rs.as_map().dom() == names_from(c.types.as_map(), ins, outs)
    &&& forall|k: Seq<char>| #[trigger] rs.as_map().contains_key(k) ==> exists|s: &str|
        s@ == k && #[trigger] call_ensures(resolver, (s,), rs.as_map()[k])
}

/// The resolution that keeps `name` for the output type and adds `Input`
/// for the input type.
pub fn default_resolution(name: &str) -> (r: Resolution)
    ensures
        r.input@ == name@ + "Input"@,
        r.output@ == name@,
{
    let input = concat_str(name, "Input");
    proof {
        reveal_strlit("Input");
    }
    Resolution { input, output: crate::strings::copy_str(name) }
}

/// Resolves the types used both as input and as output: the resolver gives
/// each such type an input name and an output name.
pub struct AmbiguousType<F> {
    resolver: F,
}

impl<F: Fn(&str) -> Resolution> AmbiguousType<F> {
    /// The resolver.
    pub closed spec fn resolver_fn(&self) -> F {
        self.resolver
    }

    /// The transformation with the resolver `resolver` (for instance
    /// `default_resolution`).
    pub fn new(resolver: F) -> (r: Self)
        ensures
            r.resolver_fn() == resolver,
    {
        AmbiguousType { resolver }
    }

    /// Resolves the types used both as input (`input_types`) and as output
    /// (`output_types`): when the resolver gives some such type the same
    /// input and output name, fails with a cause for each, traced by the
    /// type's name; otherwise applies the resolutions it gave (see
    /// `collect_resolutions` and `apply_resolutions`). With no type used both
    /// ways, nothing is renamed.
    pub fn transform(&self, config: Config, input_types: &StrSet, output_types: &StrSet) -> (r: Result<Config, Vec<Cause>>)
        requires
            config.wf(),
            input_types.wf(),
            output_types.wf(),
            forall|x: &str| call_requires(self.resolver_fn(), (x,)),
        ensures
            r matches Ok(c) ==> c.wf() && exists|rs: StrMap<Resolution>|
                #[trigger] resolutions_from(self.resolver_fn(), config, input_types.as_set(), output_types.as_set(), rs)
                    && resolved(config, c, input_types.as_set(), output_types.as_set(), rs),
            r matches Err(e) ==> e@.len() > 0 && forall|x: int| 0 <= x < e@.len() ==> {
                &&& (#[trigger] e@[x]).trace@.len() == 1
                &&& is_conflict(input_types.as_set(), output_types.as_set(), e@[x].trace@[0]@)
                &&& exists|s: Seq<char>| e@[x].error@ == #[trigger] ambiguity_message(s, s)
            },
            (forall|n: Seq<char>| !is_conflict(input_types.as_set(), output_types.as_set(), n)) ==> (r matches Ok(c)
                && exists|rs: StrMap<Resolution>| rs.entries@.len() == 0 && #[trigger] resolved(
                config,
                c,
                input_types.as_set(),
                output_types.as_set(),
                rs,
            )),
    {
        let ghost c0 = config;
        match collect_resolutions(&self.resolver, &config, input_types, output_types) {
            Ok(rs) => {
                let c = apply_resolutions(config, input_types, output_types, &rs);
                proof {
                    assert(resolutions_from(self.resolver_fn(), c0, input_types.as_set(), output_types.as_set(), rs));
                    assert(resolved(c0, c, input_types.as_set(), output_types.as_set(), rs));
                }
                Ok(c)
            },
            Err(e) => Err(e),
        }
    }
}

} // verus!
