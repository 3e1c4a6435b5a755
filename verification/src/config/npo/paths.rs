//! Paths of fields through a configuration, and the paths along which a
//! resolver can issue N + 1 upstream calls.

use vstd::prelude::*;
use crate::config::Config;

verus! {

/// Whether `path`, a list of field names, can be followed from type `start`:
/// each name is a field of the type the previous field returns.
pub open spec fn field_path_ok(config: Config, start: Seq<char>, path: Seq<Seq<char>>) -> bool
    decreases path.len(),
{
    if path.len() == 0 {
        true
    } else {
        config.has_field(start, path[0]) && field_path_ok(
            config,
            config.field_spec(start, path[0]).type_of@,
            path.drop_first(),
        )
    }
}

/// The type that following `path` from `start` ends at.
pub open spec fn path_end(config: Config, start: Seq<char>, path: Seq<Seq<char>>) -> Seq<char>
    decreases path.len(),
{
    if path.len() == 0 {
        start
    } else {
        path_end(config, config.field_spec(start, path[0]).type_of@, path.drop_first())
    }
}

/// Whether some field along `path` from `start` returns a list.
pub open spec fn path_has_list(config: Config, start: Seq<char>, path: Seq<Seq<char>>) -> bool
    decreases path.len(),
{
    if path.len() == 0 {
        false
    } else {
        config.field_spec(start, path[0]).list || path_has_list(
            config,
            config.field_spec(start, path[0]).type_of@,
            path.drop_first(),
        )
    }
}

/// A path from `root` whose last field has a resolver that is not batched,
/// reached through a list returned by an earlier field.
pub open spec fn npo_path(config: Config, root: Seq<char>, path: Seq<Seq<char>>) -> bool {
    &&& path.len() > 0
    &&& field_path_ok(config, root, path)
    &&& path_has_list(config, root, path.drop_last())
    &&& config.field_spec(path_end(config, root, path.drop_last()), path.last()).spec_has_resolver()
    &&& !config.field_spec(
        path_end(config, root, path.drop_last()),
        path.last(),
    ).spec_has_batched_resolver()
}

/// Extending a path by one field of the type it ends at.
pub proof fn lemma_path_push(config: Config, start: Seq<char>, path: Seq<Seq<char>>, f: Seq<char>)
    requires
        field_path_ok(config, start, path),
        config.has_field(path_end(config, start, path), f),
    ensures
        field_path_ok(config, start, path.push(f)),
        path.push(f).drop_last() == path,
        path_end(config, start, path.push(f)) == config.field_spec(path_end(config, start, path), f).type_of@,
        path_has_list(config, start, path.push(f)) == (path_has_list(config, start, path)
            || config.field_spec(path_end(config, start, path), f).list),
    decreases path.len(),
{
    assert(path.push(f).drop_last() =~= path);
    if path.len() == 0 {
        let t = config.field_spec(start, f).type_of@;
        assert(path.push(f).drop_first() =~= Seq::<Seq<char>>::empty());
        assert(path.push(f)[0] == f);
        assert(field_path_ok(config, t, Seq::<Seq<char>>::empty()));
        assert(path_end(config, t, Seq::<Seq<char>>::empty()) == t);
        assert(!path_has_list(config, t, Seq::<Seq<char>>::empty()));
    } else {
        let next = config.field_spec(start, path[0]).type_of@;
        lemma_path_push(config, next, path.drop_first(), f);
        assert(path.push(f).drop_first() =~= path.drop_first().push(f));
        assert(path.push(f)[0] == path[0]);
        assert(path.push(f).len() > 0);
    }
}

} // verus!
