//! The query paths that can issue N + 1 upstream calls.

use vstd::prelude::*;
use crate::config::npo::chunk::Chunk;
use crate::config::npo::identifier::{names, FieldName};
use crate::strings::concat_str;

verus! {

/// Represents a list of query paths that can issue a N + 1 query.
pub struct Queries<'a>(pub Vec<Vec<&'a str>>);

impl<'a> Queries<'a> {
    /// The characters of the names in path `i`.
    pub open spec fn path_spec(self, i: int) -> Seq<Seq<char>> {
        str_names(self.0@[i]@)
    }

    /// The number of paths.
    pub fn size(&self) -> (r: usize)
        ensures
            r == self.0@.len(),
    {
        self.0.len()
    }

    /// The paths of a chunk of paths, each with its names in chunk order.
    pub fn from_chunk(chunk: Chunk<Chunk<FieldName<'a>>>) -> (r: Queries<'a>)
        ensures
            r.0@.len() == chunk.items().len(),
            forall|i: int| 0 <= i < r.0@.len() ==> #[trigger] r.path_spec(i) == names(chunk.items()[i].items()),
    {
        let outer = chunk.as_vec();
        let mut paths: Vec<Vec<&'a str>> = Vec::new();
        let n = outer.len();
        let mut i: usize = 0;
        while i < n
            invariant
                n == outer@.len(),
                n == chunk.items().len(),
                forall|j: int| 0 <= j < n ==> *outer@[j] == chunk.items()[j],
                i <= n,
                paths@.len() == i,
                forall|j: int| 0 <= j < i ==> #[trigger] str_names(paths@[j]@) == names(chunk.items()[j].items()),
            decreases n - i,
        {
            let inner = outer[i].as_vec();
            let mut path: Vec<&'a str> = Vec::new();
            let m = inner.len();
            let mut j: usize = 0;
            while j < m
                invariant
                    m == inner@.len(),
                    m == outer@[i as int].items().len(),
                    forall|k: int| 0 <= k < m ==> *inner@[k] == outer@[i as int].items()[k],
                    j <= m,
                    path@.len() == j,
                    forall|k: int| 0 <= k < j ==> path@[k]@ == outer@[i as int].items()[k].0@,
                decreases m - j,
            {
                path.push(inner[j].as_str());
                j = j + 1;
            }
            assert(str_names(path@) =~= names(chunk.items()[i as int].items()));
            paths.push(path);
            i = i + 1;
        }
        Queries(paths)
    }

    /// The paths as GraphQL queries, one per line: each path, folded from its
    /// last name to its first, nests every name around the text built so far.
    pub fn to_query_string(&self) -> (r: String)
        ensures
            r@ == join_lines(Seq::new(self.0@.len(), |i: int| query_text(self.path_spec(i)))),
    {
        let n = self.0.len();
        let mut lines: Vec<String> = Vec::new();
        let mut i: usize = 0;
        while i < n
            invariant
                n == self.0@.len(),
                i <= n,
                lines@.len() == i,
                forall|j: int| 0 <= j < i ==> #[trigger] lines@[j]@ == query_text(self.path_spec(j)),
            decreases n - i,
        {
            let body = nest_names(&self.0[i]);
            let mut s = concat_str("query { ", body.as_str());
            s = concat_str(s.as_str(), " }");
            proof {
                reveal_strlit("query { ");
                reveal_strlit(" }");
            }
            lines.push(s);
            i = i + 1;
        }
        let r = join_strings(&lines);
        assert(Seq::new(lines@.len(), |j: int| lines@[j]@) =~= Seq::new(self.0@.len(), |j: int| query_text(self.path_spec(j))));
        r
    }
}

/// The characters of a list of names.
pub open spec fn str_names(v: Seq<&str>) -> Seq<Seq<char>> {
    v.map_values(|s: &str| s@)
}

/// Names folded from the last to the first: the last name alone, then each
/// earlier name wrapped around what was built.
pub open spec fn nested(s: Seq<Seq<char>>) -> Seq<char>
    decreases s.len(),
{
    if s.len() == 0 {
        Seq::empty()
    } else {
        let rest = nested(s.drop_first());
        if rest.len() == 0 {
            s[0]
        } else {
            s[0] + " { "@ + rest + " }"@
        }
    }
}

/// The query for one path.
pub open spec fn query_text(s: Seq<Seq<char>>) -> Seq<char> {
    "query { "@ + nested(s) + " }"@
}

/// Lines joined by newlines.
pub open spec fn join_lines(s: Seq<Seq<char>>) -> Seq<char>
    decreases s.len(),
{
    if s.len() == 0 {
        Seq::empty()
    } else if s.len() == 1 {
        s[0]
    } else {
        join_lines(s.drop_last()) + "\n"@ + s.last()
    }
}

pub(crate) fn nest_names(v: &Vec<&str>) -> (r: String)
    ensures
        r@ == nested(str_names(v@)),
{
    let ghost sv = str_names(v@);
    let n = v.len();
    let mut acc = String::new();
    let mut i: usize = n;
    assert(sv.skip(n as int) =~= Seq::empty());
    while i > 0
        invariant
            n == v@.len(),
            sv == str_names(v@),
            i <= n,
            acc@ == nested(sv.skip(i as int)),
        decreases i,
    {
        i = i - 1;
        assert(sv.skip(i as int).drop_first() =~= sv.skip(i + 1));
        assert(sv.skip(i as int)[0] == v@[i as int]@);
        if acc.as_str().unicode_len() == 0 {
            acc = crate::strings::copy_str(v[i]);
        } else {
            let mut s = concat_str(v[i], " { ");
            s = concat_str(s.as_str(), acc.as_str());
            s = concat_str(s.as_str(), " }");
            proof {
                reveal_strlit(" { ");
                reveal_strlit(" }");
            }
            acc = s;
        }
    }
    assert(sv.skip(0) =~= sv);
    acc
}

pub(crate) fn join_strings(v: &Vec<String>) -> (r: String)
    ensures
        r@ == join_lines(Seq::new(v@.len(), |i: int| v@[i]@)),
{
    let ghost sv = Seq::new(v@.len(), |i: int| v@[i]@);
    let n = v.len();
    let mut acc = String::new();
    let mut i: usize = 0;
    while i < n
        invariant
            n == v@.len(),
            sv == Seq::new(v@.len(), |i: int| v@[i]@),
            i <= n,
            acc@ == join_lines(sv.take(i as int)),
        decreases n - i,
    {
        assert(sv.take(i + 1).drop_last() =~= sv.take(i as int));
        if i == 0 {
            acc = crate::strings::copy_str(v[i].as_str());
            assert(sv.take(1) =~= seq![v@[0]@]);
        } else {
            let s = concat_str(acc.as_str(), "\n");
            acc = concat_str(s.as_str(), v[i].as_str());
            proof {
                reveal_strlit("\n");
            }
        }
        i = i + 1;
    }
    assert(sv.take(n as int) =~= sv);
    acc
}

} // verus!
