//! Finding dependencies by name, and taking feature requirements apart.

use crate::error::GraphError;
use crate::metadata::Dependency;
use crate::metadata::NodeDep;
use crate::model::declared_as;
use crate::model::first_slash;
use crate::model::spec_find_dep;
use crate::model::spec_find_resolved;
use crate::names::name_cmp;
use crate::names::names_match;
use vstd::prelude::*;
use vstd::std_specs::iter::IteratorSpec;
use vstd::string::StrSliceExecFns;

verus! {

/// The first declared dependency that goes by `name`: by its rename where it
/// has one, else by its own name.
pub fn find_dep_by_name<'a>(deps: &'a Vec<Dependency>, name: &str) -> (r: Result<
    &'a Dependency,
    GraphError,
>)
    ensures
        match spec_find_dep(deps@, name@) {
            Some(i) => r is Ok && *r->Ok_0 == deps@[i],
            None => r == Err::<&Dependency, GraphError>(GraphError::NameNotFound),
        },
{
    let mut i: usize = 0;
    while i < deps.len()
        invariant
            i <= deps@.len(),
            forall|j: int| 0 <= j < i ==> !declared_as(#[trigger] deps@[j], name@),
        decreases deps@.len() - i,
    {
        let d = &deps[i];
        let hit = match &d.rename {
            Some(rename) => name_cmp(rename.as_str(), name),
            None => name_cmp(d.name.as_str(), name),
        };
        if hit {
            proof {
                assert(declared_as(*d, name@));
                let w = spec_find_dep(deps@, name@)->0;
                if w < i {
                    assert(!declared_as(deps@[w], name@));
                }
                assert(w == i);
            }
            return Ok(d);
        }
        i += 1;
    }
    Err(GraphError::NameNotFound)
}

/// The first resolved dependency that goes by `name`.
pub fn find_resolved_by_name<'a>(deps: &'a Vec<NodeDep>, name: &str) -> (r: Option<&'a NodeDep>)
    ensures
        match spec_find_resolved(deps@, name@) {
            Some(i) => r is Some && *r->0 == deps@[i],
            None => r is None,
        },
{
    let mut i: usize = 0;
    while i < deps.len()
        invariant
            i <= deps@.len(),
            forall|j: int| 0 <= j < i ==> !names_match(name@, (#[trigger] deps@[j]).name@),
        decreases deps@.len() - i,
    {
        let d = &deps[i];
        if name_cmp(name, d.name.as_str()) {
            proof {
                assert(names_match(name@, d.name@));
                let w = spec_find_resolved(deps@, name@)->0;
                if w < i {
                    assert(!names_match(name@, deps@[w].name@));
                }
                assert(w == i);
            }
            return Some(d);
        }
        i += 1;
    }
    None
}

/// Splits a feature requirement at its first `/` into the name of a
/// dependency and the name of one of its features. A requirement without `/`
/// is not split.
pub fn split_requirement<'s>(s: &'s str) -> (r: Option<(&'s str, &'s str)>)
    ensures
        match first_slash(s@) {
            Some(at) => r is Some && (r->0).0@ == s@.subrange(0, at) && (r->0).1@ == s@.subrange(
                at + 1,
                s@.len() as int,
            ),
            None => r is None,
        },
{
    let n = s.unicode_len();
    let mut chars = s.chars();
    let mut at: usize = 0;
    loop
        invariant
            n == s@.len(),
            at <= s@.len(),
            chars.remaining() == s@.subrange(at as int, s@.len() as int),
            forall|j: int| 0 <= j < at ==> #[trigger] s@[j] != '/',
        decreases s@.len() - at,
    {
        match chars.next() {
            None => {
                return None;
            },
            Some(c) => {
                if c == '/' {
                    proof {
                        assert(s@[at as int] == '/');
                        let w = first_slash(s@)->0;
                        if w < at {
                            assert(s@[w] != '/');
                        }
                        assert(w == at);
                    }
                    let head = s.substring_char(0, at);
                    let tail = s.substring_char(at + 1, n);
                    return Some((head, tail));
                }
                at += 1;
            },
        }
    }
}

} // verus!
