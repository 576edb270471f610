//! Platform predicates and their evaluation.
//!
//! A dependency can be restricted to the target platforms that satisfy a
//! predicate: a `cfg(..)` expression or a target triple. Whether a platform
//! satisfies a predicate is decided by the `target-spec` crate.

use crate::metadata::DepKindInfo;
use vstd::prelude::*;

verus! {

/// What `target_spec::eval` makes of a predicate and a platform: whether the
/// platform satisfies the predicate, or nothing where the evaluation fails or
/// its result is unknown.
pub uninterp spec fn platform_eval(predicate: Seq<char>, platform: Seq<char>) -> Option<bool>;

/// `target_spec::eval`: evaluates a predicate for a platform. A failed
/// evaluation and an unknown result both come back as `None`.
#[verifier::external_body]
pub(crate) fn eval_platform(predicate: &str, platform: &str) -> (r: Option<bool>)
    ensures
        r == platform_eval(predicate@, platform@),
{
    match target_spec::eval(predicate, platform) {
        Ok(known) => known,
        Err(_) => None,
    }
}

/// Whether one kind of a link applies on a platform. A kind without predicate
/// applies everywhere.
pub open spec fn kind_applies(kind: DepKindInfo, platform: &str) -> Option<bool> {
    match kind.target {
        None => Some(true),
        Some(t) => platform_eval(t@, platform@),
    }
}

/// Whether one of the kinds from `i` on applies on a platform. The kinds are
/// tried in order, up to the first that applies; a kind that cannot be
/// evaluated before that makes the whole question fail.
pub open spec fn any_applies(kinds: Seq<DepKindInfo>, platform: &str, i: int) -> Option<bool>
    decreases kinds.len() - i,
{
    if i < 0 || i >= kinds.len() {
        Some(false)
    } else {
        match kind_applies(kinds[i], platform) {
            None => None,
            Some(true) => Some(true),
            Some(false) => any_applies(kinds, platform, i + 1),
        }
    }
}

/// Whether a link holds on a platform: always where it has no kinds, else
/// where one of its kinds applies.
pub open spec fn link_holds(kinds: Seq<DepKindInfo>, platform: &str) -> Option<bool> {
    if kinds.len() == 0 {
        Some(true)
    } else {
        any_applies(kinds, platform, 0)
    }
}

/// Those of the first `n` platforms on which a link holds, in their order.
pub open spec fn filter_platforms<'a>(kinds: Seq<DepKindInfo>, platforms: Seq<&'a str>, n: int) -> Option<
    Seq<&'a str>,
>
    decreases n,
{
    if n <= 0 {
        Some(Seq::empty())
    } else {
        match filter_platforms(kinds, platforms, n - 1) {
            None => None,
            Some(kept) => match link_holds(kinds, platforms[n - 1]) {
                None => None,
                Some(true) => Some(kept.push(platforms[n - 1])),
                Some(false) => Some(kept),
            },
        }
    }
}

/// Those of the platforms on which a link holds.
pub open spec fn allowed_platforms<'a>(kinds: Seq<DepKindInfo>, platforms: Seq<&'a str>) -> Option<
    Seq<&'a str>,
> {
    filter_platforms(kinds, platforms, platforms.len() as int)
}

/// Once the filter has failed, it stays failed.
pub proof fn lemma_filter_sticky(kinds: Seq<DepKindInfo>, platforms: Seq<&str>, k: int, n: int)
    requires
        0 <= k <= n,
        filter_platforms(kinds, platforms, k) is None,
    ensures
        filter_platforms(kinds, platforms, n) is None,
    decreases n - k,
{
    if k < n {
        lemma_filter_sticky(kinds, platforms, k, n - 1);
    }
}

/// Whether every platform of a list is one of the platforms of another.
pub open spec fn within(list: Seq<&str>, platforms: Seq<&str>) -> bool {
    forall|k: int| 0 <= k < list.len() ==> platforms.contains(#[trigger] list[k])
}

/// What the filter keeps is taken from the platforms that it was given.
pub proof fn lemma_filter_within(kinds: Seq<DepKindInfo>, platforms: Seq<&str>, n: int)
    requires
        0 <= n <= platforms.len(),
        filter_platforms(kinds, platforms, n) is Some,
    ensures
        within(filter_platforms(kinds, platforms, n)->0, platforms),
    decreases n,
{
    if n > 0 {
        lemma_filter_within(kinds, platforms, n - 1);
        assert(platforms.contains(platforms[n - 1]));
    }
}

/// A list within a list within a third list is within the third.
pub proof fn lemma_within_trans(a: Seq<&str>, b: Seq<&str>, c: Seq<&str>)
    requires
        within(a, b),
        within(b, c),
    ensures
        within(a, c),
{
    assert forall|k: int| 0 <= k < a.len() implies c.contains(#[trigger] a[k]) by {
        assert(b.contains(a[k]));
        let j = choose|j: int| 0 <= j < b.len() && b[j] == a[k];
        assert(c.contains(b[j]));
    }
}

/// Whether a link holds on a platform.
pub fn holds_on(kinds: &[DepKindInfo], platform: &str) -> (r: Option<bool>)
    ensures
        r == link_holds(kinds@, platform),
{
    if kinds.len() == 0 {
        return Some(true);
    }
    let mut i: usize = 0;
    while i < kinds.len()
        invariant
            i <= kinds@.len(),
            any_applies(kinds@, platform, i as int) == any_applies(kinds@, platform, 0),
        decreases kinds@.len() - i,
    {
        let applies = match &kinds[i].target {
            None => Some(true),
            Some(t) => eval_platform(t.as_str(), platform),
        };
        match applies {
            None => {
                return None;
            },
            Some(true) => {
                return Some(true);
            },
            Some(false) => {},
        }
        i += 1;
    }
    Some(false)
}

/// Those of the platforms on which a link holds, in their order, or nothing
/// where the link cannot be evaluated for one of them.
pub fn keep_allowed<'a>(kinds: &[DepKindInfo], platforms: &Vec<&'a str>) -> (r: Option<Vec<&'a str>>)
    ensures
        match allowed_platforms(kinds@, platforms@) {
            Some(kept) => r is Some && r->0@ == kept,
            None => r is None,
        },
{
    let mut kept: Vec<&'a str> = Vec::new();
    let mut i: usize = 0;
    while i < platforms.len()
        invariant
            i <= platforms@.len(),
            filter_platforms(kinds@, platforms@, i as int) == Some(kept@),
        decreases platforms@.len() - i,
    {
        match holds_on(kinds, platforms[i]) {
            None => {
                proof {
                    lemma_filter_sticky(kinds@, platforms@, i + 1, platforms@.len() as int);
                }
                return None;
            },
            Some(true) => {
                kept.push(platforms[i]);
            },
            Some(false) => {},
        }
        i += 1;
    }
    Some(kept)
}

/// A copy of a list of platforms.
pub fn copy_platforms<'a>(platforms: &Vec<&'a str>) -> (r: Vec<&'a str>)
    ensures
        r@ == platforms@,
{
    let mut copy: Vec<&'a str> = Vec::new();
    let mut i: usize = 0;
    while i < platforms.len()
        invariant
            i <= platforms@.len(),
            copy@ == platforms@.subrange(0, i as int),
        decreases platforms@.len() - i,
    {
        copy.push(platforms[i]);
        proof {
            assert(platforms@.subrange(0, i + 1) =~= platforms@.subrange(0, i as int).push(
                platforms@[i as int],
            ));
        }
        i += 1;
    }
    proof {
        assert(platforms@.subrange(0, platforms@.len() as int) =~= platforms@);
    }
    copy
}

} // verus!
