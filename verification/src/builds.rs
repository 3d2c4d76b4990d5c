//! Resolved builds: their metadata, the typed action list they carry,
//! the extraction of string parameters from it, and the filter test.

use vstd::prelude::*;
use crate::params::JobParams;
use crate::params::is_submap;

verus! {

/// One parameter found in a build's actions, already decoded to a
/// typed value.  Only string-typed parameters take part in filtering.
pub enum ParamValue {
    StringValue(String),
    BoolValue(bool),
    OtherValue,
}

/// A named parameter of a build.
pub struct RawParam {
    pub name: String,
    pub value: ParamValue,
}

/// One entry of a build's action list: either a parameters action
/// carrying named parameters, or anything else.
pub enum Action {
    Parameters(Vec<RawParam>),
    Other,
}

/// The terminal status of a build.
#[derive(Clone, Copy, PartialEq, Eq, Structural, Debug)]
pub enum BuildResult {
    Success,
    Failure,
    Unstable,
    Aborted,
    Running,
    Unknown,
}

/// A fully resolved build.
pub struct BuildDetail {
    pub number: u32,
    pub timestamp: u64,
    pub queue_id: i32,
    pub url: String,
    pub result: BuildResult,
    pub actions: Vec<Action>,
}

/// The string parameters that a parameter list denotes; a later entry
/// for a name wins, and non-string values are passed over.
pub open spec fn string_params(ps: Seq<RawParam>) -> Map<Seq<char>, Seq<char>>
    decreases ps.len(),
{
    if ps.len() == 0 {
        Map::empty()
    } else {
        let m = string_params(ps.drop_last());
        match ps.last().value {
            ParamValue::StringValue(v) => m.insert(ps.last().name@, v@),
            _ => m,
        }
    }
}

/// The string parameters that one action contributes.
pub open spec fn action_params(a: Action) -> Map<Seq<char>, Seq<char>> {
    match a {
        Action::Parameters(ps) => string_params(ps@),
        Action::Other => Map::empty(),
    }
}

/// The string parameters of a whole action list; a later action's
/// binding for a name overrides an earlier one's.
pub open spec fn extracted_params(actions: Seq<Action>) -> Map<Seq<char>, Seq<char>>
    decreases actions.len(),
{
    if actions.len() == 0 {
        Map::empty()
    } else {
        extracted_params(actions.drop_last()).union_prefer_right(
            action_params(actions.last()),
        )
    }
}

/// The parameter set of a build.
pub open spec fn build_params(b: BuildDetail) -> Map<Seq<char>, Seq<char>> {
    extracted_params(b.actions@)
}

/// A build satisfies a filter exactly when every filter entry is
/// present, with an identical value, among the build's string
/// parameters.  Extra parameters of the build are ignored.
pub open spec fn satisfies(b: BuildDetail, filter: Map<Seq<char>, Seq<char>>) -> bool {
    is_submap(filter, build_params(b))
}

/// Collects the string-typed parameters of a build's action list;
/// never fails, and yields the empty set when no parameters action is
/// present.
pub fn get_string_params(b: &BuildDetail) -> (r: JobParams)
    ensures
        r.wf(),
        r@ == build_params(*b),
{
    let mut res = JobParams::new();
    let n = b.actions.len();
    let mut i: usize = 0;
    proof {
        assert(res@ =~= extracted_params(b.actions@.take(0)));
    }
    while i < n
        invariant
            n == b.actions@.len(),
            0 <= i <= n,
            res.wf(),
            res@ == extracted_params(b.actions@.take(i as int)),
        decreases n - i,
    {
        match &b.actions[i] {
            Action::Parameters(ps) => {
                let m = ps.len();
                let mut j: usize = 0;
                proof {
                    assert(string_params(ps@.take(0)) =~= Map::<Seq<char>, Seq<char>>::empty());
                    assert(res@ =~= extracted_params(b.actions@.take(i as int))
                        .union_prefer_right(string_params(ps@.take(0))));
                }
                while j < m
                    invariant
                        n == b.actions@.len(),
                        0 <= i < n,
                        m == ps@.len(),
                        0 <= j <= m,
                        b.actions@[i as int] matches Action::Parameters(q) && q@ == ps@,
                        res.wf(),
                        res@ == extracted_params(b.actions@.take(i as int))
                            .union_prefer_right(string_params(ps@.take(j as int))),
                    decreases m - j,
                {
                    match &ps[j].value {
                        ParamValue::StringValue(v) => {
                            res.insert(ps[j].name.clone(), v.clone());
                        },
                        _ => {},
                    }
                    proof {
                        assert(ps@.take(j + 1).drop_last() =~= ps@.take(j as int));
                        assert(ps@.take(j + 1).last() == ps@[j as int]);
                        let base = extracted_params(b.actions@.take(i as int));
                        match ps@[j as int].value {
                            ParamValue::StringValue(v) => {
                                assert(res@ =~= base.union_prefer_right(
                                    string_params(ps@.take(j + 1)),
                                ));
                            },
                            _ => {
                                assert(res@ =~= base.union_prefer_right(
                                    string_params(ps@.take(j + 1)),
                                ));
                            },
                        }
                    }
                    j += 1;
                }
                proof {
                    assert(ps@.take(m as int) =~= ps@);
                }
            },
            Action::Other => {
                proof {
                    assert(res@ =~= extracted_params(b.actions@.take(i as int))
                        .union_prefer_right(action_params(b.actions@[i as int])));
                }
            },
        }
        proof {
            assert(b.actions@.take(i + 1).drop_last() =~= b.actions@.take(i as int));
            assert(b.actions@.take(i + 1).last() == b.actions@[i as int]);
            assert(res@ =~= extracted_params(b.actions@.take(i + 1)));
        }
        i += 1;
    }
    proof {
        assert(b.actions@.take(n as int) =~= b.actions@);
    }
    res
}

/// Decides whether a build satisfies a filter: every requested key
/// must exist among the build's string parameters with an equal value.
pub fn build_satisfies_params(b: &BuildDetail, px: &JobParams) -> (r: bool)
    requires
        px.wf(),
    ensures
        r == satisfies(*b, px@),
{
    let params = get_string_params(b);
    px.subset_of(&params)
}

/// The empty filter is satisfied by every build.
pub proof fn lemma_empty_filter_satisfies(b: BuildDetail)
    ensures
        satisfies(b, Map::empty()),
{
    assert forall|k: Seq<char>| #[trigger]
        Map::<Seq<char>, Seq<char>>::empty().contains_key(k) implies build_params(b).contains_key(
        k,
    ) && Map::<Seq<char>, Seq<char>>::empty()[k] == build_params(b)[k] by {
        assert(!Map::<Seq<char>, Seq<char>>::empty().dom().contains(k));
    }
}

/// A filter that asks for a key the build's parameters lack is never
/// satisfied.
pub proof fn lemma_missing_key_fails(b: BuildDetail, filter: Map<Seq<char>, Seq<char>>, k: Seq<char>)
    requires
        filter.contains_key(k),
        !build_params(b).contains_key(k),
    ensures
        !satisfies(b, filter),
{
}

/// A one-entry filter is satisfied exactly when the build carries that
/// key with that very value; in particular a differing value fails.
pub proof fn lemma_single_entry_filter(b: BuildDetail, k: Seq<char>, v: Seq<char>)
    ensures
        satisfies(b, Map::empty().insert(k, v)) <==> (build_params(b).contains_key(k)
            && build_params(b)[k] == v),
        build_params(b).contains_key(k) && build_params(b)[k] != v ==> !satisfies(
            b,
            Map::empty().insert(k, v),
        ),
{
    let f = Map::<Seq<char>, Seq<char>>::empty().insert(k, v);
    assert(f.dom() =~= Set::empty().insert(k));
    assert(f.contains_key(k));
    assert(f[k] == v);
    if build_params(b).contains_key(k) && build_params(b)[k] == v {
        assert forall|x: Seq<char>| #[trigger]
            f.contains_key(x) implies build_params(b).contains_key(x) && f[x] == build_params(
            b,
        )[x] by {
            assert(x == k);
        }
    }
}

/// Extraction draws on the string-typed parameters alone: dropping
/// every non-string parameter from a list leaves its extracted set
/// unchanged.
pub proof fn lemma_extraction_ignores_nonstring(ps: Seq<RawParam>)
    ensures
        string_params(ps) == string_params(
            ps.filter(|p: RawParam| p.value is StringValue),
        ),
    decreases ps.len(),
{
    reveal(Seq::filter);
    let keep = |p: RawParam| p.value is StringValue;
    if ps.len() == 0 {
        assert(ps.filter(keep) =~= ps);
    } else {
        lemma_extraction_ignores_nonstring(ps.drop_last());
        assert(ps.filter(keep) == if keep(ps.last()) {
            ps.drop_last().filter(keep).push(ps.last())
        } else {
            ps.drop_last().filter(keep)
        });
        if keep(ps.last()) {
            assert(ps.drop_last().filter(keep).push(ps.last()).drop_last() =~= ps.drop_last()
                .filter(keep));
            assert(string_params(ps) =~= string_params(ps.filter(keep)));
        } else {
            assert(string_params(ps) =~= string_params(ps.filter(keep)));
        }
    }
}

impl BuildDetail {
    /// The start of the build in whole seconds, from its epoch
    /// milliseconds; always fits a signed 64-bit count.
    pub fn timestamp_secs(&self) -> (r: i64)
        ensures
            r == self.timestamp as int / 1000,
    {
        let s: u64 = self.timestamp / 1000;
        proof {
            assert(s <= u64::MAX as int / 1000) by {
                vstd::arithmetic::div_mod::lemma_div_is_ordered(
                    self.timestamp as int,
                    u64::MAX as int,
                    1000,
                );
            }
        }
        s as i64
    }
}

} // verus!
