//! The build matcher: scans a job's build list, in the order the
//! server gave it, and picks the builds that satisfy a filter.
//!
//! Each list entry carries the build number of the stub and the
//! outcome of resolving it to full detail: resolving a scheduled build
//! can legitimately fail, so an entry may hold no detail.  The
//! opportunistic scans pass such entries over; the lookup by number
//! reports the failure, since the caller asked for that very build.

use vstd::prelude::*;
use crate::builds::BuildDetail;
use crate::builds::satisfies;
use crate::params::JobParams;

verus! {

/// One entry of a job's build list: the stub's number, and the build's
/// full detail where resolving the stub succeeded.
pub struct StubOutcome {
    pub number: u32,
    pub detail: Option<BuildDetail>,
}

/// What a lookup by build number found; the three ways of coming back
/// empty-handed are told apart for the caller's diagnostics.
pub enum ByNumberOutcome {
    /// The build exists, resolved, and satisfies the filter.
    Found(BuildDetail),
    /// The build exists and resolved, but does not satisfy the filter.
    FilterMismatch,
    /// The build exists but could not be resolved to full detail.
    ResolutionFailed,
    /// No build of that number is in the list.
    NotFound,
}

/// The first entry, in list order, that resolved and satisfies the
/// filter; entries that failed to resolve are passed over.
pub open spec fn first_match(
    stubs: Seq<StubOutcome>,
    filter: Map<Seq<char>, Seq<char>>,
) -> Option<BuildDetail>
    decreases stubs.len(),
{
    if stubs.len() == 0 {
        None
    } else {
        match stubs.first().detail {
            Some(b) => if satisfies(b, filter) {
                Some(b)
            } else {
                first_match(stubs.drop_first(), filter)
            },
            None => first_match(stubs.drop_first(), filter),
        }
    }
}

/// Exactly the resolved entries that satisfy the filter, in list
/// order.
pub open spec fn matching_details(
    stubs: Seq<StubOutcome>,
    filter: Map<Seq<char>, Seq<char>>,
) -> Seq<BuildDetail>
    decreases stubs.len(),
{
    if stubs.len() == 0 {
        Seq::empty()
    } else {
        let rest = matching_details(stubs.drop_first(), filter);
        match stubs.first().detail {
            Some(b) => if satisfies(b, filter) {
                seq![b] + rest
            } else {
                rest
            },
            None => rest,
        }
    }
}

/// What a lookup decides at the first entry whose number is the target:
/// missing detail is a failure, a resolved build is judged by the
/// filter, and a list without the number yields nothing.
pub open spec fn by_number_outcome(
    stubs: Seq<StubOutcome>,
    nr: u32,
    filter: Map<Seq<char>, Seq<char>>,
) -> ByNumberOutcome
    decreases stubs.len(),
{
    if stubs.len() == 0 {
        ByNumberOutcome::NotFound
    } else if stubs.first().number == nr {
        match stubs.first().detail {
            Some(b) => if satisfies(b, filter) {
                ByNumberOutcome::Found(b)
            } else {
                ByNumberOutcome::FilterMismatch
            },
            None => ByNumberOutcome::ResolutionFailed,
        }
    } else {
        by_number_outcome(stubs.drop_first(), nr, filter)
    }
}

/// Returns the first build, in the order the server listed them, that
/// resolved and satisfies the filter; entries whose resolution failed
/// never end the scan, and a list with no match yields nothing rather
/// than an error.
pub fn find_build_by_parameter(builds: Vec<StubOutcome>, px: &JobParams) -> (r: Option<
    BuildDetail,
>)
    requires
        px.wf(),
    ensures
        r == first_match(builds@, px@),
{
    let mut rem = builds;
    while rem.len() > 0
        invariant
            px.wf(),
            first_match(builds@, px@) == first_match(rem@, px@),
        decreases rem@.len(),
    {
        let ghost prev = rem@;
        let st = rem.remove(0);
        proof {
            assert(rem@ =~= prev.drop_first());
        }
        match st.detail {
            Some(b) => {
                if crate::builds::build_satisfies_params(&b, px) {
                    return Some(b);
                }
            },
            None => {},
        }
    }
    None
}

/// Returns every build, in the order the server listed them, that
/// resolved and satisfies the filter: the matching subsequence of the
/// resolvable builds, with nothing added, dropped or reordered.
pub fn find_builds_by_parameter(builds: Vec<StubOutcome>, px: &JobParams) -> (r: Vec<BuildDetail>)
    requires
        px.wf(),
    ensures
        r@ == matching_details(builds@, px@),
{
    let mut rem = builds;
    let mut out: Vec<BuildDetail> = Vec::new();
    proof {
        assert(out@ + matching_details(rem@, px@) =~= matching_details(builds@, px@));
    }
    while rem.len() > 0
        invariant
            px.wf(),
            out@ + matching_details(rem@, px@) == matching_details(builds@, px@),
        decreases rem@.len(),
    {
        let ghost prev = rem@;
        let ghost sofar = out@;
        let st = rem.remove(0);
        proof {
            assert(rem@ =~= prev.drop_first());
        }
        match st.detail {
            Some(b) => {
                if crate::builds::build_satisfies_params(&b, px) {
                    let ghost bb = b;
                    out.push(b);
                    proof {
                        assert(matching_details(prev, px@) == seq![bb] + matching_details(
                            rem@,
                            px@,
                        ));
                        assert(sofar + (seq![bb] + matching_details(rem@, px@)) =~= out@
                            + matching_details(rem@, px@));
                    }
                }
            },
            None => {},
        }
    }
    proof {
        assert(out@ + matching_details(rem@, px@) =~= out@);
    }
    out
}

/// Looks the target build number up: a stub of that number whose
/// resolution failed is reported as such, a resolved build is judged
/// by the filter, and an absent number is told apart from a mismatch.
pub fn find_build_by_nr(builds: Vec<StubOutcome>, nr: u32, px: &JobParams) -> (r: ByNumberOutcome)
    requires
        px.wf(),
    ensures
        r == by_number_outcome(builds@, nr, px@),
{
    let mut rem = builds;
    while rem.len() > 0
        invariant
            px.wf(),
            by_number_outcome(builds@, nr, px@) == by_number_outcome(rem@, nr, px@),
        decreases rem@.len(),
    {
        let ghost prev = rem@;
        let st = rem.remove(0);
        proof {
            assert(rem@ =~= prev.drop_first());
        }
        if st.number == nr {
            match st.detail {
                Some(b) => {
                    if crate::builds::build_satisfies_params(&b, px) {
                        return ByNumberOutcome::Found(b);
                    } else {
                        return ByNumberOutcome::FilterMismatch;
                    }
                },
                None => {
                    return ByNumberOutcome::ResolutionFailed;
                },
            }
        }
    }
    ByNumberOutcome::NotFound
}

/// The first match is the earliest of all matches: what the
/// opportunistic scan returns is exactly the head of the matching
/// subsequence, and nothing when no build matches.
pub proof fn lemma_first_match_is_earliest(
    stubs: Seq<StubOutcome>,
    filter: Map<Seq<char>, Seq<char>>,
)
    ensures
        first_match(stubs, filter) == (if matching_details(stubs, filter).len() == 0 {
            Option::<BuildDetail>::None
        } else {
            Option::Some(matching_details(stubs, filter).first())
        }),
    decreases stubs.len(),
{
    if stubs.len() > 0 {
        lemma_first_match_is_earliest(stubs.drop_first(), filter);
    }
}

/// An entry whose resolution failed changes nothing: inserting it at
/// any place of the list leaves both scans' results as they were.
pub proof fn lemma_unresolved_entries_are_skipped(
    stubs: Seq<StubOutcome>,
    filter: Map<Seq<char>, Seq<char>>,
    i: int,
    st: StubOutcome,
)
    requires
        st.detail is None,
        0 <= i <= stubs.len(),
    ensures
        first_match(stubs.insert(i, st), filter) == first_match(stubs, filter),
        matching_details(stubs.insert(i, st), filter) == matching_details(stubs, filter),
    decreases stubs.len(),
{
    let grown = stubs.insert(i, st);
    if i == 0 {
        assert(grown.first() == st);
        assert(grown.drop_first() =~= stubs);
    } else {
        assert(grown.first() == stubs.first());
        assert(grown.drop_first() =~= stubs.drop_first().insert(i - 1, st));
        lemma_unresolved_entries_are_skipped(stubs.drop_first(), filter, i - 1, st);
    }
}

/// A present stub whose resolution failed is an error, not a silent
/// miss: the lookup reports the failure.
pub proof fn lemma_by_number_resolution_failure(
    stubs: Seq<StubOutcome>,
    nr: u32,
    filter: Map<Seq<char>, Seq<char>>,
    i: int,
)
    requires
        0 <= i < stubs.len(),
        stubs[i].number == nr,
        stubs[i].detail is None,
        forall|j: int| 0 <= j < i ==> stubs[j].number != nr,
    ensures
        by_number_outcome(stubs, nr, filter) is ResolutionFailed,
    decreases i,
{
    if i > 0 {
        assert forall|j: int| 0 <= j < i - 1 implies stubs.drop_first()[j].number != nr by {
            assert(stubs.drop_first()[j] == stubs[j + 1]);
        }
        lemma_by_number_resolution_failure(stubs.drop_first(), nr, filter, i - 1);
    }
}

/// A resolved build of the right number that fails the filter is a
/// mismatch, told apart from an absent number.
pub proof fn lemma_by_number_filter_mismatch(
    stubs: Seq<StubOutcome>,
    nr: u32,
    filter: Map<Seq<char>, Seq<char>>,
    i: int,
    b: BuildDetail,
)
    requires
        0 <= i < stubs.len(),
        stubs[i].number == nr,
        stubs[i].detail == Some(b),
        !satisfies(b, filter),
        forall|j: int| 0 <= j < i ==> stubs[j].number != nr,
    ensures
        by_number_outcome(stubs, nr, filter) is FilterMismatch,
    decreases i,
{
    if i > 0 {
        assert forall|j: int| 0 <= j < i - 1 implies stubs.drop_first()[j].number != nr by {
            assert(stubs.drop_first()[j] == stubs[j + 1]);
        }
        lemma_by_number_filter_mismatch(stubs.drop_first(), nr, filter, i - 1, b);
    }
}

/// A number that no stub carries comes back as not found.
pub proof fn lemma_by_number_absent(
    stubs: Seq<StubOutcome>,
    nr: u32,
    filter: Map<Seq<char>, Seq<char>>,
)
    requires
        forall|j: int| 0 <= j < stubs.len() ==> stubs[j].number != nr,
    ensures
        by_number_outcome(stubs, nr, filter) is NotFound,
    decreases stubs.len(),
{
    if stubs.len() > 0 {
        assert forall|j: int| 0 <= j < stubs.drop_first().len() implies stubs.drop_first()[j].number
            != nr by {
            assert(stubs.drop_first()[j] == stubs[j + 1]);
        }
        lemma_by_number_absent(stubs.drop_first(), nr, filter);
    }
}

} // verus!
