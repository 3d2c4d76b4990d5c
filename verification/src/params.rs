//! Sets of named build parameters, and the parsing of `key:value`
//! filter arguments into them.

use vstd::prelude::*;
use vstd::string::StrSliceExecFns;

verus! {

/// The mapping that a sequence of key/value entries denotes; a later
/// entry for a key overrides an earlier one.
spec fn entries_map(s: Seq<(String, String)>) -> Map<Seq<char>, Seq<char>>
    decreases s.len(),
{
    if s.len() == 0 {
        Map::empty()
    } else {
        entries_map(s.drop_last()).insert(s.last().0@, s.last().1@)
    }
}

/// No two entries share a key.
spec fn unique_keys(s: Seq<(String, String)>) -> bool {
    forall|i: int, j: int| 0 <= i < j < s.len() ==> s[i].0@ != s[j].0@
}

/// Every binding of `small` also holds in `big`.
pub open spec fn is_submap(small: Map<Seq<char>, Seq<char>>, big: Map<Seq<char>, Seq<char>>) -> bool {
    forall|k: Seq<char>| #[trigger]
        small.contains_key(k) ==> big.contains_key(k) && small[k] == big[k]
}

/// A set of named build parameters: unique string keys, string values.
///
/// One value of this type states what a build carries, another what a
/// caller asks for; the two are never merged.
pub struct JobParams {
    entries: Vec<(String, String)>,
}

impl View for JobParams {
    type V = Map<Seq<char>, Seq<char>>;

    closed spec fn view(&self) -> Map<Seq<char>, Seq<char>> {
        entries_map(self.entries@)
    }
}

proof fn lemma_absent_key(s: Seq<(String, String)>, k: Seq<char>)
    requires
        forall|j: int| 0 <= j < s.len() ==> s[j].0@ != k,
    ensures
        !entries_map(s).contains_key(k),
    decreases s.len(),
{
    if s.len() > 0 {
        assert forall|j: int| 0 <= j < s.drop_last().len() implies s.drop_last()[j].0@ != k by {
            assert(s.drop_last()[j] == s[j]);
        }
        lemma_absent_key(s.drop_last(), k);
    }
}

proof fn lemma_present_key(s: Seq<(String, String)>, j: int)
    requires
        unique_keys(s),
        0 <= j < s.len(),
    ensures
        entries_map(s).contains_key(s[j].0@),
        entries_map(s)[s[j].0@] == s[j].1@,
    decreases s.len(),
{
    if j < s.len() - 1 {
        assert forall|a: int, b: int|
            0 <= a < b < s.drop_last().len() implies s.drop_last()[a].0@
            != s.drop_last()[b].0@ by {
            assert(s.drop_last()[a] == s[a]);
            assert(s.drop_last()[b] == s[b]);
        }
        lemma_present_key(s.drop_last(), j);
        assert(s.drop_last()[j] == s[j]);
        assert(s.last().0@ != s[j].0@);
    }
}

impl JobParams {
    /// The stored entries carry no duplicate keys.
    pub closed spec fn wf(&self) -> bool {
        unique_keys(self.entries@)
    }

    /// The empty parameter set.
    pub fn new() -> (r: JobParams)
        ensures
            r.wf(),
            r@ == Map::<Seq<char>, Seq<char>>::empty(),
    {
        JobParams { entries: Vec::new() }
    }

    /// Binds `key` to `value`; an existing binding of the same key is
    /// replaced.
    pub fn insert(&mut self, key: String, value: String)
        requires
            old(self).wf(),
        ensures
            final(self).wf(),
            final(self)@ == old(self)@.insert(key@, value@),
    {
        let n = self.entries.len();
        let mut i: usize = 0;
        while i < n
            invariant
                *self == *old(self),
                old(self).wf(),
                n == self.entries@.len(),
                forall|j: int| 0 <= j < i ==> self.entries@[j].0@ != key@,
            decreases n - i,
        {
            let hit = self.entries[i].0 == key;
            if hit {
                let ghost s = self.entries@;
                let ghost k = s[i as int].0@;
                let _ = self.entries.remove(i);
                self.entries.push((key, value));
                proof {
                    lemma_remove_entry(s, i as int);
                    assert(self.entries@.drop_last() =~= s.remove(i as int));
                    assert(self.entries@.last() == (key, value));
                    assert(entries_map(self.entries@) =~= entries_map(s).insert(key@, value@));
                    assert forall|a: int, b: int|
                        0 <= a < b < self.entries@.len() implies self.entries@[a].0@
                        != self.entries@[b].0@ by {
                        if b < self.entries@.len() - 1 {
                            assert(self.entries@[a] == if a < i { s[a] } else { s[a + 1] });
                            assert(self.entries@[b] == if b < i { s[b] } else { s[b + 1] });
                        } else {
                            assert(self.entries@[a] == if a < i { s[a] } else { s[a + 1] });
                            assert(self.entries@[b].0@ == k);
                        }
                    }
                }
                return ;
            }
            i += 1;
        }
        self.entries.push((key, value));
        proof {
            let s = old(self).entries@;
            assert(self.entries@.drop_last() =~= s);
            assert forall|a: int, b: int|
                0 <= a < b < self.entries@.len() implies self.entries@[a].0@
                != self.entries@[b].0@ by {
                if b < self.entries@.len() - 1 {
                    assert(self.entries@[a] == s[a]);
                    assert(self.entries@[b] == s[b]);
                } else {
                    assert(self.entries@[a] == s[a]);
                }
            }
        }
    }

    /// Looks a key up; the result follows the map this set denotes.
    pub fn get(&self, key: &String) -> (r: Option<&String>)
        requires
            self.wf(),
        ensures
            match r {
                Some(v) => self@.contains_key(key@) && self@[key@] == v@,
                None => !self@.contains_key(key@),
            },
    {
        let n = self.entries.len();
        let mut i: usize = 0;
        while i < n
            invariant
                self.wf(),
                n == self.entries@.len(),
                forall|j: int| 0 <= j < i ==> self.entries@[j].0@ != key@,
            decreases n - i,
        {
            let hit = self.entries[i].0 == *key;
            if hit {
                proof {
                    lemma_present_key(self.entries@, i as int);
                }
                return Some(&self.entries[i].1);
            }
            i += 1;
        }
        proof {
            lemma_absent_key(self.entries@, key@);
        }
        None
    }

    /// True exactly when every binding of this set also holds in
    /// `other`: the submap test that filter evaluation rests on.
    pub fn subset_of(&self, other: &JobParams) -> (r: bool)
        requires
            self.wf(),
            other.wf(),
        ensures
            r == is_submap(self@, other@),
    {
        let n = self.entries.len();
        let mut i: usize = 0;
        while i < n
            invariant
                self.wf(),
                other.wf(),
                n == self.entries@.len(),
                forall|j: int|
                    0 <= j < i ==> other@.contains_key(#[trigger] self.entries@[j].0@)
                        && other@[self.entries@[j].0@] == self.entries@[j].1@,
            decreases n - i,
        {
            proof {
                lemma_present_key(self.entries@, i as int);
            }
            let e = &self.entries[i];
            match other.get(&e.0) {
                Some(v) => {
                    let same = *v == e.1;
                    if !same {
                        return false;
                    }
                },
                None => {
                    return false;
                },
            }
            i += 1;
        }
        proof {
            assert forall|k: Seq<char>| #[trigger]
                self@.contains_key(k) implies other@.contains_key(k) && self@[k]
                == other@[k] by {
                if forall|j: int| 0 <= j < self.entries@.len() ==> self.entries@[j].0@ != k {
                    lemma_absent_key(self.entries@, k);
                } else {
                    let j = choose|j: int|
                        0 <= j < self.entries@.len() && self.entries@[j].0@ == k;
                    lemma_present_key(self.entries@, j);
                }
            }
        }
        true
    }
}

proof fn lemma_remove_entry(s: Seq<(String, String)>, i: int)
    requires
        unique_keys(s),
        0 <= i < s.len(),
    ensures
        entries_map(s.remove(i)) =~= entries_map(s).remove(s[i].0@),
    decreases s.len(),
{
    let k = s[i].0@;
    if i == s.len() - 1 {
        assert(s.remove(i) =~= s.drop_last());
        assert forall|j: int| 0 <= j < s.drop_last().len() implies s.drop_last()[j].0@ != k by {
            assert(s.drop_last()[j] == s[j]);
        }
        lemma_absent_key(s.drop_last(), k);
        assert(entries_map(s.remove(i)) =~= entries_map(s).remove(k));
    } else {
        assert forall|a: int, b: int|
            0 <= a < b < s.drop_last().len() implies s.drop_last()[a].0@
            != s.drop_last()[b].0@ by {
            assert(s.drop_last()[a] == s[a]);
            assert(s.drop_last()[b] == s[b]);
        }
        lemma_remove_entry(s.drop_last(), i);
        assert(s.remove(i).drop_last() =~= s.drop_last().remove(i));
        assert(s.remove(i).last() == s.last());
        assert(s.last().0@ != k);
        assert(entries_map(s.remove(i)) =~= entries_map(s).remove(k));
    }
}

/// The position of the first colon of `s`, or its length where none
/// occurs.
pub open spec fn first_colon(s: Seq<char>) -> int
    decreases s.len(),
{
    if s.len() == 0 {
        0
    } else if s.first() == ':' {
        0
    } else {
        1 + first_colon(s.drop_first())
    }
}

/// The key of a `key:value` filter argument: what stands before its
/// first colon.
pub open spec fn filter_key(s: Seq<char>) -> Seq<char> {
    s.take(first_colon(s))
}

/// The value of a `key:value` filter argument: what stands between its
/// first colon and the next one, or the end where there is no second.
pub open spec fn filter_value(s: Seq<char>) -> Seq<char> {
    let rest = s.skip(first_colon(s) + 1);
    rest.take(first_colon(rest))
}

/// The filter set that a list of `key:value` arguments denotes; a
/// later argument for a key overrides an earlier one.
pub open spec fn parsed_filters(vs: Seq<String>) -> Map<Seq<char>, Seq<char>>
    decreases vs.len(),
{
    if vs.len() == 0 {
        Map::empty()
    } else {
        parsed_filters(vs.drop_last()).insert(
            filter_key(vs.last()@),
            filter_value(vs.last()@),
        )
    }
}

proof fn lemma_first_colon_is(s: Seq<char>, i: int)
    requires
        0 <= i <= s.len(),
        forall|j: int| 0 <= j < i ==> s[j] != ':',
        i < s.len() ==> s[i] == ':',
    ensures
        first_colon(s) == i,
    decreases i,
{
    if i > 0 {
        assert forall|j: int| 0 <= j < i - 1 implies s.drop_first()[j] != ':' by {
            assert(s.drop_first()[j] == s[j + 1]);
        }
        assert(i - 1 < s.drop_first().len() ==> s.drop_first()[i - 1] == ':');
        lemma_first_colon_is(s.drop_first(), i - 1);
    }
}

/// The position of the first colon of `s` at or after `start`, or the
/// length of `s` where none occurs there.
fn find_colon(s: &str, start: usize) -> (r: usize)
    requires
        start <= s@.len(),
    ensures
        start <= r <= s@.len(),
        forall|j: int| start <= j < r ==> s@[j] != ':',
        r < s@.len() ==> s@[r as int] == ':',
{
    let n = s.unicode_len();
    let mut i: usize = start;
    while i < n
        invariant
            n == s@.len(),
            start <= i <= n,
            forall|j: int| start <= j < i ==> s@[j] != ':',
        decreases n - i,
    {
        let c = s.get_char(i);
        if c == ':' {
            return i;
        }
        i += 1;
    }
    n
}

/// Accepts a filter argument exactly when it holds a colon, so that it
/// can be read as a `key:value` pair.
pub fn has_equals(v: String) -> (r: Result<(), String>)
    ensures
        r is Ok <==> v@.contains(':'),
        r matches Err(m) ==> m@ == "Must be a key:value pair"@,
{
    let i = find_colon(v.as_str(), 0);
    let n = v.as_str().unicode_len();
    if i < n {
        proof {
            assert(v@[i as int] == ':');
            assert(v@.contains(':'));
        }
        Ok(())
    } else {
        proof {
            assert(forall|j: int| 0 <= j < v@.len() ==> v@[j] != ':');
            assert(!v@.contains(':'));
        }
        Err("Must be a key:value pair".to_owned())
    }
}

/// Reads a list of `key:value` arguments into a filter set: the key is
/// what stands before the first colon, the value what follows it up to
/// the next colon or the end.  A later argument for a key wins.
pub fn make_params(values: &Vec<String>) -> (r: JobParams)
    requires
        forall|i: int| 0 <= i < values@.len() ==> values@[i]@.contains(':'),
    ensures
        r.wf(),
        r@ == parsed_filters(values@),
{
    let mut params = JobParams::new();
    let mut idx: usize = 0;
    proof {
        assert(params@ =~= parsed_filters(values@.take(0)));
    }
    while idx < values.len()
        invariant
            forall|i: int| 0 <= i < values@.len() ==> values@[i]@.contains(':'),
            0 <= idx <= values@.len(),
            params.wf(),
            params@ == parsed_filters(values@.take(idx as int)),
        decreases values@.len() - idx,
    {
        let sl = values[idx].as_str();
        let ghost sv = values@[idx as int]@;
        let n = sl.unicode_len();
        let i = find_colon(sl, 0);
        proof {
            if i == n {
                let w = choose|w: int| 0 <= w < sv.len() && sv[w] == ':';
                assert(sv[w] != ':');
            }
            lemma_first_colon_is(sv, i as int);
        }
        let key = sl.substring_char(0, i).to_owned();
        let j = find_colon(sl, i + 1);
        let ghost rest = sv.skip(i + 1);
        proof {
            assert forall|t: int| 0 <= t < j - (i + 1) implies rest[t] != ':' by {
                assert(rest[t] == sv[i + 1 + t]);
            }
            if j < n {
                assert(rest[j - (i + 1)] == sv[j as int]);
            }
            lemma_first_colon_is(rest, j - (i + 1));
        }
        let value = sl.substring_char(i + 1, j).to_owned();
        proof {
            assert(key@ =~= filter_key(sv));
            assert(value@ =~= filter_value(sv));
        }
        params.insert(key, value);
        proof {
            assert(values@.take(idx + 1).drop_last() =~= values@.take(idx as int));
            assert(values@.take(idx + 1).last() == values@[idx as int]);
        }
        idx += 1;
    }
    proof {
        assert(values@.take(values@.len() as int) =~= values@);
    }
    params
}

} // verus!
