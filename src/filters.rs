//! The filters of a variant record: `PASS`, or the set of filters that the record failed.

use indexmap::IndexSet;
use vstd::prelude::*;
use vstd::string::*;

verus! {

#[verifier::external_type_specification]
#[verifier::external_body]
#[verifier::reject_recursive_types(T)]
#[verifier::reject_recursive_types(S)]
pub struct ExIndexSet<T, S>(IndexSet<T, S>);

/// The names that a set of filters holds, in insertion order.
pub uninterp spec fn filter_names(s: IndexSet<String>) -> Seq<Seq<char>>;

/// Relies on `IndexSet::new`: a new set is empty.
#[verifier::external_body]
fn new_filter_set() -> (r: IndexSet<String>)
    ensures
        filter_names(r) == Seq::<Seq<char>>::empty(),
{
    IndexSet::new()
}

/// Relies on `IndexSet::insert`: an item not yet in the set is added last and `true` is
/// returned; an equal item leaves the set as it was and `false` is returned.
#[verifier::external_body]
fn insert_filter(set: &mut IndexSet<String>, value: String) -> (r: bool)
    ensures
        r == !filter_names(*old(set)).contains(value@),
        r ==> filter_names(*final(set)) == filter_names(*old(set)).push(value@),
        !r ==> filter_names(*final(set)) == filter_names(*old(set)),
{
    set.insert(value)
}

/// VCF record filters (`FILTER`).
#[derive(Debug, Eq, PartialEq)]
pub enum Filters {
    /// Pass (`PASS`).
    Pass,
    /// A list of filters that caused the record to fail.
    Fail(IndexSet<String>),
}

/// An error returned when raw VCF filters fail to convert.
#[derive(Clone, Debug, Eq, PartialEq)]
pub enum TryFromIteratorError {
    /// The input is empty.
    Empty,
    /// A filter is duplicated.
    DuplicateFilter(String),
    /// A filter is invalid.
    InvalidFilter(String),
}

/// Whether a character is ASCII whitespace (space, tab, line feed, form feed, carriage return).
pub open spec fn is_ascii_whitespace(c: char) -> bool {
    c == ' ' || c == '\t' || c == '\n' || c == '\x0C' || c == '\r'
}

/// A filter name is valid when it is neither empty nor `0` and holds no whitespace.
pub open spec fn valid_filter(s: Seq<char>) -> bool {
    &&& s.len() > 0
    &&& s != seq!['0']
    &&& forall|i: int| 0 <= i < s.len() ==> !is_ascii_whitespace(#[trigger] s[i])
}

/// Whether `s` is a valid filter name.
pub fn is_valid_filter(s: &str) -> (r: bool)
    ensures
        r == valid_filter(s@),
{
    let n = s.unicode_len();
    if n == 0 {
        return false;
    }
    if n == 1 && s.get_char(0) == '0' {
        assert(s@ =~= seq!['0']);
        return false;
    }
    let mut i: usize = 0;
    while i < n
        invariant
            n == s@.len(),
            i <= n,
            forall|j: int| 0 <= j < i ==> !is_ascii_whitespace(#[trigger] s@[j]),
        decreases n - i,
    {
        let c = s.get_char(i);
        if c == ' ' || c == '\t' || c == '\n' || c == '\x0C' || c == '\r' {
            return false;
        }
        i = i + 1;
    }
    proof {
        if s@ == seq!['0'] {
            assert(s@[0] == '0');
        }
    }
    true
}

/// Whether name `i` of `v` repeats an earlier name or is invalid.
pub open spec fn first_bad(v: Seq<Seq<char>>, i: int) -> bool {
    (exists|j: int| 0 <= j < i && v[j] == v[i]) || !valid_filter(v[i])
}

impl Filters {
    /// Builds filters from names: a single `PASS` is `Pass`; otherwise the names are the
    /// failed filters, in order. The names must be distinct and valid, and there must be at
    /// least one; the first name that repeats an earlier one or is invalid is reported.
    pub fn try_from_iter(values: &Vec<String>) -> (r: Result<Filters, TryFromIteratorError>)
        ensures
            ({
                let v = Seq::new(values@.len(), |i: int| values@[i]@);
                &&& r is Ok <==> v.len() > 0 && forall|i: int| 0 <= i < v.len() ==> !first_bad(v, i)
                &&& r matches Ok(Filters::Pass) ==> v == seq![seq!['P', 'A', 'S', 'S']]
                &&& r matches Ok(Filters::Fail(set)) ==> filter_names(set) == v && v != seq![
                    seq!['P', 'A', 'S', 'S'],
                ]
                &&& r matches Err(TryFromIteratorError::Empty) ==> v.len() == 0
                &&& r matches Err(TryFromIteratorError::DuplicateFilter(s)) ==> exists|i: int|
                    0 <= i < v.len() && first_bad(v, i) && (forall|j: int|
                        0 <= j < i ==> !first_bad(v, j)) && (exists|j: int|
                        0 <= j < i && v[j] == v[i]) && s@ == v[i]
                &&& r matches Err(TryFromIteratorError::InvalidFilter(s)) ==> exists|i: int|
                    0 <= i < v.len() && first_bad(v, i) && (forall|j: int|
                        0 <= j < i ==> !first_bad(v, j)) && !(exists|j: int|
                        0 <= j < i && v[j] == v[i]) && s@ == v[i]
            }),
    {
        let ghost v = Seq::new(values@.len(), |i: int| values@[i]@);
        let mut filters = new_filter_set();
        let mut i: usize = 0;
        while i < values.len()
            invariant
                v == Seq::new(values@.len(), |i: int| values@[i]@),
                i <= values@.len(),
                filter_names(filters) == v.subrange(0, i as int),
                forall|j: int| 0 <= j < i ==> !first_bad(v, j),
            decreases values@.len() - i,
        {
            let s = &values[i];
            let ghost seen = v.subrange(0, i as int);
            let inserted = insert_filter(&mut filters, s.clone());
            if !inserted {
                proof {
                    let k = choose|k: int| 0 <= k < seen.len() && seen[k] == s@;
                    assert(v[k] == v[i as int]);
                    assert(first_bad(v, i as int));
                }
                return Err(TryFromIteratorError::DuplicateFilter(s.clone()));
            } else if !is_valid_filter(s.as_str()) {
                proof {
                    assert forall|j: int| 0 <= j < i implies v[j] != v[i as int] by {
                        assert(seen[j] == v[j]);
                    }
                    assert(first_bad(v, i as int));
                }
                return Err(TryFromIteratorError::InvalidFilter(s.clone()));
            }
            proof {
                assert forall|j: int| 0 <= j < i implies v[j] != v[i as int] by {
                    assert(seen[j] == v[j]);
                }
                assert(v.subrange(0, i + 1) =~= seen.push(v[i as int]));
            }
            i = i + 1;
        }
        assert(v.subrange(0, values@.len() as int) =~= v);
        if values.len() == 0 {
            Err(TryFromIteratorError::Empty)
        } else if values.len() == 1 && values[0].as_str().unicode_len() == 4 && values[0].as_str().get_char(0) == 'P'
            && values[0].as_str().get_char(1) == 'A' && values[0].as_str().get_char(2) == 'S'
            && values[0].as_str().get_char(3) == 'S' {
            assert(v[0] =~= seq!['P', 'A', 'S', 'S']);
            assert(v =~= seq![seq!['P', 'A', 'S', 'S']]);
            Ok(Filters::Pass)
        } else {
            proof {
                if v == seq![seq!['P', 'A', 'S', 'S']] {
                    assert(values@[0]@ == v[0]);
                }
            }
            Ok(Filters::Fail(filters))
        }
    }
}

} // verus!
