//! Decomposition of a full test name into its scope and its leaf name.
//!
//! A test name is a path whose segments are joined by the two-character
//! separator `::`.  The scan for separators runs left to right and does not
//! overlap: in `a:::b` the separator is the pair starting after `a`, and the
//! remaining `:` belongs to the leaf.  The leaf is the final segment, the
//! scope is everything before the final separator (empty when the name has a
//! single segment).

use vstd::prelude::*;
use vstd::string::StrSliceExecFns;
use vstd::string::StringExecFns;

verus! {

/// The two characters at `i` form the scope separator `::`.
pub open spec fn sep_at(s: Seq<char>, i: int) -> bool {
    &&& 0 <= i
    &&& i + 2 <= s.len()
    &&& s[i] == ':'
    &&& s[i + 1] == ':'
}

/// The left-to-right, non-overlapping scan finds at least one separator.
pub open spec fn has_sep(s: Seq<char>) -> bool
    decreases s.len(),
{
    if s.len() < 2 {
        false
    } else if s[0] == ':' && s[1] == ':' {
        true
    } else {
        has_sep(s.skip(1))
    }
}

/// The leaf segment: what follows the last separator of the scan.
pub open spec fn leaf_of(s: Seq<char>) -> Seq<char>
    decreases s.len(),
{
    if !has_sep(s) {
        s
    } else if s[0] == ':' && s[1] == ':' {
        leaf_of(s.skip(2))
    } else {
        leaf_of(s.skip(1))
    }
}

/// The scope: the segments before the leaf, joined again by the separator.
pub open spec fn scope_of(s: Seq<char>) -> Seq<char>
    decreases s.len(),
{
    if !has_sep(s) {
        Seq::empty()
    } else if s[0] == ':' && s[1] == ':' {
        if has_sep(s.skip(2)) {
            s.take(2) + scope_of(s.skip(2))
        } else {
            Seq::empty()
        }
    } else {
        seq![s[0]] + scope_of(s.skip(1))
    }
}

/// A string without a separator pair is a single segment: it is its own
/// leaf and its scope is empty.
pub proof fn lemma_no_sep(s: Seq<char>)
    requires
        forall|k: int| 0 <= k && k + 2 <= s.len() ==> !sep_at(s, k),
    ensures
        !has_sep(s),
        leaf_of(s) == s,
        scope_of(s) == Seq::<char>::empty(),
    decreases s.len(),
{
    if s.len() >= 2 {
        assert(!sep_at(s, 0));
        assert(forall|k: int| 0 <= k && k + 2 <= s.skip(1).len() ==> !sep_at(s.skip(1), k)) by {
            assert forall|k: int| 0 <= k && k + 2 <= s.skip(1).len() implies !sep_at(s.skip(1), k) by {
                assert(s.skip(1)[k] == s[k + 1]);
                assert(s.skip(1)[k + 1] == s[k + 2]);
                assert(!sep_at(s, k + 1));
            }
        }
        lemma_no_sep(s.skip(1));
    }
}

/// Crossing the first separator of the scan: when it sits at `j`, the leaf
/// lies wholly in what follows it, and the scope is the prefix up to `j`,
/// extended through the separator when further separators follow.
pub proof fn lemma_advance(s: Seq<char>, j: int)
    requires
        sep_at(s, j),
        forall|k: int| 0 <= k < j ==> !sep_at(s, k),
    ensures
        has_sep(s),
        leaf_of(s) == leaf_of(s.skip(j + 2)),
        scope_of(s) == if has_sep(s.skip(j + 2)) {
            s.take(j + 2) + scope_of(s.skip(j + 2))
        } else {
            s.take(j)
        },
    decreases j,
{
    if j == 0 {
        assert(s.skip(0int + 2) == s.skip(2));
        if has_sep(s.skip(2)) {
            assert(scope_of(s) == s.take(2) + scope_of(s.skip(2)));
        } else {
            assert(s.take(0) =~= Seq::<char>::empty());
        }
    } else {
        assert(!sep_at(s, 0));
        let t = s.skip(1);
        assert forall|k: int| 0 <= k < j - 1 implies !sep_at(t, k) by {
            assert(t[k] == s[k + 1]);
            assert(t[k + 1] == s[k + 2]);
            assert(!sep_at(s, k + 1));
        }
        assert(t[j - 1] == s[j]);
        assert(t[j - 1 + 1] == s[j + 1]);
        assert(sep_at(t, j - 1));
        lemma_advance(t, j - 1);
        assert(t.skip(j - 1 + 2) =~= s.skip(j + 2));
        assert(leaf_of(s) == leaf_of(t));
        assert(seq![s[0]] + t.take(j - 1 + 2) =~= s.take(j + 2));
        assert(seq![s[0]] + t.take(j - 1) =~= s.take(j));
        if has_sep(s.skip(j + 2)) {
            assert(scope_of(s) == seq![s[0]] + (t.take(j + 1) + scope_of(t.skip(j + 1))));
            assert(seq![s[0]] + (t.take(j + 1) + scope_of(t.skip(j + 1))) =~= (seq![s[0]]
                + t.take(j + 1)) + scope_of(s.skip(j + 2)));
        }
    }
}

/// Split a full test name into its scope and its leaf name.
pub fn split_name(name: &str) -> (r: (String, String))
    ensures
        r.0@ == scope_of(name@),
        r.1@ == leaf_of(name@),
{
    let n = name.unicode_len();
    let mut i: usize = 0;
    // Start of the final segment found so far: two past the last separator.
    let mut lb: Option<usize> = None;
    proof {
        assert(name@.skip(0) =~= name@);
        assert(name@.take(0) + scope_of(name@) =~= scope_of(name@));
    }
    while n >= 2 && i < n - 1
        invariant
            n == name@.len(),
            i <= n,
            lb is Some ==> sep_at(name@, lb->0 as int),
            forall|k: int|
                seg_start(lb) <= k && k + 2 <= n && k < i ==> !sep_at(name@, k),
            seg_start(lb) <= i,
            leaf_of(name@) == leaf_of(name@.skip(seg_start(lb))),
            scope_of(name@) == if has_sep(name@.skip(seg_start(lb))) {
                name@.take(seg_start(lb)) + scope_of(name@.skip(seg_start(lb)))
            } else {
                match lb {
                    None => Seq::<char>::empty(),
                    Some(b) => name@.take(b as int),
                }
            },
        decreases n - i,
    {
        if name.get_char(i) == ':' && name.get_char(i + 1) == ':' {
            proof {
                let s = name@;
                let start = seg_start(lb);
                let t = s.skip(start);
                let j = i - start;
                assert forall|k: int| 0 <= k < j implies !sep_at(t, k) by {
                    assert(t[k] == s[start + k]);
                    assert(t[k + 1] == s[start + k + 1]);
                    assert(!sep_at(s, start + k));
                }
                assert(t[j] == s[i as int]);
                assert(t[j + 1] == s[i + 1]);
                assert(sep_at(t, j));
                lemma_advance(t, j);
                assert(t.skip(j + 2) =~= s.skip(i + 2));
                assert(s.take(start) + t.take(j + 2) =~= s.take(i + 2));
                assert(s.take(start) + t.take(j) =~= s.take(i as int));
                if has_sep(s.skip(i + 2)) {
                    assert(s.take(start) + (t.take(j + 2) + scope_of(t.skip(j + 2))) =~= (s.take(
                        start,
                    ) + t.take(j + 2)) + scope_of(s.skip(i + 2)));
                }
            }
            lb = Some(i);
            i = i + 2;
        } else {
            i = i + 1;
        }
    }
    proof {
        let s = name@;
        let start = seg_start(lb);
        let t = s.skip(start);
        assert forall|k: int| 0 <= k && k + 2 <= t.len() implies !sep_at(t, k) by {
            assert(t[k] == s[start + k]);
            assert(t[k + 1] == s[start + k + 1]);
            assert(!sep_at(s, start + k));
        }
        lemma_no_sep(t);
    }
    match lb {
        None => {
            let scope = String::new();
            let leaf = String::from_str(name);
            proof {
                assert(name@.skip(0) =~= name@);
            }
            (scope, leaf)
        },
        Some(b) => {
            let scope = String::from_str(name.substring_char(0, b));
            let leaf = String::from_str(name.substring_char(b + 2, n));
            proof {
                assert(name@.subrange(0, b as int) =~= name@.take(b as int));
                assert(name@.subrange(b + 2, n as int) =~= name@.skip(b + 2));
            }
            (scope, leaf)
        },
    }
}

/// Start of the current final segment: two past the last separator found.
pub open spec fn seg_start(lb: Option<usize>) -> int {
    match lb {
        None => 0,
        Some(b) => b + 2,
    }
}

} // verus!
