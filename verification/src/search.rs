//! The search subsystem: four circular scans over the table, strict and
//! fuzzy, on the key ("left") side and on the chain ("right") side.
//!
//! All four share one traversal: normalise the start index modulo the table
//! size, then visit exactly `size` indices in ascending order with
//! wrap-around, returning the first index whose entry satisfies the match
//! predicate, or `None` after a full cycle.

use vstd::prelude::*;

use crate::Dictionary;
use crate::EntryModel;
use crate::text::ascii_fold;
use crate::text::contains_sub;
use crate::text::contains_sub_exec;
use crate::text::eq_fold;
use crate::text::lower_of;
use crate::text::str_to_chars;
use crate::text::to_lower_string;

verus! {

/// The entry's key equals the query under ASCII case folding.
pub open spec fn left_strict_match(e: EntryModel, q: Seq<char>) -> bool {
    ascii_fold(e.left) == ascii_fold(q)
}

/// The case-folded query occurs in the case-folded key.
pub open spec fn left_fuzzy_match(e: EntryModel, q: Seq<char>) -> bool {
    contains_sub(lower_of(e.left), lower_of(q))
}

/// Some element of the chain equals the query under ASCII case folding.
pub open spec fn right_strict_match(e: EntryModel, q: Seq<char>) -> bool {
    exists|j: int| 0 <= j < e.right.len() && ascii_fold(#[trigger] e.right[j]) == ascii_fold(q)
}

/// The case-folded query occurs in some case-folded chain element.
pub open spec fn right_fuzzy_match(e: EntryModel, q: Seq<char>) -> bool {
    exists|j: int|
        0 <= j < e.right.len() && contains_sub(lower_of(#[trigger] e.right[j]), lower_of(q))
}

pub open spec fn left_strict_pred(q: Seq<char>) -> spec_fn(EntryModel) -> bool {
    |e: EntryModel| left_strict_match(e, q)
}

pub open spec fn left_fuzzy_pred(q: Seq<char>) -> spec_fn(EntryModel) -> bool {
    |e: EntryModel| left_fuzzy_match(e, q)
}

pub open spec fn right_strict_pred(q: Seq<char>) -> spec_fn(EntryModel) -> bool {
    |e: EntryModel| right_strict_match(e, q)
}

pub open spec fn right_fuzzy_pred(q: Seq<char>) -> spec_fn(EntryModel) -> bool {
    |e: EntryModel| right_fuzzy_match(e, q)
}

/// The index visited at step `k` of a circular scan starting at `s0`,
/// for `0 <= s0 < n` and `0 <= k <= n`.
pub open spec fn wrap_index(s0: int, k: int, n: int) -> int {
    if s0 + k < n {
        s0 + k
    } else {
        s0 + k - n
    }
}

/// The first index at scan step `k` or later whose entry satisfies `pred`.
pub open spec fn scan_from(
    t: Seq<EntryModel>,
    pred: spec_fn(EntryModel) -> bool,
    s0: int,
    k: int,
) -> Option<int>
    decreases t.len() - k,
{
    if !(0 <= k <= t.len() && 0 <= s0 < t.len()) {
        None
    } else if k == t.len() {
        None
    } else {
        let i = wrap_index(s0, k, t.len() as int);
        if pred(t[i]) {
            Some(i)
        } else {
            scan_from(t, pred, s0, k + 1)
        }
    }
}

/// The circular search: `None` on an empty table, else a scan of the whole
/// circle from `start % len`.
pub open spec fn circular_find(
    t: Seq<EntryModel>,
    pred: spec_fn(EntryModel) -> bool,
    start: int,
) -> Option<int> {
    if t.len() == 0 {
        None
    } else {
        scan_from(t, pred, start % (t.len() as int), 0)
    }
}

pub open spec fn find_left_strictly_spec(t: Seq<EntryModel>, q: Seq<char>, start: int) -> Option<
    int,
> {
    circular_find(t, left_strict_pred(q), start)
}

pub open spec fn find_left_spec(t: Seq<EntryModel>, q: Seq<char>, start: int) -> Option<int> {
    circular_find(t, left_fuzzy_pred(q), start)
}

pub open spec fn find_right_strictly_spec(t: Seq<EntryModel>, q: Seq<char>, start: int) -> Option<
    int,
> {
    circular_find(t, right_strict_pred(q), start)
}

pub open spec fn find_right_spec(t: Seq<EntryModel>, q: Seq<char>, start: int) -> Option<int> {
    circular_find(t, right_fuzzy_pred(q), start)
}

/// A scan that fails has visited every remaining step without a match.
pub proof fn lemma_scan_from_none(
    t: Seq<EntryModel>,
    pred: spec_fn(EntryModel) -> bool,
    s0: int,
    k: int,
)
    requires
        0 <= s0 < t.len(),
        0 <= k <= t.len(),
        scan_from(t, pred, s0, k) is None,
    ensures
        forall|j: int| k <= j < t.len() ==> !pred(t[wrap_index(s0, j, t.len() as int)]),
    decreases t.len() - k,
{
    if k < t.len() {
        lemma_scan_from_none(t, pred, s0, k + 1);
    }
}

/// Every index of the table is visited by the scan, at the returned step.
pub proof fn lemma_wrap_step_of(s0: int, i: int, n: int) -> (k: int)
    requires
        0 <= s0 < n,
        0 <= i < n,
    ensures
        0 <= k < n,
        wrap_index(s0, k, n) == i,
{
    if i >= s0 {
        i - s0
    } else {
        i - s0 + n
    }
}

/// LAW (search totality, failing side): a search over an empty table returns
/// `None`, and a `None` result means no entry at all satisfies the predicate.
pub proof fn lemma_circular_find_none(
    t: Seq<EntryModel>,
    pred: spec_fn(EntryModel) -> bool,
    start: int,
)
    requires
        circular_find(t, pred, start) is None,
    ensures
        forall|i: int| 0 <= i < t.len() ==> !pred(t[i]),
{
    if t.len() > 0 {
        let s0 = start % (t.len() as int);
        lemma_scan_from_none(t, pred, s0, 0);
        assert forall|i: int| 0 <= i < t.len() implies !pred(t[i]) by {
            let k = lemma_wrap_step_of(s0, i, t.len() as int);
            assert(!pred(t[wrap_index(s0, k, t.len() as int)]));
        }
    }
}

/// A successful scan returns a matching index, and no index visited earlier
/// on the circle matches.
pub proof fn lemma_scan_from_some(
    t: Seq<EntryModel>,
    pred: spec_fn(EntryModel) -> bool,
    s0: int,
    k: int,
    i: int,
)
    requires
        0 <= s0 < t.len(),
        0 <= k <= t.len(),
        scan_from(t, pred, s0, k) == Some(i),
    ensures
        0 <= i < t.len(),
        pred(t[i]),
        exists|m: int|
            k <= m < t.len() && wrap_index(s0, m, t.len() as int) == i && (forall|j: int|
                k <= j < m ==> !pred(t[wrap_index(s0, j, t.len() as int)])),
    decreases t.len() - k,
{
    if k < t.len() {
        let here = wrap_index(s0, k, t.len() as int);
        if pred(t[here]) {
            assert(i == here);
            assert(k <= k < t.len() && wrap_index(s0, k, t.len() as int) == i && (forall|j: int|
                k <= j < k ==> !pred(t[wrap_index(s0, j, t.len() as int)])));
        } else {
            lemma_scan_from_some(t, pred, s0, k + 1, i);
            let m = choose|m: int|
                k + 1 <= m < t.len() && wrap_index(s0, m, t.len() as int) == i && (forall|j: int|
                    k + 1 <= j < m ==> !pred(t[wrap_index(s0, j, t.len() as int)]));
            assert(k <= m < t.len() && wrap_index(s0, m, t.len() as int) == i && (forall|j: int|
                k <= j < m ==> !pred(t[wrap_index(s0, j, t.len() as int)])));
        }
    }
}

/// LAW (wrap-around): searching from `start_index == len` behaves exactly
/// like searching from `0`; in general only `start % len` matters.
pub proof fn lemma_circular_find_wrap(
    t: Seq<EntryModel>,
    pred: spec_fn(EntryModel) -> bool,
    start: int,
)
    requires
        0 <= start,
    ensures
        circular_find(t, pred, start) == circular_find(t, pred, start % (if t.len() == 0 {
            1
        } else {
            t.len() as int
        })),
{
    if t.len() > 0 {
        let n = t.len() as int;
        vstd::arithmetic::div_mod::lemma_mod_twice(start, n);
    }
}

/// LAW (wrap-around, the quoted case): `find_left` with `start_index` equal
/// to the table size returns what it returns for `start_index == 0`.
pub proof fn lemma_find_left_wrap_around(t: Seq<EntryModel>, q: Seq<char>)
    ensures
        find_left_spec(t, q, t.len() as int) == find_left_spec(t, q, 0),
{
    if t.len() > 0 {
        let n = t.len() as int;
        assert(n % n == 0);
        assert(0int % n == 0);
    }
}

/// LAW (search totality, succeeding side): on a non-empty table, a query
/// whose case folding equals some key's case folding is found by the strict
/// left search, wherever the scan starts.
pub proof fn lemma_find_left_strictly_total(t: Seq<EntryModel>, q: Seq<char>, start: int)
    requires
        exists|i: int| 0 <= i < t.len() && ascii_fold(#[trigger] t[i].left) == ascii_fold(q),
    ensures
        find_left_strictly_spec(t, q, start) is Some,
{
    if find_left_strictly_spec(t, q, start) is None {
        lemma_circular_find_none(t, left_strict_pred(q), start);
        let i = choose|i: int|
            0 <= i < t.len() && ascii_fold(#[trigger] t[i].left) == ascii_fold(q);
        assert(left_strict_pred(q)(t[i]));
    }
}

impl Dictionary {
    /// Finds a key equal to `s` under ASCII case folding, scanning the table
    /// circularly from `start_index`.
    pub fn find_left_strictly(&self, s: &str, start_index: usize) -> (r: Option<usize>)
        ensures
            match r {
                Some(i) => find_left_strictly_spec(self@, s@, start_index as int) == Some(i as int),
                None => find_left_strictly_spec(self@, s@, start_index as int) is None,
            },
    {
        let size = self.count();
        if size == 0 {
            return None;
        }
        let mut idx = start_index % size;
        let qc = str_to_chars(s);
        let ghost pred = left_strict_pred(s@);
        let ghost s0 = (start_index as int) % (size as int);
        let mut k: usize = 0;
        let mut r: Option<usize> = None;
        let mut done = false;
        while !done
            invariant
                0 <= k <= size,
                size == self@.len(),
                size > 0,
                qc@ == s@,
                0 <= s0 < size,
                pred == left_strict_pred(s@),
                !done ==> r is None,
                !done ==> idx as int == wrap_index(s0, k as int, size as int),
                !done ==> scan_from(self@, pred, s0, 0) == scan_from(self@, pred, s0, k as int),
                done ==> match r {
                    Some(i) => scan_from(self@, pred, s0, 0) == Some(i as int),
                    None => scan_from(self@, pred, s0, 0) is None,
                },
            decreases 2 + size - k - (if done {
                2int
            } else {
                0int
            }),
        {
            if k == size {
                done = true;
            } else {
                let kc = str_to_chars(self.entries[idx].left.as_str());
                if eq_fold(&kc, &qc) {
                    proof {
                        assert(self@[idx as int].left == kc@);
                        assert(pred(self@[idx as int]));
                    }
                    r = Some(idx);
                    done = true;
                } else {
                    proof {
                        assert(!pred(self@[idx as int]));
                    }
                    idx = idx + 1;
                    if idx == size {
                        idx = 0;
                    }
                    k = k + 1;
                }
            }
        }
        r
    }

    /// Finds a key that contains `s` as a substring under Unicode case
    /// folding, scanning the table circularly from `start_index`.
    pub fn find_left(&self, s: &str, start_index: usize) -> (r: Option<usize>)
        ensures
            match r {
                Some(i) => find_left_spec(self@, s@, start_index as int) == Some(i as int),
                None => find_left_spec(self@, s@, start_index as int) is None,
            },
    {
        let size = self.count();
        if size == 0 {
            return None;
        }
        let mut idx = start_index % size;
        let ql = to_lower_string(s);
        let qc = str_to_chars(ql.as_str());
        let ghost pred = left_fuzzy_pred(s@);
        let ghost s0 = (start_index as int) % (size as int);
        let mut k: usize = 0;
        let mut r: Option<usize> = None;
        let mut done = false;
        while !done
            invariant
                0 <= k <= size,
                size == self@.len(),
                size > 0,
                qc@ == lower_of(s@),
                0 <= s0 < size,
                pred == left_fuzzy_pred(s@),
                !done ==> r is None,
                !done ==> idx as int == wrap_index(s0, k as int, size as int),
                !done ==> scan_from(self@, pred, s0, 0) == scan_from(self@, pred, s0, k as int),
                done ==> match r {
                    Some(i) => scan_from(self@, pred, s0, 0) == Some(i as int),
                    None => scan_from(self@, pred, s0, 0) is None,
                },
            decreases 2 + size - k - (if done {
                2int
            } else {
                0int
            }),
        {
            if k == size {
                done = true;
            } else {
                let kl = to_lower_string(self.entries[idx].left.as_str());
                let kc = str_to_chars(kl.as_str());
                if contains_sub_exec(&kc, &qc) {
                    proof {
                        assert(self@[idx as int].left == self.entries@[idx as int].left@);
                        assert(pred(self@[idx as int]));
                    }
                    r = Some(idx);
                    done = true;
                } else {
                    proof {
                        assert(!pred(self@[idx as int]));
                    }
                    idx = idx + 1;
                    if idx == size {
                        idx = 0;
                    }
                    k = k + 1;
                }
            }
        }
        r
    }

    /// Finds an entry some chain element of which equals `s` under ASCII case
    /// folding, scanning the table circularly from `start_index`; each chain
    /// is scanned from the most recent value to the oldest.
    pub fn find_right_strictly(&self, s: &str, start_index: usize) -> (r: Option<usize>)
        ensures
            match r {
                Some(i) => find_right_strictly_spec(self@, s@, start_index as int) == Some(
                    i as int,
                ),
                None => find_right_strictly_spec(self@, s@, start_index as int) is None,
            },
    {
        let size = self.count();
        if size == 0 {
            return None;
        }
        let mut idx = start_index % size;
        let qc = str_to_chars(s);
        let ghost pred = right_strict_pred(s@);
        let ghost s0 = (start_index as int) % (size as int);
        let mut k: usize = 0;
        let mut r: Option<usize> = None;
        let mut done = false;
        while !done
            invariant
                0 <= k <= size,
                size == self@.len(),
                size > 0,
                qc@ == s@,
                0 <= s0 < size,
                pred == right_strict_pred(s@),
                !done ==> r is None,
                !done ==> idx as int == wrap_index(s0, k as int, size as int),
                !done ==> scan_from(self@, pred, s0, 0) == scan_from(self@, pred, s0, k as int),
                done ==> match r {
                    Some(i) => scan_from(self@, pred, s0, 0) == Some(i as int),
                    None => scan_from(self@, pred, s0, 0) is None,
                },
            decreases 2 + size - k - (if done {
                2int
            } else {
                0int
            }),
        {
            if k == size {
                done = true;
            } else {
                let ghost e = self@[idx as int];
                let chain = &self.entries[idx].right;
                proof {
                    assert(e.right == chain.deep_view());
                    assert(e.right.len() == chain@.len());
                }
                let mut j = chain.len();
                let mut hit = false;
                while j > 0 && !hit
                    invariant
                        0 <= j <= chain@.len(),
                        qc@ == s@,
                        e.right == chain.deep_view(),
                        e.right.len() == chain@.len(),
                        hit ==> right_strict_match(e, s@),
                        !hit ==> forall|jj: int|
                            j <= jj < e.right.len() ==> ascii_fold(#[trigger] e.right[jj])
                                != ascii_fold(s@),
                    decreases j,
                {
                    j = j - 1;
                    let vc = str_to_chars(chain[j].as_str());
                    proof {
                        assert(e.right[j as int] == chain@[j as int]@);
                    }
                    if eq_fold(&vc, &qc) {
                        hit = true;
                    }
                }
                if hit {
                    proof {
                        assert(pred(e));
                    }
                    r = Some(idx);
                    done = true;
                } else {
                    proof {
                        assert(!right_strict_match(e, s@));
                        assert(!pred(e));
                    }
                    idx = idx + 1;
                    if idx == size {
                        idx = 0;
                    }
                    k = k + 1;
                }
            }
        }
        r
    }

    /// Finds an entry some chain element of which contains `s` as a substring
    /// under Unicode case folding, scanning the table circularly from
    /// `start_index`; each chain is scanned from the most recent value to the
    /// oldest.
    pub fn find_right(&self, s: &str, start_index: usize) -> (r: Option<usize>)
        ensures
            match r {
                Some(i) => find_right_spec(self@, s@, start_index as int) == Some(i as int),
                None => find_right_spec(self@, s@, start_index as int) is None,
            },
    {
        let size = self.count();
        if size == 0 {
            return None;
        }
        let mut idx = start_index % size;
        let ql = to_lower_string(s);
        let qc = str_to_chars(ql.as_str());
        let ghost pred = right_fuzzy_pred(s@);
        let ghost s0 = (start_index as int) % (size as int);
        let mut k: usize = 0;
        let mut r: Option<usize> = None;
        let mut done = false;
        while !done
            invariant
                0 <= k <= size,
                size == self@.len(),
                size > 0,
                qc@ == lower_of(s@),
                0 <= s0 < size,
                pred == right_fuzzy_pred(s@),
                !done ==> r is None,
                !done ==> idx as int == wrap_index(s0, k as int, size as int),
                !done ==> scan_from(self@, pred, s0, 0) == scan_from(self@, pred, s0, k as int),
                done ==> match r {
                    Some(i) => scan_from(self@, pred, s0, 0) == Some(i as int),
                    None => scan_from(self@, pred, s0, 0) is None,
                },
            decreases 2 + size - k - (if done {
                2int
            } else {
                0int
            }),
        {
            if k == size {
                done = true;
            } else {
                let ghost e = self@[idx as int];
                let chain = &self.entries[idx].right;
                proof {
                    assert(e.right == chain.deep_view());
                    assert(e.right.len() == chain@.len());
                }
                let mut j = chain.len();
                let mut hit = false;
                while j > 0 && !hit
                    invariant
                        0 <= j <= chain@.len(),
                        qc@ == lower_of(s@),
                        e.right == chain.deep_view(),
                        e.right.len() == chain@.len(),
                        hit ==> right_fuzzy_match(e, s@),
                        !hit ==> forall|jj: int|
                            j <= jj < e.right.len() ==> !contains_sub(
                                lower_of(#[trigger] e.right[jj]),
                                lower_of(s@),
                            ),
                    decreases j,
                {
                    j = j - 1;
                    let vl = to_lower_string(chain[j].as_str());
                    let vc = str_to_chars(vl.as_str());
                    proof {
                        assert(e.right[j as int] == chain@[j as int]@);
                    }
                    if contains_sub_exec(&vc, &qc) {
                        hit = true;
                    }
                }
                if hit {
                    proof {
                        assert(pred(e));
                    }
                    r = Some(idx);
                    done = true;
                } else {
                    proof {
                        assert(!right_fuzzy_match(e, s@));
                        assert(!pred(e));
                    }
                    idx = idx + 1;
                    if idx == size {
                        idx = 0;
                    }
                    k = k + 1;
                }
            }
        }
        r
    }
}

} // verus!
