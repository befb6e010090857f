//! Character-sequence specifications and verified helpers: whitespace
//! trimming, ASCII case folding, substring search, splitting on a separator,
//! joining with a separator, and lexicographic comparison.

use vstd::prelude::*;
use vstd::string::*;

verus! {

// ---------------------------------------------------------------------------
// Character classes
// ---------------------------------------------------------------------------

/// The Unicode white-space characters, the set recognised by `str::trim`.
pub open spec fn is_ws(c: char) -> bool {
    ||| c == ' '
    ||| c == '\t'
    ||| c == '\n'
    ||| c == '\r'
    ||| c == '\u{000B}'
    ||| c == '\u{000C}'
    ||| c == '\u{0085}'
    ||| c == '\u{00A0}'
    ||| c == '\u{1680}'
    ||| c == '\u{2000}'
    ||| c == '\u{2001}'
    ||| c == '\u{2002}'
    ||| c == '\u{2003}'
    ||| c == '\u{2004}'
    ||| c == '\u{2005}'
    ||| c == '\u{2006}'
    ||| c == '\u{2007}'
    ||| c == '\u{2008}'
    ||| c == '\u{2009}'
    ||| c == '\u{200A}'
    ||| c == '\u{2028}'
    ||| c == '\u{2029}'
    ||| c == '\u{202F}'
    ||| c == '\u{205F}'
    ||| c == '\u{3000}'
}

/// Decides `is_ws`.
pub fn char_is_ws(c: char) -> (r: bool)
    ensures
        r == is_ws(c),
{
    c == ' ' || c == '\t' || c == '\n' || c == '\r' || c == '\u{000B}' || c == '\u{000C}'
        || c == '\u{0085}' || c == '\u{00A0}' || c == '\u{1680}' || c == '\u{2000}'
        || c == '\u{2001}' || c == '\u{2002}' || c == '\u{2003}' || c == '\u{2004}'
        || c == '\u{2005}' || c == '\u{2006}' || c == '\u{2007}' || c == '\u{2008}'
        || c == '\u{2009}' || c == '\u{200A}' || c == '\u{2028}' || c == '\u{2029}'
        || c == '\u{202F}' || c == '\u{205F}' || c == '\u{3000}'
}

/// ASCII lower-casing of one character; all other characters are unchanged.
pub open spec fn lower_char(c: char) -> char {
    if c == 'A' {
        'a'
    } else if c == 'B' {
        'b'
    } else if c == 'C' {
        'c'
    } else if c == 'D' {
        'd'
    } else if c == 'E' {
        'e'
    } else if c == 'F' {
        'f'
    } else if c == 'G' {
        'g'
    } else if c == 'H' {
        'h'
    } else if c == 'I' {
        'i'
    } else if c == 'J' {
        'j'
    } else if c == 'K' {
        'k'
    } else if c == 'L' {
        'l'
    } else if c == 'M' {
        'm'
    } else if c == 'N' {
        'n'
    } else if c == 'O' {
        'o'
    } else if c == 'P' {
        'p'
    } else if c == 'Q' {
        'q'
    } else if c == 'R' {
        'r'
    } else if c == 'S' {
        's'
    } else if c == 'T' {
        't'
    } else if c == 'U' {
        'u'
    } else if c == 'V' {
        'v'
    } else if c == 'W' {
        'w'
    } else if c == 'X' {
        'x'
    } else if c == 'Y' {
        'y'
    } else if c == 'Z' {
        'z'
    } else {
        c
    }
}

/// Computes `lower_char`.
pub fn lower_char_exec(c: char) -> (r: char)
    ensures
        r == lower_char(c),
{
    match c {
        'A' => 'a',
        'B' => 'b',
        'C' => 'c',
        'D' => 'd',
        'E' => 'e',
        'F' => 'f',
        'G' => 'g',
        'H' => 'h',
        'I' => 'i',
        'J' => 'j',
        'K' => 'k',
        'L' => 'l',
        'M' => 'm',
        'N' => 'n',
        'O' => 'o',
        'P' => 'p',
        'Q' => 'q',
        'R' => 'r',
        'S' => 's',
        'T' => 't',
        'U' => 'u',
        'V' => 'v',
        'W' => 'w',
        'X' => 'x',
        'Y' => 'y',
        'Z' => 'z',
        _ => c,
    }
}

/// ASCII case folding of a whole sequence, the comparison key of the strict
/// (case-insensitive equality) operations.
pub open spec fn ascii_fold(s: Seq<char>) -> Seq<char> {
    s.map_values(|c: char| lower_char(c))
}

// ---------------------------------------------------------------------------
// Conversions between strings and character vectors
// ---------------------------------------------------------------------------

/// Collects the characters of a string slice.
pub fn str_to_chars(s: &str) -> (r: Vec<char>)
    ensures
        r@ == s@,
{
    let n = s.unicode_len();
    let mut v: Vec<char> = Vec::new();
    let mut i: usize = 0;
    while i < n
        invariant
            i <= n,
            n == s@.len(),
            v@ == s@.take(i as int),
        decreases n - i,
    {
        let c = s.get_char(i);
        v.push(c);
        i = i + 1;
        proof {
            assert(v@ =~= s@.take(i as int));
        }
    }
    proof {
        assert(v@ =~= s@);
    }
    v
}

/// Relies on `String::push`: appends exactly the given character.
#[verifier::external_body]
fn push_char(s: &mut String, c: char)
    ensures
        final(s)@ == old(s)@.push(c),
{
    s.push(c);
}

/// Builds a string out of a character vector.
pub fn chars_to_string(v: &Vec<char>) -> (r: String)
    ensures
        r@ == v@,
{
    let mut s = String::new();
    let mut i: usize = 0;
    while i < v.len()
        invariant
            i <= v@.len(),
            s@ == v@.take(i as int),
        decreases v@.len() - i,
    {
        push_char(&mut s, v[i]);
        i = i + 1;
        proof {
            assert(s@ =~= v@.take(i as int));
        }
    }
    proof {
        assert(s@ =~= v@);
    }
    s
}

// ---------------------------------------------------------------------------
// Case-folded equality
// ---------------------------------------------------------------------------

/// Decides equality of the ASCII case foldings of two sequences.
pub fn eq_fold(a: &Vec<char>, b: &Vec<char>) -> (r: bool)
    ensures
        r == (ascii_fold(a@) == ascii_fold(b@)),
{
    if a.len() != b.len() {
        proof {
            assert(ascii_fold(a@).len() == a@.len());
            assert(ascii_fold(b@).len() == b@.len());
        }
        return false;
    }
    let mut i: usize = 0;
    while i < a.len()
        invariant
            a@.len() == b@.len(),
            i <= a@.len(),
            forall|j: int| 0 <= j < i ==> lower_char(a@[j]) == lower_char(b@[j]),
        decreases a@.len() - i,
    {
        if lower_char_exec(a[i]) != lower_char_exec(b[i]) {
            proof {
                assert(ascii_fold(a@)[i as int] != ascii_fold(b@)[i as int]);
            }
            return false;
        }
        i = i + 1;
    }
    proof {
        assert(ascii_fold(a@) =~= ascii_fold(b@));
    }
    true
}

// ---------------------------------------------------------------------------
// Trimming
// ---------------------------------------------------------------------------

pub open spec fn trim_start_spec(s: Seq<char>) -> Seq<char>
    decreases s.len(),
{
    if s.len() > 0 && is_ws(s[0]) {
        trim_start_spec(s.subrange(1, s.len() as int))
    } else {
        s
    }
}

pub open spec fn trim_end_spec(s: Seq<char>) -> Seq<char>
    decreases s.len(),
{
    if s.len() > 0 && is_ws(s[s.len() - 1]) {
        trim_end_spec(s.subrange(0, s.len() - 1))
    } else {
        s
    }
}

/// What `str::trim` leaves: the sequence with leading and trailing
/// white space removed.
pub open spec fn trim_spec(s: Seq<char>) -> Seq<char> {
    trim_end_spec(trim_start_spec(s))
}

/// `trim_start_spec` drops exactly the longest white-space prefix.
pub proof fn lemma_trim_start_skip(s: Seq<char>, i: int)
    requires
        0 <= i <= s.len(),
        forall|j: int| 0 <= j < i ==> is_ws(s[j]),
    ensures
        trim_start_spec(s) == trim_start_spec(s.subrange(i, s.len() as int)),
    decreases i,
{
    if i > 0 {
        assert(is_ws(s[0]));
        let t = s.subrange(1, s.len() as int);
        assert(trim_start_spec(s) == trim_start_spec(t));
        lemma_trim_start_skip(t, i - 1);
        assert(t.subrange(i - 1, t.len() as int) =~= s.subrange(i, s.len() as int));
    } else {
        assert(s.subrange(0, s.len() as int) =~= s);
    }
}

/// `trim_end_spec` drops exactly the longest white-space suffix.
pub proof fn lemma_trim_end_take(s: Seq<char>, i: int)
    requires
        0 <= i <= s.len(),
        forall|j: int| i <= j < s.len() ==> is_ws(s[j]),
    ensures
        trim_end_spec(s) == trim_end_spec(s.subrange(0, i)),
    decreases s.len() - i,
{
    if i < s.len() {
        assert(is_ws(s[s.len() - 1]));
        let t = s.subrange(0, s.len() - 1);
        lemma_trim_end_take(t, i);
        assert(t.subrange(0, i) =~= s.subrange(0, i));
    } else {
        assert(s.subrange(0, s.len() as int) =~= s);
    }
}

/// Computes `trim_spec`.
pub fn trim_chars(v: &Vec<char>) -> (r: Vec<char>)
    ensures
        r@ == trim_spec(v@),
{
    let n = v.len();
    let mut i: usize = 0;
    while i < n && char_is_ws(v[i])
        invariant
            0 <= i <= n,
            n == v@.len(),
            forall|j: int| 0 <= j < i ==> is_ws(v@[j]),
        decreases n - i,
    {
        i = i + 1;
    }
    proof {
        lemma_trim_start_skip(v@, i as int);
    }
    let ghost t = v@.subrange(i as int, n as int);
    proof {
        if t.len() > 0 {
            assert(t[0] == v@[i as int]);
            assert(!is_ws(t[0]));
        }
        assert(trim_start_spec(t) == t);
    }
    // t == trim_start_spec(v@); now trim the end of v[i..n]
    let mut j: usize = n;
    while j > i && char_is_ws(v[j - 1])
        invariant
            i <= j <= n,
            n == v@.len(),
            forall|k: int| j <= k < n ==> is_ws(v@[k]),
        decreases j,
    {
        j = j - 1;
    }
    proof {
        assert(forall|k: int| j - i <= k < t.len() ==> is_ws(t[k]));
        lemma_trim_end_take(t, j - i);
        assert(t.subrange(0, j - i) =~= v@.subrange(i as int, j as int));
    }
    let mut r: Vec<char> = Vec::new();
    let mut k: usize = i;
    while k < j
        invariant
            i <= k <= j <= n,
            n == v@.len(),
            r@ == v@.subrange(i as int, k as int),
        decreases j - k,
    {
        r.push(v[k]);
        k = k + 1;
        proof {
            assert(r@ =~= v@.subrange(i as int, k as int));
        }
    }
    proof {
        let u = t.subrange(0, j - i);
        if u.len() > 0 {
            assert(u[u.len() - 1] == v@[j - 1]);
            assert(!is_ws(u[u.len() - 1]));
        }
        assert(trim_end_spec(u) == u);
        assert(r@ == trim_spec(v@));
    }
    r
}

// ---------------------------------------------------------------------------
// Substring containment
// ---------------------------------------------------------------------------

/// `n` occurs in `h` at position `i`.
pub open spec fn sub_at(h: Seq<char>, n: Seq<char>, i: int) -> bool {
    0 <= i && i + n.len() <= h.len() && h.subrange(i, i + n.len() as int) == n
}

/// `n` occurs somewhere in `h`.
pub open spec fn contains_sub(h: Seq<char>, n: Seq<char>) -> bool {
    exists|i: int| sub_at(h, n, i)
}

/// Decides `contains_sub` for a non-empty pattern.
pub fn contains_sub_exec(h: &Vec<char>, n: &Vec<char>) -> (r: bool)
    ensures
        r == contains_sub(h@, n@),
{
    if n.len() > h.len() {
        proof {
            assert(forall|i: int| !sub_at(h@, n@, i));
        }
        return false;
    }
    let hn = h.len();
    let last_start = hn - n.len();
    let mut i: usize = 0;
    loop
        invariant
            0 <= i <= last_start + 1,
            hn == h@.len(),
            last_start == h@.len() - n@.len(),
            n@.len() <= h@.len(),
            forall|k: int| 0 <= k < i ==> !sub_at(h@, n@, k),
        decreases last_start + 1 - i,
    {
        if i > last_start {
            proof {
                assert(forall|k: int| sub_at(h@, n@, k) ==> 0 <= k <= last_start);
            }
            return false;
        }
        // compare h[i .. i + n.len()] with n
        let mut j: usize = 0;
        let mut matches_here = true;
        while j < n.len()
            invariant
                0 <= j <= n@.len(),
                0 <= i <= last_start,
                hn == h@.len(),
                last_start == h@.len() - n@.len(),
                matches_here ==> forall|q: int| 0 <= q < j ==> h@[i + q] == n@[q],
                !matches_here ==> !sub_at(h@, n@, i as int),
                !matches_here ==> n@.len() > 0,
            decreases n@.len() - j,
        {
            if h[i + j] != n[j] {
                proof {
                    if sub_at(h@, n@, i as int) {
                        assert(h@.subrange(i as int, i + n@.len() as int)[j as int]
                            == n@[j as int]);
                    }
                }
                matches_here = false;
                j = n.len();
            } else {
                j = j + 1;
            }
        }
        if matches_here {
            proof {
                assert(h@.subrange(i as int, i + n@.len() as int) =~= n@);
                assert(sub_at(h@, n@, i as int));
            }
            return true;
        }
        i = i + 1;
    }
}

/// A sequence containing `c` is `contains_sub` of the singleton, and back.
pub proof fn lemma_contains_char_sub(h: Seq<char>, c: char)
    ensures
        h.contains(c) == contains_sub(h, seq![c]),
{
    if h.contains(c) {
        let i = choose|i: int| 0 <= i < h.len() && h[i] == c;
        assert(h.subrange(i, i + 1) =~= seq![c]);
        assert(sub_at(h, seq![c], i));
    }
    if contains_sub(h, seq![c]) {
        let i = choose|i: int| sub_at(h, seq![c], i);
        assert(h.subrange(i, i + 1)[0] == h[i]);
        assert(h[i] == c);
    }
}

// ---------------------------------------------------------------------------
// Splitting on a separator
// ---------------------------------------------------------------------------

/// Splitting on the leftmost occurrences of a non-empty separator, as
/// `str::split` does; the result always has at least one piece.
pub open spec fn split_on(h: Seq<char>, n: Seq<char>) -> Seq<Seq<char>>
    decreases h.len(),
{
    if n.len() == 0 {
        seq![h]
    } else if sub_at(h, n, 0) {
        seq![Seq::<char>::empty()] + split_on(h.subrange(n.len() as int, h.len() as int), n)
    } else if h.len() == 0 {
        seq![Seq::<char>::empty()]
    } else {
        let r = split_on(h.subrange(1, h.len() as int), n);
        seq![seq![h[0]] + r[0]] + r.subrange(1, r.len() as int)
    }
}

pub proof fn lemma_split_on_len(h: Seq<char>, n: Seq<char>)
    ensures
        split_on(h, n).len() >= 1,
    decreases h.len(),
{
    if n.len() == 0 {
    } else if sub_at(h, n, 0) {
        lemma_split_on_len(h.subrange(n.len() as int, h.len() as int), n);
    } else if h.len() == 0 {
    } else {
        lemma_split_on_len(h.subrange(1, h.len() as int), n);
    }
}

/// If the separator occurs nowhere in `h`, splitting gives back `h` alone.
pub proof fn lemma_split_on_absent(h: Seq<char>, n: Seq<char>)
    requires
        n.len() > 0,
        !contains_sub(h, n),
    ensures
        split_on(h, n) == seq![h],
    decreases h.len(),
{
    if sub_at(h, n, 0) {
        assert(contains_sub(h, n));
    } else if h.len() == 0 {
        assert(split_on(h, n) == seq![Seq::<char>::empty()]);
        assert(h =~= Seq::<char>::empty());
    } else {
        let t = h.subrange(1, h.len() as int);
        assert forall|i: int| !sub_at(t, n, i) by {
            if sub_at(t, n, i) {
                assert(h.subrange(i + 1, i + 1 + n.len() as int) =~= t.subrange(
                    i,
                    i + n.len() as int,
                ));
                assert(sub_at(h, n, i + 1));
            }
        }
        lemma_split_on_absent(t, n);
        let rt = split_on(t, n);
        assert(split_on(h, n) == seq![seq![h[0]] + rt[0]] + rt.subrange(1, rt.len() as int));
        assert(rt.subrange(1, rt.len() as int) =~= Seq::<Seq<char>>::empty());
        assert(seq![h[0]] + rt[0] =~= h);
        assert(split_on(h, n) =~= seq![h]);
    }
}

/// Splitting a string that starts with an occurrence-free prefix `p`
/// followed by the separator: the first piece is `p`.
pub proof fn lemma_split_on_prefix(p: Seq<char>, n: Seq<char>, t: Seq<char>)
    requires
        n.len() > 0,
        forall|i: int| 0 <= i < p.len() ==> !sub_at(p + n + t, n, i),
    ensures
        split_on(p + n + t, n) == seq![p] + split_on(t, n),
    decreases p.len(),
{
    let h = p + n + t;
    if p.len() == 0 {
        assert(h.subrange(0, n.len() as int) =~= n);
        assert(sub_at(h, n, 0));
        assert(split_on(h, n) == seq![Seq::<char>::empty()] + split_on(
            h.subrange(n.len() as int, h.len() as int),
            n,
        ));
        assert(h.subrange(n.len() as int, h.len() as int) =~= t);
        assert(p =~= Seq::<char>::empty());
        assert(split_on(h, n) =~= seq![p] + split_on(t, n));
    } else {
        assert(!sub_at(h, n, 0));
        assert(h.len() > 0);
        let h1 = h.subrange(1, h.len() as int);
        let p1 = p.subrange(1, p.len() as int);
        assert(h1 =~= p1 + n + t);
        assert forall|i: int| 0 <= i < p1.len() implies !sub_at(h1, n, i) by {
            if sub_at(h1, n, i) {
                assert(h.subrange(i + 1, i + 1 + n.len() as int) =~= h1.subrange(
                    i,
                    i + n.len() as int,
                ));
                assert(sub_at(h, n, i + 1));
            }
        }
        lemma_split_on_prefix(p1, n, t);
        let r = split_on(h1, n);
        lemma_split_on_len(t, n);
        assert(split_on(h, n) == seq![seq![h[0]] + r[0]] + r.subrange(1, r.len() as int));
        assert(r == seq![p1] + split_on(t, n));
        assert(r[0] == p1);
        assert(seq![h[0]] + r[0] =~= p);
        assert(r.subrange(1, r.len() as int) =~= split_on(t, n));
        assert(split_on(h, n) =~= seq![p] + split_on(t, n));
    }
}

/// The first piece of a split is a prefix of the string.
pub proof fn lemma_split_on_first_prefix(h: Seq<char>, n: Seq<char>)
    requires
        n.len() > 0,
    ensures
        split_on(h, n)[0].len() <= h.len(),
        split_on(h, n)[0] == h.subrange(0, split_on(h, n)[0].len() as int),
    decreases h.len(),
{
    lemma_split_on_len(h, n);
    if sub_at(h, n, 0) {
        assert(split_on(h, n)[0] =~= h.subrange(0, 0));
    } else if h.len() == 0 {
        assert(split_on(h, n)[0] =~= h.subrange(0, 0));
    } else {
        let t = h.subrange(1, h.len() as int);
        lemma_split_on_first_prefix(t, n);
        let r0 = split_on(t, n)[0];
        assert(split_on(h, n)[0] == seq![h[0]] + r0);
        assert(seq![h[0]] + r0 =~= h.subrange(0, r0.len() as int + 1));
    }
}

/// No piece of a split contains an occurrence of the separator.
pub proof fn lemma_split_on_pieces_free(h: Seq<char>, n: Seq<char>)
    requires
        n.len() > 0,
    ensures
        forall|k: int|
            0 <= k < split_on(h, n).len() ==> !contains_sub(#[trigger] split_on(h, n)[k], n),
    decreases h.len(),
{
    let r = split_on(h, n);
    if sub_at(h, n, 0) {
        let t = h.subrange(n.len() as int, h.len() as int);
        lemma_split_on_pieces_free(t, n);
        assert forall|k: int| 0 <= k < r.len() implies !contains_sub(#[trigger] r[k], n) by {
            if k == 0 {
                assert(r[0] =~= Seq::<char>::empty());
                if contains_sub(r[0], n) {
                    let i = choose|i: int| sub_at(r[0], n, i);
                    assert(i + n.len() <= 0);
                }
            } else {
                assert(r[k] == split_on(t, n)[k - 1]);
            }
        }
    } else if h.len() == 0 {
        assert forall|k: int| 0 <= k < r.len() implies !contains_sub(#[trigger] r[k], n) by {
            assert(r[k] =~= Seq::<char>::empty());
            if contains_sub(r[k], n) {
                let i = choose|i: int| sub_at(r[k], n, i);
                assert(i + n.len() <= 0);
            }
        }
    } else {
        let t = h.subrange(1, h.len() as int);
        lemma_split_on_pieces_free(t, n);
        let rt = split_on(t, n);
        lemma_split_on_len(t, n);
        lemma_split_on_first_prefix(t, n);
        assert forall|k: int| 0 <= k < r.len() implies !contains_sub(#[trigger] r[k], n) by {
            if k == 0 {
                let p = seq![h[0]] + rt[0];
                assert(r[0] == p);
                if contains_sub(p, n) {
                    let i = choose|i: int| sub_at(p, n, i);
                    if i == 0 {
                        // an occurrence at 0 in p would be one at 0 in h
                        assert(p =~= h.subrange(0, p.len() as int));
                        assert(h.subrange(0, n.len() as int) =~= p.subrange(0, n.len() as int));
                        assert(sub_at(h, n, 0));
                    } else {
                        // an occurrence at i >= 1 lies inside rt[0]
                        assert(rt[0].subrange(i - 1, i - 1 + n.len() as int) =~= p.subrange(
                            i,
                            i + n.len() as int,
                        ));
                        assert(sub_at(rt[0], n, i - 1));
                        assert(contains_sub(rt[0], n));
                    }
                }
            } else {
                assert(r[k] == rt[k]);
            }
        }
    }
}

/// Decides `split_on` for a non-empty separator.
#[verifier::loop_isolation(false)]
pub fn split_chars(h: &Vec<char>, n: &Vec<char>) -> (r: Vec<Vec<char>>)
    requires
        n@.len() > 0,
    ensures
        r.deep_view() == split_on(h@, n@),
{
    let mut pieces: Vec<Vec<char>> = Vec::new();
    let mut cur: Vec<char> = Vec::new();
    let hn = h.len();
    let mut i: usize = 0;
    proof {
        lemma_split_on_len(h@, n@);
        let rest0 = split_on(h@.subrange(0, hn as int), n@);
        assert(h@.subrange(0, hn as int) =~= h@);
        lemma_split_on_len(h@, n@);
        assert(pieces.deep_view() =~= Seq::<Seq<char>>::empty());
        assert(cur@ + rest0[0] =~= rest0[0]);
        assert(Seq::<Seq<char>>::empty() + seq![rest0[0]] + rest0.subrange(1, rest0.len() as int)
            =~= rest0);
    }
    while i < hn
        invariant
            0 <= i <= hn,
            hn == h@.len(),
            n@.len() > 0,
            split_on(h@, n@).len() >= 1,
            ({
                let rest = split_on(h@.subrange(i as int, hn as int), n@);
                &&& rest.len() >= 1
                &&& split_on(h@, n@) == pieces.deep_view() + seq![cur@ + rest[0]] + rest.subrange(
                    1,
                    rest.len() as int,
                )
            }),
        decreases hn - i,
    {
        let ghost pre = h@.subrange(i as int, hn as int);
        let ghost rest = split_on(pre, n@);
        // does an occurrence of n start at i?
        let mut here = n.len() <= hn - i;
        if here {
            let mut j: usize = 0;
            while j < n.len()
                invariant
                    0 <= j <= n@.len(),
                    0 <= i,
                    i + n@.len() <= hn,
                    hn == h@.len(),
                    here ==> forall|q: int| 0 <= q < j ==> h@[i + q] == n@[q],
                    !here ==> !sub_at(h@.subrange(i as int, hn as int), n@, 0),
                decreases n@.len() - j,
            {
                if h[i + j] != n[j] {
                    proof {
                        if sub_at(pre, n@, 0) {
                            assert(pre.subrange(0, n@.len() as int)[j as int] == n@[j as int]);
                            assert(pre[j as int] == h@[i + j]);
                        }
                    }
                    here = false;
                    j = n.len();
                } else {
                    j = j + 1;
                }
            }
        } else {
            proof {
                if sub_at(pre, n@, 0) {
                    assert(0 + n@.len() <= pre.len());
                }
            }
        }
        if here {
            proof {
                assert(pre.subrange(0, n@.len() as int) =~= n@);
                assert(sub_at(pre, n@, 0));
            }
            let ghost after = pre.subrange(n@.len() as int, pre.len() as int);
            proof {
                assert(rest == seq![Seq::<char>::empty()] + split_on(after, n@));
                lemma_split_on_len(after, n@);
            }
            let ghost pieces_old = pieces.deep_view();
            let ghost cur_old = cur@;
            pieces.push(cur);
            cur = Vec::new();
            i = i + n.len();
            proof {
                let rest2 = split_on(h@.subrange(i as int, hn as int), n@);
                assert(h@.subrange(i as int, hn as int) =~= after);
                assert(pieces.deep_view() =~~= pieces_old.push(cur_old));
                assert(rest[0] =~= Seq::<char>::empty());
                assert(cur_old + rest[0] =~= cur_old);
                assert(rest.subrange(1, rest.len() as int) =~= rest2);
                assert(cur@ + rest2[0] =~= rest2[0]);
                assert(pieces_old.push(cur_old) + seq![rest2[0]] + rest2.subrange(
                    1,
                    rest2.len() as int,
                ) =~= pieces_old + seq![cur_old + rest[0]] + rest.subrange(1, rest.len() as int));
            }
        } else {
            proof {
                assert(pre.len() > 0);
                assert(rest == ({
                    let rr = split_on(pre.subrange(1, pre.len() as int), n@);
                    seq![seq![pre[0]] + rr[0]] + rr.subrange(1, rr.len() as int)
                }));
            }
            let ghost cur_old = cur@;
            cur.push(h[i]);
            i = i + 1;
            proof {
                let rest2 = split_on(h@.subrange(i as int, hn as int), n@);
                assert(h@.subrange(i as int, hn as int) =~= pre.subrange(1, pre.len() as int));
                lemma_split_on_len(h@.subrange(i as int, hn as int), n@);
                assert(rest[0] == seq![pre[0]] + rest2[0]);
                assert(pre[0] == h@[i - 1]);
                assert(cur@ =~= cur_old.push(h@[i - 1]));
                assert(cur@ + rest2[0] =~= cur_old + rest[0]);
                assert(rest.subrange(1, rest.len() as int) =~= rest2.subrange(
                    1,
                    rest2.len() as int,
                ));
                assert(pieces.deep_view() + seq![cur@ + rest2[0]] + rest2.subrange(
                    1,
                    rest2.len() as int,
                ) =~= pieces.deep_view() + seq![cur_old + rest[0]] + rest.subrange(
                    1,
                    rest.len() as int,
                ));
            }
        }
    }
    let ghost pieces_old = pieces.deep_view();
    let ghost cur_old = cur@;
    proof {
        let rest = split_on(h@.subrange(hn as int, hn as int), n@);
        assert(h@.subrange(hn as int, hn as int) =~= Seq::<char>::empty());
        if sub_at(Seq::<char>::empty(), n@, 0) {
            assert(0 + n@.len() <= 0);
        }
        assert(rest == seq![Seq::<char>::empty()]);
        assert(cur_old + rest[0] =~= cur_old);
        assert(rest.subrange(1, rest.len() as int) =~= Seq::<Seq<char>>::empty());
        assert(pieces_old + seq![cur_old + rest[0]] + rest.subrange(1, rest.len() as int)
            =~= pieces_old.push(cur_old));
        assert(split_on(h@, n@) == pieces_old.push(cur_old));
    }
    pieces.push(cur);
    proof {
        assert(pieces.deep_view() =~~= pieces_old.push(cur_old));
    }
    pieces
}

// ---------------------------------------------------------------------------
// Joining with a separator
// ---------------------------------------------------------------------------

/// Concatenation of `pieces` with `sep` written between adjacent pieces.
pub open spec fn concat_with(pieces: Seq<Seq<char>>, sep: Seq<char>) -> Seq<char>
    decreases pieces.len(),
{
    if pieces.len() == 0 {
        Seq::empty()
    } else if pieces.len() == 1 {
        pieces[0]
    } else {
        pieces[0] + sep + concat_with(pieces.subrange(1, pieces.len() as int), sep)
    }
}

/// Appending one more piece extends the join by a separator and the piece.
pub proof fn lemma_concat_with_push(pieces: Seq<Seq<char>>, p: Seq<char>, sep: Seq<char>)
    ensures
        concat_with(pieces.push(p), sep) == if pieces.len() == 0 {
            p
        } else {
            concat_with(pieces, sep) + sep + p
        },
    decreases pieces.len(),
{
    let w = pieces.push(p);
    if pieces.len() == 0 {
        assert(w.len() == 1);
        assert(w[0] == p);
    } else if pieces.len() == 1 {
        assert(w[0] == pieces[0]);
        assert(w.subrange(1, w.len() as int) =~= seq![p]);
        assert(concat_with(seq![p], sep) == p);
        assert(concat_with(w, sep) == pieces[0] + sep + p);
        assert(concat_with(pieces, sep) == pieces[0]);
    } else {
        let tail = pieces.subrange(1, pieces.len() as int);
        lemma_concat_with_push(tail, p, sep);
        assert(w.subrange(1, w.len() as int) =~= tail.push(p));
        assert(concat_with(w, sep) == w[0] + sep + concat_with(tail.push(p), sep));
        assert(w[0] == pieces[0]);
        assert(concat_with(tail.push(p), sep) == concat_with(tail, sep) + sep + p);
        assert(pieces[0] + sep + (concat_with(tail, sep) + sep + p) =~= (pieces[0] + sep
            + concat_with(tail, sep)) + sep + p);
    }
}

// ---------------------------------------------------------------------------
// Lexicographic comparison (by Unicode code point)
// ---------------------------------------------------------------------------

/// `a` is lexicographically at most `b`, comparing code points.
pub open spec fn lex_le(a: Seq<char>, b: Seq<char>) -> bool
    decreases a.len(),
{
    if a.len() == 0 {
        true
    } else if b.len() == 0 {
        false
    } else if (a[0] as u32) < (b[0] as u32) {
        true
    } else if (a[0] as u32) > (b[0] as u32) {
        false
    } else {
        lex_le(a.subrange(1, a.len() as int), b.subrange(1, b.len() as int))
    }
}

/// The order is total.
pub proof fn lemma_lex_le_total(a: Seq<char>, b: Seq<char>)
    ensures
        lex_le(a, b) || lex_le(b, a),
    decreases a.len(),
{
    if a.len() > 0 && b.len() > 0 && a[0] as u32 == b[0] as u32 {
        lemma_lex_le_total(a.subrange(1, a.len() as int), b.subrange(1, b.len() as int));
    }
}

/// The order is reflexive.
pub proof fn lemma_lex_le_refl(a: Seq<char>)
    ensures
        lex_le(a, a),
{
    lemma_lex_le_total(a, a);
}

/// The order is transitive.
pub proof fn lemma_lex_le_trans(a: Seq<char>, b: Seq<char>, c: Seq<char>)
    requires
        lex_le(a, b),
        lex_le(b, c),
    ensures
        lex_le(a, c),
    decreases a.len(),
{
    if a.len() == 0 {
    } else if b.len() == 0 {
    } else if c.len() == 0 {
    } else {
        if a[0] as u32 == b[0] as u32 && b[0] as u32 == c[0] as u32 {
            lemma_lex_le_trans(
                a.subrange(1, a.len() as int),
                b.subrange(1, b.len() as int),
                c.subrange(1, c.len() as int),
            );
        }
    }
}

/// Decides `lex_le`.
#[verifier::loop_isolation(false)]
pub fn lex_le_exec(a: &Vec<char>, b: &Vec<char>) -> (r: bool)
    ensures
        r == lex_le(a@, b@),
{
    let mut i: usize = 0;
    proof {
        assert(a@.subrange(0, a@.len() as int) =~= a@);
        assert(b@.subrange(0, b@.len() as int) =~= b@);
    }
    loop
        invariant
            0 <= i <= a@.len(),
            i <= b@.len(),
            lex_le(a@, b@) == lex_le(
                a@.subrange(i as int, a@.len() as int),
                b@.subrange(i as int, b@.len() as int),
            ),
        decreases a@.len() - i,
    {
        let ghost sa = a@.subrange(i as int, a@.len() as int);
        let ghost sb = b@.subrange(i as int, b@.len() as int);
        if i == a.len() {
            proof {
                assert(sa.len() == 0);
            }
            return true;
        }
        if i == b.len() {
            proof {
                assert(sb.len() == 0 && sa.len() > 0);
            }
            return false;
        }
        let ca = a[i] as u32;
        let cb = b[i] as u32;
        proof {
            assert(sa[0] == a@[i as int]);
            assert(sb[0] == b@[i as int]);
        }
        if ca < cb {
            return true;
        }
        if ca > cb {
            return false;
        }
        i = i + 1;
        proof {
            assert(sa.subrange(1, sa.len() as int) =~= a@.subrange(i as int, a@.len() as int));
            assert(sb.subrange(1, sb.len() as int) =~= b@.subrange(i as int, b@.len() as int));
        }
    }
}

/// Decides whether `c` occurs in `h`.
pub fn contains_char_exec(h: &Vec<char>, c: char) -> (r: bool)
    ensures
        r == h@.contains(c),
{
    let mut i: usize = 0;
    while i < h.len()
        invariant
            0 <= i <= h@.len(),
            forall|j: int| 0 <= j < i ==> h@[j] != c,
        decreases h@.len() - i,
    {
        if h[i] == c {
            return true;
        }
        i = i + 1;
    }
    false
}

// ---------------------------------------------------------------------------
// Trimmedness
// ---------------------------------------------------------------------------

/// A sequence neither starts nor ends with white space.
pub open spec fn is_trimmed(s: Seq<char>) -> bool {
    s.len() == 0 || (!is_ws(s[0]) && !is_ws(s[s.len() - 1]))
}

/// `trim_start_spec` returns the suffix after the longest white-space prefix.
pub proof fn lemma_trim_start_props(s: Seq<char>)
    ensures
        trim_start_spec(s).len() <= s.len(),
        trim_start_spec(s) == s.subrange(s.len() - trim_start_spec(s).len(), s.len() as int),
        trim_start_spec(s).len() > 0 ==> !is_ws(trim_start_spec(s)[0]),
        forall|j: int| 0 <= j < s.len() - trim_start_spec(s).len() ==> is_ws(s[j]),
    decreases s.len(),
{
    if s.len() > 0 && is_ws(s[0]) {
        let t = s.subrange(1, s.len() as int);
        lemma_trim_start_props(t);
        assert(t.subrange(t.len() - trim_start_spec(t).len(), t.len() as int) =~= s.subrange(
            s.len() - trim_start_spec(s).len(),
            s.len() as int,
        ));
        assert forall|j: int| 0 <= j < s.len() - trim_start_spec(s).len() implies is_ws(s[j]) by {
            if j > 0 {
                assert(s[j] == t[j - 1]);
            }
        }
    } else {
        assert(s.subrange(0, s.len() as int) =~= s);
    }
}

/// `trim_end_spec` returns the prefix before the longest white-space suffix.
pub proof fn lemma_trim_end_props(s: Seq<char>)
    ensures
        trim_end_spec(s).len() <= s.len(),
        trim_end_spec(s) == s.subrange(0, trim_end_spec(s).len() as int),
        trim_end_spec(s).len() > 0 ==> !is_ws(trim_end_spec(s)[trim_end_spec(s).len() - 1]),
        forall|j: int| trim_end_spec(s).len() <= j < s.len() ==> is_ws(s[j]),
    decreases s.len(),
{
    if s.len() > 0 && is_ws(s[s.len() - 1]) {
        let t = s.subrange(0, s.len() - 1);
        lemma_trim_end_props(t);
        assert(t.subrange(0, trim_end_spec(t).len() as int) =~= s.subrange(
            0,
            trim_end_spec(s).len() as int,
        ));
        assert forall|j: int| trim_end_spec(s).len() <= j < s.len() implies is_ws(s[j]) by {
            if j < s.len() - 1 {
                assert(s[j] == t[j]);
            }
        }
    } else {
        assert(s.subrange(0, s.len() as int) =~= s);
    }
}

/// A sequence is unchanged by trimming exactly when it is trimmed.
pub proof fn lemma_trimmed_fix(s: Seq<char>)
    ensures
        is_trimmed(s) <==> trim_spec(s) == s,
{
    lemma_trim_start_props(s);
    let t = trim_start_spec(s);
    lemma_trim_end_props(t);
    if is_trimmed(s) {
        assert(trim_start_spec(s) == s);
        assert(trim_end_spec(s) == s);
    } else {
        if trim_spec(s) == s {
            assert(trim_end_spec(t).len() <= t.len() <= s.len());
            assert(t == s && trim_end_spec(t) == s);
            if s.len() > 0 {
                assert(!is_ws(s[0]) && !is_ws(s[s.len() - 1]));
            }
        }
    }
}

/// Trimming strips any white-space padding around a trimmed, non-empty core.
pub proof fn lemma_trim_padded(p: Seq<char>, e: Seq<char>, q: Seq<char>)
    requires
        forall|j: int| 0 <= j < p.len() ==> is_ws(p[j]),
        forall|j: int| 0 <= j < q.len() ==> is_ws(q[j]),
        is_trimmed(e),
        e.len() > 0,
    ensures
        trim_spec(p + e + q) == e,
{
    let s = p + e + q;
    lemma_trim_start_skip(s, p.len() as int);
    assert(s.subrange(p.len() as int, s.len() as int) =~= e + q);
    assert(trim_start_spec(s) == trim_start_spec(e + q));
    assert(!is_ws((e + q)[0]));
    assert(trim_start_spec(e + q) == e + q);
    lemma_trim_end_take(e + q, e.len() as int);
    assert((e + q).subrange(0, e.len() as int) =~= e);
    assert(trim_end_spec(e + q) == trim_end_spec(e));
    assert(e.len() > 0 && !is_ws(e[e.len() - 1]));
    assert(trim_end_spec(e) == e);
}

// ---------------------------------------------------------------------------
// Unicode case conversion (through the standard library)
// ---------------------------------------------------------------------------

/// What `str::to_lowercase` returns: a function of the characters alone.
pub uninterp spec fn lower_of(s: Seq<char>) -> Seq<char>;

/// What `str::to_uppercase` returns: a function of the characters alone.
pub uninterp spec fn upper_of(s: Seq<char>) -> Seq<char>;

/// Relies on `str::to_lowercase`: the result depends on the characters alone.
#[verifier::external_body]
pub(crate) fn to_lower_string(s: &str) -> (r: String)
    ensures
        r@ == lower_of(s@),
{
    s.to_lowercase()
}

/// Relies on `str::to_uppercase`: the result depends on the characters alone.
#[verifier::external_body]
pub(crate) fn to_upper_string(s: &str) -> (r: String)
    ensures
        r@ == upper_of(s@),
{
    s.to_uppercase()
}

} // verus!
