//! Character-sequence utilities shared by the request decoder and the
//! response builder: conversions between `&str`, `String` and `Vec<char>`,
//! splitting, trimming, case normalization, and decimal rendering/parsing.

use vstd::prelude::*;

verus! {

use vstd::string::StrSliceExecFns;

/// Relies on `String::push`: appends exactly one character.
#[verifier::external_body]
pub fn push_char(s: &mut String, c: char)
    ensures
        final(s)@ == old(s)@.push(c),
{
    s.push(c);
}

/// The characters of a string slice, as a vector.
pub fn chars_of(s: &str) -> (r: Vec<char>)
    ensures
        r@ == s@,
{
    let n = s.unicode_len();
    let mut r: Vec<char> = Vec::new();
    let mut i: usize = 0;
    while i < n
        invariant
            n == s@.len(),
            i <= n,
            r@ == s@.take(i as int),
        decreases n - i,
    {
        let c = s.get_char(i);
        r.push(c);
        i += 1;
        proof {
            assert(r@ =~= s@.take(i as int));
        }
    }
    proof {
        assert(r@ =~= s@);
    }
    r
}

/// A string holding exactly the given characters.
pub fn string_from_chars(v: &Vec<char>) -> (s: String)
    ensures
        s@ == v@,
{
    let mut s = String::new();
    let mut i: usize = 0;
    while i < v.len()
        invariant
            i <= v@.len(),
            s@ == v@.take(i as int),
        decreases v@.len() - i,
    {
        push_char(&mut s, v[i]);
        i += 1;
        proof {
            assert(s@ =~= v@.take(i as int));
        }
    }
    proof {
        assert(s@ =~= v@);
    }
    s
}

/// Whether a character vector spells the same text as a string slice.
pub fn chars_eq_str(v: &Vec<char>, s: &str) -> (r: bool)
    ensures
        r == (v@ == s@),
{
    let n = s.unicode_len();
    if v.len() != n {
        proof {
            assert(v@ != s@);
        }
        return false;
    }
    let mut i: usize = 0;
    while i < n
        invariant
            n == s@.len(),
            v@.len() == n,
            i <= n,
            forall|j: int| 0 <= j < i ==> v@[j] == s@[j],
        decreases n - i,
    {
        if v[i] != s.get_char(i) {
            proof {
                assert(v@ != s@);
            }
            return false;
        }
        i += 1;
    }
    proof {
        assert(v@ =~= s@);
    }
    true
}

/// An owned copy of a string slice.
pub fn str_to_string(s: &str) -> (r: String)
    ensures
        r@ == s@,
{
    s.to_owned()
}

/// Whether the text begins with the given prefix.
pub fn str_starts_with(s: &str, prefix: &str) -> (r: bool)
    ensures
        r == (s@.len() >= prefix@.len() && s@.take(prefix@.len() as int) == prefix@),
{
    let n = prefix.unicode_len();
    if s.unicode_len() < n {
        return false;
    }
    let mut i: usize = 0;
    while i < n
        invariant
            n == prefix@.len(),
            s@.len() >= n,
            i <= n,
            forall|j: int| 0 <= j < i ==> s@[j] == prefix@[j],
        decreases n - i,
    {
        if s.get_char(i) != prefix.get_char(i) {
            proof {
                assert(s@.take(n as int)[i as int] != prefix@[i as int]);
            }
            return false;
        }
        i += 1;
    }
    proof {
        assert(s@.take(n as int) =~= prefix@);
    }
    true
}

/// Whether two string slices spell the same text.
pub fn str_eq(a: &str, b: &str) -> (r: bool)
    ensures
        r == (a@ == b@),
{
    let n = a.unicode_len();
    if b.unicode_len() != n {
        proof {
            assert(a@ != b@);
        }
        return false;
    }
    let mut i: usize = 0;
    while i < n
        invariant
            n == a@.len(),
            b@.len() == n,
            i <= n,
            forall|j: int| 0 <= j < i ==> a@[j] == b@[j],
        decreases n - i,
    {
        if a.get_char(i) != b.get_char(i) {
            proof {
                assert(a@ != b@);
            }
            return false;
        }
        i += 1;
    }
    proof {
        assert(a@ =~= b@);
    }
    true
}

/// Splitting a character sequence on every occurrence of a separator,
/// exactly as `str::split` does: the empty sequence yields one empty piece,
/// and a trailing separator yields a trailing empty piece.
pub open spec fn split_at_char(s: Seq<char>, sep: char) -> Seq<Seq<char>>
    decreases s.len(),
{
    if s.len() == 0 {
        seq![Seq::<char>::empty()]
    } else if s[0] == sep {
        seq![Seq::<char>::empty()] + split_at_char(s.skip(1), sep)
    } else {
        let rest = split_at_char(s.skip(1), sep);
        seq![seq![s[0]] + rest[0]] + rest.skip(1)
    }
}

pub proof fn lemma_split_at_char_len(s: Seq<char>, sep: char)
    ensures
        split_at_char(s, sep).len() >= 1,
    decreases s.len(),
{
    if s.len() > 0 {
        lemma_split_at_char_len(s.skip(1), sep);
    }
}

/// A piece with no separator splits into itself alone.
pub proof fn lemma_split_no_sep(s: Seq<char>, sep: char)
    requires
        forall|i: int| 0 <= i < s.len() ==> s[i] != sep,
    ensures
        split_at_char(s, sep) == seq![s],
    decreases s.len(),
{
    if s.len() == 0 {
        assert(split_at_char(s, sep) =~~= seq![s]);
    } else {
        lemma_split_no_sep(s.skip(1), sep);
        assert(seq![s[0]] + s.skip(1) =~= s);
        assert(split_at_char(s, sep) =~~= seq![s]);
    }
}

/// The first separator cuts off the first piece.
pub proof fn lemma_split_head(a: Seq<char>, b: Seq<char>, sep: char)
    requires
        forall|i: int| 0 <= i < a.len() ==> a[i] != sep,
    ensures
        split_at_char(a + seq![sep] + b, sep) == seq![a] + split_at_char(b, sep),
    decreases a.len(),
{
    let s = a + seq![sep] + b;
    if a.len() == 0 {
        assert(s[0] == sep);
        assert(s.skip(1) =~= b);
        assert(split_at_char(s, sep) =~~= seq![a] + split_at_char(b, sep));
    } else {
        assert(s[0] == a[0]);
        assert(s.skip(1) =~= a.skip(1) + seq![sep] + b);
        lemma_split_head(a.skip(1), b, sep);
        let rest = split_at_char(s.skip(1), sep);
        assert(rest == seq![a.skip(1)] + split_at_char(b, sep));
        assert(rest[0] == a.skip(1));
        assert(seq![s[0]] + rest[0] =~= a);
        lemma_split_at_char_len(b, sep);
        assert(rest.skip(1) =~= split_at_char(b, sep));
        assert(split_at_char(s, sep) =~~= seq![a] + split_at_char(b, sep));
    }
}

/// The texts held by a vector of character vectors.
pub open spec fn views_of(r: Seq<Vec<char>>) -> Seq<Seq<char>> {
    Seq::new(r.len(), |i: int| r[i]@)
}

/// Splits a character vector on every occurrence of `sep`.
pub fn split_char(v: &Vec<char>, sep: char) -> (r: Vec<Vec<char>>)
    ensures
        views_of(r@) == split_at_char(v@, sep),
        r@.len() >= 1,
{
    let mut r: Vec<Vec<char>> = Vec::new();
    let mut piece: Vec<char> = Vec::new();
    let mut start: usize = 0;
    let mut i: usize = 0;
    proof {
        assert(v@.skip(0) =~= v@);
        assert(views_of(r@) + split_at_char(v@, sep) =~= split_at_char(v@, sep));
        assert(piece@ =~= v@.subrange(0, 0));
    }
    while i < v.len()
        invariant
            start <= i <= v@.len(),
            piece@ == v@.subrange(start as int, i as int),
            forall|j: int| start <= j < i ==> v@[j] != sep,
            split_at_char(v@, sep) == views_of(r@) + split_at_char(
                v@.skip(start as int),
                sep,
            ),
        decreases v@.len() - i,
    {
        if v[i] == sep {
            proof {
                let tail = v@.skip(start as int);
                let after = v@.skip(i as int + 1);
                assert(tail =~= piece@ + seq![sep] + after);
                lemma_split_head(piece@, after, sep);
            }
            let ghost old_r = r@;
            let ghost p = piece@;
            r.push(piece);
            piece = Vec::new();
            start = i + 1;
            proof {
                assert(views_of(r@) =~= views_of(old_r) + seq![p]);
                assert(split_at_char(v@, sep) =~= views_of(r@) + split_at_char(
                    v@.skip(start as int),
                    sep,
                ));
                assert(piece@ =~= v@.subrange(start as int, start as int));
            }
        } else {
            piece.push(v[i]);
            proof {
                assert(piece@ =~= v@.subrange(start as int, i as int + 1));
            }
        }
        i += 1;
    }
    proof {
        let tail = v@.skip(start as int);
        assert(piece@ =~= tail);
        lemma_split_no_sep(tail, sep);
    }
    let ghost old_r = r@;
    let ghost p = piece@;
    r.push(piece);
    proof {
        assert(views_of(r@) =~= views_of(old_r) + seq![p]);
        assert(views_of(r@) =~= split_at_char(v@, sep));
        lemma_split_at_char_len(v@, sep);
    }
    r
}

/// Splitting on a two-character separator, as `str::split` with a two-byte
/// pattern: leftmost, non-overlapping occurrences cut the sequence.
pub open spec fn split_at_str2(s: Seq<char>, c1: char, c2: char) -> Seq<Seq<char>>
    decreases s.len(),
{
    if s.len() < 2 {
        seq![s]
    } else if s[0] == c1 && s[1] == c2 {
        seq![Seq::<char>::empty()] + split_at_str2(s.skip(2), c1, c2)
    } else {
        let rest = split_at_str2(s.skip(1), c1, c2);
        seq![seq![s[0]] + rest[0]] + rest.skip(1)
    }
}

pub proof fn lemma_split_at_str2_len(s: Seq<char>, c1: char, c2: char)
    ensures
        split_at_str2(s, c1, c2).len() >= 1,
    decreases s.len(),
{
    if s.len() >= 2 {
        if s[0] == c1 && s[1] == c2 {
            lemma_split_at_str2_len(s.skip(2), c1, c2);
        } else {
            lemma_split_at_str2_len(s.skip(1), c1, c2);
        }
    }
}

/// A piece with no separator occurrence splits into itself alone.
pub proof fn lemma_split2_no_sep(s: Seq<char>, c1: char, c2: char)
    requires
        forall|j: int| 0 <= j && j + 1 < s.len() ==> !(#[trigger] s[j] == c1 && s[j + 1] == c2),
    ensures
        split_at_str2(s, c1, c2) == seq![s],
    decreases s.len(),
{
    if s.len() < 2 {
        assert(split_at_str2(s, c1, c2) =~~= seq![s]);
    } else {
        assert(!(s[0] == c1 && s[1] == c2));
        assert(forall|j: int|
            0 <= j && j + 1 < s.skip(1).len() ==> !(#[trigger] s.skip(1)[j] == c1 && s.skip(1)[j + 1]
                == c2)) by {
            assert(forall|j: int|
                0 <= j && j + 1 < s.skip(1).len() ==> #[trigger] s.skip(1)[j] == s[j + 1] && s.skip(1)[j + 1]
                    == s[j + 2]);
        }
        lemma_split2_no_sep(s.skip(1), c1, c2);
        assert(seq![s[0]] + s.skip(1) =~= s);
        assert(split_at_str2(s, c1, c2) =~~= seq![s]);
    }
}

/// The first separator occurrence cuts off the first piece (for separators
/// whose two characters differ, so occurrences cannot overlap).
pub proof fn lemma_split2_head(a: Seq<char>, b: Seq<char>, c1: char, c2: char)
    requires
        c1 != c2,
        forall|j: int| 0 <= j && j + 1 < a.len() ==> !(#[trigger] a[j] == c1 && a[j + 1] == c2),
    ensures
        split_at_str2(a + seq![c1, c2] + b, c1, c2) == seq![a] + split_at_str2(b, c1, c2),
    decreases a.len(),
{
    let s = a + seq![c1, c2] + b;
    if a.len() == 0 {
        assert(s[0] == c1 && s[1] == c2);
        assert(s.skip(2) =~= b);
        assert(split_at_str2(s, c1, c2) =~~= seq![a] + split_at_str2(b, c1, c2));
    } else {
        assert(s[0] == a[0]);
        assert(s[1] == (if a.len() == 1 { c1 } else { a[1] }));
        assert(!(s[0] == c1 && s[1] == c2));
        assert(s.skip(1) =~= a.skip(1) + seq![c1, c2] + b);
        assert(forall|j: int|
            0 <= j && j + 1 < a.skip(1).len() ==> !(#[trigger] a.skip(1)[j] == c1 && a.skip(1)[j + 1]
                == c2)) by {
            assert(forall|j: int|
                0 <= j && j + 1 < a.skip(1).len() ==> #[trigger] a.skip(1)[j] == a[j + 1] && a.skip(1)[j + 1]
                    == a[j + 2]);
        }
        lemma_split2_head(a.skip(1), b, c1, c2);
        let rest = split_at_str2(s.skip(1), c1, c2);
        assert(rest == seq![a.skip(1)] + split_at_str2(b, c1, c2));
        assert(rest[0] == a.skip(1));
        assert(seq![s[0]] + rest[0] =~= a);
        lemma_split_at_str2_len(b, c1, c2);
        assert(rest.skip(1) =~= split_at_str2(b, c1, c2));
        assert(split_at_str2(s, c1, c2) =~~= seq![a] + split_at_str2(b, c1, c2));
    }
}

/// Splits a character vector on every occurrence of the two-character
/// separator `c1 c2`; the two characters must differ.
pub fn split_str2(v: &Vec<char>, c1: char, c2: char) -> (r: Vec<Vec<char>>)
    requires
        c1 != c2,
    ensures
        views_of(r@) == split_at_str2(v@, c1, c2),
        r@.len() >= 1,
{
    let mut r: Vec<Vec<char>> = Vec::new();
    let mut piece: Vec<char> = Vec::new();
    let mut start: usize = 0;
    let mut i: usize = 0;
    proof {
        assert(v@.skip(0) =~= v@);
        assert(views_of(r@) + split_at_str2(v@, c1, c2) =~= split_at_str2(v@, c1, c2));
        assert(piece@ =~= v@.subrange(0, 0));
    }
    while i < v.len()
        invariant
            c1 != c2,
            start <= i <= v@.len(),
            piece@ == v@.subrange(start as int, i as int),
            forall|j: int| start <= j < i && j + 1 < v@.len() ==> !(#[trigger] v@[j] == c1 && v@[j + 1] == c2),
            split_at_str2(v@, c1, c2) == views_of(r@) + split_at_str2(
                v@.skip(start as int),
                c1,
                c2,
            ),
        decreases v@.len() - i,
    {
        if i + 1 < v.len() && v[i] == c1 && v[i + 1] == c2 {
            proof {
                let tail = v@.skip(start as int);
                let after = v@.skip(i as int + 2);
                assert(tail =~= piece@ + seq![c1, c2] + after);
                assert(forall|j: int|
                    0 <= j && j + 1 < piece@.len() ==> #[trigger] piece@[j] == v@[start + j] && piece@[j + 1]
                        == v@[start + j + 1]);
                lemma_split2_head(piece@, after, c1, c2);
            }
            let ghost old_r = r@;
            let ghost p = piece@;
            r.push(piece);
            piece = Vec::new();
            start = i + 2;
            i += 2;
            proof {
                assert(views_of(r@) =~= views_of(old_r) + seq![p]);
                assert(split_at_str2(v@, c1, c2) =~= views_of(r@) + split_at_str2(
                    v@.skip(start as int),
                    c1,
                    c2,
                ));
                assert(piece@ =~= v@.subrange(start as int, start as int));
            }
        } else {
            piece.push(v[i]);
            i += 1;
            proof {
                assert(piece@ =~= v@.subrange(start as int, i as int));
            }
        }
    }
    proof {
        let tail = v@.skip(start as int);
        assert(piece@ =~= tail);
        assert(forall|j: int|
            0 <= j && j + 1 < tail.len() ==> #[trigger] tail[j] == v@[start + j] && tail[j + 1] == v@[start + j
                + 1]);
        lemma_split2_no_sep(tail, c1, c2);
    }
    let ghost old_r = r@;
    let ghost p = piece@;
    r.push(piece);
    proof {
        assert(views_of(r@) =~= views_of(old_r) + seq![p]);
        assert(views_of(r@) =~= split_at_str2(v@, c1, c2));
        lemma_split_at_str2_len(v@, c1, c2);
    }
    r
}

/// Index of the first occurrence of a character, if any.
pub open spec fn find_first(s: Seq<char>, sep: char) -> Option<int>
    decreases s.len(),
{
    if s.len() == 0 {
        None
    } else if s[0] == sep {
        Some(0int)
    } else {
        match find_first(s.skip(1), sep) {
            None => None,
            Some(i) => Some(i + 1),
        }
    }
}

pub proof fn lemma_find_first(s: Seq<char>, sep: char)
    ensures
        match find_first(s, sep) {
            None => forall|j: int| 0 <= j < s.len() ==> s[j] != sep,
            Some(i) => 0 <= i < s.len() && s[i] == sep && forall|j: int| 0 <= j < i ==> s[j] != sep,
        },
    decreases s.len(),
{
    if s.len() > 0 && s[0] != sep {
        lemma_find_first(s.skip(1), sep);
        assert(forall|j: int| 1 <= j < s.len() ==> s[j] == s.skip(1)[j - 1]);
    }
}

/// Index of the first occurrence of the two-character separator `c1 c2`,
/// if any.
pub open spec fn find_first2(s: Seq<char>, c1: char, c2: char) -> Option<int>
    decreases s.len(),
{
    if s.len() < 2 {
        None
    } else if s[0] == c1 && s[1] == c2 {
        Some(0int)
    } else {
        match find_first2(s.skip(1), c1, c2) {
            None => None,
            Some(i) => Some(i + 1),
        }
    }
}

pub proof fn lemma_find_first2(s: Seq<char>, c1: char, c2: char)
    ensures
        match find_first2(s, c1, c2) {
            None => forall|j: int|
                0 <= j && j + 1 < s.len() ==> !(#[trigger] s[j] == c1 && s[j + 1] == c2),
            Some(i) => 0 <= i && i + 1 < s.len() && s[i] == c1 && s[i + 1] == c2 && forall|j: int|
                0 <= j < i ==> !(#[trigger] s[j] == c1 && s[j + 1] == c2),
        },
    decreases s.len(),
{
    if s.len() >= 2 && !(s[0] == c1 && s[1] == c2) {
        lemma_find_first2(s.skip(1), c1, c2);
        assert(forall|j: int| 1 <= j < s.len() ==> s[j] == s.skip(1)[j - 1]);
    }
}

/// Splitting once on the first occurrence of the two-character separator
/// `c1 c2`: the remainder after the separator is left whole.
pub open spec fn split_once_at2(s: Seq<char>, c1: char, c2: char) -> Option<
    (Seq<char>, Seq<char>),
> {
    match find_first2(s, c1, c2) {
        None => None,
        Some(i) => Some((s.take(i), s.skip(i + 2))),
    }
}

/// Cuts a character vector at the first occurrence of the two-character
/// separator `c1 c2`, if any.
pub fn split_once_str2(v: &Vec<char>, c1: char, c2: char) -> (r: Option<(Vec<char>, Vec<char>)>)
    ensures
        match r {
            None => split_once_at2(v@, c1, c2) is None,
            Some((a, b)) => split_once_at2(v@, c1, c2) == Some((a@, b@)),
        },
{
    let n = v.len();
    let mut i: usize = 0;
    while n - i >= 2
        invariant
            n == v@.len(),
            i <= n,
            forall|j: int| 0 <= j < i ==> !(#[trigger] v@[j] == c1 && v@[j + 1] == c2),
        decreases n - i,
    {
        if v[i] == c1 && v[i + 1] == c2 {
            let mut a: Vec<char> = Vec::new();
            let mut k: usize = 0;
            while k < i
                invariant
                    k <= i,
                    i + 1 < v@.len(),
                    a@ == v@.subrange(0, k as int),
                decreases i - k,
            {
                a.push(v[k]);
                k += 1;
                proof {
                    assert(a@ =~= v@.subrange(0, k as int));
                }
            }
            let mut b: Vec<char> = Vec::new();
            let mut m: usize = i + 2;
            while m < n
                invariant
                    n == v@.len(),
                    i + 2 <= m <= n,
                    b@ == v@.subrange(i as int + 2, m as int),
                decreases n - m,
            {
                b.push(v[m]);
                m += 1;
                proof {
                    assert(b@ =~= v@.subrange(i as int + 2, m as int));
                }
            }
            proof {
                lemma_find_first2(v@, c1, c2);
                if find_first2(v@, c1, c2) is None {
                    assert(!(v@[i as int] == c1 && v@[i as int + 1] == c2));
                    assert(false);
                }
                let f = find_first2(v@, c1, c2)->Some_0;
                if f < i as int {
                    assert(!(v@[f] == c1 && v@[f + 1] == c2));
                    assert(false);
                }
                if (i as int) < f {
                    assert(!(v@[i as int] == c1 && v@[i as int + 1] == c2));
                    assert(false);
                }
                assert(f == i as int);
                assert(a@ =~= v@.take(i as int));
                assert(b@ =~= v@.skip(i as int + 2));
            }
            return Some((a, b));
        }
        i += 1;
    }
    proof {
        lemma_find_first2(v@, c1, c2);
        if find_first2(v@, c1, c2) is Some {
            let f = find_first2(v@, c1, c2)->Some_0;
            assert(!(v@[f] == c1 && v@[f + 1] == c2));
            assert(false);
        }
    }
    None
}

/// Splitting once on the first occurrence of `sep`, as `str::splitn` with a
/// count of two: the remainder after the separator is left whole.
pub open spec fn split_once_at(s: Seq<char>, sep: char) -> Option<(Seq<char>, Seq<char>)> {
    match find_first(s, sep) {
        None => None,
        Some(i) => Some((s.take(i), s.skip(i + 1))),
    }
}

/// Cuts a character vector at the first occurrence of `sep`, if any.
pub fn split_once_char(v: &Vec<char>, sep: char) -> (r: Option<(Vec<char>, Vec<char>)>)
    ensures
        match r {
            None => split_once_at(v@, sep) is None,
            Some((a, b)) => split_once_at(v@, sep) == Some((a@, b@)),
        },
{
    let mut i: usize = 0;
    while i < v.len()
        invariant
            i <= v@.len(),
            forall|j: int| 0 <= j < i ==> v@[j] != sep,
        decreases v@.len() - i,
    {
        if v[i] == sep {
            let mut a: Vec<char> = Vec::new();
            let mut k: usize = 0;
            while k < i
                invariant
                    k <= i < v@.len(),
                    a@ == v@.subrange(0, k as int),
                decreases i - k,
            {
                a.push(v[k]);
                k += 1;
                proof {
                    assert(a@ =~= v@.subrange(0, k as int));
                }
            }
            let mut b: Vec<char> = Vec::new();
            let mut m: usize = i + 1;
            while m < v.len()
                invariant
                    i + 1 <= m <= v@.len(),
                    b@ == v@.subrange(i as int + 1, m as int),
                decreases v@.len() - m,
            {
                b.push(v[m]);
                m += 1;
                proof {
                    assert(b@ =~= v@.subrange(i as int + 1, m as int));
                }
            }
            proof {
                lemma_find_first(v@, sep);
                if find_first(v@, sep) is None {
                    assert(v@[i as int] != sep);
                    assert(false);
                }
                let f = find_first(v@, sep)->Some_0;
                assert(f == i as int);
                assert(a@ =~= v@.take(i as int));
                assert(b@ =~= v@.skip(i as int + 1));
            }
            return Some((a, b));
        }
        i += 1;
    }
    proof {
        lemma_find_first(v@, sep);
        if find_first(v@, sep) is Some {
            let f = find_first(v@, sep)->Some_0;
            assert(v@[f] != sep);
            assert(false);
        }
    }
    None
}

/// ASCII whitespace, the characters `str::trim` removes from ASCII text.
pub open spec fn is_ascii_ws(c: char) -> bool {
    c == ' ' || c == '\t' || c == '\r' || c == '\n'
}

/// Leading and trailing ASCII whitespace removed.
pub open spec fn trim_spec(s: Seq<char>) -> Seq<char> {
    trim_right(trim_left(s))
}

pub open spec fn trim_left(s: Seq<char>) -> Seq<char>
    decreases s.len(),
{
    if s.len() > 0 && is_ascii_ws(s[0]) {
        trim_left(s.skip(1))
    } else {
        s
    }
}

pub open spec fn trim_right(s: Seq<char>) -> Seq<char>
    decreases s.len(),
{
    if s.len() > 0 && is_ascii_ws(s[s.len() - 1]) {
        trim_right(s.take(s.len() - 1))
    } else {
        s
    }
}

proof fn lemma_trim_left_range(s: Seq<char>, k: int)
    requires
        0 <= k <= s.len(),
        forall|j: int| 0 <= j < k ==> is_ascii_ws(s[j]),
        k < s.len() ==> !is_ascii_ws(s[k]),
    ensures
        trim_left(s) == s.skip(k),
    decreases s.len(),
{
    if k == 0 {
        assert(s.skip(0) =~= s);
    } else {
        assert(is_ascii_ws(s[0]));
        assert(forall|j: int| 0 <= j < k - 1 ==> s.skip(1)[j] == s[j + 1]);
        lemma_trim_left_range(s.skip(1), k - 1);
        assert(s.skip(1).skip(k - 1) =~= s.skip(k));
    }
}

proof fn lemma_trim_right_range(s: Seq<char>, k: int)
    requires
        0 <= k <= s.len(),
        forall|j: int| k <= j < s.len() ==> is_ascii_ws(s[j]),
        k > 0 ==> !is_ascii_ws(s[k - 1]),
    ensures
        trim_right(s) == s.take(k),
    decreases s.len(),
{
    if k == s.len() {
        assert(s.take(k) =~= s);
    } else {
        assert(is_ascii_ws(s[s.len() - 1]));
        let t = s.take(s.len() - 1);
        assert(forall|j: int| 0 <= j < t.len() ==> t[j] == s[j]);
        lemma_trim_right_range(t, k);
        assert(t.take(k) =~= s.take(k));
    }
}

/// Removes leading and trailing ASCII whitespace.
pub fn trim_chars(v: &Vec<char>) -> (r: Vec<char>)
    ensures
        r@ == trim_spec(v@),
{
    let mut lo: usize = 0;
    while lo < v.len() && (v[lo] == ' ' || v[lo] == '\t' || v[lo] == '\r' || v[lo] == '\n')
        invariant
            lo <= v@.len(),
            forall|j: int| 0 <= j < lo ==> is_ascii_ws(v@[j]),
        decreases v@.len() - lo,
    {
        lo += 1;
    }
    let mut hi: usize = v.len();
    while hi > lo && (v[hi - 1] == ' ' || v[hi - 1] == '\t' || v[hi - 1] == '\r' || v[hi - 1]
        == '\n')
        invariant
            lo <= hi <= v@.len(),
            forall|j: int| 0 <= j < lo ==> is_ascii_ws(v@[j]),
            forall|j: int| hi <= j < v@.len() ==> is_ascii_ws(v@[j]),
        decreases hi,
    {
        hi -= 1;
    }
    let mut r: Vec<char> = Vec::new();
    let mut i: usize = lo;
    while i < hi
        invariant
            lo <= i <= hi <= v@.len(),
            r@ == v@.subrange(lo as int, i as int),
        decreases hi - i,
    {
        r.push(v[i]);
        i += 1;
        proof {
            assert(r@ =~= v@.subrange(lo as int, i as int));
        }
    }
    proof {
        lemma_trim_left_range(v@, lo as int);
        let t = v@.skip(lo as int);
        assert(forall|j: int| 0 <= j < t.len() ==> t[j] == v@[lo + j]);
        lemma_trim_right_range(t, hi - lo as int);
        assert(r@ =~= t.take(hi - lo as int));
    }
    r
}

/// Lower-case image of an ASCII letter; every other character is unchanged.
pub open spec fn ascii_lower_char(c: char) -> char {
    if 'A' <= c && c <= 'Z' {
        ((c as u8) + 32) as char
    } else {
        c
    }
}

/// Every ASCII upper-case letter mapped to its lower-case form.
pub open spec fn lower_chars(s: Seq<char>) -> Seq<char> {
    Seq::new(s.len(), |i: int| ascii_lower_char(s[i]))
}

/// Normalizes a character vector to ASCII lower case.
pub fn lower_vec(v: &Vec<char>) -> (r: Vec<char>)
    ensures
        r@ == lower_chars(v@),
{
    let mut r: Vec<char> = Vec::new();
    let mut i: usize = 0;
    while i < v.len()
        invariant
            i <= v@.len(),
            r@ == lower_chars(v@).take(i as int),
        decreases v@.len() - i,
    {
        let c = v[i];
        if 'A' <= c && c <= 'Z' {
            r.push(((c as u8) + 32) as char);
        } else {
            r.push(c);
        }
        i += 1;
        proof {
            assert(r@ =~= lower_chars(v@).take(i as int));
        }
    }
    proof {
        assert(r@ =~= lower_chars(v@));
    }
    r
}

/// Whether the vector holds the given character.
pub fn contains_char(v: &Vec<char>, c: char) -> (r: bool)
    ensures
        r == v@.contains(c),
{
    let mut i: usize = 0;
    while i < v.len()
        invariant
            i <= v@.len(),
            forall|j: int| 0 <= j < i ==> v@[j] != c,
        decreases v@.len() - i,
    {
        if v[i] == c {
            return true;
        }
        i += 1;
    }
    false
}

/// The character for a decimal digit value.
pub open spec fn dec_digit_char(d: int) -> char
    recommends
        0 <= d < 10,
{
    ((d + 48) as u8) as char
}

/// The usual decimal rendering of a number, most significant digit first,
/// with no leading zeros (zero itself is "0").
pub open spec fn dec_chars(n: nat) -> Seq<char>
    decreases n,
{
    if n < 10 {
        seq![dec_digit_char(n as int)]
    } else {
        dec_chars(n / 10).push(dec_digit_char((n % 10) as int))
    }
}

/// Renders a number in decimal.
pub fn u64_to_dec_string(n: u64) -> (s: String)
    ensures
        s@ == dec_chars(n as nat),
{
    let mut digits: Vec<char> = Vec::new();
    digits.push(((n % 10) as u8 + 48) as char);
    let mut m: u64 = n / 10;
    while m > 0
        invariant
            digits@.len() >= 1,
            m > 0 ==> dec_chars(n as nat) == dec_chars(m as nat) + digits@.reverse(),
            m == 0 ==> dec_chars(n as nat) == digits@.reverse(),
        decreases m,
    {
        let ghost old_digits = digits@;
        let ghost old_m = m as nat;
        digits.push(((m % 10) as u8 + 48) as char);
        m = m / 10;
        proof {
            assert(digits@.reverse() =~= seq![dec_digit_char((old_m % 10) as int)]
                + old_digits.reverse());
            if m > 0 {
                assert(dec_chars(old_m) == dec_chars(old_m / 10).push(
                    dec_digit_char((old_m % 10) as int),
                ));
                assert(dec_chars(old_m) + old_digits.reverse() =~= dec_chars(m as nat)
                    + digits@.reverse());
            } else {
                assert(old_m < 10);
                assert(dec_chars(old_m) =~= seq![dec_digit_char(old_m as int)]);
                assert(dec_chars(old_m) + old_digits.reverse() =~= digits@.reverse());
            }
        }
    }
    let mut s = String::new();
    let mut i: usize = digits.len();
    while i > 0
        invariant
            i <= digits@.len(),
            s@ == digits@.reverse().take(digits@.len() - i),
        decreases i,
    {
        i -= 1;
        push_char(&mut s, digits[i]);
        proof {
            assert(s@ =~= digits@.reverse().take(digits@.len() - i));
        }
    }
    proof {
        assert(s@ =~= digits@.reverse());
    }
    s
}

/// Whether the sequence is one or more decimal digits.
pub open spec fn is_dec_digits(s: Seq<char>) -> bool {
    s.len() > 0 && forall|i: int| 0 <= i < s.len() ==> '0' <= #[trigger] s[i] && s[i] <= '9'
}

/// The value of a sequence of decimal digits.
pub open spec fn dec_value(s: Seq<char>) -> nat
    decreases s.len(),
{
    if s.len() == 0 {
        0
    } else {
        (dec_value(s.take(s.len() - 1)) * 10 + (s[s.len() - 1] as nat - 48)) as nat
    }
}

/// What `str::parse` to an unsigned integer accepts: the digits, with one
/// optional leading plus sign.
pub open spec fn parse_dec_spec(s: Seq<char>) -> Option<nat> {
    let t = if s.len() > 0 && s[0] == '+' {
        s.skip(1)
    } else {
        s
    };
    if is_dec_digits(t) {
        Some(dec_value(t))
    } else {
        None
    }
}

proof fn lemma_dec_value_extend(s: Seq<char>, i: int)
    requires
        is_dec_digits(s),
        0 <= i <= s.len(),
    ensures
        dec_value(s) >= dec_value(s.take(i)),
    decreases s.len() - i,
{
    if i < s.len() {
        lemma_dec_value_extend(s, i + 1);
        assert(s.take(i + 1).take(i) =~= s.take(i));
        assert(dec_value(s.take(i + 1)) == dec_value(s.take(i)) * 10 + (s[i] as nat - 48));
    } else {
        assert(s.take(i) =~= s);
    }
}

/// Parses decimal digits (with an optional leading plus sign) to a number;
/// `None` on any other character or on a value that does not fit.
pub fn parse_usize_chars(v: &Vec<char>) -> (r: Option<usize>)
    ensures
        match parse_dec_spec(v@) {
            Some(n) => if n <= usize::MAX { r == Some(n as usize) } else { r is None },
            None => r is None,
        },
{
    let offset: usize = if v.len() > 0 && v[0] == '+' {
        1
    } else {
        0
    };
    proof {
        assert((offset == 1) == (v@.len() > 0 && v@[0] == '+'));
    }
    let ghost t = if offset == 1 {
        v@.skip(1)
    } else {
        v@
    };
    proof {
        assert(forall|j: int| 0 <= j < t.len() ==> t[j] == v@[j + offset]);
    }
    if v.len() == offset {
        proof {
            assert(!is_dec_digits(t));
        }
        return None;
    }
    let mut acc: usize = 0;
    let mut i: usize = offset;
    while i < v.len()
        invariant
            offset <= i <= v@.len(),
            offset <= 1,
            v@.len() > offset,
            (offset == 1) == (v@.len() > 0 && v@[0] == '+'),
            t == (if offset == 1 {
                v@.skip(1)
            } else {
                v@
            }),
            forall|j: int| offset <= j < i ==> '0' <= #[trigger] v@[j] && v@[j] <= '9',
            acc as nat == dec_value(t.take(i - offset)),
        decreases v@.len() - i,
    {
        let c = v[i];
        if !('0' <= c && c <= '9') {
            proof {
                assert(t[i - offset] == c);
                assert(!is_dec_digits(t));
            }
            return None;
        }
        let d = (c as u8 - 48) as usize;
        proof {
            assert(c as u8 == c as nat);
            assert(d as nat == c as nat - 48);
        }
        let ghost prev = acc as nat;
        let step = match acc.checked_mul(10) {
            Some(x) => x.checked_add(d),
            None => None,
        };
        proof {
            assert(t.take(i + 1 - offset).take(i - offset) =~= t.take(i - offset));
            assert(t.take(i + 1 - offset)[i - offset] == v@[i as int]);
            assert(dec_value(t.take(i + 1 - offset)) == prev * 10 + (c as nat - 48));
        }
        match step {
            Some(x) => {
                acc = x;
            },
            None => {
                proof {
                    assert(prev * 10 + d > usize::MAX);
                    if is_dec_digits(t) {
                        lemma_dec_value_extend(t, i + 1 - offset);
                        assert(dec_value(t) >= dec_value(t.take(i + 1 - offset)));
                    }
                }
                return None;
            },
        }
        i += 1;
    }
    proof {
        assert(t.take(v@.len() - offset) =~= t);
        assert(is_dec_digits(t));
    }
    Some(acc)
}

} // verus!
