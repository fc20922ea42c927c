//! Character-sequence helpers: lexicographic order, equality and
//! searching, with executable counterparts proved against the spec.
use vstd::prelude::*;

verus! {

/// Strict lexicographic order on character sequences, comparing
/// scalar values position by position.
pub open spec fn lex_lt(a: Seq<char>, b: Seq<char>) -> bool
    decreases a.len(),
{
    if b.len() == 0 {
        false
    } else if a.len() == 0 {
        true
    } else if (a[0] as u32) < (b[0] as u32) {
        true
    } else if (a[0] as u32) > (b[0] as u32) {
        false
    } else {
        lex_lt(a.skip(1), b.skip(1))
    }
}

pub proof fn lemma_lex_lt_asymmetric(a: Seq<char>, b: Seq<char>)
    ensures
        lex_lt(a, b) ==> !lex_lt(b, a),
    decreases a.len(),
{
    if a.len() > 0 && b.len() > 0 && (a[0] as u32) == (b[0] as u32) {
        lemma_lex_lt_asymmetric(a.skip(1), b.skip(1));
    }
}

pub proof fn lemma_lex_lt_total(a: Seq<char>, b: Seq<char>)
    ensures
        !lex_lt(a, b) && !lex_lt(b, a) ==> a == b,
    decreases a.len(),
{
    if !lex_lt(a, b) && !lex_lt(b, a) {
        if a.len() == 0 && b.len() == 0 {
            assert(a =~= b);
        } else if a.len() > 0 && b.len() > 0 {
            assert((a[0] as u32) == (b[0] as u32));
            vstd::utf8::char_u32_cast(a[0], a[0] as u32);
            vstd::utf8::char_u32_cast(b[0], b[0] as u32);
            assert(a[0] == b[0]);
            lemma_lex_lt_total(a.skip(1), b.skip(1));
            assert(a.skip(1) == b.skip(1));
            assert(a =~= seq![a[0]] + a.skip(1));
            assert(b =~= seq![b[0]] + b.skip(1));
        }
    }
}

pub proof fn lemma_lex_lt_transitive(a: Seq<char>, b: Seq<char>, c: Seq<char>)
    ensures
        lex_lt(a, b) && lex_lt(b, c) ==> lex_lt(a, c),
    decreases a.len() + b.len() + c.len(),
{
    if lex_lt(a, b) && lex_lt(b, c) {
        if b.len() == 0 {
            // lex_lt(a, b) is false; nothing to do
        } else if c.len() == 0 {
            // lex_lt(b, c) is false; nothing to do
        } else if a.len() == 0 {
            // lex_lt(a, c) holds since c is nonempty
        } else {
            if (a[0] as u32) < (b[0] as u32) || (b[0] as u32) < (c[0] as u32) {
                // head comparison settles lex_lt(a, c)
            } else {
                lemma_lex_lt_transitive(a.skip(1), b.skip(1), c.skip(1));
            }
        }
    }
}

/// Executable strict lexicographic comparison of two string slices.
pub fn str_lt(a: &str, b: &str) -> (r: bool)
    ensures
        r == lex_lt(a@, b@),
    decreases a@.len(),
{
    let alen = a.unicode_len();
    let blen = b.unicode_len();
    if blen == 0 {
        false
    } else if alen == 0 {
        true
    } else {
        let ca = a.get_char(0);
        let cb = b.get_char(0);
        if (ca as u32) < (cb as u32) {
            true
        } else if (ca as u32) > (cb as u32) {
            false
        } else {
            let ta = a.substring_char(1, alen);
            let tb = b.substring_char(1, blen);
            proof {
                assert(ta@ =~= a@.skip(1));
                assert(tb@ =~= b@.skip(1));
            }
            str_lt(ta, tb)
        }
    }
}

/// Executable equality of two string slices, stated over their views.
pub fn str_eq(a: &str, b: &str) -> (r: bool)
    ensures
        r == (a@ == b@),
{
    let alen = a.unicode_len();
    let blen = b.unicode_len();
    if alen != blen {
        return false;
    }
    let mut i: usize = 0;
    while i < alen
        invariant
            a@.len() == alen,
            b@.len() == blen,
            alen == blen,
            0 <= i <= alen,
            forall|j: int| 0 <= j < i ==> a@[j] == b@[j],
        decreases alen - i,
    {
        if a.get_char(i) != b.get_char(i) {
            return false;
        }
        i = i + 1;
    }
    proof {
        assert(a@ =~= b@);
    }
    true
}

/// Index of the first occurrence of `c` in `s`, or -1 when absent.
pub open spec fn spec_find(s: Seq<char>, c: char) -> int
    decreases s.len(),
{
    if s.len() == 0 {
        -1
    } else if s[0] == c {
        0
    } else {
        let r = spec_find(s.skip(1), c);
        if r < 0 {
            -1
        } else {
            r + 1
        }
    }
}

pub proof fn lemma_spec_find(s: Seq<char>, c: char)
    ensures
        spec_find(s, c) == -1 ==> forall|j: int| 0 <= j < s.len() ==> s[j] != c,
        spec_find(s, c) != -1 ==> {
            &&& 0 <= spec_find(s, c) < s.len()
            &&& s[spec_find(s, c)] == c
            &&& forall|j: int| 0 <= j < spec_find(s, c) ==> s[j] != c
        },
    decreases s.len(),
{
    if s.len() > 0 && s[0] != c {
        lemma_spec_find(s.skip(1), c);
        assert(forall|j: int| 1 <= j < s.len() ==> s[j] == s.skip(1)[j - 1]);
    }
}

/// Executable search for the first occurrence of a character.
pub fn find_char(s: &str, c: char) -> (r: Option<usize>)
    ensures
        match r {
            Some(i) => spec_find(s@, c) == i as int,
            None => spec_find(s@, c) == -1,
        },
{
    proof {
        lemma_spec_find(s@, c);
    }
    let len = s.unicode_len();
    let mut i: usize = 0;
    while i < len
        invariant
            s@.len() == len,
            0 <= i <= len,
            forall|j: int| 0 <= j < i ==> s@[j] != c,
            spec_find(s@, c) == -1 ==> forall|j: int| 0 <= j < s@.len() ==> s@[j] != c,
            spec_find(s@, c) != -1 ==> {
                &&& 0 <= spec_find(s@, c) < s@.len()
                &&& s@[spec_find(s@, c)] == c
                &&& forall|j: int| 0 <= j < spec_find(s@, c) ==> s@[j] != c
            },
        decreases len - i,
    {
        if s.get_char(i) == c {
            return Some(i);
        }
        i = i + 1;
    }
    None
}

/// Whether any character of `s` equals `c`.
pub open spec fn contains_char(s: Seq<char>, c: char) -> bool {
    exists|j: int| 0 <= j < s.len() && s[j] == c
}

pub proof fn lemma_find_contains(s: Seq<char>, c: char)
    ensures
        contains_char(s, c) <==> spec_find(s, c) != -1,
{
    lemma_spec_find(s, c);
    if contains_char(s, c) {
        let j = choose|j: int| 0 <= j < s.len() && s[j] == c;
        if spec_find(s, c) == -1 {
            assert(s[j] != c);
        }
    }
}

} // verus!
