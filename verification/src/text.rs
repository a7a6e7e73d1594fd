//! Character-level text helpers: case folding, conversion of string slices
//! to character vectors, and the lexicographic order on character sequences
//! that the index uses to break ties deterministically.

use vstd::prelude::*;

verus! {

/// The Unicode lowercase folding of a character sequence, as computed by
/// `str::to_lowercase`. The mapping is far too large to restate here, so it
/// is only named; everything the index claims about case-insensitive
/// matching is phrased in terms of this name.
pub uninterp spec fn lower_of(s: Seq<char>) -> Seq<char>;

/// Relies on `str::to_lowercase`: the result is a function of the input
/// characters alone, and the empty string lowers to the empty string.
#[verifier::external_body]
pub(crate) fn lowercase(s: &str) -> (r: String)
    ensures
        r@ == lower_of(s@),
        s@.len() == 0 ==> r@.len() == 0,
{
    s.to_lowercase()
}

/// Relies on `String::push`: appends exactly the one character.
#[verifier::external_body]
pub(crate) fn push_char(s: &mut String, c: char)
    ensures
        final(s)@ == old(s)@.push(c),
{
    s.push(c);
}

/// The characters of `s`, as a vector.
pub fn chars_of(s: &str) -> (r: Vec<char>)
    ensures
        r@ == s@,
{
    let n = s.unicode_len();
    let mut r: Vec<char> = Vec::new();
    let mut i: usize = 0;
    while i < n
        invariant
            i <= n,
            n == s@.len(),
            r@ == s@.take(i as int),
        decreases n - i,
    {
        let c = s.get_char(i);
        r.push(c);
        proof {
            assert(s@.take(i + 1 as int) =~= s@.take(i as int).push(s@[i as int]));
        }
        i = i + 1;
    }
    proof {
        assert(s@.take(n as int) =~= s@);
    }
    r
}

/// Strict lexicographic order on character sequences, comparing scalar
/// values position by position; a proper prefix comes before its extensions.
pub open spec fn lex_lt(a: Seq<char>, b: Seq<char>) -> bool
    decreases a.len(),
{
    if b.len() == 0 {
        false
    } else if a.len() == 0 {
        true
    } else if (a[0] as u32) < (b[0] as u32) {
        true
    } else if (b[0] as u32) < (a[0] as u32) {
        false
    } else {
        lex_lt(a.skip(1), b.skip(1))
    }
}

/// Two characters with the same scalar value are the same character.
pub proof fn lemma_char_eq_u32(a: char, b: char)
    requires
        a as u32 == b as u32,
    ensures
        a == b,
{
}

/// The lexicographic order is irreflexive.
pub proof fn lemma_lex_irrefl(a: Seq<char>)
    ensures
        !lex_lt(a, a),
    decreases a.len(),
{
    if a.len() > 0 {
        lemma_lex_irrefl(a.skip(1));
    }
}

/// The lexicographic order is transitive.
pub proof fn lemma_lex_trans(a: Seq<char>, b: Seq<char>, c: Seq<char>)
    requires
        lex_lt(a, b),
        lex_lt(b, c),
    ensures
        lex_lt(a, c),
    decreases a.len(),
{
    if a.len() > 0 && b.len() > 0 && c.len() > 0 {
        if a[0] as u32 == b[0] as u32 && b[0] as u32 == c[0] as u32 {
            lemma_lex_trans(a.skip(1), b.skip(1), c.skip(1));
        }
    }
}

/// The lexicographic order is total: two sequences are ordered or equal.
pub proof fn lemma_lex_total(a: Seq<char>, b: Seq<char>)
    ensures
        lex_lt(a, b) || lex_lt(b, a) || a == b,
    decreases a.len(),
{
    if a.len() > 0 && b.len() > 0 {
        if a[0] as u32 == b[0] as u32 {
            lemma_char_eq_u32(a[0], b[0]);
            lemma_lex_total(a.skip(1), b.skip(1));
            if a.skip(1) == b.skip(1) {
                assert(a =~= seq![a[0]] + a.skip(1));
                assert(b =~= seq![b[0]] + b.skip(1));
            }
        }
    } else if a.len() == 0 && b.len() == 0 {
        assert(a =~= b);
    }
}

/// Ordered sequences are distinct.
pub proof fn lemma_lex_asym(a: Seq<char>, b: Seq<char>)
    requires
        lex_lt(a, b),
    ensures
        !lex_lt(b, a),
        a != b,
{
    if lex_lt(b, a) {
        lemma_lex_trans(a, b, a);
        lemma_lex_irrefl(a);
    }
    if a == b {
        lemma_lex_irrefl(a);
    }
}

/// A proper prefix comes strictly before its extensions.
pub proof fn lemma_lex_proper_prefix(p: Seq<char>, v: Seq<char>)
    requires
        p.is_prefix_of(v),
        p.len() < v.len(),
    ensures
        lex_lt(p, v),
    decreases p.len(),
{
    if p.len() > 0 {
        assert(p[0] == v[0]);
        assert(p.skip(1).is_prefix_of(v.skip(1))) by {
            assert(p.skip(1) =~= v.skip(1).subrange(0, p.skip(1).len() as int));
        }
        lemma_lex_proper_prefix(p.skip(1), v.skip(1));
    }
}

/// Two sequences that extend a common prefix with differently ordered
/// characters are ordered like those characters.
pub proof fn lemma_lex_diverge(p: Seq<char>, c1: char, c2: char, v1: Seq<char>, v2: Seq<char>)
    requires
        p.push(c1).is_prefix_of(v1),
        p.push(c2).is_prefix_of(v2),
        (c1 as u32) < (c2 as u32),
    ensures
        lex_lt(v1, v2),
    decreases p.len(),
{
    assert(v1[p.len() as int] == p.push(c1)[p.len() as int]);
    assert(v2[p.len() as int] == p.push(c2)[p.len() as int]);
    if p.len() == 0 {
        assert(v1[0] == c1 && v2[0] == c2);
    } else {
        assert(v1[0] == p[0] && v2[0] == p[0]) by {
            assert(p.push(c1)[0] == p[0]);
            assert(p.push(c2)[0] == p[0]);
        }
        assert(p.skip(1).push(c1).is_prefix_of(v1.skip(1))) by {
            assert(p.skip(1).push(c1) =~= p.push(c1).skip(1));
            assert(p.push(c1).skip(1) =~= v1.skip(1).subrange(0, p.len() as int));
        }
        assert(p.skip(1).push(c2).is_prefix_of(v2.skip(1))) by {
            assert(p.skip(1).push(c2) =~= p.push(c2).skip(1));
            assert(p.push(c2).skip(1) =~= v2.skip(1).subrange(0, p.len() as int));
        }
        lemma_lex_diverge(p.skip(1), c1, c2, v1.skip(1), v2.skip(1));
    }
}

/// Compares two string slices in the lexicographic character order.
pub fn str_lex_lt(a: &str, b: &str) -> (r: bool)
    ensures
        r == lex_lt(a@, b@),
{
    let an = a.unicode_len();
    let bn = b.unicode_len();
    let mut i: usize = 0;
    proof {
        assert(a@.skip(0) =~= a@);
        assert(b@.skip(0) =~= b@);
    }
    loop
        invariant
            i <= an,
            i <= bn,
            an == a@.len(),
            bn == b@.len(),
            lex_lt(a@, b@) == lex_lt(a@.skip(i as int), b@.skip(i as int)),
        ensures
            lex_lt(a@, b@) == lex_lt(a@.skip(i as int), b@.skip(i as int)),
            i <= an,
            i <= bn,
            i == an || i == bn,
        decreases an - i,
    {
        if i == an || i == bn {
            break ;
        }
        let ca = a.get_char(i);
        let cb = b.get_char(i);
        if ca as u32 != cb as u32 {
            proof {
                assert(a@.skip(i as int)[0] == a@[i as int]);
                assert(b@.skip(i as int)[0] == b@[i as int]);
            }
            return (ca as u32) < (cb as u32);
        }
        proof {
            lemma_char_eq_u32(a@[i as int], b@[i as int]);
            assert(a@.skip(i as int).skip(1) =~= a@.skip(i + 1 as int));
            assert(b@.skip(i as int).skip(1) =~= b@.skip(i + 1 as int));
        }
        i = i + 1;
    }
    proof {
        if i == an {
            assert(a@.skip(i as int).len() == 0);
        } else {
            assert(b@.skip(i as int).len() == 0);
            assert(a@.skip(i as int).len() > 0);
        }
    }
    i == an && i < bn
}

} // verus!
