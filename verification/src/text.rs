use vstd::prelude::*;

verus! {

/// Strict lexicographic order on character sequences by Unicode scalar
/// value — the order in which the queries sort codes, names and schools.
pub open spec fn lex_lt(a: Seq<char>, b: Seq<char>) -> bool
    decreases a.len(),
{
    if b.len() == 0 {
        false
    } else if a.len() == 0 {
        true
    } else if a[0] < b[0] {
        true
    } else if a[0] == b[0] {
        lex_lt(a.drop_first(), b.drop_first())
    } else {
        false
    }
}

/// Reflexive closure of `lex_lt`.
pub open spec fn lex_le(a: Seq<char>, b: Seq<char>) -> bool {
    lex_lt(a, b) || a == b
}

/// Any two character sequences are ordered or equal.
pub proof fn lemma_lex_total(a: Seq<char>, b: Seq<char>)
    ensures
        lex_lt(a, b) || lex_lt(b, a) || a == b,
    decreases a.len(),
{
    if b.len() == 0 && a.len() == 0 {
        assert(a =~= b);
    } else if a.len() > 0 && b.len() > 0 {
        if a[0] == b[0] {
            lemma_lex_total(a.drop_first(), b.drop_first());
            if a.drop_first() == b.drop_first() {
                assert(a.drop_first().len() == b.drop_first().len());
                assert(a.len() == b.len());
                assert forall|i: int| 0 <= i < a.len() implies a[i] == b[i] by {
                    if i > 0 {
                        assert(a.drop_first()[i - 1] == a[i]);
                        assert(b.drop_first()[i - 1] == b[i]);
                    }
                }
                assert(a =~= b);
            }
        }
    }
}

/// The strict order is transitive.
pub proof fn lemma_lex_trans(a: Seq<char>, b: Seq<char>, c: Seq<char>)
    requires
        lex_lt(a, b),
        lex_lt(b, c),
    ensures
        lex_lt(a, c),
    decreases a.len(),
{
    if a.len() > 0 {
        if a[0] == b[0] && b[0] == c[0] {
            lemma_lex_trans(a.drop_first(), b.drop_first(), c.drop_first());
        }
    }
}

/// `lex_le` is transitive.
pub proof fn lemma_lex_le_trans(a: Seq<char>, b: Seq<char>, c: Seq<char>)
    requires
        lex_le(a, b),
        lex_le(b, c),
    ensures
        lex_le(a, c),
{
    if lex_lt(a, b) && lex_lt(b, c) {
        lemma_lex_trans(a, b, c);
    }
}

/// The order is unchanged by dropping a common prefix.
proof fn lemma_lex_skip(a: Seq<char>, b: Seq<char>, i: int)
    requires
        0 <= i <= a.len(),
        i <= b.len(),
        forall|j: int| 0 <= j < i ==> a[j] == b[j],
    ensures
        lex_lt(a, b) == lex_lt(a.skip(i), b.skip(i)),
    decreases i,
{
    if i == 0 {
        assert(a.skip(0) =~= a);
        assert(b.skip(0) =~= b);
    } else {
        assert(a[0] == b[0]);
        let ta = a.drop_first();
        let tb = b.drop_first();
        assert(forall|j: int| 0 <= j < i - 1 ==> ta[j] == #[trigger] tb[j]) by {
            assert(forall|j: int| 0 <= j < i - 1 ==> #[trigger] ta[j] == a[j + 1]);
        }
        lemma_lex_skip(ta, tb, i - 1);
        assert(a.skip(i) =~= ta.skip(i - 1));
        assert(b.skip(i) =~= tb.skip(i - 1));
    }
}

/// Lexicographic comparison of two strings: whether `a` precedes `b` or
/// equals it.
pub fn str_le(a: &str, b: &str) -> (r: bool)
    ensures
        r == lex_le(a@, b@),
{
    let na = a.unicode_len();
    let nb = b.unicode_len();
    let mut i: usize = 0;
    while i < na && i < nb
        invariant
            0 <= i <= na,
            i <= nb,
            na == a@.len(),
            nb == b@.len(),
            forall|j: int| 0 <= j < i ==> a@[j] == b@[j],
        decreases na - i,
    {
        let xa = a.get_char(i);
        let xb = b.get_char(i);
        if xa == xb {
            i += 1;
        } else {
            proof {
                lemma_lex_skip(a@, b@, i as int);
            }
            let ghost sa = a@.skip(i as int);
            let ghost sb = b@.skip(i as int);
            assert(sa[0] == a@[i as int] && sb[0] == b@[i as int]);
            assert(a@ != b@) by {
                if a@ == b@ {
                    assert(a@[i as int] == b@[i as int]);
                }
            }
            if xa < xb {
                assert(lex_lt(sa, sb));
                return true;
            } else {
                assert(!lex_lt(sa, sb));
                return false;
            }
        }
    }
    proof {
        lemma_lex_skip(a@, b@, i as int);
    }
    if na == nb {
        assert(a@ =~= b@);
        true
    } else if na < nb {
        assert(a@.skip(i as int) =~= Seq::<char>::empty());
        assert(b@.skip(i as int).len() > 0);
        assert(lex_lt(a@, b@));
        true
    } else {
        assert(b@.skip(i as int) =~= Seq::<char>::empty());
        assert(!lex_lt(a@, b@));
        assert(a@ != b@) by {
            if a@ == b@ {
                assert(a@.len() == b@.len());
            }
        }
        false
    }
}

/// Character-for-character string equality.
pub fn str_eq(a: &str, b: &str) -> (r: bool)
    ensures
        r == (a@ == b@),
{
    let na = a.unicode_len();
    let nb = b.unicode_len();
    if na != nb {
        assert(a@ != b@) by {
            if a@ == b@ {
                assert(a@.len() == b@.len());
            }
        }
        return false;
    }
    let mut i: usize = 0;
    while i < na
        invariant
            0 <= i <= na,
            na == a@.len(),
            na == b@.len(),
            forall|j: int| 0 <= j < i ==> a@[j] == b@[j],
        decreases na - i,
    {
        if a.get_char(i) != b.get_char(i) {
            assert(a@ != b@) by {
                if a@ == b@ {
                    assert(a@[i as int] == b@[i as int]);
                }
            }
            return false;
        }
        i += 1;
    }
    assert(a@ =~= b@);
    true
}

/// A single leading space, if present, removed.
pub open spec fn strip_leading_space(s: Seq<char>) -> Seq<char> {
    if s.len() > 0 && s[0] == ' ' {
        s.drop_first()
    } else {
        s
    }
}

/// Removes one leading space, as the index page's anchor text carries one.
pub fn strip_space(s: &str) -> (r: String)
    ensures
        r@ == strip_leading_space(s@),
{
    let n = s.unicode_len();
    if n > 0 && s.get_char(0) == ' ' {
        let r = s.substring_char(1, n);
        assert(r@ =~= s@.drop_first());
        r.to_owned()
    } else {
        s.to_owned()
    }
}

/// Whether `suf` is a suffix of `s`.
pub open spec fn has_suffix(s: Seq<char>, suf: Seq<char>) -> bool {
    s.len() >= suf.len() && s.skip(s.len() - suf.len()) == suf
}

/// `s` with one trailing copy of `suf` removed, when it ends in one.
pub open spec fn strip_suffix(s: Seq<char>, suf: Seq<char>) -> Seq<char> {
    if has_suffix(s, suf) {
        s.subrange(0, s.len() - suf.len())
    } else {
        s
    }
}

/// Removes one trailing copy of `suf` from `s`, if `s` ends in it.
pub fn strip_suffix_str(s: &str, suf: &str) -> (r: String)
    ensures
        r@ == strip_suffix(s@, suf@),
{
    let n = s.unicode_len();
    let m = suf.unicode_len();
    if n < m {
        assert(!has_suffix(s@, suf@));
        return s.to_owned();
    }
    let base = n - m;
    let mut k: usize = 0;
    while k < m
        invariant
            0 <= k <= m,
            base == n - m,
            m <= n,
            n == s@.len(),
            m == suf@.len(),
            forall|j: int| 0 <= j < k ==> s@[base + j] == suf@[j],
        decreases m - k,
    {
        if s.get_char(base + k) != suf.get_char(k) {
            assert(!has_suffix(s@, suf@)) by {
                let t = s@.skip(base as int);
                assert(t[k as int] == s@[base + k]);
                if t == suf@ {
                    assert(t[k as int] == suf@[k as int]);
                }
            }
            return s.to_owned();
        }
        k += 1;
    }
    assert(has_suffix(s@, suf@)) by {
        assert(s@.skip(base as int) =~= suf@);
    }
    let r = s.substring_char(0, base);
    assert(r@ =~= strip_suffix(s@, suf@));
    r.to_owned()
}

} // verus!
