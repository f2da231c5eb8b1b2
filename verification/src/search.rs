//! Byte-level substring search and buffer splicing, shared by the
//! find/replace operations, together with the specification functions that
//! describe them: the position of the first match of a pattern, the uniform
//! run of symbols written over a replacement span, and the result of
//! substituting every occurrence of a single byte.

use vstd::prelude::*;

verus! {

/// The pattern `pat` occurs in `t` at position `p`.
pub open spec fn match_at(t: Seq<u8>, pat: Seq<u8>, p: int) -> bool {
    &&& 0 <= p
    &&& p + pat.len() <= t.len()
    &&& t.subrange(p, p + pat.len() as int) == pat
}

/// Position of the first occurrence of `pat` in `t` at or after `i`, or `-1`
/// if there is none.
pub open spec fn first_match_from(t: Seq<u8>, pat: Seq<u8>, i: int) -> int
    decreases t.len() - i,
{
    if i < 0 || i + pat.len() > t.len() {
        -1
    } else if match_at(t, pat, i) {
        i
    } else if i < t.len() {
        first_match_from(t, pat, i + 1)
    } else {
        -1
    }
}

/// Position of the first occurrence of `pat` in `t`, or `-1` if there is
/// none. An empty pattern matches at position `0`.
pub open spec fn first_match(t: Seq<u8>, pat: Seq<u8>) -> int {
    first_match_from(t, pat, 0)
}

/// A run of `n` copies of the symbol `sym`: what the style-index buffer
/// receives opposite an appended or substituted text fragment.
pub open spec fn sym_run(sym: u8, n: nat) -> Seq<u8> {
    Seq::new(n, |i: int| sym)
}

/// How often the byte `c` occurs in `t`.
pub open spec fn count_byte(t: Seq<u8>, c: u8) -> nat
    decreases t.len(),
{
    if t.len() == 0 {
        0
    } else {
        (if t[0] == c {
            1nat
        } else {
            0nat
        }) + count_byte(t.drop_first(), c)
    }
}

/// `t` with every occurrence of the byte `c` replaced by `rep`.
pub open spec fn subst_text(t: Seq<u8>, c: u8, rep: Seq<u8>) -> Seq<u8>
    decreases t.len(),
{
    if t.len() == 0 {
        Seq::empty()
    } else if t[0] == c {
        rep + subst_text(t.drop_first(), c, rep)
    } else {
        seq![t[0]] + subst_text(t.drop_first(), c, rep)
    }
}

/// The style-index buffer that accompanies [`subst_text`]: wherever the text
/// `t` holds the byte `c`, the parallel buffer `s` is rewritten to a run of
/// `rep_len` copies of `sym`; everywhere else it keeps its old symbol.
pub open spec fn subst_styled(t: Seq<u8>, s: Seq<u8>, c: u8, rep_len: nat, sym: u8) -> Seq<u8>
    decreases t.len(),
{
    if t.len() == 0 {
        Seq::empty()
    } else if t[0] == c {
        sym_run(sym, rep_len) + subst_styled(t.drop_first(), s.drop_first(), c, rep_len, sym)
    } else {
        seq![s[0]] + subst_styled(t.drop_first(), s.drop_first(), c, rep_len, sym)
    }
}

/// A first match reported at `p`, with no match before it, is what
/// `first_match_from` computes.
pub proof fn lemma_first_match_from_found(t: Seq<u8>, pat: Seq<u8>, i: int, p: int)
    requires
        0 <= i <= p,
        match_at(t, pat, p),
        forall|q: int| i <= q < p ==> !match_at(t, pat, q),
    ensures
        first_match_from(t, pat, i) == p,
    decreases p - i,
{
    if i < p {
        assert(pat.len() > 0) by {
            if pat.len() == 0 {
                assert(t.subrange(i, i + pat.len() as int) =~= pat);
                assert(match_at(t, pat, i));
            }
        }
        lemma_first_match_from_found(t, pat, i + 1, p);
    }
}

/// When no match exists at or after `i`, `first_match_from` reports `-1`.
pub proof fn lemma_first_match_from_none(t: Seq<u8>, pat: Seq<u8>, i: int)
    requires
        0 <= i,
        forall|q: int| i <= q ==> !match_at(t, pat, q),
    ensures
        first_match_from(t, pat, i) == -1,
    decreases t.len() - i,
{
    if i + pat.len() <= t.len() && i < t.len() {
        lemma_first_match_from_none(t, pat, i + 1);
    }
}

/// A non-negative result of `first_match_from` is a real match position:
/// the first one at or after `i`.
pub proof fn lemma_first_match_from_is_match(t: Seq<u8>, pat: Seq<u8>, i: int)
    requires
        first_match_from(t, pat, i) >= 0,
    ensures
        ({
            let a = first_match_from(t, pat, i);
            &&& i <= a
            &&& match_at(t, pat, a)
            &&& forall|q: int| i <= q < a ==> !match_at(t, pat, q)
        }),
    decreases t.len() - i,
{
    if !(i < 0 || i + pat.len() > t.len()) && !match_at(t, pat, i) && i < t.len() {
        lemma_first_match_from_is_match(t, pat, i + 1);
    }
}

/// Splicing a byte-free replacement over one position that holds the byte
/// `c` removes exactly one occurrence of `c`.
pub proof fn lemma_count_byte_splice(t: Seq<u8>, p: int, c: u8, rep: Seq<u8>)
    requires
        0 <= p < t.len(),
        t[p] == c,
        forall|i: int| 0 <= i < rep.len() ==> rep[i] != c,
    ensures
        count_byte(t.subrange(0, p) + rep + t.subrange(p + 1, t.len() as int), c) + 1
            == count_byte(t, c),
{
    let n = t.len() as int;
    let ta = t.subrange(0, p);
    let tb = t.subrange(p, p + 1);
    let tc = t.subrange(p + 1, n);
    assert(tb =~= seq![c]);
    assert(t =~= (ta + tb) + tc);
    assert(count_byte(tb, c) == 1) by {
        assert(seq![c].drop_first() =~= Seq::<u8>::empty());
        assert(count_byte(Seq::<u8>::empty(), c) == 0);
    }
    assert(count_byte(rep, c) == 0) by {
        lemma_count_byte_zero(rep, c);
    }
    lemma_count_byte_concat(ta + tb, tc, c);
    lemma_count_byte_concat(ta, tb, c);
    lemma_count_byte_concat(ta + rep, tc, c);
    lemma_count_byte_concat(ta, rep, c);
}

/// A witnessed match bounds the first match: `first_match_from` then
/// reports a real match position no later than the witness.
pub proof fn lemma_first_match_from_exists(t: Seq<u8>, pat: Seq<u8>, i: int, a: int)
    requires
        0 <= i <= a,
        match_at(t, pat, a),
    ensures
        i <= first_match_from(t, pat, i) <= a,
        match_at(t, pat, first_match_from(t, pat, i)),
    decreases a - i,
{
    if pat.len() == 0 {
        assert(t.subrange(i, i) =~= pat);
    }
    if !match_at(t, pat, i) {
        lemma_first_match_from_exists(t, pat, i + 1, a);
    }
}

/// A one-byte pattern matches exactly at the positions that hold its byte.
pub proof fn lemma_single_byte_match(t: Seq<u8>, pat: Seq<u8>)
    requires
        pat.len() == 1,
    ensures
        forall|q: int| #[trigger] match_at(t, pat, q) <==> (0 <= q < t.len() && t[q] == pat[0]),
{
    assert forall|q: int|
        #[trigger] match_at(t, pat, q) <==> (0 <= q < t.len() && t[q] == pat[0]) by {
        if 0 <= q < t.len() && t[q] == pat[0] {
            assert(t.subrange(q, q + 1) =~= pat);
        }
        if match_at(t, pat, q) {
            assert(t.subrange(q, q + pat.len() as int)[0] == t[q]);
        }
    }
}

/// Occurrences of a byte add up over concatenation.
pub proof fn lemma_count_byte_concat(a: Seq<u8>, b: Seq<u8>, c: u8)
    ensures
        count_byte(a + b, c) == count_byte(a, c) + count_byte(b, c),
    decreases a.len(),
{
    if a.len() == 0 {
        assert(a + b =~= b);
    } else {
        assert((a + b).drop_first() =~= a.drop_first() + b);
        lemma_count_byte_concat(a.drop_first(), b, c);
    }
}

/// A sequence is free of the byte `c` exactly when its count is zero.
pub proof fn lemma_count_byte_zero(t: Seq<u8>, c: u8)
    ensures
        (count_byte(t, c) == 0) <==> (forall|i: int| 0 <= i < t.len() ==> t[i] != c),
    decreases t.len(),
{
    if t.len() > 0 {
        lemma_count_byte_zero(t.drop_first(), c);
        if forall|i: int| 0 <= i < t.len() ==> t[i] != c {
            assert forall|i: int| 0 <= i < t.drop_first().len() implies t.drop_first()[i] != c by {
                assert(t.drop_first()[i] == t[i + 1]);
            }
            assert(count_byte(t.drop_first(), c) == 0);
        }
        if count_byte(t, c) == 0 {
            assert forall|i: int| 0 <= i < t.len() implies t[i] != c by {
                if i >= 1 {
                    assert(t.drop_first()[i - 1] == t[i]);
                }
            }
        }
    }
}

/// Substitution of a single byte distributes over concatenation.
pub proof fn lemma_subst_text_concat(a: Seq<u8>, b: Seq<u8>, c: u8, rep: Seq<u8>)
    ensures
        subst_text(a + b, c, rep) == subst_text(a, c, rep) + subst_text(b, c, rep),
    decreases a.len(),
{
    if a.len() == 0 {
        assert(a + b =~= b);
        assert(subst_text(a, c, rep) + subst_text(b, c, rep) =~= subst_text(b, c, rep));
    } else {
        assert((a + b).drop_first() =~= a.drop_first() + b);
        lemma_subst_text_concat(a.drop_first(), b, c, rep);
        if a[0] == c {
            assert(rep + (subst_text(a.drop_first(), c, rep) + subst_text(b, c, rep)) =~= (rep
                + subst_text(a.drop_first(), c, rep)) + subst_text(b, c, rep));
        } else {
            assert(seq![a[0]] + (subst_text(a.drop_first(), c, rep) + subst_text(b, c, rep))
                =~= (seq![a[0]] + subst_text(a.drop_first(), c, rep)) + subst_text(b, c, rep));
        }
    }
}

/// Substituting a byte that does not occur leaves the text unchanged.
pub proof fn lemma_subst_text_no_hit(t: Seq<u8>, c: u8, rep: Seq<u8>)
    requires
        forall|i: int| 0 <= i < t.len() ==> t[i] != c,
    ensures
        subst_text(t, c, rep) == t,
    decreases t.len(),
{
    if t.len() == 0 {
        assert(subst_text(t, c, rep) =~= t);
    } else {
        assert(forall|i: int|
            1 <= i < t.len() ==> t[i] == #[trigger] t.drop_first()[i - 1]);
        lemma_subst_text_no_hit(t.drop_first(), c, rep);
        assert(seq![t[0]] + t.drop_first() =~= t);
    }
}

/// The parallel substitution distributes over concatenation, split at the
/// same position in the text and in the style-index buffer.
pub proof fn lemma_subst_styled_concat(
    ta: Seq<u8>,
    sa: Seq<u8>,
    tb: Seq<u8>,
    sb: Seq<u8>,
    c: u8,
    rep_len: nat,
    sym: u8,
)
    requires
        ta.len() == sa.len(),
    ensures
        subst_styled(ta + tb, sa + sb, c, rep_len, sym) == subst_styled(ta, sa, c, rep_len, sym)
            + subst_styled(tb, sb, c, rep_len, sym),
    decreases ta.len(),
{
    if ta.len() == 0 {
        assert(ta + tb =~= tb);
        assert(sa + sb =~= sb);
        assert(subst_styled(ta, sa, c, rep_len, sym) + subst_styled(tb, sb, c, rep_len, sym)
            =~= subst_styled(tb, sb, c, rep_len, sym));
    } else {
        assert((ta + tb).drop_first() =~= ta.drop_first() + tb);
        assert((sa + sb).drop_first() =~= sa.drop_first() + sb);
        assert((sa + sb)[0] == sa[0]);
        lemma_subst_styled_concat(ta.drop_first(), sa.drop_first(), tb, sb, c, rep_len, sym);
        if ta[0] == c {
            assert(sym_run(sym, rep_len) + (subst_styled(ta.drop_first(), sa.drop_first(), c,
                rep_len, sym) + subst_styled(tb, sb, c, rep_len, sym)) =~= (sym_run(sym, rep_len)
                + subst_styled(ta.drop_first(), sa.drop_first(), c, rep_len, sym)) + subst_styled(
                tb,
                sb,
                c,
                rep_len,
                sym,
            ));
        } else {
            assert(seq![sa[0]] + (subst_styled(ta.drop_first(), sa.drop_first(), c, rep_len, sym)
                + subst_styled(tb, sb, c, rep_len, sym)) =~= (seq![sa[0]] + subst_styled(
                ta.drop_first(),
                sa.drop_first(),
                c,
                rep_len,
                sym,
            )) + subst_styled(tb, sb, c, rep_len, sym));
        }
    }
}

/// Where the text is free of the byte `c`, the parallel substitution keeps
/// the style-index buffer as it is.
pub proof fn lemma_subst_styled_no_hit(t: Seq<u8>, s: Seq<u8>, c: u8, rep_len: nat, sym: u8)
    requires
        t.len() == s.len(),
        forall|i: int| 0 <= i < t.len() ==> t[i] != c,
    ensures
        subst_styled(t, s, c, rep_len, sym) == s,
    decreases t.len(),
{
    if t.len() == 0 {
        assert(subst_styled(t, s, c, rep_len, sym) =~= s);
    } else {
        assert(forall|i: int|
            1 <= i < t.len() ==> t[i] == #[trigger] t.drop_first()[i - 1]);
        lemma_subst_styled_no_hit(t.drop_first(), s.drop_first(), c, rep_len, sym);
        assert(seq![s[0]] + s.drop_first() =~= s);
    }
}

/// Compares `pat` against the bytes of `t` starting at `p`.
pub(crate) fn eq_at(t: &Vec<u8>, pat: &Vec<u8>, p: usize) -> (r: bool)
    requires
        p + pat@.len() <= t@.len(),
    ensures
        r == match_at(t@, pat@, p as int),
{
    let ghost sub = t@.subrange(p as int, p + pat@.len() as int);
    let n = t.len();
    let mut j: usize = 0;
    while j < pat.len()
        invariant
            p + pat@.len() <= t@.len(),
            t@.len() == n,
            j <= pat@.len(),
            sub == t@.subrange(p as int, p + pat@.len() as int),
            forall|k: int| 0 <= k < j ==> t@[p + k] == pat@[k],
        decreases pat@.len() - j,
    {
        if t[p + j] != pat[j] {
            assert(!match_at(t@, pat@, p as int)) by {
                assert(sub[j as int] == t@[p + j]);
            }
            return false;
        }
        j = j + 1;
    }
    assert(t@.subrange(p as int, p + pat@.len() as int) =~= pat@);
    true
}

/// Finds the first occurrence of `pat` in `t` at or after `from`, as an
/// absolute position.
pub(crate) fn find_from(t: &Vec<u8>, pat: &Vec<u8>, from: usize) -> (r: Option<usize>)
    requires
        from <= t@.len(),
    ensures
        match r {
            Some(a) => {
                &&& from <= a
                &&& match_at(t@, pat@, a as int)
                &&& forall|q: int| from <= q < a ==> !match_at(t@, pat@, q)
            },
            None => forall|q: int| from <= q ==> !match_at(t@, pat@, q),
        },
{
    if pat.len() == 0 {
        proof {
            assert(t@.subrange(from as int, from as int) =~= pat@);
        }
        return Some(from);
    }
    if pat.len() > t.len() || from > t.len() - pat.len() {
        return None;
    }
    let n = t.len();
    let last = t.len() - pat.len();
    let mut a = from;
    while a <= last
        invariant
            from <= a <= last + 1,
            last == t@.len() - pat@.len(),
            1 <= pat@.len() <= t@.len(),
            t@.len() == n,
            forall|q: int| from <= q < a ==> !match_at(t@, pat@, q),
        decreases last + 1 - a,
    {
        if eq_at(t, pat, a) {
            return Some(a);
        }
        a = a + 1;
    }
    None
}

/// Appends `src[start..end]` to `dst`.
pub(crate) fn push_range(dst: &mut Vec<u8>, src: &Vec<u8>, start: usize, end: usize)
    requires
        start <= end <= src@.len(),
    ensures
        final(dst)@ == old(dst)@ + src@.subrange(start as int, end as int),
{
    let mut i = start;
    while i < end
        invariant
            start <= i <= end <= src@.len(),
            dst@ == old(dst)@ + src@.subrange(start as int, i as int),
        decreases end - i,
    {
        dst.push(src[i]);
        assert(dst@ =~= old(dst)@ + src@.subrange(start as int, i + 1));
        i = i + 1;
    }
}

/// Appends `n` copies of the symbol `sym` to `dst`.
pub(crate) fn push_run(dst: &mut Vec<u8>, sym: u8, n: usize)
    ensures
        final(dst)@ == old(dst)@ + sym_run(sym, n as nat),
{
    let mut i: usize = 0;
    while i < n
        invariant
            i <= n,
            dst@ == old(dst)@ + sym_run(sym, i as nat),
        decreases n - i,
    {
        dst.push(sym);
        assert(dst@ =~= old(dst)@ + sym_run(sym, (i + 1) as nat));
        i = i + 1;
    }
}

/// Replaces `v[start..end]` by the bytes of `mid`: the true splice that the
/// replace operations perform on the text buffer.
pub(crate) fn splice_bytes(v: &Vec<u8>, start: usize, end: usize, mid: &Vec<u8>) -> (r: Vec<u8>)
    requires
        start <= end <= v@.len(),
    ensures
        r@ == v@.subrange(0, start as int) + mid@ + v@.subrange(end as int, v@.len() as int),
{
    let mut r: Vec<u8> = Vec::new();
    push_range(&mut r, v, 0, start);
    push_range(&mut r, mid, 0, mid.len());
    push_range(&mut r, v, end, v.len());
    proof {
        assert(mid@.subrange(0, mid@.len() as int) =~= mid@);
        assert(r@ =~= v@.subrange(0, start as int) + mid@ + v@.subrange(
            end as int,
            v@.len() as int,
        ));
    }
    r
}

/// Replaces `v[start..end]` by a run of `n` copies of `sym`: the matching
/// splice on the style-index buffer.
pub(crate) fn splice_run(v: &Vec<u8>, start: usize, end: usize, sym: u8, n: usize) -> (r: Vec<u8>)
    requires
        start <= end <= v@.len(),
    ensures
        r@ == v@.subrange(0, start as int) + sym_run(sym, n as nat) + v@.subrange(
            end as int,
            v@.len() as int,
        ),
{
    let mut r: Vec<u8> = Vec::new();
    push_range(&mut r, v, 0, start);
    push_run(&mut r, sym, n);
    push_range(&mut r, v, end, v.len());
    proof {
        assert(r@ =~= v@.subrange(0, start as int) + sym_run(sym, n as nat) + v@.subrange(
            end as int,
            v@.len() as int,
        ));
    }
    r
}

} // verus!
