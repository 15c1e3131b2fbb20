//! Text comparison in the order that `String`'s `Ord` gives: lexicographic
//! by Unicode scalar value.

use vstd::prelude::*;

verus! {

/// Where one value stands relative to another.
#[derive(Clone, Copy, Debug, PartialEq, Eq, Structural)]
pub enum Precedence {
    Before,
    Same,
    After,
}

/// `a` sorts strictly before `b`: lexicographic order by character value,
/// a proper prefix first.
pub open spec fn chars_lt(a: Seq<char>, b: Seq<char>) -> bool
    decreases a.len(),
{
    if a.len() == 0 {
        b.len() > 0
    } else if b.len() == 0 {
        false
    } else if a[0] != b[0] {
        (a[0] as int) < (b[0] as int)
    } else {
        chars_lt(a.drop_first(), b.drop_first())
    }
}

/// The precedence of `a` relative to `b` in text order.
pub open spec fn text_precedence(a: Seq<char>, b: Seq<char>) -> Precedence {
    if a == b {
        Precedence::Same
    } else if chars_lt(a, b) {
        Precedence::Before
    } else {
        Precedence::After
    }
}

/// Text order is a strict total order.
pub proof fn lemma_chars_lt_total(a: Seq<char>, b: Seq<char>)
    ensures
        a == b || chars_lt(a, b) || chars_lt(b, a),
        !(chars_lt(a, b) && chars_lt(b, a)),
        !chars_lt(a, a),
    decreases a.len(),
{
    if a.len() == 0 && b.len() == 0 {
        assert(a =~= b);
    }
    if a.len() > 0 && b.len() > 0 && a[0] != b[0] {
        assert((a[0] as int) != (b[0] as int));
    }
    if a.len() > 0 && b.len() > 0 && a[0] == b[0] {
        lemma_chars_lt_total(a.drop_first(), b.drop_first());
        if a.drop_first() == b.drop_first() {
            assert(a =~= seq![a[0]] + a.drop_first());
            assert(b =~= seq![b[0]] + b.drop_first());
        }
    }
    if a.len() > 0 {
        lemma_chars_lt_total(a.drop_first(), a.drop_first());
    }
}

/// Text order is transitive.
pub proof fn lemma_chars_lt_transitive(a: Seq<char>, b: Seq<char>, c: Seq<char>)
    requires
        chars_lt(a, b),
        chars_lt(b, c),
    ensures
        chars_lt(a, c),
    decreases a.len(),
{
    if a.len() > 0 && b.len() > 0 && c.len() > 0 && a[0] == b[0] && b[0] == c[0] {
        lemma_chars_lt_transitive(a.drop_first(), b.drop_first(), c.drop_first());
    }
}

proof fn lemma_chars_lt_step(a: Seq<char>, b: Seq<char>, i: int)
    requires
        0 <= i < a.len(),
        i < b.len(),
        a[i] == b[i],
    ensures
        chars_lt(a.skip(i), b.skip(i)) == chars_lt(a.skip(i + 1), b.skip(i + 1)),
        (a.skip(i) == b.skip(i)) == (a.skip(i + 1) == b.skip(i + 1)),
{
    assert(a.skip(i).drop_first() =~= a.skip(i + 1));
    assert(b.skip(i).drop_first() =~= b.skip(i + 1));
    assert(a.skip(i) =~= seq![a[i]] + a.skip(i + 1));
    assert(b.skip(i) =~= seq![b[i]] + b.skip(i + 1));
}

/// Compares two texts in the order of `str`'s `Ord`.
pub fn compare_text(a: &str, b: &str) -> (p: Precedence)
    ensures
        p == text_precedence(a@, b@),
{
    let la = a.unicode_len();
    let lb = b.unicode_len();
    let mut i: usize = 0;
    assert(a@.skip(0) =~= a@);
    assert(b@.skip(0) =~= b@);
    while i < la && i < lb
        invariant
            la == a@.len(),
            lb == b@.len(),
            i <= la,
            i <= lb,
            chars_lt(a@, b@) == chars_lt(a@.skip(i as int), b@.skip(i as int)),
            (a@ == b@) == (a@.skip(i as int) == b@.skip(i as int)),
        decreases la - i,
    {
        let ca = a.get_char(i);
        let cb = b.get_char(i);
        if ca != cb {
            proof {
                assert(a@.skip(i as int)[0] == ca);
                assert(b@.skip(i as int)[0] == cb);
                assert(a@.skip(i as int) != b@.skip(i as int));
            }
            if (ca as u32) < (cb as u32) {
                return Precedence::Before;
            } else {
                return Precedence::After;
            }
        }
        proof {
            lemma_chars_lt_step(a@, b@, i as int);
        }
        i = i + 1;
    }
    if la == lb {
        assert(a@.skip(i as int) =~= b@.skip(i as int));
        Precedence::Same
    } else if la < lb {
        assert(a@.skip(i as int).len() == 0);
        assert(a@.skip(i as int) != b@.skip(i as int));
        Precedence::Before
    } else {
        assert(b@.skip(i as int).len() == 0);
        assert(a@.skip(i as int) != b@.skip(i as int));
        Precedence::After
    }
}


/// `s` begins with `p`.
pub open spec fn starts_with(s: Seq<char>, p: Seq<char>) -> bool {
    p.len() <= s.len() && s.take(p.len() as int) == p
}

/// `s` with every leading repetition of `p` removed, as
/// `str::trim_start_matches` does with a text pattern.
pub open spec fn trim_prefix_all(s: Seq<char>, p: Seq<char>) -> Seq<char>
    decreases s.len(),
{
    if p.len() > 0 && starts_with(s, p) {
        trim_prefix_all(s.skip(p.len() as int), p)
    } else {
        s
    }
}

/// The part of `s` before the first `c` (all of `s` when `c` is absent), as
/// the first item of `str::split(c)`.
pub open spec fn until_char(s: Seq<char>, c: char) -> Seq<char>
    decreases s.len(),
{
    if s.len() == 0 {
        s
    } else if s[0] == c {
        Seq::empty()
    } else {
        seq![s[0]] + until_char(s.drop_first(), c)
    }
}

/// Whether the characters of `s` from index `from` on begin with `p`.
pub fn has_prefix_at(s: &str, from: usize, p: &str) -> (found: bool)
    requires
        from <= s@.len(),
    ensures
        found == starts_with(s@.skip(from as int), p@),
{
    let ls = s.unicode_len();
    let lp = p.unicode_len();
    if lp > ls - from {
        return false;
    }
    let mut i: usize = 0;
    while i < lp
        invariant
            ls == s@.len(),
            lp == p@.len(),
            from + lp <= ls,
            i <= lp,
            forall|k: int| 0 <= k < i ==> s@[from + k] == p@[k],
        decreases lp - i,
    {
        if s.get_char(from + i) != p.get_char(i) {
            assert(s@.skip(from as int).take(lp as int)[i as int] != p@[i as int]);
            return false;
        }
        i = i + 1;
    }
    assert(s@.skip(from as int).take(lp as int) =~= p@);
    true
}

/// Skips every repetition of `p` at index `from` of `s` and returns the index
/// where what is left begins.
pub fn skip_prefixes(s: &str, from: usize, p: &str) -> (to: usize)
    requires
        p@.len() > 0,
        from <= s@.len(),
    ensures
        from <= to <= s@.len(),
        trim_prefix_all(s@.skip(from as int), p@) == s@.skip(to as int),
{
    let lp = p.unicode_len();
    let ls = s.unicode_len();
    let mut at = from;
    while has_prefix_at(s, at, p)
        invariant
            lp == p@.len(),
            ls == s@.len(),
            lp > 0,
            from <= at <= s@.len(),
            trim_prefix_all(s@.skip(from as int), p@) == trim_prefix_all(s@.skip(at as int), p@),
        decreases s@.len() - at,
    {
        assert(s@.skip(at as int).skip(lp as int) =~= s@.skip(at + lp));
        at = at + lp;
    }
    at
}

/// The index of the first `c` at or after `from` in `s`, or the length of
/// `s`; the characters in between are `until_char` of the rest.
pub fn find_char(s: &str, from: usize, c: char) -> (at: usize)
    requires
        from <= s@.len(),
    ensures
        from <= at <= s@.len(),
        s@.subrange(from as int, at as int) == until_char(s@.skip(from as int), c),
{
    let len = s.unicode_len();
    let mut i = from;
    assert(s@.subrange(from as int, from as int) =~= Seq::<char>::empty());
    while i < len && s.get_char(i) != c
        invariant
            len == s@.len(),
            from <= i <= len,
            until_char(s@.skip(from as int), c) == s@.subrange(from as int, i as int) + until_char(
                s@.skip(i as int),
                c,
            ),
        decreases len - i,
    {
        assert(s@.skip(i as int).drop_first() =~= s@.skip(i + 1));
        assert(s@.subrange(from as int, i + 1) =~= s@.subrange(from as int, i as int) + seq![s@[i as int]]);
        i = i + 1;
    }
    if i < len {
        assert(until_char(s@.skip(i as int), c) =~= Seq::<char>::empty());
    } else {
        assert(s@.skip(i as int).len() == 0);
    }
    assert(s@.subrange(from as int, i as int) + until_char(s@.skip(i as int), c) =~= s@.subrange(from as int, i as int));
    i
}


/// Whether two texts are equal.
pub fn text_equal(a: &str, b: &str) -> (same: bool)
    ensures
        same == (a@ == b@),
{
    compare_text(a, b) == Precedence::Same
}


/// `s` without any trailing `c`, as `str::trim_end_matches(c)` leaves it.
pub open spec fn trim_trailing(s: Seq<char>, c: char) -> Seq<char>
    decreases s.len(),
{
    if s.len() > 0 && s.last() == c {
        trim_trailing(s.drop_last(), c)
    } else {
        s
    }
}

/// The index at which the trailing run of `c` in `s` begins.
pub fn trailing_start(s: &str, c: char) -> (end: usize)
    ensures
        end <= s@.len(),
        s@.take(end as int) == trim_trailing(s@, c),
{
    let mut end = s.unicode_len();
    assert(s@.take(end as int) =~= s@);
    while end > 0 && s.get_char(end - 1) == c
        invariant
            end <= s@.len(),
            trim_trailing(s@, c) == trim_trailing(s@.take(end as int), c),
        decreases end,
    {
        assert(s@.take(end as int).drop_last() =~= s@.take(end - 1));
        end = end - 1;
    }
    end
}

/// `s` with every `c` doubled.
pub open spec fn doubled(s: Seq<char>, c: char) -> Seq<char>
    decreases s.len(),
{
    if s.len() == 0 {
        Seq::empty()
    } else {
        (if s[0] == c { seq![c, c] } else { seq![s[0]] }) + doubled(s.drop_first(), c)
    }
}

pub proof fn lemma_doubled_append(a: Seq<char>, b: Seq<char>, c: char)
    ensures
        doubled(a + b, c) == doubled(a, c) + doubled(b, c),
    decreases a.len(),
{
    if a.len() == 0 {
        assert(a + b =~= b);
        assert(doubled(a, c) + doubled(b, c) =~= doubled(b, c));
    } else {
        assert((a + b).drop_first() =~= a.drop_first() + b);
        lemma_doubled_append(a.drop_first(), b, c);
        assert(doubled(a + b, c) =~= doubled(a, c) + doubled(b, c));
    }
}

/// Appends `s` with every `c` doubled to `out`; `single` and `pair` are the
/// texts of one and of two `c`.
pub fn push_doubled(out: &mut String, s: &str, c: char, single: &str, pair: &str)
    requires
        single@ == seq![c],
        pair@ == seq![c, c],
    ensures
        final(out)@ == old(out)@ + doubled(s@, c),
{
    let n = s.unicode_len();
    let mut i: usize = 0;
    let ghost start = out@;
    assert(s@.take(0) =~= Seq::<char>::empty());
    assert(start + doubled(Seq::<char>::empty(), c) =~= start);
    while i < n
        invariant
            n == s@.len(),
            i <= n,
            single@ == seq![c],
            pair@ == seq![c, c],
            out@ == start + doubled(s@.take(i as int), c),
        decreases n - i,
    {
        let ch = s.get_char(i);
        let ghost before = out@;
        proof {
            assert(s@.take(i + 1) =~= s@.take(i as int) + seq![ch]);
            lemma_doubled_append(s@.take(i as int), seq![ch], c);
            assert(seq![ch].drop_first() =~= Seq::<char>::empty());
            assert(doubled(seq![ch].drop_first(), c) =~= Seq::<char>::empty());
            assert(doubled(seq![ch], c) =~= (if ch == c { seq![c, c] } else { seq![ch] }));
        }
        if ch == c {
            out.append(pair);
        } else {
            let piece = s.substring_char(i, i + 1);
            assert(piece@ =~= seq![ch]);
            out.append(piece);
        }
        assert(out@ =~= start + doubled(s@.take(i + 1), c));
        i = i + 1;
    }
    assert(s@.take(n as int) =~= s@);
}

/// The items joined by `sep`.
pub open spec fn joined(items: Seq<Seq<char>>, sep: Seq<char>) -> Seq<char>
    decreases items.len(),
{
    if items.len() == 0 {
        Seq::empty()
    } else if items.len() == 1 {
        items[0]
    } else {
        joined(items.drop_last(), sep) + sep + items.last()
    }
}

} // verus!

verus! {

/// Joining puts the separator between neighbours and nowhere else: nothing
/// joins to empty text, one item to itself, and two lists joined one after
/// the other with one separator between them.
pub proof fn law_joined(a: Seq<Seq<char>>, b: Seq<Seq<char>>, sep: Seq<char>, x: Seq<char>)
    ensures
        joined(Seq::<Seq<char>>::empty(), sep) == Seq::<char>::empty(),
        joined(seq![x], sep) == x,
        a.len() > 0 && b.len() > 0 ==> joined(a + b, sep) == joined(a, sep) + sep + joined(b, sep),
    decreases b.len(),
{
    if a.len() > 0 && b.len() > 0 {
        if b.len() == 1 {
            assert((a + b).drop_last() =~= a);
            assert((a + b).last() == b[0]);
        } else {
            let front = b.drop_last();
            law_joined(a, front, sep, x);
            assert((a + b).drop_last() =~= a + front);
            assert((a + b).last() == b.last());
            assert(joined(a + b, sep) == joined(a + front, sep) + sep + b.last());
            assert(joined(b, sep) == joined(front, sep) + sep + b.last());
            assert(joined(a, sep) + sep + joined(front, sep) + sep + b.last() =~= joined(a, sep) + sep + (joined(front, sep) + sep
                + b.last()));
        }
    }
}

} // verus!
