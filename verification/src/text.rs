use vstd::prelude::*;

verus! {

// ---------------------------------------------------------------------------
// Splitting and joining sequences on a separator, as `str::split` does.
// ---------------------------------------------------------------------------

/// The pieces of `s` between occurrences of `sep`, in order. As with
/// `str::split`, the result is never empty and keeps empty pieces, so
/// that interleaving the pieces with `sep` gives `s` back.
pub open spec fn split_seq<T>(s: Seq<T>, sep: T) -> Seq<Seq<T>>
    decreases s.len(),
{
    if s.len() == 0 {
        seq![Seq::<T>::empty()]
    } else if s[0] == sep {
        seq![Seq::<T>::empty()] + split_seq(s.subrange(1, s.len() as int), sep)
    } else {
        let rest = split_seq(s.subrange(1, s.len() as int), sep);
        seq![seq![s[0]] + rest[0]] + rest.subrange(1, rest.len() as int)
    }
}

/// The pieces interleaved with `sep`.
pub open spec fn join_seq<T>(parts: Seq<Seq<T>>, sep: T) -> Seq<T>
    decreases parts.len(),
{
    if parts.len() == 0 {
        Seq::<T>::empty()
    } else if parts.len() == 1 {
        parts[0]
    } else {
        parts[0] + seq![sep] + join_seq(parts.subrange(1, parts.len() as int), sep)
    }
}

pub proof fn lemma_split_nonempty<T>(s: Seq<T>, sep: T)
    ensures
        split_seq(s, sep).len() >= 1,
    decreases s.len(),
{
    if s.len() == 0 {
    } else {
        lemma_split_nonempty(s.subrange(1, s.len() as int), sep);
    }
}

/// A sequence without the separator splits into itself alone.
pub proof fn lemma_split_no_sep<T>(s: Seq<T>, sep: T)
    requires
        forall|i: int| 0 <= i < s.len() ==> s[i] != sep,
    ensures
        split_seq(s, sep) =~~= seq![s],
    decreases s.len(),
{
    if s.len() == 0 {
        assert(split_seq(s, sep) =~~= seq![s]);
    } else {
        let rest = s.subrange(1, s.len() as int);
        lemma_split_no_sep(rest, sep);
        assert(seq![s[0]] + rest =~= s);
        assert(split_seq(s, sep) =~~= seq![s]);
    }
}

/// Splitting at the first separator: the part before it, then the split of
/// what follows it.
pub proof fn lemma_split_at_first<T>(s: Seq<T>, sep: T, k: int)
    requires
        0 <= k < s.len(),
        s[k] == sep,
        forall|i: int| 0 <= i < k ==> s[i] != sep,
    ensures
        split_seq(s, sep) =~~= seq![s.subrange(0, k)] + split_seq(
            s.subrange(k + 1, s.len() as int),
            sep,
        ),
    decreases k,
{
    let rest = s.subrange(1, s.len() as int);
    if k == 0 {
        assert(s.subrange(0, 0) =~= Seq::<T>::empty());
        assert(rest =~= s.subrange(1, s.len() as int));
    } else {
        lemma_split_at_first(rest, sep, k - 1);
        lemma_split_nonempty(rest.subrange(k, rest.len() as int), sep);
        let inner = split_seq(rest, sep);
        assert(rest.subrange(0, k - 1) =~= s.subrange(1, k));
        assert(rest.subrange(k, rest.len() as int) =~= s.subrange(k + 1, s.len() as int));
        assert(inner[0] == s.subrange(1, k));
        assert(seq![s[0]] + s.subrange(1, k) =~= s.subrange(0, k));
        assert(inner.subrange(1, inner.len() as int) =~~= split_seq(
            s.subrange(k + 1, s.len() as int),
            sep,
        ));
    }
}

/// Joining separator-free pieces and splitting again gives the pieces back.
pub proof fn lemma_split_join<T>(parts: Seq<Seq<T>>, sep: T)
    requires
        parts.len() >= 1,
        forall|i: int, j: int|
            0 <= i < parts.len() && 0 <= j < parts[i].len() ==> parts[i][j] != sep,
    ensures
        split_seq(join_seq(parts, sep), sep) =~~= parts,
    decreases parts.len(),
{
    if parts.len() == 1 {
        lemma_split_no_sep(parts[0], sep);
    } else {
        let s = join_seq(parts, sep);
        let tail = parts.subrange(1, parts.len() as int);
        let k = parts[0].len() as int;
        assert(s == parts[0] + seq![sep] + join_seq(tail, sep));
        assert(forall|i: int| 0 <= i < k ==> s[i] == parts[0][i]);
        assert(s[k] == sep);
        lemma_split_at_first(s, sep, k);
        assert(s.subrange(0, k) =~= parts[0]);
        assert(s.subrange(k + 1, s.len() as int) =~= join_seq(tail, sep));
        lemma_split_join(tail, sep);
    }
}

/// Two separators side by side leave an empty piece after the first one.
pub proof fn lemma_adjacent_sep_empty<T>(t: Seq<T>, sep: T, p: int)
    requires
        0 <= p,
        p + 1 < t.len(),
        t[p] == sep,
        t[p + 1] == sep,
    ensures
        exists|k: int| 1 <= k < split_seq(t, sep).len() && split_seq(t, sep)[k].len() == 0,
    decreases p,
{
    let rest = t.subrange(1, t.len() as int);
    let inner = split_seq(rest, sep);
    lemma_split_nonempty(rest, sep);
    if p == 0 {
        let rest2 = rest.subrange(1, rest.len() as int);
        assert(rest[0] == sep);
        assert(split_seq(t, sep) == seq![Seq::<T>::empty()] + inner);
        assert(inner == seq![Seq::<T>::empty()] + split_seq(rest2, sep));
        assert(split_seq(t, sep)[1].len() == 0);
    } else {
        lemma_adjacent_sep_empty(rest, sep, p - 1);
        let k0 = choose|k: int| 1 <= k < inner.len() && inner[k].len() == 0;
        if t[0] == sep {
            assert(split_seq(t, sep) == seq![Seq::<T>::empty()] + inner);
            assert(split_seq(t, sep)[k0 + 1].len() == 0);
        } else {
            assert(split_seq(t, sep) == seq![seq![t[0]] + inner[0]] + inner.subrange(
                1,
                inner.len() as int,
            ));
            assert(split_seq(t, sep)[k0] == inner[k0]);
        }
    }
}

/// A join ends as its last piece ends, when that piece is not empty.
pub proof fn lemma_join_last<T>(parts: Seq<Seq<T>>, sep: T)
    requires
        parts.len() >= 1,
        parts.last().len() >= 1,
    ensures
        join_seq(parts, sep).len() >= 1,
        join_seq(parts, sep).last() == parts.last().last(),
    decreases parts.len(),
{
    if parts.len() > 1 {
        let rest = parts.subrange(1, parts.len() as int);
        lemma_join_last(rest, sep);
        assert(rest.last() == parts.last());
        assert(join_seq(parts, sep).last() == join_seq(rest, sep).last());
    }
}

// ---------------------------------------------------------------------------
// Executable helpers over characters.
// ---------------------------------------------------------------------------

/// The characters of `s` as a vector.
pub fn to_char_vec(s: &str) -> (r: Vec<char>)
    ensures
        r@ == s@,
{
    let n = s.unicode_len();
    let mut r: Vec<char> = Vec::new();
    let mut i: usize = 0;
    while i < n
        invariant
            i <= n,
            n == s@.len(),
            r@ == s@.subrange(0, i as int),
        decreases n - i,
    {
        r.push(s.get_char(i));
        i = i + 1;
        assert(r@ =~= s@.subrange(0, i as int));
    }
    assert(r@ =~= s@);
    r
}

/// A copy of `s[from..to]`.
pub fn subvec<T: Copy>(s: &[T], from: usize, to: usize) -> (r: Vec<T>)
    requires
        from <= to <= s@.len(),
    ensures
        r@ == s@.subrange(from as int, to as int),
{
    let mut r: Vec<T> = Vec::new();
    let mut i: usize = from;
    while i < to
        invariant
            from <= i <= to <= s@.len(),
            r@ == s@.subrange(from as int, i as int),
        decreases to - i,
    {
        r.push(*vstd::slice::slice_index_get(s, i));
        i = i + 1;
        assert(r@ =~= s@.subrange(from as int, i as int));
    }
    r
}

/// `s` split on `sep`, each piece its own vector.
pub fn split_vec(s: &[char], sep: char) -> (r: Vec<Vec<char>>)
    ensures
        r.deep_view() =~~= split_seq(s@, sep),
{
    let n = s.len();
    let mut r: Vec<Vec<char>> = Vec::new();
    proof {
        assert(s@.subrange(0, n as int) =~= s@);
        assert(r.deep_view() =~~= Seq::<Seq<char>>::empty());
    }
    let mut start: usize = 0;
    let mut i: usize = 0;
    while i < n
        invariant
            start <= i <= n,
            n == s@.len(),
            forall|j: int| start <= j < i ==> s@[j] != sep,
            split_seq(s@, sep) =~~= r.deep_view() + split_seq(
                s@.subrange(start as int, n as int),
                sep,
            ),
        decreases n - i,
    {
        if *vstd::slice::slice_index_get(s, i) == sep {
            let part = subvec(s, start, i);
            proof {
                let tail = s@.subrange(start as int, n as int);
                lemma_split_at_first(tail, sep, i - start);
                assert(tail.subrange(0, i - start) =~= s@.subrange(start as int, i as int));
                assert(tail.subrange(i - start + 1, tail.len() as int) =~= s@.subrange(
                    i as int + 1,
                    n as int,
                ));
            }
            let ghost old_r = r.deep_view();
            r.push(part);
            proof {
                assert(r.deep_view() =~~= old_r + seq![part@]);
            }
            start = i + 1;
        }
        i = i + 1;
    }
    let last = subvec(s, start, n);
    proof {
        lemma_split_no_sep(s@.subrange(start as int, n as int), sep);
    }
    let ghost old_r = r.deep_view();
    r.push(last);
    proof {
        assert(r.deep_view() =~~= old_r + seq![last@]);
    }
    r
}

// ---------------------------------------------------------------------------
// ASCII-case-insensitive equality, as `str::eq_ignore_ascii_case` compares.
// ---------------------------------------------------------------------------

/// Two characters that are equal once ASCII letters are taken to one case.
pub open spec fn chars_eq_ignore_case(a: char, b: char) -> bool {
    a == b || (is_ascii_upper(a) && a as int + 32 == b as int) || (is_ascii_upper(b) && b as int
        + 32 == a as int)
}

pub open spec fn is_ascii_upper(c: char) -> bool {
    65 <= c as int <= 90
}

/// Character sequences equal up to ASCII case.
pub open spec fn seq_eq_ignore_case(s: Seq<char>, t: Seq<char>) -> bool {
    s.len() == t.len() && forall|i: int| 0 <= i < s.len() ==> chars_eq_ignore_case(s[i], t[i])
}

fn char_eq_ignore_case(a: char, b: char) -> (r: bool)
    ensures
        r == chars_eq_ignore_case(a, b),
{
    let x = a as u32;
    let y = b as u32;
    x == y || (65 <= x && x <= 90 && x + 32 == y) || (65 <= y && y <= 90 && y + 32 == x)
}

/// Whether `a` and `b` are equal up to ASCII case, as
/// `str::eq_ignore_ascii_case` decides it.
pub fn str_eq_ignore_case(a: &str, b: &str) -> (r: bool)
    ensures
        r == seq_eq_ignore_case(a@, b@),
{
    let an = a.unicode_len();
    let bn = b.unicode_len();
    if an != bn {
        return false;
    }
    let mut i: usize = 0;
    while i < an
        invariant
            i <= an,
            an == a@.len(),
            an == b@.len(),
            forall|j: int| 0 <= j < i ==> chars_eq_ignore_case(a@[j], b@[j]),
        decreases an - i,
    {
        if !char_eq_ignore_case(a.get_char(i), b.get_char(i)) {
            return false;
        }
        i = i + 1;
    }
    true
}

} // verus!
