//! Small string utilities over the character view of strings.

use vstd::prelude::*;
use vstd::string::*;

verus! {

/// Character-wise equality of two strings.
pub fn str_eq(a: &str, b: &str) -> (r: bool)
    ensures
        r == (a@ == b@),
{
    let n = a.unicode_len();
    let m = b.unicode_len();
    if n != m {
        return false;
    }
    let mut i: usize = 0;
    while i < n
        invariant
            n == a@.len(),
            m == b@.len(),
            n == m,
            i <= n,
            forall|j: int| 0 <= j < i ==> a@[j] == b@[j],
        decreases n - i,
    {
        if a.get_char(i) != b.get_char(i) {
            return false;
        }
        i = i + 1;
    }
    assert(a@ =~= b@);
    true
}

/// The pieces of `s` between occurrences of `sep`, as `str::split` yields
/// them: `n` occurrences give `n + 1` pieces, some of which may be empty.
pub open spec fn split_spec(s: Seq<char>, sep: char) -> Seq<Seq<char>>
    decreases s.len(),
{
    if s.len() == 0 {
        seq![Seq::<char>::empty()]
    } else {
        let rest = split_spec(s.drop_first(), sep);
        if s[0] == sep {
            seq![Seq::<char>::empty()] + rest
        } else {
            rest.update(0, seq![s[0]] + rest[0])
        }
    }
}

/// A text without the separator is a single piece.
pub proof fn lemma_split_plain(a: Seq<char>, sep: char)
    requires
        forall|i: int| 0 <= i < a.len() ==> a[i] != sep,
    ensures
        split_spec(a, sep) == seq![a],
    decreases a.len(),
{
    if a.len() == 0 {
        assert(a =~= Seq::<char>::empty());
    } else {
        lemma_split_plain(a.drop_first(), sep);
        assert(seq![a[0]] + a.drop_first() =~= a);
        assert(split_spec(a, sep) =~= seq![a]);
    }
}

/// Joining a separator-free text to another by the separator splits back
/// into the first and the pieces of the second.
pub proof fn lemma_split_join(a: Seq<char>, b: Seq<char>, sep: char)
    requires
        forall|i: int| 0 <= i < a.len() ==> a[i] != sep,
    ensures
        split_spec(a + seq![sep] + b, sep) == seq![a] + split_spec(b, sep),
    decreases a.len(),
{
    let s = a + seq![sep] + b;
    if a.len() == 0 {
        assert(s.drop_first() =~= b);
        assert(a =~= Seq::<char>::empty());
        assert(split_spec(s, sep) =~= seq![a] + split_spec(b, sep));
    } else {
        assert(s.drop_first() =~= a.drop_first() + seq![sep] + b);
        lemma_split_join(a.drop_first(), b, sep);
        assert(seq![a[0]] + a.drop_first() =~= a);
        assert(split_spec(s, sep) =~= seq![a] + split_spec(b, sep));
    }
}

pub proof fn lemma_split_nonempty(s: Seq<char>, sep: char)
    ensures
        split_spec(s, sep).len() >= 1,
    decreases s.len(),
{
    if s.len() > 0 {
        lemma_split_nonempty(s.drop_first(), sep);
    }
}

/// Splits from the back: the pieces of `s.take(i)` followed by the current
/// piece being assembled.
proof fn lemma_split_step(s: Seq<char>, sep: char, i: int)
    requires
        0 <= i < s.len(),
    ensures
        s[i] == sep ==> split_spec(s.take(i + 1), sep) == split_spec(s.take(i), sep).push(
            Seq::<char>::empty(),
        ),
        s[i] != sep ==> split_spec(s.take(i + 1), sep) == split_spec(s.take(i), sep).update(
            split_spec(s.take(i), sep).len() - 1,
            split_spec(s.take(i), sep).last().push(s[i]),
        ),
    decreases i,
{
    lemma_split_nonempty(s.take(i), sep);
    if i == 0 {
        assert(s.take(1).drop_first() =~= Seq::<char>::empty());
        assert(s.take(0) =~= Seq::<char>::empty());
        if s[0] != sep {
            assert(split_spec(s.take(1), sep) =~= seq![seq![s[0]]]);
        } else {
            assert(split_spec(s.take(1), sep) =~= seq![Seq::<char>::empty(), Seq::<char>::empty()]);
        }
    } else {
        let t = s.drop_first();
        lemma_split_step(t, sep, i - 1);
        assert(s.take(i + 1).drop_first() =~= t.take(i));
        assert(s.take(i).drop_first() =~= t.take(i - 1));
        lemma_split_nonempty(t.take(i - 1), sep);
        lemma_split_nonempty(t.take(i), sep);
        assert(s.take(i + 1)[0] == s[0]);
        assert(s.take(i)[0] == s[0]);
        let a = split_spec(t.take(i - 1), sep);
        let b = split_spec(t.take(i), sep);
        if s[0] == sep {
            assert(split_spec(s.take(i), sep) == seq![Seq::<char>::empty()] + a);
            assert(split_spec(s.take(i + 1), sep) == seq![Seq::<char>::empty()] + b);
            if s[i] == sep {
                assert(seq![Seq::<char>::empty()] + a.push(Seq::<char>::empty()) =~= (seq![
                    Seq::<char>::empty(),
                ] + a).push(Seq::<char>::empty()));
            } else {
                assert(seq![Seq::<char>::empty()] + a.update(a.len() - 1, a.last().push(s[i]))
                    =~= (seq![Seq::<char>::empty()] + a).update(a.len() as int, a.last().push(s[i])));
            }
        } else {
            assert(split_spec(s.take(i), sep) == a.update(0, seq![s[0]] + a[0]));
            assert(split_spec(s.take(i + 1), sep) == b.update(0, seq![s[0]] + b[0]));
            if s[i] == sep {
                assert(b == a.push(Seq::<char>::empty()));
                assert(b.update(0, seq![s[0]] + b[0]) =~= a.update(0, seq![s[0]] + a[0]).push(
                    Seq::<char>::empty(),
                ));
            } else {
                assert(b == a.update(a.len() - 1, a.last().push(s[i])));
                if a.len() == 1 {
                    assert(b.update(0, seq![s[0]] + b[0]) =~= a.update(0, seq![s[0]] + a[0]).update(
                        0,
                        (seq![s[0]] + a[0]).push(s[i]),
                    ));
                } else {
                    assert(b.update(0, seq![s[0]] + b[0]) =~= a.update(0, seq![s[0]] + a[0]).update(
                        a.len() - 1,
                        a.last().push(s[i]),
                    ));
                }
            }
        }
    }
}

/// `s.split(sep)` collected into owned strings.
pub fn split_char(s: &str, sep: char) -> (parts: Vec<String>)
    ensures
        parts@.len() == split_spec(s@, sep).len(),
        forall|k: int| 0 <= k < parts@.len() ==> #[trigger] parts@[k]@ == split_spec(s@, sep)[k],
{
    let n = s.unicode_len();
    let mut done: Vec<String> = Vec::new();
    let mut cur: String = String::new();
    let mut i: usize = 0;
    proof {
        assert(s@.take(0) =~= Seq::<char>::empty());
    }
    while i < n
        invariant
            n == s@.len(),
            i <= n,
            done@.len() + 1 == split_spec(s@.take(i as int), sep).len(),
            forall|k: int| 0 <= k < done@.len() ==> #[trigger] done@[k]@ == split_spec(s@.take(i as int), sep)[k],
            cur@ == split_spec(s@.take(i as int), sep).last(),
        decreases n - i,
    {
        let c = s.get_char(i);
        proof {
            lemma_split_step(s@, sep, i as int);
        }
        if c == sep {
            let finished = cur;
            done.push(finished);
            cur = String::new();
        } else {
            let piece = s.substring_char(i, i + 1);
            proof {
                assert(piece@ =~= seq![c]);
            }
            cur.append(piece);
            proof {
                assert(cur@ =~= split_spec(s@.take(i as int), sep).last().push(c));
            }
        }
        i = i + 1;
    }
    proof {
        assert(s@.take(n as int) =~= s@);
    }
    done.push(cur);
    done
}

} // verus!

verus! {

/// Whether `s` begins with `prefix`.
pub fn starts_with(s: &str, prefix: &str) -> (r: bool)
    ensures
        r == prefix@.is_prefix_of(s@),
{
    let n = s.unicode_len();
    let m = prefix.unicode_len();
    if m > n {
        return false;
    }
    let mut i: usize = 0;
    while i < m
        invariant
            n == s@.len(),
            m == prefix@.len(),
            m <= n,
            i <= m,
            forall|j: int| 0 <= j < i ==> prefix@[j] == s@[j],
        decreases m - i,
    {
        if prefix.get_char(i) != s.get_char(i) {
            return false;
        }
        i = i + 1;
    }
    assert(prefix@ =~= s@.subrange(0, m as int));
    true
}

} // verus!

verus! {

/// `s` with each `+00:00:00`, read from the left without overlaps,
/// shortened to `+00:00`.
pub open spec fn shorten_zero_offsets(s: Seq<char>) -> Seq<char>
    decreases s.len(),
{
    if s.len() >= 9 && s.take(9) == "+00:00:00"@ {
        "+00:00"@ + shorten_zero_offsets(s.skip(9))
    } else if s.len() == 0 {
        Seq::empty()
    } else {
        seq![s[0]] + shorten_zero_offsets(s.drop_first())
    }
}

/// Shortens each `+00:00:00` of `s` to `+00:00`.
pub fn shorten_zero_offsets_of(s: &str) -> (r: String)
    ensures
        r@ == shorten_zero_offsets(s@),
{
    proof {
        reveal_strlit("+00:00:00");
    }
    let n = s.unicode_len();
    let mut out = String::new();
    let mut i: usize = 0;
    proof {
        assert(s@.skip(0) =~= s@);
        assert(out@ =~= Seq::<char>::empty());
    }
    while i < n
        invariant
            n == s@.len(),
            i <= n,
            out@ + shorten_zero_offsets(s@.skip(i as int)) == shorten_zero_offsets(s@),
        decreases n - i,
    {
        let ghost rest = s@.skip(i as int);
        if 9 <= n - i && str_eq(s.substring_char(i, i + 9), "+00:00:00") {
            proof {
                assert(rest.take(9) =~= s@.subrange(i as int, i + 9));
                assert(rest.skip(9) =~= s@.skip(i + 9));
            }
            out.append("+00:00");
            i = i + 9;
        } else {
            let piece = s.substring_char(i, i + 1);
            proof {
                assert(piece@ =~= seq![rest[0]]);
                if rest.len() >= 9 {
                    assert(rest.take(9) =~= s@.subrange(i as int, i + 9));
                }
                assert(rest.drop_first() =~= s@.skip(i + 1));
            }
            out.append(piece);
            proof {
                assert(out@ + shorten_zero_offsets(s@.skip(i + 1)) =~= shorten_zero_offsets(s@));
            }
            i = i + 1;
        }
    }
    proof {
        assert(s@.skip(n as int) =~= Seq::<char>::empty());
    }
    out
}

} // verus!
