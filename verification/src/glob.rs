//! Semantics of `*` / `?` glob patterns over character sequences, and the
//! facts about it that the backtracking matcher in `util` rests on.

use vstd::prelude::*;

verus! {

/// Whether pattern `p` matches all of `s`: `*` matches any run of
/// characters (also none), `?` matches exactly one character, and any
/// other pattern character matches itself.
pub open spec fn glob_match(p: Seq<char>, s: Seq<char>) -> bool
    decreases p.len() + s.len(),
{
    if p.len() == 0 {
        s.len() == 0
    } else if p[0] == '*' {
        glob_match(p.drop_first(), s) || (s.len() > 0 && glob_match(p, s.drop_first()))
    } else {
        s.len() > 0 && (p[0] == '?' || p[0] == s[0]) && glob_match(
            p.drop_first(),
            s.drop_first(),
        )
    }
}

/// `p[i..]` matches `s[j..]`.
pub open spec fn glob_at(p: Seq<char>, s: Seq<char>, i: int, j: int) -> bool {
    glob_match(p.skip(i), s.skip(j))
}

/// The pattern characters `p[a..b]` hold no `*` and each matches the text
/// character `s[c + (k - a)]` against which it stands.
pub open spec fn literal_run(p: Seq<char>, s: Seq<char>, a: int, b: int, c: int) -> bool {
    &&& 0 <= a <= b <= p.len()
    &&& 0 <= c
    &&& c + (b - a) <= s.len()
    &&& forall|k: int|
        a <= k < b ==> p[k] != '*' && (p[k] == '?' || p[k] == s[c + (k - a)])
}

/// One step of the definition, in index form.
pub proof fn lemma_glob_unfold(p: Seq<char>, s: Seq<char>, i: int, j: int)
    requires
        0 <= i <= p.len(),
        0 <= j <= s.len(),
    ensures
        glob_at(p, s, i, j) == (if i == p.len() {
            j == s.len()
        } else if p[i] == '*' {
            glob_at(p, s, i + 1, j) || (j < s.len() && glob_at(p, s, i, j + 1))
        } else {
            j < s.len() && (p[i] == '?' || p[i] == s[j]) && glob_at(p, s, i + 1, j + 1)
        }),
{
    let ps = p.skip(i);
    let ss = s.skip(j);
    if i < p.len() {
        assert(ps.drop_first() =~= p.skip(i + 1));
        assert(ps[0] == p[i]);
    }
    if j < s.len() {
        assert(ss.drop_first() =~= s.skip(j + 1));
        assert(ss[0] == s[j]);
    }
}

/// Walking a star-free run that matches character by character changes
/// nothing.
pub proof fn lemma_literal_run(p: Seq<char>, s: Seq<char>, a: int, b: int, c: int)
    requires
        literal_run(p, s, a, b, c),
    ensures
        glob_at(p, s, a, c) == glob_at(p, s, b, c + (b - a)),
    decreases b - a,
{
    if a < b {
        lemma_glob_unfold(p, s, a, c);
        assert(literal_run(p, s, a + 1, b, c + 1));
        lemma_literal_run(p, s, a + 1, b, c + 1);
    }
}

/// A star-free pattern run consumes exactly as many text characters as it
/// is long, each matching.
pub proof fn lemma_starfree_consumes(p: Seq<char>, s: Seq<char>, a: int, b: int, c: int)
    requires
        0 <= a <= b <= p.len(),
        0 <= c <= s.len(),
        forall|k: int| a <= k < b ==> p[k] != '*',
        glob_at(p, s, a, c),
    ensures
        literal_run(p, s, a, b, c),
        glob_at(p, s, b, c + (b - a)),
    decreases b - a,
{
    if a < b {
        lemma_glob_unfold(p, s, a, c);
        lemma_starfree_consumes(p, s, a + 1, b, c + 1);
    }
}

/// A leading star can also absorb any further text before its match.
pub proof fn lemma_star_absorbs(p: Seq<char>, s: Seq<char>, i: int, j: int, j2: int)
    requires
        0 <= i < p.len(),
        p[i] == '*',
        0 <= j <= j2 <= s.len(),
        glob_at(p, s, i, j2),
    ensures
        glob_at(p, s, i, j),
    decreases j2 - j,
{
    if j < j2 {
        lemma_star_absorbs(p, s, i, j + 1, j2);
        lemma_glob_unfold(p, s, i, j);
    }
}

/// A leading star matches iff the rest of the pattern matches some suffix.
pub proof fn lemma_star_witness(p: Seq<char>, s: Seq<char>, i: int, j: int) -> (k: int)
    requires
        0 <= i < p.len(),
        p[i] == '*',
        0 <= j <= s.len(),
        glob_at(p, s, i, j),
    ensures
        j <= k <= s.len(),
        glob_at(p, s, i + 1, k),
    decreases s.len() - j,
{
    lemma_glob_unfold(p, s, i, j);
    if glob_at(p, s, i + 1, j) {
        j
    } else {
        lemma_star_witness(p, s, i, j + 1)
    }
}

/// With a star at `sp` followed by the run `p[sp+1..pi]` matched at `mark`,
/// and a second star at `pi`: the first star may be dropped.
pub proof fn lemma_next_star(p: Seq<char>, s: Seq<char>, sp: int, pi: int, mark: int)
    requires
        0 <= sp < pi < p.len(),
        p[sp] == '*',
        p[pi] == '*',
        literal_run(p, s, sp + 1, pi, mark),
    ensures
        glob_at(p, s, sp, mark) == glob_at(p, s, pi, mark + (pi - sp - 1)),
{
    let si = mark + (pi - sp - 1);
    lemma_literal_run(p, s, sp + 1, pi, mark);
    lemma_glob_unfold(p, s, sp, mark);
    if glob_at(p, s, sp, mark) {
        let k = lemma_star_witness(p, s, sp, mark);
        lemma_starfree_consumes(p, s, sp + 1, pi, k);
        lemma_star_absorbs(p, s, pi, si, k + (pi - sp - 1));
    }
}

/// The run after the star at `sp`, matched from `mark`, fails at `(pi, si)`:
/// the star must take one more character.
pub proof fn lemma_star_retry(p: Seq<char>, s: Seq<char>, sp: int, pi: int, mark: int)
    requires
        0 <= sp < pi <= p.len(),
        p[sp] == '*',
        literal_run(p, s, sp + 1, pi, mark),
        mark + (pi - sp - 1) < s.len(),
        !glob_at(p, s, pi, mark + (pi - sp - 1)),
    ensures
        glob_at(p, s, sp, mark) == glob_at(p, s, sp, mark + 1),
{
    lemma_literal_run(p, s, sp + 1, pi, mark);
    lemma_glob_unfold(p, s, sp, mark);
}

/// At the end of the text, a star at `sp` whose following run covers the
/// rest of the text cannot start its match any later.
pub proof fn lemma_star_at_end(p: Seq<char>, s: Seq<char>, sp: int, pi: int, mark: int)
    requires
        0 <= sp < pi <= p.len(),
        p[sp] == '*',
        literal_run(p, s, sp + 1, pi, mark),
        mark + (pi - sp - 1) == s.len(),
    ensures
        glob_at(p, s, sp, mark) == glob_at(p, s, pi, s.len() as int),
{
    lemma_literal_run(p, s, sp + 1, pi, mark);
    lemma_glob_unfold(p, s, sp, mark);
    if mark < s.len() && glob_at(p, s, sp, mark + 1) {
        let k = lemma_star_witness(p, s, sp, mark + 1);
        lemma_starfree_consumes(p, s, sp + 1, pi, k);
    }
}

/// Against the end of the text, a run of stars may be skipped.
pub proof fn lemma_skip_stars(p: Seq<char>, s: Seq<char>, i: int, i2: int)
    requires
        0 <= i <= i2 <= p.len(),
        forall|k: int| i <= k < i2 ==> p[k] == '*',
    ensures
        glob_at(p, s, i, s.len() as int) == glob_at(p, s, i2, s.len() as int),
    decreases i2 - i,
{
    if i < i2 {
        lemma_skip_stars(p, s, i + 1, i2);
        lemma_glob_unfold(p, s, i, s.len() as int);
    }
}

/// A lone `*` matches every text, the empty one too.
pub proof fn lemma_glob_star_matches_all(s: Seq<char>)
    ensures
        glob_match(seq!['*'], s),
    decreases s.len(),
{
    let p = seq!['*'];
    assert(p.drop_first() =~= Seq::<char>::empty());
    assert(p[0] == '*' && p.len() == 1);
    assert(glob_match(p, s) == (glob_match(p.drop_first(), s) || (s.len() > 0 && glob_match(
        p,
        s.drop_first(),
    ))));
    if s.len() > 0 {
        lemma_glob_star_matches_all(s.drop_first());
    } else {
        assert(glob_match(Seq::<char>::empty(), s));
    }
}

/// A lone `?` matches exactly the texts of one character.
pub proof fn lemma_glob_question_one_char(s: Seq<char>)
    ensures
        glob_match(seq!['?'], s) == (s.len() == 1),
{
    let p = seq!['?'];
    assert(p.drop_first() =~= Seq::<char>::empty());
    assert(p[0] == '?' && p.len() == 1);
    assert(glob_match(p, s) == (s.len() > 0 && glob_match(p.drop_first(), s.drop_first())));
    if s.len() > 0 {
        assert(glob_match(Seq::<char>::empty(), s.drop_first()) == (s.drop_first().len() == 0));
    }
}

/// A pattern without `*` and `?` matches exactly itself.
pub proof fn lemma_glob_literal(p: Seq<char>, s: Seq<char>)
    requires
        forall|k: int| 0 <= k < p.len() ==> p[k] != '*' && p[k] != '?',
    ensures
        glob_match(p, s) == (p == s),
    decreases p.len(),
{
    if p.len() > 0 && s.len() > 0 {
        lemma_glob_literal(p.drop_first(), s.drop_first());
        if p[0] == s[0] && p.drop_first() == s.drop_first() {
            assert forall|i: int| 0 <= i < p.len() implies p[i] == s[i] by {
                if i > 0 {
                    assert(p[i] == p.drop_first()[i - 1]);
                    assert(s[i] == s.drop_first()[i - 1]);
                }
            }
            assert(p =~= s);
        }
        if p == s {
            assert(p.drop_first() =~= s.drop_first());
        }
    } else if p.len() == 0 && s.len() == 0 {
        assert(p =~= s);
    }
}

/// A `*` in front of a pattern lets any text come before what the rest of
/// the pattern matches.
pub proof fn lemma_glob_star_prefix(q: Seq<char>, a: Seq<char>, s: Seq<char>)
    requires
        glob_match(q, s),
    ensures
        glob_match(seq!['*'] + q, a + s),
    decreases a.len(),
{
    let p = seq!['*'] + q;
    assert(p[0] == '*');
    assert(p.drop_first() =~= q);
    if a.len() == 0 {
        assert(a + s =~= s);
    } else {
        lemma_glob_star_prefix(q, a.drop_first(), s);
        assert((a + s).drop_first() =~= a.drop_first() + s);
    }
}

} // verus!
