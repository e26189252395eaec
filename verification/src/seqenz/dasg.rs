//! The subsequence automaton of a string: from every position, where the
//! next occurrence of every symbol is.

use vstd::prelude::*;

verus! {

/// `picks` lists positions of `s` from `from` on, in ascending order, at
/// which `s` reads `t`.
pub open spec fn embeds(s: Seq<usize>, t: Seq<usize>, picks: Seq<int>, from: int) -> bool {
    &&& picks.len() == t.len()
    &&& forall|k: int| 0 <= k < picks.len() ==> from <= (#[trigger] picks[k]) < s.len()
    &&& forall|k: int, l: int| 0 <= k < l < picks.len() ==> (#[trigger] picks[k]) < (
    #[trigger] picks[l])
    &&& forall|k: int| 0 <= k < picks.len() ==> s[#[trigger] picks[k]] == t[k]
}

/// `t` is a subsequence of `s`: it results from `s` by striking symbols
/// out.
pub open spec fn is_subsequence(t: Seq<usize>, s: Seq<usize>) -> bool {
    exists|picks: Seq<int>| #[trigger] embeds(s, t, picks, 0)
}

/// One more than the first position from `i` on at which `s` reads `c`,
/// or zero if there is none.
pub open spec fn next_after(s: Seq<usize>, i: int, c: usize) -> int
    decreases s.len() - i,
{
    if i >= s.len() || i < 0 {
        0
    } else if s[i] == c {
        i + 1
    } else {
        next_after(s, i + 1, c)
    }
}

/// What `next_after` finds is the first occurrence, and it finds one
/// whenever there is one.
pub proof fn lemma_next_after(s: Seq<usize>, i: int, c: usize)
    requires
        0 <= i <= s.len(),
    ensures
        next_after(s, i, c) == 0 || i < next_after(s, i, c) <= s.len(),
        next_after(s, i, c) != 0 ==> s[next_after(s, i, c) - 1] == c,
        forall|j: int|
            i <= j < s.len() && (next_after(s, i, c) == 0 || j < next_after(s, i, c) - 1)
                ==> #[trigger] s[j] != c,
    decreases s.len() - i,
{
    if i < s.len() && s[i] != c {
        lemma_next_after(s, i + 1, c);
    }
}

/// If `t` can be read in `s` from position `from` on, it can be read
/// with its first symbol at the first possible position.
pub proof fn lemma_embeds_greedy(s: Seq<usize>, t: Seq<usize>, picks: Seq<int>, from: int)
    requires
        0 <= from <= s.len(),
        t.len() >= 1,
        embeds(s, t, picks, from),
    ensures
        next_after(s, from, t[0]) != 0,
        embeds(s, t.subrange(1, t.len() as int), picks.subrange(1, picks.len() as int), next_after(
            s,
            from,
            t[0],
        )),
{
    lemma_next_after(s, from, t[0]);
    let first = picks[0];
    assert(s[first] == t[0]);
    let rest = picks.subrange(1, picks.len() as int);
    let tail = t.subrange(1, t.len() as int);
    assert forall|k: int| 0 <= k < rest.len() implies next_after(s, from, t[0]) <= (
    #[trigger] rest[k]) < s.len() by {
        assert(rest[k] == picks[k + 1]);
        assert(picks[0] < picks[k + 1]);
    }
    assert forall|k: int, l: int| 0 <= k < l < rest.len() implies (#[trigger] rest[k]) < (
    #[trigger] rest[l]) by {
        assert(picks[k + 1] < picks[l + 1]);
    }
    assert forall|k: int| 0 <= k < rest.len() implies s[#[trigger] rest[k]] == tail[k] by {
        assert(rest[k] == picks[k + 1]);
        assert(s[picks[k + 1]] == t[k + 1]);
    }
}

/// A reading of the rest of `t` after an occurrence of its first symbol
/// extends to a reading of `t`.
pub proof fn lemma_embeds_extend(s: Seq<usize>, t: Seq<usize>, rest: Seq<int>, at: int, from: int)
    requires
        t.len() >= 1,
        0 <= from <= at < s.len(),
        s[at] == t[0],
        embeds(s, t.subrange(1, t.len() as int), rest, at + 1),
    ensures
        embeds(s, t, seq![at] + rest, from),
{
    let picks = seq![at] + rest;
    let tail = t.subrange(1, t.len() as int);
    assert forall|k: int| 0 <= k < picks.len() implies from <= (#[trigger] picks[k]) < s.len() by {
        if k >= 1 {
            assert(picks[k] == rest[k - 1]);
        }
    }
    assert forall|k: int, l: int| 0 <= k < l < picks.len() implies (#[trigger] picks[k]) < (
    #[trigger] picks[l]) by {
        assert(picks[l] == rest[l - 1]);
        if k >= 1 {
            assert(picks[k] == rest[k - 1]);
        }
    }
    assert forall|k: int| 0 <= k < picks.len() implies s[#[trigger] picks[k]] == t[k] by {
        if k >= 1 {
            assert(picks[k] == rest[k - 1]);
            assert(s[rest[k - 1]] == tail[k - 1]);
        }
    }
}

/// `t` can be read in `s` from position `from` on.
pub open spec fn readable(s: Seq<usize>, t: Seq<usize>, from: int) -> bool {
    exists|picks: Seq<int>| #[trigger] embeds(s, t, picks, from)
}

/// Reading `t` from `from` on is reading its first symbol at the first
/// possible position and the rest after it.
pub proof fn lemma_readable_step(s: Seq<usize>, t: Seq<usize>, from: int)
    requires
        0 <= from <= s.len(),
    ensures
        t.len() == 0 ==> readable(s, t, from),
        t.len() >= 1 ==> (readable(s, t, from) <==> next_after(s, from, t[0]) != 0 && readable(
            s,
            t.subrange(1, t.len() as int),
            next_after(s, from, t[0]),
        )),
{
    if t.len() == 0 {
        assert(embeds(s, t, Seq::<int>::empty(), from));
    } else {
        let tail = t.subrange(1, t.len() as int);
        let to = next_after(s, from, t[0]);
        lemma_next_after(s, from, t[0]);
        if readable(s, t, from) {
            let picks = choose|picks: Seq<int>| #[trigger] embeds(s, t, picks, from);
            lemma_embeds_greedy(s, t, picks, from);
            assert(embeds(s, tail, picks.subrange(1, picks.len() as int), to));
        }
        if to != 0 && readable(s, tail, to) {
            let rest = choose|rest: Seq<int>| #[trigger] embeds(s, tail, rest, to);
            lemma_embeds_extend(s, t, rest, to - 1, from);
            assert(embeds(s, t, seq![to - 1] + rest, from));
        }
    }
}

/// A string that can be read from `from` on is not longer than what is
/// left of `s`.
pub proof fn lemma_readable_len(s: Seq<usize>, t: Seq<usize>, from: int)
    requires
        0 <= from <= s.len(),
        readable(s, t, from),
    ensures
        t.len() <= s.len() - from,
    decreases t.len(),
{
    if t.len() >= 1 {
        lemma_readable_step(s, t, from);
        lemma_next_after(s, from, t[0]);
        lemma_readable_len(s, t.subrange(1, t.len() as int), next_after(s, from, t[0]));
    }
}

/// `r` comes before `t` because of a position in `r` at which it has the
/// smaller symbol, while both agree before.
pub open spec fn decided_before(r: Seq<usize>, t: Seq<usize>) -> bool {
    exists|p: int|
        0 <= p < r.len() && p < t.len() && #[trigger] r.subrange(0, p) == t.subrange(0, p) && r[p]
            < t[p]
}

/// `r` is `t` or comes before it in the lexicographic order.
pub open spec fn lex_le(r: Seq<usize>, t: Seq<usize>) -> bool {
    r == t || decided_before(r, t)
}

/// After symbol `c`, read at its first occurrence from `state` on, at
/// least `need` symbols of `s` are left.
pub open spec fn feasible(s: Seq<usize>, state: int, c: usize, need: int) -> bool {
    next_after(s, state, c) != 0 && s.len() - next_after(s, state, c) >= need
}

/// What a greedy choice of the best subsequence of length `k` knows after
/// it has chosen `res` and stands at position `state`: every subsequence
/// of length `k` either is already decided to be worse, or begins with
/// `res` and goes on from `state`.
pub open spec fn choice_inv(
    s: Seq<usize>,
    k: int,
    smallest: bool,
    res: Seq<usize>,
    state: int,
) -> bool {
    forall|t: Seq<usize>|
        #[trigger] readable(s, t, 0) && t.len() == k ==> (if smallest {
            decided_before(res, t)
        } else {
            decided_before(t, res)
        }) || (res == t.subrange(0, res.len() as int) && readable(
            s,
            t.subrange(res.len() as int, t.len() as int),
            state,
        ))
}

/// Choosing the best symbol after which enough of the string is left
/// keeps what the greedy choice knows.
pub proof fn lemma_choice_step(
    s: Seq<usize>,
    k: int,
    smallest: bool,
    res: Seq<usize>,
    picks: Seq<int>,
    state: int,
    found: usize,
)
    requires
        0 <= state < s.len(),
        res.len() < k,
        embeds(s, res, picks, 0),
        forall|j: int| 0 <= j < picks.len() ==> (#[trigger] picks[j]) < state,
        choice_inv(s, k, smallest, res, state),
        feasible(s, state, found, k - res.len() - 1),
        forall|c: usize|
            #![trigger next_after(s, state, c)]
            (if smallest {
                c < found
            } else {
                found < c
            }) ==> !feasible(s, state, c, k - res.len() - 1),
    ensures
        ({
            let target = next_after(s, state, found);
            &&& state < target <= s.len()
            &&& embeds(s, res.push(found), picks.push(target - 1), 0)
            &&& forall|j: int| 0 <= j < picks.len() + 1 ==> (#[trigger] picks.push(target - 1)[j])
                < target
            &&& choice_inv(s, k, smallest, res.push(found), target)
        }),
{
    let i = res.len() as int;
    let target = next_after(s, state, found);
    lemma_next_after(s, state, found);
    let at = target - 1;
    let longer = picks.push(at);
    let grown = res.push(found);
    assert forall|j: int| 0 <= j < longer.len() implies 0 <= (#[trigger] longer[j]) < s.len()
        && longer[j] < target by {
        if j < picks.len() {
            assert(longer[j] == picks[j]);
        }
    }
    assert forall|j: int, l: int| 0 <= j < l < longer.len() implies (#[trigger] longer[j]) < (
    #[trigger] longer[l]) by {
        assert(longer[j] == picks[j]);
        if l < picks.len() {
            assert(longer[l] == picks[l]);
        }
    }
    assert forall|j: int| 0 <= j < longer.len() implies s[#[trigger] longer[j]] == grown[j] by {
        if j < picks.len() {
            assert(longer[j] == picks[j]);
        }
    }
    assert forall|t: Seq<usize>| #[trigger] readable(s, t, 0) && t.len() == k implies (if smallest {
        decided_before(grown, t)
    } else {
        decided_before(t, grown)
    }) || (grown == t.subrange(0, grown.len() as int) && readable(
        s,
        t.subrange(grown.len() as int, t.len() as int),
        target,
    )) by {
        if smallest && decided_before(res, t) {
            let p = choose|p: int|
                0 <= p < res.len() && p < t.len() && #[trigger] res.subrange(0, p) == t.subrange(
                    0,
                    p,
                ) && res[p] < t[p];
            assert(grown.subrange(0, p) =~= res.subrange(0, p));
            assert(grown[p] == res[p]);
        } else if !smallest && decided_before(t, res) {
            let p = choose|p: int|
                0 <= p < t.len() && p < res.len() && #[trigger] t.subrange(0, p) == res.subrange(
                    0,
                    p,
                ) && t[p] < res[p];
            assert(grown.subrange(0, p) =~= res.subrange(0, p));
            assert(grown[p] == res[p]);
        } else {
            let rest = t.subrange(i, t.len() as int);
            assert(readable(s, rest, state));
            lemma_readable_step(s, rest, state);
            let c = rest[0];
            assert(c == t[i]);
            let tail = rest.subrange(1, rest.len() as int);
            assert(tail =~= t.subrange(i + 1, t.len() as int));
            lemma_next_after(s, state, c);
            lemma_readable_len(s, tail, next_after(s, state, c));
            assert(feasible(s, state, c, k - i - 1));
            if c == found {
                assert(grown =~= t.subrange(0, i + 1));
            } else {
                assert(grown.subrange(0, i) =~= t.subrange(0, i));
                if smallest {
                    assert(grown[i] < t[i]);
                } else {
                    assert(t[i] < grown[i]);
                }
            }
        }
    }
}

/// The number of strings that can be read from position `i` on, counted
/// by the symbol they begin with: the empty string, and for every symbol
/// that occurs from `i` on the strings that can be read after its first
/// occurrence.  `a` is the number of symbols.
pub open spec fn walks(s: Seq<usize>, i: int, a: nat) -> nat
    decreases s.len() - i, a + 1,
{
    1 + branches(s, i, a, a)
}

/// The part of `walks` for the strings that begin with a symbol below `c`.
pub open spec fn branches(s: Seq<usize>, i: int, c: nat, a: nat) -> nat
    decreases s.len() - i, c,
{
    if c == 0 {
        0
    } else {
        let to = next_after(s, i, (c - 1) as usize);
        branches(s, i, (c - 1) as nat, a) + if i < to <= s.len() {
            walks(s, to, a)
        } else {
            0
        }
    }
}

/// The number of strings of length `k` that can be read from position `i`
/// on, counted by the symbol they begin with.
pub open spec fn walks_len(s: Seq<usize>, i: int, k: nat, a: nat) -> nat
    decreases k, a + 1,
{
    if k == 0 {
        1
    } else {
        branches_len(s, i, k, a, a)
    }
}

/// The part of `walks_len` for the strings that begin with a symbol below
/// `c`.
pub open spec fn branches_len(s: Seq<usize>, i: int, k: nat, c: nat, a: nat) -> nat
    decreases k, c,
{
    if c == 0 || k == 0 {
        0
    } else {
        let to = next_after(s, i, (c - 1) as usize);
        branches_len(s, i, k, (c - 1) as nat, a) + if i < to <= s.len() {
            walks_len(s, to, (k - 1) as nat, a)
        } else {
            0
        }
    }
}

/// The string of rank `k` among those that can be read from position `i`
/// on, in lexicographic order with a string before the strings it begins.
/// Strings that begin with one symbol are skipped by their capped count.
pub open spec fn string_at(s: Seq<usize>, i: int, k: nat, a: nat) -> Seq<usize>
    decreases s.len() - i, a + 1,
{
    if k == 0 {
        Seq::empty()
    } else {
        string_from(s, i, (k - 1) as nat, 0, a)
    }
}

/// The string of rank `k` among those that can be read from position `i`
/// on and begin with a symbol from `c` on.
pub open spec fn string_from(s: Seq<usize>, i: int, k: nat, c: nat, a: nat) -> Seq<usize>
    decreases s.len() - i, a - c,
{
    if c >= a {
        Seq::empty()
    } else {
        let to = next_after(s, i, c as usize);
        if i < to <= s.len() {
            let count = capped(walks(s, to, a));
            if k < count {
                seq![c as usize] + string_at(s, to, k, a)
            } else {
                string_from(s, i, (k - count) as nat, c + 1, a)
            }
        } else {
            string_from(s, i, k, c + 1, a)
        }
    }
}

/// The counts of the strings by their first symbol only grow with the
/// symbols counted.
pub proof fn lemma_branches_monotone(s: Seq<usize>, i: int, c: nat, d: nat, a: nat)
    requires
        c <= d,
    ensures
        branches(s, i, c, a) <= branches(s, i, d, a),
    decreases d,
{
    if c < d {
        lemma_branches_monotone(s, i, c, (d - 1) as nat, a);
    }
}

/// `x`, or the largest `usize` if `x` does not fit.
pub open spec fn capped(x: nat) -> usize {
    if x > usize::MAX {
        usize::MAX
    } else {
        x as usize
    }
}

/// The subsequence automaton of a string over the symbols `0 .. A`.
pub struct Dasg<const A: usize> {
    data: Vec<u32>,
    dp: Vec<usize>,
    n: usize,
    text: Ghost<Seq<usize>>,
}

impl<const A: usize> View for Dasg<A> {
    type V = Seq<usize>;

    /// The string that the automaton was built from.
    closed spec fn view(&self) -> Seq<usize> {
        self.text@
    }
}

impl<const A: usize> Dasg<A> {
    /// The table holds, for every position and every symbol, one more
    /// than the position of the next occurrence of the symbol, or all
    /// ones if there is none.
    pub closed spec fn wf(&self) -> bool {
        let n = self.text@.len() as int;
        &&& n < u32::MAX
        &&& self.n == n
        &&& forall|p: int| 0 <= p < n ==> (#[trigger] self.text@[p]) < A
        &&& self.dp@.len() == n + 1
        &&& forall|i: int| 0 <= i <= n ==> #[trigger] self.dp@[i] == capped(walks(self.text@, i, A as nat))
        &&& self.data@.len() == (n + 1) * A
        &&& forall|i: int, c: int|
            0 <= i <= n && 0 <= c < A ==> #[trigger] self.data@[i * A + c] == Self::cell(
                self.text@,
                i,
                c as usize,
            )
    }

    /// The table entry for position `i` and symbol `c`.
    pub open spec fn cell(s: Seq<usize>, i: int, c: usize) -> u32 {
        if next_after(s, i, c) == 0 {
            u32::MAX
        } else {
            next_after(s, i, c) as u32
        }
    }

    /// Row `i` of a table of `rows` rows lies within the table.
    proof fn lemma_row(rows: int, i: int)
        requires
            0 <= i < rows,
        ensures
            (i + 1) * A == i * A + A,
            (i + 1) * A <= rows * A,
            i * A >= 0,
    {
        assert((i + 1) * A <= rows * A) by (nonlinear_arith)
            requires
                i + 1 <= rows,
                A >= 0,
        ;
        assert((i + 1) * A == i * A + A) by (nonlinear_arith);
        assert(i * A >= 0) by (nonlinear_arith)
            requires
                i >= 0,
                A >= 0,
        ;
    }

    /// Position `i` and symbol `c` have a place in a table of `rows` rows.
    proof fn lemma_cell_index(rows: int, i: int, c: int)
        requires
            0 <= i < rows,
            0 <= c < A,
        ensures
            0 <= i * A + c < rows * A,
            (i + 1) * A == i * A + A,
            i * A >= 0,
    {
        assert((i + 1) * A <= rows * A) by (nonlinear_arith)
            requires
                i + 1 <= rows,
                A >= 0,
        ;
        assert((i + 1) * A == i * A + A) by (nonlinear_arith);
        assert(i * A >= 0) by (nonlinear_arith)
            requires
                i >= 0,
                A >= 0,
        ;
    }

    /// Creates the automaton of the string `s`.
    pub fn from_slice(s: &[usize]) -> (res: Self)
        requires
            s@.len() < u32::MAX,
            (s@.len() + 1) * A <= usize::MAX,
            forall|i: int| 0 <= i < s@.len() ==> (#[trigger] s@[i]) < A,
        ensures
            res.wf(),
            res@ == s@,
    {
        let n = s.len();
        let ghost text = s@;
        // Row by row from the last position to the first; the rows end up
        // in reverse order and are turned around afterwards.
        let mut rows: Vec<u32> = Vec::new();
        let mut c: usize = 0;
        while c < A
            invariant
                c <= A,
                rows@.len() == c,
                n == text.len(),
                forall|d: int| 0 <= d < c ==> #[trigger] rows@[d] == Self::cell(text, n as int, d as usize),
            decreases A - c,
        {
            rows.push(u32::MAX);
            c += 1;
        }
        let mut i: usize = n;
        proof {
            assert(1 * A == A) by (nonlinear_arith);
        }
        while i > 0
            invariant
                i <= n,
                n == text.len(),
                text == s@,
                n < u32::MAX,
                (n + 1) * A <= usize::MAX,
                rows@.len() == (n - i + 1) * A,
                forall|p: int| 0 <= p < text.len() ==> (#[trigger] text[p]) < A,
                forall|r: int, d: int|
                    0 <= r <= n - i && 0 <= d < A ==> #[trigger] rows@[r * A + d] == Self::cell(
                        text,
                        n - r,
                        d as usize,
                    ),
            decreases i,
        {
            i -= 1;
            let sym = s[i];
            proof {
                Self::lemma_row(n + 1, n - i - 1);
            }
            let base = (n - i - 1) * A;
            let mut d: usize = 0;
            let ghost done = rows@;
            proof {
                Self::lemma_row(n + 1, n - i - 1);
                Self::lemma_row(n + 1, n - i);
            }
            while d < A
                invariant
                    d <= A,
                    i < n,
                    n == text.len(),
                    n < u32::MAX,
                    sym == text[i as int],
                    sym < A,
                    base == (n - i - 1) * A,
                    base + A == (n - i) * A,
                    (n - i) * A + A == (n - i + 1) * A,
                    (n - i + 1) * A <= (n + 1) * A <= usize::MAX,
                    done.len() == (n - i) * A,
                    rows@.len() == done.len() + d,
                    rows@.subrange(0, done.len() as int) == done,
                    forall|r: int, e: int|
                        0 <= r <= n - i - 1 && 0 <= e < A ==> #[trigger] done[r * A + e]
                            == Self::cell(text, n - r, e as usize),
                    forall|e: int|
                        0 <= e < d ==> #[trigger] rows@[(n - i) * A + e] == Self::cell(
                            text,
                            i as int,
                            e as usize,
                        ),
                decreases A - d,
            {
                let ghost prev = rows@;
                proof {
                    Self::lemma_cell_index(n - i, n - i - 1, d as int);
                    assert(prev.subrange(0, done.len() as int)[base + d] == prev[base + d]);
                    assert(done[(n - i - 1) * A + d] == Self::cell(text, i + 1, d as usize));
                    lemma_next_after(text, i + 1, d);
                }
                let below = rows[base + d];
                let value = if d == sym {
                    (i + 1) as u32
                } else {
                    below
                };
                rows.push(value);
                proof {
                    assert(rows@.subrange(0, done.len() as int) =~= prev.subrange(
                        0,
                        done.len() as int,
                    ));
                    assert forall|e: int| 0 <= e < d + 1 implies #[trigger] rows@[(n - i) * A + e]
                        == Self::cell(text, i as int, e as usize) by {
                        if e < d {
                            assert(prev[(n - i) * A + e] == Self::cell(text, i as int, e as usize));
                        }
                    }
                }
                d += 1;
            }
            proof {
                assert forall|r: int, e: int| 0 <= r <= n - i && 0 <= e < A implies #[trigger] rows@[r
                    * A + e] == Self::cell(text, n - r, e as usize) by {
                    if r < n - i {
                        Self::lemma_cell_index(n - i, r, e);
                        assert(rows@.subrange(0, done.len() as int)[r * A + e] == rows@[r * A + e]);
                    }
                }
            }
        }
        // Turn the rows around.
        let mut data: Vec<u32> = Vec::new();
        let mut r: usize = 0;
        while r <= n
            invariant
                r <= n + 1,
                n == text.len(),
                n < u32::MAX,
                (n + 1) * A <= usize::MAX,
                rows@.len() == (n + 1) * A,
                data@.len() == r * A,
                forall|q: int, d: int|
                    0 <= q <= n && 0 <= d < A ==> #[trigger] rows@[q * A + d] == Self::cell(
                        text,
                        n - q,
                        d as usize,
                    ),
                forall|q: int, d: int|
                    0 <= q < r && 0 <= d < A ==> #[trigger] data@[q * A + d] == Self::cell(
                        text,
                        q,
                        d as usize,
                    ),
            decreases n + 1 - r,
        {
            proof {
                Self::lemma_row(n + 1, n - r);
                Self::lemma_row(n + 1, r as int);
            }
            let base = (n - r) * A;
            let mut d: usize = 0;
            while d < A
                invariant
                    d <= A,
                    r <= n,
                    n == text.len(),
                    base == (n - r) * A,
                    base + A <= (n + 1) * A,
                    (r + 1) * A == r * A + A,
                    (r + 1) * A <= (n + 1) * A <= usize::MAX,
                    rows@.len() == (n + 1) * A,
                    data@.len() == r * A + d,
                    forall|q: int, e: int|
                        0 <= q <= n && 0 <= e < A ==> #[trigger] rows@[q * A + e] == Self::cell(
                            text,
                            n - q,
                            e as usize,
                        ),
                    forall|q: int, e: int|
                        0 <= q < r && 0 <= e < A ==> #[trigger] data@[q * A + e] == Self::cell(
                            text,
                            q,
                            e as usize,
                        ),
                    forall|e: int|
                        0 <= e < d ==> #[trigger] data@[r * A + e] == Self::cell(
                            text,
                            r as int,
                            e as usize,
                        ),
                decreases A - d,
            {
                let ghost prev = data@;
                proof {
                    assert(rows@[(n - r) * A + d] == Self::cell(text, r as int, d as usize));
                }
                data.push(rows[base + d]);
                proof {
                    assert forall|q: int, e: int| 0 <= q < r && 0 <= e < A implies #[trigger] data@[q
                        * A + e] == Self::cell(text, q, e as usize) by {
                        Self::lemma_cell_index(r as int, q, e);
                        assert(prev[q * A + e] == Self::cell(text, q, e as usize));
                    }
                    assert forall|e: int| 0 <= e < d + 1 implies #[trigger] data@[r * A + e]
                        == Self::cell(text, r as int, e as usize) by {
                        if e < d {
                            assert(prev[r * A + e] == Self::cell(text, r as int, e as usize));
                        }
                    }
                }
                d += 1;
            }
            r += 1;
        }
        let dp = Self::dp(&data, n, Ghost(text));
        Dasg { data, dp, n, text: Ghost(text) }
    }

    /// Adds the capped count `y` to the capped count `x`.
    fn add_capped(x: usize, y: usize, Ghost(a): Ghost<nat>, Ghost(b): Ghost<nat>) -> (res: usize)
        requires
            x == capped(a),
            y == capped(b),
        ensures
            res == capped(a + b),
    {
        x.saturating_add(y)
    }

    /// Counts, for every position, the strings that can be read from it
    /// on, from the last position to the first.
    fn dp(data: &Vec<u32>, n: usize, Ghost(s): Ghost<Seq<usize>>) -> (dp: Vec<usize>)
        requires
            n == s.len(),
            n < u32::MAX,
            data@.len() == (n + 1) * A,
            forall|i: int, c: int|
                0 <= i <= n && 0 <= c < A ==> #[trigger] data@[i * A + c] == Self::cell(
                    s,
                    i,
                    c as usize,
                ),
        ensures
            dp@.len() == n + 1,
            forall|i: int| 0 <= i <= n ==> #[trigger] dp@[i] == capped(walks(s, i, A as nat)),
    {
        let mut dp: Vec<usize> = Vec::new();
        let mut f: usize = 0;
        while f <= n
            invariant
                f <= n + 1,
                n < u32::MAX,
                dp@.len() == f,
            decreases n + 1 - f,
        {
            dp.push(0);
            f += 1;
        }
        let mut i: usize = n + 1;
        while i > 0
            invariant
                i <= n + 1,
                n == s.len(),
                n < u32::MAX,
                dp@.len() == n + 1,
                data@.len() == (n + 1) * A,
                forall|p: int, c: int|
                    0 <= p <= n && 0 <= c < A ==> #[trigger] data@[p * A + c] == Self::cell(
                        s,
                        p,
                        c as usize,
                    ),
                forall|p: int| i <= p <= n ==> #[trigger] dp@[p] == capped(walks(s, p, A as nat)),
            decreases i,
        {
            i -= 1;
            let mut sum: usize = 1;
            let mut c: usize = 0;
            while c < A
                invariant
                    c <= A,
                    i <= n,
                    n == s.len(),
                    n < u32::MAX,
                    dp@.len() == n + 1,
                    data@.len() == (n + 1) * A,
                    forall|p: int, d: int|
                        0 <= p <= n && 0 <= d < A ==> #[trigger] data@[p * A + d] == Self::cell(
                            s,
                            p,
                            d as usize,
                        ),
                    forall|p: int|
                        i < p <= n ==> #[trigger] dp@[p] == capped(walks(s, p, A as nat)),
                    sum == capped(1 + branches(s, i as int, c as nat, A as nat)),
                decreases A - c,
            {
                proof {
                    Self::lemma_cell_index(n + 1, i as int, c as int);
                    assert(data@[i * A + c] == Self::cell(s, i as int, c));
                    lemma_next_after(s, i as int, c);
                    assert(data.len() == data@.len());
                }
                let next = data[i * A + c];
                if next != u32::MAX {
                    sum = Self::add_capped(
                        sum,
                        dp[next as usize],
                        Ghost(1 + branches(s, i as int, c as nat, A as nat)),
                        Ghost(walks(s, next as int, A as nat)),
                    );
                }
                c += 1;
            }
            dp[i] = sum;
        }
        dp
    }

    /// Returns whether `t` is a subsequence of the string.
    pub fn contains(&self, t: &[usize]) -> (res: bool)
        requires
            self.wf(),
            forall|k: int| 0 <= k < t@.len() ==> (#[trigger] t@[k]) < A,
        ensures
            res == is_subsequence(t@, self@),
    {
        let ghost s = self.text@;
        let n = self.len();
        let mut state: usize = 0;
        let mut k: usize = 0;
        proof {
            assert(t@.subrange(0, t@.len() as int) =~= t@);
        }
        while k < t.len()
            invariant
                self.wf(),
                s == self.text@,
                n == s.len(),
                k <= t@.len(),
                state <= n,
                forall|j: int| 0 <= j < t@.len() ==> (#[trigger] t@[j]) < A,
                readable(s, t@, 0) <==> readable(s, t@.subrange(k as int, t@.len() as int), state as int),
            decreases t@.len() - k,
        {
            let c = t[k];
            proof {
                let rest = t@.subrange(k as int, t@.len() as int);
                Self::lemma_cell_index(n + 1, state as int, c as int);
                assert(self.data@[state * A + c] == Self::cell(s, state as int, c));
                lemma_next_after(s, state as int, c);
                lemma_readable_step(s, rest, state as int);
                assert(rest[0] == c);
                assert(rest.subrange(1, rest.len() as int) =~= t@.subrange(
                    k + 1,
                    t@.len() as int,
                ));
                assert(self.data.len() == self.data@.len());
            }
            let next = self.data[state * A + c];
            if next == u32::MAX {
                return false;
            }
            state = next as usize;
            k += 1;
        }
        proof {
            lemma_readable_step(s, t@.subrange(k as int, t@.len() as int), state as int);
        }
        true
    }

    /// Returns the number of strings that can be read in the string, the
    /// empty one among them, or the largest `usize` if there are more.
    pub fn count(&self) -> (res: usize)
        requires
            self.wf(),
        ensures
            res == capped(walks(self@, 0, A as nat)),
    {
        self.dp[0]
    }

    /// Returns the number of strings of length `k` that can be read in the
    /// string, or the largest `usize` if there are more.
    pub fn count_len(&self, k: usize) -> (res: usize)
        requires
            self.wf(),
        ensures
            res == if self@.len() < k {
                0
            } else {
                capped(walks_len(self@, 0, k as nat, A as nat))
            },
    {
        let n = self.len();
        if n < k {
            return 0;
        }
        let ghost s = self.text@;
        let mut prev: Vec<usize> = Vec::new();
        let mut f: usize = 0;
        while f <= n
            invariant
                f <= n + 1,
                n < u32::MAX,
                prev@.len() == f,
                forall|p: int| 0 <= p < f ==> #[trigger] prev@[p] == capped(walks_len(s, p, 0, A as nat)),
            decreases n + 1 - f,
        {
            prev.push(1);
            f += 1;
        }
        let mut round: usize = 0;
        while round < k
            invariant
                self.wf(),
                s == self.text@,
                n == s.len(),
                round <= k,
                prev@.len() == n + 1,
                forall|p: int|
                    0 <= p <= n ==> #[trigger] prev@[p] == capped(
                        walks_len(s, p, round as nat, A as nat),
                    ),
            decreases k - round,
        {
            let mut curr: Vec<usize> = Vec::new();
            let mut i: usize = 0;
            while i <= n
                invariant
                    self.wf(),
                    s == self.text@,
                    n == s.len(),
                    round < k,
                    i <= n + 1,
                    prev@.len() == n + 1,
                    curr@.len() == i,
                    forall|p: int|
                        0 <= p <= n ==> #[trigger] prev@[p] == capped(
                            walks_len(s, p, round as nat, A as nat),
                        ),
                    forall|p: int|
                        0 <= p < i ==> #[trigger] curr@[p] == capped(
                            walks_len(s, p, (round + 1) as nat, A as nat),
                        ),
                decreases n + 1 - i,
            {
                let mut sum: usize = 0;
                let mut c: usize = 0;
                while c < A
                    invariant
                        self.wf(),
                        s == self.text@,
                        n == s.len(),
                        round < k,
                        i <= n,
                        c <= A,
                        prev@.len() == n + 1,
                        forall|p: int|
                            0 <= p <= n ==> #[trigger] prev@[p] == capped(
                                walks_len(s, p, round as nat, A as nat),
                            ),
                        sum == capped(
                            branches_len(s, i as int, (round + 1) as nat, c as nat, A as nat),
                        ),
                    decreases A - c,
                {
                    proof {
                        Self::lemma_cell_index(n + 1, i as int, c as int);
                        assert(self.data@[i * A + c] == Self::cell(s, i as int, c));
                        lemma_next_after(s, i as int, c);
                        assert(self.data.len() == self.data@.len());
                    }
                    let next = self.data[i * A + c];
                    if next != u32::MAX {
                        sum = Self::add_capped(
                            sum,
                            prev[next as usize],
                            Ghost(branches_len(s, i as int, (round + 1) as nat, c as nat, A as nat)),
                            Ghost(walks_len(s, next as int, round as nat, A as nat)),
                        );
                    }
                    c += 1;
                }
                curr.push(sum);
                i += 1;
            }
            prev = curr;
            round += 1;
        }
        prev[0]
    }

    /// Returns the string of rank `k` (counted from zero) among those that
    /// can be read in the string, in lexicographic order, if there are
    /// more than `k`.
    pub fn kth(&self, k: usize) -> (res: Option<Vec<usize>>)
        requires
            self.wf(),
        ensures
            res.is_some() <==> k < capped(walks(self@, 0, A as nat)),
            res.is_some() ==> res.unwrap()@ == string_at(self@, 0, k as nat, A as nat),
    {
        let ghost s = self.text@;
        let ghost a = A as nat;
        let n = self.len();
        if k >= self.dp[0] {
            return None;
        }
        let ghost rank = k as nat;
        let mut k = k;
        let mut res: Vec<usize> = Vec::new();
        let mut state: usize = 0;
        proof {
            assert(res@ + string_at(s, 0, rank, a) =~= string_at(s, 0, rank, a));
        }
        while k > 0
            invariant
                self.wf(),
                s == self.text@,
                a == A,
                n == s.len(),
                state <= n,
                k < self.dp@[state as int],
                res@ + string_at(s, state as int, k as nat, a) == string_at(s, 0, rank, a),
            decreases n - state,
        {
            let ghost entry = k as nat;
            k -= 1;
            let mut c: usize = 0;
            let mut moved = false;
            let ghost from = state as int;
            let ghost before = res@;
            proof {
                assert(self.dp@[from] == capped(walks(s, from, a)));
                assert(k < branches(s, from, a, a));
            }
            while !moved
                invariant
                    self.wf(),
                    s == self.text@,
                    a == A,
                    n == s.len(),
                    0 <= from <= n,
                    c <= A,
                    k < usize::MAX,
                    !moved ==> state == from && res@ == before && k + branches(s, from, c as nat, a)
                        < branches(s, from, a, a) && string_from(s, from, k as nat, c as nat, a)
                        == string_at(s, from, entry, a),
                    moved ==> from < state <= n && k < self.dp@[state as int] && res@
                        + string_at(s, state as int, k as nat, a) == before + string_at(
                        s,
                        from,
                        entry,
                        a,
                    ),
                decreases A - c + (if moved {
                    0int
                } else {
                    1int
                }),
            {
                proof {
                    if c >= A {
                        assert(branches(s, from, c as nat, a) == branches(s, from, a, a));
                    }
                    Self::lemma_cell_index(n + 1, from, c as int);
                    assert(self.data@[from * A + c] == Self::cell(s, from, c));
                    lemma_next_after(s, from, c);
                    assert(self.data.len() == self.data@.len());
                    let to = next_after(s, from, c);
                    assert(branches(s, from, (c + 1) as nat, a) == branches(s, from, c as nat, a)
                        + if from < to <= s.len() {
                        walks(s, to, a)
                    } else {
                        0
                    });
                }
                let next = self.data[state * A + c];
                if next != u32::MAX {
                    let count = self.dp[next as usize];
                    proof {
                        assert(count == capped(walks(s, next as int, a)));
                    }
                    if k < count {
                        proof {
                            assert((before + seq![c]) + string_at(s, next as int, k as nat, a)
                                =~= before + (seq![c] + string_at(s, next as int, k as nat, a)));
                        }
                        res.push(c);
                        state = next as usize;
                        moved = true;
                    } else {
                        k -= count;
                        c += 1;
                    }
                } else {
                    c += 1;
                }
            }
            proof {
                assert((res@ + string_at(s, state as int, k as nat, a)) =~= before + string_at(
                    s,
                    from,
                    entry,
                    a,
                ));
            }
        }
        proof {
            assert(res@ + Seq::<usize>::empty() =~= res@);
        }
        Some(res)
    }

    /// Returns the best subsequence of length `k`: the lexicographically
    /// smallest if `smallest` is set, the greatest otherwise.
    fn best_subsequence(&self, k: usize, smallest: bool) -> (res: Option<Vec<usize>>)
        requires
            self.wf(),
        ensures
            res.is_some() <==> k <= self@.len(),
            res.is_some() ==> res.unwrap()@.len() == k && is_subsequence(res.unwrap()@, self@),
            res.is_some() ==> forall|t: Seq<usize>|
                #[trigger] is_subsequence(t, self@) && t.len() == k ==> if smallest {
                    lex_le(res.unwrap()@, t)
                } else {
                    lex_le(t, res.unwrap()@)
                },
    {
        let n = self.len();
        if n < k {
            return None;
        }
        let ghost s = self.text@;
        let mut res: Vec<usize> = Vec::new();
        let mut state: usize = 0;
        let mut i: usize = 0;
        let ghost mut picks: Seq<int> = Seq::empty();
        proof {
            assert(embeds(s, res@, picks, 0));
            assert forall|t: Seq<usize>| #[trigger] readable(s, t, 0) && t.len() == k implies (
            res@ == t.subrange(0, 0) && readable(s, t.subrange(0, t.len() as int), 0)) by {
                assert(t.subrange(0, t.len() as int) =~= t);
                assert(res@ =~= t.subrange(0, 0));
            }
        }
        while i < k
            invariant
                self.wf(),
                s == self.text@,
                n == s.len(),
                k <= n,
                i <= k,
                res@.len() == i,
                state <= n,
                n - state >= k - i,
                embeds(s, res@, picks, 0),
                forall|j: int| 0 <= j < picks.len() ==> (#[trigger] picks[j]) < state,
                choice_inv(s, k as int, smallest, res@, state as int),
            decreases k - i,
        {
            let found = self.best_symbol(state, k - i - 1, smallest);
            proof {
                lemma_choice_step(s, k as int, smallest, res@, picks, state as int, found);
                lemma_next_after(s, state as int, found);
                Self::lemma_cell_index(n + 1, state as int, found as int);
                assert(self.data@[state * A + found] == Self::cell(s, state as int, found));
                assert(self.data.len() == self.data@.len());
                picks = picks.push(next_after(s, state as int, found) - 1);
            }
            let target = self.data[state * A + found] as usize;
            res.push(found);
            state = target;
            i += 1;
        }
        proof {
            assert forall|t: Seq<usize>| #[trigger] is_subsequence(t, s) && t.len() == k implies if smallest {
                lex_le(res@, t)
            } else {
                lex_le(t, res@)
            } by {
                let any = choose|any: Seq<int>| #[trigger] embeds(s, t, any, 0);
                assert(readable(s, t, 0));
                assert(t.subrange(0, k as int) =~= t);
            }
        }
        Some(res)
    }

    /// Returns the first symbol, from the least up if `smallest` is set
    /// and from the greatest down otherwise, after whose next occurrence
    /// from `state` on at least `need` symbols are left.
    fn best_symbol(&self, state: usize, need: usize, smallest: bool) -> (found: usize)
        requires
            self.wf(),
            state < self@.len(),
            need < self@.len() - state,
        ensures
            found < A,
            feasible(self@, state as int, found, need as int),
            forall|c: usize|
                #![trigger next_after(self@, state as int, c)]
                (if smallest {
                    c < found
                } else {
                    found < c
                }) ==> !feasible(self@, state as int, c, need as int),
    {
        let ghost s = self.text@;
        let n = self.len();
        let mut probe: usize = 0;
        proof {
            self.lemma_symbols(state as int);
            lemma_next_after(s, state as int, s[state as int]);
            assert forall|c: usize|
                #![trigger next_after(s, state as int, c)]
                A <= c implies !feasible(s, state as int, c, need as int) by {
                lemma_next_after(s, state as int, c);
                if next_after(s, state as int, c) != 0 {
                    self.lemma_symbols(next_after(s, state as int, c) - 1);
                }
            }
        }
        loop
            invariant_except_break
                self.wf(),
                s == self.text@,
                n == s.len(),
                state < n,
                need < n - state,
                probe < A,
                if smallest {
                    probe <= s[state as int]
                } else {
                    A - 1 - probe >= s[state as int]
                },
                forall|c: usize|
                    #![trigger next_after(s, state as int, c)]
                    (if smallest {
                        c < probe
                    } else {
                        A - probe <= c
                    }) ==> !feasible(s, state as int, c, need as int),
            ensures
                probe < A,
                feasible(
                    s,
                    state as int,
                    if smallest {
                        probe
                    } else {
                        (A - 1 - probe) as usize
                    },
                    need as int,
                ),
                forall|c: usize|
                    #![trigger next_after(s, state as int, c)]
                    (if smallest {
                        c < probe
                    } else {
                        A - probe <= c
                    }) ==> !feasible(s, state as int, c, need as int),
            decreases A - probe,
        {
            let c = if smallest {
                probe
            } else {
                A - 1 - probe
            };
            proof {
                Self::lemma_cell_index(n + 1, state as int, c as int);
                assert(self.data@[state * A + c] == Self::cell(s, state as int, c));
                lemma_next_after(s, state as int, c);
                assert(self.data.len() == self.data@.len());
            }
            let next = self.data[state * A + c];
            if next < u32::MAX && need <= n - next as usize {
                break ;
            }
            proof {
                assert(!feasible(s, state as int, c, need as int));
                assert(c != s[state as int]);
            }
            probe += 1;
        }
        let found = if smallest {
            probe
        } else {
            A - 1 - probe
        };
        proof {
            assert forall|c: usize|
                #![trigger next_after(s, state as int, c)]
                (if smallest {
                    c < found
                } else {
                    found < c
                }) implies !feasible(s, state as int, c, need as int) by {
                if c >= A {
                    lemma_next_after(s, state as int, c);
                    if next_after(s, state as int, c) != 0 {
                        self.lemma_symbols(next_after(s, state as int, c) - 1);
                    }
                }
            }
        }
        found
    }

    /// Every symbol of the string is below `A`.
    proof fn lemma_symbols(&self, p: int)
        requires
            self.wf(),
            0 <= p < self@.len(),
        ensures
            self@[p] < A,
    {
    }

    /// Returns the lexicographically smallest subsequence of length `k`,
    /// if the string is that long.
    pub fn min_subsequence(&self, k: usize) -> (res: Option<Vec<usize>>)
        requires
            self.wf(),
        ensures
            res.is_some() <==> k <= self@.len(),
            res.is_some() ==> res.unwrap()@.len() == k && is_subsequence(res.unwrap()@, self@),
            res.is_some() ==> forall|t: Seq<usize>|
                #[trigger] is_subsequence(t, self@) && t.len() == k ==> lex_le(res.unwrap()@, t),
    {
        self.best_subsequence(k, true)
    }

    /// Returns the lexicographically greatest subsequence of length `k`,
    /// if the string is that long.
    pub fn max_subsequence(&self, k: usize) -> (res: Option<Vec<usize>>)
        requires
            self.wf(),
        ensures
            res.is_some() <==> k <= self@.len(),
            res.is_some() ==> res.unwrap()@.len() == k && is_subsequence(res.unwrap()@, self@),
            res.is_some() ==> forall|t: Seq<usize>|
                #[trigger] is_subsequence(t, self@) && t.len() == k ==> lex_le(t, res.unwrap()@),
    {
        self.best_subsequence(k, false)
    }

    /// Returns the length of the string.
    pub fn len(&self) -> (res: usize)
        requires
            self.wf(),
        ensures
            res == self@.len(),
    {
        self.n
    }

    /// Returns whether the string is empty.
    pub fn is_empty(&self) -> (res: bool)
        requires
            self.wf(),
        ensures
            res == (self@.len() == 0),
    {
        self.len() == 0
    }
}

} // verus!
