//! Case-insensitive substring matching with a Knuth-Morris-Pratt automaton.
//!
//! Each character of the query is lowercased, and the whole turned into a failure table; a
//! name is then lowercased in the same way and scanned once, without going back.

use crate::text::{ascii_lower_all, contains_text, occurs_at, to_chars};
use crate::unicode::{all_ascii, char_lowercase, lower_char};
use vstd::prelude::*;

verus! {

/// A text with each character lowercased on its own.
pub open spec fn folded(s: Seq<char>) -> Seq<char>
    decreases s.len(),
{
    if s.len() == 0 {
        seq![]
    } else {
        folded(s.drop_last()) + char_lowercase(s.last())
    }
}

/// Whether `name` contains `query` as a case-insensitive substring. The empty
/// query is contained in nothing.
pub open spec fn name_matches(query: Seq<char>, name: Seq<char>) -> bool {
    query.len() > 0 && contains_text(folded(name), folded(query))
}

/// What `name_matches` comes to on ASCII text.
pub open spec fn ascii_matches(query: Seq<char>, name: Seq<char>) -> bool {
    query.len() > 0 && contains_text(ascii_lower_all(name), ascii_lower_all(query))
}

/// Whether the first `k` characters of `p` are the last `k` of `s`.
spec fn overlaps(p: Seq<char>, s: Seq<char>, k: int) -> bool {
    &&& 0 <= k <= p.len()
    &&& k <= s.len()
    &&& p.take(k) == s.skip(s.len() - k)
}

/// Whether `k` is the largest overlap below `limit`.
spec fn longest(p: Seq<char>, s: Seq<char>, k: int, limit: int) -> bool {
    &&& overlaps(p, s, k)
    &&& k < limit
    &&& forall|j: int| k < j < limit ==> !overlaps(p, s, j)
}

/// Whether `fail` is the failure table of `p`: for each prefix the length of the
/// longest proper prefix of `p` that is also a suffix of it.
spec fn is_failure(p: Seq<char>, fail: Seq<usize>) -> bool {
    forall|i: int|
        0 <= i < fail.len() ==> longest(p, p.take(i + 1), (#[trigger] fail[i]) as int, i + 1)
}

/// An overlap with an overlap is an overlap.
proof fn lemma_nested(p: Seq<char>, s: Seq<char>, k: int, j: int)
    requires
        overlaps(p, s, k),
        0 <= j <= k,
    ensures
        overlaps(p, s, j) == overlaps(p, p.take(k), j),
{
    assert(s.skip(s.len() - k).skip(k - j) =~= s.skip(s.len() - j));
    assert(p.take(k).skip(k - j) =~= s.skip(s.len() - j));
}

/// One more character lengthens an overlap exactly when it is the next of `p`.
proof fn lemma_extend(p: Seq<char>, s: Seq<char>, c: char, k: int)
    requires
        0 <= k < p.len(),
    ensures
        overlaps(p, s.push(c), k + 1) == (overlaps(p, s, k) && p[k] == c),
{
    let t = s.push(c);
    if k <= s.len() {
        let a = p.take(k + 1);
        let b = t.skip(t.len() - (k + 1));
        assert(a.drop_last() =~= p.take(k));
        assert(b.drop_last() =~= s.skip(s.len() - k));
        assert(a =~= a.drop_last().push(p[k]));
        assert(b =~= b.drop_last().push(c));
        if a == b {
            assert(a.drop_last() == b.drop_last());
            assert(a.last() == b.last());
        }
    }
}

/// Occurrences are full-length overlaps with what has been read.
proof fn lemma_occurrence(p: Seq<char>, text: Seq<char>, at: int)
    requires
        0 <= at,
        at + p.len() <= text.len(),
    ensures
        occurs_at(text, p, at) == overlaps(p, text.take(at + p.len()), p.len() as int),
{
    assert(p.take(p.len() as int) =~= p);
    assert(text.take(at + p.len()).skip(at) =~= text.subrange(at, at + p.len()));
}

/// Move the automaton over one character: from the longest overlap of `p` with what
/// was read to the longest overlap with that and `c`.
fn advance(
    p: &Vec<char>,
    fail: &Vec<usize>,
    state: usize,
    c: char,
    Ghost(read): Ghost<Seq<char>>,
    Ghost(limit): Ghost<int>,
) -> (r: usize)
    requires
        is_failure(p@, fail@),
        longest(p@, read, state as int, limit),
        limit <= p@.len(),
        state <= fail@.len(),
    ensures
        longest(p@, read.push(c), r as int, limit + 1),
{
    let mut k: usize = state;
    while k > 0 && p[k] != c
        invariant
            k <= state,
            state <= fail@.len(),
            state < limit <= p@.len(),
            is_failure(p@, fail@),
            overlaps(p@, read, k as int),
            forall|j: int| k < j < limit ==> !(#[trigger] overlaps(p@, read, j) && p@[j] == c),
        decreases k,
    {
        let next: usize = fail[k - 1];
        proof {
            assert(longest(p@, p@.take(k as int), next as int, k as int));
            lemma_nested(p@, read, k as int, next as int);
            assert forall|j: int| next < j < limit implies !(#[trigger] overlaps(p@, read, j)
                && p@[j] == c) by {
                if j < k {
                    lemma_nested(p@, read, k as int, j);
                }
            }
        }
        k = next;
    }
    proof {
        let all = read.push(c);
        assert(p@.take(0) =~= all.skip(all.len() as int));
        lemma_extend(p@, read, c, k as int);
        assert forall|j: int| k + 1 < j < limit + 1 implies !overlaps(p@, all, j) by {
            lemma_extend(p@, read, c, j - 1);
        }
        lemma_extend(p@, read, c, 0);
        assert(k < p.len());
    }
    if p[k] == c {
        k + 1
    } else {
        0
    }
}

/// Build the failure table of `p`.
fn build_failure(p: &Vec<char>) -> (r: Vec<usize>)
    ensures
        r@.len() == p@.len(),
        is_failure(p@, r@),
{
    let mut fail: Vec<usize> = Vec::new();
    if p.len() == 0 {
        return fail;
    }
    fail.push(0);
    proof {
        assert(p@.take(0) =~= p@.take(1).skip(1));
        assert(longest(p@, p@.take(1), 0, 1));
    }
    let mut i: usize = 1;
    while i < p.len()
        invariant
            1 <= i <= p@.len(),
            fail@.len() == i,
            is_failure(p@, fail@),
        decreases p@.len() - i,
    {
        let ghost read = p@.take(i as int);
        assert(longest(p@, read, fail@[i - 1] as int, i as int));
        assert(read.push(p@[i as int]) =~= p@.take(i + 1));
        let k: usize = fail[i - 1];
        let r: usize = advance(p, &fail, k, p[i], Ghost(read), Ghost(i as int));
        fail.push(r);
        i += 1;
    }
    fail
}

/// A text with each character lowercased on its own.
fn fold_chars(s: &Vec<char>) -> (r: Vec<char>)
    ensures
        r@ == folded(s@),
        r@.len() >= s@.len(),
        all_ascii(s@) ==> r@ == ascii_lower_all(s@),
{
    let mut out: Vec<char> = Vec::new();
    let ghost plain = ascii_lower_all(s@);
    assert(s@.take(0) =~= seq![]);
    for i in 0..s.len()
        invariant
            plain == ascii_lower_all(s@),
            out@ == folded(s@.take(i as int)),
            out@.len() >= i,
            all_ascii(s@) ==> out@ == plain.take(i as int),
    {
        let ghost before = out@;
        let mut lowered = lower_char(s[i]);
        let ghost more = lowered@;
        out.append(&mut lowered);
        proof {
            assert(out@ =~= before + more);
            assert(s@.take(i + 1).drop_last() =~= s@.take(i as int));
            if all_ascii(s@) {
                assert(out@ =~= plain.take(i + 1));
            }
        }
    }
    assert(s@.take(s@.len() as int) =~= s@);
    assert(plain.take(plain.len() as int) =~= plain);
    out
}

/// A compiled case-insensitive substring matcher.
pub struct NameMatcher {
    needle: Vec<char>,
    fail: Vec<usize>,
    query: Ghost<Seq<char>>,
}

impl NameMatcher {
    /// The query that the matcher was compiled from.
    pub closed spec fn query(&self) -> Seq<char> {
        self.query@
    }

    /// The table belongs to the folded query.
    #[verifier::type_invariant]
    spec fn compiled(&self) -> bool {
        &&& self.needle@ == folded(self.query@)
        &&& self.needle@.len() >= self.query@.len()
        &&& self.fail@.len() == self.needle@.len()
        &&& is_failure(self.needle@, self.fail@)
        &&& all_ascii(self.query@) ==> self.needle@ == ascii_lower_all(self.query@)
    }

    /// Compile `query` into a matcher.
    pub fn new(query: &str) -> (r: NameMatcher)
        ensures
            r.query() == query@,
    {
        let needle = fold_chars(&to_chars(query));
        let fail = build_failure(&needle);
        NameMatcher { needle, fail, query: Ghost(query@) }
    }

    /// Whether `haystack` contains the query as a case-insensitive substring.
    pub fn is_match(&self, haystack: &str) -> (r: bool)
        ensures
            r == name_matches(self.query(), haystack@),
            all_ascii(self.query()) && all_ascii(haystack@) ==> r == ascii_matches(
                self.query(),
                haystack@,
            ),
    {
        proof {
            use_type_invariant(self);
        }
        let m: usize = self.needle.len();
        if m == 0 {
            return false;
        }
        assert(self.query().len() > 0);
        let chars = to_chars(haystack);
        let mut state: usize = 0;
        let ghost mut read = Seq::<char>::empty();
        let ghost p = self.needle@;
        let ghost whole = folded(haystack@);
        let ghost plain = ascii_lower_all(haystack@);
        proof {
            assert(chars@.take(0) =~= Seq::<char>::empty());
            assert(p.take(0) =~= read.skip(0));
        }
        for i in 0..chars.len()
            invariant
                m == p.len(),
                m > 0,
                self.query().len() > 0,
                p == self.needle@,
                p == folded(self.query()),
                self.fail@.len() == m,
                is_failure(p, self.fail@),
                chars@ == haystack@,
                whole == folded(haystack@),
                plain == ascii_lower_all(haystack@),
                all_ascii(self.query()) ==> p == ascii_lower_all(self.query()),
                all_ascii(haystack@) ==> read == plain.take(i as int),
                read == folded(chars@.take(i as int)),
                longest(p, read, state as int, m as int),
                forall|j: int| p.len() <= j <= read.len() ==> !(#[trigger] overlaps(
                    p,
                    read.take(j),
                    p.len() as int,
                )),
        {
            let lowered = lower_char(chars[i]);
            let ghost before = read;
            proof {
                assert(chars@.take(i + 1).drop_last() =~= chars@.take(i as int));
                assert(chars@.take(i + 1).last() == chars@[i as int]);
                lemma_folded_grows(chars@, i + 1);
                assert(lowered@.take(0) =~= Seq::<char>::empty());
                assert(before + lowered@.take(0) =~= before);
            }
            for j in 0..lowered.len()
                invariant
                    m == p.len(),
                    m > 0,
                    self.query().len() > 0,
                    p == self.needle@,
                    p == folded(self.query()),
                    self.fail@.len() == m,
                    is_failure(p, self.fail@),
                    chars@ == haystack@,
                    whole == folded(haystack@),
                    plain == ascii_lower_all(haystack@),
                    i < chars@.len(),
                    all_ascii(self.query()) ==> p == ascii_lower_all(self.query()),
                    all_ascii(haystack@) ==> before == plain.take(i as int) && lowered@
                        == seq![plain[i as int]],
                    whole.len() >= before.len() + lowered@.len(),
                    whole.take((before.len() + lowered@.len()) as int) == before + lowered@,
                    read == before + lowered@.take(j as int),
                    longest(p, read, state as int, m as int),
                    forall|j: int| p.len() <= j <= read.len() ==> !(#[trigger] overlaps(
                        p,
                        read.take(j),
                        p.len() as int,
                    )),
            {
                let c: char = lowered[j];
                let ghost prev = read;
                let next: usize = advance(
                    &self.needle,
                    &self.fail,
                    state,
                    c,
                    Ghost(prev),
                    Ghost(m as int),
                );
                proof {
                    read = prev.push(c);
                    assert(lowered@.take(j + 1) =~= lowered@.take(j as int).push(c));
                    assert(read =~= before + lowered@.take(j + 1));
                }
                if next == m {
                    proof {
                        let at = read.len() - m;
                        assert((before + lowered@).take(read.len() as int) =~= read);
                        assert(whole.take((before.len() + lowered@.len()) as int).take(
                            read.len() as int,
                        ) =~= whole.take(read.len() as int));
                        lemma_occurrence(p, whole, at);
                        if all_ascii(haystack@) {
                            assert(plain.take(read.len() as int) =~= read);
                            lemma_occurrence(p, plain, at);
                        }
                    }
                    return true;
                }
                state = next;
                proof {
                    assert forall|j: int| p.len() <= j <= read.len() implies !(#[trigger] overlaps(
                        p,
                        read.take(j),
                        p.len() as int,
                    )) by {
                        if j < read.len() {
                            assert(read.take(j) =~= prev.take(j));
                        } else {
                            assert(read.take(j) =~= read);
                        }
                    }
                }
            }
            assert(lowered@.take(lowered@.len() as int) =~= lowered@);
            proof {
                if all_ascii(haystack@) {
                    assert(read =~= plain.take(i + 1));
                }
            }
        }
        proof {
            assert(chars@.take(chars@.len() as int) =~= chars@);
            assert(read == whole);
            assert forall|at: int| !occurs_at(whole, p, at) by {
                if 0 <= at && at + p.len() <= whole.len() {
                    assert(!overlaps(p, read.take(at + p.len()), p.len() as int));
                    lemma_occurrence(p, whole, at);
                }
            }
            if all_ascii(haystack@) {
                assert(plain.take(plain.len() as int) =~= plain);
            }
        }
        false
    }
}

/// A name matches a query by their folds alone, so that writing either in another case with
/// the same fold changes nothing; and every query that is not empty matches its own text,
/// wherever it stands in a name.
pub proof fn law_query_matches_its_own_text(
    query: Seq<char>,
    before: Seq<char>,
    same: Seq<char>,
    after: Seq<char>,
)
    requires
        query.len() > 0,
        folded(same) == folded(query),
    ensures
        name_matches(query, query),
        name_matches(query, before + same + after),
{
    let q = folded(query);
    assert(occurs_at(q, q, 0)) by {
        assert(q.subrange(0, q.len() as int) =~= q);
    }
    lemma_folded_joins(before, same);
    lemma_folded_joins(before + same, after);
    let whole = folded(before + same + after);
    let at = folded(before).len() as int;
    assert(occurs_at(whole, q, at)) by {
        assert(whole.subrange(at, at + q.len()) =~= q);
    }
}

/// Folding goes text by text.
proof fn lemma_folded_joins(s: Seq<char>, t: Seq<char>)
    ensures
        folded(s + t) == folded(s) + folded(t),
    decreases t.len(),
{
    if t.len() == 0 {
        assert(s + t =~= s);
        assert(folded(s) + folded(t) =~= folded(s));
    } else {
        lemma_folded_joins(s, t.drop_last());
        assert((s + t).drop_last() =~= s + t.drop_last());
        assert(folded(s + t) =~= folded(s) + folded(t));
    }
}

/// Folding a text begins with what folding its first characters gives.
proof fn lemma_folded_grows(s: Seq<char>, i: int)
    requires
        0 <= i <= s.len(),
    ensures
        folded(s.take(i)).len() <= folded(s).len(),
        folded(s).take(folded(s.take(i)).len() as int) == folded(s.take(i)),
    decreases s.len(),
{
    if i == s.len() {
        assert(s.take(i) =~= s);
        assert(folded(s).take(folded(s).len() as int) =~= folded(s));
    } else {
        let t = s.drop_last();
        lemma_folded_grows(t, i);
        assert(t.take(i) =~= s.take(i));
        assert(folded(s).take(folded(s.take(i)).len() as int) =~= folded(t).take(
            folded(s.take(i)).len() as int,
        ));
    }
}

/// A query matches exactly the names that hold it, both folded, in one piece; an empty query
/// matches nothing.
pub proof fn law_match_is_containment(query: Seq<char>, name: Seq<char>)
    ensures
        name_matches(query, name) <==> query.len() > 0 && exists|at: int|
            occurs_at(folded(name), folded(query), at),
        !name_matches(seq![], name),
        folded(seq![]).len() == 0,
        forall|c: char| #[trigger] folded(name.push(c)) == folded(name) + char_lowercase(c),
{
    assert forall|c: char| #[trigger] folded(name.push(c)) == folded(name) + char_lowercase(c) by {
        assert(name.push(c).drop_last() =~= name);
    }
}

} // verus!
