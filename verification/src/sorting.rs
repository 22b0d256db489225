//! Stable sorting of named entries by their ASCII-lower-cased names, as
//! `sort_by_cached_key(|x| x.name.to_ascii_lowercase())` orders them.
use vstd::prelude::*;

use crate::text;

verus! {

/// Entries that carry a display name.
pub trait Named {
    spec fn name_view(&self) -> Seq<char>;

    fn name_str(&self) -> (r: &str)
        ensures
            r@ == self.name_view();
}

/// `to_ascii_lowercase` of a string.
pub open spec fn lower_seq(s: Seq<char>) -> Seq<char> {
    s.map_values(|c: char| text::lower(c))
}

/// The sort key of an entry.
pub open spec fn key_of<T: Named>(x: T) -> Seq<char> {
    lower_seq(x.name_view())
}

/// Lexicographic order by code point, which is the order of `String`s (their UTF-8 bytes
/// compare as their code points do).
pub open spec fn lex_lt(a: Seq<char>, b: Seq<char>) -> bool
    decreases a.len(),
{
    if a.len() == 0 {
        b.len() > 0
    } else if b.len() == 0 {
        false
    } else if a[0] != b[0] {
        a[0] < b[0]
    } else {
        lex_lt(a.drop_first(), b.drop_first())
    }
}

pub proof fn lemma_lex_irreflexive(a: Seq<char>)
    ensures
        !lex_lt(a, a),
    decreases a.len(),
{
    if a.len() > 0 {
        lemma_lex_irreflexive(a.drop_first());
    }
}

pub proof fn lemma_lex_trichotomy(a: Seq<char>, b: Seq<char>)
    ensures
        lex_lt(a, b) || a == b || lex_lt(b, a),
        !(lex_lt(a, b) && lex_lt(b, a)),
    decreases a.len(),
{
    if a.len() > 0 && b.len() > 0 {
        if a[0] == b[0] {
            lemma_lex_trichotomy(a.drop_first(), b.drop_first());
            if a.drop_first() == b.drop_first() {
                assert(a == seq![a[0]] + a.drop_first());
                assert(b == seq![b[0]] + b.drop_first());
            }
        }
    } else if a.len() == 0 && b.len() == 0 {
        assert(a == b);
    }
}

pub proof fn lemma_lex_transitive(a: Seq<char>, b: Seq<char>, c: Seq<char>)
    requires
        lex_lt(a, b),
        lex_lt(b, c),
    ensures
        lex_lt(a, c),
    decreases a.len(),
{
    if a.len() > 0 && b.len() > 0 && c.len() > 0 {
        if a[0] == b[0] && b[0] == c[0] {
            lemma_lex_transitive(a.drop_first(), b.drop_first(), c.drop_first());
        }
    }
}

/// Entry `i` of a sorted result comes before entry `j`: a smaller key, or an equal key
/// and an earlier position in the input.
pub open spec fn in_order(ka: Seq<char>, kb: Seq<char>, pa: int, pb: int) -> bool {
    lex_lt(ka, kb) || (ka == kb && pa < pb)
}

/// `out` is the stable sort of `input` by key: a rearrangement (`perm[i]` is where
/// `out[i]` stood) in which keys never decrease and equal keys keep their input order.
pub open spec fn stable_sort_of<T: Named>(input: Seq<T>, out: Seq<T>, perm: Seq<int>) -> bool {
    &&& out.len() == input.len()
    &&& perm.len() == input.len()
    &&& forall|i: int| 0 <= i < perm.len() ==> 0 <= #[trigger] perm[i] < input.len()
    &&& forall|i: int, j: int| 0 <= i < j < perm.len() ==> perm[i] != perm[j]
    &&& forall|i: int| 0 <= i < out.len() ==> #[trigger] out[i] == input[perm[i]]
    &&& forall|i: int, j: int|
        0 <= i < j < out.len() ==> in_order(key_of(out[i]), key_of(out[j]), perm[i], perm[j])
}

pub open spec fn is_stable_sort<T: Named>(input: Seq<T>, out: Seq<T>) -> bool {
    exists|perm: Seq<int>| stable_sort_of(input, out, perm)
}

fn lower_key(s: &str) -> (r: Vec<char>)
    ensures
        r@ == lower_seq(s@),
{
    let v = text::chars_of(s);
    let mut out: Vec<char> = Vec::new();
    let mut i: usize = 0;
    while i < v.len()
        invariant
            i <= v@.len(),
            out@ == lower_seq(v@.take(i as int)),
        decreases v@.len() - i,
    {
        out.push(text::lower_char(v[i]));
        assert(v@.take(i + 1) == v@.take(i as int).push(v@[i as int]));
        i = i + 1;
    }
    assert(v@.take(v@.len() as int) == v@);
    out
}

pub fn lex_lt_exec(a: &Vec<char>, b: &Vec<char>) -> (r: bool)
    ensures
        r == lex_lt(a@, b@),
{
    let mut i: usize = 0;
    assert(a@.skip(0) == a@);
    assert(b@.skip(0) == b@);
    while i < a.len() && i < b.len()
        invariant
            i <= a@.len(),
            i <= b@.len(),
            forall|j: int| 0 <= j < i ==> a@[j] == b@[j],
            lex_lt(a@, b@) == lex_lt(a@.skip(i as int), b@.skip(i as int)),
        decreases a@.len() - i,
    {
        assert(a@.skip(i as int)[0] == a@[i as int]);
        assert(b@.skip(i as int)[0] == b@[i as int]);
        if a[i] != b[i] {
            return a[i] < b[i];
        }
        assert(a@.skip(i as int).drop_first() == a@.skip(i + 1));
        assert(b@.skip(i as int).drop_first() == b@.skip(i + 1));
        i = i + 1;
    }
    i == a.len() && i < b.len()
}

/// Sorts entries by their ASCII-lower-cased names; entries with equal keys keep their order.
pub fn sort_by_name<T: Named>(items: Vec<T>) -> (out: Vec<T>)
    ensures
        is_stable_sort(items@, out@),
{
    let ghost input = items@;
    let n = items.len();
    let mut rest = items;
    let mut out: Vec<T> = Vec::new();
    let mut keys: Vec<Vec<char>> = Vec::new();
    let ghost mut perm: Seq<int> = Seq::empty();
    let mut t: usize = 0;
    while t < n
        invariant
            t <= n,
            n == input.len(),
            rest@ == input.subrange(t as int, n as int),
            out@.len() == t,
            keys@.len() == t,
            perm.len() == t,
            forall|i: int| 0 <= i < t ==> (#[trigger] keys@[i])@ == key_of(out@[i]),
            forall|i: int| 0 <= i < t ==> 0 <= #[trigger] perm[i] < t,
            forall|i: int, j: int| 0 <= i < j < t ==> perm[i] != perm[j],
            forall|i: int| 0 <= i < t ==> #[trigger] out@[i] == input[perm[i]],
            forall|i: int, j: int|
                0 <= i < j < t ==> in_order(key_of(out@[i]), key_of(out@[j]), perm[i], perm[j]),
        decreases n - t,
    {
        let x = rest.remove(0);
        assert(x == input[t as int]);
        assert(rest@ == input.subrange(t + 1, n as int));
        let kx = lower_key(x.name_str());
        let mut j: usize = 0;
        while j < t && !lex_lt_exec(&kx, &keys[j])
            invariant
                j <= t,
                keys@.len() == t,
                forall|i: int| 0 <= i < j ==> !lex_lt(kx@, (#[trigger] keys@[i])@),
            decreases t - j,
        {
            j = j + 1;
        }
        proof {
            assert forall|i: int| 0 <= i < t && j <= i implies lex_lt(kx@, key_of(out@[i])) by {
                if j < t {
                    assert(lex_lt(kx@, keys@[j as int]@));
                    if i > j {
                        let a = keys@[j as int]@;
                        let b = keys@[i]@;
                        assert(in_order(key_of(out@[j as int]), key_of(out@[i]), perm[j as int], perm[i]));
                        if lex_lt(a, b) {
                            lemma_lex_transitive(kx@, a, b);
                        }
                    }
                }
            }
            assert forall|i: int| 0 <= i < j implies lex_lt(key_of(out@[i]), kx@) || key_of(out@[i])
                == kx@ by {
                lemma_lex_trichotomy(key_of(out@[i]), kx@);
                assert(!lex_lt(kx@, keys@[i]@));
            }
        }
        let ghost old_out = out@;
        let ghost old_perm = perm;
        let ghost old_keys = keys@;
        out.insert(j, x);
        keys.insert(j, kx);
        proof {
            perm = perm.insert(j as int, t as int);
            assert forall|i: int| 0 <= i < t + 1 implies (#[trigger] keys@[i])@ == key_of(out@[i]) by {
                if i < j {
                    assert(keys@[i] == old_keys[i]);
                } else if i > j {
                    assert(keys@[i] == old_keys[i - 1]);
                }
            }
            assert forall|i: int| 0 <= i < t + 1 implies #[trigger] out@[i] == input[perm[i]] by {
                if i < j {
                    assert(out@[i] == old_out[i]);
                } else if i > j {
                    assert(out@[i] == old_out[i - 1]);
                }
            }
            assert forall|a: int, b: int| 0 <= a < b < t + 1 implies in_order(
                key_of(out@[a]),
                key_of(out@[b]),
                perm[a],
                perm[b],
            ) by {
                if a < j && b < j {
                } else if a < j && b == j {
                    assert(old_perm[a] < t);
                } else if a < j && b > j {
                    assert(out@[b] == old_out[b - 1]);
                } else if a == j {
                    assert(out@[b] == old_out[b - 1]);
                } else {
                    assert(out@[a] == old_out[a - 1]);
                    assert(out@[b] == old_out[b - 1]);
                }
            }
        }
        t = t + 1;
    }
    assert(stable_sort_of(input, out@, perm));
    out
}

} // verus!

verus! {

/// `x` occurs in `perm`.
spec fn hits(perm: Seq<int>, x: int) -> bool {
    exists|i: int| 0 <= i < perm.len() && perm[i] == x
}

/// An injective map of `0..n` into `0..n` is onto.
proof fn lemma_perm_onto(perm: Seq<int>, n: int)
    requires
        perm.len() == n,
        forall|i: int| 0 <= i < n ==> 0 <= #[trigger] perm[i] < n,
        forall|i: int, j: int| 0 <= i < j < n ==> perm[i] != perm[j],
    ensures
        forall|x: int| 0 <= x < n ==> #[trigger] hits(perm, x),
{
    broadcast use vstd::seq_lib::seq_to_set_is_finite;

    assert(perm.no_duplicates()) by {
        assert forall|i: int, j: int|
            0 <= i < perm.len() && 0 <= j < perm.len() && i != j implies perm[i] != perm[j] by {
            if i > j {
                assert(perm[j] != perm[i]);
            }
        }
    }
    perm.unique_seq_to_set();
    vstd::set_lib::lemma_int_range(0, n);
    let range = vstd::set_lib::set_int_range(0, n);
    assert(perm.to_set().subset_of(range)) by {
        assert forall|x: int| perm.to_set().contains(x) implies range.contains(x) by {
            let i = choose|i: int| 0 <= i < perm.len() && perm[i] == x;
        }
    }
    vstd::set_lib::lemma_subset_equality(perm.to_set(), range);
    assert forall|x: int| 0 <= x < n implies #[trigger] hits(perm, x) by {
        assert(range.contains(x));
        assert(perm.to_set().contains(x));
    }
}

/// `in_order` never holds both ways.
proof fn lemma_in_order_asymmetric(ka: Seq<char>, kb: Seq<char>, pa: int, pb: int)
    ensures
        !(in_order(ka, kb, pa, pb) && in_order(kb, ka, pb, pa)),
{
    lemma_lex_trichotomy(ka, kb);
    lemma_lex_irreflexive(ka);
}

/// Sorting by name is deterministic: the input alone fixes the result, so two stable
/// sorts of the same entries are equal.
pub proof fn law_stable_sort_is_unique<T: Named>(input: Seq<T>, a: Seq<T>, b: Seq<T>)
    requires
        is_stable_sort(input, a),
        is_stable_sort(input, b),
    ensures
        a == b,
{
    let p = choose|perm: Seq<int>| stable_sort_of(input, a, perm);
    let q = choose|perm: Seq<int>| stable_sort_of(input, b, perm);
    let n = input.len() as int;
    lemma_perm_onto(p, n);
    lemma_perm_onto(q, n);
    assert forall|i: int| 0 <= i < n implies p[i] == q[i] by {
        lemma_same_prefix(input, a, b, p, q, i);
    }
    assert forall|i: int| 0 <= i < n implies a[i] == b[i] by {
        assert(a[i] == input[p[i]]);
        assert(b[i] == input[q[i]]);
    }
    assert(a =~= b);
}

/// Two stable-sort permutations of the same input agree at every position up to `i`.
proof fn lemma_same_prefix<T: Named>(input: Seq<T>, a: Seq<T>, b: Seq<T>, p: Seq<int>, q: Seq<int>, i: int)
    requires
        stable_sort_of(input, a, p),
        stable_sort_of(input, b, q),
        0 <= i < input.len(),
        forall|x: int| 0 <= x < input.len() ==> #[trigger] hits(p, x),
        forall|x: int| 0 <= x < input.len() ==> #[trigger] hits(q, x),
    ensures
        forall|j: int| 0 <= j <= i ==> p[j] == q[j],
    decreases i,
{
    let n = input.len() as int;
    if i > 0 {
        lemma_same_prefix(input, a, b, p, q, i - 1);
    }
    let x = p[i];
    let y = q[i];
    assert(0 <= x < n && 0 <= y < n);
    assert(hits(q, x));
    assert(hits(p, y));
    let k = choose|k: int| 0 <= k < q.len() && q[k] == x;
    let k2 = choose|k: int| 0 <= k < p.len() && p[k] == y;
    if k < i {
        assert(p[k] == q[k]);
        assert(p[k] == p[i]);
        assert(false);
    }
    if k2 < i {
        assert(p[k2] == q[k2]);
        assert(q[k2] == q[i]);
        assert(false);
    }
    if x != y {
        assert(k != i);
        assert(k2 != i);
        assert(a[i] == input[x]);
        assert(b[i] == input[y]);
        assert(b[k] == input[x]);
        assert(a[k2] == input[y]);
        assert(in_order(key_of(b[i]), key_of(b[k]), q[i], q[k]));
        assert(in_order(key_of(a[i]), key_of(a[k2]), p[i], p[k2]));
        lemma_in_order_asymmetric(key_of(input[x]), key_of(input[y]), x, y);
    }
}

} // verus!
