//! Stable sorting by a key, and the orders the library sorts by: code-point
//! order on text, and pairs ordered by their first then second part.
use vstd::prelude::*;

verus! {

/// `s` is sorted by `key` under the strict order `lt`: no element's key is
/// below the key of the element before it.
pub open spec fn sorted_by<T, K>(s: Seq<T>, key: spec_fn(T) -> K, lt: spec_fn(K, K) -> bool) -> bool {
    forall|i: int| 0 <= i < s.len() - 1 ==> !lt(key(#[trigger] s[i + 1]), key(s[i]))
}

/// The elements of `s` whose key is `k`, in order.
pub open spec fn with_key<T, K>(s: Seq<T>, key: spec_fn(T) -> K, k: K) -> Seq<T> {
    s.filter(key_is(key, k))
}

/// Whether an element's key is `k`.
pub open spec fn key_is<T, K>(key: spec_fn(T) -> K, k: K) -> spec_fn(T) -> bool {
    |x: T| key(x) == k
}

/// `b` holds, for every key, the same elements as `a` in the same order: `b`
/// is a rearrangement of `a` that keeps elements with equal keys in order.
pub open spec fn stable_perm<T, K>(a: Seq<T>, b: Seq<T>, key: spec_fn(T) -> K) -> bool {
    forall|k: K| #[trigger] with_key(b, key, k) == with_key(a, key, k)
}

/// `lt` is a strict order as far as sorting needs: irreflexive and asymmetric.
pub open spec fn strict<K>(lt: spec_fn(K, K) -> bool) -> bool {
    &&& forall|a: K| !#[trigger] lt(a, a)
    &&& forall|a: K, b: K| #[trigger] lt(a, b) ==> !lt(b, a)
}

/// Code-point order on text (the order of `str`).
pub open spec fn chars_lt(a: Seq<char>, b: Seq<char>) -> bool
    decreases a.len(),
{
    if a.len() == 0 {
        b.len() > 0
    } else if b.len() == 0 {
        false
    } else if a[0] != b[0] {
        (a[0] as u32) < (b[0] as u32)
    } else {
        chars_lt(a.drop_first(), b.drop_first())
    }
}

pub proof fn lemma_chars_lt_strict()
    ensures
        strict(|a: Seq<char>, b: Seq<char>| chars_lt(a, b)),
{
    assert forall|a: Seq<char>| !chars_lt(a, a) by {
        lemma_chars_lt_irrefl(a);
    }
    assert forall|a: Seq<char>, b: Seq<char>| chars_lt(a, b) implies !chars_lt(b, a) by {
        lemma_chars_lt_asym(a, b);
    }
}

pub proof fn lemma_chars_lt_irrefl(a: Seq<char>)
    ensures
        !chars_lt(a, a),
    decreases a.len(),
{
    if a.len() > 0 {
        lemma_chars_lt_irrefl(a.drop_first());
    }
}

pub proof fn lemma_chars_lt_asym(a: Seq<char>, b: Seq<char>)
    ensures
        chars_lt(a, b) ==> !chars_lt(b, a),
    decreases a.len(),
{
    if a.len() > 0 && b.len() > 0 && a[0] == b[0] {
        lemma_chars_lt_asym(a.drop_first(), b.drop_first());
    }
}

pub fn chars_less(a: &Vec<char>, b: &Vec<char>) -> (r: bool)
    ensures
        r == chars_lt(a@, b@),
{
    let mut i: usize = 0;
    assert(a@.skip(0) =~= a@);
    assert(b@.skip(0) =~= b@);
    while i < a.len() && i < b.len() && a[i] == b[i]
        invariant
            i <= a.len(),
            i <= b.len(),
            chars_lt(a@, b@) == chars_lt(a@.skip(i as int), b@.skip(i as int)),
        decreases a.len() - i,
    {
        assert(a@.skip(i as int).drop_first() =~= a@.skip(i + 1));
        assert(b@.skip(i as int).drop_first() =~= b@.skip(i + 1));
        i = i + 1;
    }
    if i == a.len() {
        i < b.len()
    } else if i == b.len() {
        false
    } else {
        assert(a@.skip(i as int)[0] == a@[i as int]);
        assert(b@.skip(i as int)[0] == b@[i as int]);
        (a[i] as u32) < (b[i] as u32)
    }
}

/// Pairs ordered by their first part, then their second.
pub open spec fn pair_lt<A, B>(lt1: spec_fn(A, A) -> bool, lt2: spec_fn(B, B) -> bool, x: (A, B), y: (A, B)) -> bool {
    lt1(x.0, y.0) || (x.0 == y.0 && lt2(x.1, y.1))
}

pub proof fn lemma_pair_lt_strict<A, B>(lt1: spec_fn(A, A) -> bool, lt2: spec_fn(B, B) -> bool)
    requires
        strict(lt1),
        strict(lt2),
    ensures
        strict(|x: (A, B), y: (A, B)| pair_lt(lt1, lt2, x, y)),
{
    assert forall|x: (A, B), y: (A, B)| pair_lt(lt1, lt2, x, y) implies !pair_lt(lt1, lt2, y, x) by {
        if lt1(x.0, y.0) {
            assert(!lt1(y.0, x.0));
        }
    }
}

pub proof fn lemma_filter_push<T>(s: Seq<T>, x: T, p: spec_fn(T) -> bool)
    ensures
        s.push(x).filter(p) == (if p(x) { s.filter(p).push(x) } else { s.filter(p) }),
{
    reveal(Seq::filter);
    assert(s.push(x).drop_last() =~= s);
}

proof fn lemma_filter_none<T>(s: Seq<T>, p: spec_fn(T) -> bool)
    requires
        forall|i: int| 0 <= i < s.len() ==> !p(#[trigger] s[i]),
    ensures
        s.filter(p) == Seq::<T>::empty(),
    decreases s.len(),
{
    reveal(Seq::filter);
    if s.len() > 0 {
        lemma_filter_none(s.drop_last(), p);
    }
}

/// Sorts `v` stably by `key` under `lt`, given `less` deciding `lt` on keys.
pub fn sort_by_key<T, K, F: Fn(&T, &T) -> bool>(
    v: Vec<T>,
    less: F,
    Ghost(key): Ghost<spec_fn(T) -> K>,
    Ghost(lt): Ghost<spec_fn(K, K) -> bool>,
) -> (r: Vec<T>)
    requires
        strict(lt),
        forall|a: &T, b: &T| less.requires((a, b)),
        forall|a: &T, b: &T, res: bool| less.ensures((a, b), res) ==> res == lt(key(*a), key(*b)),
    ensures
        sorted_by(r@, key, lt),
        stable_perm(v@, r@, key),
        r.len() == v.len(),
{
    let ghost orig = v@;
    let mut input = v;
    let mut res: Vec<T> = Vec::new();
    let mut i: usize = 0;
    let n = input.len();
    assert(orig.skip(0) =~= orig);
    assert forall|k: K| #[trigger] with_key(res@, key, k) == with_key(orig.take(0), key, k) by {
        assert(res@ =~= orig.take(0));
    }
    while i < n
        invariant
            n == orig.len(),
            i <= n,
            input@ == orig.skip(i as int),
            res.len() == i,
            strict(lt),
            forall|a: &T, b: &T| less.requires((a, b)),
            forall|a: &T, b: &T, res: bool| less.ensures((a, b), res) ==> res == lt(key(*a), key(*b)),
            sorted_by(res@, key, lt),
            forall|k: K| #[trigger] with_key(res@, key, k) == with_key(orig.take(i as int), key, k),
        decreases n - i,
    {
        let x = input.remove(0);
        assert(x == orig[i as int]);
        assert(input@ =~= orig.skip(i + 1));
        let mut j: usize = res.len();
        let mut done = false;
        while j > 0 && !done
            invariant
                j <= res.len(),
                done ==> j > 0 && !lt(key(x), key(res@[j - 1])),
                forall|a: &T, b: &T| less.requires((a, b)),
                forall|a: &T, b: &T, res: bool| less.ensures((a, b), res) ==> res == lt(key(*a), key(*b)),
                forall|t: int| j <= t < res.len() ==> lt(key(x), key(#[trigger] res@[t])),
            decreases j + (if done { 0int } else { 1int }),
        {
            if less(&x, &res[j - 1]) {
                j = j - 1;
            } else {
                done = true;
            }
        }
        let ghost old_res = res@;
        res.insert(j, x);
        assert(res@ =~= old_res.take(j as int) + seq![x] + old_res.skip(j as int));
        assert(old_res =~= old_res.take(j as int) + old_res.skip(j as int));
        assert(orig.take(i + 1) =~= orig.take(i as int).push(x));
        assert forall|t: int| 0 <= t < res@.len() - 1 implies !lt(key(#[trigger] res@[t + 1]), key(res@[t])) by {
            if t + 1 < j {
                assert(res@[t + 1] == old_res[t + 1] && res@[t] == old_res[t]);
                assert(!lt(key(old_res[t + 1]), key(old_res[t])));
            } else if t + 1 == j {
                assert(res@[t + 1] == x && res@[t] == old_res[t]);
                assert(!lt(key(x), key(old_res[t])));
            } else if t == j {
                assert(res@[t] == x && res@[t + 1] == old_res[t]);
                assert(lt(key(x), key(old_res[t])));
                assert(!lt(key(old_res[t]), key(x)));
            } else {
                assert(res@[t] == old_res[t - 1] && res@[t + 1] == old_res[t]);
                assert(!lt(key(old_res[(t - 1) + 1]), key(old_res[t - 1])));
            }
        }
        assert forall|k: K| #[trigger] with_key(res@, key, k) == with_key(orig.take(i + 1), key, k) by {
            let p = key_is(key, k);
            let a = old_res.take(j as int);
            let b = old_res.skip(j as int);
            Seq::filter_distributes_over_add(a + seq![x], b, p);
            Seq::filter_distributes_over_add(a, seq![x], p);
            Seq::filter_distributes_over_add(a, b, p);
            lemma_filter_push(orig.take(i as int), x, p);
            lemma_filter_push(Seq::<T>::empty(), x, p);
            assert(Seq::<T>::empty().push(x) =~= seq![x]);
            reveal(Seq::filter);
            assert(Seq::<T>::empty().filter(p) =~= Seq::<T>::empty());
            assert(with_key(old_res, key, k) == with_key(orig.take(i as int), key, k));
            if key(x) == k {
                assert forall|t: int| 0 <= t < b.len() implies !p(#[trigger] b[t]) by {
                    assert(b[t] == old_res[j + t]);
                    assert(lt(key(x), key(old_res[j + t])));
                }
                lemma_filter_none(b, p);
                assert(a.filter(p) + seq![x] + Seq::<T>::empty() =~= (a.filter(p) + b.filter(p)).push(x));
            } else {
                assert(a.filter(p) + Seq::<T>::empty() + b.filter(p) =~= a.filter(p) + b.filter(p));
            }
        }
        i = i + 1;
    }
    assert(orig.take(n as int) =~= orig);
    res
}


/// `s` with each run of consecutive elements of equal key reduced to its first
/// element (`Vec::dedup_by` with key equality).
pub open spec fn dedup_by_key<T, K>(s: Seq<T>, key: spec_fn(T) -> K) -> Seq<T>
    decreases s.len(),
{
    if s.len() == 0 {
        s
    } else {
        let d = dedup_by_key(s.drop_last(), key);
        if d.len() > 0 && key(d.last()) == key(s.last()) {
            d
        } else {
            d.push(s.last())
        }
    }
}

/// Removes consecutive elements whose key equals that of the element kept
/// before them, given `same` deciding key equality.
pub fn dedup_by<T, K, F: Fn(&T, &T) -> bool>(
    v: Vec<T>,
    same: F,
    Ghost(key): Ghost<spec_fn(T) -> K>,
) -> (r: Vec<T>)
    requires
        forall|a: &T, b: &T| same.requires((a, b)),
        forall|a: &T, b: &T, res: bool| same.ensures((a, b), res) ==> res == (key(*a) == key(*b)),
    ensures
        r@ == dedup_by_key(v@, key),
{
    let ghost orig = v@;
    let mut input = v;
    let mut res: Vec<T> = Vec::new();
    let n = input.len();
    let mut i: usize = 0;
    assert(orig.skip(0) =~= orig);
    assert(orig.take(0) =~= Seq::<T>::empty());
    while i < n
        invariant
            n == orig.len(),
            i <= n,
            input@ == orig.skip(i as int),
            res@ == dedup_by_key(orig.take(i as int), key),
            forall|a: &T, b: &T| same.requires((a, b)),
            forall|a: &T, b: &T, res: bool| same.ensures((a, b), res) ==> res == (key(*a) == key(*b)),
        decreases n - i,
    {
        let x = input.remove(0);
        assert(x == orig[i as int]);
        assert(input@ =~= orig.skip(i + 1));
        assert(orig.take(i + 1).drop_last() =~= orig.take(i as int));
        let keep = if res.len() == 0 {
            true
        } else {
            let k = res.len() - 1;
            !same(&x, &res[k])
        };
        if keep {
            res.push(x);
        }
        i = i + 1;
    }
    assert(orig.take(n as int) =~= orig);
    res
}


/// `with_key` commutes with mapping each element through `f`.
pub proof fn lemma_with_key_map<T, V, K>(s: Seq<T>, f: spec_fn(T) -> V, key: spec_fn(V) -> K, k: K)
    ensures
        with_key(s.map_values(f), key, k) == with_key(s, |x: T| key(f(x)), k).map_values(f),
    decreases s.len(),
{
    reveal(Seq::filter);
    if s.len() > 0 {
        lemma_with_key_map(s.drop_last(), f, key, k);
        assert(s.map_values(f).drop_last() =~= s.drop_last().map_values(f));
        let g = with_key(s.drop_last(), |x: T| key(f(x)), k);
        assert(g.push(s.last()).map_values(f) =~= g.map_values(f).push(f(s.last())));
    } else {
        assert(s.map_values(f) =~= Seq::<V>::empty());
    }
}

/// Sortedness and stable rearrangement carry over to mapped sequences.
pub proof fn lemma_sorted_map<T, V, K>(
    a: Seq<T>,
    b: Seq<T>,
    f: spec_fn(T) -> V,
    key: spec_fn(V) -> K,
    lt: spec_fn(K, K) -> bool,
)
    requires
        sorted_by(b, |x: T| key(f(x)), lt),
        stable_perm(a, b, |x: T| key(f(x))),
    ensures
        sorted_by(b.map_values(f), key, lt),
        stable_perm(a.map_values(f), b.map_values(f), key),
{
    assert forall|i: int| 0 <= i < b.map_values(f).len() - 1 implies !lt(key(#[trigger] b.map_values(f)[i + 1]), key(b.map_values(f)[i])) by {
        assert(!lt((|x: T| key(f(x)))(b[i + 1]), (|x: T| key(f(x)))(b[i])));
    }
    assert forall|k: K| #[trigger] with_key(b.map_values(f), key, k) == with_key(a.map_values(f), key, k) by {
        lemma_with_key_map(a, f, key, k);
        lemma_with_key_map(b, f, key, k);
        assert(with_key(b, |x: T| key(f(x)), k) == with_key(a, |x: T| key(f(x)), k));
    }
}

/// `dedup_by_key` commutes with mapping each element through `f`.
pub proof fn lemma_dedup_map<T, V, K>(s: Seq<T>, f: spec_fn(T) -> V, key: spec_fn(V) -> K)
    ensures
        dedup_by_key(s.map_values(f), key) == dedup_by_key(s, |x: T| key(f(x))).map_values(f),
    decreases s.len(),
{
    if s.len() > 0 {
        lemma_dedup_map(s.drop_last(), f, key);
        assert(s.map_values(f).drop_last() =~= s.drop_last().map_values(f));
        let d = dedup_by_key(s.drop_last(), |x: T| key(f(x)));
        assert(d.push(s.last()).map_values(f) =~= d.map_values(f).push(f(s.last())));
        if d.len() > 0 {
            assert(d.map_values(f).last() == f(d.last()));
        }
    } else {
        assert(s.map_values(f) =~= Seq::<V>::empty());
    }
}

/// After `dedup_by_key`, no two neighbours share a key.
pub proof fn law_dedup_no_adjacent_repeats<T, K>(s: Seq<T>, key: spec_fn(T) -> K)
    ensures
        forall|i: int| 0 <= i < dedup_by_key(s, key).len() - 1 ==> key(#[trigger] dedup_by_key(s, key)[i]) != key(
            dedup_by_key(s, key)[i + 1],
        ),
    decreases s.len(),
{
    if s.len() > 0 {
        law_dedup_no_adjacent_repeats(s.drop_last(), key);
        let d = dedup_by_key(s.drop_last(), key);
        let r = dedup_by_key(s, key);
        assert forall|i: int| 0 <= i < r.len() - 1 implies key(#[trigger] r[i]) != key(r[i + 1]) by {
            if i + 1 < d.len() {
                assert(r[i] == d[i] && r[i + 1] == d[i + 1]);
            } else {
                assert(r == d.push(s.last()));
                assert(r[i] == d.last());
            }
        }
    }
}

/// `lt` is transitive.
pub open spec fn transitive<K>(lt: spec_fn(K, K) -> bool) -> bool {
    forall|a: K, b: K, c: K| #![trigger lt(a, b), lt(b, c)] lt(a, b) && lt(b, c) ==> lt(a, c)
}

/// Any two keys are ordered one way or the other, or equal.
pub open spec fn total<K>(lt: spec_fn(K, K) -> bool) -> bool {
    forall|a: K, b: K| #[trigger] lt(a, b) || a == b || lt(b, a)
}

/// `lt` is a strict total order.
pub open spec fn total_order<K>(lt: spec_fn(K, K) -> bool) -> bool {
    strict(lt) && transitive(lt) && total(lt)
}

pub proof fn lemma_chars_lt_trans(a: Seq<char>, b: Seq<char>, c: Seq<char>)
    ensures
        chars_lt(a, b) && chars_lt(b, c) ==> chars_lt(a, c),
    decreases a.len(),
{
    if a.len() > 0 && b.len() > 0 && c.len() > 0 && a[0] == b[0] && b[0] == c[0] {
        lemma_chars_lt_trans(a.drop_first(), b.drop_first(), c.drop_first());
    }
}

pub proof fn lemma_chars_lt_total(a: Seq<char>, b: Seq<char>)
    ensures
        chars_lt(a, b) || a == b || chars_lt(b, a),
    decreases a.len(),
{
    if a.len() > 0 && b.len() > 0 && a[0] == b[0] {
        lemma_chars_lt_total(a.drop_first(), b.drop_first());
        if a.drop_first() == b.drop_first() {
            assert(a =~= seq![a[0]] + a.drop_first());
            assert(b =~= seq![b[0]] + b.drop_first());
        }
    } else if a.len() == 0 && b.len() == 0 {
        assert(a =~= b);
    } else if a.len() > 0 && b.len() > 0 {
        vstd::utf8::char_u32_cast(a[0], a[0] as u32);
        vstd::utf8::char_u32_cast(b[0], b[0] as u32);
        assert((a[0] as u32) != (b[0] as u32));
    }
}

/// Pairs ordered part by part are totally ordered when both parts are.
pub proof fn lemma_pair_lt_total_order<A, B>(lt1: spec_fn(A, A) -> bool, lt2: spec_fn(B, B) -> bool)
    requires
        total_order(lt1),
        total_order(lt2),
    ensures
        total_order(|x: (A, B), y: (A, B)| pair_lt(lt1, lt2, x, y)),
{
    lemma_pair_lt_strict(lt1, lt2);
    let p = |x: (A, B), y: (A, B)| pair_lt(lt1, lt2, x, y);
    assert forall|x: (A, B), y: (A, B), z: (A, B)| #![trigger p(x, y), p(y, z)] p(x, y) && p(y, z) implies p(x, z) by {
        if lt1(x.0, y.0) && lt1(y.0, z.0) {
            assert(lt1(x.0, z.0));
        }
    }
    assert forall|x: (A, B), y: (A, B)| #[trigger] p(x, y) || x == y || p(y, x) by {
        assert(lt1(x.0, y.0) || x.0 == y.0 || lt1(y.0, x.0));
        assert(lt2(x.1, y.1) || x.1 == y.1 || lt2(y.1, x.1));
    }
}

/// In a sequence sorted under a strict total order, no key is below the key
/// of any element before it.
pub proof fn lemma_sorted_all_pairs<T, K>(s: Seq<T>, key: spec_fn(T) -> K, lt: spec_fn(K, K) -> bool, i: int, j: int)
    requires
        sorted_by(s, key, lt),
        total_order(lt),
        0 <= i <= j < s.len(),
    ensures
        lt(key(s[i]), key(s[j])) || key(s[i]) == key(s[j]),
        !lt(key(s[j]), key(s[i])),
    decreases j - i,
{
    if i < j {
        lemma_sorted_all_pairs(s, key, lt, i, j - 1);
        assert(!lt(key(s[(j - 1) + 1]), key(s[j - 1])));
        assert(lt(key(s[j - 1]), key(s[j])) || key(s[j - 1]) == key(s[j]));
        if lt(key(s[i]), key(s[j - 1])) && lt(key(s[j - 1]), key(s[j])) {
            assert(lt(key(s[i]), key(s[j])));
        }
    }
}

/// The last element kept by `dedup_by_key` is one of the elements.
proof fn lemma_dedup_last<T, K>(s: Seq<T>, key: spec_fn(T) -> K) -> (j: int)
    requires
        dedup_by_key(s, key).len() > 0,
    ensures
        0 <= j < s.len(),
        dedup_by_key(s, key).last() == s[j],
    decreases s.len(),
{
    let d = dedup_by_key(s.drop_last(), key);
    if d.len() > 0 && key(d.last()) == key(s.last()) {
        let j = lemma_dedup_last(s.drop_last(), key);
        j
    } else {
        (s.len() - 1) as int
    }
}

/// Removing neighbours of equal key keeps a sorted sequence sorted.
pub proof fn lemma_dedup_sorted<T, K, D>(s: Seq<T>, key: spec_fn(T) -> K, lt: spec_fn(K, K) -> bool, dkey: spec_fn(T) -> D)
    requires
        sorted_by(s, key, lt),
        total_order(lt),
    ensures
        sorted_by(dedup_by_key(s, dkey), key, lt),
    decreases s.len(),
{
    if s.len() > 0 {
        let q = s.drop_last();
        assert forall|t: int| 0 <= t < q.len() - 1 implies !lt(key(#[trigger] q[t + 1]), key(q[t])) by {
            assert(q[t + 1] == s[t + 1] && q[t] == s[t]);
        }
        lemma_dedup_sorted(q, key, lt, dkey);
        let d = dedup_by_key(q, dkey);
        let r = dedup_by_key(s, dkey);
        if !(d.len() > 0 && dkey(d.last()) == dkey(s.last())) {
            assert(r == d.push(s.last()));
            if d.len() > 0 {
                let j = lemma_dedup_last(q, dkey);
                lemma_sorted_all_pairs(s, key, lt, j, s.len() - 1);
                assert(q[j] == s[j]);
            }
            assert forall|t: int| 0 <= t < r.len() - 1 implies !lt(key(#[trigger] r[t + 1]), key(r[t])) by {
                if t + 1 < d.len() {
                    assert(r[t + 1] == d[t + 1] && r[t] == d[t]);
                } else {
                    assert(r[t] == d.last());
                }
            }
        }
    }
}

/// Every element `dedup_by_key` keeps is an element of the input.
pub proof fn lemma_dedup_elem<T, K>(s: Seq<T>, key: spec_fn(T) -> K, i: int) -> (j: int)
    requires
        0 <= i < dedup_by_key(s, key).len(),
    ensures
        0 <= j < s.len(),
        dedup_by_key(s, key)[i] == s[j],
    decreases s.len(),
{
    let d = dedup_by_key(s.drop_last(), key);
    if i < d.len() {
        let j = lemma_dedup_elem(s.drop_last(), key, i);
        j
    } else {
        (s.len() - 1) as int
    }
}

/// A relation that holds between every element and each later one still
/// holds after `dedup_by_key`.
pub proof fn lemma_dedup_pairwise<T, K>(s: Seq<T>, key: spec_fn(T) -> K, rel: spec_fn(T, T) -> bool)
    requires
        forall|i: int, j: int| 0 <= i < j < s.len() ==> #[trigger] rel(s[i], s[j]),
    ensures
        forall|i: int, j: int|
            0 <= i < j < dedup_by_key(s, key).len() ==> #[trigger] rel(dedup_by_key(s, key)[i], dedup_by_key(s, key)[j]),
    decreases s.len(),
{
    if s.len() > 0 {
        let q = s.drop_last();
        assert forall|i: int, j: int| 0 <= i < j < q.len() implies #[trigger] rel(q[i], q[j]) by {
            assert(q[i] == s[i] && q[j] == s[j]);
        }
        lemma_dedup_pairwise(q, key, rel);
        let d = dedup_by_key(q, key);
        let r = dedup_by_key(s, key);
        assert forall|i: int, j: int| 0 <= i < j < r.len() implies #[trigger] rel(r[i], r[j]) by {
            if j < d.len() {
                assert(r[i] == d[i] && r[j] == d[j]);
            } else {
                assert(r[i] == d[i]);
                assert(r[j] == s.last());
                let k = lemma_dedup_elem(q, key, i);
                assert(q[k] == s[k]);
                assert(rel(s[k], s[s.len() - 1]));
            }
        }
    }
}

/// Every element a filter keeps is an element of the input.
pub proof fn lemma_filter_elem<T>(s: Seq<T>, p: spec_fn(T) -> bool, t: int) -> (u: int)
    requires
        0 <= t < s.filter(p).len(),
    ensures
        0 <= u < s.len(),
        s.filter(p)[t] == s[u],
    decreases s.len(),
{
    reveal(Seq::filter);
    let q = s.drop_last();
    let f = q.filter(p);
    if t < f.len() {
        let u = lemma_filter_elem(q, p, t);
        u
    } else {
        (s.len() - 1) as int
    }
}

/// In a sequence sorted under a strict total order whose neighbours all have
/// different keys, no two elements share a key.
pub proof fn lemma_sorted_distinct_keys<T, K>(s: Seq<T>, key: spec_fn(T) -> K, lt: spec_fn(K, K) -> bool)
    requires
        sorted_by(s, key, lt),
        total_order(lt),
        forall|i: int| 0 <= i < s.len() - 1 ==> key(#[trigger] s[i]) != key(s[i + 1]),
    ensures
        forall|i: int, j: int| 0 <= i < j < s.len() ==> key(#[trigger] s[i]) != key(#[trigger] s[j]),
{
    assert forall|i: int, j: int| 0 <= i < j < s.len() implies key(#[trigger] s[i]) != key(#[trigger] s[j]) by {
        lemma_sorted_strictly(s, key, lt, i, j);
    }
}

proof fn lemma_sorted_strictly<T, K>(s: Seq<T>, key: spec_fn(T) -> K, lt: spec_fn(K, K) -> bool, i: int, j: int)
    requires
        sorted_by(s, key, lt),
        total_order(lt),
        forall|k: int| 0 <= k < s.len() - 1 ==> key(#[trigger] s[k]) != key(s[k + 1]),
        0 <= i < j < s.len(),
    ensures
        lt(key(s[i]), key(s[j])),
    decreases j - i,
{
    assert(!lt(key(s[(j - 1) + 1]), key(s[j - 1])));
    assert(key(s[j - 1]) != key(s[j - 1 + 1]));
    assert(lt(key(s[j - 1]), key(s[j])));
    if i < j - 1 {
        lemma_sorted_strictly(s, key, lt, i, j - 1);
    }
}

/// Every key of the input is still the key of some element after
/// `dedup_by_key`.
pub proof fn lemma_dedup_keeps_keys<T, K>(s: Seq<T>, key: spec_fn(T) -> K, m: int) -> (i: int)
    requires
        0 <= m < s.len(),
    ensures
        0 <= i < dedup_by_key(s, key).len(),
        key(dedup_by_key(s, key)[i]) == key(s[m]),
    decreases s.len(),
{
    let q = s.drop_last();
    let d = dedup_by_key(q, key);
    if m < s.len() - 1 {
        let i = lemma_dedup_keeps_keys(q, key, m);
        assert(q[m] == s[m]);
        i
    } else if d.len() > 0 && key(d.last()) == key(s.last()) {
        (d.len() - 1) as int
    } else {
        d.len() as int
    }
}

} // verus!
