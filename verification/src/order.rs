//! The order of texts (by code point, as `str` and SQLite's binary
//! collation compare them) and a stable sort by keys of up to three texts
//! and a number.
use vstd::prelude::*;

verus! {

/// `a` comes before `b`, comparing code points from the start, a proper
/// prefix first.
pub open spec fn chars_lt(a: Seq<char>, b: Seq<char>) -> bool
    decreases a.len(),
{
    if a.len() == 0 {
        b.len() > 0
    } else if b.len() == 0 {
        false
    } else if a[0] != b[0] {
        a[0] < b[0]
    } else {
        chars_lt(a.drop_first(), b.drop_first())
    }
}

pub proof fn lemma_lt_irreflexive(a: Seq<char>)
    ensures
        !chars_lt(a, a),
    decreases a.len(),
{
    if a.len() > 0 {
        lemma_lt_irreflexive(a.drop_first());
    }
}

pub proof fn lemma_lt_transitive(a: Seq<char>, b: Seq<char>, c: Seq<char>)
    requires
        chars_lt(a, b),
        chars_lt(b, c),
    ensures
        chars_lt(a, c),
    decreases a.len(),
{
    if a.len() > 0 && b.len() > 0 && c.len() > 0 && a[0] == b[0] && b[0] == c[0] {
        lemma_lt_transitive(a.drop_first(), b.drop_first(), c.drop_first());
    }
}

pub proof fn lemma_lt_total(a: Seq<char>, b: Seq<char>)
    ensures
        a == b || chars_lt(a, b) || chars_lt(b, a),
    decreases a.len(),
{
    if a.len() > 0 && b.len() > 0 && a[0] == b[0] {
        lemma_lt_total(a.drop_first(), b.drop_first());
        if a.drop_first() == b.drop_first() {
            assert(a =~= seq![a[0]] + a.drop_first());
            assert(b =~= seq![b[0]] + b.drop_first());
        }
    } else if a.len() == 0 && b.len() == 0 {
        assert(a =~= b);
    }
}

pub proof fn lemma_lt_asymmetric(a: Seq<char>, b: Seq<char>)
    requires
        chars_lt(a, b),
    ensures
        !chars_lt(b, a),
{
    if chars_lt(b, a) {
        lemma_lt_transitive(a, b, a);
        lemma_lt_irreflexive(a);
    }
}

pub fn chars_less(a: &[char], b: &[char]) -> (r: bool)
    ensures
        r == chars_lt(a@, b@),
{
    let mut i: usize = 0;
    assert(a@.skip(0) =~= a@);
    assert(b@.skip(0) =~= b@);
    while i < a.len() && i < b.len()
        invariant
            i <= a.len(),
            i <= b.len(),
            chars_lt(a@, b@) == chars_lt(a@.skip(i as int), b@.skip(i as int)),
        decreases a.len() - i,
    {
        if a[i] != b[i] {
            proof {
                assert(a@.skip(i as int)[0] == a@[i as int]);
                assert(b@.skip(i as int)[0] == b@[i as int]);
            }
            return a[i] < b[i];
        }
        proof {
            assert(a@.skip(i as int).drop_first() =~= a@.skip(i + 1));
            assert(b@.skip(i as int).drop_first() =~= b@.skip(i + 1));
        }
        i += 1;
    }
    i < b.len()
}

/// A sort key: three texts, then a number.
#[derive(Debug)]
pub struct SortKey {
    pub a: Vec<char>,
    pub b: Vec<char>,
    pub c: Vec<char>,
    pub n: i64,
}

/// Three texts and a number, compared in that order.
pub type KeyView = (Seq<char>, Seq<char>, Seq<char>, int);

impl SortKey {
    pub open spec fn view(&self) -> KeyView {
        (self.a@, self.b@, self.c@, self.n as int)
    }
}

pub open spec fn key_views(keys: Seq<SortKey>) -> Seq<KeyView> {
    keys.map_values(|k: SortKey| k.view())
}

pub open spec fn key_eq(x: KeyView, y: KeyView) -> bool {
    x == y
}

pub open spec fn key_lt(x: KeyView, y: KeyView) -> bool {
    ||| chars_lt(x.0, y.0)
    ||| x.0 == y.0 && chars_lt(x.1, y.1)
    ||| x.0 == y.0 && x.1 == y.1 && chars_lt(x.2, y.2)
    ||| x.0 == y.0 && x.1 == y.1 && x.2 == y.2 && x.3 < y.3
}

/// Position `i` sorts before position `j`: a smaller key, or an equal key
/// earlier in the input (the sort is stable).
pub open spec fn sorts_before(keys: Seq<KeyView>, i: int, j: int) -> bool {
    key_lt(keys[i], keys[j]) || (key_eq(keys[i], keys[j]) && i < j)
}

proof fn lemma_key_facts(x: KeyView, y: KeyView, z: KeyView)
    ensures
        !key_lt(x, x),
        key_lt(x, y) ==> !key_lt(y, x),
        key_lt(x, y) ==> !key_eq(x, y),
        key_lt(x, y) && key_lt(y, z) ==> key_lt(x, z),
        key_lt(x, y) && key_eq(y, z) ==> key_lt(x, z),
        key_eq(x, y) && key_lt(y, z) ==> key_lt(x, z),
        key_eq(x, y) || key_lt(x, y) || key_lt(y, x),
{
    lemma_lt_irreflexive(x.0);
    lemma_lt_irreflexive(x.1);
    lemma_lt_irreflexive(x.2);
    lemma_lt_total(x.0, y.0);
    lemma_lt_total(x.1, y.1);
    lemma_lt_total(x.2, y.2);
    if chars_lt(x.0, y.0) {
        lemma_lt_asymmetric(x.0, y.0);
    }
    if chars_lt(x.1, y.1) {
        lemma_lt_asymmetric(x.1, y.1);
    }
    if chars_lt(x.2, y.2) {
        lemma_lt_asymmetric(x.2, y.2);
    }
    if chars_lt(x.0, y.0) && chars_lt(y.0, z.0) {
        lemma_lt_transitive(x.0, y.0, z.0);
    }
    if chars_lt(x.1, y.1) && chars_lt(y.1, z.1) {
        lemma_lt_transitive(x.1, y.1, z.1);
    }
    if chars_lt(x.2, y.2) && chars_lt(y.2, z.2) {
        lemma_lt_transitive(x.2, y.2, z.2);
    }
    if x != y && x.0 == y.0 && x.1 == y.1 && x.2 == y.2 {
        assert(x.3 != y.3);
    }
}

proof fn lemma_before_order(keys: Seq<KeyView>)
    ensures
        forall|i: int| 0 <= i < keys.len() ==> !#[trigger] sorts_before(keys, i, i),
        forall|i: int, j: int|
            0 <= i < keys.len() && 0 <= j < keys.len() && i != j ==> (#[trigger] sorts_before(
                keys,
                i,
                j,
            ) <==> !sorts_before(keys, j, i)),
        forall|i: int, j: int, k: int|
            0 <= i < keys.len() && 0 <= j < keys.len() && 0 <= k < keys.len() && #[trigger] sorts_before(
                keys,
                i,
                j,
            ) && #[trigger] sorts_before(keys, j, k) ==> sorts_before(keys, i, k),
{
    assert forall|i: int| 0 <= i < keys.len() implies !#[trigger] sorts_before(keys, i, i) by {
        lemma_key_facts(keys[i], keys[i], keys[i]);
    }
    assert forall|i: int, j: int|
        0 <= i < keys.len() && 0 <= j < keys.len() && i != j implies (#[trigger] sorts_before(
            keys,
            i,
            j,
        ) <==> !sorts_before(keys, j, i)) by {
        lemma_key_facts(keys[i], keys[j], keys[j]);
        lemma_key_facts(keys[j], keys[i], keys[i]);
    }
    assert forall|i: int, j: int, k: int|
        0 <= i < keys.len() && 0 <= j < keys.len() && 0 <= k < keys.len() && #[trigger] sorts_before(
            keys,
            i,
            j,
        ) && #[trigger] sorts_before(keys, j, k) implies sorts_before(keys, i, k) by {
        lemma_key_facts(keys[i], keys[j], keys[k]);
    }
}

fn key_less(x: &SortKey, y: &SortKey) -> (r: bool)
    ensures
        r == key_lt(x.view(), y.view()),
{
    proof {
        lemma_key_facts(x.view(), y.view(), y.view());
    }
    if chars_less(x.a.as_slice(), y.a.as_slice()) {
        return true;
    }
    if chars_less(y.a.as_slice(), x.a.as_slice()) {
        return false;
    }
    proof {
        lemma_lt_total(x.a@, y.a@);
    }
    if chars_less(x.b.as_slice(), y.b.as_slice()) {
        return true;
    }
    if chars_less(y.b.as_slice(), x.b.as_slice()) {
        return false;
    }
    proof {
        lemma_lt_total(x.b@, y.b@);
    }
    if chars_less(x.c.as_slice(), y.c.as_slice()) {
        return true;
    }
    if chars_less(y.c.as_slice(), x.c.as_slice()) {
        return false;
    }
    proof {
        lemma_lt_total(x.c@, y.c@);
    }
    x.n < y.n
}

/// The positions of `keys` in sorted order: each position once, each one
/// sorting before the next.
pub open spec fn is_sorted_order(keys: Seq<KeyView>, p: Seq<usize>) -> bool {
    &&& p.len() == keys.len()
    &&& forall|i: int| 0 <= i < p.len() ==> (#[trigger] p[i] as int) < keys.len()
    &&& forall|i: int, j: int| 0 <= i < j < p.len() ==> p[i] != p[j]
    &&& forall|i: int, j: int|
        0 <= i < j < p.len() ==> sorts_before(keys, #[trigger] p[i] as int, #[trigger] p[j] as int)
}

pub proof fn lemma_sorted_order_covers(keys: Seq<KeyView>, p: Seq<usize>, k: int)
    requires
        is_sorted_order(keys, p),
        0 <= k < keys.len(),
    ensures
        exists|i: int| 0 <= i < p.len() && p[i] == k,
{
    if forall|i: int| 0 <= i < p.len() ==> p[i] != k {
        let f = |i: int| p[i] as int;
        let img = vstd::set_lib::set_int_range(0, p.len() as int).map(f);
        let dom = vstd::set_lib::set_int_range(0, keys.len() as int).remove(k);
        lemma_injective_image(p);
        vstd::set_lib::lemma_int_range(0, keys.len() as int);
        assert(img.subset_of(dom)) by {
            assert forall|x: int| img.contains(x) implies dom.contains(x) by {
                let i = choose|i: int| vstd::set_lib::set_int_range(0, p.len() as int).contains(i) && f(i) == x;
                assert(p[i] != k);
            }
        }
        vstd::set_lib::lemma_len_subset(img, dom);
        assert(false);
    }
}

proof fn lemma_injective_image(p: Seq<usize>)
    requires
        forall|i: int, j: int| 0 <= i < j < p.len() ==> p[i] != p[j],
    ensures
        vstd::set_lib::set_int_range(0, p.len() as int).map(|i: int| p[i] as int).len() == p.len(),
        vstd::set_lib::set_int_range(0, p.len() as int).map(|i: int| p[i] as int).finite(),
{
    let f = |i: int| p[i] as int;
    let s = vstd::set_lib::set_int_range(0, p.len() as int);
    vstd::set_lib::lemma_int_range(0, p.len() as int);
    assert(vstd::relations::injective_on(f, s)) by {
        assert forall|a: int, b: int| s.contains(a) && s.contains(b) && #[trigger] f(a) == #[trigger] f(b) implies a == b by {
            if a < b {
                assert(p[a] != p[b]);
            } else if b < a {
                assert(p[b] != p[a]);
            }
        }
    }
    vstd::set_lib::lemma_map_size(s, s.map(f), f);
}

/// A stable sort: the input positions ordered by key, equal keys keeping
/// their input order.
pub fn sort_order(keys: &Vec<SortKey>) -> (p: Vec<usize>)
    ensures
        is_sorted_order(key_views(keys@), p@),
{
    let ghost kv = key_views(keys@);
    let n = keys.len();
    let mut used: Vec<bool> = Vec::new();
    let mut k: usize = 0;
    while k < n
        invariant
            k <= n,
            n == keys.len(),
            kv == key_views(keys@),
            kv.len() == n,
            used.len() == k,
            forall|x: int| 0 <= x < k ==> !used[x],
        decreases n - k,
    {
        used.push(false);
        k += 1;
    }
    let mut p: Vec<usize> = Vec::new();
    proof {
        lemma_before_order(kv);
    }
    while p.len() < n
        invariant
            n == keys.len(),
            kv == key_views(keys@),
            kv.len() == n,
            used.len() == n,
            p.len() <= n,
            forall|i: int| 0 <= i < p.len() ==> (#[trigger] p[i] as int) < n,
            forall|i: int, j: int| 0 <= i < j < p.len() ==> p[i] != p[j],
            forall|i: int, j: int|
                0 <= i < j < p.len() ==> sorts_before(kv, #[trigger] p[i] as int, #[trigger] p[j] as int),
            forall|x: int| 0 <= x < n ==> (#[trigger] used[x] <==> exists|i: int| 0 <= i < p.len() && p[i] == x),
            forall|i: int, x: int|
                0 <= i < p.len() && 0 <= x < n && !#[trigger] used[x] ==> sorts_before(kv, #[trigger] p[i] as int, x),
            forall|i: int| 0 <= i < kv.len() ==> !#[trigger] sorts_before(kv, i, i),
            forall|i: int, j: int|
                0 <= i < kv.len() && 0 <= j < kv.len() && i != j ==> (#[trigger] sorts_before(
                    kv,
                    i,
                    j,
                ) <==> !sorts_before(kv, j, i)),
            forall|i: int, j: int, k: int|
                0 <= i < kv.len() && 0 <= j < kv.len() && 0 <= k < kv.len() && #[trigger] sorts_before(
                    kv,
                    i,
                    j,
                ) && #[trigger] sorts_before(kv, j, k) ==> sorts_before(kv, i, k),
        decreases n - p.len(),
    {
        proof {
            lemma_sorted_order_covers_partial(kv, p@, used@);
        }
        let mut best: usize = n;
        let mut x: usize = 0;
        while x < n
            invariant
                n == keys.len(),
                kv == key_views(keys@),
                kv.len() == n,
            kv == key_views(keys@),
            kv.len() == n,
                used.len() == n,
                x <= n,
                best == n || (best < x && !used[best as int]),
                best == n ==> forall|y: int| 0 <= y < x ==> used[y],
                best < n ==> forall|y: int|
                    0 <= y < x && !used[y] && y != best ==> sorts_before(kv, best as int, y),
                forall|i: int| 0 <= i < kv.len() ==> !#[trigger] sorts_before(kv, i, i),
                forall|i: int, j: int|
                    0 <= i < kv.len() && 0 <= j < kv.len() && i != j ==> (#[trigger] sorts_before(
                        kv,
                        i,
                        j,
                    ) <==> !sorts_before(kv, j, i)),
                forall|i: int, j: int, k: int|
                    0 <= i < kv.len() && 0 <= j < kv.len() && 0 <= k < kv.len()
                        && #[trigger] sorts_before(kv, i, j) && #[trigger] sorts_before(kv, j, k)
                        ==> sorts_before(kv, i, k),
            decreases n - x,
        {
            if !used[x] {
                if best == n {
                    best = x;
                } else {
                    let lt = key_less(&keys[x], &keys[best]);
                    let eq_lt = !key_less(&keys[best], &keys[x]);
                    if lt {
                        proof {
                            assert(sorts_before(kv, x as int, best as int));
                        }
                        best = x;
                    } else {
                        proof {
                            lemma_key_facts(kv[x as int], kv[best as int], kv[best as int]);
                            lemma_key_facts(kv[best as int], kv[x as int], kv[x as int]);
                            assert(sorts_before(kv, best as int, x as int));
                        }
                    }
                }
            }
            x += 1;
        }
        assert(best < n);
        proof {
            assert forall|y: int| 0 <= y < n && !used[y] && y != best implies sorts_before(
                kv,
                best as int,
                y,
            ) by {}
        }
        let ghost old_p = p@;
        let ghost old_used = used@;
        p.push(best);
        used.set(best, true);
        proof {
            assert forall|x: int| 0 <= x < n implies (#[trigger] used[x] <==> exists|i: int|
                0 <= i < p.len() && p[i] == x) by {
                if x == best {
                    assert(p[p.len() - 1] == x);
                } else {
                    if old_used[x] {
                        let i = choose|i: int| 0 <= i < old_p.len() && old_p[i] == x;
                        assert(p[i] == x);
                    }
                    if exists|i: int| 0 <= i < p.len() && p[i] == x {
                        let i = choose|i: int| 0 <= i < p.len() && p[i] == x;
                        assert(i < old_p.len());
                        assert(old_p[i] == x);
                    }
                }
            }
            assert forall|i: int, j: int| 0 <= i < j < p.len() implies p[i] != p[j] by {
                if j == p.len() - 1 {
                    assert(old_used[old_p[i] as int]);
                }
            }
        }
    }
    p
}

proof fn lemma_sorted_order_covers_partial(keys: Seq<KeyView>, p: Seq<usize>, used: Seq<bool>)
    requires
        used.len() == keys.len(),
        p.len() < keys.len(),
        forall|i: int| 0 <= i < p.len() ==> (#[trigger] p[i] as int) < keys.len(),
        forall|i: int, j: int| 0 <= i < j < p.len() ==> p[i] != p[j],
        forall|x: int| 0 <= x < keys.len() ==> (#[trigger] used[x] <==> exists|i: int| 0 <= i < p.len() && p[i] == x),
    ensures
        exists|x: int| 0 <= x < keys.len() && !used[x],
{
    if forall|x: int| 0 <= x < keys.len() ==> used[x] {
        let f = |i: int| p[i] as int;
        let img = vstd::set_lib::set_int_range(0, p.len() as int).map(f);
        let dom = vstd::set_lib::set_int_range(0, keys.len() as int);
        lemma_injective_image(p);
        vstd::set_lib::lemma_int_range(0, keys.len() as int);
        assert(dom.subset_of(img)) by {
            assert forall|x: int| dom.contains(x) implies img.contains(x) by {
                assert(used[x]);
                let i = choose|i: int| 0 <= i < p.len() && p[i] == x;
                assert(vstd::set_lib::set_int_range(0, p.len() as int).contains(i) && f(i) == x);
            }
        }
        vstd::set_lib::lemma_len_subset(dom, img);
        assert(false);
    }
}

pub proof fn lemma_key_views_push(keys: Seq<SortKey>, k: SortKey)
    ensures
        key_views(keys.push(k)) == key_views(keys).push(k.view()),
{
    assert(key_views(keys.push(k)) =~= key_views(keys).push(k.view()));
}

/// The sorted order of `keys` (it is unique).
pub open spec fn sorted_by(keys: Seq<KeyView>) -> Seq<usize> {
    choose|p: Seq<usize>| is_sorted_order(keys, p)
}

/// `s` rearranged by the positions `p`.
pub open spec fn permuted<T>(s: Seq<T>, p: Seq<usize>) -> Seq<T> {
    Seq::new(p.len(), |i: int| s[p[i] as int])
}

/// There is one sorted order.
pub proof fn lemma_sorted_unique(keys: Seq<KeyView>, p: Seq<usize>)
    requires
        is_sorted_order(keys, p),
    ensures
        sorted_by(keys) == p,
{
    let q = sorted_by(keys);
    assert(is_sorted_order(keys, q));
    lemma_before_order(keys);
    assert forall|i: int| 0 <= i < p.len() implies p[i] == q[i] by {
        lemma_sorted_prefix_equal(keys, p, q, i);
    }
    assert(p =~= q);
}

proof fn lemma_sorted_prefix_equal(keys: Seq<KeyView>, p: Seq<usize>, q: Seq<usize>, i: int)
    requires
        is_sorted_order(keys, p),
        is_sorted_order(keys, q),
        0 <= i < p.len(),
    ensures
        p[i] == q[i],
    decreases i,
{
    lemma_before_order(keys);
    assert forall|j: int| 0 <= j < i implies p[j] == q[j] by {
        lemma_sorted_prefix_equal(keys, p, q, j);
    }
    lemma_sorted_order_covers(keys, q, p[i] as int);
    lemma_sorted_order_covers(keys, p, q[i] as int);
    let m = choose|m: int| 0 <= m < q.len() && q[m] == p[i];
    let k = choose|k: int| 0 <= k < p.len() && p[k] == q[i];
    if p[i] != q[i] {
        if m < i {
            assert(q[m] == p[m]);
        }
        if k < i {
            assert(p[k] == q[k]);
        }
        assert(m > i && k > i);
        assert(sorts_before(keys, p[i] as int, p[k] as int));
        assert(sorts_before(keys, q[i] as int, q[m] as int));
    }
}

/// The first position of the sorted positions `p` (from `i` on) that `x`
/// sorts before.
pub open spec fn insertion_point(keys: Seq<KeyView>, p: Seq<usize>, x: int, i: int) -> int
    decreases p.len() - i,
{
    if i < 0 || i >= p.len() {
        p.len() as int
    } else if sorts_before(keys, x, p[i] as int) {
        i
    } else {
        insertion_point(keys, p, x, i + 1)
    }
}

/// The positions `0..n` in sorted order, built by insertion.
pub open spec fn insertion_order(keys: Seq<KeyView>, n: int) -> Seq<usize>
    decreases n,
{
    if n <= 0 {
        Seq::empty()
    } else {
        let p = insertion_order(keys, n - 1);
        let m = insertion_point(keys, p, n - 1, 0);
        p.take(m) + seq![(n - 1) as usize] + p.skip(m)
    }
}

pub open spec fn prefix_sorted(keys: Seq<KeyView>, p: Seq<usize>, n: int) -> bool {
    &&& p.len() == n
    &&& forall|i: int| 0 <= i < p.len() ==> (#[trigger] p[i] as int) < n
    &&& forall|i: int, j: int| 0 <= i < j < p.len() ==> p[i] != p[j]
    &&& forall|i: int, j: int|
        0 <= i < j < p.len() ==> sorts_before(keys, #[trigger] p[i] as int, #[trigger] p[j] as int)
}

proof fn lemma_insertion_point(keys: Seq<KeyView>, p: Seq<usize>, x: int, i: int)
    requires
        0 <= i <= p.len(),
        0 <= x < keys.len(),
        forall|k: int| 0 <= k < p.len() ==> (#[trigger] p[k] as int) < keys.len() && p[k] as int != x,
    ensures
        i <= insertion_point(keys, p, x, i) <= p.len(),
        forall|k: int| i <= k < insertion_point(keys, p, x, i) ==> sorts_before(keys, #[trigger] p[k] as int, x),
        insertion_point(keys, p, x, i) < p.len() ==> sorts_before(keys, x, p[insertion_point(keys, p, x, i)] as int),
    decreases p.len() - i,
{
    lemma_before_order(keys);
    if i < p.len() && !sorts_before(keys, x, p[i] as int) {
        lemma_insertion_point(keys, p, x, i + 1);
        assert(sorts_before(keys, p[i] as int, x));
    }
}

proof fn lemma_insertion_order(keys: Seq<KeyView>, n: int)
    requires
        0 <= n <= keys.len(),
        keys.len() <= usize::MAX,
    ensures
        prefix_sorted(keys, insertion_order(keys, n), n),
    decreases n,
{
    if n > 0 {
        lemma_before_order(keys);
        lemma_insertion_order(keys, n - 1);
        let p = insertion_order(keys, n - 1);
        let x = n - 1;
        lemma_insertion_point(keys, p, x, 0);
        let m = insertion_point(keys, p, x, 0);
        let q = p.take(m) + seq![x as usize] + p.skip(m);
        assert(q == insertion_order(keys, n));
        assert(q.len() == n);
        assert forall|i: int| 0 <= i < m implies #[trigger] q[i] == p[i] by {}
        assert(q[m] == x as usize);
        assert forall|i: int| m < i < q.len() implies #[trigger] q[i] == p[i - 1] by {}
        assert forall|i: int| 0 <= i < q.len() implies (#[trigger] q[i] as int) < n by {
            if i < m {
                assert(q[i] == p[i]);
            } else if i > m {
                assert(q[i] == p[i - 1]);
            }
        }
        assert forall|i: int, j: int| 0 <= i < j < q.len() implies q[i] != q[j] by {
            if j < m {
                assert(q[i] == p[i] && q[j] == p[j]);
                assert(p[i] != p[j]);
            } else if j == m {
                assert(q[i] == p[i]);
                assert((p[i] as int) < n - 1);
            } else if i < m {
                assert(q[i] == p[i] && q[j] == p[j - 1]);
                assert(p[i] != p[j - 1]);
            } else if i == m {
                assert(q[j] == p[j - 1]);
                assert((p[j - 1] as int) < n - 1);
            } else {
                assert(q[i] == p[i - 1] && q[j] == p[j - 1]);
                assert(p[i - 1] != p[j - 1]);
            }
        }
        assert forall|i: int, j: int| 0 <= i < j < q.len() implies sorts_before(
            keys,
            #[trigger] q[i] as int,
            #[trigger] q[j] as int,
        ) by {
            if j < m {
                assert(q[i] == p[i] && q[j] == p[j]);
                assert(sorts_before(keys, p[i] as int, p[j] as int));
            } else if j == m {
                assert(q[i] == p[i]);
                assert(sorts_before(keys, p[i] as int, x));
            } else if i < m {
                assert(q[i] == p[i] && q[j] == p[j - 1]);
                assert(sorts_before(keys, p[i] as int, p[j - 1] as int));
            } else if i == m {
                assert(q[j] == p[j - 1]);
                assert(sorts_before(keys, x, p[m] as int));
                if j - 1 > m {
                    assert(sorts_before(keys, p[m] as int, p[j - 1] as int));
                    assert((p[m] as int) < keys.len() && (p[j - 1] as int) < keys.len());
                }
            } else {
                assert(q[i] == p[i - 1] && q[j] == p[j - 1]);
                assert(sorts_before(keys, p[i - 1] as int, p[j - 1] as int));
            }
        }
    }
}

/// Every sequence of keys has its sorted order.
pub proof fn lemma_sorted_order_exists(keys: Seq<KeyView>)
    requires
        keys.len() <= usize::MAX,
    ensures
        is_sorted_order(keys, sorted_by(keys)),
{
    lemma_insertion_order(keys, keys.len() as int);
    assert(is_sorted_order(keys, insertion_order(keys, keys.len() as int)));
}

/// What is sorted holds each item once.
pub proof fn lemma_permuted_once<T>(s: Seq<T>, keys: Seq<KeyView>, i: int)
    requires
        keys.len() == s.len(),
        s.len() <= usize::MAX,
        0 <= i < s.len(),
    ensures
        ({
            let p = sorted_by(keys);
            &&& permuted(s, p).len() == s.len()
            &&& exists|j: int| 0 <= j < p.len() && p[j] as int == i && #[trigger] permuted(s, p)[j] == s[i]
            &&& forall|j: int| 0 <= j < p.len() ==> 0 <= #[trigger] p[j] && (p[j] as int) < s.len() && permuted(s, p)[j] == s[p[j] as int]
            &&& forall|j: int, l: int| 0 <= j < l < p.len() ==> #[trigger] p[j] != #[trigger] p[l]
        }),
{
    lemma_sorted_order_exists(keys);
    let p = sorted_by(keys);
    lemma_sorted_order_covers(keys, p, i);
    let j = choose|j: int| 0 <= j < p.len() && p[j] == i;
    assert(permuted(s, p)[j] == s[i]);
}

/// Appending a key puts its position somewhere in the sorted order and
/// keeps the order of the others.
pub proof fn lemma_sorted_push(keys: Seq<KeyView>, k: KeyView) -> (j: int)
    requires
        keys.len() + 1 <= usize::MAX,
    ensures
        0 <= j <= keys.len(),
        sorted_by(keys.push(k)).len() == keys.len() + 1,
        sorted_by(keys).len() == keys.len(),
        sorted_by(keys.push(k))[j] as int == keys.len(),
        forall|i: int| 0 <= i < j ==> #[trigger] sorted_by(keys.push(k))[i] == sorted_by(keys)[i],
        forall|i: int| j < i <= keys.len() ==> #[trigger] sorted_by(keys.push(k))[i] == sorted_by(keys)[i - 1],
{
    let l = keys.len() as int;
    let keys2 = keys.push(k);
    lemma_sorted_order_exists(keys2);
    let p2 = sorted_by(keys2);
    lemma_sorted_order_covers(keys2, p2, l);
    let j = choose|i: int| 0 <= i < p2.len() && p2[i] == l;
    let q = p2.remove(j);
    assert(is_sorted_order(keys, q)) by {
        assert forall|i: int| 0 <= i < q.len() implies (#[trigger] q[i] as int) < keys.len() by {
            if i < j {
                assert(q[i] == p2[i] && p2[i] != p2[j]);
            } else {
                assert(q[i] == p2[i + 1] && p2[i + 1] != p2[j]);
            }
        }
        assert forall|a: int, b: int| 0 <= a < b < q.len() implies q[a] != q[b] by {
            let a2 = if a < j { a } else { a + 1 };
            let b2 = if b < j { b } else { b + 1 };
            assert(q[a] == p2[a2] && q[b] == p2[b2]);
        }
        assert forall|a: int, b: int| 0 <= a < b < q.len() implies sorts_before(keys, #[trigger] q[a] as int, #[trigger] q[b] as int) by {
            let a2 = if a < j { a } else { a + 1 };
            let b2 = if b < j { b } else { b + 1 };
            assert(q[a] == p2[a2] && q[b] == p2[b2]);
            assert(sorts_before(keys2, p2[a2] as int, p2[b2] as int));
            assert(p2[a2] != p2[j] && p2[b2] != p2[j]);
            assert(keys2[q[a] as int] == keys[q[a] as int]);
            assert(keys2[q[b] as int] == keys[q[b] as int]);
        }
    }
    lemma_sorted_unique(keys, q);
    assert forall|i: int| 0 <= i < j implies #[trigger] sorted_by(keys.push(k))[i] == sorted_by(keys)[i] by {
        assert(q[i] == p2[i]);
    }
    assert forall|i: int| j < i <= keys.len() implies #[trigger] sorted_by(keys.push(k))[i] == sorted_by(keys)[i - 1] by {
        assert(q[i - 1] == p2[i]);
    }
    j
}

} // verus!
