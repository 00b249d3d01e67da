use vstd::prelude::*;

verus! {

/// Lexicographic order on character sequences, by code point: the order of
/// `String`'s `Ord`.
pub open spec fn text_lt(a: Seq<char>, b: Seq<char>) -> bool
    decreases a.len(),
{
    if b.len() == 0 {
        false
    } else if a.len() == 0 {
        true
    } else if a[0] != b[0] {
        a[0] < b[0]
    } else {
        text_lt(a.drop_first(), b.drop_first())
    }
}

pub proof fn lemma_text_lt_irreflexive(a: Seq<char>)
    ensures
        !text_lt(a, a),
    decreases a.len(),
{
    if a.len() > 0 {
        lemma_text_lt_irreflexive(a.drop_first());
    }
}

pub proof fn lemma_text_lt_transitive(a: Seq<char>, b: Seq<char>, c: Seq<char>)
    requires
        text_lt(a, b),
        text_lt(b, c),
    ensures
        text_lt(a, c),
    decreases a.len(),
{
    if a.len() > 0 && b.len() > 0 && c.len() > 0 {
        if a[0] == b[0] && b[0] == c[0] {
            lemma_text_lt_transitive(a.drop_first(), b.drop_first(), c.drop_first());
        }
    }
}

pub proof fn lemma_text_lt_total(a: Seq<char>, b: Seq<char>)
    requires
        a != b,
    ensures
        text_lt(a, b) || text_lt(b, a),
    decreases a.len(),
{
    if a.len() > 0 && b.len() > 0 && a[0] == b[0] {
        if a.drop_first() == b.drop_first() {
            assert(a =~= seq![a[0]] + a.drop_first());
            assert(b =~= seq![b[0]] + b.drop_first());
        }
        lemma_text_lt_total(a.drop_first(), b.drop_first());
    } else if a.len() == 0 && b.len() == 0 {
        assert(a =~= b);
    } else if a.len() > 0 && b.len() > 0 {
    }
}

/// No element is followed by a smaller one.
pub open spec fn texts_sorted(s: Seq<Seq<char>>) -> bool {
    forall|i: int, j: int| 0 <= i < j < s.len() ==> !text_lt(#[trigger] s[j], #[trigger] s[i])
}

/// Each element is smaller than every later one.
pub open spec fn texts_strictly_sorted(s: Seq<Seq<char>>) -> bool {
    forall|i: int, j: int| 0 <= i < j < s.len() ==> text_lt(#[trigger] s[i], #[trigger] s[j])
}

/// Two strictly sorted sequences with the same elements are the same sequence.
pub proof fn lemma_strictly_sorted_unique(s1: Seq<Seq<char>>, s2: Seq<Seq<char>>)
    requires
        texts_strictly_sorted(s1),
        texts_strictly_sorted(s2),
        forall|x: Seq<char>| s1.contains(x) <==> s2.contains(x),
    ensures
        s1 == s2,
    decreases s1.len(),
{
    if s1.len() == 0 {
        if s2.len() > 0 {
            assert(s2.contains(s2[0]));
        }
        assert(s1 =~= s2);
    } else {
        assert(s1.contains(s1[0]));
        let j = choose|j: int| 0 <= j < s2.len() && s2[j] == s1[0];
        assert(s2.contains(s2[0]));
        let i = choose|i: int| 0 <= i < s1.len() && s1[i] == s2[0];
        if j > 0 {
            assert(text_lt(s2[0], s2[j]));
            if i > 0 {
                assert(text_lt(s1[0], s1[i]));
                lemma_text_lt_transitive(s1[0], s1[i], s1[0]);
                lemma_text_lt_irreflexive(s1[0]);
            } else {
                lemma_text_lt_irreflexive(s1[0]);
            }
        }
        assert(s1[0] == s2[0]);
        let t1 = s1.drop_first();
        let t2 = s2.drop_first();
        assert forall|x: Seq<char>| t1.contains(x) <==> t2.contains(x) by {
            if t1.contains(x) {
                let a = choose|a: int| 0 <= a < t1.len() && t1[a] == x;
                assert(s1[a + 1] == x);
                assert(text_lt(s1[0], x));
                lemma_text_lt_irreflexive(x);
                assert(s2.contains(x));
                let b = choose|b: int| 0 <= b < s2.len() && s2[b] == x;
                assert(b != 0);
                assert(t2[b - 1] == x);
            }
            if t2.contains(x) {
                let a = choose|a: int| 0 <= a < t2.len() && t2[a] == x;
                assert(s2[a + 1] == x);
                assert(text_lt(s2[0], x));
                lemma_text_lt_irreflexive(x);
                assert(s1.contains(x));
                let b = choose|b: int| 0 <= b < s1.len() && s1[b] == x;
                assert(b != 0);
                assert(t1[b - 1] == x);
            }
        }
        lemma_strictly_sorted_unique(t1, t2);
        assert(s1 =~= seq![s1[0]] + t1);
        assert(s2 =~= seq![s2[0]] + t2);
    }
}

/// Whether `a` sorts before `b`.
pub fn text_less(a: &str, b: &str) -> (r: bool)
    ensures
        r == text_lt(a@, b@),
{
    let n = a.unicode_len();
    let m = b.unicode_len();
    let mut i: usize = 0;
    assert(a@.skip(0) =~= a@);
    assert(b@.skip(0) =~= b@);
    while i < n && i < m
        invariant
            n == a@.len(),
            m == b@.len(),
            i <= n,
            i <= m,
            text_lt(a@, b@) == text_lt(a@.skip(i as int), b@.skip(i as int)),
        decreases n - i,
    {
        let x = a.get_char(i);
        let y = b.get_char(i);
        if x != y {
            return x < y;
        }
        assert(a@.skip(i as int).drop_first() =~= a@.skip(i + 1));
        assert(b@.skip(i as int).drop_first() =~= b@.skip(i + 1));
        i = i + 1;
    }
    i < m
}

/// Whether two strings hold the same characters.
pub fn same_text(a: &str, b: &str) -> (r: bool)
    ensures
        r == (a@ == b@),
{
    let n = a.unicode_len();
    if n != b.unicode_len() {
        return false;
    }
    let mut i: usize = 0;
    while i < n
        invariant
            n == a@.len(),
            n == b@.len(),
            i <= n,
            a@.subrange(0, i as int) =~= b@.subrange(0, i as int),
        decreases n - i,
    {
        if a.get_char(i) != b.get_char(i) {
            return false;
        }
        assert(a@.subrange(0, i + 1) =~= a@.subrange(0, i as int).push(a@[i as int]));
        assert(b@.subrange(0, i + 1) =~= b@.subrange(0, i as int).push(b@[i as int]));
        i = i + 1;
    }
    assert(a@ =~= a@.subrange(0, n as int));
    assert(b@ =~= b@.subrange(0, n as int));
    true
}


/// `order` with index `i` placed after every index whose key does not sort
/// after `ks[i]`.
pub open spec fn insert_index(ks: Seq<Seq<char>>, order: Seq<int>, i: int) -> Seq<int>
    decreases order.len(),
{
    if order.len() == 0 {
        seq![i]
    } else if text_lt(ks[i], ks[order[0]]) {
        seq![i] + order
    } else {
        seq![order[0]] + insert_index(ks, order.drop_first(), i)
    }
}

/// The indices `0..n` sorted by their keys, equal keys in index order.
pub open spec fn key_order(ks: Seq<Seq<char>>, n: nat) -> Seq<int>
    decreases n,
{
    if n == 0 {
        Seq::empty()
    } else {
        insert_index(ks, key_order(ks, (n - 1) as nat), n - 1)
    }
}

proof fn lemma_insert_at(ks: Seq<Seq<char>>, order: Seq<int>, i: int, j: int)
    requires
        0 <= j <= order.len(),
        forall|t: int| 0 <= t < j ==> !text_lt(ks[i], ks[#[trigger] order[t]]),
        j == order.len() || text_lt(ks[i], ks[order[j]]),
    ensures
        insert_index(ks, order, i) == order.insert(j, i),
    decreases j,
{
    if order.len() == 0 {
        assert(order.insert(j, i) =~= seq![i]);
    } else if j == 0 {
        assert(order.insert(0, i) =~= seq![i] + order);
    } else {
        assert(!text_lt(ks[i], ks[order[0]]));
        let rest = order.drop_first();
        assert forall|t: int| 0 <= t < j - 1 implies !text_lt(ks[i], ks[#[trigger] rest[t]]) by {
            assert(rest[t] == order[t + 1]);
        }
        if j < order.len() {
            assert(rest[j - 1] == order[j]);
        }
        lemma_insert_at(ks, rest, i, j - 1);
        assert(seq![order[0]] + rest.insert(j - 1, i) =~= order.insert(j, i));
    }
}

proof fn lemma_insert_contents(ks: Seq<Seq<char>>, order: Seq<int>, i: int)
    ensures
        insert_index(ks, order, i).len() == order.len() + 1,
        forall|x: int| #[trigger] insert_index(ks, order, i).contains(x) <==> (x == i || order.contains(x)),
    decreases order.len(),
{
    let r = insert_index(ks, order, i);
    if order.len() == 0 {
        assert forall|x: int| #[trigger] r.contains(x) <==> (x == i || order.contains(x)) by {
            if r.contains(x) {
                let k = choose|k: int| 0 <= k < r.len() && r[k] == x;
            }
            if x == i {
                assert(r[0] == i);
            }
        }
    } else if text_lt(ks[i], ks[order[0]]) {
        assert forall|x: int| #[trigger] r.contains(x) <==> (x == i || order.contains(x)) by {
            if r.contains(x) {
                let k = choose|k: int| 0 <= k < r.len() && r[k] == x;
                if k > 0 {
                    assert(order[k - 1] == x);
                }
            }
            if x == i {
                assert(r[0] == i);
            }
            if order.contains(x) {
                let k = choose|k: int| 0 <= k < order.len() && order[k] == x;
                assert(r[k + 1] == x);
            }
        }
    } else {
        let rest = order.drop_first();
        lemma_insert_contents(ks, rest, i);
        let q = insert_index(ks, rest, i);
        assert(r == seq![order[0]] + q);
        assert forall|x: int| #[trigger] r.contains(x) <==> (x == i || order.contains(x)) by {
            if r.contains(x) {
                let k = choose|k: int| 0 <= k < r.len() && r[k] == x;
                if k > 0 {
                    assert(q[k - 1] == x);
                    assert(q.contains(x));
                    if rest.contains(x) {
                        let m = choose|m: int| 0 <= m < rest.len() && rest[m] == x;
                        assert(order[m + 1] == x);
                    }
                } else {
                    assert(order[0] == x);
                }
            }
            if x == i {
                assert(q.contains(i));
                let k = choose|k: int| 0 <= k < q.len() && q[k] == i;
                assert(r[k + 1] == i);
            }
            if order.contains(x) {
                let k = choose|k: int| 0 <= k < order.len() && order[k] == x;
                if k == 0 {
                    assert(r[0] == x);
                } else {
                    assert(rest[k - 1] == x);
                    assert(q.contains(x));
                    let m = choose|m: int| 0 <= m < q.len() && q[m] == x;
                    assert(r[m + 1] == x);
                }
            }
        }
    }
}

/// The sorted indices are exactly `0..n`, each once position-wise in range.
pub proof fn lemma_key_order_contents(ks: Seq<Seq<char>>, n: nat)
    ensures
        key_order(ks, n).len() == n,
        forall|x: int| #[trigger] key_order(ks, n).contains(x) <==> 0 <= x < n,
        forall|k: int| 0 <= k < n ==> 0 <= #[trigger] key_order(ks, n)[k] < n,
    decreases n,
{
    if n > 0 {
        let prev = key_order(ks, (n - 1) as nat);
        lemma_key_order_contents(ks, (n - 1) as nat);
        lemma_insert_contents(ks, prev, n - 1);
        let r = key_order(ks, n);
        assert forall|k: int| 0 <= k < n implies 0 <= #[trigger] r[k] < n by {
            assert(r.contains(r[k]));
        }
    }
}

/// The indices of `ks` sorted by key, equal keys in index order.
pub fn order_by_text(ks: &Vec<&str>) -> (r: Vec<usize>)
    ensures
        r@.map_values(|x: usize| x as int) == key_order(ks@.map_values(|s: &str| s@), ks@.len()),
{
    let ghost kv = ks@.map_values(|s: &str| s@);
    let mut order: Vec<usize> = Vec::new();
    let mut i: usize = 0;
    assert(order@.map_values(|x: usize| x as int) =~= Seq::<int>::empty());
    while i < ks.len()
        invariant
            kv == ks@.map_values(|s: &str| s@),
            i <= ks@.len(),
            order@.map_values(|x: usize| x as int) == key_order(kv, i as nat),
        decreases ks@.len() - i,
    {
        let ghost ov = order@.map_values(|x: usize| x as int);
        proof {
            lemma_key_order_contents(kv, i as nat);
            assert forall|k: int| 0 <= k < order@.len() implies (#[trigger] order@[k]) < i by {
                assert(ov[k] == order@[k] as int);
            }
        }
        let mut j: usize = 0;
        while j < order.len() && !text_less(ks[i], ks[order[j]])
            invariant
                kv == ks@.map_values(|s: &str| s@),
                i < ks@.len(),
                ov == order@.map_values(|x: usize| x as int),
                ov == key_order(kv, i as nat),
                ov.len() == i,
                forall|k: int| 0 <= k < i ==> 0 <= #[trigger] ov[k] < i,
                forall|k: int| 0 <= k < order@.len() ==> (#[trigger] order@[k]) < i,
                j <= order@.len(),
                forall|t: int| 0 <= t < j ==> !text_lt(kv[i as int], kv[#[trigger] ov[t]]),
            decreases order@.len() - j,
        {
            j = j + 1;
        }
        order.insert(j, i);
        proof {
            lemma_insert_at(kv, ov, i as int, j as int);
            assert(order@.map_values(|x: usize| x as int) =~= ov.insert(j as int, i as int));
        }
        i = i + 1;
    }
    order
}

} // verus!
