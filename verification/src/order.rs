//! Lexicographic order on character sequences (the order in which `String`s
//! sort, since UTF-8 keeps code point order) and sorting without duplicates.
use vstd::prelude::*;
use crate::text::chars_of;

verus! {

/// `a` sorts strictly before `b`.
pub open spec fn lex_lt(a: Seq<char>, b: Seq<char>) -> bool
    decreases a.len(),
{
    if a.len() == 0 {
        b.len() > 0
    } else if b.len() == 0 {
        false
    } else if (a[0] as u32) < (b[0] as u32) {
        true
    } else if a[0] == b[0] {
        lex_lt(a.drop_first(), b.drop_first())
    } else {
        false
    }
}

/// Every element sorts strictly before every later one.
pub open spec fn strictly_sorted(s: Seq<Seq<char>>) -> bool {
    forall|i: int, j: int| 0 <= i < j < s.len() ==> lex_lt(#[trigger] s[i], #[trigger] s[j])
}

/// The elements of `s` in increasing order, each once.
pub open spec fn sorted_set_of(s: Seq<Seq<char>>) -> Seq<Seq<char>> {
    choose|r: Seq<Seq<char>>| strictly_sorted(r) && r.to_set() == s.to_set()
}

pub proof fn lemma_lex_irreflexive(a: Seq<char>)
    ensures
        !lex_lt(a, a),
    decreases a.len(),
{
    if a.len() > 0 {
        lemma_lex_irreflexive(a.drop_first());
    }
}

pub proof fn lemma_lex_transitive(a: Seq<char>, b: Seq<char>, c: Seq<char>)
    requires
        lex_lt(a, b),
        lex_lt(b, c),
    ensures
        lex_lt(a, c),
    decreases a.len(),
{
    if a.len() > 0 && b.len() > 0 && c.len() > 0 {
        if a[0] == b[0] && b[0] == c[0] {
            lemma_lex_transitive(a.drop_first(), b.drop_first(), c.drop_first());
        }
    }
}

pub proof fn lemma_lex_total(a: Seq<char>, b: Seq<char>)
    ensures
        a == b || lex_lt(a, b) || lex_lt(b, a),
    decreases a.len(),
{
    if a.len() > 0 && b.len() > 0 {
        if a[0] == b[0] {
            lemma_lex_total(a.drop_first(), b.drop_first());
            if a.drop_first() == b.drop_first() {
                assert(a =~= seq![a[0]] + a.drop_first());
                assert(b =~= seq![b[0]] + b.drop_first());
            }
        } else {
            vstd::utf8::char_u32_cast(a[0], a[0] as u32);
            vstd::utf8::char_u32_cast(b[0], b[0] as u32);
            assert((a[0] as u32) != (b[0] as u32));
        }
    } else if a.len() == 0 && b.len() == 0 {
        assert(a =~= b);
    }
}

pub proof fn lemma_lex_asymmetric(a: Seq<char>, b: Seq<char>)
    requires
        lex_lt(a, b),
    ensures
        !lex_lt(b, a),
{
    if lex_lt(b, a) {
        lemma_lex_transitive(a, b, a);
        lemma_lex_irreflexive(a);
    }
}

/// Two strictly sorted sequences with the same elements are equal.
pub proof fn lemma_sorted_unique(a: Seq<Seq<char>>, b: Seq<Seq<char>>)
    requires
        strictly_sorted(a),
        strictly_sorted(b),
        a.to_set() == b.to_set(),
    ensures
        a == b,
    decreases a.len(),
{
    if a.len() == 0 {
        if b.len() > 0 {
            assert(b.to_set().contains(b[0]));
        }
        assert(a =~= b);
    } else {
        assert(a.to_set().contains(a[0]));
        if b.len() == 0 {
            assert(false);
        }
        assert(b.to_set().contains(b[0]));
        let j = choose|j: int| 0 <= j < b.len() && b[j] == a[0];
        let i = choose|i: int| 0 <= i < a.len() && a[i] == b[0];
        if j > 0 {
            assert(lex_lt(b[0], b[j]));
            if i > 0 {
                assert(lex_lt(a[0], a[i]));
                lemma_lex_asymmetric(a[0], a[i]);
            } else {
                lemma_lex_irreflexive(a[0]);
            }
        }
        assert(a[0] == b[0]);
        let a1 = a.drop_first();
        let b1 = b.drop_first();
        assert forall|x: Seq<char>| a1.to_set().contains(x) <==> b1.to_set().contains(x) by {
            if a1.to_set().contains(x) {
                let k = choose|k: int| 0 <= k < a1.len() && a1[k] == x;
                assert(a[k + 1] == x);
                assert(lex_lt(a[0], a[k + 1]));
                lemma_lex_irreflexive(x);
                assert(a.to_set().contains(x));
                let m = choose|m: int| 0 <= m < b.len() && b[m] == x;
                assert(m != 0);
                assert(b1[m - 1] == x);
            }
            if b1.to_set().contains(x) {
                let k = choose|k: int| 0 <= k < b1.len() && b1[k] == x;
                assert(b[k + 1] == x);
                assert(lex_lt(b[0], b[k + 1]));
                lemma_lex_irreflexive(x);
                assert(b.to_set().contains(x));
                let m = choose|m: int| 0 <= m < a.len() && a[m] == x;
                assert(m != 0);
                assert(a1[m - 1] == x);
            }
        }
        assert(a1.to_set() =~= b1.to_set());
        assert forall|p: int, q: int| 0 <= p < q < a1.len() implies lex_lt(a1[p], a1[q]) by {
            assert(a[p + 1] == a1[p] && a[q + 1] == a1[q]);
        }
        assert forall|p: int, q: int| 0 <= p < q < b1.len() implies lex_lt(b1[p], b1[q]) by {
            assert(b[p + 1] == b1[p] && b[q + 1] == b1[q]);
        }
        lemma_sorted_unique(a1, b1);
        assert(a =~= seq![a[0]] + a1);
        assert(b =~= seq![b[0]] + b1);
    }
}

/// A strictly sorted sequence is the sorted set of its own elements.
pub proof fn lemma_sorted_set_of(r: Seq<Seq<char>>, s: Seq<Seq<char>>)
    requires
        strictly_sorted(r),
        r.to_set() == s.to_set(),
    ensures
        sorted_set_of(s) == r,
{
    let c = sorted_set_of(s);
    assert(strictly_sorted(c) && c.to_set() == s.to_set());
    lemma_sorted_unique(c, r);
}

/// Whether `a` sorts strictly before `b`.
pub fn lex_less(a: &Vec<char>, b: &Vec<char>) -> (res: bool)
    ensures
        res == lex_lt(a@, b@),
{
    let mut i: usize = 0;
    assert(a@.skip(0) =~= a@);
    assert(b@.skip(0) =~= b@);
    while i < a.len() && i < b.len()
        invariant
            i <= a.len(),
            i <= b.len(),
            lex_lt(a@, b@) == lex_lt(a@.skip(i as int), b@.skip(i as int)),
        decreases a.len() - i,
    {
        if a[i] != b[i] {
            assert(a@.skip(i as int)[0] == a@[i as int]);
            assert(b@.skip(i as int)[0] == b@[i as int]);
            return (a[i] as u32) < (b[i] as u32);
        }
        assert(a@.skip(i as int).drop_first() =~= a@.skip(i + 1));
        assert(b@.skip(i as int).drop_first() =~= b@.skip(i + 1));
        i += 1;
    }
    a.len() < b.len()
}

/// Whether two character vectors hold the same characters.
pub fn chars_eq(a: &Vec<char>, b: &Vec<char>) -> (res: bool)
    ensures
        res == (a@ == b@),
{
    if a.len() != b.len() {
        return false;
    }
    let mut i: usize = 0;
    while i < a.len()
        invariant
            i <= a.len(),
            a.len() == b.len(),
            a@.take(i as int) == b@.take(i as int),
        decreases a.len() - i,
    {
        if a[i] != b[i] {
            return false;
        }
        assert(a@.take(i + 1) =~= a@.take(i as int).push(a@[i as int]));
        assert(b@.take(i + 1) =~= b@.take(i as int).push(b@[i as int]));
        i += 1;
    }
    assert(a@ =~= a@.take(i as int));
    assert(b@ =~= b@.take(i as int));
    true
}

/// The given strings in increasing order, each once, as `sort` followed by
/// `dedup` leaves them.
pub fn sorted_unique(items: &Vec<String>) -> (res: Vec<String>)
    ensures
        res.deep_view() == sorted_set_of(items.deep_view()),
        strictly_sorted(res.deep_view()),
        res.deep_view().to_set() == items.deep_view().to_set(),
{
    let ghost iv = items.deep_view();
    let mut out: Vec<String> = Vec::new();
    let mut keys: Vec<Vec<char>> = Vec::new();
    let mut i: usize = 0;
    while i < items.len()
        invariant
            i <= items.len(),
            iv == items.deep_view(),
            keys.deep_view() == out.deep_view(),
            keys.len() == out.len(),
            strictly_sorted(out.deep_view()),
            out.deep_view().to_set() == iv.take(i as int).to_set(),
        decreases items.len() - i,
    {
        let key = chars_of(items[i].as_str());
        let ghost kv = keys.deep_view();
        let mut p: usize = 0;
        while p < keys.len() && lex_less(&keys[p], &key)
            invariant
                p <= keys.len(),
                kv == keys.deep_view(),
                forall|q: int| 0 <= q < p ==> lex_lt(#[trigger] kv[q], key@),
            decreases keys.len() - p,
        {
            assert(kv[p as int] == keys@[p as int]@);
            p += 1;
        }
        let dup = p < keys.len() && chars_eq(&keys[p], &key);
        proof {
            assert(iv.take(i + 1) =~= iv.take(i as int).push(iv[i as int]));
            assert(iv[i as int] == key@);
        }
        if dup {
            proof {
                assert(kv[p as int] == key@);
                assert(out.deep_view()[p as int] == key@);
                assert(out.deep_view().to_set().contains(key@));
                iv.take(i as int).lemma_push_to_set_commute(iv[i as int]);
                assert(out.deep_view().to_set() =~= iv.take(i + 1).to_set());
            }
        } else {
            proof {
                if p < keys.len() {
                    assert(kv[p as int] == keys@[p as int]@);
                    lemma_lex_total(kv[p as int], key@);
                    assert(lex_lt(key@, kv[p as int]));
                }
            }
            let ghost ov = out.deep_view();
            let ghost ok = keys@;
            let ghost key_view = key@;
            keys.insert(p, key);
            let item = items[i].clone();
            out.insert(p, item);
            proof {
                let nv = out.deep_view();
                assert(nv =~= ov.insert(p as int, key_view));
                assert(keys@ == ok.insert(p as int, key));
                assert(keys.deep_view() =~= kv.insert(p as int, key_view)) by {
                    assert forall|k: int| 0 <= k < keys.len() implies keys.deep_view()[k]
                        == kv.insert(p as int, key_view)[k] by {
                        if k < p {
                            assert(keys@[k] == ok[k]);
                        } else if k > p {
                            assert(keys@[k] == ok[k - 1]);
                        }
                    }
                }
                assert forall|a: int, b: int| 0 <= a < b < nv.len() implies lex_lt(
                    #[trigger] nv[a],
                    #[trigger] nv[b],
                ) by {
                    if b < p {
                        assert(nv[a] == ov[a] && nv[b] == ov[b]);
                    } else if b == p {
                        assert(nv[a] == kv[a]);
                    } else if a == p {
                        assert(nv[b] == ov[b - 1]);
                        if b - 1 > p {
                            assert(lex_lt(ov[p as int], ov[b - 1]));
                            lemma_lex_transitive(key_view, ov[p as int], ov[b - 1]);
                        }
                    } else if a < p {
                        assert(nv[a] == ov[a] && nv[b] == ov[b - 1]);
                    } else {
                        assert(nv[a] == ov[a - 1] && nv[b] == ov[b - 1]);
                    }
                }
                assert forall|x: Seq<char>| #[trigger] nv.to_set().contains(x) <==> ov.to_set().insert(key_view).contains(x) by {
                    if nv.to_set().contains(x) {
                        let k = choose|k: int| 0 <= k < nv.len() && nv[k] == x;
                        if k < p {
                            assert(ov[k] == x);
                        } else if k > p {
                            assert(ov[k - 1] == x);
                        }
                    }
                    if ov.to_set().contains(x) {
                        let k = choose|k: int| 0 <= k < ov.len() && ov[k] == x;
                        if k < p {
                            assert(nv[k] == x);
                        } else {
                            assert(nv[k + 1] == x);
                        }
                    }
                    if x == key_view {
                        assert(nv[p as int] == x);
                    }
                }
                iv.take(i as int).lemma_push_to_set_commute(iv[i as int]);
                assert(nv.to_set() =~= iv.take(i + 1).to_set());
            }
        }
        i += 1;
    }
    proof {
        assert(iv.take(items.len() as int) =~= iv);
        lemma_sorted_set_of(out.deep_view(), iv);
    }
    out
}

} // verus!

verus! {

/// `r` with `x` put in its place, unless it is there already.
pub open spec fn insert_sorted(r: Seq<Seq<char>>, x: Seq<char>) -> Seq<Seq<char>>
    decreases r.len(),
{
    if r.len() == 0 {
        seq![x]
    } else if r[0] == x {
        r
    } else if lex_lt(x, r[0]) {
        seq![x] + r
    } else {
        seq![r[0]] + insert_sorted(r.drop_first(), x)
    }
}

proof fn lemma_drop_first_sorted(r: Seq<Seq<char>>)
    requires
        strictly_sorted(r),
        r.len() > 0,
    ensures
        strictly_sorted(r.drop_first()),
{
    assert forall|p: int, q: int| 0 <= p < q < r.drop_first().len() implies lex_lt(
        #[trigger] r.drop_first()[p],
        #[trigger] r.drop_first()[q],
    ) by {
        assert(r[p + 1] == r.drop_first()[p] && r[q + 1] == r.drop_first()[q]);
    }
}

proof fn lemma_insert_sorted(r: Seq<Seq<char>>, x: Seq<char>)
    requires
        strictly_sorted(r),
    ensures
        strictly_sorted(insert_sorted(r, x)),
        insert_sorted(r, x).to_set() == r.to_set().insert(x),
    decreases r.len(),
{
    let res = insert_sorted(r, x);
    if r.len() == 0 {
        assert(res.to_set() =~= r.to_set().insert(x)) by {
            assert forall|y: Seq<char>| res.to_set().contains(y) implies y == x by {
                let k = choose|k: int| 0 <= k < res.len() && res[k] == y;
            }
            assert(res[0] == x);
        }
    } else if r[0] == x {
        assert(r.to_set().contains(x));
        assert(res.to_set() =~= r.to_set().insert(x));
    } else if lex_lt(x, r[0]) {
        assert forall|p: int, q: int| 0 <= p < q < res.len() implies lex_lt(
            #[trigger] res[p],
            #[trigger] res[q],
        ) by {
            if p == 0 {
                assert(res[q] == r[q - 1]);
                if q - 1 > 0 {
                    assert(lex_lt(r[0], r[q - 1]));
                    lemma_lex_transitive(x, r[0], r[q - 1]);
                }
            } else {
                assert(res[p] == r[p - 1] && res[q] == r[q - 1]);
            }
        }
        assert forall|y: Seq<char>| #[trigger] res.to_set().contains(y) <==> r.to_set().insert(
            x,
        ).contains(y) by {
            if res.to_set().contains(y) {
                let k = choose|k: int| 0 <= k < res.len() && res[k] == y;
                if k > 0 {
                    assert(r[k - 1] == y);
                }
            }
            if r.to_set().contains(y) {
                let k = choose|k: int| 0 <= k < r.len() && r[k] == y;
                assert(res[k + 1] == y);
            }
            if y == x {
                assert(res[0] == y);
            }
        }
        assert(res.to_set() =~= r.to_set().insert(x));
    } else {
        let r1 = r.drop_first();
        lemma_drop_first_sorted(r);
        lemma_insert_sorted(r1, x);
        let rest = insert_sorted(r1, x);
        lemma_lex_total(x, r[0]);
        assert(lex_lt(r[0], x));
        assert forall|q: int| 0 <= q < rest.len() implies lex_lt(r[0], #[trigger] rest[q]) by {
            assert(rest.to_set().contains(rest[q]));
            if rest[q] != x {
                assert(r1.to_set().contains(rest[q]));
                let k = choose|k: int| 0 <= k < r1.len() && r1[k] == rest[q];
                assert(r[k + 1] == r1[k]);
            }
        }
        assert forall|p: int, q: int| 0 <= p < q < res.len() implies lex_lt(
            #[trigger] res[p],
            #[trigger] res[q],
        ) by {
            assert(res[q] == rest[q - 1]);
            if p > 0 {
                assert(res[p] == rest[p - 1]);
            }
        }
        assert forall|y: Seq<char>| #[trigger] res.to_set().contains(y) <==> r.to_set().insert(
            x,
        ).contains(y) by {
            if res.to_set().contains(y) {
                let k = choose|k: int| 0 <= k < res.len() && res[k] == y;
                if k > 0 {
                    assert(rest[k - 1] == y);
                    assert(rest.to_set().contains(y));
                    if y != x {
                        let j = choose|j: int| 0 <= j < r1.len() && r1[j] == y;
                        assert(r[j + 1] == y);
                    }
                }
            }
            if r.to_set().contains(y) {
                let k = choose|k: int| 0 <= k < r.len() && r[k] == y;
                if k > 0 {
                    assert(r1[k - 1] == y);
                    assert(r1.to_set().contains(y));
                    assert(rest.to_set().contains(y));
                    let j = choose|j: int| 0 <= j < rest.len() && rest[j] == y;
                    assert(res[j + 1] == y);
                } else {
                    assert(res[0] == y);
                }
            }
            if y == x {
                assert(rest.to_set().contains(y));
                let j = choose|j: int| 0 <= j < rest.len() && rest[j] == y;
                assert(res[j + 1] == y);
            }
        }
        assert(res.to_set() =~= r.to_set().insert(x));
    }
}

proof fn lemma_sorted_set_exists(s: Seq<Seq<char>>)
    ensures
        exists|r: Seq<Seq<char>>| strictly_sorted(r) && r.to_set() == s.to_set(),
    decreases s.len(),
{
    if s.len() == 0 {
        let r = Seq::<Seq<char>>::empty();
        assert(r.to_set() =~= s.to_set());
        assert(strictly_sorted(r));
    } else {
        let p = s.drop_last();
        lemma_sorted_set_exists(p);
        let r0 = choose|r: Seq<Seq<char>>| strictly_sorted(r) && r.to_set() == p.to_set();
        lemma_insert_sorted(r0, s.last());
        p.lemma_push_to_set_commute(s.last());
        assert(p.push(s.last()) =~= s);
        let r = insert_sorted(r0, s.last());
        assert(strictly_sorted(r) && r.to_set() == s.to_set());
    }
}

/// The sorted set of `s` is strictly sorted and has the elements of `s`.
pub proof fn lemma_sorted_set_of_props(s: Seq<Seq<char>>)
    ensures
        strictly_sorted(sorted_set_of(s)),
        sorted_set_of(s).to_set() == s.to_set(),
{
    lemma_sorted_set_exists(s);
}

/// `a` sorts before `b` or is `b`.
pub open spec fn lex_le(a: Seq<char>, b: Seq<char>) -> bool {
    a == b || lex_lt(a, b)
}

/// What sorts between two strings that share their first `n` characters
/// shares them too.
pub proof fn lemma_between_shares_prefix(a: Seq<char>, b: Seq<char>, c: Seq<char>, n: int)
    requires
        lex_le(a, b),
        lex_le(b, c),
        0 <= n <= a.len(),
        n <= c.len(),
        a.take(n) == c.take(n),
    ensures
        n <= b.len(),
        b.take(n) == a.take(n),
    decreases n,
{
    if n > 0 {
        assert(a[0] == a.take(n)[0] && c[0] == c.take(n)[0]);
        assert(a[0] == c[0]);
        if b.len() == 0 {
            assert(a != b);
            assert(!lex_lt(a, b));
        }
        vstd::utf8::char_u32_cast(a[0], a[0] as u32);
        vstd::utf8::char_u32_cast(b[0], b[0] as u32);
        assert(b[0] == a[0]) by {
            if b[0] != a[0] {
                if (a[0] as u32) < (b[0] as u32) {
                    assert(c != b);
                    assert(!lex_lt(b, c));
                } else {
                    assert(a != b);
                    assert(!lex_lt(a, b));
                }
            }
        }
        let a1 = a.drop_first();
        let b1 = b.drop_first();
        let c1 = c.drop_first();
        if a == b {
        } else {
            assert(lex_lt(a1, b1));
        }
        if b == c {
        } else {
            assert(lex_lt(b1, c1));
        }
        assert(a1.take(n - 1) =~= a.take(n).drop_first());
        assert(c1.take(n - 1) =~= c.take(n).drop_first());
        lemma_between_shares_prefix(a1, b1, c1, n - 1);
        assert(b.take(n) =~= seq![b[0]] + b1.take(n - 1));
        assert(a.take(n) =~= seq![a[0]] + a1.take(n - 1));
    }
}

} // verus!
