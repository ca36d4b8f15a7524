//! Rewrites text by replacing many literal patterns in one left-to-right pass.
use vstd::prelude::*;
use vstd::string::{StrSliceExecFns, StringSliceAdditionalSpecFns};
use vstd::utf8::{decode_utf8, encode_utf8, valid_utf8};

verus! {

pub type Table = Seq<(Seq<u8>, Seq<u8>)>;

/// How many leading bytes `p` and `s` have in common.
pub open spec fn lcp(p: Seq<u8>, s: Seq<u8>) -> nat
    decreases p.len(),
{
    if p.len() == 0 || s.len() == 0 || p[0] != s[0] {
        0
    } else {
        1 + lcp(p.drop_first(), s.drop_first())
    }
}

/// How far the patterns of the table reach into `s`: the most leading bytes
/// that any pattern shares with it.
pub open spec fn reach(t: Table, s: Seq<u8>) -> nat
    decreases t.len(),
{
    if t.len() == 0 {
        0
    } else {
        let r = reach(t.drop_last(), s);
        let l = lcp(t.last().0, s);
        if l > r {
            l
        } else {
            r
        }
    }
}

pub open spec fn completes(p: Seq<u8>, s: Seq<u8>, k: nat) -> bool {
    p.len() == k && lcp(p, s) == k
}

/// The first entry whose pattern is exactly the first `k` bytes of `s`.
pub open spec fn exact(t: Table, s: Seq<u8>, k: nat) -> Option<int>
    decreases t.len(),
{
    if t.len() == 0 {
        None
    } else {
        match exact(t.drop_last(), s, k) {
            Some(j) => Some(j),
            None => if completes(t.last().0, s, k) {
                Some(t.len() - 1)
            } else {
                None
            },
        }
    }
}

/// The entry chosen at the start of `s`: extend the match as far as any
/// pattern reaches, then take a pattern that ends exactly there.
pub open spec fn chosen(t: Table, s: Seq<u8>) -> Option<int> {
    let k = reach(t, s);
    if k > 0 {
        exact(t, s, k)
    } else {
        None
    }
}

/// The rewritten text.
pub open spec fn substituted(s: Seq<u8>, t: Table) -> Seq<u8>
    decreases s.len(),
{
    if s.len() == 0 {
        Seq::empty()
    } else {
        match chosen(t, s) {
            Some(j) => if 0 <= j < t.len() && t[j].0.len() > 0 && t[j].0.len() <= s.len() {
                t[j].1 + substituted(s.subrange(t[j].0.len() as int, s.len() as int), t)
            } else {
                Seq::empty()
            },
            None => seq![s[0]] + substituted(s.drop_first(), t),
        }
    }
}

pub proof fn lemma_lcp_bound(p: Seq<u8>, s: Seq<u8>)
    ensures
        lcp(p, s) <= p.len(),
        lcp(p, s) <= s.len(),
    decreases p.len(),
{
    if p.len() > 0 && s.len() > 0 && p[0] == s[0] {
        lemma_lcp_bound(p.drop_first(), s.drop_first());
    }
}

/// A pattern that shares all its bytes with `s` is a prefix of it.
pub proof fn lemma_lcp_prefix(p: Seq<u8>, s: Seq<u8>)
    requires
        lcp(p, s) == p.len(),
    ensures
        p.len() <= s.len(),
        s.subrange(0, p.len() as int) == p,
    decreases p.len(),
{
    lemma_lcp_bound(p, s);
    if p.len() > 0 {
        lemma_lcp_prefix(p.drop_first(), s.drop_first());
        assert(s.subrange(0, p.len() as int) =~= seq![s[0]] + s.drop_first().subrange(
            0,
            p.len() - 1,
        ));
        assert(p =~= seq![p[0]] + p.drop_first());
    } else {
        assert(s.subrange(0, 0) =~= p);
    }
}

pub proof fn lemma_exact(t: Table, s: Seq<u8>, k: nat)
    ensures
        exact(t, s, k) matches Some(j) ==> 0 <= j < t.len() && completes(t[j].0, s, k),
        exact(t, s, k) is None ==> forall|j: int| 0 <= j < t.len() ==> !completes(t[j].0, s, k),
    decreases t.len(),
{
    if t.len() > 0 {
        lemma_exact(t.drop_last(), s, k);
        assert forall|j: int| 0 <= j < t.len() - 1 implies t.drop_last()[j] == t[j] by {}
    }
}

pub proof fn lemma_chosen(t: Table, s: Seq<u8>)
    ensures
        chosen(t, s) matches Some(j) ==> 0 <= j < t.len() && t[j].0.len() > 0 && t[j].0.len()
            <= s.len() && s.subrange(0, t[j].0.len() as int) == t[j].0,
{
    let k = reach(t, s);
    if k > 0 {
        lemma_exact(t, s, k);
        if let Some(j) = exact(t, s, k) {
            lemma_lcp_prefix(t[j].0, s);
        }
    }
}

/// The table's entries as byte sequences.
pub struct ParserData {
    pub keys: Vec<(Vec<u8>, Vec<u8>)>,
}

pub open spec fn table_of(keys: Seq<(Vec<u8>, Vec<u8>)>) -> Table {
    keys.map_values(|e: (Vec<u8>, Vec<u8>)| (e.0@, e.1@))
}

pub open spec fn utf8_table(keys: Seq<(String, String)>) -> Table {
    keys.map_values(
        |e: (String, String)| (encode_utf8(e.0@), encode_utf8(e.1@)),
    )
}

impl View for ParserData {
    type V = Table;

    open spec fn view(&self) -> Table {
        table_of(self.keys@)
    }
}

impl ParserData {
    /// The table of (pattern, replacement) pairs, as their UTF-8 bytes,
    /// sorted by pattern in ascending byte-wise order; entries with equal
    /// patterns keep their given order.
    pub fn new(keys: &[(String, String)]) -> (r: ParserData)
        ensures
            sorted_table(r@),
            r@.to_multiset() == utf8_table(keys@).to_multiset(),
            forall|q: Seq<u8>| #[trigger] with_pattern(r@, q) == with_pattern(utf8_table(keys@), q),
    {
        broadcast use vstd::seq_lib::to_multiset_build, vstd::seq_lib::to_multiset_insert;

        let mut v: Vec<(Vec<u8>, Vec<u8>)> = Vec::new();
        let mut i: usize = 0;
        assert(utf8_table(keys@.subrange(0, 0)) =~= table_of(v@));
        assert forall|q: Seq<u8>| #[trigger] with_pattern(table_of(v@), q) == with_pattern(
            utf8_table(keys@.subrange(0, 0)),
            q,
        ) by {}
        while i < keys.len()
            invariant
                0 <= i <= keys.len(),
                sorted_table(table_of(v@)),
                table_of(v@).to_multiset() == utf8_table(keys@.subrange(0, i as int)).to_multiset(),
                forall|q: Seq<u8>|
                    #[trigger] with_pattern(table_of(v@), q) == with_pattern(
                        utf8_table(keys@.subrange(0, i as int)),
                        q,
                    ),
            decreases keys.len() - i,
        {
            let p = keys[i].0.as_str().as_bytes_vec();
            let r = keys[i].1.as_str().as_bytes_vec();
            assert(p@ == encode_utf8(keys@[i as int].0@));
            assert(r@ == encode_utf8(keys@[i as int].1@));
            let ghost before = table_of(v@);
            let mut at: usize = 0;
            loop
                invariant
                    0 <= at <= v@.len(),
                    before == table_of(v@),
                    forall|j: int| 0 <= j < at ==> lex_le(#[trigger] before[j].0, p@),
                ensures
                    0 <= at <= v@.len(),
                    forall|j: int| 0 <= j < at ==> lex_le(#[trigger] before[j].0, p@),
                    at < v@.len() ==> !lex_le(before[at as int].0, p@),
                decreases v.len() - at,
            {
                if at == v.len() || !bytes_le(&v[at].0, &p) {
                    break;
                }
                at = at + 1;
            }
            proof {
                assert forall|j: int| at <= j < before.len() implies lex_le(p@, #[trigger] before[j].0) by {
                    lemma_lex_total(before[at as int].0, p@);
                    if j > at {
                        lemma_lex_trans(p@, before[at as int].0, before[j].0);
                    }
                }
                assert forall|j: int| at <= j < before.len() implies #[trigger] before[j].0 != p@ by {
                    if before[j].0 == p@ {
                        lemma_lex_refl(p@);
                        if j > at {
                            assert(lex_le(before[at as int].0, before[j].0));
                        }
                    }
                }
            }
            v.insert(at, (p, r));
            let ghost after = table_of(v@);
            assert(after =~= before.insert(at as int, (p@, r@)));
            assert forall|a: int, b: int| 0 <= a < b < after.len() implies lex_le(
                #[trigger] after[a].0,
                #[trigger] after[b].0,
            ) by {
                if b < at {
                } else if a < at && b == at {
                } else if a < at {
                    assert(after[b] == before[b - 1]);
                } else if a == at {
                    assert(after[b] == before[b - 1]);
                } else {
                    assert(after[a] == before[a - 1]);
                    assert(after[b] == before[b - 1]);
                }
            }
            assert(utf8_table(keys@.subrange(0, i + 1)) =~= utf8_table(
                keys@.subrange(0, i as int),
            ).push((p@, r@)));
            proof {
                let ghost prev = utf8_table(keys@.subrange(0, i as int));
                assert forall|q: Seq<u8>| #[trigger] with_pattern(after, q) == with_pattern(
                    utf8_table(keys@.subrange(0, i + 1)),
                    q,
                ) by {
                    lemma_wp_insert(before, at as int, (p@, r@), q);
                    assert(prev.push((p@, r@)).drop_last() =~= prev);
                }
                vstd::seq_lib::to_multiset_insert(before, at as int, (p@, r@));
                vstd::seq_lib::to_multiset_build(utf8_table(keys@.subrange(0, i as int)), (p@, r@));
            }
            i = i + 1;
        }
        assert(keys@.subrange(0, keys.len() as int) =~= keys@);
        ParserData { keys: v }
    }
}

/// The entries whose pattern is `q`, in order.
pub open spec fn with_pattern(t: Table, q: Seq<u8>) -> Table
    decreases t.len(),
{
    if t.len() == 0 {
        Seq::empty()
    } else if t.last().0 == q {
        with_pattern(t.drop_last(), q).push(t.last())
    } else {
        with_pattern(t.drop_last(), q)
    }
}

proof fn lemma_wp_insert(t: Table, at: int, x: (Seq<u8>, Seq<u8>), q: Seq<u8>)
    requires
        0 <= at <= t.len(),
        forall|j: int| at <= j < t.len() ==> #[trigger] t[j].0 != x.0,
    ensures
        with_pattern(t.insert(at, x), q) == if x.0 == q {
            with_pattern(t, q).push(x)
        } else {
            with_pattern(t, q)
        },
    decreases t.len(),
{
    if at == t.len() {
        assert(t.insert(at, x) =~= t.push(x));
        assert(t.push(x).drop_last() =~= t);
    } else {
        let d = t.drop_last();
        assert forall|j: int| at <= j < d.len() implies #[trigger] d[j].0 != x.0 by {
            assert(d[j] == t[j]);
        }
        lemma_wp_insert(d, at, x, q);
        assert(t.insert(at, x) =~= d.insert(at, x).push(t.last()));
        assert(d.insert(at, x).push(t.last()).drop_last() =~= d.insert(at, x));
        assert(t.last() == t[t.len() - 1]);
    }
}

proof fn lemma_lex_refl(a: Seq<u8>)
    ensures
        lex_le(a, a),
    decreases a.len(),
{
    if a.len() > 0 {
        lemma_lex_refl(a.drop_first());
    }
}

/// Whether `a` comes no later than `b` in byte-wise order.
fn bytes_le(a: &Vec<u8>, b: &Vec<u8>) -> (r: bool)
    ensures
        r == lex_le(a@, b@),
{
    let mut i: usize = 0;
    assert(a@.subrange(0, a@.len() as int) =~= a@);
    assert(b@.subrange(0, b@.len() as int) =~= b@);
    while i < a.len() && i < b.len() && a[i] == b[i]
        invariant
            i <= a@.len(),
            i <= b@.len(),
            lex_le(a@, b@) == lex_le(
                a@.subrange(i as int, a@.len() as int),
                b@.subrange(i as int, b@.len() as int),
            ),
        decreases a.len() - i,
    {
        assert(a@.subrange(i as int, a@.len() as int).drop_first() =~= a@.subrange(
            i + 1,
            a@.len() as int,
        ));
        assert(b@.subrange(i as int, b@.len() as int).drop_first() =~= b@.subrange(
            i + 1,
            b@.len() as int,
        ));
        i = i + 1;
    }
    if i == a.len() {
        true
    } else if i == b.len() {
        false
    } else {
        a[i] < b[i]
    }
}

proof fn lemma_lex_total(a: Seq<u8>, b: Seq<u8>)
    ensures
        lex_le(a, b) || lex_le(b, a),
    decreases a.len(),
{
    if a.len() > 0 && b.len() > 0 && a[0] == b[0] {
        lemma_lex_total(a.drop_first(), b.drop_first());
    }
}

proof fn lemma_lex_trans(a: Seq<u8>, b: Seq<u8>, c: Seq<u8>)
    requires
        lex_le(a, b),
        lex_le(b, c),
    ensures
        lex_le(a, c),
    decreases a.len(),
{
    if a.len() > 0 && b.len() > 0 && c.len() > 0 && a[0] == b[0] && b[0] == c[0] {
        lemma_lex_trans(a.drop_first(), b.drop_first(), c.drop_first());
    }
}

/// Byte-wise lexicographic order, the order of `str` and `String`.
pub open spec fn lex_le(a: Seq<u8>, b: Seq<u8>) -> bool
    decreases a.len(),
{
    if a.len() == 0 {
        true
    } else if b.len() == 0 {
        false
    } else if a[0] != b[0] {
        a[0] < b[0]
    } else {
        lex_le(a.drop_first(), b.drop_first())
    }
}

/// Patterns in ascending byte-wise order.
pub open spec fn sorted_table(t: Table) -> bool {
    forall|i: int, j: int| 0 <= i < j < t.len() ==> lex_le(#[trigger] t[i].0, #[trigger] t[j].0)
}

/// The byte of `p` at `k`, or -1 where `p` has ended.
pub open spec fn key_at(p: Seq<u8>, k: int) -> int {
    if 0 <= k < p.len() {
        p[k] as int
    } else {
        -1
    }
}

proof fn lemma_key_monotone(a: Seq<u8>, b: Seq<u8>, k: nat)
    requires
        lex_le(a, b),
        lcp(a, b) >= k,
    ensures
        key_at(a, k as int) <= key_at(b, k as int),
    decreases k,
{
    if k > 0 {
        lemma_key_monotone(a.drop_first(), b.drop_first(), (k - 1) as nat);
    }
}

proof fn lemma_lcp_shared(p: Seq<u8>, q: Seq<u8>, s: Seq<u8>, k: nat)
    requires
        lcp(p, s) >= k,
        lcp(q, s) >= k,
    ensures
        lcp(p, q) >= k,
    decreases k,
{
    if k > 0 {
        lemma_lcp_shared(p.drop_first(), q.drop_first(), s.drop_first(), (k - 1) as nat);
    }
}

/// Sharing one byte more with `s` is sharing `k` bytes and having the
/// next byte of `s` at `k`.
proof fn lemma_lcp_next(p: Seq<u8>, s: Seq<u8>, k: nat)
    requires
        lcp(p, s) >= k,
    ensures
        lcp(p, s) >= k + 1 <==> (k < s.len() && key_at(p, k as int) == s[k as int] as int),
    decreases k,
{
    lemma_lcp_bound(p, s);
    if k > 0 {
        lemma_lcp_next(p.drop_first(), s.drop_first(), (k - 1) as nat);
    }
}

proof fn lemma_reach(t: Table, s: Seq<u8>)
    ensures
        forall|j: int| 0 <= j < t.len() ==> lcp(#[trigger] t[j].0, s) <= reach(t, s),
        reach(t, s) == 0 || exists|j: int| 0 <= j < t.len() && lcp(#[trigger] t[j].0, s) == reach(t, s),
    decreases t.len(),
{
    if t.len() > 0 {
        lemma_reach(t.drop_last(), s);
        assert forall|j: int| 0 <= j < t.len() - 1 implies t.drop_last()[j] == t[j] by {}
        assert(t.last() == t[t.len() - 1]);
    }
}

fn key_of(p: &Vec<u8>, k: usize) -> (r: i32)
    ensures
        r == key_at(p@, k as int),
{
    if k < p.len() {
        p[k] as i32
    } else {
        -1
    }
}

/// The first place in `[lo, hi)` whose key at `k` is at least `c`, the keys
/// being ascending there.
fn lower_bound(keys: &Vec<(Vec<u8>, Vec<u8>)>, lo: usize, hi: usize, k: usize, c: i32) -> (r: usize)
    requires
        lo <= hi <= keys@.len(),
        forall|i: int, j: int|
            lo <= i <= j < hi ==> key_at(keys@[i].0@, k as int) <= key_at(keys@[j].0@, k as int),
    ensures
        lo <= r <= hi,
        forall|j: int| lo <= j < r ==> key_at(#[trigger] keys@[j].0@, k as int) < c,
        forall|j: int| r <= j < hi ==> key_at(#[trigger] keys@[j].0@, k as int) >= c,
{
    let mut a = lo;
    let mut b = hi;
    while a < b
        invariant
            lo <= a <= b <= hi <= keys@.len(),
            forall|i: int, j: int|
                lo <= i <= j < hi ==> key_at(keys@[i].0@, k as int) <= key_at(keys@[j].0@, k as int),
            forall|j: int| lo <= j < a ==> key_at(#[trigger] keys@[j].0@, k as int) < c,
            forall|j: int| b <= j < hi ==> key_at(#[trigger] keys@[j].0@, k as int) >= c,
        decreases b - a,
    {
        let mid = a + (b - a) / 2;
        if key_of(&keys[mid].0, k) < c {
            assert forall|j: int| lo <= j < mid + 1 implies key_at(#[trigger] keys@[j].0@, k as int) < c by {
                assert(key_at(keys@[j].0@, k as int) <= key_at(keys@[mid as int].0@, k as int));
            }
            a = mid + 1;
        } else {
            assert forall|j: int| mid <= j < hi implies key_at(#[trigger] keys@[j].0@, k as int) >= c by {
                assert(key_at(keys@[mid as int].0@, k as int) <= key_at(keys@[j].0@, k as int));
            }
            b = mid;
        }
    }
    a
}

/// The entry to use at `input[at..]`, if any: the pattern of maximal munch.
/// The range of patterns that share the bytes read so far is narrowed one
/// byte at a time by binary search, then searched for a pattern that ends
/// exactly where the narrowing stopped.
fn find_value(input: &[u8], at: usize, keys: &Vec<(Vec<u8>, Vec<u8>)>) -> (r: Option<usize>)
    requires
        at <= input@.len(),
        sorted_table(table_of(keys@)),
    ensures
        r matches Some(j) ==> chosen(table_of(keys@), input@.subrange(at as int, input@.len() as int)) == Some(j as int),
        r is None ==> chosen(table_of(keys@), input@.subrange(at as int, input@.len() as int)) is None,
{
    let ghost s = input@.subrange(at as int, input@.len() as int);
    let ghost t = table_of(keys@);
    let n = keys.len();
    let len = input.len();
    let rest = len - at;
    let mut lo: usize = 0;
    let mut hi: usize = n;
    let mut k: usize = 0;
    loop
        invariant
            at <= input@.len(),
            rest == s.len(),
            n == keys@.len(),
            s == input@.subrange(at as int, input@.len() as int),
            t == table_of(keys@),
            sorted_table(t),
            lo <= hi <= n,
            k <= rest,
            forall|j: int| 0 <= j < n ==> (lo <= j < hi <==> lcp(#[trigger] t[j].0, s) >= k),
            k > 0 ==> lo < hi,
            rest == input@.len() - at,
            len == input@.len(),
        ensures
            lo <= hi <= n,
            forall|j: int| 0 <= j < n ==> (lo <= j < hi <==> lcp(#[trigger] t[j].0, s) >= k),
            k > 0 ==> lo < hi,
            forall|j: int| 0 <= j < n ==> lcp(#[trigger] t[j].0, s) <= k,
        decreases rest - k,
    {
        if k == rest {
            proof {
                assert forall|j: int| 0 <= j < n implies lcp(#[trigger] t[j].0, s) <= k by {
                    lemma_lcp_bound(t[j].0, s);
                }
            }
            break;
        }
        let c = input[at + k] as i32;
        assert(c == s[k as int] as int);
        proof {
            assert forall|i: int, j: int| lo <= i <= j < hi implies key_at(keys@[i].0@, k as int)
                <= key_at(keys@[j].0@, k as int) by {
                assert(t[i].0 == keys@[i].0@);
                assert(t[j].0 == keys@[j].0@);
                if i < j {
                    assert(lex_le(t[i].0, t[j].0));
                    lemma_lcp_shared(t[i].0, t[j].0, s, k as nat);
                    lemma_key_monotone(t[i].0, t[j].0, k as nat);
                }
            }
        }
        let a = lower_bound(keys, lo, hi, k, c);
        let b = lower_bound(keys, a, hi, k, c + 1);
        proof {
            assert forall|j: int| 0 <= j < n implies (a <= j < b <==> lcp(#[trigger] t[j].0, s) >= k
                + 1) by {
                assert(t[j].0 == keys@[j].0@);
                if lcp(t[j].0, s) >= k {
                    lemma_lcp_next(t[j].0, s, k as nat);
                }
            }
        }
        if a == b {
            assert forall|j: int| 0 <= j < n implies lcp(#[trigger] t[j].0, s) <= k by {
                if lcp(t[j].0, s) >= k + 1 {
                    assert(a <= j < b);
                }
            }
            break;
        }
        lo = a;
        hi = b;
        k = k + 1;
    }
    proof {
        lemma_reach(t, s);
        if k > 0 {
            assert(lcp(t[lo as int].0, s) >= k);
        }
        assert(reach(t, s) == k);
    }
    if k == 0 {
        return None;
    }
    let mut j = lo;
    while j < hi
        invariant
            lo <= j <= hi <= n,
            n == keys@.len(),
            at <= input@.len(),
            s == input@.subrange(at as int, input@.len() as int),
            t == table_of(keys@),
            k > 0,
            reach(t, s) == k,
            forall|i: int| 0 <= i < n ==> (lo <= i < hi <==> lcp(#[trigger] t[i].0, s) >= k),
            forall|i: int| 0 <= i < j ==> !completes(#[trigger] t[i].0, s, k as nat),
        decreases hi - j,
    {
        assert(t[j as int].0 == keys@[j as int].0@);
        if keys[j].0.len() == k {
            proof {
                lemma_lcp_bound(t[j as int].0, s);
                lemma_exact(t.subrange(0, j as int), s, k as nat);
                if exact(t.subrange(0, j as int), s, k as nat) is Some {
                    let x = exact(t.subrange(0, j as int), s, k as nat)->Some_0;
                    assert(t.subrange(0, j as int)[x] == t[x]);
                }
                lemma_exact_prefix(t, s, k as nat, j as int);
            }
            return Some(j);
        }
        proof {
            assert forall|i: int| 0 <= i < j + 1 implies !completes(#[trigger] t[i].0, s, k as nat) by {
                if i == j {
                    assert(t[i].0.len() != k);
                }
            }
        }
        j = j + 1;
    }
    proof {
        lemma_exact(t, s, k as nat);
        if exact(t, s, k as nat) is Some {
            let x = exact(t, s, k as nat)->Some_0;
            if x < lo || x >= hi {
                assert(lcp(t[x].0, s) < k);
            }
        }
    }
    None
}

proof fn lemma_exact_prefix(t: Table, s: Seq<u8>, k: nat, j: int)
    requires
        0 <= j < t.len(),
        exact(t.subrange(0, j), s, k) is None,
        completes(t[j].0, s, k),
    ensures
        exact(t, s, k) == Some(j),
    decreases t.len() - j,
{
    if j == t.len() - 1 {
        assert(t.drop_last() =~= t.subrange(0, j));
    } else {
        assert(t.drop_last().subrange(0, j) =~= t.subrange(0, j));
        lemma_exact_prefix(t.drop_last(), s, k, j);
    }
}

/// Rewrites `input` in one pass: at each offset the longest run of bytes
/// that some pattern shares is taken, and where a pattern ends exactly
/// there its replacement is written and the run skipped; otherwise the byte
/// is kept. The patterns must be in ascending byte-wise order; of equal
/// patterns the first counts.
pub fn substitute(input: &[u8], keys: &Vec<(Vec<u8>, Vec<u8>)>) -> (r: Vec<u8>)
    requires
        sorted_table(table_of(keys@)),
    ensures
        r@ == substituted(input@, table_of(keys@)),
{
    let ghost t = table_of(keys@);
    let n = input.len();
    let mut out: Vec<u8> = Vec::new();
    let mut i: usize = 0;
    assert(input@.subrange(0, n as int) =~= input@);
    assert(out@ + substituted(input@, t) =~= substituted(input@, t));
    while i < n
        invariant
            0 <= i <= n,
            n == input@.len(),
            t == table_of(keys@),
            sorted_table(t),
            out@ + substituted(input@.subrange(i as int, n as int), t) == substituted(input@, t),
        decreases n - i,
    {
        let ghost s = input@.subrange(i as int, n as int);
        proof {
            lemma_chosen(t, s);
        }
        match find_value(input, i, keys) {
            Some(j) => {
                let ghost before = out@;
                let k = keys[j].0.len();
                let rep = &keys[j].1;
                let mut m: usize = 0;
                while m < rep.len()
                    invariant
                        0 <= m <= rep@.len(),
                        out@ == before + rep@.subrange(0, m as int),
                    decreases rep.len() - m,
                {
                    out.push(rep[m]);
                    m = m + 1;
                    assert(out@ =~= before + rep@.subrange(0, m as int));
                }
                assert(rep@.subrange(0, rep@.len() as int) =~= rep@);
                assert(s.subrange(k as int, s.len() as int) =~= input@.subrange(i + k, n as int));
                assert(t[j as int].1 == rep@);
                assert(out@ + substituted(input@.subrange(i + k, n as int), t) =~= before
                    + substituted(s, t));
                i = i + k;
            },
            None => {
                let ghost before = out@;
                out.push(input[i]);
                assert(s.drop_first() =~= input@.subrange(i + 1, n as int));
                assert(out@ + substituted(input@.subrange(i + 1, n as int), t) =~= before
                    + substituted(s, t));
                i = i + 1;
            },
        }
    }
    assert(input@.subrange(n as int, n as int) =~= Seq::<u8>::empty());
    assert(out@ + substituted(Seq::<u8>::empty(), t) =~= out@);
    assert(input@.subrange(0, n as int) =~= input@);
    out
}

/// Rewrites the UTF-8 bytes of `text` with the table of `data`.
pub fn parse(text: &str, data: &ParserData) -> (r: Vec<u8>)
    requires
        sorted_table(data@),
    ensures
        r@ == substituted(text.spec_bytes(), data@),
{
    substitute(text.as_bytes(), &data.keys)
}

/// Relies on String::from_utf8: the text the bytes encode where they are
/// valid UTF-8, and an error otherwise.
#[verifier::external_body]
fn text_of_utf8(b: Vec<u8>) -> (r: Option<String>)
    ensures
        r is Some <==> valid_utf8(b@),
        r matches Some(s) ==> s@ == decode_utf8(b@),
{
    String::from_utf8(b).ok()
}

/// A file name rewritten with the table of `data`; where the rewritten bytes
/// are not valid UTF-8 the name is kept as it is.
pub fn rename(name: &str, data: &ParserData) -> (r: String)
    requires
        sorted_table(data@),
    ensures
        valid_utf8(substituted(name.spec_bytes(), data@)) ==> r@ == decode_utf8(
            substituted(name.spec_bytes(), data@),
        ),
        !valid_utf8(substituted(name.spec_bytes(), data@)) ==> r@ == name@,
{
    match text_of_utf8(parse(name, data)) {
        Some(t) => t,
        None => name.to_owned(),
    }
}

/// Whether `p` occurs somewhere in `s`.
pub open spec fn occurs(p: Seq<u8>, s: Seq<u8>) -> bool {
    exists|i: int| 0 <= i && i + p.len() <= s.len() && #[trigger] s.subrange(i, i + p.len()) == p
}

/// Whether no non-empty pattern of the table occurs in `s`.
pub open spec fn free_of_patterns(s: Seq<u8>, t: Table) -> bool {
    forall|j: int| 0 <= j < t.len() && t[j].0.len() > 0 ==> !occurs(#[trigger] t[j].0, s)
}

/// Text in which no pattern occurs is left as it is.
pub proof fn lemma_substitute_free(s: Seq<u8>, t: Table)
    requires
        free_of_patterns(s, t),
    ensures
        substituted(s, t) == s,
    decreases s.len(),
{
    if s.len() > 0 {
        lemma_chosen(t, s);
        if let Some(j) = chosen(t, s) {
            assert(s.subrange(0, 0 + t[j].0.len() as int) == t[j].0);
            assert(occurs(t[j].0, s));
        } else {
            let rest = s.drop_first();
            assert forall|j: int| 0 <= j < t.len() && t[j].0.len() > 0 implies !occurs(
                #[trigger] t[j].0,
                rest,
            ) by {
                if occurs(t[j].0, rest) {
                    let i = choose|i: int|
                        0 <= i && i + t[j].0.len() <= rest.len() && #[trigger] rest.subrange(
                            i,
                            i + t[j].0.len(),
                        ) == t[j].0;
                    assert(s.subrange(i + 1, i + 1 + t[j].0.len()) =~= rest.subrange(
                        i,
                        i + t[j].0.len(),
                    ));
                }
            }
            lemma_substitute_free(rest, t);
            assert(s =~= seq![s[0]] + rest);
        }
    }
}

/// A second pass of the substitution changes nothing when no pattern
/// occurs in what the first pass wrote. (That no pattern occurs in its own
/// replacement is not enough: with `a` to `b` and `b` to `c`, the text `a`
/// becomes `b` and then `c`.)
pub proof fn lemma_substitute_idempotent(s: Seq<u8>, t: Table)
    requires
        free_of_patterns(substituted(s, t), t),
    ensures
        substituted(substituted(s, t), t) == substituted(s, t),
{
    lemma_substitute_free(substituted(s, t), t);
}

} // verus!
