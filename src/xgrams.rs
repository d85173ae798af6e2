use vstd::prelude::*;

use std::collections::HashMap;

use crate::score::sat64;

verus! {

/// The longest character sequence that is counted.
pub const MAX_GRAM: usize = 5;

/// One entry of a frequency table: a character sequence and how often it occurred.
#[derive(Debug, Clone)]
pub struct Gram {
    pub key: Vec<char>,
    pub count: u64,
}

/// One more than the largest code of a `char`, rounded up to a power of two.
pub const CHAR_RADIX: u128 = 0x200000;

/// A character sequence read as a number in base `CHAR_RADIX`, first character
/// most significant.
pub open spec fn code(s: Seq<char>) -> int
    decreases s.len(),
{
    if s.len() == 0 {
        0
    } else {
        code(s.drop_last()) * CHAR_RADIX + (s.last() as u32) as int
    }
}

/// `CHAR_RADIX` to the power `n`.
pub open spec fn radix_pow(n: nat) -> int
    decreases n,
{
    if n == 0 {
        1
    } else {
        radix_pow((n - 1) as nat) * CHAR_RADIX
    }
}

proof fn lemma_char_below_radix(c: char)
    ensures
        (c as u32) < CHAR_RADIX,
{
    vstd::utf8::char_is_scalar(c);
}

proof fn lemma_code_bound(s: Seq<char>)
    ensures
        0 <= code(s) < radix_pow(s.len()),
    decreases s.len(),
{
    if s.len() > 0 {
        lemma_code_bound(s.drop_last());
        lemma_char_below_radix(s.last());
        let p = code(s.drop_last());
        let l = radix_pow(s.drop_last().len());
        let d = (s.last() as u32) as int;
        assert(p * CHAR_RADIX + d < l * CHAR_RADIX) by (nonlinear_arith)
            requires
                0 <= p < l,
                0 <= d < CHAR_RADIX,
        ;
        assert(0 <= p * CHAR_RADIX) by (nonlinear_arith)
            requires
                0 <= p,
        ;
    }
}

proof fn lemma_code_fits(s: Seq<char>)
    requires
        s.len() <= MAX_GRAM,
    ensures
        0 <= code(s) < u128::MAX,
{
    lemma_code_bound(s);
    assert(radix_pow(0) == 1);
    assert(radix_pow(1) == 0x200000);
    assert(radix_pow(2) == 0x40000000000);
    assert(radix_pow(3) == 0x8000000000000000);
    assert(radix_pow(4) == 0x1000000000000000000000);
    assert(radix_pow(5) == 0x200000000000000000000000000);
    lemma_radix_pow_mono(s.len(), 5);
}

proof fn lemma_radix_pow_positive(n: nat)
    ensures
        radix_pow(n) >= 1,
    decreases n,
{
    if n > 0 {
        lemma_radix_pow_positive((n - 1) as nat);
    }
}

proof fn lemma_radix_pow_mono(a: nat, b: nat)
    requires
        a <= b,
    ensures
        1 <= radix_pow(a) <= radix_pow(b),
    decreases b,
{
    lemma_radix_pow_positive(a);
    if a < b {
        lemma_radix_pow_mono(a, (b - 1) as nat);
    }
}

/// Sequences of one length with equal codes are equal.
proof fn lemma_code_injective(a: Seq<char>, b: Seq<char>)
    requires
        a.len() == b.len(),
        code(a) == code(b),
    ensures
        a == b,
    decreases a.len(),
{
    if a.len() > 0 {
        lemma_char_below_radix(a.last());
        lemma_char_below_radix(b.last());
        lemma_code_bound(a.drop_last());
        lemma_code_bound(b.drop_last());
        let x = code(a);
        vstd::arithmetic::div_mod::lemma_fundamental_div_mod_converse(
            x,
            CHAR_RADIX as int,
            code(a.drop_last()),
            (a.last() as u32) as int,
        );
        vstd::arithmetic::div_mod::lemma_fundamental_div_mod_converse(
            x,
            CHAR_RADIX as int,
            code(b.drop_last()),
            (b.last() as u32) as int,
        );
        lemma_code_injective(a.drop_last(), b.drop_last());
        vstd::utf8::char_u32_cast(a.last(), a.last() as u32);
        vstd::utf8::char_u32_cast(b.last(), b.last() as u32);
        assert(a =~= a.drop_last().push(a.last()));
        assert(b =~= b.drop_last().push(b.last()));
    }
}

/// How often `k` occurs in a table: the sum of the counts of its entries with key `k`.
pub open spec fn count_in(t: Seq<Gram>, k: Seq<char>) -> nat
    decreases t.len(),
{
    if t.len() == 0 {
        0
    } else {
        count_in(t.drop_last(), k) + if t.last().key@ == k {
            t.last().count as nat
        } else {
            0
        }
    }
}

/// A table of `n`-character sequences: keys of length `n`, each at most once.
pub open spec fn table_wf(t: Seq<Gram>, n: int) -> bool {
    &&& forall|i: int| 0 <= i < t.len() ==> (#[trigger] t[i]).key@.len() == n
    &&& forall|i: int, j: int|
        0 <= i < j < t.len() ==> (#[trigger] t[i]).key@ != (#[trigger] t[j]).key@
}

proof fn lemma_count_absent(t: Seq<Gram>, k: Seq<char>)
    requires
        forall|i: int| 0 <= i < t.len() ==> (#[trigger] t[i]).key@ != k,
    ensures
        count_in(t, k) == 0,
    decreases t.len(),
{
    if t.len() > 0 {
        lemma_count_absent(t.drop_last(), k);
    }
}

proof fn lemma_count_at(t: Seq<Gram>, i: int, k: Seq<char>)
    requires
        0 <= i < t.len(),
        t[i].key@ == k,
        forall|a: int, b: int|
            0 <= a < b < t.len() ==> (#[trigger] t[a]).key@ != (#[trigger] t[b]).key@,
    ensures
        count_in(t, k) == t[i].count,
    decreases t.len(),
{
    if i == t.len() - 1 {
        assert forall|j: int| 0 <= j < t.drop_last().len() implies (#[trigger] t.drop_last()[j]).key@
            != k by {
            assert(t[j].key@ != t[i].key@);
        }
        lemma_count_absent(t.drop_last(), k);
    } else {
        lemma_count_at(t.drop_last(), i, k);
        assert(t.last().key@ != k) by {
            assert(t[i].key@ != t[t.len() - 1].key@);
        }
    }
}

proof fn lemma_count_bounded(t: Seq<Gram>, n: int, k: Seq<char>)
    requires
        table_wf(t, n),
    ensures
        count_in(t, k) <= u64::MAX,
{
    if exists|i: int| 0 <= i < t.len() && t[i].key@ == k {
        let i = choose|i: int| 0 <= i < t.len() && t[i].key@ == k;
        lemma_count_at(t, i, k);
    } else {
        lemma_count_absent(t, k);
    }
}

proof fn lemma_count_update(t: Seq<Gram>, i: int, g: Gram, k: Seq<char>)
    requires
        0 <= i < t.len(),
        g.key@ == t[i].key@,
    ensures
        count_in(t.update(i, g), k) == if t[i].key@ == k {
            count_in(t, k) - t[i].count + g.count
        } else {
            count_in(t, k) as int
        },
    decreases t.len(),
{
    if i < t.len() - 1 {
        lemma_count_update(t.drop_last(), i, g, k);
        assert(t.update(i, g).drop_last() =~= t.drop_last().update(i, g));
    } else {
        assert(t.update(i, g).drop_last() =~= t.drop_last());
    }
}

/// True iff `a` and `b` hold the same characters.
fn same_chars(a: &Vec<char>, b: &Vec<char>) -> (r: bool)
    ensures
        r == (a@ == b@),
{
    if a.len() != b.len() {
        return false;
    }
    let mut i: usize = 0;
    while i < a.len()
        invariant
            a@.len() == b@.len(),
            i <= a@.len(),
            forall|j: int| 0 <= j < i ==> a@[j] == b@[j],
        decreases a@.len() - i,
    {
        if a[i] != b[i] {
            return false;
        }
        i = i + 1;
    }
    assert(a@ =~= b@);
    true
}

/// A frequency table: its entries, and where the entry of each key stands, found
/// by the key's `code`.
#[derive(Debug)]
pub struct Table {
    pub entries: Vec<Gram>,
    pub index: HashMap<u128, usize>,
}

impl Table {
    /// A table of distinct `n`-character keys whose index finds every entry.
    pub open spec fn wf(&self, n: int) -> bool {
        &&& 1 <= n <= MAX_GRAM
        &&& table_wf(self.entries@, n)
        &&& forall|i: int|
            0 <= i < self.entries@.len() ==> {
                let c = code((#[trigger] self.entries@[i]).key@) as u128;
                &&& self.index@.contains_key(c)
                &&& self.index@[c] as int == i
            }
    }

    /// An empty table.
    pub fn new() -> (r: Table)
        ensures
            r.entries@.len() == 0,
            forall|n: int| 1 <= n <= MAX_GRAM ==> r.wf(n),
    {
        Table { entries: Vec::new(), index: HashMap::new() }
    }

    /// A table of the entries `entries`; `None` unless their keys are of length
    /// `n`, each at most once.
    pub fn from_entries(entries: Vec<Gram>, n: usize) -> (r: Option<Table>)
        requires
            1 <= n <= MAX_GRAM,
        ensures
            r is Some <==> table_wf(entries@, n as int),
            r matches Some(t) ==> t.wf(n as int) && t.entries@ == entries@,
    {
        broadcast use vstd::std_specs::hash::group_hash_axioms;

        let mut index: HashMap<u128, usize> = HashMap::new();
        let mut i: usize = 0;
        while i < entries.len()
            invariant
                1 <= n <= MAX_GRAM,
                i <= entries@.len(),
                table_wf(entries@.subrange(0, i as int), n as int),
                forall|j: int|
                    0 <= j < i ==> {
                        let c = code((#[trigger] entries@[j]).key@) as u128;
                        &&& index@.contains_key(c)
                        &&& index@[c] as int == j
                    },
                forall|c: u128|
                    #[trigger] index@.contains_key(c) ==> index@[c] < i && code(
                        entries@[index@[c] as int].key@,
                    ) == c as int,
            decreases entries@.len() - i,
        {
            if entries[i].key.len() != n {
                assert(entries@.subrange(0, i as int + 1)[i as int] == entries@[i as int]);
                return None;
            }
            let c = key_code(&entries[i].key);
            if index.contains_key(&c) {
                proof {
                    let j = index@[c] as int;
                    assert(entries@[j].key@.len() == n) by {
                        assert(entries@.subrange(0, i as int)[j] == entries@[j]);
                    }
                    lemma_code_injective(entries@[j].key@, entries@[i as int].key@);
                    let p = entries@.subrange(0, i as int + 1);
                    assert(p[j] == entries@[j] && p[i as int] == entries@[i as int]);
                }
                return None;
            }
            let ghost before = index@;
            index.insert(c, i);
            proof {
                let p = entries@.subrange(0, i as int + 1);
                assert forall|a: int, b: int| 0 <= a < b < p.len() implies (#[trigger] p[a]).key@
                    != (#[trigger] p[b]).key@ by {
                    if b < i {
                        assert(entries@.subrange(0, i as int)[a] == p[a]);
                        assert(entries@.subrange(0, i as int)[b] == p[b]);
                    } else {
                        assert(entries@.subrange(0, i as int)[a] == p[a]);
                        assert(before.contains_key(code(p[a].key@) as u128));
                    }
                }
                assert forall|a: int| 0 <= a < p.len() implies (#[trigger] p[a]).key@.len() == n by {
                    if a < i {
                        assert(entries@.subrange(0, i as int)[a] == p[a]);
                    }
                }
                assert forall|j: int| 0 <= j < i + 1 implies {
                    let cj = code((#[trigger] entries@[j]).key@) as u128;
                    &&& index@.contains_key(cj)
                    &&& index@[cj] as int == j
                } by {
                    if j < i {
                        assert(before.contains_key(code(entries@[j].key@) as u128));
                    }
                }
            }
            i = i + 1;
        }
        assert(entries@.subrange(0, entries@.len() as int) =~= entries@);
        Some(Table { entries, index })
    }
}

/// The `code` of a key of at most `MAX_GRAM` characters.
fn key_code(k: &Vec<char>) -> (r: u128)
    requires
        k@.len() <= MAX_GRAM,
    ensures
        r as int == code(k@),
{
    let mut acc: u128 = 0;
    let mut i: usize = 0;
    while i < k.len()
        invariant
            i <= k@.len() <= MAX_GRAM,
            acc as int == code(k@.subrange(0, i as int)),
        decreases k@.len() - i,
    {
        proof {
            let next = k@.subrange(0, i + 1);
            assert(next.drop_last() =~= k@.subrange(0, i as int));
            lemma_code_fits(next);
            lemma_code_bound(k@.subrange(0, i as int));
            lemma_char_below_radix(k@[i as int]);
        }
        acc = acc * CHAR_RADIX + (k[i] as u32) as u128;
        i = i + 1;
    }
    assert(k@.subrange(0, k@.len() as int) =~= k@);
    acc
}

/// The index of the entry of `t` with key `k`, if there is one.
fn find(t: &Table, k: &Vec<char>, Ghost(n): Ghost<int>) -> (r: Option<usize>)
    requires
        t.wf(n),
        k@.len() == n,
    ensures
        r matches Some(i) ==> i < t.entries@.len() && t.entries@[i as int].key@ == k@,
        r is None ==> forall|i: int|
            0 <= i < t.entries@.len() ==> (#[trigger] t.entries@[i]).key@ != k@,
{
    broadcast use vstd::std_specs::hash::group_hash_axioms;

    let c = key_code(k);
    match t.index.get(&c) {
        Some(i) => {
            let i = *i;
            if i < t.entries.len() && same_chars(&t.entries[i].key, k) {
                return Some(i);
            }
        },
        None => {},
    }
    proof {
        lemma_code_fits(k@);
        assert forall|j: int| 0 <= j < t.entries@.len() implies (#[trigger] t.entries@[j]).key@
            != k@ by {
            if t.entries@[j].key@ == k@ {
                assert(t.index@.contains_key(code(t.entries@[j].key@) as u128));
            }
        }
    }
    None
}

/// Adds `c` occurrences of `k` to the table `t`; the count stops at `u64::MAX`.
pub fn add_count(t: &mut Table, k: Vec<char>, c: u64)
    requires
        old(t).wf(k@.len() as int),
    ensures
        final(t).wf(k@.len() as int),
        forall|q: Seq<char>|
            #[trigger] count_in(final(t).entries@, q) == if q == k@ {
                sat64(count_in(old(t).entries@, q) + c)
            } else {
                count_in(old(t).entries@, q) as int
            },
{
    broadcast use vstd::std_specs::hash::group_hash_axioms;

    let ghost n = k@.len() as int;
    match find(t, &k, Ghost(n)) {
        Some(i) => {
            proof {
                lemma_count_at(t.entries@, i as int, k@);
            }
            let old_count = t.entries[i].count;
            let ghost g = Gram { key: t.entries@[i as int].key, count: old_count.saturating_add(c) };
            t.entries[i].count = old_count.saturating_add(c);
            proof {
                assert(t.entries@ == old(t).entries@.update(i as int, g));
                assert forall|q: Seq<char>|
                    #[trigger] count_in(t.entries@, q) == if q == k@ {
                        sat64(count_in(old(t).entries@, q) + c)
                    } else {
                        count_in(old(t).entries@, q) as int
                    } by {
                    lemma_count_update(old(t).entries@, i as int, g, q);
                }
                assert forall|a: int, b: int| 0 <= a < b < t.entries@.len() implies (
                #[trigger] t.entries@[a]).key@ != (#[trigger] t.entries@[b]).key@ by {
                    assert(old(t).entries@[a].key@ != old(t).entries@[b].key@);
                }
                assert forall|a: int| 0 <= a < t.entries@.len() implies (
                #[trigger] t.entries@[a]).key@.len() == n by {
                    assert(old(t).entries@[a].key@.len() == n);
                }
                assert forall|a: int| 0 <= a < t.entries@.len() implies {
                    let ca = code((#[trigger] t.entries@[a]).key@) as u128;
                    &&& t.index@.contains_key(ca)
                    &&& t.index@[ca] as int == a
                } by {
                    assert(old(t).entries@[a].key@ == t.entries@[a].key@);
                }
            }
        },
        None => {
            proof {
                lemma_count_absent(t.entries@, k@);
                lemma_code_fits(k@);
            }
            let code_k = key_code(&k);
            let len = t.entries.len();
            let ghost kk = k@;
            t.entries.push(Gram { key: k, count: c });
            t.index.insert(code_k, len);
            proof {
                assert(t.entries@.drop_last() == old(t).entries@);
                assert forall|a: int, b: int| 0 <= a < b < t.entries@.len() implies (
                #[trigger] t.entries@[a]).key@ != (#[trigger] t.entries@[b]).key@ by {
                    if b < t.entries@.len() - 1 {
                        assert(old(t).entries@[a].key@ != old(t).entries@[b].key@);
                    } else {
                        assert(old(t).entries@[a].key@ != kk);
                    }
                }
                assert forall|a: int| 0 <= a < t.entries@.len() implies (
                #[trigger] t.entries@[a]).key@.len() == n by {
                    if a < t.entries@.len() - 1 {
                        assert(old(t).entries@[a].key@.len() == n);
                    }
                }
                assert forall|a: int| 0 <= a < t.entries@.len() implies {
                    let ca = code((#[trigger] t.entries@[a]).key@) as u128;
                    &&& t.index@.contains_key(ca)
                    &&& t.index@[ca] as int == a
                } by {
                    if a < len {
                        let ka = old(t).entries@[a].key@;
                        assert(ka.len() == n);
                        assert(old(t).index@.contains_key(code(ka) as u128));
                        if code(ka) == code(kk) {
                            lemma_code_injective(ka, kk);
                        }
                        lemma_code_fits(ka);
                    }
                }
            }
        },
    }
}

/// Adds every entry of `src` to `dst`; counts stop at `u64::MAX`.
fn merge_table(dst: &mut Table, src: &Table, Ghost(n): Ghost<int>)
    requires
        old(dst).wf(n),
        src.wf(n),
    ensures
        final(dst).wf(n),
        forall|q: Seq<char>|
            #[trigger] count_in(final(dst).entries@, q) == sat64(
                count_in(old(dst).entries@, q) + count_in(src.entries@, q) as int,
            ),
{
    assert forall|q: Seq<char>| #[trigger] count_in(old(dst).entries@, q) <= u64::MAX by {
        lemma_count_bounded(old(dst).entries@, n, q);
    }
    assert(src.entries@.subrange(0, 0) =~= Seq::<Gram>::empty());
    let mut i: usize = 0;
    while i < src.entries.len()
        invariant
            i <= src.entries@.len(),
            forall|q: Seq<char>| #[trigger] count_in(old(dst).entries@, q) <= u64::MAX,
            dst.wf(n),
            src.wf(n),
            forall|q: Seq<char>|
                #[trigger] count_in(dst.entries@, q) == sat64(
                    count_in(old(dst).entries@, q) + count_in(
                        src.entries@.subrange(0, i as int),
                        q,
                    ) as int,
                ),
        decreases src.entries@.len() - i,
    {
        let key = src.entries[i].key.clone();
        proof {
            let s = src.entries@;
            assert(s.subrange(0, i + 1).drop_last() =~= s.subrange(0, i as int));
            assert forall|j: int| 0 <= j < s.subrange(0, i as int).len() implies (
            #[trigger] s.subrange(0, i as int)[j]).key@ != s[i as int].key@ by {
                assert(s[j].key@ != s[i as int].key@);
            }
            lemma_count_absent(s.subrange(0, i as int), s[i as int].key@);
        }
        add_count(dst, key, src.entries[i].count);
        i = i + 1;
    }
    assert(src.entries@.subrange(0, src.entries@.len() as int) =~= src.entries@);
}

/// `q` is a suffix of `s`.
pub open spec fn ends_with(s: Seq<char>, q: Seq<char>) -> bool {
    q.len() <= s.len() && s.subrange(s.len() - q.len(), s.len() as int) == q
}

/// The last `n` characters of `s`, or all of them where it has fewer.
pub open spec fn last_n(s: Seq<char>, n: int) -> Seq<char> {
    if s.len() <= n {
        s
    } else {
        s.subrange(s.len() - n, s.len() as int)
    }
}

/// How many times `q` occurs in `text`, overlapping occurrences included.
pub open spec fn occurrences(text: Seq<char>, q: Seq<char>) -> nat
    decreases text.len(),
{
    if text.len() == 0 {
        0
    } else {
        occurrences(text.drop_last(), q) + if ends_with(text, q) {
            1nat
        } else {
            0nat
        }
    }
}

proof fn lemma_ends_with_last_n(s: Seq<char>, q: Seq<char>)
    requires
        counted_len(q),
    ensures
        ends_with(last_n(s, MAX_GRAM as int), q) == ends_with(s, q),
{
    if s.len() > MAX_GRAM && q.len() <= s.len() {
        let w = last_n(s, MAX_GRAM as int);
        assert(w.subrange(w.len() - q.len(), w.len() as int) =~= s.subrange(
            s.len() - q.len(),
            s.len() as int,
        ));
    }
}

proof fn lemma_last_n_push(s: Seq<char>, c: char)
    ensures
        last_n(last_n(s, MAX_GRAM as int).push(c), MAX_GRAM as int) == last_n(s.push(c), MAX_GRAM as int),
{
    assert(last_n(last_n(s, MAX_GRAM as int).push(c), MAX_GRAM as int) =~= last_n(s.push(c), MAX_GRAM as int));
}

/// Counts once more the `n`-character suffix of `w`, if `w` is that long.
fn bump_suffix(t: &mut Table, w: &Vec<char>, n: usize)
    requires
        old(t).wf(n as int),
    ensures
        final(t).wf(n as int),
        forall|q: Seq<char>|
            #[trigger] count_in(final(t).entries@, q) == if q.len() == n && ends_with(w@, q) {
                sat64(count_in(old(t).entries@, q) as int + 1)
            } else {
                count_in(old(t).entries@, q) as int
            },
{
    if w.len() >= n {
        let mut key: Vec<char> = Vec::new();
        let start = w.len() - n;
        let mut j: usize = start;
        while j < w.len()
            invariant
                start == w@.len() - n,
                start <= j <= w@.len(),
                key@ == w@.subrange(start as int, j as int),
            decreases w@.len() - j,
        {
            key.push(w[j]);
            j = j + 1;
        }
        add_count(t, key, 1);
    } else {
        assert forall|q: Seq<char>| #[trigger] count_in(t.entries@, q) == if q.len() == n
            && ends_with(w@, q) {
            sat64(count_in(old(t).entries@, q) as int + 1)
        } else {
            count_in(old(t).entries@, q) as int
        } by {}
    }
}

/// Sum of the counts of `q` over a sequence of tables.
pub open spec fn total_count(parts: Seq<Xgrams>, q: Seq<char>) -> nat
    decreases parts.len(),
{
    if parts.len() == 0 {
        0
    } else {
        total_count(parts.drop_last(), q) + parts.last().count(q)
    }
}

/// Stands for a space in counted text.
pub const SPACE_MARK: char = '_';

/// Stands for the shift key before a lowercased capital.
pub const SHIFT_MARK: char = '#';

/// What `char::is_alphanumeric` returns.
pub uninterp spec fn alphanumeric(c: char) -> bool;

/// What `char::is_numeric` returns.
pub uninterp spec fn numeric(c: char) -> bool;

/// What `char::is_uppercase` returns.
pub uninterp spec fn uppercase(c: char) -> bool;

/// The characters that `char::to_lowercase` yields.
pub uninterp spec fn lowercase(c: char) -> Seq<char>;

/// Relies on `char::is_alphanumeric`, a function of the character alone.
#[verifier::external_body]
fn is_alphanumeric(c: char) -> (r: bool)
    ensures
        r == alphanumeric(c),
{
    c.is_alphanumeric()
}

/// Relies on `char::is_numeric`, a function of the character alone.
#[verifier::external_body]
fn is_numeric(c: char) -> (r: bool)
    ensures
        r == numeric(c),
{
    c.is_numeric()
}

/// Relies on `char::is_uppercase`, a function of the character alone.
#[verifier::external_body]
fn is_uppercase(c: char) -> (r: bool)
    ensures
        r == uppercase(c),
{
    c.is_uppercase()
}

/// Relies on `char::to_lowercase`, a function of the character alone; its
/// characters are collected in the order it yields them.
#[verifier::external_body]
fn to_lowercase(c: char) -> (r: Vec<char>)
    ensures
        r@ == lowercase(c),
{
    c.to_lowercase().collect()
}

/// What one input character is counted as, given what the character tests say of
/// it: a space becomes `SPACE_MARK`; a character that is not alphanumeric, or is
/// numeric, is dropped; a capital becomes `SHIFT_MARK` and its lowercase form.
pub open spec fn clean_with(c: char, alnum: bool, num: bool, upper: bool, lower: Seq<char>) -> Seq<
    char,
> {
    if c == ' ' {
        seq![SPACE_MARK]
    } else if !alnum || num {
        Seq::empty()
    } else if upper {
        seq![SHIFT_MARK] + lower
    } else {
        seq![c]
    }
}

/// What one input character is counted as.
pub open spec fn clean(c: char) -> Seq<char> {
    clean_with(c, alphanumeric(c), numeric(c), uppercase(c), lowercase(c))
}

/// What a text is counted as: its characters cleaned one by one, in order.
pub open spec fn normalized(text: Seq<char>) -> Seq<char>
    decreases text.len(),
{
    if text.len() == 0 {
        Seq::empty()
    } else {
        normalized(text.drop_last()) + clean(text.last())
    }
}

/// What `c` is counted as, given the results of the character tests on it.
pub fn clean_char(c: char, alnum: bool, num: bool, upper: bool, lower: &Vec<char>) -> (r: Vec<
    char,
>)
    ensures
        r@ == clean_with(c, alnum, num, upper, lower@),
{
    let mut out: Vec<char> = Vec::new();
    if c == ' ' {
        out.push(SPACE_MARK);
    } else if !alnum || num {
    } else if upper {
        out.push(SHIFT_MARK);
        let mut i: usize = 0;
        while i < lower.len()
            invariant
                i <= lower@.len(),
                out@ == seq![SHIFT_MARK] + lower@.subrange(0, i as int),
            decreases lower@.len() - i,
        {
            out.push(lower[i]);
            i = i + 1;
            assert(out@ =~= seq![SHIFT_MARK] + lower@.subrange(0, i as int));
        }
        assert(lower@.subrange(0, lower@.len() as int) =~= lower@);
    } else {
        out.push(c);
    }
    assert(out@ =~= clean_with(c, alnum, num, upper, lower@));
    out
}

/// The characters that `text` is counted as.
pub fn normalize(text: &Vec<char>) -> (r: Vec<char>)
    ensures
        r@ == normalized(text@),
{
    let mut out: Vec<char> = Vec::new();
    let mut i: usize = 0;
    while i < text.len()
        invariant
            i <= text@.len(),
            out@ == normalized(text@.subrange(0, i as int)),
        decreases text@.len() - i,
    {
        let c = text[i];
        let lower = to_lowercase(c);
        let cleaned = clean_char(c, is_alphanumeric(c), is_numeric(c), is_uppercase(c), &lower);
        let mut j: usize = 0;
        let ghost before = out@;
        while j < cleaned.len()
            invariant
                j <= cleaned@.len(),
                out@ == before + cleaned@.subrange(0, j as int),
            decreases cleaned@.len() - j,
        {
            out.push(cleaned[j]);
            j = j + 1;
            assert(out@ =~= before + cleaned@.subrange(0, j as int));
        }
        proof {
            assert(cleaned@.subrange(0, cleaned@.len() as int) =~= cleaned@);
            assert(text@.subrange(0, i + 1).drop_last() =~= text@.subrange(0, i as int));
        }
        i = i + 1;
    }
    assert(text@.subrange(0, text@.len() as int) =~= text@);
    out
}

/// The CRC-32 checksum of a byte sequence.
pub uninterp spec fn crc32_of(b: Seq<u8>) -> u32;

/// Relies on `crc32fast::hash`: the CRC-32 checksum of the bytes, a function of
/// the bytes alone.
#[verifier::external_body]
fn crc32(b: &[u8]) -> (r: u32)
    ensures
        r == crc32_of(b@),
{
    crc32fast::hash(b)
}

/// The decimal digits of `n`, as ASCII bytes.
pub open spec fn decimal(n: nat) -> Seq<u8>
    decreases n,
{
    if n < 10 {
        seq![(48 + n) as u8]
    } else {
        decimal(n / 10).push((48 + n % 10) as u8)
    }
}

/// All of the byte strings of `s`, one after another.
pub open spec fn concat_all(s: Seq<Vec<u8>>) -> Seq<u8>
    decreases s.len(),
{
    if s.len() == 0 {
        Seq::empty()
    } else {
        concat_all(s.drop_last()) + s.last()@
    }
}

/// What a corpus fingerprint is taken of: its file paths, its directory and its
/// size in bytes, in decimal.
pub open spec fn fingerprint_base(paths: Seq<Vec<u8>>, dir: Seq<u8>, size: nat) -> Seq<u8> {
    concat_all(paths) + dir + decimal(size)
}

/// Appends the decimal digits of `n` to `out`.
fn push_decimal(out: &mut Vec<u8>, n: u64)
    ensures
        final(out)@ == old(out)@ + decimal(n as nat),
    decreases n,
{
    if n >= 10 {
        push_decimal(out, n / 10);
    }
    out.push((48 + n % 10) as u8);
    assert(out@ =~= old(out)@ + decimal(n as nat));
}

/// The fingerprint under which the tables of a corpus are cached: the checksum of
/// its file paths, its directory and its total size in bytes.
pub fn cache_checksum(paths: &Vec<Vec<u8>>, dir: &Vec<u8>, size: u64) -> (r: u32)
    ensures
        r == crc32_of(fingerprint_base(paths@, dir@, size as nat)),
{
    let mut base: Vec<u8> = Vec::new();
    let mut i: usize = 0;
    while i < paths.len()
        invariant
            i <= paths@.len(),
            base@ == concat_all(paths@.subrange(0, i as int)),
        decreases paths@.len() - i,
    {
        let p = &paths[i];
        let ghost before = base@;
        let mut j: usize = 0;
        while j < p.len()
            invariant
                j <= p@.len(),
                base@ == before + p@.subrange(0, j as int),
            decreases p@.len() - j,
        {
            base.push(p[j]);
            j = j + 1;
            assert(base@ =~= before + p@.subrange(0, j as int));
        }
        proof {
            assert(p@.subrange(0, p@.len() as int) =~= p@);
            assert(paths@.subrange(0, i + 1).drop_last() =~= paths@.subrange(0, i as int));
        }
        i = i + 1;
    }
    assert(paths@.subrange(0, paths@.len() as int) =~= paths@);
    let ghost with_paths = base@;
    let mut k: usize = 0;
    while k < dir.len()
        invariant
            k <= dir@.len(),
            base@ == with_paths + dir@.subrange(0, k as int),
        decreases dir@.len() - k,
    {
        base.push(dir[k]);
        k = k + 1;
        assert(base@ =~= with_paths + dir@.subrange(0, k as int));
    }
    assert(dir@.subrange(0, dir@.len() as int) =~= dir@);
    push_decimal(&mut base, size);
    assert(base@ =~= fingerprint_base(paths@, dir@, size as nat));
    crc32(base.as_slice())
}

proof fn lemma_total_remove(s: Seq<Xgrams>, j: int, q: Seq<char>)
    requires
        0 <= j < s.len(),
    ensures
        total_count(s, q) == total_count(s.remove(j), q) + s[j].count(q),
    decreases s.len(),
{
    if j < s.len() - 1 {
        lemma_total_remove(s.drop_last(), j, q);
        assert(s.remove(j).drop_last() =~= s.drop_last().remove(j));
    } else {
        assert(s.remove(j) =~= s.drop_last());
    }
}

/// Merging per-file tables does not depend on the order of the files: any
/// rearrangement of the same tables adds up to the same count of every sequence,
/// so `Xgrams::sum` gives the same tables for every order.
pub proof fn lemma_merge_order_free(parts: Seq<Xgrams>, reordered: Seq<Xgrams>, q: Seq<char>)
    requires
        reordered.to_multiset() == parts.to_multiset(),
    ensures
        total_count(parts, q) == total_count(reordered, q),
    decreases parts.len(),
{
    broadcast use vstd::multiset::group_multiset_axioms;

    vstd::seq_lib::to_multiset_len(parts);
    vstd::seq_lib::to_multiset_len(reordered);
    if parts.len() > 0 {
        let x = parts.last();
        let n = parts.len() - 1;
        assert(parts.contains(x)) by {
            assert(parts[n] == x);
        }
        vstd::seq_lib::to_multiset_contains(parts, x);
        vstd::seq_lib::to_multiset_contains(reordered, x);
        let j = choose|j: int| 0 <= j < reordered.len() && reordered[j] == x;
        vstd::seq_lib::to_multiset_remove(parts, n);
        vstd::seq_lib::to_multiset_remove(reordered, j);
        assert(parts.remove(n) =~= parts.drop_last());
        lemma_merge_order_free(parts.drop_last(), reordered.remove(j), q);
        lemma_total_remove(reordered, j, q);
    }
}

/// A sequence length that is counted.
pub open spec fn counted_len(q: Seq<char>) -> bool {
    1 <= q.len() <= MAX_GRAM
}

/// The five frequency tables of a text, and the window of its last characters.
///
/// `xn` counts the sequences of `n` consecutive characters; `stack` holds the last
/// `MAX_GRAM` characters added, oldest first.
#[derive(Debug)]
pub struct Xgrams {
    pub x1: Table,
    pub x2: Table,
    pub x3: Table,
    pub x4: Table,
    pub x5: Table,
    pub stack: Vec<char>,
}

impl Xgrams {
    pub open spec fn wf(&self) -> bool {
        &&& self.x1.wf(1)
        &&& self.x2.wf(2)
        &&& self.x3.wf(3)
        &&& self.x4.wf(4)
        &&& self.x5.wf(5)
        &&& self.stack@.len() <= MAX_GRAM
    }

    /// The table of `n`-character sequences.
    pub open spec fn table(&self, n: int) -> Seq<Gram> {
        if n == 1 {
            self.x1.entries@
        } else if n == 2 {
            self.x2.entries@
        } else if n == 3 {
            self.x3.entries@
        } else if n == 4 {
            self.x4.entries@
        } else {
            self.x5.entries@
        }
    }

    /// How often the sequence `q` was counted; 0 for a length that is not counted.
    pub open spec fn count(&self, q: Seq<char>) -> nat {
        if counted_len(q) {
            count_in(self.table(q.len() as int), q)
        } else {
            0
        }
    }

    /// Empty tables and an empty window.
    pub fn new() -> (r: Xgrams)
        ensures
            r.wf(),
            r.stack@.len() == 0,
            forall|q: Seq<char>| #[trigger] r.count(q) == 0,
    {
        Xgrams {
            x1: Table::new(),
            x2: Table::new(),
            x3: Table::new(),
            x4: Table::new(),
            x5: Table::new(),
            stack: Vec::new(),
        }
    }

    /// How often the sequence `key` was counted.
    pub fn count_of(&self, key: &Vec<char>) -> (r: u64)
        requires
            self.wf(),
        ensures
            r == self.count(key@),
    {
        let n = key.len();
        if n < 1 || n > MAX_GRAM {
            return 0;
        }
        let t = if n == 1 {
            &self.x1
        } else if n == 2 {
            &self.x2
        } else if n == 3 {
            &self.x3
        } else if n == 4 {
            &self.x4
        } else {
            &self.x5
        };
        match find(t, key, Ghost(n as int)) {
            Some(i) => {
                proof {
                    lemma_count_at(t.entries@, i as int, key@);
                }
                t.entries[i].count
            },
            None => {
                proof {
                    lemma_count_absent(t.entries@, key@);
                }
                0
            },
        }
    }

    /// Adds `c` to the window and counts once more each sequence that now ends the
    /// window: the last character, the last two, and so on up to `MAX_GRAM`.
    pub fn add_char(&mut self, c: char)
        requires
            old(self).wf(),
        ensures
            final(self).wf(),
            final(self).stack@ == last_n(old(self).stack@.push(c), MAX_GRAM as int),
            forall|q: Seq<char>|
                counted_len(q) ==> #[trigger] final(self).count(q) == if ends_with(
                    final(self).stack@,
                    q,
                ) {
                    sat64(old(self).count(q) as int + 1)
                } else {
                    old(self).count(q) as int
                },
    {
        self.stack.push(c);
        if self.stack.len() > MAX_GRAM {
            self.stack.remove(0);
        }
        assert(self.stack@ =~= last_n(old(self).stack@.push(c), MAX_GRAM as int));
        bump_suffix(&mut self.x1, &self.stack, 1);
        bump_suffix(&mut self.x2, &self.stack, 2);
        bump_suffix(&mut self.x3, &self.stack, 3);
        bump_suffix(&mut self.x4, &self.stack, 4);
        bump_suffix(&mut self.x5, &self.stack, 5);
    }

    /// The tables of a text whose characters are counted as they stand.
    pub fn from_normalized(text: &Vec<char>) -> (r: Xgrams)
        ensures
            r.wf(),
            forall|q: Seq<char>|
                counted_len(q) ==> #[trigger] r.count(q) == sat64(occurrences(text@, q) as int),
    {
        let mut x = Xgrams::new();
        let mut i: usize = 0;
        while i < text.len()
            invariant
                i <= text@.len(),
                x.wf(),
                x.stack@ == last_n(text@.subrange(0, i as int), MAX_GRAM as int),
                forall|q: Seq<char>|
                    counted_len(q) ==> #[trigger] x.count(q) == sat64(
                        occurrences(text@.subrange(0, i as int), q) as int,
                    ),
            decreases text@.len() - i,
        {
            let ghost done = text@.subrange(0, i as int);
            x.add_char(text[i]);
            proof {
                let next = text@.subrange(0, i + 1);
                assert(next =~= done.push(text@[i as int]));
                assert(next.drop_last() =~= done);
                lemma_last_n_push(done, text@[i as int]);
                assert forall|q: Seq<char>| counted_len(q) implies #[trigger] x.count(q) == sat64(
                    occurrences(next, q) as int,
                ) by {
                    lemma_ends_with_last_n(next, q);
                }
            }
            i = i + 1;
        }
        assert(text@.subrange(0, text@.len() as int) =~= text@);
        x
    }

    /// The tables of `self` and `other` added key by key, with an empty window.
    pub fn merge(self, other: Xgrams) -> (r: Xgrams)
        requires
            self.wf(),
            other.wf(),
        ensures
            r.wf(),
            r.stack@.len() == 0,
            forall|q: Seq<char>|
                #[trigger] r.count(q) == sat64(self.count(q) + other.count(q) as int),
    {
        let mut out = self;
        merge_table(&mut out.x1, &other.x1, Ghost(1));
        merge_table(&mut out.x2, &other.x2, Ghost(2));
        merge_table(&mut out.x3, &other.x3, Ghost(3));
        merge_table(&mut out.x4, &other.x4, Ghost(4));
        merge_table(&mut out.x5, &other.x5, Ghost(5));
        out.stack = Vec::new();
        out
    }

    /// The tables of all of `parts` added key by key.
    pub fn sum(parts: Vec<Xgrams>) -> (r: Xgrams)
        requires
            forall|i: int| 0 <= i < parts@.len() ==> (#[trigger] parts@[i]).wf(),
        ensures
            r.wf(),
            r.stack@.len() == 0,
            forall|q: Seq<char>| #[trigger] r.count(q) == sat64(total_count(parts@, q) as int),
    {
        let ghost all = parts@;
        let n = parts.len();
        let mut rest = parts;
        let mut acc = Xgrams::new();
        let mut i: usize = 0;
        while rest.len() > 0
            invariant
                i <= all.len(),
                n == all.len(),
                rest@ == all.subrange(i as int, all.len() as int),
                forall|j: int| 0 <= j < all.len() ==> (#[trigger] all[j]).wf(),
                acc.wf(),
                acc.stack@.len() == 0,
                forall|q: Seq<char>|
                    #[trigger] acc.count(q) == sat64(
                        total_count(all.subrange(0, i as int), q) as int,
                    ),
            decreases rest@.len(),
        {
            let part = rest.remove(0);
            proof {
                assert(part == all[i as int]);
                assert(all.subrange(0, i + 1).drop_last() =~= all.subrange(0, i as int));
            }
            acc = acc.merge(part);
            i = i + 1;
            proof {
                assert(rest@ =~= all.subrange(i as int, all.len() as int));
            }
        }
        assert(all.subrange(0, all.len() as int) =~= all);
        acc
    }

    /// The tables of a text, counted after each character is cleaned.
    pub fn from_chars(text: &Vec<char>) -> (r: Xgrams)
        ensures
            r.wf(),
            forall|q: Seq<char>|
                counted_len(q) ==> #[trigger] r.count(q) == sat64(
                    occurrences(normalized(text@), q) as int,
                ),
    {
        let cleaned = normalize(text);
        Xgrams::from_normalized(&cleaned)
    }

    /// Tables read back from a stored copy, with an empty window; `None` unless
    /// each table holds keys of its length only, each at most once.
    pub fn from_tables(
        x1: Vec<Gram>,
        x2: Vec<Gram>,
        x3: Vec<Gram>,
        x4: Vec<Gram>,
        x5: Vec<Gram>,
    ) -> (r: Option<Xgrams>)
        ensures
            r is Some <==> (table_wf(x1@, 1) && table_wf(x2@, 2) && table_wf(x3@, 3)
                && table_wf(x4@, 4) && table_wf(x5@, 5)),
            r matches Some(x) ==> x.wf() && x.x1.entries@ == x1@ && x.x2.entries@ == x2@
                && x.x3.entries@ == x3@ && x.x4.entries@ == x4@ && x.x5.entries@ == x5@
                && x.stack@.len() == 0,
    {
        let t1 = Table::from_entries(x1, 1);
        let t2 = Table::from_entries(x2, 2);
        let t3 = Table::from_entries(x3, 3);
        let t4 = Table::from_entries(x4, 4);
        let t5 = Table::from_entries(x5, 5);
        match (t1, t2, t3, t4, t5) {
            (Some(x1), Some(x2), Some(x3), Some(x4), Some(x5)) => {
                Some(Xgrams { x1, x2, x3, x4, x5, stack: Vec::new() })
            },
            _ => None,
        }
    }
}

/// Storing tables and reading them back keeps every count: the tables of
/// well-formed `Xgrams` are accepted by `Xgrams::from_tables`, and tables read back
/// equal to them count every sequence the same.
pub proof fn lemma_tables_round_trip(x: Xgrams, y: Xgrams, q: Seq<char>)
    requires
        x.wf(),
        y.x1.entries@ == x.x1.entries@,
        y.x2.entries@ == x.x2.entries@,
        y.x3.entries@ == x.x3.entries@,
        y.x4.entries@ == x.x4.entries@,
        y.x5.entries@ == x.x5.entries@,
    ensures
        table_wf(x.x1.entries@, 1) && table_wf(x.x2.entries@, 2) && table_wf(x.x3.entries@, 3)
            && table_wf(x.x4.entries@, 4) && table_wf(x.x5.entries@, 5),
        y.count(q) == x.count(q),
{
}

} // verus!
