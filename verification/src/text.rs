//! Character-level helpers shared by the alias, package and log code.
//!
//! Strings are worked on as sequences of `char`, which is what their view is.

use vstd::prelude::*;

verus! {

broadcast use vstd::string::axiom_spec_iter;

/// Appends one character to a `String`.
pub assume_specification[ String::push ](s: &mut String, ch: char)
    ensures
        final(s)@ == old(s)@.push(ch),
;

/// The characters of `s`, in order.
pub fn chars_of(s: &str) -> (out: Vec<char>)
    ensures
        out@ == s@,
{
    let mut out: Vec<char> = Vec::new();
    for c in it: s.chars()
        invariant
            it.seq() == s@,
            out@ == it.seq().take(it.index() as int),
    {
        proof {
            assert(it.seq().take(it.index() + 1) == it.seq().take(it.index() as int).push(c));
        }
        out.push(c);
    }
    out
}

/// A `String` holding exactly `chars`.
pub fn string_of(chars: &[char]) -> (out: String)
    ensures
        out@ == chars@,
{
    let mut out = String::new();
    let mut i: usize = 0;
    while i < chars.len()
        invariant
            i <= chars.len(),
            out@ == chars@.take(i as int),
        decreases chars.len() - i,
    {
        out.push(chars[i]);
        proof {
            assert(chars@.take(i + 1) == chars@.take(i as int).push(chars@[i as int]));
        }
        i = i + 1;
    }
    proof {
        assert(chars@.take(chars.len() as int) == chars@);
    }
    out
}


/// `c` with an ASCII capital letter mapped to its lower-case form.
pub open spec fn ascii_lower(c: char) -> char {
    if 'A' <= c && c <= 'Z' {
        ((c as u32) + 32) as char
    } else {
        c
    }
}

/// Executable [`ascii_lower`].
pub fn lower_ascii_char(c: char) -> (out: char)
    ensures
        out == ascii_lower(c),
{
    if 'A' <= c && c <= 'Z' {
        let code: u32 = c as u32;
        let lowered: u8 = (code + 32) as u8;
        lowered as char
    } else {
        c
    }
}

/// Equal after folding ASCII letters to lower case, and nothing else.
pub open spec fn eq_ignoring_ascii_case(a: Seq<char>, b: Seq<char>) -> bool {
    &&& a.len() == b.len()
    &&& forall|i: int| 0 <= i < a.len() ==> ascii_lower(#[trigger] a[i]) == ascii_lower(b[i])
}

/// Executable [`eq_ignoring_ascii_case`].
pub fn eq_ignore_ascii_case(a: &str, b: &str) -> (out: bool)
    ensures
        out == eq_ignoring_ascii_case(a@, b@),
{
    let x = chars_of(a);
    let y = chars_of(b);
    if x.len() != y.len() {
        return false;
    }
    let mut i: usize = 0;
    while i < x.len()
        invariant
            x@ == a@,
            y@ == b@,
            x.len() == y.len(),
            i <= x.len(),
            forall|k: int| 0 <= k < i ==> ascii_lower(#[trigger] x@[k]) == ascii_lower(y@[k]),
        decreases x.len() - i,
    {
        if lower_ascii_char(x[i]) != lower_ascii_char(y[i]) {
            return false;
        }
        i = i + 1;
    }
    true
}


/// Whether two strings hold the same characters.
pub fn str_eq(a: &str, b: &str) -> (out: bool)
    ensures
        out == (a@ == b@),
{
    let x = chars_of(a);
    let y = chars_of(b);
    if x.len() != y.len() {
        return false;
    }
    let mut i: usize = 0;
    while i < x.len()
        invariant
            x@ == a@,
            y@ == b@,
            x.len() == y.len(),
            i <= x.len(),
            forall|k: int| 0 <= k < i ==> #[trigger] x@[k] == y@[k],
        decreases x.len() - i,
    {
        if x[i] != y[i] {
            return false;
        }
        i = i + 1;
    }
    proof {
        assert(x@ =~= y@);
    }
    true
}


/// `parts` with `sep` between each neighbouring pair.
pub open spec fn joined(parts: Seq<Seq<char>>, sep: Seq<char>) -> Seq<char>
    decreases parts.len(),
{
    if parts.len() == 0 {
        Seq::empty()
    } else if parts.len() == 1 {
        parts[0]
    } else {
        joined(parts.drop_last(), sep) + sep + parts.last()
    }
}

/// The views of a list of strings.
pub open spec fn views(parts: Seq<String>) -> Seq<Seq<char>> {
    parts.map_values(|p: String| p@)
}

/// Executable [`joined`].
pub fn join(parts: &Vec<String>, sep: &str) -> (out: String)
    ensures
        out@ == joined(views(parts@), sep@),
{
    let mut out = String::new();
    let ghost all = views(parts@);
    let mut i: usize = 0;
    while i < parts.len()
        invariant
            i <= parts.len(),
            all == views(parts@),
            out@ == joined(all.take(i as int), sep@),
        decreases parts.len() - i,
    {
        proof {
            assert(all.take(i + 1).drop_last() =~= all.take(i as int));
        }
        if i > 0 {
            out.append(sep);
        }
        out.append(parts[i].as_str());
        i = i + 1;
    }
    proof {
        assert(all.take(parts.len() as int) =~= all);
    }
    out
}

/// The decimal digit `d`.
pub open spec fn digit(d: nat) -> char {
    ((48 + d) as u32) as char
}

/// `n` written in decimal, with no leading zeros.
pub open spec fn decimal(n: nat) -> Seq<char>
    decreases n,
{
    if n < 10 {
        seq![digit(n)]
    } else {
        decimal(n / 10).push(digit(n % 10))
    }
}

/// Executable [`decimal`].
pub fn decimal_text(n: u64) -> (out: String)
    ensures
        out@ == decimal(n as nat),
{
    let mut reversed: Vec<char> = Vec::new();
    let mut rest: u64 = n;
    let ghost mut tail: Seq<char> = Seq::empty();
    loop
        invariant_except_break
            decimal(n as nat) == decimal(rest as nat) + tail,
            reversed@ == tail.reverse(),
        ensures
            decimal(n as nat) == tail,
            reversed@ == tail.reverse(),
        decreases rest,
    {
        let d: u64 = rest % 10;
        let c: char = ((48 + d) as u8) as char;
        proof {
            assert(c == digit(d as nat));
        }
        if rest < 10 {
            reversed.push(c);
            proof {
                assert(decimal(rest as nat) == seq![c]);
                assert(decimal(n as nat) =~= seq![c] + tail);
                tail = seq![c] + tail;
                assert(reversed@ =~= tail.reverse());
            }
            break;
        }
        reversed.push(c);
        proof {
            assert(decimal(rest as nat) == decimal((rest / 10) as nat).push(c));
            let t2 = seq![c] + tail;
            assert(decimal(rest as nat) + tail =~= decimal((rest / 10) as nat) + t2);
            tail = t2;
            assert(reversed@ =~= tail.reverse());
        }
        rest = rest / 10;
    }
    let mut out: Vec<char> = Vec::new();
    let mut k: usize = reversed.len();
    while k > 0
        invariant
            k <= reversed.len(),
            out@ == reversed@.skip(k as int).reverse(),
        decreases k,
    {
        k = k - 1;
        out.push(reversed[k]);
        proof {
            assert(reversed@.skip(k as int).reverse() =~= reversed@.skip(k + 1).reverse().push(reversed@[k as int]));
        }
    }
    proof {
        assert(reversed@.skip(0) =~= reversed@);
        assert(tail.reverse().reverse() =~= tail);
        assert(decimal(n as nat) =~= tail);
    }
    string_of(out.as_slice())
}

/// `a` sorts before `b`: at the first place they differ `a` has the smaller character, or `a` is
/// a proper prefix of `b`. Characters compare by code point, which for UTF-8 text is the byte
/// order `String` compares by.
pub open spec fn text_lt(a: Seq<char>, b: Seq<char>) -> bool
    decreases a.len(),
{
    if a.len() == 0 {
        b.len() > 0
    } else if b.len() == 0 {
        false
    } else if a[0] != b[0] {
        a[0] < b[0]
    } else {
        text_lt(a.drop_first(), b.drop_first())
    }
}

/// No text sorts before itself.
pub proof fn lemma_text_lt_irreflexive(a: Seq<char>)
    ensures
        !text_lt(a, a),
    decreases a.len(),
{
    if a.len() > 0 {
        lemma_text_lt_irreflexive(a.drop_first());
    }
}

/// Two texts do not each sort before the other.
pub proof fn lemma_text_lt_asymmetric(a: Seq<char>, b: Seq<char>)
    requires
        text_lt(a, b),
    ensures
        !text_lt(b, a),
    decreases a.len(),
{
    if a.len() > 0 && b.len() > 0 && a[0] == b[0] {
        lemma_text_lt_asymmetric(a.drop_first(), b.drop_first());
    }
}

/// Sorting before is transitive.
pub proof fn lemma_text_lt_transitive(a: Seq<char>, b: Seq<char>, c: Seq<char>)
    requires
        text_lt(a, b),
        text_lt(b, c),
    ensures
        text_lt(a, c),
    decreases a.len(),
{
    if a.len() > 0 && b.len() > 0 && c.len() > 0 && a[0] == b[0] && b[0] == c[0] {
        lemma_text_lt_transitive(a.drop_first(), b.drop_first(), c.drop_first());
    }
}

/// Of two different texts, one sorts before the other.
pub proof fn lemma_text_lt_total(a: Seq<char>, b: Seq<char>)
    requires
        a != b,
    ensures
        text_lt(a, b) || text_lt(b, a),
    decreases a.len(),
{
    if a.len() > 0 && b.len() > 0 {
        if a[0] == b[0] {
            assert(a.drop_first() != b.drop_first()) by {
                if a.drop_first() == b.drop_first() {
                    assert(a =~= seq![a[0]] + a.drop_first());
                    assert(b =~= seq![b[0]] + b.drop_first());
                }
            }
            lemma_text_lt_total(a.drop_first(), b.drop_first());
        }
    } else if a.len() == 0 && b.len() == 0 {
        assert(a =~= b);
    }
}

/// Whether `a` sorts before `b`.
pub fn text_less(a: &str, b: &str) -> (out: bool)
    ensures
        out == text_lt(a@, b@),
{
    let x = chars_of(a);
    let y = chars_of(b);
    proof {
        assert(a@.skip(0) =~= a@);
        assert(b@.skip(0) =~= b@);
    }
    let mut i: usize = 0;
    while i < x.len() && i < y.len()
        invariant
            x@ == a@,
            y@ == b@,
            i <= x.len(),
            i <= y.len(),
            text_lt(a@, b@) == text_lt(a@.skip(i as int), b@.skip(i as int)),
        decreases x.len() - i,
    {
        let p = x[i];
        let q = y[i];
        proof {
            assert(a@.skip(i as int)[0] == p && b@.skip(i as int)[0] == q);
            assert(a@.skip(i as int).drop_first() =~= a@.skip(i + 1));
            assert(b@.skip(i as int).drop_first() =~= b@.skip(i + 1));
        }
        if p != q {
            return p < q;
        }
        i = i + 1;
    }
    i == x.len() && i < y.len()
}

/// Each text sorts before the next.
pub open spec fn sorted_texts(s: Seq<Seq<char>>) -> bool {
    forall|p: int, q: int| 0 <= p < q < s.len() ==> text_lt(#[trigger] s[p], #[trigger] s[q])
}

/// Two sorted lists of the same texts are the same list.
pub proof fn lemma_sorted_texts_unique(a: Seq<Seq<char>>, b: Seq<Seq<char>>)
    requires
        sorted_texts(a),
        sorted_texts(b),
        a.to_set() == b.to_set(),
    ensures
        a == b,
    decreases a.len(),
{
    if a.len() == 0 {
        if b.len() > 0 {
            assert(b.to_set().contains(b[0]));
        }
        assert(a =~= b);
    } else {
        assert(a.to_set().contains(a[0]));
        assert(b.to_set().contains(a[0]));
        assert(b.len() > 0);
        assert(b.to_set().contains(b[0]));
        assert(a.to_set().contains(b[0]));
        let j = choose|j: int| 0 <= j < b.len() && b[j] == a[0];
        let k = choose|k: int| 0 <= k < a.len() && a[k] == b[0];
        if j > 0 {
            assert(text_lt(b[0], b[j]));
            if k > 0 {
                assert(text_lt(a[0], a[k]));
                lemma_text_lt_asymmetric(a[0], b[0]);
            } else {
                lemma_text_lt_irreflexive(a[0]);
            }
        }
        assert(a[0] == b[0]);
        let ra = a.drop_first();
        let rb = b.drop_first();
        assert forall|x: Seq<char>| ra.to_set().contains(x) == rb.to_set().contains(x) by {
            if ra.to_set().contains(x) {
                let p = choose|p: int| 0 <= p < ra.len() && ra[p] == x;
                assert(a[p + 1] == x);
                assert(text_lt(a[0], a[p + 1]));
                assert(b.to_set().contains(x));
                let q = choose|q: int| 0 <= q < b.len() && b[q] == x;
                if q == 0 {
                    lemma_text_lt_irreflexive(x);
                }
                assert(rb[q - 1] == x);
            }
            if rb.to_set().contains(x) {
                let q = choose|q: int| 0 <= q < rb.len() && rb[q] == x;
                assert(b[q + 1] == x);
                assert(text_lt(b[0], b[q + 1]));
                assert(a.to_set().contains(x));
                let p = choose|p: int| 0 <= p < a.len() && a[p] == x;
                if p == 0 {
                    lemma_text_lt_irreflexive(x);
                }
                assert(ra[p - 1] == x);
            }
        }
        assert(ra.to_set() =~= rb.to_set());
        assert(sorted_texts(ra)) by {
            assert forall|p: int, q: int| 0 <= p < q < ra.len() implies text_lt(#[trigger] ra[p], #[trigger] ra[q]) by {
                assert(text_lt(a[p + 1], a[q + 1]));
            }
        }
        assert(sorted_texts(rb)) by {
            assert forall|p: int, q: int| 0 <= p < q < rb.len() implies text_lt(#[trigger] rb[p], #[trigger] rb[q]) by {
                assert(text_lt(b[p + 1], b[q + 1]));
            }
        }
        lemma_sorted_texts_unique(ra, rb);
        assert(a =~= b) by {
            assert forall|i: int| 0 <= i < a.len() implies a[i] == b[i] by {
                if i > 0 {
                    assert(ra[i - 1] == rb[i - 1]);
                }
            }
        }
    }
}

/// Adds `item` to a sorted list of distinct texts, where it sorts, unless it is there already.
pub(crate) fn insert_sorted(list: &mut Vec<String>, item: &String)
    requires
        sorted_texts(views(old(list)@)),
    ensures
        sorted_texts(views(final(list)@)),
        views(final(list)@).to_set() == views(old(list)@).to_set().insert(item@),
{
    let ghost before = views(list@);
    let mut p: usize = 0;
    while p < list.len() && text_less(list[p].as_str(), item.as_str())
        invariant
            p <= list@.len(),
            before == views(list@),
            sorted_texts(before),
            forall|k: int| 0 <= k < p ==> text_lt(#[trigger] before[k], item@),
        decreases list@.len() - p,
    {
        p = p + 1;
    }
    if p < list.len() && str_eq(list[p].as_str(), item.as_str()) {
        proof {
            assert(before.to_set().contains(item@)) by {
                assert(before[p as int] == item@);
            }
            assert(before.to_set().insert(item@) =~= before.to_set());
        }
        return;
    }
    list.insert(p, item.clone());
    proof {
        let now = views(list@);
        assert(now =~= before.take(p as int).push(item@) + before.skip(p as int));
        assert forall|a: int, b: int| 0 <= a < b < now.len() implies text_lt(#[trigger] now[a], #[trigger] now[b]) by {
            if b < p {
                assert(now[a] == before[a] && now[b] == before[b]);
            } else if b == p {
                assert(now[a] == before[a]);
            } else if a == p {
                assert(now[b] == before[b - 1]);
                assert(!text_lt(before[p as int], item@));
                assert(before[p as int] != item@);
                lemma_text_lt_total(before[p as int], item@);
                if b - 1 > p {
                    assert(text_lt(before[p as int], before[b - 1]));
                    lemma_text_lt_transitive(item@, before[p as int], before[b - 1]);
                }
            } else if a < p {
                assert(now[a] == before[a]);
                assert(now[b] == before[b - 1]);
            } else {
                assert(now[a] == before[a - 1]);
                assert(now[b] == before[b - 1]);
            }
        }
        assert forall|x: Seq<char>| now.to_set().contains(x) == before.to_set().insert(item@).contains(x) by {
            if now.to_set().contains(x) {
                let k = choose|k: int| 0 <= k < now.len() && now[k] == x;
                if k < p {
                    assert(before[k] == x);
                } else if k > p {
                    assert(before[k - 1] == x);
                }
            }
            if before.to_set().contains(x) {
                let k = choose|k: int| 0 <= k < before.len() && before[k] == x;
                if k < p {
                    assert(now[k] == x);
                } else {
                    assert(now[k + 1] == x);
                }
            }
            if x == item@ {
                assert(now[p as int] == x);
            }
        }
        assert(now.to_set() =~= before.to_set().insert(item@));
    }
}

} // verus!
