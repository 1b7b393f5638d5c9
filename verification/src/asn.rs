//! A short label for a set of autonomous systems, made from their domains.
use vstd::prelude::*;
use vstd::relations::{sorted_by, total_ordering};
use vstd::string::StrSliceExecFns;

use crate::host::{is_word_char, word_character};
use crate::text::{chars_of, push_str};

verus! {

/// An autonomous system as the ASN database describes it.
#[derive(Debug, Clone, PartialEq, Eq, Hash)]
pub struct Asn {
    pub asn: String,
    pub domain: String,
    pub name: String,
}

/// Whether `a` comes before `b` or equals it, comparing character by character as `str` does.
pub open spec fn chars_le(a: Seq<char>, b: Seq<char>) -> bool
    decreases a.len(),
{
    if a.len() == 0 {
        true
    } else if b.len() == 0 {
        false
    } else if a[0] != b[0] {
        (a[0] as int) < (b[0] as int)
    } else {
        chars_le(a.drop_first(), b.drop_first())
    }
}

/// The order of domains.
pub open spec fn domain_order() -> spec_fn(Seq<char>, Seq<char>) -> bool {
    |a: Seq<char>, b: Seq<char>| chars_le(a, b)
}

/// The index of the last `.` of `s`, or -1.
pub open spec fn last_dot(s: Seq<char>) -> int
    decreases s.len(),
{
    if s.len() == 0 {
        -1
    } else if s.last() == '.' {
        s.len() - 1
    } else {
        last_dot(s.drop_last())
    }
}

/// Whether `c` may stand in the name part of a domain: a word character, `_` or `-`.
pub open spec fn is_label_char(c: char) -> bool {
    is_word_char(c) || c == '_' || c == '-'
}

/// The number of consecutive name characters of `s` that end before position `end`.
pub open spec fn label_run(s: Seq<char>, end: int) -> nat
    decreases end,
{
    if 0 < end <= s.len() && is_label_char(s[end - 1]) {
        1 + label_run(s, end - 1)
    } else {
        0
    }
}

/// The name part of a domain, as `([\w_\-]+)\.\w+$` captures it: the run of name characters
/// before the last dot, when that dot is followed by word characters only. Without such a
/// part, the whole domain.
pub open spec fn domain_name(s: Seq<char>) -> Seq<char> {
    let p = last_dot(s);
    let run = label_run(s, p) as int;
    if p >= 0 && run >= 1 && p + 1 < s.len() && (forall|j: int| p < j < s.len() ==> is_word_char(#[trigger] s[j])) {
        s.subrange(p - run, p)
    } else {
        s
    }
}

proof fn lemma_last_dot_of_tail(q: Seq<char>, b: Seq<char>)
    requires
        forall|j: int| 0 <= j < b.len() ==> #[trigger] b[j] != '.',
    ensures
        last_dot(q + seq!['.'] + b) == q.len(),
    decreases b.len(),
{
    let s = q + seq!['.'] + b;
    if b.len() == 0 {
        assert(s.last() == '.');
    } else {
        lemma_last_dot_of_tail(q, b.drop_last());
        assert(s.drop_last() =~= q + seq!['.'] + b.drop_last());
        assert(s.last() == b.last());
    }
}

proof fn lemma_label_run_of_label(s: Seq<char>, start: int, k: int)
    requires
        0 <= start,
        0 <= k,
        start + k <= s.len(),
        forall|j: int| start <= j < start + k ==> #[trigger] is_label_char(s[j]),
        start == 0 || !is_label_char(s[start - 1]),
    ensures
        label_run(s, start + k) == k,
    decreases k,
{
    if k > 0 {
        lemma_label_run_of_label(s, start, k - 1);
    }
}

/// The name part of a domain is the whole label before its last dot: for a domain `p` `a` `.`
/// `b`, where the label `a` is made of word characters, `_` and `-`, `b` of word characters,
/// and `p` is empty or ends in another character, the name part is `a`, every `-` and `_`
/// of it kept.
pub proof fn lemma_domain_name_is_the_label(p: Seq<char>, a: Seq<char>, b: Seq<char>)
    requires
        a.len() >= 1,
        b.len() >= 1,
        forall|j: int| 0 <= j < a.len() ==> (is_word_char(#[trigger] a[j]) || a[j] == '_' || a[j] == '-') && a[j] != '.',
        forall|j: int| 0 <= j < b.len() ==> is_word_char(#[trigger] b[j]) && b[j] != '.',
        p.len() == 0 || !(is_word_char(p.last()) || p.last() == '_' || p.last() == '-'),
    ensures
        domain_name(p + a + seq!['.'] + b) == a,
{
    let s = p + a + seq!['.'] + b;
    assert(s =~= (p + a) + seq!['.'] + b);
    lemma_last_dot_of_tail(p + a, b);
    let dot: int = (p.len() + a.len()) as int;
    assert forall|j: int| p.len() <= j < p.len() + a.len() implies #[trigger] is_label_char(s[j]) by {
        assert(s[j] == a[j - p.len()]);
    }
    if p.len() > 0 {
        assert(s[p.len() - 1] == p.last());
    }
    lemma_label_run_of_label(s, p.len() as int, a.len() as int);
    assert forall|j: int| dot < j < s.len() implies is_word_char(#[trigger] s[j]) by {
        assert(s[j] == b[j - dot - 1]);
    }
    assert(s.subrange(p.len() as int, dot) =~= a);
}

/// The parts joined by `-`.
pub open spec fn joined(parts: Seq<Seq<char>>) -> Seq<char>
    decreases parts.len(),
{
    if parts.len() == 0 {
        Seq::empty()
    } else if parts.len() == 1 {
        parts[0]
    } else {
        joined(parts.drop_last()) + seq!['-'] + parts.last()
    }
}

/// The domains of the systems.
pub open spec fn domains(asns: Seq<Asn>) -> Seq<Seq<char>> {
    asns.map_values(|a: Asn| a.domain@)
}

/// The name parts of the domains.
pub open spec fn domain_names(ds: Seq<Seq<char>>) -> Seq<Seq<char>> {
    ds.map_values(|d: Seq<char>| domain_name(d))
}

/// The label of a set of systems: the name parts of their domains, in the order of the
/// domains, joined by `-`.
pub open spec fn asn_label(asns: Seq<Asn>) -> Seq<char> {
    joined(domain_names(domains(asns).sort_by(domain_order())))
}

proof fn lemma_chars_le_reflexive(a: Seq<char>)
    ensures
        chars_le(a, a),
    decreases a.len(),
{
    if a.len() > 0 {
        lemma_chars_le_reflexive(a.drop_first());
    }
}

proof fn lemma_chars_le_antisymmetric(a: Seq<char>, b: Seq<char>)
    requires
        chars_le(a, b),
        chars_le(b, a),
    ensures
        a == b,
    decreases a.len(),
{
    if a.len() > 0 && b.len() > 0 {
        if a[0] == b[0] {
            lemma_chars_le_antisymmetric(a.drop_first(), b.drop_first());
            assert(a =~= seq![a[0]] + a.drop_first());
            assert(b =~= seq![b[0]] + b.drop_first());
        }
    }
    assert(a =~= b);
}

proof fn lemma_chars_le_transitive(a: Seq<char>, b: Seq<char>, c: Seq<char>)
    requires
        chars_le(a, b),
        chars_le(b, c),
    ensures
        chars_le(a, c),
    decreases a.len(),
{
    if a.len() > 0 && b.len() > 0 && c.len() > 0 {
        if a[0] == b[0] && b[0] == c[0] {
            lemma_chars_le_transitive(a.drop_first(), b.drop_first(), c.drop_first());
        }
    }
}

proof fn lemma_chars_le_total(a: Seq<char>, b: Seq<char>)
    ensures
        chars_le(a, b) || chars_le(b, a),
    decreases a.len(),
{
    if a.len() > 0 && b.len() > 0 && a[0] == b[0] {
        lemma_chars_le_total(a.drop_first(), b.drop_first());
    }
}

/// The order of domains is a total order.
pub proof fn lemma_domain_order_total()
    ensures
        total_ordering(domain_order()),
{
    assert forall|a: Seq<char>| #[trigger] domain_order()(a, a) by {
        lemma_chars_le_reflexive(a);
    }
    assert forall|a: Seq<char>, b: Seq<char>| #[trigger] domain_order()(a, b) && #[trigger] domain_order()(b, a) implies a == b by {
        lemma_chars_le_antisymmetric(a, b);
    }
    assert forall|a: Seq<char>, b: Seq<char>, c: Seq<char>| #[trigger] domain_order()(a, b) && #[trigger] domain_order()(b, c) implies domain_order()(a, c) by {
        lemma_chars_le_transitive(a, b, c);
    }
    assert forall|a: Seq<char>, b: Seq<char>| #[trigger] domain_order()(a, b) || #[trigger] domain_order()(b, a) by {
        lemma_chars_le_total(a, b);
    }
}

/// Whether `a` comes before `b` or equals it.
fn str_le(a: &str, b: &str) -> (r: bool)
    ensures
        r == chars_le(a@, b@),
{
    let x = chars_of(a);
    let y = chars_of(b);
    let mut k: usize = 0;
    assert(x@.skip(0) =~= x@);
    assert(y@.skip(0) =~= y@);
    while k < x.len() && k < y.len() && x[k] == y[k]
        invariant
            k <= x@.len(),
            k <= y@.len(),
            chars_le(x@, y@) == chars_le(x@.skip(k as int), y@.skip(k as int)),
        decreases x@.len() - k,
    {
        assert(x@.skip(k as int).drop_first() =~= x@.skip(k + 1));
        assert(y@.skip(k as int).drop_first() =~= y@.skip(k + 1));
        k = k + 1;
    }
    assert(x@.skip(0) =~= x@);
    assert(y@.skip(0) =~= y@);
    if k == x.len() {
        true
    } else if k == y.len() {
        false
    } else {
        assert(x@.skip(k as int)[0] == x@[k as int]);
        assert(y@.skip(k as int)[0] == y@[k as int]);
        x[k] < y[k]
    }
}

/// The name part of a domain: `([\w_\-]+)\.\w+$` matched against it, or the whole domain.
fn domain_name_of(input: &str) -> (r: &str)
    ensures
        r@ == domain_name(input@),
{
    let cs = chars_of(input);
    let n = cs.len();
    // the last dot
    let mut p: usize = n;
    assert(cs@.take(n as int) =~= cs@);
    while p > 0 && cs[p - 1] != '.'
        invariant
            p <= n == cs@.len(),
            last_dot(cs@) == last_dot(cs@.take(p as int)),
        decreases p,
    {
        assert(cs@.take(p as int).drop_last() =~= cs@.take(p - 1));
        p = p - 1;
    }
    proof {
        assert(input@ == cs@);
        if p == 0 {
            assert(cs@.take(0) =~= Seq::<char>::empty());
        } else {
            assert(cs@.take(p as int).last() == cs@[p - 1]);
        }
    }
    if p == 0 || p >= n {
        return input;
    }
    let dot = p - 1;
    assert(last_dot(cs@) == dot);
    // the word characters after it
    let mut j = dot + 1;
    while j < n
        invariant
            dot + 1 <= j <= n == cs@.len(),
            input@ == cs@,
            last_dot(cs@) == dot,
            forall|i: int| dot < i < j ==> is_word_char(#[trigger] cs@[i]),
        decreases n - j,
    {
        if !word_character(cs[j]) {
            assert(!is_word_char(cs@[j as int]));
            return input;
        }
        j = j + 1;
    }
    // the name characters before it
    let mut s = dot;
    while s > 0 && (word_character(cs[s - 1]) || cs[s - 1] == '_' || cs[s - 1] == '-')
        invariant
            s <= dot < n == cs@.len(),
            label_run(cs@, dot as int) == (dot - s) + label_run(cs@, s as int),
        decreases s,
    {
        s = s - 1;
    }
    if s == dot {
        return input;
    }
    proof {
        assert(input@ == cs@);
    }
    input.substring_char(s, dot)
}

/// Whether no system occurs twice in `asns`, as in a set.
pub open spec fn distinct_systems(asns: Seq<Asn>) -> bool {
    forall|i: int, j: int| 0 <= i < j < asns.len()
        ==> ((#[trigger] asns[i]).asn@, asns[i].domain@, asns[i].name@) != ((#[trigger] asns[j]).asn@, asns[j].domain@, asns[j].name@)
}

/// The label of a set of systems, given as a list in which no system occurs twice: the name
/// parts of their domains, in the order of the domains, joined by `-`.
pub fn format_asn_set(asn_set: &Vec<Asn>) -> (r: String)
    requires
        distinct_systems(asn_set@),
    ensures
        r@ == asn_label(asn_set@),
{
    broadcast use vstd::seq_lib::group_to_multiset_ensures, vstd::multiset::group_multiset_axioms;

    let ghost all = domains(asn_set@);
    // the domains, in order
    let mut rest: Vec<&str> = Vec::new();
    let mut k: usize = 0;
    while k < asn_set.len()
        invariant
            k <= asn_set@.len(),
            all == domains(asn_set@),
            rest@.len() == k,
            forall|i: int| 0 <= i < k ==> (#[trigger] rest@[i])@ == all[i],
        decreases asn_set@.len() - k,
    {
        rest.push(asn_set[k].domain.as_str());
        k = k + 1;
    }
    let ghost mut rest_g: Seq<Seq<char>> = all;
    let ghost mut out_g: Seq<Seq<char>> = Seq::empty();
    let mut sorted: Vec<&str> = Vec::new();
    proof {
        assert(rest_g =~= rest@.map_values(|d: &str| d@));
        lemma_domain_order_total();
    }
    while rest.len() > 0
        invariant
            rest_g == rest@.map_values(|d: &str| d@),
            out_g == sorted@.map_values(|d: &str| d@),
            out_g.to_multiset().add(rest_g.to_multiset()) == all.to_multiset(),
            sorted_by(out_g, domain_order()),
            forall|a: int, b: int| 0 <= a < out_g.len() && 0 <= b < rest_g.len() ==> chars_le(out_g[a], rest_g[b]),
            total_ordering(domain_order()),
        decreases rest@.len(),
    {
        broadcast use vstd::seq_lib::group_to_multiset_ensures, vstd::multiset::group_multiset_axioms;

        let mut best: usize = 0;
        let mut j: usize = 1;
        assert(domain_order()(rest_g[0], rest_g[0]));
        while j < rest.len()
            invariant
                1 <= j <= rest@.len(),
                best < rest@.len(),
                rest_g == rest@.map_values(|d: &str| d@),
                total_ordering(domain_order()),
                forall|b: int| 0 <= b < j ==> chars_le(rest_g[best as int], rest_g[b]),
            decreases rest@.len() - j,
        {
            if !str_le(rest[best], rest[j]) {
                proof {
                    assert(domain_order()(rest_g[j as int], rest_g[best as int]) || domain_order()(rest_g[best as int], rest_g[j as int]));
                    assert forall|b: int| 0 <= b < j + 1 implies chars_le(rest_g[j as int], rest_g[b]) by {
                        if b < j {
                            assert(domain_order()(rest_g[j as int], rest_g[best as int]) && domain_order()(rest_g[best as int], rest_g[b]));
                        } else {
                            assert(domain_order()(rest_g[j as int], rest_g[j as int]));
                        }
                    }
                }
                best = j;
            }
            j = j + 1;
        }
        let ghost r0 = rest_g;
        let ghost o0 = out_g;
        let x = rest.remove(best);
        sorted.push(x);
        proof {
            rest_g = r0.remove(best as int);
            out_g = o0.push(r0[best as int]);
            assert(rest_g =~= rest@.map_values(|d: &str| d@));
            assert(out_g =~= sorted@.map_values(|d: &str| d@));
            assert forall|a: int, b: int| 0 <= a < out_g.len() && 0 <= b < rest_g.len() implies chars_le(out_g[a], rest_g[b]) by {
                let b2 = if b < best { b } else { b + 1 };
                assert(rest_g[b] == r0[b2]);
            }
            assert forall|a: int, b: int| 0 <= a < b < out_g.len() implies #[trigger] domain_order()(out_g[a], out_g[b]) by {
                if b == out_g.len() - 1 {
                    assert(out_g[b] == r0[best as int]);
                } else {
                    assert(domain_order()(o0[a], o0[b]));
                }
            }
            vstd::seq_lib::to_multiset_build(o0, r0[best as int]);
            vstd::seq_lib::to_multiset_remove(r0, best as int);
            assert(r0.to_multiset().count(r0[best as int]) > 0) by {
                vstd::seq_lib::to_multiset_contains(r0, r0[best as int]);
            }
            assert(out_g.to_multiset().add(rest_g.to_multiset()) =~= o0.to_multiset().add(r0.to_multiset()));
        }
    }
    proof {
        broadcast use vstd::seq_lib::group_to_multiset_ensures, vstd::multiset::group_multiset_axioms;

        assert(rest_g.to_multiset() =~= vstd::multiset::Multiset::<Seq<char>>::empty());
        assert(out_g.to_multiset() =~= all.to_multiset());
        all.lemma_sort_by_ensures(domain_order());
        vstd::seq_lib::lemma_sorted_unique(out_g, all.sort_by(domain_order()), domain_order());
    }
    // the name parts, joined
    let ghost names = domain_names(out_g);
    let mut buf = String::new();
    let mut i: usize = 0;
    while i < sorted.len()
        invariant
            i <= sorted@.len() == out_g.len() == names.len(),
            out_g == sorted@.map_values(|d: &str| d@),
            names == domain_names(out_g),
            buf@ == joined(names.take(i as int)),
        decreases sorted@.len() - i,
    {
        if i > 0 {
            buf.push('-');
        }
        push_str(&mut buf, domain_name_of(sorted[i]));
        proof {
            assert(names.take(i + 1).drop_last() =~= names.take(i as int));
            assert(names[i as int] == domain_name(sorted@[i as int]@));
            if i == 0 {
                assert(buf@ =~= joined(names.take(1)));
            } else {
                assert(buf@ =~= joined(names.take(i + 1)));
            }
        }
        i = i + 1;
    }
    assert(names.take(sorted@.len() as int) =~= names);
    buf
}

} // verus!
