//! Small string utilities: pattern replacement and truncation to a number of characters.
use vstd::prelude::*;
use vstd::string::StrSliceExecFns;

use crate::text::{chars_of, push_chars};

verus! {

/// What `s.replace(from, to)` yields on character sequences: every non-overlapping
/// occurrence of `from`, searched from the left, is replaced by `to`. An empty `from`
/// matches before every character and at the end.
pub open spec fn replaced(s: Seq<char>, from: Seq<char>, to: Seq<char>) -> Seq<char>
    decreases s.len(),
{
    if from.len() == 0 {
        if s.len() == 0 {
            to
        } else {
            to + seq![s[0]] + replaced(s.drop_first(), from, to)
        }
    } else if s.len() < from.len() {
        s
    } else if s.take(from.len() as int) == from {
        to + replaced(s.skip(from.len() as int), from, to)
    } else {
        seq![s[0]] + replaced(s.drop_first(), from, to)
    }
}

/// The replacements `pairs` applied one after the other, first pair first.
pub open spec fn replaced_all(s: Seq<char>, pairs: Seq<(Seq<char>, Seq<char>)>) -> Seq<char>
    decreases pairs.len(),
{
    if pairs.len() == 0 {
        s
    } else {
        replaced(replaced_all(s, pairs.drop_last()), pairs.last().0, pairs.last().1)
    }
}

/// The first `max_chars` characters of `s`, or `s` itself when it is not longer.
pub open spec fn trimmed(s: Seq<char>, max_chars: nat) -> Seq<char> {
    if s.len() > max_chars {
        s.take(max_chars as int)
    } else {
        s
    }
}

/// The views of a list of replacement pairs.
pub open spec fn pair_views(from_to: Seq<(&str, &str)>) -> Seq<(Seq<char>, Seq<char>)> {
    from_to.map_values(|p: (&str, &str)| (p.0@, p.1@))
}

/// Whether `pat` occurs in `cs` at position `i`.
fn occurs_at(cs: &Vec<char>, i: usize, pat: &Vec<char>) -> (r: bool)
    requires
        i + pat.len() <= cs.len(),
    ensures
        r == (cs@.subrange(i as int, i + pat.len()) == pat@),
{
    let mut k: usize = 0;
    while k < pat.len()
        invariant
            k <= pat.len(),
            i + pat.len() <= cs.len(),
            forall|j: int| 0 <= j < k ==> cs@[i + j] == pat@[j],
        decreases pat.len() - k,
    {
        if cs[i + k] != pat[k] {
            assert(cs@.subrange(i as int, i + pat.len())[k as int] != pat@[k as int]);
            return false;
        }
        k = k + 1;
    }
    assert(cs@.subrange(i as int, i + pat.len()) =~= pat@);
    true
}

/// `s` with every occurrence of `from` replaced by `to`, as `str::replace` does.
pub fn replace(s: &str, from: &str, to: &str) -> (r: String)
    ensures
        r@ == replaced(s@, from@, to@),
{
    let cs = chars_of(s);
    let fs = chars_of(from);
    let ts = chars_of(to);
    let n = cs.len();
    let mut out = String::new();
    let mut i: usize = 0;
    assert(cs@.skip(0) =~= cs@);
    if fs.len() == 0 {
        while i < n
            invariant
                i <= n == cs.len(),
                fs@.len() == 0,
                out@ + replaced(cs@.skip(i as int), fs@, ts@) == replaced(cs@, fs@, ts@),
            decreases n - i,
        {
            let ghost rest = cs@.skip(i as int);
            push_chars(&mut out, &ts, 0, ts.len());
            out.push(cs[i]);
            proof {
                assert(ts@.subrange(0, ts@.len() as int) =~= ts@);
                assert(rest.drop_first() =~= cs@.skip(i + 1));
                assert(rest[0] == cs@[i as int]);
            }
            i = i + 1;
            assert(out@ + replaced(cs@.skip(i as int), fs@, ts@) =~= replaced(cs@, fs@, ts@));
        }
        push_chars(&mut out, &ts, 0, ts.len());
        proof {
            assert(ts@.subrange(0, ts@.len() as int) =~= ts@);
            assert(cs@.skip(n as int).len() == 0);
        }
    } else {
        while i < n
            invariant
                i <= n == cs.len(),
                fs@.len() > 0,
                out@ + replaced(cs@.skip(i as int), fs@, ts@) == replaced(cs@, fs@, ts@),
            decreases n - i,
        {
            let ghost rest = cs@.skip(i as int);
            let ghost before = out@;
            if fs.len() <= n - i && occurs_at(&cs, i, &fs) {
                push_chars(&mut out, &ts, 0, ts.len());
                proof {
                    assert(ts@.subrange(0, ts@.len() as int) =~= ts@);
                    assert(rest.take(fs@.len() as int) =~= cs@.subrange(i as int, i + fs@.len()));
                    assert(rest.skip(fs@.len() as int) =~= cs@.skip(i + fs@.len()));
                }
                i = i + fs.len();
                assert(out@ + replaced(cs@.skip(i as int), fs@, ts@) =~= replaced(cs@, fs@, ts@));
            } else {
                out.push(cs[i]);
                proof {
                    assert(rest.drop_first() =~= cs@.skip(i + 1));
                    assert(rest[0] == cs@[i as int]);
                    if rest.len() >= fs@.len() {
                        assert(rest.take(fs@.len() as int) =~= cs@.subrange(i as int, i + fs@.len()));
                    } else {
                        assert(replaced(rest, fs@, ts@) == rest);
                        assert(replaced(rest.drop_first(), fs@, ts@) == rest.drop_first());
                        assert(rest =~= seq![rest[0]] + rest.drop_first());
                    }
                }
                i = i + 1;
                assert(out@ + replaced(cs@.skip(i as int), fs@, ts@) =~= replaced(cs@, fs@, ts@));
            }
        }
        assert(cs@.skip(n as int).len() == 0);
    }
    out
}

/// Applies the replacements `from_to` to `string` one after the other.
pub fn replace_all(string: String, from_to: &[(&str, &str)]) -> (r: String)
    ensures
        r@ == replaced_all(string@, pair_views(from_to@)),
{
    let ghost s0 = string@;
    let mut string = string;
    let mut k: usize = 0;
    assert(pair_views(from_to@).take(0) =~= Seq::<(Seq<char>, Seq<char>)>::empty());
    while k < from_to.len()
        invariant
            k <= from_to@.len(),
            string@ == replaced_all(s0, pair_views(from_to@).take(k as int)),
        decreases from_to.len() - k,
    {
        let (from, to) = from_to[k];
        string = replace(string.as_str(), from, to);
        proof {
            let pv = pair_views(from_to@);
            assert(pv.take(k + 1).drop_last() =~= pv.take(k as int));
            assert(pv.take(k + 1).last() == (from@, to@));
        }
        k = k + 1;
    }
    assert(pair_views(from_to@).take(from_to@.len() as int) =~= pair_views(from_to@));
    string
}

} // verus!

verus! {

/// `input` cut to its first `max_chars` characters.
pub fn trim_string(input: String, max_chars: usize) -> (r: String)
    ensures
        r@ == trimmed(input@, max_chars as nat),
{
    let n = input.as_str().unicode_len();
    if n > max_chars {
        input.as_str().substring_char(0, max_chars).to_owned()
    } else {
        input
    }
}

/// `input` cut to its first `max_chars` characters, as a slice of it.
pub fn trim_str(input: &str, max_chars: usize) -> (r: &str)
    ensures
        r@ == trimmed(input@, max_chars as nat),
{
    let n = input.unicode_len();
    if n > max_chars {
        input.substring_char(0, max_chars)
    } else {
        input
    }
}

} // verus!
