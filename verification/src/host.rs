//! The servers of the provider: parsed from the configuration generator script.
use std::sync::Arc;

use vstd::prelude::*;

use crate::text::{chars_of, push_chars, push_str};

verus! {

/// A server location and the public WireGuard key of its servers.
#[derive(Debug, PartialEq, Eq, Hash)]
pub struct Host {
    pub location: String,
    pub public_key: String,
}

impl View for Host {
    type V = (Seq<char>, Seq<char>);

    open spec fn view(&self) -> (Seq<char>, Seq<char>) {
        (self.location@, self.public_key@)
    }
}

impl Clone for Host {
    fn clone(&self) -> (r: Self)
        ensures
            r == *self,
    {
        Host { location: self.location.clone(), public_key: self.public_key.clone() }
    }
}

/// Whether `c` is a word character, that is, matched by `\w` in a Unicode regular expression.
pub uninterp spec fn is_word_char(c: char) -> bool;

/// Calls `regex_syntax::is_word_character`, the definition of `\w` used by the `regex`
/// engine: `Alphabetic`, `Join_Control`, `Decimal_Number`, `Mark` or `Connector_Punctuation`.
/// Claimed: the answer depends on the character alone. It does not panic, since the
/// `unicode-perl` feature of `regex-syntax` is on by default.
#[verifier::external_body]
pub(crate) fn word_character(c: char) -> (r: bool)
    ensures
        r == is_word_char(c),
{
    regex_syntax::is_word_character(c)
}

/// Calls `Arc::clone`, which hands out another pointer to the same value.
#[verifier::external_body]
pub(crate) fn share<T>(a: &Arc<T>) -> (r: Arc<T>)
    ensures
        r == *a,
{
    Arc::clone(a)
}

/// The index of the first `:` of `s` at or after position `i`, or the length of `s`.
pub open spec fn colon_from(s: Seq<char>, i: int) -> int
    decreases s.len() - i,
{
    if i < 0 || i >= s.len() {
        s.len() as int
    } else if s[i] == ':' {
        i
    } else {
        colon_from(s, i + 1)
    }
}

/// The location and key that a line of the script declares: the line is `"location:key"`,
/// where `location` is a run of word characters, as `^"(\w+):(.*?)"$` matches it. A line
/// that has another shape declares none.
pub open spec fn parse_line(line: Seq<char>) -> Option<(Seq<char>, Seq<char>)> {
    let c = colon_from(line, 1);
    if line.len() >= 2 && line[0] == '"' && line.last() == '"' && 1 < c < line.len() - 1
        && (forall|j: int| 1 <= j < c ==> is_word_char(#[trigger] line[j])) {
        Some((line.subrange(1, c), line.subrange(c + 1, line.len() - 1)))
    } else {
        None
    }
}

/// The declarations of a line, as a sequence of zero or one.
pub open spec fn parsed(line: Seq<char>) -> Seq<(Seq<char>, Seq<char>)> {
    match parse_line(line) {
        Some(p) => seq![p],
        None => Seq::empty(),
    }
}

/// Reading `s` from the left: the declarations of the lines that a newline ended,
/// and the line that is not ended yet.
pub open spec fn scan(s: Seq<char>) -> (Seq<(Seq<char>, Seq<char>)>, Seq<char>)
    decreases s.len(),
{
    if s.len() == 0 {
        (Seq::empty(), Seq::empty())
    } else {
        let (done, line) = scan(s.drop_last());
        if s.last() == '\n' {
            (done + parsed(line), Seq::empty())
        } else {
            (done, line.push(s.last()))
        }
    }
}

/// The declarations of all lines of `s`, in order.
pub open spec fn confgen_hosts(s: Seq<char>) -> Seq<(Seq<char>, Seq<char>)> {
    scan(s).0 + parsed(scan(s).1)
}

/// The declaration of the line `cs[start..end]`, if it has one.
fn parse_line_at(cs: &Vec<char>, start: usize, end: usize) -> (r: Option<Host>)
    requires
        start <= end <= cs.len(),
    ensures
        match parse_line(cs@.subrange(start as int, end as int)) {
            Some(p) => r is Some && r->0@ == p,
            None => r is None,
        },
{
    let ghost line = cs@.subrange(start as int, end as int);
    if end - start < 2 || cs[start] != '"' || cs[end - 1] != '"' {
        return None;
    }
    // the first colon after the opening quote
    let mut c: usize = start + 1;
    while c < end && cs[c] != ':'
        invariant
            start + 1 <= c <= end <= cs.len(),
            line == cs@.subrange(start as int, end as int),
            colon_from(line, 1) == colon_from(line, c - start),
        decreases end - c,
    {
        assert(line[c - start] == cs@[c as int]);
        c = c + 1;
    }
    proof {
        if c < end {
            assert(line[c - start] == cs@[c as int]);
        }
    }
    if c == start + 1 || c >= end - 1 {
        return None;
    }
    // the location must be made of word characters
    let mut k: usize = start + 1;
    while k < c
        invariant
            start + 1 <= k <= c < end <= cs.len(),
            line == cs@.subrange(start as int, end as int),
            colon_from(line, 1) == c - start,
            forall|j: int| 1 <= j < k - start ==> is_word_char(#[trigger] line[j]),
        decreases c - k,
    {
        if !word_character(cs[k]) {
            assert(line[k - start] == cs@[k as int]);
            return None;
        }
        assert(line[k - start] == cs@[k as int]);
        k = k + 1;
    }
    let mut location = String::new();
    push_chars(&mut location, cs, start + 1, c);
    let mut public_key = String::new();
    push_chars(&mut public_key, cs, c + 1, end - 1);
    proof {
        assert(line.subrange(1, (c - start) as int) =~= cs@.subrange(start + 1, c as int));
        assert(line.subrange((c - start + 1) as int, line.len() - 1) =~= cs@.subrange(c + 1, end - 1));
    }
    Some(Host { location, public_key })
}

impl Host {
    /// The locations and keys that the configuration generator script `confgen` declares,
    /// one per line of the form `"location:key"`, in the order of the lines.
    pub fn from_confgen(confgen: &str) -> (r: Vec<Arc<Self>>)
        ensures
            r@.map_values(|h: Arc<Host>| h@) == confgen_hosts(confgen@),
    {
        let cs = chars_of(confgen);
        let n = cs.len();
        let mut out: Vec<Arc<Host>> = Vec::new();
        let mut start: usize = 0;
        let mut i: usize = 0;
        assert(cs@.take(0) =~= Seq::<char>::empty());
        while i < n
            invariant
                start <= i <= n == cs.len(),
                cs@ == confgen@,
                scan(cs@.take(i as int)) == (out@.map_values(|h: Arc<Host>| h@), cs@.subrange(start as int, i as int)),
            decreases n - i,
        {
            let ghost prev_out = out@.map_values(|h: Arc<Host>| h@);
            assert(cs@.take(i + 1).drop_last() =~= cs@.take(i as int));
            assert(cs@.take(i + 1).last() == cs@[i as int]);
            if cs[i] == '\n' {
                match parse_line_at(&cs, start, i) {
                    Some(h) => {
                        out.push(Arc::new(h));
                    },
                    None => {},
                }
                proof {
                    assert(out@.map_values(|h: Arc<Host>| h@) =~= prev_out + parsed(cs@.subrange(start as int, i as int)));
                    assert(cs@.subrange(i + 1, i + 1) =~= Seq::<char>::empty());
                }
                start = i + 1;
            } else {
                assert(cs@.subrange(start as int, i + 1) =~= cs@.subrange(start as int, i as int).push(cs@[i as int]));
            }
            i = i + 1;
        }
        let ghost prev_out = out@.map_values(|h: Arc<Host>| h@);
        match parse_line_at(&cs, start, n) {
            Some(h) => {
                out.push(Arc::new(h));
            },
            None => {},
        }
        proof {
            assert(cs@.take(n as int) =~= cs@);
            assert(out@.map_values(|h: Arc<Host>| h@) =~= prev_out + parsed(cs@.subrange(start as int, n as int)));
        }
        out
    }

    /// The domain name of the servers of this location.
    pub fn to_url(&self) -> (r: String)
        ensures
            r@ == self.location@ + ".cstorm.is"@,
    {
        let mut r = self.location.clone();
        push_str(&mut r, ".cstorm.is");
        r
    }

    /// The WireGuard endpoint of the servers of this location.
    pub fn to_endpoint(&self) -> (r: String)
        ensures
            r@ == self.location@ + ".cstorm.is:443"@,
    {
        let mut r = self.location.clone();
        push_str(&mut r, ".cstorm.is:443");
        r
    }
}

} // verus!

verus! {

/// The hosts whose location is not among `blacklist`, in order.
pub open spec fn allowed_hosts(hosts: Seq<(Seq<char>, Seq<char>)>, blacklist: Seq<Seq<char>>) -> Seq<(Seq<char>, Seq<char>)>
    decreases hosts.len(),
{
    if hosts.len() == 0 {
        Seq::empty()
    } else {
        let rest = allowed_hosts(hosts.drop_last(), blacklist);
        if blacklist.contains(hosts.last().0) {
            rest
        } else {
            rest.push(hosts.last())
        }
    }
}

/// The hosts that pass the blacklist are exactly the hosts, in order, whose location is not
/// in the blacklist: none of them is blacklisted, and every host that is not is among them.
pub proof fn lemma_allowed_hosts_are_the_unlisted(hosts: Seq<(Seq<char>, Seq<char>)>, blacklist: Seq<Seq<char>>)
    ensures
        allowed_hosts(hosts, blacklist) == hosts.filter(|h: (Seq<char>, Seq<char>)| !blacklist.contains(h.0)),
        forall|k: int| 0 <= k < allowed_hosts(hosts, blacklist).len()
            ==> !blacklist.contains(#[trigger] allowed_hosts(hosts, blacklist)[k].0),
        forall|x: (Seq<char>, Seq<char>)| #[trigger] allowed_hosts(hosts, blacklist).contains(x)
            <==> hosts.contains(x) && !blacklist.contains(x.0),
    decreases hosts.len(),
{
    let p = |h: (Seq<char>, Seq<char>)| !blacklist.contains(h.0);
    reveal(Seq::filter);
    if hosts.len() > 0 {
        let prev = hosts.drop_last();
        lemma_allowed_hosts_are_the_unlisted(prev, blacklist);
        let r = allowed_hosts(hosts, blacklist);
        let r0 = allowed_hosts(prev, blacklist);
        assert(hosts.filter(p) == if p(hosts.last()) { prev.filter(p).push(hosts.last()) } else { prev.filter(p) });
        assert forall|k: int| 0 <= k < r.len() implies !blacklist.contains(#[trigger] r[k].0) by {
            if k < r0.len() {
                assert(r[k] == r0[k]);
            }
        }
        assert forall|x: (Seq<char>, Seq<char>)| #[trigger] r.contains(x) <==> hosts.contains(x) && !blacklist.contains(x.0) by {
            if r.contains(x) {
                let j = choose|j: int| 0 <= j < r.len() && r[j] == x;
                if j < r0.len() {
                    assert(r0[j] == x);
                    assert(r0.contains(x));
                    let i = choose|i: int| 0 <= i < prev.len() && prev[i] == x;
                    assert(hosts[i] == x);
                } else {
                    assert(hosts[hosts.len() - 1] == x);
                }
            }
            if hosts.contains(x) && !blacklist.contains(x.0) {
                let i = choose|i: int| 0 <= i < hosts.len() && hosts[i] == x;
                if i < prev.len() {
                    assert(prev[i] == x);
                    assert(prev.contains(x));
                    assert(r0.contains(x));
                    let j = choose|j: int| 0 <= j < r0.len() && r0[j] == x;
                    assert(r[j] == x);
                } else {
                    assert(r.last() == x);
                }
            }
        }
    } else {
        assert(hosts.filter(p) =~= Seq::<(Seq<char>, Seq<char>)>::empty());
    }
}

/// The views of a list of shared hosts.
pub open spec fn shared_host_views(hosts: Seq<Arc<Host>>) -> Seq<(Seq<char>, Seq<char>)> {
    hosts.map_values(|h: Arc<Host>| h@)
}

/// The views of a list of strings.
pub open spec fn location_views(v: Seq<String>) -> Seq<Seq<char>> {
    v.map_values(|s: String| s@)
}

/// Whether `location` is among `list`.
fn listed(list: &Vec<String>, location: &String) -> (r: bool)
    ensures
        r == location_views(list@).contains(location@),
{
    let mut k: usize = 0;
    while k < list.len()
        invariant
            k <= list@.len(),
            forall|j: int| 0 <= j < k ==> list@[j]@ != location@,
        decreases list@.len() - k,
    {
        if list[k] == *location {
            assert(location_views(list@)[k as int] == location@);
            return true;
        }
        k = k + 1;
    }
    proof {
        let m = location_views(list@);
        if m.contains(location@) {
            let j = choose|j: int| 0 <= j < m.len() && m[j] == location@;
            assert(list@[j]@ == location@);
        }
    }
    false
}

/// The hosts whose location is not in the blacklist, in order.
pub fn retain_allowed(hosts: Vec<Arc<Host>>, blacklist: &Vec<String>) -> (r: Vec<Arc<Host>>)
    ensures
        shared_host_views(r@) == allowed_hosts(shared_host_views(hosts@), location_views(blacklist@)),
        forall|k: int| 0 <= k < r@.len() ==> !location_views(blacklist@).contains((#[trigger] r@[k]).location@),
        forall|k: int| 0 <= k < hosts@.len() && !location_views(blacklist@).contains((#[trigger] hosts@[k]).location@)
            ==> shared_host_views(r@).contains(hosts@[k]@),
{
    let ghost all = shared_host_views(hosts@);
    let ghost bl = location_views(blacklist@);
    let mut out: Vec<Arc<Host>> = Vec::new();
    let mut k: usize = 0;
    while k < hosts.len()
        invariant
            k <= hosts@.len(),
            all == shared_host_views(hosts@),
            bl == location_views(blacklist@),
            shared_host_views(out@) == allowed_hosts(all.take(k as int), bl),
        decreases hosts@.len() - k,
    {
        let ghost prev = shared_host_views(out@);
        proof {
            assert(all.take(k + 1).drop_last() =~= all.take(k as int));
            assert(all.take(k + 1).last() == hosts@[k as int]@);
        }
        if !listed(blacklist, &hosts[k].location) {
            out.push(share(&hosts[k]));
            assert(shared_host_views(out@) =~= prev.push(hosts@[k as int]@));
        }
        k = k + 1;
    }
    assert(all.take(hosts@.len() as int) =~= all);
    proof {
        lemma_allowed_hosts_are_the_unlisted(all, bl);
        let m = shared_host_views(out@);
        assert forall|k: int| 0 <= k < out@.len() implies !bl.contains((#[trigger] out@[k]).location@) by {
            assert(m[k] == out@[k]@);
        }
        assert forall|k: int| 0 <= k < hosts@.len() && !bl.contains((#[trigger] hosts@[k]).location@)
            implies m.contains(hosts@[k]@) by {
            assert(all[k] == hosts@[k]@);
            assert(all.contains(hosts@[k]@));
        }
    }
    out
}

/// The line of the configuration generator script that declares `location` and `public_key`.
pub open spec fn confgen_line(host: (Seq<char>, Seq<char>)) -> Seq<char> {
    seq!['"'] + host.0 + seq![':'] + host.1 + seq!['"', '\n']
}

/// A script made of one line per host.
pub open spec fn confgen_text(hosts: Seq<(Seq<char>, Seq<char>)>) -> Seq<char>
    decreases hosts.len(),
{
    if hosts.len() == 0 {
        Seq::empty()
    } else {
        confgen_text(hosts.drop_last()) + confgen_line(hosts.last())
    }
}

/// Whether a host can be written as a line of the script: its location is a non-empty run of
/// word characters other than `:` and line breaks, and its key holds no line break.
pub open spec fn writable_host(host: (Seq<char>, Seq<char>)) -> bool {
    &&& host.0.len() >= 1
    &&& forall|i: int| 0 <= i < host.0.len() ==> is_word_char(#[trigger] host.0[i]) && host.0[i] != ':' && host.0[i] != '\n'
    &&& forall|i: int| 0 <= i < host.1.len() ==> #[trigger] host.1[i] != '\n'
}

proof fn lemma_scan_no_newline(p: Seq<char>, l: Seq<char>)
    requires
        forall|i: int| 0 <= i < l.len() ==> #[trigger] l[i] != '\n',
    ensures
        scan(p + l) == (scan(p).0, scan(p).1 + l),
    decreases l.len(),
{
    if l.len() == 0 {
        assert(p + l =~= p);
        assert(scan(p).1 + l =~= scan(p).1);
    } else {
        let l0 = l.drop_last();
        lemma_scan_no_newline(p, l0);
        assert((p + l).drop_last() =~= p + l0);
        assert((p + l).last() == l.last());
        assert(scan(p).1 + l0.push(l.last()) =~= scan(p).1 + l);
        assert((scan(p).1 + l0).push(l.last()) =~= scan(p).1 + l);
    }
}


proof fn lemma_colon_in_line(host: (Seq<char>, Seq<char>), l: Seq<char>, i: int)
    requires
        writable_host(host),
        l == seq!['"'] + host.0 + seq![':'] + host.1 + seq!['"'],
        1 <= i <= host.0.len() + 1,
    ensures
        colon_from(l, i) == host.0.len() + 1,
    decreases host.0.len() + 1 - i,
{
    if i <= host.0.len() {
        assert(l[i] == host.0[i - 1]);
        lemma_colon_in_line(host, l, i + 1);
    } else {
        assert(l[i] == ':');
    }
}

/// The script that writes each host on a line of its own, as the provider's script does,
/// reads back as those hosts, in order.
pub proof fn lemma_confgen_round_trip(hosts: Seq<(Seq<char>, Seq<char>)>)
    requires
        forall|k: int| 0 <= k < hosts.len() ==> writable_host(#[trigger] hosts[k]),
    ensures
        confgen_hosts(confgen_text(hosts)) == hosts,
{
    lemma_confgen_scan(hosts);
    assert(parsed(Seq::empty()) =~= Seq::<(Seq<char>, Seq<char>)>::empty());
    assert(hosts + Seq::<(Seq<char>, Seq<char>)>::empty() =~= hosts);
}

proof fn lemma_confgen_scan(hosts: Seq<(Seq<char>, Seq<char>)>)
    requires
        forall|k: int| 0 <= k < hosts.len() ==> writable_host(#[trigger] hosts[k]),
    ensures
        scan(confgen_text(hosts)) == (hosts, Seq::<char>::empty()),
    decreases hosts.len(),
{
    if hosts.len() == 0 {
        assert(confgen_text(hosts) =~= Seq::<char>::empty());
        assert(hosts =~= Seq::<(Seq<char>, Seq<char>)>::empty());
    } else {
        let prev = hosts.drop_last();
        let h = hosts.last();
        assert(writable_host(hosts[hosts.len() - 1]));
        lemma_confgen_scan(prev);
        let t = confgen_text(prev);
        let l = seq!['"'] + h.0 + seq![':'] + h.1 + seq!['"'];
        assert(confgen_line(h) =~= l.push('\n'));
        assert forall|i: int| 0 <= i < l.len() implies #[trigger] l[i] != '\n' by {
            if 1 <= i <= h.0.len() {
                assert(l[i] == h.0[i - 1]);
            } else if h.0.len() + 2 <= i < l.len() - 1 {
                assert(l[i] == h.1[i - h.0.len() - 2]);
            }
        }
        lemma_scan_no_newline(t, l);
        assert(scan(t).1 + l =~= l);
        let full = confgen_text(hosts);
        assert(full =~= (t + l).push('\n'));
        assert(full.drop_last() =~= t + l);
        // the line declares the host
        lemma_colon_in_line(h, l, 1);
        assert(l.subrange(1, h.0.len() + 1 as int) =~= h.0);
        assert(l.subrange(h.0.len() + 2 as int, l.len() - 1) =~= h.1);
        assert forall|j: int| 1 <= j < h.0.len() + 1 implies is_word_char(#[trigger] l[j]) by {
            assert(l[j] == h.0[j - 1]);
        }
        assert(parse_line(l) == Some(h));
        assert(parsed(l) =~= seq![h]);
        assert(prev + seq![h] =~= hosts);
    }
}


/// The endpoint of a location is its domain name with port 443.
pub proof fn lemma_endpoint_is_url_with_port(location: Seq<char>)
    ensures
        location + ".cstorm.is:443"@ == (location + ".cstorm.is"@) + ":443"@,
{
    reveal_strlit(".cstorm.is:443");
    reveal_strlit(".cstorm.is");
    reveal_strlit(":443");
    assert(location + ".cstorm.is:443"@ =~= (location + ".cstorm.is"@) + ":443"@);
}

} // verus!
