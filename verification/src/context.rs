//! The WireGuard part of the configuration, and the configuration file it makes for a server.
use chrono::TimeZone;
use vstd::prelude::*;

use crate::text::push_str;

verus! {

/// The client side of the WireGuard configuration, shared by all servers.
#[derive(Debug)]
pub struct WireguardConfig {
    /// Private key for the client.
    pub client_private_key: String,
    /// IP address for the client.
    pub client_address: String,
    /// Address of the DNS server WireGuard will use.
    pub client_dns: String,
    /// List of subnets that will be routed through the tunnel.
    pub client_allowed_ips: String,
    /// Preshared key with the WireGuard server.
    pub server_preshared_key: Option<String>,
    /// Commands executed before the interface is brought up.
    pub pre_up: Vec<String>,
    /// Commands executed after the interface is brought up.
    pub post_up: Vec<String>,
    /// Commands executed before the interface is brought down.
    pub pre_down: Vec<String>,
    /// Commands executed after the interface is brought down.
    pub post_down: Vec<String>,
    /// Persistent keepalive
    pub persistent_keepalive: Option<String>,
}

impl Default for WireguardConfig {
    fn default() -> (r: Self)
        ensures
            r.client_private_key@ == Seq::<char>::empty(),
            r.client_address@ == Seq::<char>::empty(),
            r.client_dns@ == Seq::<char>::empty(),
            r.client_allowed_ips@ == Seq::<char>::empty(),
            r.server_preshared_key is None,
            r.pre_up@.len() == 0,
            r.post_up@.len() == 0,
            r.pre_down@.len() == 0,
            r.post_down@.len() == 0,
            r.persistent_keepalive is None,
    {
        WireguardConfig {
            client_private_key: String::new(),
            client_address: String::new(),
            client_dns: String::new(),
            client_allowed_ips: String::new(),
            server_preshared_key: None,
            pre_up: Vec::new(),
            post_up: Vec::new(),
            pre_down: Vec::new(),
            post_down: Vec::new(),
            persistent_keepalive: None,
        }
    }
}

/// The characters of each string.
pub open spec fn string_views(v: Seq<String>) -> Seq<Seq<char>> {
    v.map_values(|s: String| s@)
}

/// One line `key = value` of a configuration file; `prefix` is the key with ` = `.
pub open spec fn line(prefix: Seq<char>, value: Seq<char>) -> Seq<char> {
    prefix + value + "\n"@
}

/// One line per value, in order.
pub open spec fn lines(prefix: Seq<char>, values: Seq<Seq<char>>) -> Seq<char>
    decreases values.len(),
{
    if values.len() == 0 {
        Seq::empty()
    } else {
        lines(prefix, values.drop_last()) + line(prefix, values.last())
    }
}

/// A line if there is a value, nothing otherwise.
pub open spec fn optional_line(prefix: Seq<char>, value: Option<String>) -> Seq<char> {
    match value {
        Some(v) => line(prefix, v@),
        None => Seq::empty(),
    }
}

impl WireguardConfig {
    /// The `[Interface]` section.
    pub open spec fn interface_section(self) -> Seq<char> {
        "[Interface]\n"@
            + line("PrivateKey = "@, self.client_private_key@)
            + line("Address = "@, self.client_address@)
            + line("DNS = "@, self.client_dns@)
            + lines("PreUp = "@, string_views(self.pre_up@))
            + lines("PostUp = "@, string_views(self.post_up@))
            + lines("PreDown = "@, string_views(self.pre_down@))
            + lines("PostDown = "@, string_views(self.post_down@))
    }

    /// The `[Peer]` section for the server at `endpoint` with key `public_key`.
    pub open spec fn peer_section(self, endpoint: Seq<char>, public_key: Seq<char>) -> Seq<char> {
        "[Peer]\n"@
            + line("PublicKey = "@, public_key)
            + line("Endpoint = "@, endpoint)
            + optional_line("PresharedKey = "@, self.server_preshared_key)
            + optional_line("PersistentKeepalive = "@, self.persistent_keepalive)
            + line("AllowedIPs = "@, self.client_allowed_ips@)
    }

    /// The configuration file for the server at `endpoint` with key `public_key`.
    pub open spec fn config_file(self, endpoint: Seq<char>, public_key: Seq<char>) -> Seq<char> {
        self.interface_section() + "\n"@ + self.peer_section(endpoint, public_key)
    }
}

/// Appends the line `prefix` `value`, then a newline.
fn push_line(buffer: &mut String, prefix: &str, value: &str)
    ensures
        final(buffer)@ == old(buffer)@ + line(prefix@, value@),
{
    push_str(buffer, prefix);
    push_str(buffer, value);
    push_str(buffer, "\n");
    assert(final(buffer)@ =~= old(buffer)@ + line(prefix@, value@));
}

/// Appends one line `prefix` `value` per value.
fn push_lines(buffer: &mut String, prefix: &str, values: &Vec<String>)
    ensures
        final(buffer)@ == old(buffer)@ + lines(prefix@, string_views(values@)),
{
    let mut k: usize = 0;
    while k < values.len()
        invariant
            k <= values@.len(),
            buffer@ == old(buffer)@ + lines(prefix@, string_views(values@).take(k as int)),
        decreases values@.len() - k,
    {
        let ghost before = buffer@;
        push_line(buffer, prefix, values[k].as_str());
        proof {
            let vs = string_views(values@);
            assert(vs.take(k + 1).drop_last() =~= vs.take(k as int));
            assert(vs.take(k + 1).last() == values@[k as int]@);
            assert(buffer@ =~= old(buffer)@ + lines(prefix@, vs.take(k + 1)));
        }
        k = k + 1;
    }
    assert(string_views(values@).take(values@.len() as int) =~= string_views(values@));
}

/// Appends the line `prefix` `value` if there is a value.
fn push_optional_line(buffer: &mut String, prefix: &str, value: &Option<String>)
    ensures
        final(buffer)@ == old(buffer)@ + optional_line(prefix@, *value),
{
    match value {
        Some(v) => push_line(buffer, prefix, v.as_str()),
        None => {
            assert(old(buffer)@ + optional_line(prefix@, *value) =~= old(buffer)@);
        },
    }
}

impl WireguardConfig {
    /// Create a WireGuard configuration file
    pub fn make_config(&self, server_endpoint: &str, server_public_key: &str) -> (r: String)
        ensures
            r@ == self.config_file(server_endpoint@, server_public_key@),
    {
        let mut buffer = String::new();
        push_str(&mut buffer, "[Interface]\n");
        push_line(&mut buffer, "PrivateKey = ", self.client_private_key.as_str());
        push_line(&mut buffer, "Address = ", self.client_address.as_str());
        push_line(&mut buffer, "DNS = ", self.client_dns.as_str());
        push_lines(&mut buffer, "PreUp = ", &self.pre_up);
        push_lines(&mut buffer, "PostUp = ", &self.post_up);
        push_lines(&mut buffer, "PreDown = ", &self.pre_down);
        push_lines(&mut buffer, "PostDown = ", &self.post_down);
        let ghost interface = buffer@;
        push_str(&mut buffer, "\n");
        let ghost blank = buffer@;
        push_str(&mut buffer, "[Peer]\n");
        push_line(&mut buffer, "PublicKey = ", server_public_key);
        push_line(&mut buffer, "Endpoint = ", server_endpoint);
        push_optional_line(&mut buffer, "PresharedKey = ", &self.server_preshared_key);
        push_optional_line(&mut buffer, "PersistentKeepalive = ", &self.persistent_keepalive);
        push_line(&mut buffer, "AllowedIPs = ", self.client_allowed_ips.as_str());
        proof {
            assert(interface =~= self.interface_section());
            assert(buffer@ =~= self.config_file(server_endpoint@, server_public_key@));
        }
        buffer
    }
}

/// Reading `s` from the left: the lines that a line break ended, each without its break, and
/// the text after the last break.
pub open spec fn split_lines(s: Seq<char>) -> (Seq<Seq<char>>, Seq<char>)
    decreases s.len(),
{
    if s.len() == 0 {
        (Seq::empty(), Seq::empty())
    } else {
        let (done, rest) = split_lines(s.drop_last());
        if s.last() == '\n' {
            (done.push(rest), Seq::empty())
        } else {
            (done, rest.push(s.last()))
        }
    }
}

/// The lines of the text `s`, without their breaks; text after the last break is a line too.
pub open spec fn text_lines(s: Seq<char>) -> Seq<Seq<char>> {
    let (done, rest) = split_lines(s);
    if rest.len() == 0 { done } else { done.push(rest) }
}

/// The values that the lines `ls` give to `name`: each line that begins with `name` and ` = `
/// gives the rest of the line, in order.
pub open spec fn values_of(ls: Seq<Seq<char>>, name: Seq<char>) -> Seq<Seq<char>>
    decreases ls.len(),
{
    if ls.len() == 0 {
        Seq::empty()
    } else {
        let rest = values_of(ls.drop_last(), name);
        let key = name + seq![' ', '=', ' '];
        let l = ls.last();
        if l.len() >= key.len() && l.take(key.len() as int) == key {
            rest.push(l.skip(key.len() as int))
        } else {
            rest
        }
    }
}

/// Whether `s` holds no line break.
pub open spec fn one_line(s: Seq<char>) -> bool {
    forall|j: int| 0 <= j < s.len() ==> #[trigger] s[j] != '\n'
}

/// Whether `s` holds no space.
pub open spec fn no_space(s: Seq<char>) -> bool {
    forall|j: int| 0 <= j < s.len() ==> #[trigger] s[j] != ' '
}

/// The value of an optional setting, as a list of none or one.
pub open spec fn optional_values(value: Option<String>) -> Seq<Seq<char>> {
    match value {
        Some(v) => seq![v@],
        None => Seq::empty(),
    }
}

/// The lines `ls`, each followed by a line break.
spec fn joined(ls: Seq<Seq<char>>) -> Seq<char>
    decreases ls.len(),
{
    if ls.len() == 0 {
        Seq::empty()
    } else {
        joined(ls.drop_last()) + ls.last() + seq!['\n']
    }
}

/// One line `name = value` per value.
spec fn field_lines(name: Seq<char>, values: Seq<Seq<char>>) -> Seq<Seq<char>> {
    values.map_values(|v: Seq<char>| name + seq![' ', '=', ' '] + v)
}

proof fn lemma_joined_add(a: Seq<Seq<char>>, b: Seq<Seq<char>>)
    ensures
        joined(a + b) == joined(a) + joined(b),
    decreases b.len(),
{
    if b.len() == 0 {
        assert(a + b =~= a);
        assert(joined(a) + joined(b) =~= joined(a));
    } else {
        lemma_joined_add(a, b.drop_last());
        assert((a + b).drop_last() =~= a + b.drop_last());
        assert((a + b).last() == b.last());
        assert(joined(a + b) =~= joined(a) + joined(b));
    }
}

proof fn lemma_lines_joined(name: Seq<char>, values: Seq<Seq<char>>)
    ensures
        lines(name + seq![' ', '=', ' '], values) == joined(field_lines(name, values)),
    decreases values.len(),
{
    reveal_strlit("\n");
    if values.len() > 0 {
        lemma_lines_joined(name, values.drop_last());
        assert(field_lines(name, values).drop_last() =~= field_lines(name, values.drop_last()));
        assert(lines(name + seq![' ', '=', ' '], values) =~= joined(field_lines(name, values)));
    } else {
        assert(field_lines(name, values) =~= Seq::<Seq<char>>::empty());
    }
}

proof fn lemma_line_joined(name: Seq<char>, value: Seq<char>)
    ensures
        line(name + seq![' ', '=', ' '], value) == joined(field_lines(name, seq![value])),
{
    lemma_lines_joined(name, seq![value]);
    let prefix = name + seq![' ', '=', ' '];
    assert(seq![value].drop_last() =~= Seq::<Seq<char>>::empty());
    assert(lines(prefix, Seq::<Seq<char>>::empty()) == Seq::<char>::empty());
    assert(lines(prefix, seq![value]) =~= line(prefix, value));
}

proof fn lemma_optional_line_joined(name: Seq<char>, value: Option<String>)
    ensures
        optional_line(name + seq![' ', '=', ' '], value) == joined(field_lines(name, optional_values(value))),
{
    match value {
        Some(v) => lemma_line_joined(name, v@),
        None => {
            assert(field_lines(name, optional_values(value)) =~= Seq::<Seq<char>>::empty());
        },
    }
}

proof fn lemma_split_one_line(p: Seq<char>, l: Seq<char>)
    requires
        one_line(l),
    ensures
        split_lines(p + l) == (split_lines(p).0, split_lines(p).1 + l),
    decreases l.len(),
{
    if l.len() == 0 {
        assert(p + l =~= p);
        assert(split_lines(p).1 + l =~= split_lines(p).1);
    } else {
        let l0 = l.drop_last();
        lemma_split_one_line(p, l0);
        assert((p + l).drop_last() =~= p + l0);
        assert((p + l).last() == l.last());
        assert(l.last() == l[l.len() - 1]);
        assert((split_lines(p).1 + l0).push(l.last()) =~= split_lines(p).1 + l);
    }
}

proof fn lemma_split_joined(ls: Seq<Seq<char>>)
    requires
        forall|k: int| 0 <= k < ls.len() ==> one_line(#[trigger] ls[k]),
    ensures
        split_lines(joined(ls)) == (ls, Seq::<char>::empty()),
        text_lines(joined(ls)) == ls,
    decreases ls.len(),
{
    if ls.len() == 0 {
        assert(ls =~= Seq::<Seq<char>>::empty());
    } else {
        let prev = ls.drop_last();
        assert forall|k: int| 0 <= k < prev.len() implies one_line(#[trigger] prev[k]) by {
            assert(prev[k] == ls[k]);
        }
        lemma_split_joined(prev);
        assert(one_line(ls[ls.len() - 1]));
        lemma_split_one_line(joined(prev), ls.last());
        let t = joined(prev) + ls.last();
        assert(joined(ls) == t.push('\n')) by {
            assert(joined(ls) =~= t.push('\n'));
        }
        assert(joined(ls).drop_last() =~= t);
        assert(Seq::<char>::empty() + ls.last() =~= ls.last());
        assert(prev.push(ls.last()) =~= ls);
    }
}

proof fn lemma_values_of_add(a: Seq<Seq<char>>, b: Seq<Seq<char>>)
    ensures
        forall|n: Seq<char>| #[trigger] values_of(a + b, n) == values_of(a, n) + values_of(b, n),
    decreases b.len(),
{
    if b.len() == 0 {
        assert(a + b =~= a);
        assert forall|n: Seq<char>| #[trigger] values_of(a + b, n) == values_of(a, n) + values_of(b, n) by {
            assert(values_of(b, n) == Seq::<Seq<char>>::empty());
            assert(values_of(a, n) + values_of(b, n) =~= values_of(a, n));
        }
    } else {
        lemma_values_of_add(a, b.drop_last());
        let ab = a + b;
        assert(ab.drop_last() =~= a + b.drop_last());
        assert(ab.last() == b.last());
        assert forall|n: Seq<char>| #[trigger] values_of(a + b, n) == values_of(a, n) + values_of(b, n) by {
            let key = n + seq![' ', '=', ' '];
            let l = b.last();
            let va = values_of(a, n);
            let vb0 = values_of(b.drop_last(), n);
            assert(values_of(ab.drop_last(), n) == va + vb0);
            if l.len() >= key.len() && l.take(key.len() as int) == key {
                assert(values_of(b, n) == vb0.push(l.skip(key.len() as int)));
                assert(values_of(ab, n) == (va + vb0).push(l.skip(key.len() as int)));
                assert((va + vb0).push(l.skip(key.len() as int)) =~= va + vb0.push(l.skip(key.len() as int)));
            } else {
                assert(values_of(b, n) == vb0);
                assert(values_of(ab, n) == va + vb0);
            }
        }
    }
}

proof fn lemma_values_of_fields(name: Seq<char>, values: Seq<Seq<char>>)
    requires
        no_space(name),
    ensures
        forall|n: Seq<char>| no_space(n) ==> #[trigger] values_of(field_lines(name, values), n)
            == if name == n { values } else { Seq::<Seq<char>>::empty() },
    decreases values.len(),
{
    let fl = field_lines(name, values);
    if values.len() == 0 {
        assert(fl =~= Seq::<Seq<char>>::empty());
        assert forall|n: Seq<char>| no_space(n) implies #[trigger] values_of(fl, n)
            == if name == n { values } else { Seq::<Seq<char>>::empty() } by {
            assert(values =~= Seq::<Seq<char>>::empty());
        }
    } else {
        lemma_values_of_fields(name, values.drop_last());
        assert(fl.drop_last() =~= field_lines(name, values.drop_last()));
        let v = values.last();
        let l = fl.last();
        assert(l == name + seq![' ', '=', ' '] + v);
        assert forall|n: Seq<char>| no_space(n) implies #[trigger] values_of(fl, n)
            == if name == n { values } else { Seq::<Seq<char>>::empty() } by {
            let key = n + seq![' ', '=', ' '];
            let rest = values_of(field_lines(name, values.drop_last()), n);
            assert(values_of(fl.drop_last(), n) == rest);
            if name == n {
                assert(l.take(key.len() as int) =~= key);
                assert(l.skip(key.len() as int) =~= v);
                assert(values_of(fl, n) == rest.push(v));
                assert(values.drop_last().push(v) =~= values);
            } else {
                if l.len() >= key.len() && l.take(key.len() as int) == key {
                    if n.len() < name.len() {
                        assert(l[n.len() as int] == name[n.len() as int]);
                        assert(l.take(key.len() as int)[n.len() as int] == key[n.len() as int]);
                        assert(false);
                    } else if n.len() > name.len() {
                        assert(l[name.len() as int] == ' ');
                        assert(l.take(key.len() as int)[name.len() as int] == key[name.len() as int]);
                        assert(key[name.len() as int] == n[name.len() as int]);
                        assert(false);
                    } else {
                        assert forall|j: int| 0 <= j < n.len() implies name[j] == n[j] by {
                            assert(l.take(key.len() as int)[j] == key[j]);
                            assert(l[j] == name[j]);
                        }
                        assert(name =~= n);
                    }
                }
                assert(values_of(fl, n) == rest);
            }
        }
    }
}

proof fn lemma_values_of_plain(l: Seq<char>)
    requires
        no_space(l),
    ensures
        forall|n: Seq<char>| #[trigger] values_of(seq![l], n) == Seq::<Seq<char>>::empty(),
{
    assert forall|n: Seq<char>| #[trigger] values_of(seq![l], n) == Seq::<Seq<char>>::empty() by {
        let key = n + seq![' ', '=', ' '];
        assert(seq![l].drop_last() =~= Seq::<Seq<char>>::empty());
        assert(values_of(Seq::<Seq<char>>::empty(), n) == Seq::<Seq<char>>::empty());
        assert(seq![l].last() == l);
        if l.len() >= key.len() && l.take(key.len() as int) == key {
            assert(key[n.len() as int] == ' ');
            assert(l.take(key.len() as int)[n.len() as int] == key[n.len() as int]);
            assert(l.take(key.len() as int)[n.len() as int] == l[n.len() as int]);
            assert(false);
        }
    }
}

/// Whether every line of `ls` holds no line break.
spec fn all_one_line(ls: Seq<Seq<char>>) -> bool {
    forall|k: int| 0 <= k < ls.len() ==> one_line(#[trigger] ls[k])
}

proof fn lemma_all_one_line_add(a: Seq<Seq<char>>, b: Seq<Seq<char>>)
    requires
        all_one_line(a),
        all_one_line(b),
    ensures
        all_one_line(a + b),
{
    assert forall|k: int| 0 <= k < (a + b).len() implies one_line(#[trigger] (a + b)[k]) by {
        if k < a.len() {
            assert((a + b)[k] == a[k]);
        } else {
            assert((a + b)[k] == b[k - a.len()]);
        }
    }
}

proof fn lemma_field_lines_one_line(name: Seq<char>, values: Seq<Seq<char>>)
    requires
        one_line(name),
        all_one_line(values),
    ensures
        all_one_line(field_lines(name, values)),
{
    let fl = field_lines(name, values);
    assert forall|k: int| 0 <= k < fl.len() implies one_line(#[trigger] fl[k]) by {
        let l = fl[k];
        assert(l == name + seq![' ', '=', ' '] + values[k]);
        assert(one_line(values[k]));
        assert forall|j: int| 0 <= j < l.len() implies #[trigger] l[j] != '\n' by {
            if j < name.len() {
                assert(l[j] == name[j]);
            } else if j >= name.len() + 3 {
                assert(l[j] == values[k][j - name.len() - 3]);
            }
        }
    }
}

/// The lines of the `[Interface]` section, by setting.
spec fn interface_lines(c: WireguardConfig) -> Seq<Seq<char>> {
    seq!["[Interface]"@]
        + field_lines("PrivateKey"@, seq![c.client_private_key@])
        + field_lines("Address"@, seq![c.client_address@])
        + field_lines("DNS"@, seq![c.client_dns@])
        + field_lines("PreUp"@, string_views(c.pre_up@))
        + field_lines("PostUp"@, string_views(c.post_up@))
        + field_lines("PreDown"@, string_views(c.pre_down@))
        + field_lines("PostDown"@, string_views(c.post_down@))
}

/// The lines of the `[Peer]` section, by setting.
spec fn peer_lines(c: WireguardConfig, endpoint: Seq<char>, public_key: Seq<char>) -> Seq<Seq<char>> {
    seq!["[Peer]"@]
        + field_lines("PublicKey"@, seq![public_key])
        + field_lines("Endpoint"@, seq![endpoint])
        + field_lines("PresharedKey"@, optional_values(c.server_preshared_key))
        + field_lines("PersistentKeepalive"@, optional_values(c.persistent_keepalive))
        + field_lines("AllowedIPs"@, seq![c.client_allowed_ips@])
}

/// The lines of the configuration file, by setting.
spec fn config_lines(c: WireguardConfig, endpoint: Seq<char>, public_key: Seq<char>) -> Seq<Seq<char>> {
    interface_lines(c) + seq![Seq::<char>::empty()] + peer_lines(c, endpoint, public_key)
}

/// The values that the lines of the configuration file give to a name `n`: those of the
/// setting named `n`, if there is one.
#[verifier::rlimit(50)]
proof fn lemma_setting_values_of(c: WireguardConfig, endpoint: Seq<char>, public_key: Seq<char>, n: Seq<char>)
    requires
        no_space(n),
    ensures
        values_of(config_lines(c, endpoint, public_key), n) == (if n == "PrivateKey"@ { seq![c.client_private_key@] } else if n == "Address"@ { seq![c.client_address@] } else if n == "DNS"@ { seq![c.client_dns@] } else if n == "PreUp"@ { string_views(c.pre_up@) } else if n == "PostUp"@ { string_views(c.post_up@) } else if n == "PreDown"@ { string_views(c.pre_down@) } else if n == "PostDown"@ { string_views(c.post_down@) } else if n == "PublicKey"@ { seq![public_key] } else if n == "Endpoint"@ { seq![endpoint] } else if n == "PresharedKey"@ { optional_values(c.server_preshared_key) } else if n == "PersistentKeepalive"@ { optional_values(c.persistent_keepalive) } else if n == "AllowedIPs"@ { seq![c.client_allowed_ips@] } else { Seq::<Seq<char>>::empty() }),
{

    reveal_strlit("PrivateKey");
    reveal_strlit("Address");
    reveal_strlit("DNS");
    reveal_strlit("PreUp");
    reveal_strlit("PostUp");
    reveal_strlit("PreDown");
    reveal_strlit("PostDown");
    reveal_strlit("PublicKey");
    reveal_strlit("Endpoint");
    reveal_strlit("PresharedKey");
    reveal_strlit("PersistentKeepalive");
    reveal_strlit("AllowedIPs");
    reveal_strlit("[Interface]");
    reveal_strlit("[Peer]");
    assert(no_space("PrivateKey"@));
    assert(no_space("Address"@));
    assert(no_space("DNS"@));
    assert(no_space("PreUp"@));
    assert(no_space("PostUp"@));
    assert(no_space("PreDown"@));
    assert(no_space("PostDown"@));
    assert(no_space("PublicKey"@));
    assert(no_space("Endpoint"@));
    assert(no_space("PresharedKey"@));
    assert(no_space("PersistentKeepalive"@));
    assert(no_space("AllowedIPs"@));
    assert("Address"@ != "PreDown"@) by { assert("Address"@[0] != "PreDown"@[0]); }
    assert("PostDown"@ != "Endpoint"@) by { assert("PostDown"@[0] != "Endpoint"@[0]); }
    assert("PrivateKey"@ != "AllowedIPs"@) by { assert("PrivateKey"@[0] != "AllowedIPs"@[0]); }
    assert(no_space("[Interface]"@));
    assert(no_space("[Peer]"@));
    assert(no_space(Seq::<char>::empty()));
    let e = Seq::<Seq<char>>::empty();
    let s0 = seq!["[Interface]"@];
    let s1 = field_lines("PrivateKey"@, seq![c.client_private_key@]);
    let s2 = field_lines("Address"@, seq![c.client_address@]);
    let s3 = field_lines("DNS"@, seq![c.client_dns@]);
    let s4 = field_lines("PreUp"@, string_views(c.pre_up@));
    let s5 = field_lines("PostUp"@, string_views(c.post_up@));
    let s6 = field_lines("PreDown"@, string_views(c.pre_down@));
    let s7 = field_lines("PostDown"@, string_views(c.post_down@));
    let s8 = seq![Seq::<char>::empty()];
    let s9 = seq!["[Peer]"@];
    let s10 = field_lines("PublicKey"@, seq![public_key]);
    let s11 = field_lines("Endpoint"@, seq![endpoint]);
    let s12 = field_lines("PresharedKey"@, optional_values(c.server_preshared_key));
    let s13 = field_lines("PersistentKeepalive"@, optional_values(c.persistent_keepalive));
    let s14 = field_lines("AllowedIPs"@, seq![c.client_allowed_ips@]);
    lemma_values_of_plain("[Interface]"@);
    lemma_values_of_fields("PrivateKey"@, seq![c.client_private_key@]);
    lemma_values_of_fields("Address"@, seq![c.client_address@]);
    lemma_values_of_fields("DNS"@, seq![c.client_dns@]);
    lemma_values_of_fields("PreUp"@, string_views(c.pre_up@));
    lemma_values_of_fields("PostUp"@, string_views(c.post_up@));
    lemma_values_of_fields("PreDown"@, string_views(c.pre_down@));
    lemma_values_of_fields("PostDown"@, string_views(c.post_down@));
    lemma_values_of_plain(Seq::<char>::empty());
    lemma_values_of_plain("[Peer]"@);
    lemma_values_of_fields("PublicKey"@, seq![public_key]);
    lemma_values_of_fields("Endpoint"@, seq![endpoint]);
    lemma_values_of_fields("PresharedKey"@, optional_values(c.server_preshared_key));
    lemma_values_of_fields("PersistentKeepalive"@, optional_values(c.persistent_keepalive));
    lemma_values_of_fields("AllowedIPs"@, seq![c.client_allowed_ips@]);
    let p0 = s0;
    assert(values_of(p0, n) =~= (Seq::<Seq<char>>::empty()));
    let p1 = p0 + s1;
    lemma_values_of_add(p0, s1);
    assert(values_of(p1, n) =~= (if n == "PrivateKey"@ { seq![c.client_private_key@] } else { Seq::<Seq<char>>::empty() }));
    let p2 = p1 + s2;
    lemma_values_of_add(p1, s2);
    assert(values_of(p2, n) =~= (if n == "PrivateKey"@ { seq![c.client_private_key@] } else if n == "Address"@ { seq![c.client_address@] } else { Seq::<Seq<char>>::empty() }));
    let p3 = p2 + s3;
    lemma_values_of_add(p2, s3);
    assert(values_of(p3, n) =~= (if n == "PrivateKey"@ { seq![c.client_private_key@] } else if n == "Address"@ { seq![c.client_address@] } else if n == "DNS"@ { seq![c.client_dns@] } else { Seq::<Seq<char>>::empty() }));
    let p4 = p3 + s4;
    lemma_values_of_add(p3, s4);
    assert(values_of(p4, n) =~= (if n == "PrivateKey"@ { seq![c.client_private_key@] } else if n == "Address"@ { seq![c.client_address@] } else if n == "DNS"@ { seq![c.client_dns@] } else if n == "PreUp"@ { string_views(c.pre_up@) } else { Seq::<Seq<char>>::empty() }));
    let p5 = p4 + s5;
    lemma_values_of_add(p4, s5);
    assert(values_of(p5, n) =~= (if n == "PrivateKey"@ { seq![c.client_private_key@] } else if n == "Address"@ { seq![c.client_address@] } else if n == "DNS"@ { seq![c.client_dns@] } else if n == "PreUp"@ { string_views(c.pre_up@) } else if n == "PostUp"@ { string_views(c.post_up@) } else { Seq::<Seq<char>>::empty() }));
    let p6 = p5 + s6;
    lemma_values_of_add(p5, s6);
    assert(values_of(p6, n) =~= (if n == "PrivateKey"@ { seq![c.client_private_key@] } else if n == "Address"@ { seq![c.client_address@] } else if n == "DNS"@ { seq![c.client_dns@] } else if n == "PreUp"@ { string_views(c.pre_up@) } else if n == "PostUp"@ { string_views(c.post_up@) } else if n == "PreDown"@ { string_views(c.pre_down@) } else { Seq::<Seq<char>>::empty() }));
    let p7 = p6 + s7;
    lemma_values_of_add(p6, s7);
    assert(values_of(p7, n) =~= (if n == "PrivateKey"@ { seq![c.client_private_key@] } else if n == "Address"@ { seq![c.client_address@] } else if n == "DNS"@ { seq![c.client_dns@] } else if n == "PreUp"@ { string_views(c.pre_up@) } else if n == "PostUp"@ { string_views(c.post_up@) } else if n == "PreDown"@ { string_views(c.pre_down@) } else if n == "PostDown"@ { string_views(c.post_down@) } else { Seq::<Seq<char>>::empty() }));
    let p8 = p7 + s8;
    lemma_values_of_add(p7, s8);
    assert(values_of(p8, n) =~= (if n == "PrivateKey"@ { seq![c.client_private_key@] } else if n == "Address"@ { seq![c.client_address@] } else if n == "DNS"@ { seq![c.client_dns@] } else if n == "PreUp"@ { string_views(c.pre_up@) } else if n == "PostUp"@ { string_views(c.post_up@) } else if n == "PreDown"@ { string_views(c.pre_down@) } else if n == "PostDown"@ { string_views(c.post_down@) } else { Seq::<Seq<char>>::empty() }));
    let p9 = p8 + s9;
    lemma_values_of_add(p8, s9);
    assert(values_of(p9, n) =~= (if n == "PrivateKey"@ { seq![c.client_private_key@] } else if n == "Address"@ { seq![c.client_address@] } else if n == "DNS"@ { seq![c.client_dns@] } else if n == "PreUp"@ { string_views(c.pre_up@) } else if n == "PostUp"@ { string_views(c.post_up@) } else if n == "PreDown"@ { string_views(c.pre_down@) } else if n == "PostDown"@ { string_views(c.post_down@) } else { Seq::<Seq<char>>::empty() }));
    let p10 = p9 + s10;
    lemma_values_of_add(p9, s10);
    assert(values_of(p10, n) =~= (if n == "PrivateKey"@ { seq![c.client_private_key@] } else if n == "Address"@ { seq![c.client_address@] } else if n == "DNS"@ { seq![c.client_dns@] } else if n == "PreUp"@ { string_views(c.pre_up@) } else if n == "PostUp"@ { string_views(c.post_up@) } else if n == "PreDown"@ { string_views(c.pre_down@) } else if n == "PostDown"@ { string_views(c.post_down@) } else if n == "PublicKey"@ { seq![public_key] } else { Seq::<Seq<char>>::empty() }));
    let p11 = p10 + s11;
    lemma_values_of_add(p10, s11);
    assert(values_of(p11, n) =~= (if n == "PrivateKey"@ { seq![c.client_private_key@] } else if n == "Address"@ { seq![c.client_address@] } else if n == "DNS"@ { seq![c.client_dns@] } else if n == "PreUp"@ { string_views(c.pre_up@) } else if n == "PostUp"@ { string_views(c.post_up@) } else if n == "PreDown"@ { string_views(c.pre_down@) } else if n == "PostDown"@ { string_views(c.post_down@) } else if n == "PublicKey"@ { seq![public_key] } else if n == "Endpoint"@ { seq![endpoint] } else { Seq::<Seq<char>>::empty() }));
    let p12 = p11 + s12;
    lemma_values_of_add(p11, s12);
    assert(values_of(p12, n) =~= (if n == "PrivateKey"@ { seq![c.client_private_key@] } else if n == "Address"@ { seq![c.client_address@] } else if n == "DNS"@ { seq![c.client_dns@] } else if n == "PreUp"@ { string_views(c.pre_up@) } else if n == "PostUp"@ { string_views(c.post_up@) } else if n == "PreDown"@ { string_views(c.pre_down@) } else if n == "PostDown"@ { string_views(c.post_down@) } else if n == "PublicKey"@ { seq![public_key] } else if n == "Endpoint"@ { seq![endpoint] } else if n == "PresharedKey"@ { optional_values(c.server_preshared_key) } else { Seq::<Seq<char>>::empty() }));
    let p13 = p12 + s13;
    lemma_values_of_add(p12, s13);
    assert(values_of(p13, n) =~= (if n == "PrivateKey"@ { seq![c.client_private_key@] } else if n == "Address"@ { seq![c.client_address@] } else if n == "DNS"@ { seq![c.client_dns@] } else if n == "PreUp"@ { string_views(c.pre_up@) } else if n == "PostUp"@ { string_views(c.post_up@) } else if n == "PreDown"@ { string_views(c.pre_down@) } else if n == "PostDown"@ { string_views(c.post_down@) } else if n == "PublicKey"@ { seq![public_key] } else if n == "Endpoint"@ { seq![endpoint] } else if n == "PresharedKey"@ { optional_values(c.server_preshared_key) } else if n == "PersistentKeepalive"@ { optional_values(c.persistent_keepalive) } else { Seq::<Seq<char>>::empty() }));
    let p14 = p13 + s14;
    lemma_values_of_add(p13, s14);
    assert(values_of(p14, n) =~= (if n == "PrivateKey"@ { seq![c.client_private_key@] } else if n == "Address"@ { seq![c.client_address@] } else if n == "DNS"@ { seq![c.client_dns@] } else if n == "PreUp"@ { string_views(c.pre_up@) } else if n == "PostUp"@ { string_views(c.post_up@) } else if n == "PreDown"@ { string_views(c.pre_down@) } else if n == "PostDown"@ { string_views(c.post_down@) } else if n == "PublicKey"@ { seq![public_key] } else if n == "Endpoint"@ { seq![endpoint] } else if n == "PresharedKey"@ { optional_values(c.server_preshared_key) } else if n == "PersistentKeepalive"@ { optional_values(c.persistent_keepalive) } else if n == "AllowedIPs"@ { seq![c.client_allowed_ips@] } else { Seq::<Seq<char>>::empty() }));
    assert(p14 =~= config_lines(c, endpoint, public_key));
}

proof fn lemma_setting_values(c: WireguardConfig, endpoint: Seq<char>, public_key: Seq<char>)
    ensures
        values_of(config_lines(c, endpoint, public_key), "PrivateKey"@) == seq![c.client_private_key@],
        values_of(config_lines(c, endpoint, public_key), "Address"@) == seq![c.client_address@],
        values_of(config_lines(c, endpoint, public_key), "DNS"@) == seq![c.client_dns@],
        values_of(config_lines(c, endpoint, public_key), "PreUp"@) == string_views(c.pre_up@),
        values_of(config_lines(c, endpoint, public_key), "PostUp"@) == string_views(c.post_up@),
        values_of(config_lines(c, endpoint, public_key), "PreDown"@) == string_views(c.pre_down@),
        values_of(config_lines(c, endpoint, public_key), "PostDown"@) == string_views(c.post_down@),
        values_of(config_lines(c, endpoint, public_key), "PublicKey"@) == seq![public_key],
        values_of(config_lines(c, endpoint, public_key), "Endpoint"@) == seq![endpoint],
        values_of(config_lines(c, endpoint, public_key), "PresharedKey"@) == optional_values(c.server_preshared_key),
        values_of(config_lines(c, endpoint, public_key), "PersistentKeepalive"@) == optional_values(c.persistent_keepalive),
        values_of(config_lines(c, endpoint, public_key), "AllowedIPs"@) == seq![c.client_allowed_ips@],
{
    reveal_strlit("PrivateKey");
    reveal_strlit("Address");
    reveal_strlit("DNS");
    reveal_strlit("PreUp");
    reveal_strlit("PostUp");
    reveal_strlit("PreDown");
    reveal_strlit("PostDown");
    reveal_strlit("PublicKey");
    reveal_strlit("Endpoint");
    reveal_strlit("PresharedKey");
    reveal_strlit("PersistentKeepalive");
    reveal_strlit("AllowedIPs");
    assert(no_space("PrivateKey"@));
    assert(no_space("Address"@));
    assert(no_space("DNS"@));
    assert(no_space("PreUp"@));
    assert(no_space("PostUp"@));
    assert(no_space("PreDown"@));
    assert(no_space("PostDown"@));
    assert(no_space("PublicKey"@));
    assert(no_space("Endpoint"@));
    assert(no_space("PresharedKey"@));
    assert(no_space("PersistentKeepalive"@));
    assert(no_space("AllowedIPs"@));
    assert("Address"@ != "PreDown"@) by { assert("Address"@[0] != "PreDown"@[0]); }
    assert("PostDown"@ != "Endpoint"@) by { assert("PostDown"@[0] != "Endpoint"@[0]); }
    assert("PrivateKey"@ != "AllowedIPs"@) by { assert("PrivateKey"@[0] != "AllowedIPs"@[0]); }
    lemma_setting_values_of(c, endpoint, public_key, "PrivateKey"@);
    lemma_setting_values_of(c, endpoint, public_key, "Address"@);
    lemma_setting_values_of(c, endpoint, public_key, "DNS"@);
    lemma_setting_values_of(c, endpoint, public_key, "PreUp"@);
    lemma_setting_values_of(c, endpoint, public_key, "PostUp"@);
    lemma_setting_values_of(c, endpoint, public_key, "PreDown"@);
    lemma_setting_values_of(c, endpoint, public_key, "PostDown"@);
    lemma_setting_values_of(c, endpoint, public_key, "PublicKey"@);
    lemma_setting_values_of(c, endpoint, public_key, "Endpoint"@);
    lemma_setting_values_of(c, endpoint, public_key, "PresharedKey"@);
    lemma_setting_values_of(c, endpoint, public_key, "PersistentKeepalive"@);
    lemma_setting_values_of(c, endpoint, public_key, "AllowedIPs"@);
}

/// The configuration file is its lines, by setting, each followed by a line break.
proof fn lemma_config_file_joined(c: WireguardConfig, endpoint: Seq<char>, public_key: Seq<char>)
    ensures
        joined(config_lines(c, endpoint, public_key)) == c.config_file(endpoint, public_key),
{
    reveal_strlit("PrivateKey");
    reveal_strlit("PrivateKey = ");
    reveal_strlit("Address");
    reveal_strlit("Address = ");
    reveal_strlit("DNS");
    reveal_strlit("DNS = ");
    reveal_strlit("PreUp");
    reveal_strlit("PreUp = ");
    reveal_strlit("PostUp");
    reveal_strlit("PostUp = ");
    reveal_strlit("PreDown");
    reveal_strlit("PreDown = ");
    reveal_strlit("PostDown");
    reveal_strlit("PostDown = ");
    reveal_strlit("PublicKey");
    reveal_strlit("PublicKey = ");
    reveal_strlit("Endpoint");
    reveal_strlit("Endpoint = ");
    reveal_strlit("PresharedKey");
    reveal_strlit("PresharedKey = ");
    reveal_strlit("PersistentKeepalive");
    reveal_strlit("PersistentKeepalive = ");
    reveal_strlit("AllowedIPs");
    reveal_strlit("AllowedIPs = ");
    reveal_strlit("[Interface]");
    reveal_strlit("[Interface]\n");
    reveal_strlit("[Peer]");
    reveal_strlit("[Peer]\n");
    reveal_strlit("\n");
    assert("PrivateKey = "@ =~= "PrivateKey"@ + seq![' ', '=', ' ']);
    assert("Address = "@ =~= "Address"@ + seq![' ', '=', ' ']);
    assert("DNS = "@ =~= "DNS"@ + seq![' ', '=', ' ']);
    assert("PreUp = "@ =~= "PreUp"@ + seq![' ', '=', ' ']);
    assert("PostUp = "@ =~= "PostUp"@ + seq![' ', '=', ' ']);
    assert("PreDown = "@ =~= "PreDown"@ + seq![' ', '=', ' ']);
    assert("PostDown = "@ =~= "PostDown"@ + seq![' ', '=', ' ']);
    assert("PublicKey = "@ =~= "PublicKey"@ + seq![' ', '=', ' ']);
    assert("Endpoint = "@ =~= "Endpoint"@ + seq![' ', '=', ' ']);
    assert("PresharedKey = "@ =~= "PresharedKey"@ + seq![' ', '=', ' ']);
    assert("PersistentKeepalive = "@ =~= "PersistentKeepalive"@ + seq![' ', '=', ' ']);
    assert("AllowedIPs = "@ =~= "AllowedIPs"@ + seq![' ', '=', ' ']);
    assert(joined(Seq::<Seq<char>>::empty()) == Seq::<char>::empty());
    let i0 = seq!["[Interface]"@];
    let i1 = field_lines("PrivateKey"@, seq![c.client_private_key@]);
    let i2 = field_lines("Address"@, seq![c.client_address@]);
    let i3 = field_lines("DNS"@, seq![c.client_dns@]);
    let i4 = field_lines("PreUp"@, string_views(c.pre_up@));
    let i5 = field_lines("PostUp"@, string_views(c.post_up@));
    let i6 = field_lines("PreDown"@, string_views(c.pre_down@));
    let i7 = field_lines("PostDown"@, string_views(c.post_down@));
    assert(joined(i0) =~= "[Interface]\n"@) by { assert(i0.drop_last() =~= Seq::<Seq<char>>::empty()); }
    lemma_line_joined("PrivateKey"@, c.client_private_key@);
    lemma_line_joined("Address"@, c.client_address@);
    lemma_line_joined("DNS"@, c.client_dns@);
    lemma_lines_joined("PreUp"@, string_views(c.pre_up@));
    lemma_lines_joined("PostUp"@, string_views(c.post_up@));
    lemma_lines_joined("PreDown"@, string_views(c.pre_down@));
    lemma_lines_joined("PostDown"@, string_views(c.post_down@));
    let ip0 = i0;
    let ip1 = ip0 + i1;
    lemma_joined_add(ip0, i1);
    let ip2 = ip1 + i2;
    lemma_joined_add(ip1, i2);
    let ip3 = ip2 + i3;
    lemma_joined_add(ip2, i3);
    let ip4 = ip3 + i4;
    lemma_joined_add(ip3, i4);
    let ip5 = ip4 + i5;
    lemma_joined_add(ip4, i5);
    let ip6 = ip5 + i6;
    lemma_joined_add(ip5, i6);
    let ip7 = ip6 + i7;
    lemma_joined_add(ip6, i7);
    assert(ip7 == interface_lines(c));
    assert(joined(ip7) == c.interface_section());
    let q0 = seq!["[Peer]"@];
    let q1 = field_lines("PublicKey"@, seq![public_key]);
    let q2 = field_lines("Endpoint"@, seq![endpoint]);
    let q3 = field_lines("PresharedKey"@, optional_values(c.server_preshared_key));
    let q4 = field_lines("PersistentKeepalive"@, optional_values(c.persistent_keepalive));
    let q5 = field_lines("AllowedIPs"@, seq![c.client_allowed_ips@]);
    assert(joined(q0) =~= "[Peer]\n"@) by { assert(q0.drop_last() =~= Seq::<Seq<char>>::empty()); }
    lemma_line_joined("PublicKey"@, public_key);
    lemma_line_joined("Endpoint"@, endpoint);
    lemma_optional_line_joined("PresharedKey"@, c.server_preshared_key);
    lemma_optional_line_joined("PersistentKeepalive"@, c.persistent_keepalive);
    lemma_line_joined("AllowedIPs"@, c.client_allowed_ips@);
    let qp0 = q0;
    let qp1 = qp0 + q1;
    lemma_joined_add(qp0, q1);
    let qp2 = qp1 + q2;
    lemma_joined_add(qp1, q2);
    let qp3 = qp2 + q3;
    lemma_joined_add(qp2, q3);
    let qp4 = qp3 + q4;
    lemma_joined_add(qp3, q4);
    let qp5 = qp4 + q5;
    lemma_joined_add(qp4, q5);
    assert(qp5 == peer_lines(c, endpoint, public_key));
    assert(joined(qp5) == c.peer_section(endpoint, public_key));
    let blank = seq![Seq::<char>::empty()];
    assert(joined(blank) =~= "\n"@) by { assert(blank.drop_last() =~= Seq::<Seq<char>>::empty()); }
    lemma_joined_add(ip7, blank);
    lemma_joined_add(ip7 + blank, qp5);
}

/// When no value holds a line break, no line of the configuration file does.
proof fn lemma_config_lines_one_line(c: WireguardConfig, endpoint: Seq<char>, public_key: Seq<char>)
    requires
        one_line(c.client_private_key@),
        one_line(c.client_address@),
        one_line(c.client_dns@),
        one_line(c.client_allowed_ips@),
        forall|k: int| 0 <= k < c.pre_up@.len() ==> one_line(#[trigger] c.pre_up@[k]@),
        forall|k: int| 0 <= k < c.post_up@.len() ==> one_line(#[trigger] c.post_up@[k]@),
        forall|k: int| 0 <= k < c.pre_down@.len() ==> one_line(#[trigger] c.pre_down@[k]@),
        forall|k: int| 0 <= k < c.post_down@.len() ==> one_line(#[trigger] c.post_down@[k]@),
        c.server_preshared_key matches Some(v) ==> one_line(v@),
        c.persistent_keepalive matches Some(v) ==> one_line(v@),
        one_line(endpoint),
        one_line(public_key),
    ensures
        all_one_line(config_lines(c, endpoint, public_key)),
{
    reveal_strlit("PrivateKey");
    reveal_strlit("Address");
    reveal_strlit("DNS");
    reveal_strlit("PreUp");
    reveal_strlit("PostUp");
    reveal_strlit("PreDown");
    reveal_strlit("PostDown");
    reveal_strlit("PublicKey");
    reveal_strlit("Endpoint");
    reveal_strlit("PresharedKey");
    reveal_strlit("PersistentKeepalive");
    reveal_strlit("AllowedIPs");
    reveal_strlit("[Interface]");
    reveal_strlit("[Peer]");
    assert(one_line("PrivateKey"@));
    assert(one_line("Address"@));
    assert(one_line("DNS"@));
    assert(one_line("PreUp"@));
    assert(one_line("PostUp"@));
    assert(one_line("PreDown"@));
    assert(one_line("PostDown"@));
    assert(one_line("PublicKey"@));
    assert(one_line("Endpoint"@));
    assert(one_line("PresharedKey"@));
    assert(one_line("PersistentKeepalive"@));
    assert(one_line("AllowedIPs"@));
    let pre = string_views(c.pre_up@);
    let post = string_views(c.post_up@);
    let pre_down = string_views(c.pre_down@);
    let post_down = string_views(c.post_down@);
    let psk = optional_values(c.server_preshared_key);
    let ka = optional_values(c.persistent_keepalive);
    assert(all_one_line(pre));
    assert(all_one_line(post));
    assert(all_one_line(pre_down));
    assert(all_one_line(post_down));
    assert(all_one_line(psk));
    assert(all_one_line(ka));
    assert(all_one_line(seq![c.client_private_key@]));
    assert(all_one_line(seq![c.client_address@]));
    assert(all_one_line(seq![c.client_dns@]));
    assert(all_one_line(seq![public_key]));
    assert(all_one_line(seq![endpoint]));
    assert(all_one_line(seq![c.client_allowed_ips@]));
    let i0 = seq!["[Interface]"@];
    assert(all_one_line(i0));
    let i1 = field_lines("PrivateKey"@, seq![c.client_private_key@]);
    lemma_field_lines_one_line("PrivateKey"@, seq![c.client_private_key@]);
    let i2 = field_lines("Address"@, seq![c.client_address@]);
    lemma_field_lines_one_line("Address"@, seq![c.client_address@]);
    let i3 = field_lines("DNS"@, seq![c.client_dns@]);
    lemma_field_lines_one_line("DNS"@, seq![c.client_dns@]);
    let i4 = field_lines("PreUp"@, string_views(c.pre_up@));
    lemma_field_lines_one_line("PreUp"@, string_views(c.pre_up@));
    let i5 = field_lines("PostUp"@, string_views(c.post_up@));
    lemma_field_lines_one_line("PostUp"@, string_views(c.post_up@));
    let i6 = field_lines("PreDown"@, string_views(c.pre_down@));
    lemma_field_lines_one_line("PreDown"@, string_views(c.pre_down@));
    let i7 = field_lines("PostDown"@, string_views(c.post_down@));
    lemma_field_lines_one_line("PostDown"@, string_views(c.post_down@));
    let ip0 = i0;
    let ip1 = ip0 + i1;
    lemma_all_one_line_add(ip0, i1);
    let ip2 = ip1 + i2;
    lemma_all_one_line_add(ip1, i2);
    let ip3 = ip2 + i3;
    lemma_all_one_line_add(ip2, i3);
    let ip4 = ip3 + i4;
    lemma_all_one_line_add(ip3, i4);
    let ip5 = ip4 + i5;
    lemma_all_one_line_add(ip4, i5);
    let ip6 = ip5 + i6;
    lemma_all_one_line_add(ip5, i6);
    let ip7 = ip6 + i7;
    lemma_all_one_line_add(ip6, i7);
    assert(ip7 == interface_lines(c));
    let q0 = seq!["[Peer]"@];
    assert(all_one_line(q0));
    let q1 = field_lines("PublicKey"@, seq![public_key]);
    lemma_field_lines_one_line("PublicKey"@, seq![public_key]);
    let q2 = field_lines("Endpoint"@, seq![endpoint]);
    lemma_field_lines_one_line("Endpoint"@, seq![endpoint]);
    let q3 = field_lines("PresharedKey"@, optional_values(c.server_preshared_key));
    lemma_field_lines_one_line("PresharedKey"@, optional_values(c.server_preshared_key));
    let q4 = field_lines("PersistentKeepalive"@, optional_values(c.persistent_keepalive));
    lemma_field_lines_one_line("PersistentKeepalive"@, optional_values(c.persistent_keepalive));
    let q5 = field_lines("AllowedIPs"@, seq![c.client_allowed_ips@]);
    lemma_field_lines_one_line("AllowedIPs"@, seq![c.client_allowed_ips@]);
    let qp0 = q0;
    let qp1 = qp0 + q1;
    lemma_all_one_line_add(qp0, q1);
    let qp2 = qp1 + q2;
    lemma_all_one_line_add(qp1, q2);
    let qp3 = qp2 + q3;
    lemma_all_one_line_add(qp2, q3);
    let qp4 = qp3 + q4;
    lemma_all_one_line_add(qp3, q4);
    let qp5 = qp4 + q5;
    lemma_all_one_line_add(qp4, q5);
    assert(qp5 == peer_lines(c, endpoint, public_key));
    let blank = seq![Seq::<char>::empty()];
    assert(all_one_line(blank));
    lemma_all_one_line_add(ip7, blank);
    lemma_all_one_line_add(ip7 + blank, qp5);
}

/// What a configuration file says, setting by setting, when no value holds a line break: its
/// first line is `[Interface]`, and the lines `name = value` of each setting give exactly its
/// values, in order: one each for the private key, the address, the DNS server, the server's
/// public key, its endpoint and the allowed IPs; one per command for `PreUp`, `PostUp`,
/// `PreDown` and `PostDown`; one or none for the preshared key and the keepalive.
pub proof fn lemma_config_file_settings(c: WireguardConfig, endpoint: Seq<char>, public_key: Seq<char>)
    requires
        one_line(c.client_private_key@),
        one_line(c.client_address@),
        one_line(c.client_dns@),
        one_line(c.client_allowed_ips@),
        forall|k: int| 0 <= k < c.pre_up@.len() ==> one_line(#[trigger] c.pre_up@[k]@),
        forall|k: int| 0 <= k < c.post_up@.len() ==> one_line(#[trigger] c.post_up@[k]@),
        forall|k: int| 0 <= k < c.pre_down@.len() ==> one_line(#[trigger] c.pre_down@[k]@),
        forall|k: int| 0 <= k < c.post_down@.len() ==> one_line(#[trigger] c.post_down@[k]@),
        c.server_preshared_key matches Some(v) ==> one_line(v@),
        c.persistent_keepalive matches Some(v) ==> one_line(v@),
        one_line(endpoint),
        one_line(public_key),
    ensures
        text_lines(c.config_file(endpoint, public_key))[0] == "[Interface]"@,
        values_of(text_lines(c.config_file(endpoint, public_key)), "PrivateKey"@) == seq![c.client_private_key@],
        values_of(text_lines(c.config_file(endpoint, public_key)), "Address"@) == seq![c.client_address@],
        values_of(text_lines(c.config_file(endpoint, public_key)), "DNS"@) == seq![c.client_dns@],
        values_of(text_lines(c.config_file(endpoint, public_key)), "PreUp"@) == string_views(c.pre_up@),
        values_of(text_lines(c.config_file(endpoint, public_key)), "PostUp"@) == string_views(c.post_up@),
        values_of(text_lines(c.config_file(endpoint, public_key)), "PreDown"@) == string_views(c.pre_down@),
        values_of(text_lines(c.config_file(endpoint, public_key)), "PostDown"@) == string_views(c.post_down@),
        values_of(text_lines(c.config_file(endpoint, public_key)), "PublicKey"@) == seq![public_key],
        values_of(text_lines(c.config_file(endpoint, public_key)), "Endpoint"@) == seq![endpoint],
        values_of(text_lines(c.config_file(endpoint, public_key)), "PresharedKey"@) == optional_values(c.server_preshared_key),
        values_of(text_lines(c.config_file(endpoint, public_key)), "PersistentKeepalive"@) == optional_values(c.persistent_keepalive),
        values_of(text_lines(c.config_file(endpoint, public_key)), "AllowedIPs"@) == seq![c.client_allowed_ips@],
{
    lemma_config_file_joined(c, endpoint, public_key);
    lemma_config_lines_one_line(c, endpoint, public_key);
    let ls = config_lines(c, endpoint, public_key);
    lemma_split_joined(ls);
    lemma_setting_values(c, endpoint, public_key);
    reveal_strlit("[Interface]");
    let il = interface_lines(c);
    assert(il[0] == "[Interface]"@);
    assert(ls[0] == il[0]);
}

} // verus!

verus! {

/// The first second that `chrono` can represent as a UTC date (the start of year -262143).
pub const MIN_UTC_TIMESTAMP: i64 = -8334601228800;

/// The last second that `chrono` can represent as a UTC date (the end of year 262142).
pub const MAX_UTC_TIMESTAMP: i64 = 8210266876799;

/// The age from which the ASN database is reported as stale: thirty days, in seconds.
pub const MMDB_MAX_AGE_SECS: i64 = 2592000;

/// Calls `Utc.timestamp_opt(secs, 0).earliest()` of `chrono` and tells whether it gave a
/// date. Claimed, from `DateTime::from_timestamp` in the source: a date exists exactly for
/// the seconds from the start of year -262143 to the end of year 262142.
#[verifier::external_body]
fn utc_date_exists(secs: i64) -> (r: bool)
    ensures
        r == (MIN_UTC_TIMESTAMP <= secs <= MAX_UTC_TIMESTAMP),
{
    chrono::Utc.timestamp_opt(secs, 0).earliest().is_some()
}

/// Why the build date of the ASN database could not be read.
#[derive(Debug, Clone, Copy, PartialEq, Eq)]
pub enum MmdbDateError {
    /// The build epoch does not fit in an `i64`.
    EpochTooLarge,
    /// The build epoch is not a date that can be represented.
    NoSuchDate,
}

/// Whether the ASN database, built at `build_epoch` (seconds since 1970), is older than
/// thirty days at the instant `now_secs` seconds and `now_subsec_nanos` nanoseconds since
/// 1970; or why its build date cannot be read.
pub open spec fn stale_check(build_epoch: u64, now_secs: i64, now_subsec_nanos: u32) -> Result<bool, MmdbDateError> {
    if build_epoch > i64::MAX {
        Err(MmdbDateError::EpochTooLarge)
    } else if build_epoch > MAX_UTC_TIMESTAMP {
        Err(MmdbDateError::NoSuchDate)
    } else {
        Ok((now_secs - build_epoch) * 1_000_000_000 + now_subsec_nanos > MMDB_MAX_AGE_SECS * 1_000_000_000)
    }
}

/// Whether the ASN database, built at `build_epoch` (seconds since 1970), is older than
/// thirty days at the instant `now_secs` seconds and `now_subsec_nanos` nanoseconds
/// since 1970.
pub fn mmdb_is_stale(build_epoch: u64, now_secs: i64, now_subsec_nanos: u32) -> (r: Result<bool, MmdbDateError>)
    ensures
        r == stale_check(build_epoch, now_secs, now_subsec_nanos),
{
    if build_epoch > i64::MAX as u64 {
        return Err(MmdbDateError::EpochTooLarge);
    }
    let epoch = build_epoch as i64;
    if !utc_date_exists(epoch) {
        return Err(MmdbDateError::NoSuchDate);
    }
    let age_nanos: i128 = (now_secs as i128 - epoch as i128) * 1_000_000_000 + now_subsec_nanos as i128;
    Ok(age_nanos > MMDB_MAX_AGE_SECS as i128 * 1_000_000_000)
}

} // verus!
