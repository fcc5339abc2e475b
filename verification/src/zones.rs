//! Private DNS zones: which local forwarders run and which names resolve,
//! kept in step with what the controller allows.

use vstd::prelude::*;

use crate::table::{Key, Table};
use crate::text;

verus! {

/// An allowed name, its loopback address, and the ports behind it.
#[derive(Debug, Clone, PartialEq, Eq)]
pub struct ZoneEntry {
    pub fqdn: String,
    pub ip: String,
    pub ports: Vec<u16>,
}

/// A local address a forwarder listens on.
#[derive(Debug, Clone, PartialEq, Eq)]
pub struct Endpoint {
    pub ip: String,
    pub port: u16,
}

impl Key for Endpoint {
    type Id = (Seq<char>, u16);

    open spec fn id(&self) -> (Seq<char>, u16) {
        (self.ip@, self.port)
    }

    fn same(&self, other: &Endpoint) -> (r: bool) {
        self.port == other.port && text::str_eq(self.ip.as_str(), other.ip.as_str())
    }
}

/// A forwarder to start: where it listens, and the destination it serves.
#[derive(Debug, Clone, PartialEq, Eq)]
pub struct Forward {
    pub at: Endpoint,
    pub dest: String,
}

/// Outcome of asking for the zones.
#[derive(Debug)]
pub enum ZonesFetch {
    /// The zones.
    Current(Vec<ZoneEntry>),
    /// The session is gone.
    Denied(&'static str),
    /// Nothing is known; what was known stays.
    Failed(String),
}

/// Why a reply to the zone request means that the session is gone.
pub open spec fn denial(status: u16, body: Seq<char>) -> Option<Seq<char>> {
    if status == 401 {
        Some("unauthorized"@)
    } else if status == 403 {
        if text::contains(body, "session revoked"@) {
            Some("revoked"@)
        } else if text::contains(body, "session idle"@) {
            Some("idle"@)
        } else {
            Some("unauthorized"@)
        }
    } else {
        None
    }
}

/// Classifies a reply to the zone request: 401 and 403 mean that the session
/// is gone, and the body may say how; anything else is no denial.
pub fn zone_denial_reason(status: u16, body: &str) -> (r: Option<&'static str>)
    ensures
        match r {
            Some(s) => denial(status, body@) == Some(s@),
            None => denial(status, body@) is None,
        },
{
    if status == 401 {
        return Some("unauthorized");
    }
    if status != 403 {
        return None;
    }
    let cs = text::chars(body);
    if text::has_str(cs.as_slice(), "session revoked") {
        Some("revoked")
    } else if text::has_str(cs.as_slice(), "session idle") {
        Some("idle")
    } else {
        Some("unauthorized")
    }
}

/// Reads the answer to the zone request; `zones` is what the body of a
/// success parses to, or why it does not.
pub fn zones_answer(status: u16, body: &str, zones: Result<Vec<ZoneEntry>, String>) -> (r:
    ZonesFetch)
    ensures
        if 200 <= status && status < 300 {
            match zones {
                Ok(z) => r == ZonesFetch::Current(z),
                Err(e) => r == ZonesFetch::Failed(e),
            }
        } else if denial(status, body@) is Some {
            r matches ZonesFetch::Denied(d) && denial(status, body@) == Some(d@)
        } else {
            r matches ZonesFetch::Failed(m) && m@ == "dns-zones fetch failed: "@ + text::decimal(
                status as nat,
            ) + " "@ + body@
        },
{
    if 200 <= status && status < 300 {
        return match zones {
            Ok(z) => ZonesFetch::Current(z),
            Err(e) => ZonesFetch::Failed(e),
        };
    }
    match zone_denial_reason(status, body) {
        Some(d) => ZonesFetch::Denied(d),
        None => {
            let mut out = text::chars("dns-zones fetch failed: ");
            let n = text::dec(status as u64);
            text::push_all(&mut out, n.as_slice());
            text::push_str(&mut out, " ");
            text::push_str(&mut out, body);
            ZonesFetch::Failed(text::string(out.as_slice()))
        },
    }
}

/// `fqdn:port`.
pub open spec fn dest_of(fqdn: Seq<char>, port: u16) -> Seq<char> {
    fqdn + ":"@ + text::decimal(port as nat)
}

/// `m` with one entry's forwarders; a later one for the same address wins.
pub open spec fn with_ports(
    m: Map<(Seq<char>, u16), Seq<char>>,
    e: ZoneEntry,
    n: nat,
) -> Map<(Seq<char>, u16), Seq<char>>
    decreases n,
{
    if n == 0 {
        m
    } else {
        let p = e.ports@[n - 1];
        with_ports(m, e, (n - 1) as nat).insert((e.ip@, p), dest_of(e.fqdn@, p))
    }
}

/// The forwarders the entries ask for, each with its destination.
pub open spec fn wanted(entries: Seq<ZoneEntry>) -> Map<(Seq<char>, u16), Seq<char>>
    decreases entries.len(),
{
    if entries.len() == 0 {
        Map::empty()
    } else {
        with_ports(wanted(entries.drop_last()), entries.last(), entries.last().ports@.len())
    }
}

/// The names the entries resolve, in lower case; a later one wins.
pub open spec fn named(entries: Seq<ZoneEntry>) -> Map<Seq<char>, Seq<char>>
    decreases entries.len(),
{
    if entries.len() == 0 {
        Map::empty()
    } else {
        named(entries.drop_last()).insert(
            text::ascii_lower(entries.last().fqdn@),
            entries.last().ip@,
        )
    }
}

/// The forwarders that run and the names that resolve.
pub struct Zones {
    live: Table<Endpoint, ()>,
    names: Table<String, String>,
}

/// The value of that state.
pub struct ZonesView {
    pub live: Set<(Seq<char>, u16)>,
    pub names: Map<Seq<char>, Seq<char>>,
}

impl View for Zones {
    type V = ZonesView;

    closed spec fn view(&self) -> ZonesView {
        ZonesView {
            live: self.live@.dom(),
            names: self.names@.map_values(|s: String| s@),
        }
    }
}

/// What a list of endpoints stands for.
pub open spec fn endpoint_ids(v: Seq<Endpoint>) -> Seq<(Seq<char>, u16)> {
    Seq::new(v.len(), |i: int| v[i].id())
}

/// The endpoints a list of forwarders listens on.
pub open spec fn forward_ids(v: Seq<Forward>) -> Seq<(Seq<char>, u16)> {
    Seq::new(v.len(), |i: int| v[i].at.id())
}

/// Whether `stop` and `start` lead from the forwarders that run to those that
/// are wanted: what runs and is not wanted is stopped, what is wanted and does
/// not run is started with its destination, each once.
pub open spec fn leads_to(
    live: Set<(Seq<char>, u16)>,
    want: Map<(Seq<char>, u16), Seq<char>>,
    stop: Seq<Endpoint>,
    start: Seq<Forward>,
) -> bool {
    &&& endpoint_ids(stop).no_duplicates()
    &&& forward_ids(start).no_duplicates()
    &&& forall|k: (Seq<char>, u16)| #[trigger]
        endpoint_ids(stop).contains(k) <==> live.contains(k) && !want.contains_key(k)
    &&& forall|k: (Seq<char>, u16)| #[trigger]
        forward_ids(start).contains(k) <==> want.contains_key(k) && !live.contains(k)
    &&& forall|i: int|
        #![trigger start[i]]
        0 <= i < start.len() ==> start[i].dest@ == want[start[i].at.id()]
}

fn wanted_table(entries: &Vec<ZoneEntry>) -> (r: Table<Endpoint, String>)
    ensures
        r.wf(),
        r@.map_values(|s: String| s@) == wanted(entries@),
{
    let mut t: Table<Endpoint, String> = Table::new();
    let mut i: usize = 0;
    let ghost f = |s: String| s@;
    assert(t@.map_values(f) =~= wanted(entries@.subrange(0, 0)));
    while i < entries.len()
        invariant
            i <= entries@.len(),
            t.wf(),
            f == (|s: String| s@),
            t@.map_values(f) == wanted(entries@.subrange(0, i as int)),
        decreases entries@.len() - i,
    {
        let e = &entries[i];
        let mut j: usize = 0;
        let ghost base = t@.map_values(f);
        while j < e.ports.len()
            invariant
                j <= e.ports@.len(),
                t.wf(),
                f == (|s: String| s@),
                t@.map_values(f) == with_ports(base, *e, j as nat),
            decreases e.ports@.len() - j,
        {
            let p: u16 = e.ports[j];
            let d = text::dec(p as u64);
            let digits = text::string(d.as_slice());
            let dest = e.fqdn.clone().concat(":").concat(digits.as_str());
            let ghost before = t@;
            let at = Endpoint { ip: e.ip.clone(), port: p };
            let ghost id = at.id();
            let ghost dv = dest@;
            t.insert(at, dest);
            assert(t@.map_values(f) =~= before.map_values(f).insert(id, dv));
            j += 1;
        }
        i += 1;
        assert(entries@.subrange(0, i as int).drop_last() =~= entries@.subrange(0, i - 1));
    }
    assert(entries@.subrange(0, i as int) =~= entries@);
    t
}

fn named_table(entries: &Vec<ZoneEntry>) -> (r: Table<String, String>)
    ensures
        r.wf(),
        r@.map_values(|s: String| s@) == named(entries@),
{
    let mut t: Table<String, String> = Table::new();
    let mut i: usize = 0;
    let ghost f = |s: String| s@;
    assert(t@.map_values(f) =~= named(entries@.subrange(0, 0)));
    while i < entries.len()
        invariant
            i <= entries@.len(),
            t.wf(),
            f == (|s: String| s@),
            t@.map_values(f) == named(entries@.subrange(0, i as int)),
        decreases entries@.len() - i,
    {
        let e = &entries[i];
        let cs = text::chars(e.fqdn.as_str());
        let l = text::to_ascii_lower(cs.as_slice());
        let name = text::string(l.as_slice());
        let ip = e.ip.clone();
        let ghost before = t@;
        let ghost (nv, iv) = (name@, ip@);
        t.insert(name, ip);
        assert(t@.map_values(f) =~= before.map_values(f).insert(nv, iv));
        i += 1;
        assert(entries@.subrange(0, i as int).drop_last() =~= entries@.subrange(0, i - 1));
    }
    assert(entries@.subrange(0, i as int) =~= entries@);
    t
}

impl Zones {
    /// The tables are maps.
    pub closed spec fn wf(&self) -> bool {
        self.live.wf() && self.names.wf()
    }

    /// No forwarders, no names.
    pub fn new() -> (r: Self)
        ensures
            r.wf(),
            r@.live == Set::<(Seq<char>, u16)>::empty(),
            r@.names == Map::<Seq<char>, Seq<char>>::empty(),
    {
        let r = Zones { live: Table::new(), names: Table::new() };
        assert(r@.names =~= Map::<Seq<char>, Seq<char>>::empty());
        assert(r@.live =~= Set::<(Seq<char>, u16)>::empty());
        r
    }

    /// Number of forwarders that run.
    pub fn live_len(&self) -> (n: usize)
        requires
            self.wf(),
        ensures
            n == self@.live.len(),
    {
        self.live.len()
    }

    /// The address a name resolves to.
    pub fn lookup(&self, name: &str) -> (r: Option<String>)
        requires
            self.wf(),
        ensures
            match r {
                Some(ip) => self@.names.contains_key(name@) && self@.names[name@] == ip@,
                None => !self@.names.contains_key(name@),
            },
    {
        let key: String = name.to_owned();
        match self.names.get(&key) {
            Some(ip) => Some(ip.clone()),
            None => None,
        }
    }

    /// The controller's zones: replaces the names, drops the forwarders that
    /// are no longer wanted, and tells which to stop and which to start. A
    /// started one counts once `bound` reports it.
    pub fn on_zones(&mut self, entries: &Vec<ZoneEntry>) -> (r: (Vec<Endpoint>, Vec<Forward>))
        requires
            old(self).wf(),
        ensures
            final(self).wf(),
            leads_to(old(self)@.live, wanted(entries@), r.0@, r.1@),
            final(self)@.live == old(self)@.live.intersect(wanted(entries@).dom()),
            final(self)@.names == named(entries@),
    {
        let want = wanted_table(entries);
        let ghost f = |s: String| s@;
        let ghost wm = wanted(entries@);
        proof {
            assert(wm == want@.map_values(f));
            self.live.lemma_ids();
            want.lemma_ids();
        }
        let mut stop: Vec<Endpoint> = Vec::new();
        let mut i: usize = 0;
        let ghost ids = self.live.ids();
        while i < self.live.count()
            invariant
                i <= ids.len(),
                self.live.wf(),
                self.live == old(self).live,
                ids == self.live.ids(),
                ids.no_duplicates(),
                want.wf(),
                wm.dom() == want@.dom(),
                endpoint_ids(stop@).no_duplicates(),
                forall|k: (Seq<char>, u16)| #[trigger]
                    endpoint_ids(stop@).contains(k) <==> ids.subrange(0, i as int).contains(k)
                        && !wm.contains_key(k),
            decreases ids.len() - i,
        {
            let (k, _) = self.live.entry(i);
            let ghost kid = k.id();
            let ghost before = stop@;
            proof {
                lemma_push_contains(ids.subrange(0, i as int), kid);
                lemma_push_contains(endpoint_ids(before), kid);
                assert(ids.subrange(0, i + 1) =~= ids.subrange(0, i as int).push(kid));
                assert(!ids.subrange(0, i as int).contains(kid)) by {
                    if ids.subrange(0, i as int).contains(kid) {
                        let j = choose|j: int|
                            0 <= j < i && ids.subrange(0, i as int)[j] == kid;
                        assert(ids[j] == ids[i as int]);
                    }
                }
            }
            if want.get(k).is_none() {
                stop.push(Endpoint { ip: k.ip.clone(), port: k.port });
                proof {
                    assert(endpoint_ids(stop@) =~= endpoint_ids(before).push(kid));
                    lemma_push_distinct(endpoint_ids(before), kid);
                }
            }
            i += 1;
        }
        proof {
            assert(ids.subrange(0, i as int) =~= ids);
        }
        let mut start: Vec<Forward> = Vec::new();
        let mut j: usize = 0;
        let ghost wids = want.ids();
        while j < want.count()
            invariant
                j <= wids.len(),
                self.live.wf(),
                self.live == old(self).live,
                want.wf(),
                wids == want.ids(),
                wids.no_duplicates(),
                f == (|s: String| s@),
                wm == want@.map_values(f),
                forward_ids(start@).no_duplicates(),
                forall|k: (Seq<char>, u16)| #[trigger]
                    forward_ids(start@).contains(k) <==> wids.subrange(0, j as int).contains(k)
                        && !self.live@.contains_key(k),
                forall|q: int|
                    #![trigger start@[q]]
                    0 <= q < start@.len() ==> start@[q].dest@ == wm[start@[q].at.id()],
            decreases wids.len() - j,
        {
            let (k, d) = want.entry(j);
            let ghost kid = k.id();
            let ghost before = start@;
            proof {
                lemma_push_contains(wids.subrange(0, j as int), kid);
                lemma_push_contains(forward_ids(before), kid);
                assert(wids.subrange(0, j + 1) =~= wids.subrange(0, j as int).push(kid));
                assert(!wids.subrange(0, j as int).contains(kid)) by {
                    if wids.subrange(0, j as int).contains(kid) {
                        let q = choose|q: int|
                            0 <= q < j && wids.subrange(0, j as int)[q] == kid;
                        assert(wids[q] == wids[j as int]);
                    }
                }
            }
            if self.live.get(k).is_none() {
                start.push(
                    Forward {
                        at: Endpoint { ip: k.ip.clone(), port: k.port },
                        dest: d.clone(),
                    },
                );
                proof {
                    assert(forward_ids(start@) =~= forward_ids(before).push(kid));
                    lemma_push_distinct(forward_ids(before), kid);
                }
            }
            j += 1;
        }
        proof {
            assert(wids.subrange(0, j as int) =~= wids);
        }
        let mut n: usize = 0;
        while n < stop.len()
            invariant
                n <= stop@.len(),
                self.live.wf(),
                self.names == old(self).names,
                self.live@.dom() == old(self).live@.dom().difference(
                    endpoint_ids(stop@).subrange(0, n as int).to_set(),
                ),
            decreases stop@.len() - n,
        {
            let ghost before = self.live@.dom();
            let _gone = self.live.remove(&stop[n]);
            proof {
                let kid = stop@[n as int].id();
                lemma_push_contains(endpoint_ids(stop@).subrange(0, n as int), kid);
                assert(endpoint_ids(stop@).subrange(0, n + 1) =~= endpoint_ids(stop@).subrange(
                    0,
                    n as int,
                ).push(kid));
                assert(self.live@.dom() =~= old(self).live@.dom().difference(
                    endpoint_ids(stop@).subrange(0, n + 1).to_set(),
                ));
            }
            n += 1;
        }
        proof {
            assert(endpoint_ids(stop@).subrange(0, n as int) =~= endpoint_ids(stop@));
            assert(self@.live =~= old(self)@.live.intersect(wm.dom()));
        }
        self.names = named_table(entries);
        (stop, start)
    }

    /// A forwarder listens.
    pub fn bound(&mut self, at: Endpoint)
        requires
            old(self).wf(),
        ensures
            final(self).wf(),
            final(self)@.live == old(self)@.live.insert(at.id()),
            final(self)@.names == old(self)@.names,
    {
        let ghost id = at.id();
        self.live.insert(at, ());
        assert(self@.live =~= old(self)@.live.insert(id));
    }

    /// The session is gone: no forwarder and no name may stay. Returns how
    /// many forwarders there were to stop.
    pub fn on_denied(&mut self) -> (n: usize)
        requires
            old(self).wf(),
        ensures
            final(self).wf(),
            n == old(self)@.live.len(),
            final(self)@.live == Set::<(Seq<char>, u16)>::empty(),
            final(self)@.names == Map::<Seq<char>, Seq<char>>::empty(),
    {
        let n: usize = self.live.len();
        self.live = Table::new();
        self.names = Table::new();
        assert(self@.names =~= Map::<Seq<char>, Seq<char>>::empty());
        assert(self@.live =~= Set::<(Seq<char>, u16)>::empty());
        n
    }
}

proof fn lemma_push_contains(s: Seq<(Seq<char>, u16)>, x: (Seq<char>, u16))
    ensures
        forall|k: (Seq<char>, u16)| #[trigger] s.push(x).contains(k) <==> s.contains(k) || k == x,
{
    assert forall|k: (Seq<char>, u16)| #[trigger] s.push(x).contains(k) <==> s.contains(k) || k
        == x by {
        if s.contains(k) {
            let i = choose|i: int| 0 <= i < s.len() && s[i] == k;
            assert(s.push(x)[i] == k);
        }
        if k == x {
            assert(s.push(x)[s.len() as int] == k);
        }
        if s.push(x).contains(k) {
            let i = choose|i: int| 0 <= i < s.push(x).len() && s.push(x)[i] == k;
            if i < s.len() {
                assert(s[i] == k);
            }
        }
    }
}

proof fn lemma_push_distinct(s: Seq<(Seq<char>, u16)>, x: (Seq<char>, u16))
    requires
        s.no_duplicates(),
        !s.contains(x),
    ensures
        s.push(x).no_duplicates(),
{
}

/// Law: once every forwarder that was to start has been bound, what runs is
/// exactly what is wanted; and the names are those of the entries.
pub proof fn law_zones_converge(
    live: Set<(Seq<char>, u16)>,
    entries: Seq<ZoneEntry>,
    stop: Seq<Endpoint>,
    start: Seq<Forward>,
)
    requires
        leads_to(live, wanted(entries), stop, start),
    ensures
        live.difference(endpoint_ids(stop).to_set()).union(forward_ids(start).to_set()) == wanted(
            entries,
        ).dom(),
{
    let a = live.difference(endpoint_ids(stop).to_set()).union(forward_ids(start).to_set());
    assert forall|k: (Seq<char>, u16)| a.contains(k) <==> wanted(entries).contains_key(k) by {
        assert(endpoint_ids(stop).contains(k) <==> live.contains(k) && !wanted(
            entries,
        ).contains_key(k));
        assert(forward_ids(start).contains(k) <==> wanted(entries).contains_key(k)
            && !live.contains(k));
    }
    assert(a =~= wanted(entries).dom());
}

/// Law: after the entries were taken, a name resolves exactly if some entry's
/// name in lower case is that name, and it resolves to the address of the last
/// such entry.
#[verifier::spinoff_prover]
#[verifier::rlimit(60)]
pub proof fn law_names_are_those_of_entries(entries: Seq<ZoneEntry>, name: Seq<char>)
    ensures
        named(entries).contains_key(name) <==> exists|i: int|
            #![trigger entries[i]]
            0 <= i < entries.len() && text::ascii_lower(entries[i].fqdn@) == name,
        forall|i: int|
            #![trigger entries[i]]
            0 <= i < entries.len() && text::ascii_lower(entries[i].fqdn@) == name && (forall|j: int|
                i < j < entries.len() ==> text::ascii_lower(#[trigger] entries[j].fqdn@) != name)
                ==> named(entries)[name] == entries[i].ip@,
    decreases entries.len(),
{
    if entries.len() > 0 {
        let t = entries.drop_last();
        let last = entries.len() - 1;
        law_names_are_those_of_entries(t, name);
        if text::ascii_lower(entries[last].fqdn@) == name {
            assert forall|i: int|
                #![trigger entries[i]]
                0 <= i < entries.len() && text::ascii_lower(entries[i].fqdn@) == name && (forall|
                    j: int,
                |
                    i < j < entries.len() ==> text::ascii_lower(#[trigger] entries[j].fqdn@)
                        != name) implies named(entries)[name] == entries[i].ip@ by {
                if i < last {
                    assert(text::ascii_lower(entries[last].fqdn@) != name);
                }
            }
        } else {
            if named(t).contains_key(name) {
                let i = choose|i: int|
                    #![trigger t[i]]
                    0 <= i < t.len() && text::ascii_lower(t[i].fqdn@) == name;
                assert(entries[i] == t[i]);
            }
            assert forall|i: int|
                #![trigger entries[i]]
                0 <= i < entries.len() && text::ascii_lower(entries[i].fqdn@)
                    == name implies 0 <= i < t.len() && t[i] == entries[i] by {
                assert(i != last);
            }
            assert forall|i: int|
                #![trigger entries[i]]
                0 <= i < entries.len() && text::ascii_lower(entries[i].fqdn@) == name && (forall|
                    j: int,
                |
                    i < j < entries.len() ==> text::ascii_lower(#[trigger] entries[j].fqdn@)
                        != name) implies named(entries)[name] == entries[i].ip@ by {
                assert(t[i] == entries[i]);
                assert forall|j: int| i < j < t.len() implies text::ascii_lower(
                    #[trigger] t[j].fqdn@,
                ) != name by {
                    assert(entries[j].fqdn == t[j].fqdn);
                }
            }
        }
    }
}

/// Law: no entry is lost: the name of every entry resolves, in lower case.
pub proof fn law_every_entry_resolves(entries: Seq<ZoneEntry>, i: int)
    requires
        0 <= i < entries.len(),
    ensures
        named(entries).contains_key(text::ascii_lower(entries[i].fqdn@)),
{
    law_names_are_those_of_entries(entries, text::ascii_lower(entries[i].fqdn@));
}

/// Whether an entry asks for a forwarder at an address and port.
pub open spec fn asks_at(e: ZoneEntry, k: (Seq<char>, u16)) -> bool {
    e.ip@ == k.0 && e.ports@.contains(k.1)
}

proof fn lemma_with_ports(
    m: Map<(Seq<char>, u16), Seq<char>>,
    e: ZoneEntry,
    n: nat,
    k: (Seq<char>, u16),
)
    requires
        n <= e.ports@.len(),
    ensures
        e.ip@ == k.0 && e.ports@.subrange(0, n as int).contains(k.1) ==> with_ports(
            m,
            e,
            n,
        ).contains_key(k) && with_ports(m, e, n)[k] == e.fqdn@ + ":"@ + text::decimal(k.1 as nat),
        !(e.ip@ == k.0 && e.ports@.subrange(0, n as int).contains(k.1)) ==> (with_ports(
            m,
            e,
            n,
        ).contains_key(k) <==> m.contains_key(k)) && with_ports(m, e, n)[k] == m[k],
    decreases n,
{
    if n > 0 {
        lemma_with_ports(m, e, (n - 1) as nat, k);
        let a = e.ports@.subrange(0, n as int);
        let b = e.ports@.subrange(0, n - 1);
        assert(a =~= b.push(e.ports@[n - 1]));
        if b.contains(k.1) {
            let i = choose|i: int| 0 <= i < b.len() && b[i] == k.1;
            assert(a[i] == k.1);
        }
        if e.ports@[n - 1] == k.1 {
            assert(a[n - 1] == k.1);
        }
        if a.contains(k.1) && e.ports@[n - 1] != k.1 {
            let i = choose|i: int| 0 <= i < a.len() && a[i] == k.1;
            assert(b[i] == k.1);
        }
    }
}

/// Law: a forwarder is wanted exactly where some entry has that address and
/// that port, and it serves the name of the last such entry, at that port.
#[verifier::spinoff_prover]
#[verifier::rlimit(60)]
pub proof fn law_forwarders_are_those_of_entries(entries: Seq<ZoneEntry>, k: (Seq<char>, u16))
    ensures
        wanted(entries).contains_key(k) <==> exists|i: int|
            #![trigger entries[i]]
            0 <= i < entries.len() && asks_at(entries[i], k),
        forall|i: int|
            #![trigger entries[i]]
            0 <= i < entries.len() && asks_at(entries[i], k) && (forall|j: int|
                i < j < entries.len() ==> !asks_at(#[trigger] entries[j], k)) ==> wanted(entries)[k]
                == entries[i].fqdn@ + ":"@ + text::decimal(k.1 as nat),
    decreases entries.len(),
{
    if entries.len() > 0 {
        let t = entries.drop_last();
        let last = entries.len() - 1;
        let e = entries[last];
        law_forwarders_are_those_of_entries(t, k);
        lemma_with_ports(wanted(t), e, e.ports@.len(), k);
        assert(e.ports@.subrange(0, e.ports@.len() as int) =~= e.ports@);
        if asks_at(e, k) {
            assert forall|i: int|
                #![trigger entries[i]]
                0 <= i < entries.len() && asks_at(entries[i], k) && (forall|j: int|
                    i < j < entries.len() ==> !asks_at(
                        #[trigger] entries[j],
                        k,
                    )) implies wanted(entries)[k] == entries[i].fqdn@ + ":"@ + text::decimal(
                k.1 as nat,
            ) by {
                if i < last {
                    assert(!asks_at(entries[last], k));
                }
            }
        } else {
            if wanted(t).contains_key(k) {
                let i = choose|i: int|
                    #![trigger t[i]]
                    0 <= i < t.len() && asks_at(t[i], k);
                assert(entries[i] == t[i]);
            }
            assert forall|i: int|
                #![trigger entries[i]]
                0 <= i < entries.len() && asks_at(entries[i], k) implies 0 <= i < t.len() && t[i]
                == entries[i] by {
                assert(i != last);
            }
            assert forall|i: int|
                #![trigger entries[i]]
                0 <= i < entries.len() && asks_at(entries[i], k) && (forall|j: int|
                    i < j < entries.len() ==> !asks_at(
                        #[trigger] entries[j],
                        k,
                    )) implies wanted(entries)[k] == entries[i].fqdn@ + ":"@ + text::decimal(
                k.1 as nat,
            ) by {
                assert(t[i] == entries[i]);
                assert forall|j: int| i < j < t.len() implies !asks_at(#[trigger] t[j], k) by {
                    assert(entries[j] == t[j]);
                }
            }
        }
    }
}

/// Law: the destination of a forwarder reads back as the entry's name and the
/// port: what stands behind its last colon is the port in digits, and what
/// stands before it is the name.
pub proof fn law_dest_reads_back(fqdn: Seq<char>, port: u16)
    ensures
        ({
            let d = dest_of(fqdn, port);
            let at = fqdn.len() as int;
            &&& d.len() > at && d[at] == ':' && d.subrange(0, at) == fqdn
            &&& forall|i: int| at < i < d.len() ==> d[i] != ':'
            &&& text::dec_value(text::rest(d, at + 1)) == port
        }),
{
    reveal_strlit(":");
    text::lemma_decimal_value(port as nat);
    let d = dest_of(fqdn, port);
    let at = fqdn.len() as int;
    assert(d.subrange(0, at) =~= fqdn);
    assert(text::rest(d, at + 1) =~= text::decimal(port as nat));
    assert forall|i: int| at < i < d.len() implies d[i] != ':' by {
        assert(d[i] == text::decimal(port as nat)[i - at - 1]);
        assert(text::is_digit(d[i]));
    }
}

/// Law: exactly 401 and 403 mean that the session is gone; 401 is always
/// unauthorized, and so is a 403 whose body names neither a revoked nor an
/// idle session. A body that names both is revoked.
pub proof fn law_denials(status: u16, body: Seq<char>)
    ensures
        denial(status, body) is Some <==> status == 401 || status == 403,
        denial(status, body) == Some("revoked"@) <==> status == 403 && exists|i: int|
            text::stands_at(body, "session revoked"@, i),
        denial(status, body) == Some("idle"@) <==> status == 403 && (exists|i: int|
            text::stands_at(body, "session idle"@, i)) && !(exists|i: int|
            text::stands_at(body, "session revoked"@, i)),
        denial(status, body) is Some ==> denial(status, body) == Some("revoked"@) || denial(
            status,
            body,
        ) == Some("idle"@) || denial(status, body) == Some("unauthorized"@),
{
    reveal_strlit("revoked");
    reveal_strlit("idle");
    reveal_strlit("unauthorized");
    assert("revoked"@.len() != "idle"@.len());
    assert("revoked"@.len() != "unauthorized"@.len());
    assert("idle"@.len() != "unauthorized"@.len());
    text::lemma_contains(body, "session revoked"@);
    text::lemma_contains(body, "session idle"@);
}

} // verus!
