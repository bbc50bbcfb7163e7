//! What a response says about where to ask next: the name servers it
//! refers to, and the addresses it gives for them.

use crate::address::{dotted, Ipv4};
use crate::dns_packet::{record_views, DnsPacket};
use crate::dns_record::{DnsRecord, RecordView};
use vstd::prelude::*;
use vstd::string::StringSliceAdditionalSpecFns;
use vstd::utf8::encode_utf8;

verus! {

/// Whether `name` ends with `tail`, byte for byte.
pub open spec fn ends_with(name: Seq<u8>, tail: Seq<u8>) -> bool {
    tail.len() <= name.len() && name.skip(name.len() - tail.len()) == tail
}

/// The addresses of the A records among `records`, in their order.
pub open spec fn a_addresses(records: Seq<RecordView>) -> Seq<Seq<u8>>
    decreases records.len(),
{
    if records.len() == 0 {
        Seq::empty()
    } else {
        match records.last() {
            RecordView::A { addr, .. } => a_addresses(records.drop_last()).push(addr),
            _ => a_addresses(records.drop_last()),
        }
    }
}

/// Whether a record is an NS record for a zone that `qname` lies in.
pub open spec fn refers(record: RecordView, qname: Seq<u8>) -> bool {
    record matches RecordView::NS { domain, .. } && ends_with(qname, encode_utf8(domain))
}

/// The hosts of the NS records among `records` whose zone `qname` lies in,
/// in their order.
pub open spec fn ns_hosts(records: Seq<RecordView>, qname: Seq<u8>) -> Seq<Seq<char>>
    decreases records.len(),
{
    if records.len() == 0 {
        Seq::empty()
    } else if refers(records.last(), qname) {
        ns_hosts(records.drop_last(), qname).push(records.last()->NS_host)
    } else {
        ns_hosts(records.drop_last(), qname)
    }
}

/// The address of the first A record among `records` that is for `host`.
pub open spec fn glue(records: Seq<RecordView>, host: Seq<char>) -> Option<Seq<u8>>
    decreases records.len(),
{
    if records.len() == 0 {
        None
    } else {
        match records.first() {
            RecordView::A { domain, addr, .. } if domain == host => Some(addr),
            _ => glue(records.drop_first(), host),
        }
    }
}

/// The address of the first name server among `authorities` whose zone
/// `qname` lies in and for which `resources` hold an address: the first
/// such address.
pub open spec fn resolved_ns(
    authorities: Seq<RecordView>,
    resources: Seq<RecordView>,
    qname: Seq<u8>,
) -> Option<Seq<u8>>
    decreases authorities.len(),
{
    if authorities.len() == 0 {
        None
    } else if refers(authorities.first(), qname) && glue(
        resources,
        authorities.first()->NS_host,
    ) is Some {
        glue(resources, authorities.first()->NS_host)
    } else {
        resolved_ns(authorities.drop_first(), resources, qname)
    }
}

/// One of `choices`, by a number that may be any: none if there are none.
pub open spec fn chosen<T>(choices: Seq<T>, pick: usize) -> Option<T> {
    if choices.len() == 0 {
        None
    } else {
        Some(choices[pick as int % choices.len() as int])
    }
}

/// An address in text, if there is one.
pub open spec fn address_text(addr: Option<Seq<u8>>) -> Option<Seq<char>> {
    match addr {
        Some(a) => Some(dotted(a)),
        None => None,
    }
}

/// What a string is as a value, if there is one.
pub open spec fn text_of(s: Option<String>) -> Option<Seq<char>> {
    match s {
        Some(t) => Some(t@),
        None => None,
    }
}

/// `rand::random::<usize>()`: a number of which nothing is known.
#[verifier::external_body]
pub(crate) fn random_usize() -> usize {
    rand::random::<usize>()
}

/// Whether `qname` ends with `domain`, byte for byte.
pub fn name_ends_with(qname: &str, domain: &str) -> (r: bool)
    ensures
        r == ends_with(qname.spec_bytes(), domain.spec_bytes()),
{
    let name = qname.as_bytes();
    let tail = domain.as_bytes();
    if tail.len() > name.len() {
        return false;
    }
    let shift: usize = name.len() - tail.len();
    let mut i: usize = 0;
    while i < tail.len()
        invariant
            i <= tail@.len(),
            shift + tail@.len() == name@.len() <= usize::MAX,
            name@ == qname.spec_bytes(),
            tail@ == domain.spec_bytes(),
            forall|j: int| 0 <= j < i ==> name@[shift + j] == tail@[j],
        decreases tail@.len() - i,
    {
        if name[shift + i] != tail[i] {
            assert(name@.skip(shift as int)[i as int] != tail@[i as int]);
            return false;
        }
        i += 1;
    }
    assert(name@.skip(shift as int) =~= tail@);
    true
}

impl DnsPacket {
    /// The address of the first A record in the additional section that is
    /// for `host`.
    fn glue_for(&self, host: &String) -> (r: Option<Ipv4>)
        ensures
            (match r {
                Some(a) => Some(a@),
                None => None,
            }) == glue(self@.resources, host@),
    {
        let ghost all = self@.resources;
        let mut i: usize = 0;
        assert(all.skip(0) =~= all);
        while i < self.resources.len()
            invariant
                i <= self.resources@.len(),
                all == record_views(self.resources@),
                glue(all, host@) == glue(all.skip(i as int), host@),
            decreases self.resources@.len() - i,
        {
            assert(all.skip(i as int).first() == self.resources@[i as int]@);
            assert(all.skip(i as int).drop_first() =~= all.skip(i + 1));
            if let DnsRecord::A { domain, addr, .. } = &self.resources[i] {
                if *domain == *host {
                    return Some(*addr);
                }
            }
            i += 1;
        }
        None
    }

    /// The address, in text, of a name server that the response refers to
    /// for `qname` and also gives an address for: the first such server in
    /// the authority section, and the first address for it in the
    /// additional section.
    pub fn get_resolved_ns(&self, qname: &str) -> (r: Option<String>)
        ensures
            text_of(r) == address_text(
                resolved_ns(self@.authorities, self@.resources, qname.spec_bytes()),
            ),
    {
        let ghost all = self@.authorities;
        let ghost name = qname.spec_bytes();
        let mut i: usize = 0;
        assert(all.skip(0) =~= all);
        while i < self.authorities.len()
            invariant
                i <= self.authorities@.len(),
                all == record_views(self.authorities@),
                name == qname.spec_bytes(),
                resolved_ns(all, self@.resources, name) == resolved_ns(
                    all.skip(i as int),
                    self@.resources,
                    name,
                ),
            decreases self.authorities@.len() - i,
        {
            assert(all.skip(i as int).first() == self.authorities@[i as int]@);
            assert(all.skip(i as int).drop_first() =~= all.skip(i + 1));
            if let DnsRecord::NS { domain, host, .. } = &self.authorities[i] {
                if name_ends_with(qname, domain.as_str()) {
                    if let Some(addr) = self.glue_for(host) {
                        return Some(addr.to_text());
                    }
                }
            }
            i += 1;
        }
        None
    }

    /// The name servers that the response refers to for `qname`.
    fn referred_hosts(&self, qname: &str) -> (r: Vec<&String>)
        ensures
            r@.len() == ns_hosts(self@.authorities, qname.spec_bytes()).len(),
            forall|i: int|
                0 <= i < r@.len() ==> (#[trigger] r@[i])@ == ns_hosts(
                    self@.authorities,
                    qname.spec_bytes(),
                )[i],
    {
        let ghost all = self@.authorities;
        let ghost name = qname.spec_bytes();
        let mut hosts: Vec<&String> = Vec::new();
        let mut i: usize = 0;
        while i < self.authorities.len()
            invariant
                i <= self.authorities@.len(),
                all == record_views(self.authorities@),
                name == qname.spec_bytes(),
                hosts@.len() == ns_hosts(all.take(i as int), name).len(),
                forall|j: int|
                    0 <= j < hosts@.len() ==> (#[trigger] hosts@[j])@ == ns_hosts(
                        all.take(i as int),
                        name,
                    )[j],
            decreases self.authorities@.len() - i,
        {
            assert(all.take(i + 1).drop_last() =~= all.take(i as int));
            assert(all.take(i + 1).last() == self.authorities@[i as int]@);
            if let DnsRecord::NS { domain, host, .. } = &self.authorities[i] {
                if name_ends_with(qname, domain.as_str()) {
                    hosts.push(host);
                }
            }
            i += 1;
        }
        assert(all.take(i as int) =~= all);
        hosts
    }

    /// One of the name servers that the response refers to for `qname`,
    /// chosen by `pick`.
    pub fn pick_unresolved_ns(&self, qname: &str, pick: usize) -> (r: Option<String>)
        ensures
            text_of(r) == chosen(ns_hosts(self@.authorities, qname.spec_bytes()), pick),
    {
        let hosts = self.referred_hosts(qname);
        if hosts.len() == 0 {
            return None;
        }
        Some(hosts[pick % hosts.len()].clone())
    }

    /// One of the name servers that the response refers to for `qname`,
    /// chosen at random: any of them may come back, and none only if there
    /// is none.
    pub fn get_unresolved_ns(&self, qname: &str) -> (r: Option<String>)
        ensures
            r is Some <==> ns_hosts(self@.authorities, qname.spec_bytes()).len() > 0,
            r matches Some(host) ==> ns_hosts(self@.authorities, qname.spec_bytes()).contains(
                host@,
            ),
    {
        self.pick_unresolved_ns(qname, random_usize())
    }

    /// The addresses of the A records in the answer section.
    fn answer_addresses(&self) -> (r: Vec<Ipv4>)
        ensures
            r@.len() == a_addresses(self@.answers).len(),
            forall|i: int| 0 <= i < r@.len() ==> (#[trigger] r@[i])@ == a_addresses(self@.answers)[i],
    {
        let ghost all = self@.answers;
        let mut found: Vec<Ipv4> = Vec::new();
        let mut i: usize = 0;
        while i < self.answers.len()
            invariant
                i <= self.answers@.len(),
                all == record_views(self.answers@),
                found@.len() == a_addresses(all.take(i as int)).len(),
                forall|j: int|
                    0 <= j < found@.len() ==> (#[trigger] found@[j])@ == a_addresses(
                        all.take(i as int),
                    )[j],
            decreases self.answers@.len() - i,
        {
            assert(all.take(i + 1).drop_last() =~= all.take(i as int));
            assert(all.take(i + 1).last() == self.answers@[i as int]@);
            if let DnsRecord::A { addr, .. } = &self.answers[i] {
                found.push(*addr);
            }
            i += 1;
        }
        assert(all.take(i as int) =~= all);
        found
    }

    /// The address, in text, of one of the A records in the answer section,
    /// chosen by `pick`.
    pub fn pick_a(&self, pick: usize) -> (r: Option<String>)
        ensures
            text_of(r) == address_text(chosen(a_addresses(self@.answers), pick)),
    {
        let found = self.answer_addresses();
        if found.len() == 0 {
            return None;
        }
        Some(found[pick % found.len()].to_text())
    }

    /// The address, in text, of one of the A records in the answer section,
    /// chosen at random: that of any of them may come back, and none only
    /// if there is none.
    pub fn get_random_a(&self) -> (r: Option<String>)
        ensures
            r is Some <==> a_addresses(self@.answers).len() > 0,
            r matches Some(text) ==> exists|i: int|
                0 <= i < a_addresses(self@.answers).len() && text@ == dotted(
                    #[trigger] a_addresses(self@.answers)[i],
                ),
    {
        let pick = random_usize();
        let r = self.pick_a(pick);
        proof {
            let found = a_addresses(self@.answers);
            if found.len() > 0 {
                let i = pick as int % found.len() as int;
                assert(r->Some_0@ == dotted(found[i]));
            }
        }
        r
    }
}

} // verus!
