//! The iterative walk from a root server down to the server that answers:
//! each response either ends the walk or says where to ask next.

use crate::address::{dotted, Ipv4};
use crate::dns_header::{blank_header, DnsHeader};
use crate::dns_packet::{DnsPacket, PacketView};
use crate::dns_question::{DnsQuestion, QuestionView};
use crate::query_type::QueryType;
use crate::referral::{a_addresses, address_text, chosen, ns_hosts, random_usize, resolved_ns};
use crate::result_code::ResultCode;
use vstd::prelude::*;
use vstd::string::StringSliceAdditionalSpecFns;

verus! {

/// How many referrals a walk follows, and how deep lookups of name servers
/// may nest, before the last response is handed back as it is.
pub const MAX_HOPS: usize = 16;

/// The id that queries go out with.
pub const QUERY_ID: u16 = 6666;

/// The address of `a.root-servers.net`, where every walk starts.
pub open spec fn root_server() -> Seq<u8> {
    seq![198u8, 41u8, 0u8, 4u8]
}

/// What to do after a response.
#[derive(Clone, Debug, PartialEq, Eq)]
pub enum Step {
    /// The walk is over: the response goes to the caller.
    Answer,
    /// Ask the same question of the server at this address.
    Query { server: String },
    /// Look up the address of this name server first.
    Resolve { host: String },
}

/// A step as a value.
pub enum StepView {
    Answer,
    Query { server: Seq<char> },
    Resolve { host: Seq<char> },
}

impl View for Step {
    type V = StepView;

    open spec fn view(&self) -> StepView {
        match *self {
            Step::Answer => StepView::Answer,
            Step::Query { server } => StepView::Query { server: server@ },
            Step::Resolve { host } => StepView::Resolve { host: host@ },
        }
    }
}

/// What a response to a question for `qname` calls for. A response with
/// answers and no error, or one that says the name does not exist, ends the
/// walk. Otherwise a name server that the response both refers to and
/// gives an address for is asked next; failing that, one of the name
/// servers referred to, chosen by `pick`, has to be looked up; and with no
/// referral at all the response is all there is.
pub open spec fn next_step(p: PacketView, qname: Seq<u8>, pick: usize) -> StepView {
    if p.answers.len() > 0 && p.header.rescode == ResultCode::NOERROR {
        StepView::Answer
    } else if p.header.rescode == ResultCode::NXDOMAIN {
        StepView::Answer
    } else {
        match resolved_ns(p.authorities, p.resources, qname) {
            Some(addr) => StepView::Query { server: dotted(addr) },
            None => match chosen(ns_hosts(p.authorities, qname), pick) {
                Some(host) => StepView::Resolve { host },
                None => StepView::Answer,
            },
        }
    }
}

/// Says what a response to a question for `qname` calls for.
pub fn classify(response: &DnsPacket, qname: &str, pick: usize) -> (r: Step)
    ensures
        r@ == next_step(response@, qname.spec_bytes(), pick),
{
    if response.answers.len() > 0 && response.header.rescode == ResultCode::NOERROR {
        return Step::Answer;
    }
    if response.header.rescode == ResultCode::NXDOMAIN {
        return Step::Answer;
    }
    if let Some(server) = response.get_resolved_ns(qname) {
        return Step::Query { server };
    }
    match response.pick_unresolved_ns(qname, pick) {
        Some(host) => Step::Resolve { host },
        None => Step::Answer,
    }
}

/// The query for the records of type `qtype` of `qname`: one question,
/// recursion desired.
pub fn build_query(qname: &str, qtype: QueryType) -> (r: DnsPacket)
    ensures
        r.header == (DnsHeader {
            id: QUERY_ID,
            questions: 1,
            recursion_desired: true,
            ..blank_header()
        }),
        r@.questions == seq![QuestionView { name: qname@, qtype }],
        r@.answers.len() == 0,
        r@.authorities.len() == 0,
        r@.resources.len() == 0,
{
    let mut packet = DnsPacket::new();
    packet.header.id = QUERY_ID;
    packet.header.questions = 1;
    packet.header.recursion_desired = true;
    packet.questions.push(DnsQuestion::new(qname.to_owned(), qtype));
    assert(packet@.questions =~= seq![QuestionView { name: qname@, qtype }]);
    packet
}

/// The header of the reply to the request with id `id`: a response that
/// desires and offers recursion, with result code `rescode`.
pub open spec fn reply_header(id: u16, rescode: ResultCode) -> DnsHeader {
    DnsHeader {
        id,
        recursion_desired: true,
        recursion_available: true,
        response: true,
        rescode,
        ..blank_header()
    }
}

/// The reply to `request`, whose first question was looked up with
/// `outcome`, or could not be (`None`). A request without a question is
/// answered with `FORMERR`, a lookup that failed with `SERVFAIL`, both with
/// empty sections; otherwise the reply echoes the question and hands on the
/// result code and the three record sections of the outcome.
pub open spec fn reply(request: PacketView, outcome: Option<PacketView>) -> PacketView {
    if request.questions.len() == 0 {
        PacketView {
            header: reply_header(request.header.id, ResultCode::FORMERR),
            questions: Seq::empty(),
            answers: Seq::empty(),
            authorities: Seq::empty(),
            resources: Seq::empty(),
        }
    } else {
        match outcome {
            None => PacketView {
                header: reply_header(request.header.id, ResultCode::SERVFAIL),
                questions: Seq::empty(),
                answers: Seq::empty(),
                authorities: Seq::empty(),
                resources: Seq::empty(),
            },
            Some(result) => PacketView {
                header: reply_header(request.header.id, result.header.rescode),
                questions: seq![request.questions[0]],
                answers: result.answers,
                authorities: result.authorities,
                resources: result.resources,
            },
        }
    }
}

/// Builds the reply to `request` from the outcome of the lookup of its
/// first question.
pub fn build_reply(request: &DnsPacket, outcome: Option<DnsPacket>) -> (r: DnsPacket)
    ensures
        r@ == reply(
            request@,
            match outcome {
                Some(result) => Some(result@),
                None => None,
            },
        ),
{
    let mut packet = DnsPacket::new();
    packet.header.id = request.header.id;
    packet.header.recursion_desired = true;
    packet.header.recursion_available = true;
    packet.header.response = true;
    assert(packet@.questions =~= Seq::empty() && packet@.answers =~= Seq::empty()
        && packet@.authorities =~= Seq::empty() && packet@.resources =~= Seq::empty());
    if request.questions.len() == 0 {
        packet.header.rescode = ResultCode::FORMERR;
        return packet;
    }
    match outcome {
        None => {
            packet.header.rescode = ResultCode::SERVFAIL;
        },
        Some(result) => {
            let question = &request.questions[0];
            packet.header.rescode = result.header.rescode;
            packet.questions.push(DnsQuestion::new(question.name.clone(), question.qtype));
            packet.answers = result.answers;
            packet.authorities = result.authorities;
            packet.resources = result.resources;
            assert(packet@.questions =~= seq![request@.questions[0]]);
        },
    }
    packet
}

/// Where a walk stands: the server to ask, how many referrals it has
/// followed, and how deep it is nested in lookups of name servers.
#[derive(Clone, Debug)]
pub struct Walker {
    pub ns: String,
    pub hops: usize,
    pub nesting: usize,
}

/// A walk as a value.
pub struct WalkerView {
    pub ns: Seq<char>,
    pub hops: usize,
    pub nesting: usize,
}

impl View for Walker {
    type V = WalkerView;

    open spec fn view(&self) -> WalkerView {
        WalkerView { ns: self.ns@, hops: self.hops, nesting: self.nesting }
    }
}

/// The walk and the step after the response `p` to a question for `qname`
/// has come from the server asked. A walk that has followed as many
/// referrals as it may ends with any response; so does one that would have
/// to look up a name server but is nested as deep as it may be. Following a
/// referral counts as one hop.
pub open spec fn advanced(w: WalkerView, p: PacketView, qname: Seq<u8>, pick: usize) -> (
    WalkerView,
    StepView,
) {
    if w.hops >= MAX_HOPS {
        (w, StepView::Answer)
    } else {
        match next_step(p, qname, pick) {
            StepView::Answer => (w, StepView::Answer),
            StepView::Query { server } => (
                WalkerView { ns: server, hops: (w.hops + 1) as usize, nesting: w.nesting },
                StepView::Query { server },
            ),
            StepView::Resolve { host } => if w.nesting >= MAX_HOPS {
                (w, StepView::Answer)
            } else {
                (w, StepView::Resolve { host })
            },
        }
    }
}

/// The walk and the step after the lookup of a name server has come back
/// with the response `nested`: one of its addresses, chosen by `pick`, is
/// asked next, which counts as one hop; with no address the walk ends.
pub open spec fn resumed(w: WalkerView, nested: PacketView, pick: usize) -> (WalkerView, StepView) {
    if w.hops >= MAX_HOPS {
        (w, StepView::Answer)
    } else {
        match address_text(chosen(a_addresses(nested.answers), pick)) {
            Some(server) => (
                WalkerView { ns: server, hops: (w.hops + 1) as usize, nesting: w.nesting },
                StepView::Query { server },
            ),
            None => (w, StepView::Answer),
        }
    }
}

impl Walker {
    /// A walk that starts at the root server.
    pub fn new() -> (r: Walker)
        ensures
            r@ == (WalkerView { ns: dotted(root_server()), hops: 0, nesting: 0 }),
    {
        Walker { ns: Ipv4::new(198, 41, 0, 4).to_text(), hops: 0, nesting: 0 }
    }

    /// The walk that looks up a name server for this one: it starts at the
    /// root server, one level deeper.
    pub fn nested(&self) -> (r: Walker)
        ensures
            r@ == (WalkerView {
                ns: dotted(root_server()),
                hops: 0,
                nesting: if self.nesting < MAX_HOPS {
                    (self.nesting + 1) as usize
                } else {
                    self.nesting
                },
            }),
    {
        Walker {
            ns: Ipv4::new(198, 41, 0, 4).to_text(),
            hops: 0,
            nesting: if self.nesting < MAX_HOPS {
                self.nesting + 1
            } else {
                self.nesting
            },
        }
    }

    /// Takes the response to the question for `qname` that was put to the
    /// server of this walk, and says what to do next; `pick` chooses among
    /// name servers that have to be looked up.
    pub fn advance(&mut self, response: &DnsPacket, qname: &str, pick: usize) -> (r: Step)
        ensures
            (final(self)@, r@) == advanced(old(self)@, response@, qname.spec_bytes(), pick),
    {
        if self.hops >= MAX_HOPS {
            return Step::Answer;
        }
        match classify(response, qname, pick) {
            Step::Answer => Step::Answer,
            Step::Query { server } => {
                self.ns = server.clone();
                self.hops = self.hops + 1;
                Step::Query { server }
            },
            Step::Resolve { host } => {
                if self.nesting >= MAX_HOPS {
                    Step::Answer
                } else {
                    Step::Resolve { host }
                }
            },
        }
    }

    /// Takes the response that the lookup of a name server came back with,
    /// and says what to do next; `pick` chooses among its addresses.
    pub fn resume(&mut self, nested: &DnsPacket, pick: usize) -> (r: Step)
        ensures
            (final(self)@, r@) == resumed(old(self)@, nested@, pick),
    {
        if self.hops >= MAX_HOPS {
            return Step::Answer;
        }
        match nested.pick_a(pick) {
            Some(server) => {
                self.ns = server.clone();
                self.hops = self.hops + 1;
                Step::Query { server }
            },
            None => Step::Answer,
        }
    }

    /// As `advance`, with the choice among name servers made at random.
    pub fn step(&mut self, response: &DnsPacket, qname: &str) -> (r: Step)
        ensures
            exists|pick: usize|
                (final(self)@, r@) == #[trigger] advanced(
                    old(self)@,
                    response@,
                    qname.spec_bytes(),
                    pick,
                ),
    {
        self.advance(response, qname, random_usize())
    }

    /// As `resume`, with the choice among addresses made at random.
    pub fn step_nested(&mut self, nested: &DnsPacket) -> (r: Step)
        ensures
            exists|pick: usize| (final(self)@, r@) == #[trigger] resumed(old(self)@, nested@, pick),
    {
        self.resume(nested, random_usize())
    }
}

/// What comes back to a walk: the response of the server it asked, or the
/// response that the lookup of a name server ended with; each with the
/// number that chooses where there is a choice.
pub enum Event {
    Response { packet: PacketView, pick: usize },
    Nested { packet: PacketView, pick: usize },
}

/// The walk and the step after an event.
pub open spec fn react(w: WalkerView, qname: Seq<u8>, event: Event) -> (WalkerView, StepView) {
    match event {
        Event::Response { packet, pick } => advanced(w, packet, qname, pick),
        Event::Nested { packet, pick } => resumed(w, packet, pick),
    }
}

/// How many times a walk asks a server again while `events` come back to
/// it, up to the event at which it ends.
pub open spec fn queries_sent(w: WalkerView, qname: Seq<u8>, events: Seq<Event>) -> nat
    decreases events.len(),
{
    if events.len() == 0 {
        0
    } else {
        let (after, step) = react(w, qname, events.first());
        match step {
            StepView::Answer => 0,
            StepView::Query { .. } => 1 + queries_sent(after, qname, events.drop_first()),
            StepView::Resolve { .. } => queries_sent(after, qname, events.drop_first()),
        }
    }
}

/// Whatever comes back to a walk, it asks a server again no more often
/// than it has hops left: a walk from the root server sends its first query
/// and at most `MAX_HOPS` more.
pub proof fn lemma_walk_bounded(w: WalkerView, qname: Seq<u8>, events: Seq<Event>)
    requires
        w.hops <= MAX_HOPS,
    ensures
        queries_sent(w, qname, events) <= MAX_HOPS - w.hops,
    decreases events.len(),
{
    if events.len() > 0 {
        let (after, step) = react(w, qname, events.first());
        if !(step is Answer) {
            lemma_walk_bounded(after, qname, events.drop_first());
        }
    }
}

/// A walk that has no hops left ends with whatever comes back to it.
pub proof fn lemma_walk_ends(w: WalkerView, qname: Seq<u8>, event: Event)
    requires
        w.hops >= MAX_HOPS,
    ensures
        react(w, qname, event) == (w, StepView::Answer),
{
}

} // verus!
