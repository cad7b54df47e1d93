//! The decisions of a peer-to-peer chat client: what to tell the user
//! interface, what to send, whom to connect to, as messages, connections and
//! requests come in. Sockets, timers and the user interface itself belong to
//! whoever runs the client; it reports each outcome back here.
use vstd::prelude::*;

use crate::addr::{IpAddress, PeerAddr, DEFAULT_PORT};
use crate::message::{MessageModel, PizzaMessage};
use crate::peers::{clone_name, name_view, PeerTable};
use crate::ui::{Event, Request};

verus! {

/// How the client is started: the port to listen on and the user's name.
pub struct ClientOpts {
    pub port: u16,
    pub username: String,
}

/// The client's state: the user's name and the connected peers.
pub struct Client {
    username: String,
    peers: PeerTable,
}

/// What the client does about a message from a peer.
#[derive(Debug)]
pub enum Reaction {
    /// Nothing to do.
    Nothing,
    /// Tell the user interface.
    Notify(Event),
    /// Try to connect to these addresses, in this order.
    Connect(Vec<PeerAddr>),
}

/// The addresses at which announced peers are reached: each announced
/// address at the default port, the version 4 ones first.
pub open spec fn announced_addrs(ipv4: Seq<u32>, ipv6: Seq<u128>) -> Seq<PeerAddr> {
    ipv4.map_values(|ip: u32| PeerAddr::spec_new(IpAddress::V4(ip), DEFAULT_PORT)) + ipv6.map_values(
        |ip: u128| PeerAddr::spec_new(IpAddress::V6(ip), DEFAULT_PORT),
    )
}

/// The version 4 addresses among some peers, in order.
pub open spec fn v4_ips(addrs: Seq<PeerAddr>) -> Seq<u32>
    decreases addrs.len(),
{
    if addrs.len() == 0 {
        seq![]
    } else {
        let front = v4_ips(addrs.drop_last());
        match addrs.last() {
            PeerAddr::V4 { ip, .. } => front.push(ip),
            PeerAddr::V6 { .. } => front,
        }
    }
}

/// The version 6 addresses among some peers, in order.
pub open spec fn v6_ips(addrs: Seq<PeerAddr>) -> Seq<u128>
    decreases addrs.len(),
{
    if addrs.len() == 0 {
        seq![]
    } else {
        let front = v6_ips(addrs.drop_last());
        match addrs.last() {
            PeerAddr::V4 { .. } => front,
            PeerAddr::V6 { ip, .. } => front.push(ip),
        }
    }
}

/// Whether a peer's saying its name is news: it is connected and had
/// another name, or none.
pub open spec fn renames(peers: Map<PeerAddr, Option<Seq<char>>>, peer: PeerAddr, name: Seq<char>) -> bool {
    peers.contains_key(peer) && peers[peer] != Some(name)
}

/// The peers after `peer` said that its name is `name`.
pub open spec fn renamed(
    peers: Map<PeerAddr, Option<Seq<char>>>,
    peer: PeerAddr,
    name: Seq<char>,
) -> Map<PeerAddr, Option<Seq<char>>> {
    if renames(peers, peer, name) {
        peers.insert(peer, Some(name))
    } else {
        peers
    }
}

/// The named peers among the peers of a configuration, in order.
pub open spec fn named(initial: Seq<(Option<String>, PeerAddr)>) -> Seq<(PeerAddr, String)>
    decreases initial.len(),
{
    if initial.len() == 0 {
        seq![]
    } else {
        let front = named(initial.drop_last());
        match initial.last().0 {
            Some(name) => front.push((initial.last().1, name)),
            None => front,
        }
    }
}

/// The addresses of the peers of a configuration, in order.
pub fn initial_addresses(initial: &Vec<(Option<String>, PeerAddr)>) -> (r: Vec<PeerAddr>)
    ensures
        r@ == initial@.map_values(|p: (Option<String>, PeerAddr)| p.1),
{
    let mut r: Vec<PeerAddr> = Vec::new();
    let mut i: usize = 0;
    while i < initial.len()
        invariant
            i <= initial@.len(),
            r@ == initial@.take(i as int).map_values(|p: (Option<String>, PeerAddr)| p.1),
        decreases initial@.len() - i,
    {
        r.push(initial[i].1);
        i = i + 1;
        assert(r@ =~= initial@.take(i as int).map_values(|p: (Option<String>, PeerAddr)| p.1));
    }
    assert(initial@.take(i as int) =~= initial@);
    r
}

/// The peers of a configuration that have a name, with it, in order.
pub fn named_peers(initial: &Vec<(Option<String>, PeerAddr)>) -> (r: Vec<(PeerAddr, String)>)
    ensures
        r@ == named(initial@),
        r@ == initial@.filter(|p: (Option<String>, PeerAddr)| p.0 is Some).map_values(
            |p: (Option<String>, PeerAddr)| (p.1, p.0->Some_0),
        ),
{
    proof {
        lemma_named_peers_are_the_named_entries(initial@);
    }
    let mut r: Vec<(PeerAddr, String)> = Vec::new();
    let mut i: usize = 0;
    while i < initial.len()
        invariant
            i <= initial@.len(),
            r@ == named(initial@.take(i as int)),
        decreases initial@.len() - i,
    {
        proof {
            assert(initial@.take(i + 1).drop_last() =~= initial@.take(i as int));
        }
        match &initial[i].0 {
            Some(name) => r.push((initial[i].1, name.clone())),
            None => {},
        }
        i = i + 1;
    }
    assert(initial@.take(i as int) =~= initial@);
    r
}

impl Client {
    /// The user's name.
    pub closed spec fn spec_username(&self) -> Seq<char> {
        self.username@
    }

    /// The connected peers and their names.
    pub closed spec fn spec_peers(&self) -> Map<PeerAddr, Option<Seq<char>>> {
        self.peers@
    }

    /// The connected peers, in the order they connected.
    pub closed spec fn spec_order(&self) -> Seq<PeerAddr> {
        self.peers.spec_order()
    }

    /// A client with the user's name and no peer yet.
    pub fn new(opts: ClientOpts) -> (r: Client)
        ensures
            r.spec_username() == opts.username@,
            r.spec_peers() == Map::<PeerAddr, Option<Seq<char>>>::empty(),
            r.spec_order() == Seq::<PeerAddr>::empty(),
    {
        Client { username: opts.username, peers: PeerTable::new() }
    }

    /// The user's name.
    pub fn username(&self) -> (r: &String)
        ensures
            r@ == self.spec_username(),
    {
        &self.username
    }

    /// The connected peers.
    pub fn peers(&self) -> (r: &PeerTable)
        ensures
            r@ == self.spec_peers(),
            r.spec_order() == self.spec_order(),
    {
        &self.peers
    }

    /// A text from a connected peer, for the user interface, under the
    /// peer's name if it said one.
    pub fn new_text_message(&self, peer: PeerAddr, body: String) -> (r: Event)
        requires
            self.spec_peers().contains_key(peer),
        ensures
            r matches Event::NewMessage { at, username, message } && at == peer && name_view(
                username,
            ) == self.spec_peers()[peer] && message == body,
    {
        let name = self.peers.get(&peer).unwrap();
        Event::NewMessage { at: peer, username: clone_name(name), message: body }
    }

    /// A peer said its name. When that is news, the peer takes the name and
    /// the user interface is told; otherwise nothing changes.
    pub fn set_name(&mut self, peer: PeerAddr, name: String) -> (r: Option<Event>)
        ensures
            final(self).spec_username() == old(self).spec_username(),
            final(self).spec_peers() == renamed(old(self).spec_peers(), peer, name@),
            final(self).spec_order() == old(self).spec_order(),
            renames(old(self).spec_peers(), peer, name@) ==> r == Some(
                Event::UpdateUserName { at: peer, new_username: name },
            ),
            !renames(old(self).spec_peers(), peer, name@) ==> r is None,
            old(self).spec_peers().contains_key(peer) ==> final(self).spec_peers() == old(
                self,
            ).spec_peers().insert(peer, Some(name@)),
            !old(self).spec_peers().contains_key(peer) ==> final(self).spec_peers() == old(
                self,
            ).spec_peers() && r is None,
            old(self).spec_peers().contains_key(peer) && old(self).spec_peers()[peer] != Some(
                name@,
            ) ==> r == Some(Event::UpdateUserName { at: peer, new_username: name }),
            old(self).spec_peers().contains_key(peer) && old(self).spec_peers()[peer] == Some(
                name@,
            ) ==> r is None,
    {
        let news = match self.peers.get(&peer) {
            Some(current) => match current {
                Some(current) => *current != name,
                None => true,
            },
            None => false,
        };
        if news {
            let new_username = name.clone();
            self.peers.insert(peer, Some(name));
            Some(Event::UpdateUserName { at: peer, new_username })
        } else {
            proof {
                assert(renamed(old(self).spec_peers(), peer, name@) =~= old(self).spec_peers());
            }
            None
        }
    }

    /// The candidates that are not connected yet, in order; a candidate that
    /// stands twice stays twice.
    pub fn fresh_addresses(&self, candidates: Vec<PeerAddr>) -> (r: Vec<PeerAddr>)
        ensures
            r@ == candidates@.filter(|a: PeerAddr| !self.spec_peers().contains_key(a)),
    {
        let ghost keep = |a: PeerAddr| !self.spec_peers().contains_key(a);
        let mut r: Vec<PeerAddr> = Vec::new();
        let mut i: usize = 0;
        while i < candidates.len()
            invariant
                i <= candidates@.len(),
                keep == (|a: PeerAddr| !self.spec_peers().contains_key(a)),
                r@ == candidates@.take(i as int).filter(keep),
            decreases candidates@.len() - i,
        {
            let a = candidates[i];
            proof {
                reveal(Seq::filter);
                assert(candidates@.take(i + 1).drop_last() =~= candidates@.take(i as int));
            }
            if !self.peers.contains_key(&a) {
                r.push(a);
            }
            i = i + 1;
        }
        assert(candidates@.take(i as int) =~= candidates@);
        r
    }

    /// The announced addresses to connect to: those not connected yet.
    pub fn new_peer_addresses(&self, ipv4: Vec<u32>, ipv6: Vec<u128>) -> (r: Vec<PeerAddr>)
        ensures
            r@ == announced_addrs(ipv4@, ipv6@).filter(
                |a: PeerAddr| !self.spec_peers().contains_key(a),
            ),
    {
        let mut candidates: Vec<PeerAddr> = Vec::new();
        let mut i: usize = 0;
        while i < ipv4.len()
            invariant
                i <= ipv4@.len(),
                candidates@ == ipv4@.take(i as int).map_values(
                    |ip: u32| PeerAddr::spec_new(IpAddress::V4(ip), DEFAULT_PORT),
                ),
            decreases ipv4@.len() - i,
        {
            candidates.push(PeerAddr::new(IpAddress::V4(ipv4[i]), DEFAULT_PORT));
            i = i + 1;
            assert(candidates@ =~= ipv4@.take(i as int).map_values(
                |ip: u32| PeerAddr::spec_new(IpAddress::V4(ip), DEFAULT_PORT),
            ));
        }
        let ghost front = candidates@;
        assert(ipv4@.take(i as int) =~= ipv4@);
        let mut j: usize = 0;
        while j < ipv6.len()
            invariant
                j <= ipv6@.len(),
                candidates@ == front + ipv6@.take(j as int).map_values(
                    |ip: u128| PeerAddr::spec_new(IpAddress::V6(ip), DEFAULT_PORT),
                ),
            decreases ipv6@.len() - j,
        {
            candidates.push(PeerAddr::new(IpAddress::V6(ipv6[j]), DEFAULT_PORT));
            j = j + 1;
            assert(candidates@ =~= front + ipv6@.take(j as int).map_values(
                |ip: u128| PeerAddr::spec_new(IpAddress::V6(ip), DEFAULT_PORT),
            ));
        }
        assert(ipv6@.take(j as int) =~= ipv6@);
        assert(candidates@ =~= announced_addrs(ipv4@, ipv6@));
        self.fresh_addresses(candidates)
    }

    /// A message from a connected peer: a text goes to the user interface, a
    /// name is taken as `set_name` says, a list of peers gives the addresses
    /// to connect to.
    pub fn handle_message(&mut self, peer: PeerAddr, message: PizzaMessage) -> (r: Reaction)
        requires
            message@ is Text ==> old(self).spec_peers().contains_key(peer),
        ensures
            final(self).spec_username() == old(self).spec_username(),
            final(self).spec_order() == old(self).spec_order(),
            match message@ {
                MessageModel::Text(body) => {
                    &&& final(self).spec_peers() == old(self).spec_peers()
                    &&& r matches Reaction::Notify(Event::NewMessage { at, username, message })
                    &&& at == peer
                    &&& name_view(username) == old(self).spec_peers()[peer]
                    &&& message@ == body
                },
                MessageModel::SetName(name) => {
                    &&& final(self).spec_peers() == renamed(old(self).spec_peers(), peer, name)
                    &&& renames(old(self).spec_peers(), peer, name) ==> (r matches Reaction::Notify(
                        Event::UpdateUserName { at, new_username },
                    ) && at == peer && new_username@ == name)
                    &&& !renames(old(self).spec_peers(), peer, name) ==> r is Nothing
                    &&& old(self).spec_peers().contains_key(peer) ==> final(self).spec_peers()
                        == old(self).spec_peers().insert(peer, Some(name))
                    &&& !old(self).spec_peers().contains_key(peer) ==> r is Nothing
                    &&& old(self).spec_peers().contains_key(peer) && old(self).spec_peers()[peer]
                        != Some(name) ==> (r matches Reaction::Notify(
                        Event::UpdateUserName { at, new_username },
                    ) && at == peer && new_username@ == name)
                    &&& old(self).spec_peers().contains_key(peer) && old(self).spec_peers()[peer]
                        == Some(name) ==> r is Nothing
                },
                MessageModel::NewPeers(ipv4, ipv6) => {
                    &&& final(self).spec_peers() == old(self).spec_peers()
                    &&& r matches Reaction::Connect(addrs)
                    &&& addrs@ == announced_addrs(ipv4, ipv6).filter(
                        |a: PeerAddr| !old(self).spec_peers().contains_key(a),
                    )
                },
            },
    {
        match message {
            PizzaMessage::Text { body } => Reaction::Notify(self.new_text_message(peer, body)),
            PizzaMessage::SetName { name } => match self.set_name(peer, name) {
                Some(event) => Reaction::Notify(event),
                None => Reaction::Nothing,
            },
            PizzaMessage::NewPeers { ipv4, ipv6 } => Reaction::Connect(
                self.new_peer_addresses(ipv4, ipv6),
            ),
        }
    }

    /// A peer at `addr` is connected, with no name yet; the user interface is
    /// told.
    pub fn peer_connected(&mut self, addr: PeerAddr) -> (r: Event)
        ensures
            final(self).spec_username() == old(self).spec_username(),
            final(self).spec_peers() == old(self).spec_peers().insert(addr, None),
            old(self).spec_peers().contains_key(addr) ==> final(self).spec_order() == old(
                self,
            ).spec_order(),
            !old(self).spec_peers().contains_key(addr) ==> final(self).spec_order() == old(
                self,
            ).spec_order().push(addr),
            r == (Event::UserConnected { at: addr, username: None }),
    {
        self.peers.insert(addr, None);
        Event::UserConnected { at: addr, username: None }
    }

    /// A connected peer went away; the user interface is told, with the name
    /// the peer had.
    pub fn handle_disconnect_of(&mut self, peer: PeerAddr) -> (r: Event)
        requires
            old(self).spec_peers().contains_key(peer),
        ensures
            final(self).spec_username() == old(self).spec_username(),
            final(self).spec_peers() == old(self).spec_peers().remove(peer),
            final(self).spec_order() == old(self).spec_order().filter(|a: PeerAddr| a != peer),
            r matches Event::UserDisconnected { at, username } && at == peer && name_view(username)
                == old(self).spec_peers()[peer],
    {
        let name = self.peers.remove(&peer).unwrap();
        Event::UserDisconnected { at: peer, username: name }
    }

    /// What to send every peer for a request of the user: a text, or the
    /// user's new name.
    pub fn handle_ui_request(&self, ui_request: Request) -> (r: PizzaMessage)
        ensures
            match ui_request {
                Request::SendMessage { body } => r == (PizzaMessage::Text { body }),
                Request::ChangeName { name } => r == (PizzaMessage::SetName { name }),
            },
    {
        match ui_request {
            Request::SendMessage { body } => PizzaMessage::Text { body },
            Request::ChangeName { name } => PizzaMessage::SetName { name },
        }
    }

    /// The user's name, as sent to every new peer.
    pub fn set_name_message(&self) -> (r: PizzaMessage)
        ensures
            r@ == MessageModel::SetName(self.spec_username()),
    {
        PizzaMessage::SetName { name: self.username.clone() }
    }

    /// What is sent to a peer that connects: first the user's name, then the
    /// addresses of the connected peers, the version 4 and the version 6 ones
    /// each in the order the peers connected.
    pub fn handshake(&self) -> (r: (PizzaMessage, PizzaMessage))
        ensures
            r.0@ == MessageModel::SetName(self.spec_username()),
            r.1@ == MessageModel::NewPeers(v4_ips(self.spec_order()), v6_ips(self.spec_order())),
    {
        let addrs = self.peers.addrs();
        let mut ipv4: Vec<u32> = Vec::new();
        let mut ipv6: Vec<u128> = Vec::new();
        let mut i: usize = 0;
        while i < addrs.len()
            invariant
                i <= addrs@.len(),
                ipv4@ == v4_ips(addrs@.take(i as int)),
                ipv6@ == v6_ips(addrs@.take(i as int)),
            decreases addrs@.len() - i,
        {
            proof {
                assert(addrs@.take(i + 1).drop_last() =~= addrs@.take(i as int));
            }
            match addrs[i] {
                PeerAddr::V4 { ip, .. } => ipv4.push(ip),
                PeerAddr::V6 { ip, .. } => ipv6.push(ip),
            }
            i = i + 1;
        }
        assert(addrs@.take(i as int) =~= addrs@);
        (self.set_name_message(), PizzaMessage::NewPeers { ipv4, ipv6 })
    }
}

/// A connected peer that says a name has that name afterwards, whatever
/// name it had before, and the user interface is told exactly when the name
/// differs from the one it had; a peer that is not connected changes nothing.
pub proof fn lemma_saying_a_name_takes_it(
    peers: Map<PeerAddr, Option<Seq<char>>>,
    peer: PeerAddr,
    name: Seq<char>,
)
    ensures
        peers.contains_key(peer) ==> renamed(peers, peer, name) == peers.insert(peer, Some(name)),
        peers.contains_key(peer) ==> renamed(peers, peer, name)[peer] == Some(name),
        !peers.contains_key(peer) ==> renamed(peers, peer, name) == peers,
        renames(peers, peer, name) <==> (peers.contains_key(peer) && peers[peer] != Some(name)),
{
    if peers.contains_key(peer) && peers[peer] == Some(name) {
        assert(peers.insert(peer, Some(name)) =~= peers);
    }
}

/// The named peers of a configuration are exactly its entries that carry a
/// name, in order, each as its address and that name.
pub proof fn lemma_named_peers_are_the_named_entries(initial: Seq<(Option<String>, PeerAddr)>)
    ensures
        named(initial) == initial.filter(|p: (Option<String>, PeerAddr)| p.0 is Some).map_values(
            |p: (Option<String>, PeerAddr)| (p.1, p.0->Some_0),
        ),
    decreases initial.len(),
{
    let pred = |p: (Option<String>, PeerAddr)| p.0 is Some;
    let f = |p: (Option<String>, PeerAddr)| (p.1, p.0->Some_0);
    if initial.len() > 0 {
        let front = initial.drop_last();
        lemma_named_peers_are_the_named_entries(front);
        let sub = front.filter(pred);
        reveal(Seq::filter);
        assert(initial.filter(pred) == if pred(initial.last()) {
            sub.push(initial.last())
        } else {
            sub
        });
        if pred(initial.last()) {
            assert(sub.push(initial.last()).map_values(f) =~= sub.map_values(f).push(
                f(initial.last()),
            ));
        }
    } else {
        reveal(Seq::filter);
        assert(initial.filter(pred).map_values(f) =~= Seq::<(PeerAddr, String)>::empty());
    }
}

/// A name said twice is news at most once: after a peer said it, saying it
/// again changes nothing and tells the user interface nothing.
pub proof fn lemma_set_name_settles(
    peers: Map<PeerAddr, Option<Seq<char>>>,
    peer: PeerAddr,
    name: Seq<char>,
)
    ensures
        !renames(renamed(peers, peer, name), peer, name),
        renamed(renamed(peers, peer, name), peer, name) == renamed(peers, peer, name),
{
}

/// A peer that connects and then goes away leaves the peers, and their
/// order, as they were.
pub proof fn lemma_connect_then_disconnect(
    peers: Map<PeerAddr, Option<Seq<char>>>,
    order: Seq<PeerAddr>,
    addr: PeerAddr,
)
    requires
        !peers.contains_key(addr),
        !order.contains(addr),
    ensures
        peers.insert(addr, None).remove(addr) == peers,
        order.push(addr).filter(|a: PeerAddr| a != addr) == order,
    decreases order.len(),
{
    assert(peers.insert(addr, None).remove(addr) =~= peers);
    reveal(Seq::filter);
    assert(order.push(addr).drop_last() =~= order);
    lemma_filter_keeps(order, addr);
}

/// Filtering out an address that is absent keeps everything.
proof fn lemma_filter_keeps(order: Seq<PeerAddr>, addr: PeerAddr)
    requires
        !order.contains(addr),
    ensures
        order.filter(|a: PeerAddr| a != addr) == order,
    decreases order.len(),
{
    reveal(Seq::filter);
    if order.len() > 0 {
        let init = order.drop_last();
        assert(!init.contains(addr)) by {
            if init.contains(addr) {
                let k = choose|k: int| 0 <= k < init.len() && init[k] == addr;
                assert(order[k] == addr);
            }
        }
        assert(order[order.len() - 1] != addr);
        lemma_filter_keeps(init, addr);
    }
    assert(order.filter(|a: PeerAddr| a != addr) =~= order);
}

/// The peer list of a handshake names every connected peer's address, and
/// nothing else.
pub proof fn lemma_peer_list_complete(order: Seq<PeerAddr>)
    ensures
        forall|i: int|
            0 <= i < order.len() ==> match #[trigger] order[i] {
                PeerAddr::V4 { ip, .. } => v4_ips(order).contains(ip),
                PeerAddr::V6 { ip, .. } => v6_ips(order).contains(ip),
            },
        forall|x: u32|
            #[trigger] v4_ips(order).contains(x) ==> exists|i: int|
                0 <= i < order.len() && #[trigger] order[i].spec_ip() == IpAddress::V4(x),
        forall|x: u128|
            #[trigger] v6_ips(order).contains(x) ==> exists|i: int|
                0 <= i < order.len() && #[trigger] order[i].spec_ip() == IpAddress::V6(x),
    decreases order.len(),
{
    if order.len() > 0 {
        let init = order.drop_last();
        lemma_peer_list_complete(init);
        let n = order.len() - 1;
        assert forall|i: int| 0 <= i < order.len() implies match #[trigger] order[i] {
            PeerAddr::V4 { ip, .. } => v4_ips(order).contains(ip),
            PeerAddr::V6 { ip, .. } => v6_ips(order).contains(ip),
        } by {
            if i < n {
                assert(order[i] == init[i]);
                match init[i] {
                    PeerAddr::V4 { ip, .. } => {
                        let k = choose|k: int| 0 <= k < v4_ips(init).len() && v4_ips(init)[k] == ip;
                        assert(v4_ips(order)[k] == ip);
                    },
                    PeerAddr::V6 { ip, .. } => {
                        let k = choose|k: int| 0 <= k < v6_ips(init).len() && v6_ips(init)[k] == ip;
                        assert(v6_ips(order)[k] == ip);
                    },
                }
            } else {
                match order[i] {
                    PeerAddr::V4 { ip, .. } => {
                        assert(v4_ips(order).last() == ip);
                    },
                    PeerAddr::V6 { ip, .. } => {
                        assert(v6_ips(order).last() == ip);
                    },
                }
            }
        }
        assert forall|x: u32| #[trigger] v4_ips(order).contains(x) implies exists|i: int|
            0 <= i < order.len() && #[trigger] order[i].spec_ip() == IpAddress::V4(x) by {
            let k = choose|k: int| 0 <= k < v4_ips(order).len() && v4_ips(order)[k] == x;
            if k < v4_ips(init).len() {
                assert(v4_ips(init)[k] == x);
                assert(v4_ips(init).contains(x));
                let i = choose|i: int|
                    0 <= i < init.len() && #[trigger] init[i].spec_ip() == IpAddress::V4(x);
                assert(order[i] == init[i]);
            } else {
                assert(order[n].spec_ip() == IpAddress::V4(x));
            }
        }
        assert forall|x: u128| #[trigger] v6_ips(order).contains(x) implies exists|i: int|
            0 <= i < order.len() && #[trigger] order[i].spec_ip() == IpAddress::V6(x) by {
            let k = choose|k: int| 0 <= k < v6_ips(order).len() && v6_ips(order)[k] == x;
            if k < v6_ips(init).len() {
                assert(v6_ips(init)[k] == x);
                assert(v6_ips(init).contains(x));
                let i = choose|i: int|
                    0 <= i < init.len() && #[trigger] init[i].spec_ip() == IpAddress::V6(x);
                assert(order[i] == init[i]);
            } else {
                assert(order[n].spec_ip() == IpAddress::V6(x));
            }
        }
    }
}

/// The client never connects twice to an address it is connected to: the
/// addresses it picks from announced ones are all new, and all announced.
pub proof fn lemma_fresh_addresses_are_new(
    peers: Map<PeerAddr, Option<Seq<char>>>,
    candidates: Seq<PeerAddr>,
    fresh: Seq<PeerAddr>,
)
    requires
        fresh == candidates.filter(|c: PeerAddr| !peers.contains_key(c)),
    ensures
        forall|a: PeerAddr| #[trigger] fresh.contains(a) ==> !peers.contains_key(a) && candidates.contains(a),
{
    assert forall|a: PeerAddr| #[trigger] fresh.contains(a) implies !peers.contains_key(a)
        && candidates.contains(a) by {
        lemma_filter_within(candidates, |c: PeerAddr| !peers.contains_key(c), a);
    }
}

/// What a filter keeps passes the test and was there before.
proof fn lemma_filter_within(s: Seq<PeerAddr>, keep: spec_fn(PeerAddr) -> bool, a: PeerAddr)
    ensures
        s.filter(keep).contains(a) ==> keep(a) && s.contains(a),
    decreases s.len(),
{
    reveal(Seq::filter);
    if s.len() > 0 && s.filter(keep).contains(a) {
        let init = s.drop_last();
        lemma_filter_within(init, keep, a);
        if init.filter(keep).contains(a) {
            let k = choose|k: int| 0 <= k < init.len() && init[k] == a;
            assert(s[k] == a);
        } else {
            let f = s.filter(keep);
            let k = choose|k: int| 0 <= k < f.len() && f[k] == a;
            assert(keep(s.last()) && f =~= init.filter(keep).push(s.last()));
            assert(k == f.len() - 1);
            assert(s[s.len() - 1] == a);
        }
    }
}

} // verus!
