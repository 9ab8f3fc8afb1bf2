//! Tickets: the id of an endpoint and the addresses at which it is known, as one text.

use crate::identity::{
    base32_digit, base32_text, bit_at, decodable, decodable_trimmed, is_endpoint_id, public_key,
    Identity,
};
use crate::text::{
    absent, decimal, decimal_text, find, is_digit, is_trimmed, law_decimal_read_back,
    law_trimming_is_unique, lemma_decimal_digits, number_of, occurs_at, push_decimal, same_text,
    starts, trim,
};
use vstd::arithmetic::power2::{lemma2_to64, pow2};
use vstd::prelude::*;
use vstd::utf8::encode_utf8;

verus! {

// ---------------------------------------------------------------------------
// Addresses
// ---------------------------------------------------------------------------

/// An address of an endpoint.
#[derive(Debug, PartialEq, Eq)]
pub enum Address {
    /// A relay server, by its URL.
    Relay(String),
    /// An IP address and a port, as they are usually written.
    Ip(String),
    /// An address of some other transport.
    Custom { id: u64, data: Vec<u8> },
}

/// What an address says.
pub enum AddressView {
    Relay(Seq<char>),
    Ip(Seq<char>),
    Custom { id: u64, data: Seq<u8> },
}

impl View for Address {
    type V = AddressView;

    open spec fn view(&self) -> AddressView {
        match *self {
            Address::Relay(url) => AddressView::Relay(url@),
            Address::Ip(text) => AddressView::Ip(text@),
            Address::Custom { id, data } => AddressView::Custom { id, data: data@ },
        }
    }
}

/// What some addresses say, whatever their order and however often each occurs.
pub open spec fn address_set(addresses: Seq<Address>) -> Set<AddressView> {
    addresses.map_values(|address: Address| address@).to_set()
}

/// An IPv4 address and a port as text.
pub open spec fn ip4_text(ip: Seq<u8>, port: u16) -> Seq<char> {
    decimal(ip[0] as nat) + "."@ + decimal(ip[1] as nat) + "."@ + decimal(ip[2] as nat) + "."@
        + decimal(ip[3] as nat) + ":"@ + decimal(port as nat)
}

/// How a relay URL is written once it was read from this text, if it is one.
pub uninterp spec fn relay_form(text: Seq<char>) -> Option<Seq<char>>;

/// How an IP address and port are written once they were read from this text, if they
/// are any.
pub uninterp spec fn socket_form(text: Seq<char>) -> Option<Seq<char>>;

/// Hands a text to `<iroh::RelayUrl as FromStr>::from_str` and writes the URL with its
/// `Display`, which can differ from the text. Nothing is claimed of how.
#[verifier::external_body]
fn relay_form_of(text: &str) -> (form: Option<String>)
    ensures
        match form {
            Some(form) => relay_form(text@) == Some(form@),
            None => relay_form(text@) is None,
        },
{
    text.parse::<iroh::RelayUrl>().ok().map(|url| url.to_string())
}

/// Hands a text to `FromStr` of the socket addresses of std, which
/// `iroh::TransportAddr::Ip` holds, and writes the address with its `Display`. An IPv4
/// address is four decimal numbers with points between them and a port behind a colon,
/// and is written as it was read.
#[verifier::external_body]
fn socket_form_of(text: &str) -> (form: Option<String>)
    ensures
        match form {
            Some(form) => socket_form(text@) == Some(form@),
            None => socket_form(text@) is None,
        },
        forall|ip: Seq<u8>, port: u16|
            ip.len() == 4 && text@ == #[trigger] ip4_text(ip, port) ==> {
                form matches Some(form) && form@ == text@
            },
{
    match iroh::TransportAddr::Ip(text.parse().ok()?) {
        iroh::TransportAddr::Ip(addr) => Some(addr.to_string()),
        _ => None,
    }
}

/// A ticket gives the address back as it was: its text is already in the form in which
/// it is written, and no zone stands in it, which a ticket leaves out.
pub open spec fn settled(address: AddressView) -> bool {
    match address {
        AddressView::Relay(url) => relay_form(url) == Some(url),
        AddressView::Ip(text) => socket_form(text) == Some(text) && absent(text, "%"@),
        AddressView::Custom { .. } => true,
    }
}

/// Each of the addresses is one that a ticket gives back.
pub open spec fn all_settled(addresses: Set<AddressView>) -> bool {
    forall|address: AddressView| #[trigger] addresses.contains(address) ==> settled(address)
}

impl Address {
    /// The address of a listener.
    pub fn listener(ip: [u8; 4], port: u16) -> (address: Address)
        ensures
            address@ == AddressView::Ip(ip4_text(ip@, port)),
    {
        let mut text = decimal_text(ip[0] as u64);
        text.append(".");
        push_decimal(&mut text, ip[1] as u64);
        text.append(".");
        push_decimal(&mut text, ip[2] as u64);
        text.append(".");
        push_decimal(&mut text, ip[3] as u64);
        text.append(":");
        push_decimal(&mut text, port as u64);
        Address::Ip(text)
    }

    /// Whether a ticket gives the address back as it is. That of a listener it does.
    pub fn is_settled(&self) -> (yes: bool)
        ensures
            yes == settled(self@),
            forall|ip: Seq<u8>, port: u16|
                ip.len() == 4 && self@ == AddressView::Ip(#[trigger] ip4_text(ip, port)) ==> yes,
    {
        proof {
            assert forall|ip: Seq<u8>, port: u16|
                ip.len() == 4 && self@ == AddressView::Ip(
                    #[trigger] ip4_text(ip, port),
                ) implies absent(ip4_text(ip, port), "%"@) by {
                lemma_no_zone(ip, port);
            }
        }
        match self {
            Address::Relay(url) => match relay_form_of(url.as_str()) {
                Some(form) => same_text(form.as_str(), url.as_str()),
                None => false,
            },
            Address::Ip(text) => match socket_form_of(text.as_str()) {
                Some(form) => same_text(form.as_str(), text.as_str()) && find(
                    text.as_str(),
                    "%",
                ).is_none(),
                None => false,
            },
            Address::Custom { .. } => true,
        }
    }
}

/// No zone stands in the address of a listener.
proof fn lemma_no_zone(ip: Seq<u8>, port: u16)
    requires
        ip.len() == 4,
    ensures
        absent(ip4_text(ip, port), "%"@),
{
    let text = ip4_text(ip, port);
    reveal_strlit("%");
    reveal_strlit(".");
    reveal_strlit(":");
    lemma_decimal_digits(ip[0] as nat);
    lemma_decimal_digits(ip[1] as nat);
    lemma_decimal_digits(ip[2] as nat);
    lemma_decimal_digits(ip[3] as nat);
    lemma_decimal_digits(port as nat);
    assert forall|i: int| 0 <= i < text.len() implies is_digit(#[trigger] text[i]) || text[i] == '.'
        || text[i] == ':' by {}
    assert forall|j: int| !#[trigger] occurs_at(text, "%"@, j) by {
        if occurs_at(text, "%"@, j) {
            assert(text.subrange(j, j + 1)[0] == '%');
        }
    }
}

// ---------------------------------------------------------------------------
// Tickets
// ---------------------------------------------------------------------------

/// What a ticket says.
#[derive(Debug, PartialEq, Eq)]
pub struct Ticket {
    /// The endpoint.
    pub id: [u8; 32],
    /// Where it is known to be.
    pub addresses: Vec<Address>,
}

/// What a ticket says, in mathematical terms.
pub struct TicketView {
    pub id: Seq<u8>,
    pub addresses: Set<AddressView>,
}

impl View for Ticket {
    type V = TicketView;

    open spec fn view(&self) -> TicketView {
        TicketView { id: self.id@, addresses: address_set(self.addresses@) }
    }
}

/// What the ticket with this text says, or the words for why there is none, on a machine
/// with pointers of this width: lengths in a ticket are read as wide as a pointer is.
pub uninterp spec fn ticket_read(width: u32, text: Seq<char>) -> Result<TicketView, Seq<char>>;

/// The text of the ticket that says this.
pub uninterp spec fn ticket_text(ticket: TicketView) -> Seq<char>;

/// `text` is a ticket that says this.
pub open spec fn is_ticket(text: Seq<char>, ticket: TicketView) -> bool {
    ticket_read(usize::BITS, text) == Ok::<TicketView, Seq<char>>(ticket)
}

/// `read` is what reading the ticket `text` gives.
pub open spec fn is_ticket_read(text: Seq<char>, read: Result<Ticket, String>) -> bool {
    match read {
        Ok(ticket) => is_ticket(text, ticket@),
        Err(error) => ticket_read(usize::BITS, text) == Err::<TicketView, Seq<char>>(error@),
    }
}

/// The text was refused because it does not begin as a ticket does.
pub open spec fn refused_for_prefix(read: Result<Ticket, String>) -> bool {
    match read {
        Ok(_) => false,
        Err(error) => error@ == "wrong prefix, expected endpoint"@,
    }
}

/// Hands a text to `<iroh_tickets::endpoint::EndpointTicket as FromStr>::from_str`
/// and takes out the id and the addresses that the ticket holds, which are of the three
/// kinds that `Address` has, or writes the error with its `Display`. A text without the
/// prefix is no ticket.
#[verifier::external_body]
fn parse_ticket(text: &str) -> (read: Result<Ticket, String>)
    requires
        decodable(text@),
    ensures
        match read {
            Ok(ticket) => ticket_read(usize::BITS, text@) == Ok::<_, Seq<char>>(ticket@),
            Err(error) => ticket_read(usize::BITS, text@) == Err::<TicketView, _>(error@),
        },
        !starts(text@, "endpoint"@) ==> refused_for_prefix(read),
{
    let ticket: iroh_tickets::endpoint::EndpointTicket =
        text.parse().map_err(|error: iroh_tickets::ParseError| error.to_string())?;
    let addresses = ticket.endpoint_addr().addrs.iter().map(|addr| match addr {
        iroh::TransportAddr::Relay(url) => Address::Relay(url.to_string()),
        iroh::TransportAddr::Ip(addr) => Address::Ip(addr.to_string()),
        iroh::TransportAddr::Custom(addr) =>
            Address::Custom { id: addr.id(), data: addr.data().to_vec() },
        other => Address::Ip(other.to_string()),
    });
    Ok(Ticket { id: *ticket.endpoint_addr().id.as_bytes(), addresses: addresses.collect() })
}

/// The bytes of the ticket that names an endpoint and nothing else: the format,
/// the id, and no addresses.
pub open spec fn short_ticket_bytes(id: Seq<u8>) -> Seq<u8> {
    seq![0u8] + id + seq![0u8]
}

/// That ticket as text.
pub open spec fn short_ticket_text(id: Seq<u8>) -> Seq<char> {
    "endpoint"@ + base32_text(short_ticket_bytes(id))
}

/// A number below 2^16 in groups of seven bits, the lowest first, each but the last
/// marked by the bit above it.
pub open spec fn varint(n: u16) -> Seq<u8> {
    if n < 0x80 {
        seq![n as u8]
    } else if n < 0x4000 {
        seq![(n % 128 + 128) as u8, (n / 128) as u8]
    } else {
        seq![(n % 128 + 128) as u8, (n / 128 % 128 + 128) as u8, (n / 0x4000) as u8]
    }
}

/// An IPv4 address in a ticket: that it is an IP address and of which version, the
/// address and the port.
pub open spec fn address_bytes(ip: Seq<u8>, port: u16) -> Seq<u8> {
    seq![1u8, 0u8] + ip + varint(port)
}

/// The bytes of the ticket that names an endpoint and one IPv4 address: the format,
/// the id, how many addresses, and the address.
pub open spec fn long_ticket_bytes(id: Seq<u8>, ip: Seq<u8>, port: u16) -> Seq<u8> {
    seq![0u8] + id + seq![1u8] + address_bytes(ip, port)
}

/// That ticket as text.
pub open spec fn long_ticket_text(id: Seq<u8>, ip: Seq<u8>, port: u16) -> Seq<char> {
    "endpoint"@ + base32_text(long_ticket_bytes(id, ip, port))
}

/// Room enough in a ticket for an address that it gives back as it was.
pub open spec fn address_room(address: Address) -> nat {
    match address {
        Address::Relay(url) => 32 + encode_utf8(url@).len(),
        Address::Ip(_) => 32,
        Address::Custom { data, .. } => 32 + data@.len(),
    }
}

/// Room enough for a ticket with some addresses.
pub open spec fn ticket_room(addresses: Seq<Address>) -> nat
    decreases addresses.len(),
{
    if addresses.len() == 0 {
        64
    } else {
        ticket_room(addresses.drop_last()) + address_room(addresses.last())
    }
}

/// A ticket with the addresses is not too long to be written in base32.
pub open spec fn writable(addresses: Seq<Address>) -> bool {
    ticket_room(addresses) <= usize::MAX / 512
}

/// It still is not with one more IP address.
pub open spec fn takes_one_more(addresses: Seq<Address>) -> bool {
    ticket_room(addresses) + 32 <= usize::MAX / 512
}

/// Calls `iroh::PublicKey::from_bytes` and, where the bytes are an id, makes an
/// `iroh_tickets::endpoint::EndpointTicket` of it and of the set of the addresses, and
/// writes it with its `Display`. What was written reads back. The text is stated in
/// full for a ticket without addresses and for one with a single IPv4 address: the
/// prefix, and the bytes of the ticket in base32. How other addresses are written is not
/// stated.
#[verifier::external_body]
fn write_ticket(ticket: &Ticket) -> (text: Option<String>)
    requires
        writable(ticket.addresses@),
        all_settled(ticket@.addresses),
    ensures
        text is Some == is_endpoint_id(ticket.id@),
        text matches Some(text) ==> {
            &&& text@ == ticket_text(ticket@)
            &&& is_ticket(text@, ticket@)
            &&& ticket@.addresses == Set::<AddressView>::empty() ==> text@ == short_ticket_text(
                ticket.id@,
            )
            &&& forall|ip: Seq<u8>, port: u16|
                ip.len() == 4 && ticket@.addresses == set![AddressView::Ip(
                    #[trigger] ip4_text(ip, port),
                )] ==> text@ == long_ticket_text(ticket.id@, ip, port)
        },
{
    let mut addr = iroh::EndpointAddr::new(iroh::PublicKey::from_bytes(&ticket.id).ok()?);
    for address in &ticket.addresses {
        addr.addrs.insert(match address {
            Address::Relay(url) => iroh::TransportAddr::Relay(url.parse().ok()?),
            Address::Ip(text) => iroh::TransportAddr::Ip(text.parse().ok()?),
            Address::Custom { id, data } =>
                iroh::TransportAddr::Custom((*id, data.as_slice()).into()),
        });
    }
    Some(iroh_tickets::endpoint::EndpointTicket::new(addr).to_string())
}

impl Ticket {
    /// Whether there is room for one more IP address.
    pub fn has_room(&self) -> (yes: bool)
        ensures
            yes == takes_one_more(self.addresses@),
    {
        let limit: usize = usize::MAX / 512;
        let mut room: usize = 96;
        let mut i: usize = 0;
        while i < self.addresses.len()
            invariant
                i <= self.addresses@.len(),
                limit == usize::MAX / 512,
                room == ticket_room(self.addresses@.take(i as int)) + 32,
                room <= limit,
            decreases self.addresses@.len() - i,
        {
            let extra: usize = match &self.addresses[i] {
                Address::Relay(url) => url.as_str().as_bytes().len(),
                Address::Ip(_) => 0,
                Address::Custom { data, .. } => data.len(),
            };
            proof {
                let taken = self.addresses@.take(i + 1);
                assert(taken.drop_last() =~= self.addresses@.take(i as int));
                assert(ticket_room(taken) == room + extra);
                lemma_room_grows(self.addresses@, i + 1);
            }
            if limit - room < 32 || limit - room - 32 < extra {
                return false;
            }
            room = room + 32 + extra;
            i = i + 1;
        }
        assert(self.addresses@.take(i as int) =~= self.addresses@);
        true
    }
}

/// More addresses never need less room.
proof fn lemma_room_grows(addresses: Seq<Address>, k: int)
    requires
        0 <= k <= addresses.len(),
    ensures
        ticket_room(addresses.take(k)) <= ticket_room(addresses),
    decreases addresses.len(),
{
    if k == addresses.len() {
        assert(addresses.take(k) =~= addresses);
    } else {
        lemma_room_grows(addresses.drop_last(), k);
        assert(addresses.drop_last().take(k) =~= addresses.take(k));
    }
}

/// What a ticket says once the address of a listener was added.
pub open spec fn listening(known: TicketView, ip: Seq<u8>, port: u16) -> TicketView {
    TicketView {
        addresses: known.addresses.insert(AddressView::Ip(ip4_text(ip, port))),
        ..known
    }
}

/// The long ticket of an endpoint: what is known of it, and the address at which it
/// listens. There is none where the id is no id, or where a ticket would not give some
/// address back as it is.
pub fn long_ticket(known: Ticket, ip: [u8; 4], port: u16) -> (text: Option<String>)
    requires
        takes_one_more(known.addresses@),
    ensures
        text is Some == (is_endpoint_id(known.id@) && all_settled(known@.addresses)),
        text matches Some(text) ==> {
            &&& text@ == ticket_text(listening(known@, ip@, port))
            &&& is_ticket(text@, listening(known@, ip@, port))
            &&& known.addresses@.len() == 0 ==> text@ == long_ticket_text(known.id@, ip@, port)
        },
{
    let mut ticket = known;
    let listener = Address::listener(ip, port);
    ticket.addresses.push(listener);
    proof {
        lemma_set_of_pushed(known.addresses@, listener);
        assert(ticket.addresses@.drop_last() =~= known.addresses@);
        assert(ticket@.addresses == listening(known@, ip@, port).addresses);
    }
    let mut i: usize = 0;
    while i < ticket.addresses.len()
        invariant
            i <= ticket.addresses@.len(),
            forall|j: int| 0 <= j < i ==> settled(#[trigger] ticket.addresses@[j]@),
            ticket.addresses@ == known.addresses@.push(listener),
            listener@ == AddressView::Ip(ip4_text(ip@, port)),
        decreases ticket.addresses@.len() - i,
    {
        if !ticket.addresses[i].is_settled() {
            proof {
                assert(ticket.addresses@[i as int] == known.addresses@[i as int]);
                lemma_in_set(known.addresses@, i as int);
            }
            return None;
        }
        i = i + 1;
    }
    proof {
        lemma_all_settled(ticket.addresses@);
        assert forall|address: AddressView| #[trigger]
            known@.addresses.contains(address) implies settled(address) by {
            assert(ticket@.addresses.contains(address));
        }
        if known.addresses@.len() == 0 {
            assert(known@.addresses =~= Set::<AddressView>::empty());
        }
    }
    write_ticket(&ticket)
}

/// The short ticket of an endpoint: its id, without addresses.
pub fn short_ticket(id: &[u8; 32]) -> (text: Option<String>)
    ensures
        text is Some == is_endpoint_id(id@),
        text matches Some(text) ==> {
            &&& text@ == short_ticket_text(id@)
            &&& is_ticket(
                text@,
                (TicketView { id: id@, addresses: Set::<AddressView>::empty() }),
            )
        },
{
    let ticket = Ticket { id: *id, addresses: Vec::new() };
    assert(ticket@.addresses =~= Set::<AddressView>::empty());
    write_ticket(&ticket)
}

/// The short ticket of the endpoint with this identity.
pub fn ticket_of(identity: &Identity) -> (text: String)
    ensures
        text@ == short_ticket_text(public_key(identity.secret@)),
        is_ticket(
            text@,
            (TicketView {
                id: public_key(identity.secret@),
                addresses: Set::<AddressView>::empty(),
            }),
        ),
{
    let id = identity.public();
    match short_ticket(&id) {
        Some(text) => text,
        None => String::new(),
    }
}

/// Read a ticket, exactly as it stands.
pub fn read_ticket(text: &str) -> (read: Result<Ticket, String>)
    requires
        decodable(text@),
    ensures
        is_ticket_read(text@, read),
        !starts(text@, "endpoint"@) ==> refused_for_prefix(read),
{
    parse_ticket(text)
}

/// Read a ticket, without the whitespace round it.
pub fn read_trimmed_ticket(text: &str) -> (read: Result<Ticket, String>)
    requires
        decodable_trimmed(text@),
    ensures
        forall|core: Seq<char>|
            #[trigger] is_trimmed(text@, core) ==> {
                &&& is_ticket_read(core, read)
                &&& !starts(core, "endpoint"@) ==> refused_for_prefix(read)
            },
{
    let core = trim(text);
    proof {
        assert forall|other: Seq<char>| #[trigger] is_trimmed(text@, other) implies other
            == core@ by {
            law_trimming_is_unique(text@, core@, other);
        }
    }
    parse_ticket(core)
}

/// What a subscriber is told of a ticket that could not be read.
pub fn bad_ticket(read: Result<Ticket, String>) -> (result: Result<Ticket, String>)
    ensures
        match (read, result) {
            (Ok(read), Ok(ticket)) => ticket == read,
            (Err(error), Err(message)) => message@ == "bad ticket: "@ + error@,
            _ => false,
        },
{
    match read {
        Ok(ticket) => Ok(ticket),
        Err(error) => {
            let mut message = "bad ticket: ".to_owned();
            message.append(error.as_str());
            Err(message)
        },
    }
}

/// An address that occurs is in the set.
proof fn lemma_in_set(addresses: Seq<Address>, i: int)
    requires
        0 <= i < addresses.len(),
    ensures
        address_set(addresses).contains(addresses[i]@),
{
    let views = addresses.map_values(|address: Address| address@);
    assert(views[i] == addresses[i]@);
}

/// What is so of each address is so of all in the set.
proof fn lemma_all_settled(addresses: Seq<Address>)
    requires
        forall|j: int| 0 <= j < addresses.len() ==> settled(#[trigger] addresses[j]@),
    ensures
        all_settled(address_set(addresses)),
{
    let views = addresses.map_values(|address: Address| address@);
    assert forall|address: AddressView| #[trigger]
        address_set(addresses).contains(address) implies settled(address) by {
        let j = choose|j: int| 0 <= j < views.len() && views[j] == address;
        assert(views[j] == addresses[j]@);
    }
}

/// One more address is one more in the set.
proof fn lemma_set_of_pushed(addresses: Seq<Address>, address: Address)
    ensures
        address_set(addresses.push(address)) == address_set(addresses).insert(address@),
{
    let views = addresses.map_values(|a: Address| a@);
    assert(addresses.push(address).map_values(|a: Address| a@) =~= views.push(address@));
    views.lemma_push_to_set_commute(address@);
}

// ---------------------------------------------------------------------------
// Laws
// ---------------------------------------------------------------------------

/// What was written into a ticket is what reading the ticket gives: the endpoint, and
/// each of its addresses.
pub proof fn law_written_tickets_read_back(
    text: Seq<char>,
    ticket: TicketView,
    read: Result<Ticket, String>,
)
    requires
        is_ticket(text, ticket),
        is_ticket_read(text, read),
    ensures
        read is Ok,
        read->Ok_0.id@ == ticket.id,
        address_set(read->Ok_0.addresses@) == ticket.addresses,
{
}

/// The address of a listener is written as the four numbers of its IP address, with points
/// between them, and behind a colon its port.
pub proof fn law_listener_says_address_and_port(ip: Seq<u8>, port: u16)
    requires
        ip.len() == 4,
    ensures
        exists|a: Seq<char>, b: Seq<char>, c: Seq<char>, d: Seq<char>, p: Seq<char>|
            {
                &&& ip4_text(ip, port) == #[trigger] dotted(a, b, c, d, p)
                &&& number_of(a) == Some(ip[0] as u64)
                &&& number_of(b) == Some(ip[1] as u64)
                &&& number_of(c) == Some(ip[2] as u64)
                &&& number_of(d) == Some(ip[3] as u64)
                &&& number_of(p) == Some(port as u64)
            },
{
    law_decimal_read_back(ip[0] as u64);
    law_decimal_read_back(ip[1] as u64);
    law_decimal_read_back(ip[2] as u64);
    law_decimal_read_back(ip[3] as u64);
    law_decimal_read_back(port as u64);
    let a = decimal(ip[0] as nat);
    let b = decimal(ip[1] as nat);
    let c = decimal(ip[2] as nat);
    let d = decimal(ip[3] as nat);
    let p = decimal(port as nat);
    reveal_strlit(".");
    reveal_strlit(":");
    assert(ip4_text(ip, port) =~= dotted(a, b, c, d, p));
}

/// Five texts, with points between the first four and a colon before the last.
pub open spec fn dotted(
    a: Seq<char>,
    b: Seq<char>,
    c: Seq<char>,
    d: Seq<char>,
    p: Seq<char>,
) -> Seq<char> {
    a + seq!['.'] + b + seq!['.'] + c + seq!['.'] + d + seq![':'] + p
}

/// A ticket gives an address back just when its text is already the one that is written:
/// a relay URL in its own form, an IP address in its own form and without a zone. Addresses
/// of other transports have no text and are always given back.
pub proof fn law_settled_addresses(url: Seq<char>, text: Seq<char>, id: u64, data: Seq<u8>)
    ensures
        settled(AddressView::Relay(url)) <==> relay_form(url) == Some(url),
        settled(AddressView::Ip(text)) <==> socket_form(text) == Some(text) && absent(text, "%"@),
        settled(AddressView::Custom { id, data }),
{
}

/// The set of some addresses holds each of them and no other, whatever their order.
pub proof fn law_set_holds_the_addresses(addresses: Seq<Address>, address: AddressView)
    ensures
        address_set(addresses).contains(address) <==> exists|i: int|
            0 <= i < addresses.len() && (#[trigger] addresses[i])@ == address,
        all_settled(address_set(addresses)) <==> forall|i: int|
            0 <= i < addresses.len() ==> settled((#[trigger] addresses[i])@),
{
    let views = addresses.map_values(|a: Address| a@);
    if address_set(addresses).contains(address) {
        let i = choose|i: int| 0 <= i < views.len() && views[i] == address;
        assert(addresses[i]@ == address);
    }
    if exists|i: int| 0 <= i < addresses.len() && (#[trigger] addresses[i])@ == address {
        let i = choose|i: int| 0 <= i < addresses.len() && (#[trigger] addresses[i])@ == address;
        lemma_in_set(addresses, i);
    }
    if all_settled(address_set(addresses)) {
        assert forall|i: int| 0 <= i < addresses.len() implies settled(
            (#[trigger] addresses[i])@,
        ) by {
            lemma_in_set(addresses, i);
        }
    }
    if forall|i: int| 0 <= i < addresses.len() ==> settled((#[trigger] addresses[i])@) {
        lemma_all_settled(addresses);
    }
}

/// A ticket with no more than a thousand addresses, none of which takes more than four
/// thousand bytes, has room for one more.
pub proof fn law_usual_tickets_have_room(addresses: Seq<Address>)
    requires
        addresses.len() <= 1000,
        forall|i: int|
            0 <= i < addresses.len() ==> match #[trigger] addresses[i] {
                Address::Relay(url) => encode_utf8(url@).len() <= 3968,
                Address::Ip(_) => true,
                Address::Custom { data, .. } => data@.len() <= 3968,
            },
    ensures
        takes_one_more(addresses),
{
    lemma_room_is_bounded(addresses);
}

proof fn lemma_room_is_bounded(addresses: Seq<Address>)
    requires
        forall|i: int|
            0 <= i < addresses.len() ==> match #[trigger] addresses[i] {
                Address::Relay(url) => encode_utf8(url@).len() <= 3968,
                Address::Ip(_) => true,
                Address::Custom { data, .. } => data@.len() <= 3968,
            },
    ensures
        ticket_room(addresses) <= 64 + 4000 * addresses.len(),
    decreases addresses.len(),
{
    if addresses.len() > 0 {
        let shorter = addresses.drop_last();
        assert forall|i: int| 0 <= i < shorter.len() implies match #[trigger] shorter[i] {
            Address::Relay(url) => encode_utf8(url@).len() <= 3968,
            Address::Ip(_) => true,
            Address::Custom { data, .. } => data@.len() <= 3968,
        } by {
            assert(shorter[i] == addresses[i]);
        }
        lemma_room_is_bounded(shorter);
        assert(addresses[addresses.len() - 1] == addresses.last());
    }
}

/// A long ticket names the endpoint that was known, at each address that was known and at
/// that of the listener, and at no other.
pub proof fn law_listener_is_added(known: TicketView, ip: Seq<u8>, port: u16, address: AddressView)
    ensures
        listening(known, ip, port).id == known.id,
        listening(known, ip, port).addresses.contains(address) <==> known.addresses.contains(
            address,
        ) || address == AddressView::Ip(ip4_text(ip, port)),
{
}

/// Two endpoints with different ids have different short tickets.
pub proof fn law_short_ticket_names_one_endpoint(a: Seq<u8>, b: Seq<u8>)
    requires
        a.len() == 32,
        b.len() == 32,
        short_ticket_text(a) == short_ticket_text(b),
    ensures
        a == b,
{
    let x = short_ticket_bytes(a);
    let y = short_ticket_bytes(b);
    let n = "endpoint"@.len() as int;
    assert(short_ticket_text(a).skip(n) =~= base32_text(x));
    assert(short_ticket_text(b).skip(n) =~= base32_text(y));
    lemma_base32_determines_bytes(x, y);
    assert(x.subrange(1, 33) =~= a);
    assert(y.subrange(1, 33) =~= b);
}

/// A long ticket says which endpoint it names and where that listens.
pub proof fn law_long_ticket_names_one_listener(
    a: Seq<u8>,
    b: Seq<u8>,
    ip_a: Seq<u8>,
    ip_b: Seq<u8>,
    port_a: u16,
    port_b: u16,
)
    requires
        a.len() == 32,
        b.len() == 32,
        ip_a.len() == 4,
        ip_b.len() == 4,
        long_ticket_bytes(a, ip_a, port_a) == long_ticket_bytes(b, ip_b, port_b),
    ensures
        a == b,
        ip_a == ip_b,
        port_a == port_b,
{
    let x = long_ticket_bytes(a, ip_a, port_a);
    let y = long_ticket_bytes(b, ip_b, port_b);
    assert(x.subrange(1, 33) =~= a);
    assert(y.subrange(1, 33) =~= b);
    assert(x.subrange(36, 40) =~= ip_a);
    assert(y.subrange(36, 40) =~= ip_b);
    assert(x.skip(40) =~= varint(port_a));
    assert(y.skip(40) =~= varint(port_b));
    let p = varint(port_a);
    let q = varint(port_b);
    assert(p.len() == q.len());
    assert(p[0] == q[0]);
    if p.len() >= 2 {
        assert(p[1] == q[1]);
    }
    if p.len() == 3 {
        assert(p[2] == q[2]);
    }
}

/// Five bits are determined by their base32 digit.
proof fn lemma_base32_determines_bits(x: Seq<u8>, y: Seq<u8>, k: int)
    requires
        x.len() == y.len(),
        0 <= k < (8 * x.len() + 4) / 5,
        base32_text(x) == base32_text(y),
    ensures
        forall|j: int| 0 <= j < 5 ==> #[trigger] bit_at(x, 5 * k + j) == bit_at(y, 5 * k + j),
{
    let d = 16 * bit_at(x, 5 * k) + 8 * bit_at(x, 5 * k + 1) + 4 * bit_at(x, 5 * k + 2) + 2
        * bit_at(x, 5 * k + 3) + bit_at(x, 5 * k + 4);
    let e = 16 * bit_at(y, 5 * k) + 8 * bit_at(y, 5 * k + 1) + 4 * bit_at(y, 5 * k + 2) + 2
        * bit_at(y, 5 * k + 3) + bit_at(y, 5 * k + 4);
    assert(base32_text(x)[k] == base32_digit(d));
    assert(base32_text(y)[k] == base32_digit(e));
    lemma_bit_is_bit(x, 5 * k);
    lemma_bit_is_bit(x, 5 * k + 1);
    lemma_bit_is_bit(x, 5 * k + 2);
    lemma_bit_is_bit(x, 5 * k + 3);
    lemma_bit_is_bit(x, 5 * k + 4);
    lemma_bit_is_bit(y, 5 * k);
    lemma_bit_is_bit(y, 5 * k + 1);
    lemma_bit_is_bit(y, 5 * k + 2);
    lemma_bit_is_bit(y, 5 * k + 3);
    lemma_bit_is_bit(y, 5 * k + 4);
    assert(d == e);
    assert forall|j: int| 0 <= j < 5 implies #[trigger] bit_at(x, 5 * k + j) == bit_at(
        y,
        5 * k + j,
    ) by {
        assert(j == 0 || j == 1 || j == 2 || j == 3 || j == 4);
    }
}

proof fn lemma_bit_is_bit(bytes: Seq<u8>, i: int)
    ensures
        bit_at(bytes, i) == 0 || bit_at(bytes, i) == 1,
{
}

/// Bytes are determined by their base32 text.
proof fn lemma_base32_determines_bytes(x: Seq<u8>, y: Seq<u8>)
    requires
        x.len() == y.len(),
        base32_text(x) == base32_text(y),
    ensures
        x == y,
{
    assert forall|i: int| 0 <= i < 8 * x.len() implies #[trigger] bit_at(x, i) == bit_at(y, i) by {
        lemma_base32_determines_bits(x, y, i / 5);
        assert(i == 5 * (i / 5) + i % 5);
    }
    assert forall|b: int| 0 <= b < x.len() implies x[b] == y[b] by {
        lemma_byte_of_bits(x, b);
        lemma_byte_of_bits(y, b);
        assert(bit_at(x, 8 * b) == bit_at(y, 8 * b));
        assert(bit_at(x, 8 * b + 1) == bit_at(y, 8 * b + 1));
        assert(bit_at(x, 8 * b + 2) == bit_at(y, 8 * b + 2));
        assert(bit_at(x, 8 * b + 3) == bit_at(y, 8 * b + 3));
        assert(bit_at(x, 8 * b + 4) == bit_at(y, 8 * b + 4));
        assert(bit_at(x, 8 * b + 5) == bit_at(y, 8 * b + 5));
        assert(bit_at(x, 8 * b + 6) == bit_at(y, 8 * b + 6));
        assert(bit_at(x, 8 * b + 7) == bit_at(y, 8 * b + 7));
    }
    assert(x =~= y);
}

/// Where the bits of a byte stand.
proof fn lemma_bit_of_byte(bytes: Seq<u8>, b: int, j: int)
    requires
        0 <= b < bytes.len(),
        0 <= j < 8,
    ensures
        bit_at(bytes, 8 * b + j) == bytes[b] as int / pow2((7 - j) as nat) as int % 2,
{
    assert((8 * b + j) / 8 == b && (8 * b + j) % 8 == j);
}

/// A byte is the sum of its bits.
proof fn lemma_byte_of_bits(bytes: Seq<u8>, b: int)
    requires
        0 <= b < bytes.len(),
    ensures
        bytes[b] == 128 * bit_at(bytes, 8 * b) + 64 * bit_at(bytes, 8 * b + 1) + 32 * bit_at(
            bytes,
            8 * b + 2,
        ) + 16 * bit_at(bytes, 8 * b + 3) + 8 * bit_at(bytes, 8 * b + 4) + 4 * bit_at(
            bytes,
            8 * b + 5,
        ) + 2 * bit_at(bytes, 8 * b + 6) + bit_at(bytes, 8 * b + 7),
{
    let v = bytes[b];
    lemma2_to64();
    lemma_bit_of_byte(bytes, b, 0);
    lemma_bit_of_byte(bytes, b, 1);
    lemma_bit_of_byte(bytes, b, 2);
    lemma_bit_of_byte(bytes, b, 3);
    lemma_bit_of_byte(bytes, b, 4);
    lemma_bit_of_byte(bytes, b, 5);
    lemma_bit_of_byte(bytes, b, 6);
    lemma_bit_of_byte(bytes, b, 7);
    assert(v == 128 * (v / 128 % 2) + 64 * (v / 64 % 2) + 32 * (v / 32 % 2) + 16 * (v / 16 % 2) + 8
        * (v / 8 % 2) + 4 * (v / 4 % 2) + 2 * (v / 2 % 2) + v / 1 % 2) by (bit_vector);
}

} // verus!
