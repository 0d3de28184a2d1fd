use vstd::prelude::*;

verus! {

/// How the network layer delivers a packet.
#[derive(Clone, Copy, Debug, PartialEq, Eq, Structural)]
pub enum PacketDelivery {
    ReliableUnordered,
    ReliableOrdered,
    Unreliable,
}

/// A packet queued for sending: a serialized message and how to deliver it.
pub struct NetPacket {
    pub delivery: PacketDelivery,
    pub payload: Vec<u8>,
}

impl View for NetPacket {
    type V = (PacketDelivery, Seq<u8>);

    open spec fn view(&self) -> (PacketDelivery, Seq<u8>) {
        (self.delivery, self.payload@)
    }
}

/// A connection to a peer, with the packets queued for it.
pub struct NetConnection {
    pub outgoing: Vec<NetPacket>,
}

impl View for NetConnection {
    type V = Seq<(PacketDelivery, Seq<u8>)>;

    open spec fn view(&self) -> Seq<(PacketDelivery, Seq<u8>)> {
        self.outgoing@.map_values(|p: NetPacket| p@)
    }
}

impl NetConnection {
    pub fn new() -> (res: Self)
        ensures
            res@ == Seq::<(PacketDelivery, Seq<u8>)>::empty(),
    {
        let res = NetConnection { outgoing: Vec::new() };
        assert(res@ =~= Seq::<(PacketDelivery, Seq<u8>)>::empty());
        res
    }

    /// Queues `packet` after the packets already queued.
    pub fn queue(&mut self, packet: NetPacket)
        ensures
            final(self)@ == old(self)@.push(packet@),
    {
        self.outgoing.push(packet);
        assert(self@ =~= old(self)@.push(packet@));
    }
}

fn packet(delivery: PacketDelivery, message: &[u8]) -> (res: NetPacket)
    ensures
        res@ == (delivery, message@),
{
    NetPacket { delivery, payload: vstd::slice::slice_to_vec(message) }
}

/// Queues the serialized `message` on every connection, for reliable
/// unordered delivery.
pub fn broadcast_reliable(net_connections: &mut Vec<NetConnection>, message: &[u8])
    ensures
        final(net_connections)@.len() == old(net_connections)@.len(),
        forall|i: int| 0 <= i < old(net_connections)@.len() ==> (#[trigger] final(net_connections)@[i])@
            == old(net_connections)@[i]@.push((PacketDelivery::ReliableUnordered, message@)),
{
    let n = net_connections.len();
    let mut i: usize = 0;
    while i < n
        invariant
            n == old(net_connections)@.len(),
            i <= n,
            net_connections@.len() == n,
            forall|j: int| 0 <= j < i ==> (#[trigger] net_connections@[j])@
                == old(net_connections)@[j]@.push((PacketDelivery::ReliableUnordered, message@)),
            forall|j: int| i <= j < n ==> (#[trigger] net_connections@[j]) == old(net_connections)@[j],
        decreases n - i,
    {
        net_connections[i].queue(packet(PacketDelivery::ReliableUnordered, message));
        i = i + 1;
    }
}

/// Queues the serialized `message` on `net_connection`, for reliable
/// unordered delivery.
pub fn send_reliable(net_connection: &mut NetConnection, message: &[u8])
    ensures
        final(net_connection)@ == old(net_connection)@.push((PacketDelivery::ReliableUnordered, message@)),
{
    net_connection.queue(packet(PacketDelivery::ReliableUnordered, message));
}

/// Queues the serialized `message` on `net_connection`, for reliable ordered
/// delivery.
pub fn send_reliable_ordered(net_connection: &mut NetConnection, message: &[u8])
    ensures
        final(net_connection)@ == old(net_connection)@.push((PacketDelivery::ReliableOrdered, message@)),
{
    net_connection.queue(packet(PacketDelivery::ReliableOrdered, message));
}

/// Queues the serialized `message` on `net_connection`, for unreliable
/// delivery.
pub fn send_unreliable(net_connection: &mut NetConnection, message: &[u8])
    ensures
        final(net_connection)@ == old(net_connection)@.push((PacketDelivery::Unreliable, message@)),
{
    net_connection.queue(packet(PacketDelivery::Unreliable, message));
}

} // verus!
