//! The datagrams that clients send to the server: their byte layout, and
//! the queue of received packets that are recent enough to be used.
//!
//! Layout: bytes 0..8 hold the tick counter value at sending time, little
//! endian; byte 8 tells the kind (0 heartbeat, 1 input). An input packet
//! continues with the input code at byte 9, then the yaw at bytes 10..14 and
//! the pitch at bytes 14..18, each the little-endian bits of an `f32`.
use vstd::prelude::*;
use crossbeam_queue::SegQueue;

verus! {

#[verifier::external_type_specification]
#[verifier::external_body]
#[verifier::reject_recursive_types(T)]
pub struct ExSegQueue<T>(crossbeam_queue::SegQueue<T>);

/// The packets that a queue holds, from the front to the back.
pub uninterp spec fn queued_packets(queue: SegQueue<Packet>) -> Seq<Packet>;

/// Trusted: calls `SegQueue::push`, which crossbeam documents as pushing the
/// element back to the tail. With `&mut` access no other thread can touch the
/// queue meanwhile, so afterwards it holds what it held, then `packet`.
#[verifier::external_body]
fn push_packet(queue: &mut SegQueue<Packet>, packet: Packet)
    ensures
        queued_packets(*final(queue)) == queued_packets(*old(queue)).push(packet),
{
    queue.push(packet);
}

/// Represents all possible player inputs from a client, numbered from 0 in
/// declaration order on the wire.
#[derive(Clone, Copy, Debug, PartialEq, Eq, Structural)]
pub enum Input {
    Forward,
    Backward,
    Left,
    Right,
    Shoot,
    /// No input this tick.
    NoInput,
}

/// `current_rotation` holds yaw and pitch, in that order, in radians, each as
/// the bits of an `f32`.
#[derive(Clone, Copy, Debug, PartialEq, Eq)]
pub enum PacketVariant {
    HeartBeat,
    Input { input: Input, current_rotation: (u32, u32) },
}

/// `tick_num` is the tick counter value at the time the packet was sent.
#[derive(Clone, Copy, Debug, PartialEq, Eq)]
pub struct Packet {
    pub tick_num: u64,
    pub variant: PacketVariant,
}

impl Packet {
    pub fn new_input_packet(tick_num: u64, current_rotation: (u32, u32), input: Input) -> (p: Self)
        ensures
            p == (Packet {
                tick_num,
                variant: PacketVariant::Input { input, current_rotation },
            }),
    {
        Packet { tick_num, variant: PacketVariant::Input { input, current_rotation } }
    }
}

/// The number whose little-endian bytes are `bytes`.
pub open spec fn le_value(bytes: Seq<u8>) -> nat
    decreases bytes.len(),
{
    if bytes.len() == 0 {
        0
    } else {
        bytes[0] as nat + 256 * le_value(bytes.drop_first())
    }
}

/// 256 to the power `k`.
pub open spec fn pow256(k: nat) -> nat
    decreases k,
{
    if k == 0 {
        1
    } else {
        256 * pow256((k - 1) as nat)
    }
}

/// A number written in `n` bytes is below 256 to the power `n`.
pub proof fn lemma_le_value_bound(bytes: Seq<u8>)
    ensures
        le_value(bytes) < pow256(bytes.len()),
    decreases bytes.len(),
{
    if bytes.len() > 0 {
        lemma_le_value_bound(bytes.drop_first());
    }
}

/// The input with wire code `code`.
pub open spec fn input_of_code(code: u8) -> Input {
    if code == 0 {
        Input::Forward
    } else if code == 1 {
        Input::Backward
    } else if code == 2 {
        Input::Left
    } else if code == 3 {
        Input::Right
    } else if code == 4 {
        Input::Shoot
    } else {
        Input::NoInput
    }
}

/// The datagram `buf` carries a packet that `buf_to_packet` decodes: its kind
/// byte is 0 or 1, and an input packet is 18 bytes long with a known input
/// code. `msg_len` is the length that the socket reported.
pub open spec fn decodable(buf: Seq<u8>, msg_len: usize) -> bool {
    &&& buf.len() >= 9
    &&& buf[8] <= 1
    &&& buf[8] == 0 ==> msg_len >= 8
    &&& buf[8] == 1 ==> msg_len >= 18 && buf.len() >= 18 && buf[9] <= 5
}

/// Whether `buf_to_packet` can decode the datagram `buf`, of which the
/// socket reported `msg_len` bytes.
pub fn is_decodable(buf: &[u8], msg_len: usize) -> (r: bool)
    ensures
        r == decodable(buf@, msg_len),
{
    if buf.len() < 9 {
        false
    } else if buf[8] == 0 {
        msg_len >= 8
    } else if buf[8] == 1 {
        msg_len >= 18 && buf.len() >= 18 && buf[9] <= 5
    } else {
        false
    }
}

/// The packet that the bytes of `buf` describe.
pub open spec fn packet_of_bytes(buf: Seq<u8>) -> Packet {
    Packet {
        tick_num: le_value(buf.subrange(0, 8)) as u64,
        variant: if buf[8] == 0 {
            PacketVariant::HeartBeat
        } else {
            PacketVariant::Input {
                input: input_of_code(buf[9]),
                current_rotation: (
                    le_value(buf.subrange(10, 14)) as u32,
                    le_value(buf.subrange(14, 18)) as u32,
                ),
            }
        },
    }
}

/// The number stored little endian in `buf[start..start + n]`.
fn read_le(buf: &[u8], start: usize, n: usize) -> (v: u64)
    requires
        n <= 8,
        start + n <= buf@.len(),
    ensures
        v == le_value(buf@.subrange(start as int, start + n)),
{
    proof {
        lemma_pow256_values();
    }
    let mut v: u64 = 0;
    let mut i: usize = n;
    while i > 0
        invariant
            n <= 8,
            start + n <= buf@.len(),
            buf@.len() == buf.len(),
            i <= n,
            v == le_value(buf@.subrange(start + i, start + n)),
            v < pow256((n - i) as nat),
            pow256(8) == 0x1_0000_0000_0000_0000,
        decreases i,
    {
        let ghost tail = buf@.subrange(start + i, start + n);
        let ghost whole = buf@.subrange(start + i - 1, start + n);
        assert(whole.drop_first() =~= tail);
        assert(whole[0] == buf@[start + i - 1]);
        proof {
            lemma_pow256_monotone((n - i + 1) as nat, 8);
        }
        let byte = buf[start + (i - 1)];
        v = v * 256 + byte as u64;
        i = i - 1;
    }
    v
}

/// Four bytes span the range of `u32`, eight bytes that of `u64`.
pub proof fn lemma_pow256_values()
    ensures
        pow256(4) == 0x1_0000_0000,
        pow256(8) == 0x1_0000_0000_0000_0000,
{
    reveal_with_fuel(pow256, 9);
}

/// Powers of 256 grow with the exponent.
pub proof fn lemma_pow256_monotone(a: nat, b: nat)
    requires
        a <= b,
    ensures
        pow256(a) <= pow256(b),
    decreases b,
{
    if a < b {
        lemma_pow256_monotone(a, (b - 1) as nat);
    }
}

/// A datagram of at least 9 bytes whose kind byte is 0 is a heartbeat, and
/// can be decoded once the socket reported at least 8 bytes.
pub proof fn lemma_heartbeat_decodable(buf: Seq<u8>, msg_len: usize)
    requires
        buf.len() >= 9,
        buf[8] == 0,
        msg_len >= 8,
    ensures
        decodable(buf, msg_len),
        packet_of_bytes(buf).variant == PacketVariant::HeartBeat,
{
}

/// A datagram of at least 18 bytes whose kind byte is 1 and whose input
/// code is at most 5 is an input packet, and can be decoded once the socket
/// reported at least 18 bytes.
pub proof fn lemma_input_decodable(buf: Seq<u8>, msg_len: usize)
    requires
        buf.len() >= 18,
        buf[8] == 1,
        buf[9] <= 5,
        msg_len >= 18,
    ensures
        decodable(buf, msg_len),
        packet_of_bytes(buf).variant is Input,
{
}

/// Only those datagrams can be decoded: one that is shorter than 9 bytes,
/// has another kind byte, is reported shorter than its kind needs, or has
/// an unknown input code cannot.
pub proof fn lemma_decodable_needs(buf: Seq<u8>, msg_len: usize)
    requires
        decodable(buf, msg_len),
    ensures
        buf.len() >= 9,
        buf[8] == 0 || buf[8] == 1,
        buf[8] == 0 ==> msg_len >= 8,
        buf[8] == 1 ==> buf.len() >= 18 && msg_len >= 18 && buf[9] <= 5,
{
}

/// The wire codes of the inputs, in declaration order from 0.
pub proof fn lemma_input_codes()
    ensures
        input_of_code(0) == Input::Forward,
        input_of_code(1) == Input::Backward,
        input_of_code(2) == Input::Left,
        input_of_code(3) == Input::Right,
        input_of_code(4) == Input::Shoot,
        input_of_code(5) == Input::NoInput,
{
}

/// The number that `n` little-endian bytes from `start` stand for, written
/// out byte by byte.
proof fn lemma_le_bytes(buf: Seq<u8>, start: int, n: int)
    requires
        0 <= start,
        0 <= n,
        start + n <= buf.len(),
    ensures
        le_value(buf.subrange(start, start + n)) == if n == 0 {
            0
        } else {
            buf[start] + 256 * le_value(buf.subrange(start + 1, start + n))
        },
{
    if n > 0 {
        assert(buf.subrange(start, start + n).drop_first() =~= buf.subrange(start + 1, start + n));
    }
}

/// The tick of a packet is its first 8 bytes read little endian, and the
/// yaw and pitch of an input packet are bytes 10..14 and 14..18 read the
/// same way.
pub proof fn lemma_packet_numbers(buf: Seq<u8>)
    requires
        buf.len() >= 18 || (buf.len() >= 9 && buf[8] == 0),
    ensures
        packet_of_bytes(buf).tick_num == buf[0] + 0x100 * buf[1] + 0x1_0000 * buf[2] + 0x100_0000
            * buf[3] + 0x1_0000_0000 * buf[4] + 0x100_0000_0000 * buf[5] + 0x1_0000_0000_0000
            * buf[6] + 0x100_0000_0000_0000 * buf[7],
        buf[8] != 0 ==> packet_of_bytes(buf).variant == (PacketVariant::Input {
            input: input_of_code(buf[9]),
            current_rotation: (
                (buf[10] + 0x100 * buf[11] + 0x1_0000 * buf[12] + 0x100_0000 * buf[13]) as u32,
                (buf[14] + 0x100 * buf[15] + 0x1_0000 * buf[16] + 0x100_0000 * buf[17]) as u32,
            ),
        }),
{
    lemma_le_bytes(buf, 0, 8);
    lemma_le_bytes(buf, 1, 7);
    lemma_le_bytes(buf, 2, 6);
    lemma_le_bytes(buf, 3, 5);
    lemma_le_bytes(buf, 4, 4);
    lemma_le_bytes(buf, 5, 3);
    lemma_le_bytes(buf, 6, 2);
    lemma_le_bytes(buf, 7, 1);
    lemma_le_bytes(buf, 8, 0);
    if buf[8] != 0 {
        lemma_le_bytes(buf, 10, 4);
        lemma_le_bytes(buf, 11, 3);
        lemma_le_bytes(buf, 12, 2);
        lemma_le_bytes(buf, 13, 1);
        lemma_le_bytes(buf, 14, 4);
        lemma_le_bytes(buf, 15, 3);
        lemma_le_bytes(buf, 16, 2);
        lemma_le_bytes(buf, 17, 1);
        lemma_le_bytes(buf, 18, 0);
    }
}

/// The input with wire code `code`.
fn input_from_code(code: u8) -> (input: Input)
    ensures
        input == input_of_code(code),
{
    if code == 0 {
        Input::Forward
    } else if code == 1 {
        Input::Backward
    } else if code == 2 {
        Input::Left
    } else if code == 3 {
        Input::Right
    } else if code == 4 {
        Input::Shoot
    } else {
        Input::NoInput
    }
}

/// Decodes the datagram `buf`, of which the socket reported `msg_len` bytes.
pub fn buf_to_packet(buf: &[u8], msg_len: usize) -> (p: Packet)
    requires
        decodable(buf@, msg_len),
    ensures
        p == packet_of_bytes(buf@),
{
    let tick_num = read_le(buf, 0, 8);
    let variant = if buf[8] == 0 {
        PacketVariant::HeartBeat
    } else {
        let yaw = read_le(buf, 10, 4);
        let pitch = read_le(buf, 14, 4);
        proof {
            lemma_le_value_bound(buf@.subrange(10, 14));
            lemma_le_value_bound(buf@.subrange(14, 18));
            lemma_pow256_values();
        }
        PacketVariant::Input {
            input: input_from_code(buf[9]),
            current_rotation: (yaw as u32, pitch as u32),
        }
    };
    Packet { tick_num, variant }
}

/// Whether a packet sent at tick `sent` is still usable at tick `current`: it
/// is less than `too_late` ticks old.
pub open spec fn is_timely(current: u64, sent: u64, too_late: u64) -> bool {
    current - sent < too_late
}

/// A packet is timely exactly when fewer than `too_late` ticks have passed
/// since it was sent.
pub proof fn lemma_is_timely(current: u64, sent: u64, too_late: u64)
    ensures
        is_timely(current, sent, too_late) <==> current - sent < too_late,
        sent <= current && current < sent + too_late ==> is_timely(current, sent, too_late),
        current >= sent + too_late ==> !is_timely(current, sent, too_late),
{
}

/// Decodes a received datagram and queues the packet when it is less than
/// `too_late` ticks old at tick `current_tick`; tells whether it was queued.
pub fn receive_packet(
    received: &mut SegQueue<Packet>,
    buf: &[u8],
    msg_len: usize,
    current_tick: u64,
    too_late: u64,
) -> (queued: bool)
    requires
        decodable(buf@, msg_len),
        packet_of_bytes(buf@).tick_num <= current_tick,
    ensures
        queued == is_timely(current_tick, packet_of_bytes(buf@).tick_num, too_late),
        queued ==> queued_packets(*final(received)) == queued_packets(*old(received)).push(
            packet_of_bytes(buf@),
        ),
        !queued ==> queued_packets(*final(received)) == queued_packets(*old(received)),
{
    let packet = buf_to_packet(buf, msg_len);
    if current_tick - packet.tick_num < too_late {
        push_packet(received, packet);
        true
    } else {
        false
    }
}

} // verus!
