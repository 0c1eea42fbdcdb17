use crossbeam_queue::SegQueue;
use game::packet::{buf_to_packet, receive_packet, Input, Packet, PacketVariant};

fn input_datagram(tick: u64, input: u8, yaw: f32, pitch: f32) -> Vec<u8> {
    let mut buf = tick.to_le_bytes().to_vec();
    buf.push(1);
    buf.push(input);
    buf.extend_from_slice(&yaw.to_le_bytes());
    buf.extend_from_slice(&pitch.to_le_bytes());
    buf
}

#[test]
fn heartbeat_is_decoded() {
    let mut buf = 0x0102_0304_0506_0708u64.to_le_bytes().to_vec();
    buf.push(0);
    let p = buf_to_packet(&buf, 9);
    assert_eq!(p.tick_num, 0x0102_0304_0506_0708);
    assert_eq!(p.variant, PacketVariant::HeartBeat);
}

#[test]
fn input_packet_is_decoded() {
    let buf = input_datagram(123_456_789, 4, 1.5, -0.25);
    let p = buf_to_packet(&buf, 18);
    assert_eq!(p.tick_num, 123_456_789);
    match p.variant {
        PacketVariant::Input { input, current_rotation } => {
            assert_eq!(input, Input::Shoot);
            assert_eq!(f32::from_bits(current_rotation.0), 1.5);
            assert_eq!(f32::from_bits(current_rotation.1), -0.25);
        }
        PacketVariant::HeartBeat => panic!("expected an input packet"),
    }
}

#[test]
fn input_codes_follow_declaration_order() {
    let expected = [Input::Forward, Input::Backward, Input::Left, Input::Right, Input::Shoot, Input::NoInput];
    for (code, want) in expected.iter().enumerate() {
        let p = buf_to_packet(&input_datagram(1, code as u8, 0.0, 0.0), 18);
        assert_eq!(p.variant, PacketVariant::Input { input: *want, current_rotation: (0, 0) });
    }
}

#[test]
fn tick_uses_all_eight_bytes() {
    let mut buf = u64::MAX.to_le_bytes().to_vec();
    buf.push(0);
    assert_eq!(buf_to_packet(&buf, 9).tick_num, u64::MAX);
}

#[test]
fn new_input_packet_builds_an_input_packet() {
    let p = Packet::new_input_packet(9, (1, 2), Input::Left);
    assert_eq!(p, Packet { tick_num: 9, variant: PacketVariant::Input { input: Input::Left, current_rotation: (1, 2) } });
}

#[test]
fn recent_packets_are_queued() {
    let mut q: SegQueue<Packet> = SegQueue::new();
    let buf = input_datagram(95, 0, 0.5, 0.5);
    assert!(receive_packet(&mut q, &buf, 18, 100, 10));
    assert_eq!(q.len(), 1);
    assert_eq!(q.pop().unwrap(), buf_to_packet(&buf, 18));
}

#[test]
fn late_packets_are_dropped() {
    let mut q: SegQueue<Packet> = SegQueue::new();
    let buf = input_datagram(90, 0, 0.5, 0.5);
    assert!(!receive_packet(&mut q, &buf, 18, 100, 10));
    assert!(q.is_empty());
}

#[test]
fn queued_packets_keep_their_order() {
    let mut q: SegQueue<Packet> = SegQueue::new();
    let mut hb = 7u64.to_le_bytes().to_vec();
    hb.push(0);
    assert!(receive_packet(&mut q, &hb, 9, 8, 5));
    let inp = input_datagram(8, 2, 0.0, 1.0);
    assert!(receive_packet(&mut q, &inp, 18, 8, 5));
    assert_eq!(q.pop().unwrap().variant, PacketVariant::HeartBeat);
    assert_eq!(q.pop().unwrap().tick_num, 8);
    assert!(q.pop().is_none());
}
