use aeonetica::codec::{decode, encode};
use aeonetica::framing::{frame, FrameReader};
use aeonetica::packets::{ServerMessage, ServerPacket};

#[test]
fn frame_is_length_then_payload() {
    assert_eq!(frame(&[7, 8, 9]), vec![3, 0, 0, 0, 7, 8, 9]);
    assert_eq!(frame(&[]), vec![0, 0, 0, 0]);
}

fn packets() -> Vec<ServerPacket> {
    vec![
        ServerPacket { conv_id: 1, message: ServerMessage::KeepAlive },
        ServerPacket { conv_id: 2, message: ServerMessage::Kick("too slow".to_string()) },
        ServerPacket { conv_id: 3, message: ServerMessage::ModMessage(4, 5, vec![6; 40]) },
    ]
}

fn stream() -> Vec<u8> {
    let mut s = vec![];
    for p in packets() {
        s.extend_from_slice(&frame(&encode(&p)));
    }
    s
}

#[test]
fn frames_fed_byte_by_byte_come_out_in_order() {
    let s = stream();
    let mut reader = FrameReader::new();
    let mut out = vec![];
    for b in &s {
        out.extend(reader.feed(&[*b]));
    }
    let decoded: Vec<ServerPacket> = out.iter().map(|f| decode::<ServerPacket>(f).unwrap()).collect();
    assert_eq!(decoded, packets());
}

#[test]
fn frames_fed_in_uneven_chunks_come_out_in_order() {
    let s = stream();
    for size in [2usize, 3, 5, 17, 1000] {
        let mut reader = FrameReader::new();
        let mut out = vec![];
        for chunk in s.chunks(size) {
            out.extend(reader.feed(chunk));
        }
        assert_eq!(out.len(), 3);
        let decoded: Vec<ServerPacket> = out.iter().map(|f| decode::<ServerPacket>(f).unwrap()).collect();
        assert_eq!(decoded, packets());
    }
}

#[test]
fn incomplete_frame_waits_for_more() {
    let mut reader = FrameReader::new();
    assert!(reader.feed(&[2, 0, 0]).is_empty());
    assert!(reader.feed(&[0, 1]).is_empty());
    assert_eq!(reader.feed(&[2, 9]), vec![vec![1, 2]]);
}
