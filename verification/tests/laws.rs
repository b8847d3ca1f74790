use crossy_multi_core::game::{CoordPos, Input, PlayerId};
use crossy_multi_core::icy::PosWithDir;
use crossy_multi_core::player_id_map::PlayerIdMap;
use crossy_multi_core::ring_buffer::RingBuffer;

#[test]
fn iteration_lists_valid_ids_in_order() {
    let mut map: PlayerIdMap<u32> = PlayerIdMap::new();
    map.set(PlayerId(5), 50);
    map.set(PlayerId(1), 10);
    map.set(PlayerId(3), 30);
    map.remove(PlayerId(3));
    let ids = map.valid_ids();
    assert_eq!(ids, vec![PlayerId(1), PlayerId(5)]);
    let mut walked = Vec::new();
    let mut it = map.iter();
    while let Some((id, x)) = it.next() {
        walked.push((id, *x));
    }
    assert_eq!(walked, vec![(PlayerId(1), 10), (PlayerId(5), 50)]);
    assert_eq!(walked.iter().map(|p| p.1).collect::<Vec<_>>(), map.get_populated());
}

#[test]
fn position_cycles_after_size_advances() {
    let mut buffer: RingBuffer<u8> = RingBuffer::new(5);
    buffer.incr_current_pos();
    buffer.incr_current_pos();
    let start = buffer.pos_wrapping(0);
    assert_eq!(start, 2);
    for k in 1..=5 {
        buffer.incr_current_pos();
        assert_eq!(buffer.pos_wrapping(0), (start + k) % 5);
    }
    assert_eq!(buffer.pos_wrapping(0), start);
}

#[test]
fn keys_of_far_rows() {
    let p = PosWithDir { pos: CoordPos { x: 12, y: 2 }, dir: Input::Left };
    assert_eq!(p.to_i32(), 210);
    let far = PosWithDir { pos: CoordPos { x: 19, y: 26_000_000 }, dir: Input::Right };
    assert_eq!(far.to_i32(), 2_080_000_079);
    assert_eq!(PosWithDir::from_i32(far.to_i32()), far);
}
