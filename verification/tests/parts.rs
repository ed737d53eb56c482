use chainbuf::chb::{blit, ChbChain, ChbDataHolder, ChbNode};
use chainbuf::node::Node;
use chainbuf::storage::{
    DataHolder, ImmutableDataHolder, MemoryBuffer, MemoryWrapper, MutableDataHolder,
};
use chainbuf::CHB_MIN_SIZE;

#[test]
fn min_size_is_thirty_two() {
    assert_eq!(CHB_MIN_SIZE, 32);
}

#[test]
fn memory_buffer_starts_out_as_zeros() {
    let dh = MemoryBuffer::new(6);
    assert_eq!(dh.size(), 6);
    assert_eq!(dh.get_data(0, 6), &[0u8; 6][..]);
    assert_eq!(dh.get_data(6, 0), b"");
    assert!(!dh.is_readonly());
    assert_eq!(MemoryBuffer::new(0).size(), 0);
}

#[test]
fn memory_buffer_is_filled_where_asked() {
    let mut dh = MemoryBuffer::new(8);
    dh.holder_mut().unwrap().fill_from(2, b"abc");
    assert_eq!(dh.get_data(0, 8), b"\0\0abc\0\0\0");
    dh.holder_mut().unwrap().fill_from(7, b"z");
    dh.holder_mut().unwrap().fill_from(0, b"");
    assert_eq!(dh.get_data(0, 8), b"\0\0abc\0\0z");
    assert_eq!(dh.get_data(3, 2), b"bc");
    assert_eq!(dh.size(), 8);
}

#[test]
fn memory_buffer_window_writes_through() {
    let mut dh = MemoryBuffer::new(8);
    {
        let window = dh.holder_mut().unwrap().get_data_mut(5, 2);
        assert_eq!(window.len(), 2);
        window[0] = 1;
        window[1] = 2;
    }
    assert_eq!(dh.get_data(0, 8), &[0, 0, 0, 0, 0, 1, 2, 0][..]);
}

#[test]
fn a_shared_buffer_is_read_only_and_written_to_as_a_copy() {
    let mut dh = MemoryBuffer::new(4);
    dh.holder_mut().unwrap().fill_from(0, b"abcd");
    let other = dh.clone();
    assert!(dh.is_readonly());
    assert!(other.is_readonly());
    dh.holder_mut().unwrap().fill_from(0, b"xy");
    assert_eq!(dh.get_data(0, 4), b"xycd");
    assert_eq!(other.get_data(0, 4), b"abcd");
    assert!(!dh.is_readonly());
    assert!(!other.is_readonly());
}

#[test]
fn a_buffer_is_writable_again_when_its_clone_is_gone() {
    let dh = MemoryBuffer::new(4);
    {
        let other = dh.clone();
        assert!(other.is_readonly());
    }
    assert!(!dh.is_readonly());
}

#[test]
fn memory_wrapper_reads_the_slice_in_place() {
    let source = b"borrowed";
    let mut dh = MemoryWrapper::new(source);
    assert_eq!(dh.size(), 8);
    assert_eq!(dh.get_data(3, 4), b"rowe");
    assert!(dh.is_readonly());
    assert!(dh.holder_mut().is_none());
    let other = dh.clone();
    assert_eq!(other.get_data(0, 8), source);
    assert!(matches!(other, DataHolder::Immutable(_)));
}

#[test]
fn node_window_grows_and_shrinks() {
    let mut node = Node::with_size(10);
    assert_eq!((node.size(), node.room(), node.headroom()), (0, 10, 0));
    node.fill_tail(b"hello");
    assert_eq!((node.size(), node.room(), node.headroom()), (5, 5, 0));
    assert_eq!(node.get_data_from_start(5), b"hello");
    assert_eq!(node.get_data_from(1, 3), b"ell");
    node.advance(2);
    assert_eq!((node.size(), node.room(), node.headroom()), (3, 5, 2));
    assert_eq!(node.get_data_from_start(3), b"llo");
    node.fill_head(b"HE");
    assert_eq!(node.get_data_from_start(5), b"HEllo");
    node.truncate(4);
    assert_eq!((node.size(), node.room()), (4, 6));
    assert_eq!(node.get_data_from_start(4), b"HEll");
    node.commit(1);
    assert_eq!(node.get_data_from_start(5), b"HEllo");
    assert!(!node.holds_readonly());
}

#[test]
fn node_at_the_end_of_its_buffer_has_room_in_front() {
    let mut node = Node::with_size_at_end(6);
    assert_eq!((node.size(), node.room(), node.headroom()), (0, 0, 6));
    node.fill_head(b"abc");
    assert_eq!((node.size(), node.room(), node.headroom()), (3, 0, 3));
    assert_eq!(node.get_data_from_start(3), b"abc");
}

#[test]
fn node_tail_window_leaves_the_node_as_it_is() {
    let mut node = Node::with_size(6);
    node.fill_tail(b"ab");
    {
        let window = node.tail_mut(3);
        assert_eq!(window, &[0u8; 3][..]);
        window.copy_from_slice(b"cde");
    }
    assert_eq!(node.size(), 2);
    node.commit(3);
    assert_eq!(node.get_data_from_start(5), b"abcde");
}

#[test]
fn node_clone_shares_the_buffer() {
    let mut node = Node::with_size(8);
    node.fill_tail(b"abcd");
    let mut other = node.clone();
    assert!(node.holds_readonly());
    assert_eq!(other.get_data_from_start(4), b"abcd");
    other.fill_tail(b"ef");
    assert_eq!(other.get_data_from_start(6), b"abcdef");
    assert_eq!(node.get_data_from_start(4), b"abcd");
    assert_eq!(node.size(), 4);
}

#[test]
fn node_over_a_borrowed_slice_is_read_only() {
    let mut node = Node::with_data_holder(MemoryWrapper::new(b"slice"));
    assert_eq!((node.size(), node.room()), (0, 5));
    assert!(node.holds_readonly());
    node.commit(5);
    assert_eq!(node.get_data_from_start(5), b"slice");
}

#[test]
fn blit_copies_a_range_over_a_range() {
    let src = [1u8, 2, 3, 4, 5];
    let mut dst = [0u8; 8];
    blit(&src, 1, &mut dst, 4, 3);
    assert_eq!(dst, [0, 0, 0, 0, 2, 3, 4, 0]);
    blit(&src, 0, &mut dst, 0, 0);
    assert_eq!(dst, [0, 0, 0, 0, 2, 3, 4, 0]);
    blit(&src, 0, &mut dst, 3, 5);
    assert_eq!(dst, [0, 0, 0, 1, 2, 3, 4, 5]);
}

#[test]
fn chb_node_starts_out_empty() {
    let node = ChbNode::new(ChbDataHolder::new(16));
    assert_eq!(node.size(), 0);
    assert_eq!(node.room(), 16);
    let none = ChbNode::new(ChbDataHolder::new(0));
    assert_eq!((none.size(), none.room()), (0, 0));
}

#[test]
fn chb_chain_appends_and_prepends() {
    let mut chain = ChbChain::new();
    assert_eq!(chain.size(), 0);
    chain.append_bytes(b"abcdefghijklmnop");
    chain.prepend_bytes(b"xxx");
    assert_eq!(chain.size(), 19);
    assert_eq!(chain.pullup(19).unwrap(), b"xxxabcdefghijklmnop");
    assert_eq!(chain.size(), 19);
}

#[test]
fn chb_chain_pullup_of_nothing_or_of_too_much_returns_none() {
    let mut chain = ChbChain::new();
    assert!(chain.pullup(0).is_none());
    assert!(chain.pullup(1).is_none());
    chain.append_bytes(b"abc");
    assert!(chain.pullup(0).is_none());
    assert!(chain.pullup(4).is_none());
    assert_eq!(chain.pullup(2).unwrap(), b"ab");
    assert_eq!(chain.pullup(3).unwrap(), b"abc");
}

#[test]
fn chb_chain_coalesces_many_nodes() {
    let mut chain = ChbChain::new();
    let mut whole: Vec<u8> = Vec::new();
    for i in 0..20usize {
        let chunk: Vec<u8> = (0..40).map(|j| (i * 40 + j) as u8).collect();
        whole.extend_from_slice(&chunk);
        chain.append_bytes(&chunk);
    }
    for i in 0..5usize {
        let chunk: Vec<u8> = (0..3).map(|j| (200 + i * 3 + j) as u8).collect();
        let mut grown = chunk.clone();
        grown.extend_from_slice(&whole);
        whole = grown;
        chain.prepend_bytes(&chunk);
    }
    assert_eq!(chain.size(), whole.len());
    assert_eq!(chain.pullup(100).unwrap(), &whole[..100]);
    assert_eq!(chain.pullup(whole.len()).unwrap(), &whole[..]);
    assert_eq!(chain.pullup(7).unwrap(), &whole[..7]);
    assert_eq!(chain.size(), whole.len());
}
