use ouisync_core::dispatcher::{
    dispatcher_is_closed, keep_alive_due, live_connections, stream_is_dead, take_seq_num, ChannelQueues, Message,
    RecvStep, SendStep, SinkPoll, SinkSet,
};

const CHANNEL0: [u8; 32] = [1u8; 32];
const CHANNEL1: [u8; 32] = [2u8; 32];

fn message(channel: [u8; 32], content: &[u8]) -> Message {
    Message { seq_num: 0, channel, content: content.to_vec() }
}

#[test]
fn messages_of_a_channel_come_out_in_arrival_order() {
    let mut queues = ChannelQueues::new();
    queues.push(message(CHANNEL0, b"one two three"));
    queues.push(message(CHANNEL1, b"other"));
    queues.push(message(CHANNEL0, b"four five six"));

    assert_eq!(queues.pop(&CHANNEL0), Some(b"one two three".to_vec()));
    assert_eq!(queues.pop(&CHANNEL0), Some(b"four five six".to_vec()));
    assert_eq!(queues.pop(&CHANNEL0), None);
    assert_eq!(queues.pop(&CHANNEL1), Some(b"other".to_vec()));
    assert_eq!(queues.pop(&[3u8; 32]), None);
}

#[test]
fn a_message_for_the_waiting_channel_is_handed_over() {
    let mut queues = ChannelQueues::new();
    assert_eq!(queues.accept_or_queue(&CHANNEL0, message(CHANNEL0, b"hello world")), Some(b"hello world".to_vec()));
    assert_eq!(queues.pop(&CHANNEL0), None);

    assert_eq!(queues.accept_or_queue(&CHANNEL0, message(CHANNEL1, b"for one")), None);
    assert_eq!(queues.pop(&CHANNEL1), Some(b"for one".to_vec()));
}

#[test]
fn receiver_delivers_then_closes_or_waits() {
    let mut queues = ChannelQueues::new();
    queues.push(message(CHANNEL0, b"last"));

    // What was queued is delivered even after the streams have closed.
    match queues.next_recv_step(&CHANNEL0, true) {
        RecvStep::Deliver(content) => assert_eq!(content, b"last"),
        _ => panic!("expected a delivery"),
    }
    assert!(matches!(queues.next_recv_step(&CHANNEL0, true), RecvStep::Closed));
    assert!(matches!(queues.next_recv_step(&CHANNEL0, false), RecvStep::Wait));
}

#[test]
fn sequence_numbers_count_up_and_start_over() {
    let mut next = 0;
    assert_eq!(take_seq_num(&mut next), 0);
    assert_eq!(take_seq_num(&mut next), 1);
    assert_eq!(next, 2);

    let mut next = u64::MAX;
    assert_eq!(take_seq_num(&mut next), u64::MAX);
    assert_eq!(next, 0);
}

#[test]
fn sender_goes_through_the_sinks() {
    let mut sinks = SinkSet::new();
    assert_eq!(sinks.send_step(true, SinkPoll::Ready), SendStep::Closed);

    sinks.add(1);
    sinks.add(2);
    sinks.add(3);
    assert_eq!(sinks.first(), Some(1));

    assert_eq!(sinks.send_step(true, SinkPoll::Pending), SendStep::Wait);
    assert_eq!(sinks.send_step(true, SinkPoll::Ready), SendStep::Start);
    assert_eq!(sinks.send_step(false, SinkPoll::Ready), SendStep::Done);
    assert_eq!(sinks.sinks, vec![1, 2, 3]);

    // The failed sink is dropped, and the last one takes its place.
    assert_eq!(sinks.send_step(true, SinkPoll::Failed), SendStep::Retry);
    assert_eq!(sinks.sinks, vec![3, 2]);
    assert_eq!(sinks.send_step(true, SinkPoll::Failed), SendStep::Retry);
    assert_eq!(sinks.sinks, vec![2]);
    assert_eq!(sinks.send_step(true, SinkPoll::Failed), SendStep::Retry);
    assert!(sinks.is_empty());
    assert_eq!(sinks.send_step(true, SinkPoll::Ready), SendStep::Closed);

    sinks.add(4);
    sinks.close();
    assert_eq!(sinks.first(), None);
}

#[test]
fn dispatcher_needs_both_directions() {
    assert!(dispatcher_is_closed(0, 0));
    assert!(dispatcher_is_closed(1, 0));
    assert!(dispatcher_is_closed(0, 1));
    assert!(!dispatcher_is_closed(1, 2));
}

#[test]
fn live_connections_are_those_in_both_directions() {
    assert_eq!(live_connections(&vec![1, 2, 3, 1], &vec![3, 1, 5]), vec![1, 3]);
    assert_eq!(live_connections(&vec![1, 2], &vec![]), Vec::<u64>::new());
}

#[test]
fn keep_alive_intervals() {
    assert!(!keep_alive_due(29));
    assert!(keep_alive_due(30));
    assert!(!stream_is_dead(59));
    assert!(stream_is_dead(60));
}
