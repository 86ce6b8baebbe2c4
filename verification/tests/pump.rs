use solid_gpui::pump::{TurnBudget, MAX_BYTES_PER_TURN, MAX_MESSAGES_PER_TURN};

#[test]
fn a_turn_yields_after_sixteen_messages() {
    let mut b = TurnBudget::new();
    let mut delivered = 0;
    while !b.should_yield() {
        b.delivered(Some(10));
        delivered += 1;
    }
    assert_eq!(delivered, MAX_MESSAGES_PER_TURN);
    assert_eq!(b, TurnBudget { messages_in_turn: 0, bytes_in_turn: 0 });
}

#[test]
fn a_large_payload_is_delivered_whole_and_ends_the_turn() {
    let mut b = TurnBudget::new();
    assert!(!b.should_yield());
    b.delivered(Some(MAX_BYTES_PER_TURN + 5));
    assert_eq!(b.bytes_in_turn, MAX_BYTES_PER_TURN + 5);
    assert!(b.should_yield());
    assert!(!b.should_yield());
    b.delivered(None);
    assert_eq!(b.messages_in_turn, 1);
    b.idle();
    assert_eq!(b, TurnBudget::new());
}

#[derive(Debug, PartialEq)]
enum Message {
    Payload(Vec<u8>),
    Terminated,
}

#[derive(Debug, PartialEq)]
enum Poll {
    Ready(Option<Message>),
    Pending,
}

/// One foreground poll of the pump over a ready channel: the budget decides
/// whether the turn yields (waking itself) before the channel is read.
fn poll_next(
    budget: &mut TurnBudget,
    channel: &mut std::collections::VecDeque<Message>,
    wakes: &mut usize,
) -> Poll {
    if budget.should_yield() {
        *wakes += 1;
        return Poll::Pending;
    }
    match channel.pop_front() {
        Some(message) => {
            let len = match &message {
                Message::Payload(p) => Some(p.len()),
                Message::Terminated => None,
            };
            budget.delivered(len);
            Poll::Ready(Some(message))
        }
        None => {
            budget.idle();
            Poll::Ready(None)
        }
    }
}

#[test]
fn ready_commits_yield_with_bounded_work_and_preserve_terminal_order() {
    for payload_sizes in [vec![1; MAX_MESSAGES_PER_TURN], vec![MAX_BYTES_PER_TURN + 1]] {
        let mut channel = std::collections::VecDeque::new();
        for (index, size) in payload_sizes.iter().enumerate() {
            channel.push_back(Message::Payload(vec![index as u8; *size]));
        }
        channel.push_back(Message::Terminated);
        let mut budget = TurnBudget::new();
        let mut wakes = 0;
        for (index, size) in payload_sizes.iter().enumerate() {
            let Poll::Ready(Some(Message::Payload(payload))) =
                poll_next(&mut budget, &mut channel, &mut wakes)
            else {
                panic!("accepted commits must arrive before runtime termination");
            };
            assert_eq!(payload, vec![index as u8; *size]);
        }
        let before_yield = wakes;
        assert_eq!(poll_next(&mut budget, &mut channel, &mut wakes), Poll::Pending);
        assert_eq!(wakes, before_yield + 1);
        assert_eq!(
            poll_next(&mut budget, &mut channel, &mut wakes),
            Poll::Ready(Some(Message::Terminated))
        );
        assert_eq!(poll_next(&mut budget, &mut channel, &mut wakes), Poll::Ready(None));
    }
}
