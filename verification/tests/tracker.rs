use ouisync_core::tracker::Tracker;
use ouisync_core::tracker_model::OfferState;

fn random_block_id() -> [u8; 32] {
    rand::random()
}

#[test]
fn simple() {
    let mut tracker = Tracker::new();

    let client = tracker.client();

    // Initially no blocks are returned
    assert!(tracker.try_accept(client).is_none());

    // Offered but not required blocks are not returned
    let block0 = random_block_id();
    tracker.offer(client, block0, OfferState::Approved);
    assert!(tracker.try_accept(client).is_none());

    // Required but not offered blocks are not returned
    let block1 = random_block_id();
    tracker.require(block1);
    assert!(tracker.try_accept(client).is_none());

    // Required + offered blocks are returned...
    tracker.require(block0);
    assert_eq!(tracker.try_accept(client), Some(block0));

    // ...but only once.
    assert!(tracker.try_accept(client).is_none());
}

#[test]
fn fallback_on_cancel_after_accept() {
    let mut tracker = Tracker::new();

    let client0 = tracker.client();
    let client1 = tracker.client();

    let block = random_block_id();

    tracker.require(block);
    tracker.offer(client0, block, OfferState::Approved);
    tracker.offer(client1, block, OfferState::Approved);

    let block_promise = tracker.try_accept(client0);
    assert_eq!(block_promise, Some(block));
    assert!(tracker.try_accept(client1).is_none());

    // Giving up on the promise without completing it.
    assert!(tracker.release(client0, block));

    assert!(tracker.try_accept(client0).is_none());
    assert_eq!(tracker.try_accept(client1), Some(block));
}

#[test]
fn fallback_on_client_drop_after_require_before_accept() {
    let mut tracker = Tracker::new();

    let client0 = tracker.client();
    let client1 = tracker.client();

    let block = random_block_id();

    tracker.offer(client0, block, OfferState::Approved);
    tracker.offer(client1, block, OfferState::Approved);

    tracker.require(block);

    tracker.drop_client(client0);

    assert_eq!(tracker.try_accept(client1), Some(block));
}

#[test]
fn fallback_on_client_drop_after_require_after_accept() {
    let mut tracker = Tracker::new();

    let client0 = tracker.client();
    let client1 = tracker.client();

    let block = random_block_id();

    tracker.offer(client0, block, OfferState::Approved);
    tracker.offer(client1, block, OfferState::Approved);

    tracker.require(block);

    let block_promise = tracker.try_accept(client0);

    assert_eq!(block_promise, Some(block));
    assert!(tracker.try_accept(client1).is_none());

    assert!(tracker.drop_client(client0));

    assert_eq!(tracker.try_accept(client1), Some(block));
}

#[test]
fn fallback_on_client_drop_before_request() {
    let mut tracker = Tracker::new();

    let client0 = tracker.client();
    let client1 = tracker.client();

    let block = random_block_id();

    tracker.offer(client0, block, OfferState::Approved);
    tracker.offer(client1, block, OfferState::Approved);

    tracker.drop_client(client0);

    tracker.require(block);

    assert_eq!(tracker.try_accept(client1), Some(block));
}

#[test]
fn approve() {
    let mut tracker = Tracker::new();
    let client = tracker.client();

    let block = random_block_id();
    tracker.require(block);

    tracker.offer(client, block, OfferState::Pending);
    assert!(tracker.try_accept(client).is_none());

    tracker.approve(block);
    assert_eq!(tracker.try_accept(client), Some(block));
}

#[test]
fn offer_reports_first_offer_and_wakeup() {
    let mut tracker = Tracker::new();
    let client = tracker.client();
    let block = [7u8; 32];

    assert_eq!(tracker.offer(client, block, OfferState::Pending), (true, false));
    assert_eq!(tracker.offer(client, block, OfferState::Approved), (false, false));

    let other = tracker.client();
    assert_ne!(other, client);
    assert_eq!(tracker.offer(other, block, OfferState::Approved), (true, true));
}

#[test]
fn require_and_approve_wake_only_once() {
    let mut tracker = Tracker::new();
    let client = tracker.client();
    let block = [9u8; 32];

    // Nobody offers the block yet: nobody to wake.
    assert!(!tracker.require([8u8; 32]));

    tracker.offer(client, block, OfferState::Pending);
    assert!(tracker.require(block));
    assert!(!tracker.require(block));

    assert!(tracker.approve(block));
    assert!(!tracker.approve(block));

    // Approving an unknown part does nothing.
    assert!(!tracker.approve([10u8; 32]));
}

#[test]
fn complete_forgets_the_part_everywhere() {
    let mut tracker = Tracker::new();
    let client0 = tracker.client();
    let client1 = tracker.client();
    let block = [3u8; 32];

    tracker.require(block);
    tracker.offer(client0, block, OfferState::Approved);
    tracker.offer(client1, block, OfferState::Approved);
    assert_eq!(tracker.try_accept(client0), Some(block));

    tracker.complete(block);

    assert!(tracker.try_accept(client1).is_none());
    // The part is gone, so releasing it wakes nobody.
    assert!(!tracker.release(client0, block));
    // Offering it again counts as a first offer.
    assert_eq!(tracker.offer(client1, block, OfferState::Approved), (true, true));
}

#[test]
fn dropped_client_id_is_gone() {
    let mut tracker = Tracker::new();
    let client = tracker.client();
    assert!(tracker.has_client(client));
    assert!(!tracker.drop_client(client));
    assert!(!tracker.has_client(client));
    assert!(!tracker.release(client, [1u8; 32]));
}

#[test]
fn each_client_tries_once() {
    let mut tracker = Tracker::new();
    let clients: Vec<usize> = (0..10).map(|_| tracker.client()).collect();
    let block = random_block_id();

    tracker.require(block);
    for client in &clients {
        tracker.offer(*client, block, OfferState::Approved);
    }

    let given = tracker.accept_each(&clients);
    assert_eq!(given.len(), 10);
    assert_eq!(given[0], Some(block));
    assert!(given[1..].iter().all(|part| part.is_none()));

    // As long as the part is held, nobody gets it.
    assert!(tracker.accept_each(&clients).iter().all(|part| part.is_none()));
}

#[test]
fn each_client_gets_a_part_of_its_own() {
    let mut tracker = Tracker::new();
    let client0 = tracker.client();
    let client1 = tracker.client();
    let block0 = [1u8; 32];
    let block1 = [2u8; 32];
    for block in [block0, block1] {
        tracker.require(block);
        tracker.offer(client0, block, OfferState::Approved);
        tracker.offer(client1, block, OfferState::Approved);
    }

    let given = tracker.accept_each(&vec![client0, client1, client0]);
    let mut parts: Vec<[u8; 32]> = given.iter().flatten().copied().collect();
    parts.sort();
    assert_eq!(parts, vec![block0, block1]);
    assert_eq!(given[2], None);
}
