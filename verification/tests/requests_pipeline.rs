use bt::requests::{piece_blocks, BlockRequest, RequestPipeline, BLOCK_SIZE};

fn request(begin: u32) -> BlockRequest {
    BlockRequest {
        piece: 0,
        begin,
        length: BLOCK_SIZE,
    }
}

const SECOND: u64 = 1000;

#[test]
fn blocks_cover_exact_multiple() {
    let blocks = piece_blocks(2 * BLOCK_SIZE as u64);
    assert_eq!(blocks, vec![(0, BLOCK_SIZE), (BLOCK_SIZE, BLOCK_SIZE)]);
}

#[test]
fn blocks_cover_remainder() {
    let blocks = piece_blocks(BLOCK_SIZE as u64 + 100);
    assert_eq!(blocks, vec![(0, BLOCK_SIZE), (BLOCK_SIZE, 100)]);
}

#[test]
fn small_piece_is_one_block() {
    assert_eq!(piece_blocks(12), vec![(0, 12)]);
}

#[test]
fn capacity_is_enforced() {
    let mut pipeline = RequestPipeline::new(2, 30 * SECOND);
    let now = 1_000_000;
    assert!(pipeline.issue(request(0), now));
    assert!(pipeline.issue(request(BLOCK_SIZE), now));
    assert!(!pipeline.has_slot());
    assert!(!pipeline.issue(request(2 * BLOCK_SIZE), now));
    assert_eq!(pipeline.in_flight(), 2);
}

#[test]
fn duplicate_issue_refused() {
    let mut pipeline = RequestPipeline::new(4, 30 * SECOND);
    let now = 1_000_000;
    assert!(pipeline.issue(request(0), now));
    assert!(!pipeline.issue(request(0), now));
}

#[test]
fn complete_removes_matching_request() {
    let mut pipeline = RequestPipeline::new(4, 30 * SECOND);
    let now = 1_000_000;
    pipeline.issue(request(0), now);
    pipeline.issue(request(BLOCK_SIZE), now);
    assert_eq!(pipeline.complete(0, 0, BLOCK_SIZE), Some(request(0)));
    assert_eq!(pipeline.complete(0, 0, BLOCK_SIZE), None);
    assert_eq!(pipeline.in_flight(), 1);
}

#[test]
fn unrelated_complete_ignored() {
    let mut pipeline = RequestPipeline::new(4, 30 * SECOND);
    pipeline.issue(request(0), 1_000_000);
    assert_eq!(pipeline.complete(9, 0, BLOCK_SIZE), None);
    assert_eq!(pipeline.in_flight(), 1);
}

#[test]
fn expiry_returns_and_removes_timed_out() {
    let mut pipeline = RequestPipeline::new(4, 10);
    let start = 1_000_000;
    pipeline.issue(request(0), start);
    let later = start + 20;
    pipeline.issue(request(BLOCK_SIZE), later);
    assert_eq!(pipeline.expired(later), vec![request(0)]);
    assert_eq!(pipeline.in_flight(), 1);
    assert!(pipeline.contains(&request(BLOCK_SIZE)));
}

#[test]
fn drain_empties_pipeline() {
    let mut pipeline = RequestPipeline::new(4, 30 * SECOND);
    let now = 1_000_000;
    pipeline.issue(request(0), now);
    pipeline.issue(request(BLOCK_SIZE), now);
    assert_eq!(pipeline.drain().len(), 2);
    assert_eq!(pipeline.in_flight(), 0);
}

#[test]
fn zero_length_piece_has_no_blocks() {
    assert!(piece_blocks(0).is_empty());
}

#[test]
fn a_request_expires_exactly_at_its_timeout() {
    let mut pipeline = RequestPipeline::new(4, 10);
    pipeline.issue(request(0), 100);
    assert!(pipeline.expired(109).is_empty());
    assert_eq!(pipeline.expired(110), vec![request(0)]);
    assert!(pipeline.has_slot());
}
