use traffic::join_all_res::{JoinProgress, PollOutcome};

#[test]
fn outcomes_come_out_in_list_order() {
    let mut p: JoinProgress<u32, String> = JoinProgress::new(3);
    assert_eq!(3, p.len());
    assert!(p.is_pending(0));
    assert!(!p.all_done());
    assert!(p.take_results().is_none());

    assert!(!p.record(2, PollOutcome::Ready(30)));
    assert!(p.record(0, PollOutcome::NotReady));
    assert!(p.is_pending(0));
    assert!(!p.record(1, PollOutcome::Failed(String::from("lost"))));
    assert!(!p.all_done());
    assert!(!p.record(0, PollOutcome::Ready(10)));
    assert!(p.all_done());

    let results = p.take_results().unwrap();
    assert_eq!(vec![Ok(10), Err(String::from("lost")), Ok(30)], results);
    assert_eq!(0, p.len());
}

#[test]
fn a_completed_request_keeps_its_outcome() {
    let mut p: JoinProgress<u32, ()> = JoinProgress::new(1);
    assert!(!p.record(0, PollOutcome::Ready(1)));
    assert!(!p.record(0, PollOutcome::Ready(2)));
    assert!(!p.record(0, PollOutcome::Failed(())));
    assert_eq!(vec![Ok(1)], p.take_results().unwrap());
}

#[test]
fn nothing_to_wait_for() {
    let mut p: JoinProgress<u8, u8> = JoinProgress::new(0);
    assert!(p.all_done());
    assert_eq!(Vec::<Result<u8, u8>>::new(), p.take_results().unwrap());
}

#[test]
fn rounds_look_at_pending_requests_in_order() {
    let mut p: JoinProgress<u32, String> = JoinProgress::new(4);
    assert_eq!(vec![0, 1, 2, 3], p.pending_indices());

    let first = p.complete_round(
        &vec![0, 1, 2, 3],
        vec![
            PollOutcome::NotReady,
            PollOutcome::Ready(11),
            PollOutcome::Failed(String::from("gone")),
            PollOutcome::NotReady,
        ],
    );
    assert!(first.is_none());
    assert_eq!(vec![0, 3], p.pending_indices());

    let second = p.complete_round(&vec![0, 3], vec![PollOutcome::Ready(10), PollOutcome::NotReady]);
    assert!(second.is_none());
    assert_eq!(vec![3], p.pending_indices());

    let third = p.complete_round(&vec![3], vec![PollOutcome::Ready(13)]);
    assert_eq!(
        Some(vec![Ok(10), Ok(11), Err(String::from("gone")), Ok(13)]),
        third
    );

    // Afterwards nothing is pending and a round hands out an empty list.
    assert_eq!(Vec::<usize>::new(), p.pending_indices());
    assert_eq!(Some(Vec::<Result<u32, String>>::new()), p.complete_round(&vec![], vec![]));
}
