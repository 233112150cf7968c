use ciruela::keys::PrivateKey;
use ciruela::upload::{
    answer_outcome, block_pointers, completion_outcome, exit_code, host_result,
    is_conflict_reason, sign_paths, upload_outcome, upload_result, AnswerOutcome, BlockPointer,
};
use ciruela::{verify, SigData};
use ciruela::keys::PublicKey;

#[test]
fn conflict_reasons_are_recognised() {
    assert!(is_conflict_reason(&Some("already_exists".to_string())));
    assert!(is_conflict_reason(&Some("already_uploading_different_version".to_string())));
    assert!(!is_conflict_reason(&Some("no_space".to_string())));
    assert!(!is_conflict_reason(&Some("already_exists ".to_string())));
    assert!(!is_conflict_reason(&Some(String::new())));
    assert!(!is_conflict_reason(&None));
}

#[test]
fn rejected_answer_counts_as_success_only_for_tolerated_conflicts() {
    let conflict = Some("already_exists".to_string());
    let other = Some("bad_signature".to_string());
    assert_eq!(answer_outcome(false, &conflict, false), AnswerOutcome::Settled(true));
    assert_eq!(answer_outcome(false, &conflict, true), AnswerOutcome::Settled(false));
    assert_eq!(answer_outcome(false, &other, false), AnswerOutcome::Settled(false));
    assert_eq!(answer_outcome(false, &None, false), AnswerOutcome::Settled(false));
    assert_eq!(answer_outcome(true, &conflict, false), AnswerOutcome::AwaitCompletion);
    assert_eq!(answer_outcome(true, &None, true), AnswerOutcome::AwaitCompletion);
}

#[test]
fn completion_needs_signal_and_no_failed_host() {
    assert!(completion_outcome(true, true));
    assert!(!completion_outcome(true, false));
    assert!(!completion_outcome(false, true));
    assert!(!completion_outcome(false, false));
}

#[test]
fn host_succeeds_when_any_address_does_and_upload_when_all_hosts_do() {
    assert!(host_result(&[false, true, false]));
    assert!(!host_result(&[false, false]));
    assert!(!host_result(&[]));
    assert!(upload_result(&[true, true]));
    assert!(!upload_result(&[true, false, true]));
    assert!(upload_result(&[]));
}

#[test]
fn exit_codes_follow_the_result() {
    assert_eq!(exit_code(Ok(true)), 0);
    assert_eq!(exit_code(Ok(false)), 1);
    assert_eq!(exit_code(Err(())), 2);
}

#[test]
fn each_distinct_path_is_signed_once_in_order() {
    let (secret, public) = crypto::ed25519::keypair(&[11u8; 32]);
    let paths = vec!["/a".to_string(), "/b".to_string(), "/a".to_string(), "/c".to_string(), "/b".to_string()];
    let image = [1u8, 2, 3];
    let res = sign_paths(&paths, &image, 99, &[PrivateKey::Ed25519(secret)]);
    let got: Vec<&str> = res.iter().map(|e| e.path.as_str()).collect();
    assert_eq!(got, vec!["/a", "/b", "/c"]);
    for e in &res {
        assert_eq!(e.signatures.len(), 1);
        let data = SigData { path: &e.path, image: &image, timestamp: 99 };
        assert!(verify(&data, &e.signatures[0], &[PublicKey::Ed25519(public)]));
    }
    let data = SigData { path: "/a", image: &image, timestamp: 99 };
    assert!(!verify(&data, &res[1].signatures[0], &[PublicKey::Ed25519(public)]));
}

#[test]
fn no_paths_no_signatures() {
    let res = sign_paths(&Vec::new(), &[1], 1, &[]);
    assert!(res.is_empty());
}

#[test]
fn upload_outcome_needs_resolution_and_a_good_address_per_host() {
    assert_eq!(upload_outcome(&vec![Some(vec![false, true]), Some(vec![true])]), Ok(true));
    assert_eq!(upload_outcome(&vec![Some(vec![false, true]), Some(vec![false])]), Ok(false));
    assert_eq!(upload_outcome(&vec![Some(vec![true]), None]), Err(()));
    assert_eq!(upload_outcome(&vec![Some(vec![])]), Ok(false));
    assert_eq!(upload_outcome(&vec![]), Ok(true));
}

#[test]
fn block_table_points_at_the_last_block_with_each_hash() {
    let files = vec![
        vec![vec![1u8], vec![2u8], vec![1u8]],
        vec![vec![3u8], vec![2u8]],
    ];
    let mut table = block_pointers(&files, 4096);
    table.sort_by(|a, b| a.hash.cmp(&b.hash));
    assert_eq!(table, vec![
        BlockPointer { hash: vec![1], file: 0, offset: 8192 },
        BlockPointer { hash: vec![2], file: 1, offset: 4096 },
        BlockPointer { hash: vec![3], file: 1, offset: 0 },
    ]);
    assert!(block_pointers(&vec![], 4096).is_empty());
    assert!(block_pointers(&vec![vec![]], 4096).is_empty());
}
