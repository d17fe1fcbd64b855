use scsync::client::{login, ChunkPlan, Upload};
use scsync::codec::{Command, Login};
use scsync::receiver::{ChunkAction, Receiver};

#[test]
fn login_datagram_can_be_read() {
    let datagram = login(b"token", "some/file", 12_345);
    let back = Login::decode(&datagram).unwrap();
    assert_eq!(back.client_token, b"token");
    let Command::UploadRequest(req) = back.command;
    assert_eq!(req.path, "some/file");
    assert_eq!(req.length, 12_345);
}

#[test]
fn upload_sends_nothing_before_the_first_status() {
    let mut upload = Upload::new(5000);
    assert_eq!(upload.chunk_info().num_chunks, 4);
    assert_eq!(upload.chunk_info().chunk_size, 1459);
    assert_eq!(upload.chunk_info().last_chunk_size, 5001 % 1459);
    assert_eq!(upload.next_chunk(), None);
}

#[test]
fn upload_sends_what_the_status_lists() {
    let mut upload = Upload::new(5000);
    assert!(!upload.status(&[0, 4]));
    assert_eq!(upload.next_chunk(), Some(ChunkPlan { index: 0, offset: 0, size: 1459 }));
    assert_eq!(upload.next_chunk(), Some(ChunkPlan { index: 1, offset: 1459, size: 1459 }));
    assert!(!upload.status(&[1, 1, 1, 1]));
    assert_eq!(upload.next_chunk(), Some(ChunkPlan { index: 1, offset: 1459, size: 1459 }));
    assert_eq!(upload.next_chunk(), Some(ChunkPlan { index: 3, offset: 3 * 1459, size: 5001 % 1459 }));
    assert_eq!(upload.next_chunk(), None);
    assert!(upload.status(&[4]));
    assert_eq!(upload.next_chunk(), None);
}

#[test]
fn upload_does_not_send_what_is_no_chunk_of_the_file() {
    let mut upload = Upload::new(5000);
    upload.status(&[3, 5]);
    assert_eq!(upload.next_chunk().map(|p| p.index), Some(3));
    assert_eq!(upload.next_chunk(), None);
}

#[test]
fn upload_datagrams_carry_the_index() {
    let upload = Upload::new(5000);
    let chunk = upload.chunk(vec![9u8; 4], ChunkPlan { index: 2, offset: 2918, size: 3 });
    assert_eq!(chunk.into_vec(), vec![2u8, 0, 0, 0]);
    let fin = upload.fin(Vec::new());
    assert_eq!(fin.index, 4);
    assert_eq!(fin.into_vec(), vec![4u8]);
}

#[test]
fn upload_and_receiver_agree() {
    let length: u64 = 7 * 1459 - 1;
    let mut upload = Upload::new(length);
    let mut receiver = Receiver::new();
    assert!(receiver.upload_request(length, None));
    let mut rounds: usize = 0;
    loop {
        let (status, complete) = receiver.status();
        if upload.status(&status) {
            assert!(complete);
            break;
        }
        rounds += 1;
        let mut sent: usize = 0;
        while let Some(plan) = upload.next_chunk() {
            sent += 1;
            // every third datagram of the first round is lost
            if rounds == 1 && sent % 3 == 0 {
                continue;
            }
            let chunk = upload.chunk(Vec::new(), plan);
            match receiver.chunk(chunk) {
                ChunkAction::Write { offset, .. } => {
                    assert_eq!(offset, plan.offset);
                    receiver.written();
                }
                _ => panic!("chunk is not written"),
            }
        }
        assert_eq!(sent, if rounds == 1 { 7 } else { 2 });
    }
    assert_eq!(rounds, 2);
    assert!(matches!(receiver.chunk(upload.fin(Vec::new())), ChunkAction::Finish { complete: true, .. }));
}
