use std::collections::HashMap;

use prism_core::net::transfer::{
    listing, partial_name, plain_file_name, FileAnswer, FileError, FileMessage, FileOffer,
    FileRefusal, FileReport, FileTask, Files, Found, Looked, Outgoing, FileChunk, CHUNK,
    MAX_FILE_SIZE, REPORT_PATIENCE_US,
};

/// A machine with a folder in memory.
struct Machine {
    files: Files,
    folder: HashMap<String, Vec<u8>>,
    source: Vec<u8>,
    landed: Vec<String>,
    shown: Vec<Vec<String>>,
    now: u64,
}

impl Machine {
    fn new() -> Self {
        Machine {
            files: Files::new(),
            folder: HashMap::new(),
            source: Vec::new(),
            landed: Vec::new(),
            shown: Vec::new(),
            now: 0,
        }
    }

    fn send(&mut self, name: &str, body: &[u8]) -> Result<u32, FileError> {
        let size = body.len() as u64;
        let result = self.files.send(
            name.to_owned(),
            Some(name.to_owned()),
            Looked::File { size },
            self.now,
        );
        if result.is_ok() {
            self.source = body.to_vec();
        }
        result
    }

    fn step(&mut self) -> Option<FileMessage> {
        match self.files.step(self.now) {
            Outgoing::Nothing => None,
            Outgoing::Message(message) => Some(message),
            Outgoing::Chunk(due) => {
                let at = due.offset as usize;
                Some(FileMessage::Chunk(FileChunk {
                    id: due.id,
                    index: due.index,
                    payload: self.source[at..at + due.length].to_vec(),
                }))
            }
        }
    }

    fn settle(&mut self) {
        let name = self.files.settled().expect("it is whole");
        let body = self.folder.remove(&partial_name(&name)).unwrap();
        self.folder.insert(name.clone(), body);
        self.landed.push(name);
    }

    fn take(&mut self, message: FileMessage) {
        match self.files.arrived(message, self.now) {
            FileTask::Nothing => {}
            FileTask::Create(offer) => {
                self.folder.insert(partial_name(&offer.name), Vec::new());
                if self.files.created(offer, true) {
                    self.settle();
                }
            }
            FileTask::Write { chunk, offset } => {
                let at = offset as usize;
                let body = self
                    .folder
                    .iter_mut()
                    .find(|(name, _)| name.ends_with(".prism-part"))
                    .unwrap()
                    .1;
                if body.len() < at + chunk.payload.len() {
                    body.resize(at + chunk.payload.len(), 0);
                }
                body[at..at + chunk.payload.len()].copy_from_slice(&chunk.payload);
                if self.files.wrote(chunk.id, chunk.index) {
                    self.settle();
                }
            }
            FileTask::ReadFolder => {
                let mut found: Vec<Found> = self
                    .folder
                    .iter()
                    .map(|(name, body)| Found {
                        modified: body.len() as i128,
                        size: body.len() as u64,
                        name: name.clone(),
                    })
                    .collect();
                found.sort_by(|a, b| a.name.as_bytes().cmp(b.name.as_bytes()));
                self.files.listed(&found);
            }
            FileTask::Show(list) => {
                self.shown
                    .push(list.files.into_iter().map(|file| file.name).collect());
            }
            FileTask::Send(ask) => {
                if let Some(body) = self.folder.get(&ask.name).cloned() {
                    let _ = self.send(&ask.name, &body);
                }
            }
        }
    }
}

/// Runs both ends until neither has anything more to send, losing every `lost`th packet that
/// goes from left to right.
fn run(left: &mut Machine, right: &mut Machine, lost: u32) {
    let mut seen = 0u32;
    for _ in 0..100_000 {
        if let Some(message) = left.step() {
            seen += 1;
            if lost == 0 || seen % lost != 0 {
                right.take(message);
            }
            continue;
        }
        if let Some(message) = right.step() {
            left.take(message);
            continue;
        }
        if left.files.progress().iter().any(|file| !file.done) && left.now < 100 * REPORT_PATIENCE_US
        {
            left.now += REPORT_PATIENCE_US;
            continue;
        }
        break;
    }
}

fn body(size: usize) -> Vec<u8> {
    (0..size).map(|i| (i % 251) as u8).collect()
}

#[test]
fn a_file_lands_whole() {
    let (mut left, mut right) = (Machine::new(), Machine::new());
    let data = body(CHUNK * 3 + 17);
    assert_eq!(left.send("notes.txt", &data).unwrap(), 1);

    run(&mut left, &mut right, 0);

    assert_eq!(right.landed, ["notes.txt"]);
    assert_eq!(right.folder["notes.txt"], data);
    assert!(left.files.progress().is_empty());
    let progress = right.files.progress();
    assert_eq!(progress[0].moved, data.len() as u64);
    assert!(progress[0].done && !progress[0].sending);
}

#[test]
fn a_file_of_nothing_lands() {
    let (mut left, mut right) = (Machine::new(), Machine::new());
    left.send("empty.bin", &[]).unwrap();
    run(&mut left, &mut right, 0);
    assert_eq!(right.folder["empty.bin"], Vec::<u8>::new());
    // It is no longer moving, so another may go.
    assert_eq!(left.send("next.bin", &[1]).unwrap(), 2);
}

#[test]
fn what_is_dropped_on_the_way_is_sent_again() {
    for lost in [7, 3, 2] {
        let (mut left, mut right) = (Machine::new(), Machine::new());
        let data = body(CHUNK * 40 + 5);
        left.send("big.bin", &data).unwrap();
        // The offer itself is never repeated, so it is let through.
        let offer = left.step().unwrap();
        right.take(offer);
        run(&mut left, &mut right, lost);
        assert!(
            right.folder.get("big.bin") == Some(&data),
            "one in {lost} lost, {:?}, {:?}",
            left.files.progress(),
            right.files.progress()
        );
    }
}

#[test]
fn one_file_after_another_can_be_received() {
    let (mut left, mut right) = (Machine::new(), Machine::new());
    for name in ["a.bin", "b.bin"] {
        left.send(name, &body(CHUNK + 1)).unwrap();
        run(&mut left, &mut right, 0);
    }
    assert_eq!(right.landed, ["a.bin", "b.bin"]);
}

#[test]
fn a_listing_says_what_is_there_and_a_request_fetches_it() {
    let (mut left, mut right) = (Machine::new(), Machine::new());
    left.folder.insert("one.txt".into(), body(10));
    left.folder.insert("two.txt".into(), body(CHUNK + 1));
    left.folder.insert("half.txt.prism-part".into(), body(99));

    right.files.ask_for_listing();
    run(&mut right, &mut left, 0);
    assert_eq!(right.shown, [["two.txt", "one.txt"]], "newest first");

    right.files.fetch("two.txt".into());
    run(&mut right, &mut left, 0);
    assert_eq!(right.folder["two.txt"], left.folder["two.txt"]);
}

#[test]
fn what_cannot_be_sent_is_refused_for_a_reason() {
    let mut files = Files::new();
    let look = |files: &mut Files, name: Option<&str>, looked| {
        files.send("there".into(), name.map(str::to_owned), looked, 0)
    };
    assert!(matches!(
        look(&mut files, None, Looked::File { size: 1 }),
        Err(FileError::NotAFile { path }) if path == "there"
    ));
    assert!(matches!(
        look(&mut files, Some(".."), Looked::File { size: 1 }),
        Err(FileError::NotAFile { .. })
    ));
    assert!(matches!(
        look(&mut files, Some("x"), Looked::NotAFile),
        Err(FileError::NotAFile { .. })
    ));
    assert!(matches!(
        look(&mut files, Some("x"), Looked::Unopened),
        Err(FileError::Unopened)
    ));
    assert!(matches!(
        look(&mut files, Some("x"), Looked::File { size: MAX_FILE_SIZE + 1 }),
        Err(FileError::TooLarge { size }) if size == MAX_FILE_SIZE + 1
    ));
    assert_eq!(look(&mut files, Some("x"), Looked::File { size: 3 }).unwrap(), 1);
    assert!(matches!(
        look(&mut files, Some("y"), Looked::File { size: 3 }),
        Err(FileError::Busy)
    ));
}

fn offer(size: u64, chunks: u32) -> FileOffer {
    FileOffer {
        id: 9,
        size,
        chunks,
        name: "x".into(),
    }
}

fn refusal(files: &mut Files) -> Option<FileRefusal> {
    match files.step(0) {
        Outgoing::Message(FileMessage::Answer(FileAnswer {
            id: 9,
            accepted: false,
            refusal,
        })) => Some(refusal),
        _ => None,
    }
}

#[test]
fn an_offer_is_refused_for_a_reason() {
    let mut files = Files::new();
    files.arrived(FileMessage::Offer(offer(10, 2)), 0);
    assert_eq!(refusal(&mut files), Some(FileRefusal::TooLarge), "does not add up");
    files.arrived(FileMessage::Offer(offer(MAX_FILE_SIZE + 1, 1)), 0);
    assert_eq!(refusal(&mut files), Some(FileRefusal::TooLarge));
    files.created(offer(10, 1), false);
    assert_eq!(refusal(&mut files), Some(FileRefusal::NotWritable));
    files.created(offer(10, 1), true);
    files.arrived(FileMessage::Offer(offer(10, 1)), 0);
    assert_eq!(refusal(&mut files), None, "the acceptance comes first");
    assert_eq!(refusal(&mut files), Some(FileRefusal::Declined));
}

#[test]
fn a_refused_offer_ends_the_transfer() {
    let mut files = Files::new();
    files
        .send("x".into(), Some("x".into()), Looked::File { size: 1 }, 0)
        .unwrap();
    let answer = FileAnswer {
        id: 1,
        accepted: false,
        refusal: FileRefusal::Declined,
    };
    files.arrived(FileMessage::Answer(FileAnswer { id: 2, ..answer }), 0);
    assert_eq!(files.progress().len(), 1, "about another transfer");
    files.arrived(FileMessage::Answer(answer), 0);
    assert!(files.progress().is_empty());
}

#[test]
fn a_receiver_reports_gaps_at_once_and_runs_every_eight() {
    let mut files = Files::new();
    files.created(offer(CHUNK as u64 * 20, 20), true);
    assert!(matches!(files.step(0), Outgoing::Message(FileMessage::Answer(_))));
    for index in 0..7 {
        assert!(!files.wrote(9, index));
        assert!(matches!(files.step(0), Outgoing::Nothing));
    }
    let report = |files: &mut Files| match files.step(0) {
        Outgoing::Message(FileMessage::Report(FileReport { id: 9, have, arrived })) => {
            (have, arrived)
        }
        other => panic!("{other:?}"),
    };
    files.wrote(9, 7);
    assert_eq!(report(&mut files), (8, 0));
    files.wrote(9, 10);
    assert_eq!(report(&mut files), (8, 0b10));
    files.wrote(9, 9);
    assert_eq!(report(&mut files), (8, 0b11));
    // The missing one closes the gap and the run goes on past what was there.
    for index in [8, 11, 12, 13, 14, 15, 16, 17] {
        files.wrote(9, index);
    }
    assert_eq!(report(&mut files), (18, 0));
    // A chunk that is settled already is answered with a report, since the sender has not heard.
    let resent = |id| {
        FileMessage::Chunk(FileChunk {
            id,
            index: 3,
            payload: vec![1],
        })
    };
    assert!(matches!(files.arrived(resent(9), 0), FileTask::Nothing));
    assert_eq!(report(&mut files), (18, 0));
    assert!(matches!(files.arrived(resent(8), 0), FileTask::Nothing));
    assert!(matches!(files.step(0), Outgoing::Nothing));
    // Another transfer's chunks, and chunks already there, count for nothing.
    assert!(!files.wrote(8, 18) && !files.wrote(9, 3));
    files.wrote(9, 18);
    assert!(files.wrote(9, 19), "whole");
    assert_eq!(report(&mut files), (20, 0));
    assert_eq!(files.settled(), Some("x".to_owned()));
    assert_eq!(files.settled(), None);
}

#[test]
fn a_sender_keeps_to_its_window_and_repeats_what_is_missing() {
    let mut files = Files::new();
    let size = CHUNK as u64 * 100;
    files
        .send("x".into(), Some("x".into()), Looked::File { size }, 0)
        .unwrap();
    files.step(0);
    assert!(matches!(files.step(0), Outgoing::Nothing), "not accepted yet");
    let accepted = FileAnswer {
        id: 1,
        accepted: true,
        refusal: FileRefusal::Declined,
    };
    files.arrived(FileMessage::Answer(accepted), 1_000);

    let drain = |files: &mut Files, now: u64| {
        let mut sent = Vec::new();
        while let Outgoing::Chunk(due) = files.step(now) {
            assert_eq!(due.offset, u64::from(due.index) * CHUNK as u64);
            assert_eq!(due.length, CHUNK);
            sent.push(due.index);
        }
        sent
    };
    assert_eq!(drain(&mut files, 1_000), (0..32).collect::<Vec<u32>>());
    // The receiver has 0, 1, 3 and 5.
    let report = FileReport {
        id: 1,
        have: 2,
        arrived: 0b101,
    };
    files.arrived(FileMessage::Report(report), 2_000);
    let sent = drain(&mut files, 2_000);
    assert_eq!(sent[..3], [2, 4, 6]);
    assert_eq!(sent[sent.len() - 2..], [32, 33]);
    assert!(!sent.contains(&3) && !sent.contains(&5));
    // No report for too long: the window is sent again.
    assert!(drain(&mut files, 2_000 + REPORT_PATIENCE_US - 1).is_empty());
    assert_eq!(
        drain(&mut files, 2_000 + REPORT_PATIENCE_US),
        (2..34).collect::<Vec<u32>>()
    );
}

#[test]
fn a_listing_leaves_out_what_does_not_fit() {
    let found: Vec<Found> = (0..40)
        .map(|n| Found {
            modified: n,
            size: 7,
            name: format!("{n:041}"),
        })
        .collect();
    // Fifty bytes each, in a room of 1171.
    let list = listing(&found);
    assert!(list.more);
    assert_eq!(list.files.len(), 23);
    assert_eq!(list.files[0].name, format!("{:041}", 39));

    let list = listing(&found[..2].iter().map(|f| Found { modified: 5, size: f.size, name: f.name.clone() }).collect());
    assert!(!list.more);
    assert_eq!(list.files[0].name, found[0].name, "of one age, in the order found");
    assert!(plain_file_name("notes.txt") && plain_file_name("..."));
    for bad in ["", ".", "..", "a/b", "a\\b"] {
        assert!(!plain_file_name(bad), "{bad}");
    }
}
