//! Tests for the task slab, the executor, and the simulated end-to-end runs.
//!
//! The tests play the driver's role: they drain the executor's submission
//! queue, perform each request against an in-memory file store, and feed the
//! completions back.

use mailscan::collect::AddrCollection;
use mailscan::executor::{Executor, ExecutorPollResult, SpawnResult};
use mailscan::io_op::{Completion, OpRequest, Submission};
use mailscan::mails::Mails;
use mailscan::matcher::{Matcher, SubstringMatcher};
use mailscan::parser::MalformedFieldPolicy;
use mailscan::slab::TaskSlab;

#[test]
fn slab_ids_are_distinct_and_exhaustion_is_reported() {
    let mut slab: TaskSlab<u64> = TaskSlab::new(3);
    assert_eq!(slab.capacity(), 3);
    assert_eq!(slab.len(), 0);
    let a = slab.allocate(10).unwrap();
    let b = slab.allocate(11).unwrap();
    let c = slab.allocate(12).unwrap();
    assert!(a != b && b != c && a != c);
    assert_eq!(slab.len(), 3);
    // the capacity + 1st concurrent allocation fails ...
    assert!(slab.allocate(13).is_none());
    // ... until a slot is freed
    assert_eq!(slab.remove(b), 11);
    assert_eq!(slab.len(), 2);
    assert!(!slab.contains(b));
    assert!(slab.contains(a) && slab.contains(c));
    let d = slab.allocate(14).unwrap();
    assert!(d != a && d != c);
    assert_eq!(slab.len(), 3);
    assert_eq!(slab.replace(a, 20), 10);
    assert_eq!(slab.remove(a), 20);
}

#[test]
fn spawn_never_exceeds_the_window() {
    let mut ex = Executor::new(2);
    assert_eq!(ex.max_tasks(), 2);
    assert!(matches!(ex.spawn(String::from("0")), SpawnResult::Spawned));
    assert!(matches!(ex.spawn(String::from("1")), SpawnResult::Spawned));
    assert!(matches!(ex.spawn(String::from("2")), SpawnResult::Exhausted));
    assert_eq!(ex.num_tasks(), 2);
    assert!(ex.num_tasks() <= ex.max_tasks());
    assert!(ex.has_tasks());
}

#[test]
fn poll_without_completion_would_block() {
    let matcher = SubstringMatcher::new(String::new());
    let mut collection = AddrCollection::new();
    let mut ex = Executor::new(2);
    let r = ex.poll(None, &matcher, MalformedFieldPolicy::Skip, &mut collection);
    assert!(matches!(r, ExecutorPollResult::WouldBlock));
}

#[test]
fn mails_queue_hands_out_each_path_once() {
    let mut mails = Mails::new(vec![String::from("x"), String::from("y")]);
    assert_eq!(mails.get(), Some(String::from("x")));
    assert_eq!(mails.get(), Some(String::from("y")));
    assert_eq!(mails.get(), None);
    assert_eq!(mails.get(), None);
}

/// An in-memory file store standing in for the kernel ring: paths are the
/// decimal index of the file, descriptors index a table of open files.
struct SimFs {
    files: Vec<Vec<u8>>,
    open_fds: Vec<Option<usize>>,
}

impl SimFs {
    fn new(files: Vec<Vec<u8>>) -> SimFs {
        SimFs { files, open_fds: Vec::new() }
    }

    fn complete(&mut self, sub: Submission) -> Completion {
        let tag = sub.user_data;
        match sub.req {
            OpRequest::Open { path } => match path.parse::<usize>() {
                Ok(idx) if idx < self.files.len() => {
                    self.open_fds.push(Some(idx));
                    Completion {
                        user_data: tag,
                        result: (self.open_fds.len() - 1) as i32,
                        data: Vec::new(),
                    }
                }
                _ => Completion { user_data: tag, result: -2, data: Vec::new() },
            },
            OpRequest::Read { fd, offset, len } => {
                let idx = self.open_fds[fd as usize].expect("read on closed file");
                let content = &self.files[idx];
                let start = offset.min(content.len());
                let end = (offset + len).min(content.len());
                let data = content[start..end].to_vec();
                Completion { user_data: tag, result: data.len() as i32, data }
            }
            OpRequest::Close { fd } => {
                self.open_fds[fd as usize] = None;
                Completion { user_data: tag, result: 0, data: Vec::new() }
            }
        }
    }
}

/// Runs the whole pipeline over the given files, driver included, and
/// returns the report sorted by address.
fn run_files(files: Vec<Vec<u8>>, paths: Vec<String>, pattern: &str, window: u32) -> Vec<(String, String, u64)> {
    let matcher = SubstringMatcher::new(String::from(pattern));
    let mut collection = AddrCollection::new();
    let mut fs = SimFs::new(files);
    let mut ex = Executor::new(window);
    let mut mails = Mails::new(paths);
    let mut ready: Vec<Completion> = Vec::new();
    loop {
        // keep the concurrency window full while the queue has work
        while ex.num_tasks() < ex.max_tasks() {
            match mails.get() {
                Some(p) => {
                    assert!(matches!(ex.spawn(p), SpawnResult::Spawned));
                }
                None => break,
            }
        }
        for sub in ex.take_submissions() {
            ready.push(fs.complete(sub));
        }
        if ready.is_empty() {
            if ex.has_tasks() {
                panic!("live tasks but no completion to deliver");
            }
            if ex.num_tasks() == 0 {
                match mails.get() {
                    Some(p) => {
                        assert!(matches!(ex.spawn(p), SpawnResult::Spawned));
                        continue;
                    }
                    None => break,
                }
            }
        }
        let c = ready.remove(0);
        assert!(ex.has_task(c.user_data), "completion with no matching task");
        let _ = ex.poll(Some(c), &matcher, MalformedFieldPolicy::Skip, &mut collection);
    }
    assert!(!ex.has_tasks());
    let mut lines = collection.report();
    lines.sort();
    lines
}

#[test]
fn three_files_three_distinct_addresses() {
    let files = vec![
        b"From: d1@x.com\n\nbody".to_vec(),
        b"From: d2@x.com\n\nbody".to_vec(),
        b"From: d3@x.com\n\nbody".to_vec(),
    ];
    let paths = vec![String::from("0"), String::from("1"), String::from("2")];
    let lines = run_files(files, paths, "", 4);
    assert_eq!(lines.len(), 3);
    assert_eq!(lines[0], (String::from("d1@x.com"), String::new(), 1));
    assert_eq!(lines[1], (String::from("d2@x.com"), String::new(), 1));
    assert_eq!(lines[2], (String::from("d3@x.com"), String::new(), 1));
}

#[test]
fn same_address_in_two_files_merges_with_its_display_name() {
    let files = vec![
        b"From: Alice <a@x.com>\n\nbody".to_vec(),
        b"From: a@x.com\n\nbody".to_vec(),
    ];
    let paths = vec![String::from("0"), String::from("1")];
    let lines = run_files(files, paths, "", 2);
    assert_eq!(lines.len(), 1);
    assert_eq!(lines[0], (String::from("a@x.com"), String::from("Alice"), 2));
}

#[test]
fn window_smaller_than_the_file_count_still_processes_everything() {
    let mut files: Vec<Vec<u8>> = Vec::new();
    let mut paths: Vec<String> = Vec::new();
    for i in 0..7 {
        files.push(format!("From: u{}@x.com\n\nbody", i).into_bytes());
        paths.push(format!("{}", i));
    }
    let lines = run_files(files, paths, "", 2);
    assert_eq!(lines.len(), 7);
    for line in &lines {
        assert_eq!(line.2, 1);
    }
}

#[test]
fn truncated_header_file_ends_cleanly_at_end_of_input() {
    // the header field never terminates; the task must reach end of input,
    // close the file and finish without contributing anything
    let files = vec![b"From: someone@example.com".to_vec()];
    let paths = vec![String::from("0")];
    let lines = run_files(files, paths, "", 2);
    assert_eq!(lines.len(), 0);
}

#[test]
fn an_unopenable_file_does_not_disturb_the_others() {
    let files = vec![
        b"From: ok1@x.com\n\n".to_vec(),
        b"From: ok2@x.com\n\n".to_vec(),
    ];
    let paths = vec![String::from("0"), String::from("missing"), String::from("1")];
    let lines = run_files(files, paths, "", 2);
    assert_eq!(lines.len(), 2);
    assert_eq!(lines[0].0, "ok1@x.com");
    assert_eq!(lines[1].0, "ok2@x.com");
}

#[test]
fn a_file_larger_than_one_read_block_is_scanned_across_reads() {
    // push the interesting field past the first 4 KiB block
    let mut content = Vec::new();
    for i in 0..300 {
        content.extend_from_slice(format!("X-Filler-{}: padding padding padding\n", i).as_bytes());
    }
    content.extend_from_slice(b"To: far@end.com\n\nbody");
    let files = vec![content];
    let paths = vec![String::from("0")];
    let lines = run_files(files, paths, "", 1);
    assert_eq!(lines.len(), 1);
    assert_eq!(lines[0].0, "far@end.com");
}
