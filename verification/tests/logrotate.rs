use chrond::logrotate::{first_step, log_entry, log_path, next_step, rotated_path, Step};

/// A log and its generations in memory: `files[0]` is the log itself.
struct Files {
    files: Vec<Option<String>>,
}

impl Files {
    fn new() -> Files {
        Files { files: vec![None; 8] }
    }

    fn write(&mut self, text: &str) {
        self.files[0] = Some(text.to_string());
    }

    fn append(&mut self, header: &str, output: &str, max_bytes: u64, keep: u32) {
        self.rotate(max_bytes, keep);
        let entry = log_entry(header, output);
        self.files[0].get_or_insert_with(String::new).push_str(&entry);
    }

    fn rotate(&mut self, max_bytes: u64, keep: u32) -> bool {
        let size = self.files[0].as_ref().map(|s| s.len() as u64);
        let mut step = first_step(size, max_bytes, keep);
        loop {
            let mut exists = false;
            match step {
                Step::Truncate => self.files[0] = Some(String::new()),
                Step::Remove(n) => self.files[n as usize] = None,
                Step::Probe(n) => exists = self.files[n as usize].is_some(),
                Step::Shift(n) => {
                    let f = self.files[n as usize].take();
                    assert!(f.is_some());
                    self.files[n as usize + 1] = f;
                }
                Step::Retire => self.files[1] = self.files[0].take(),
                Step::Done(rotated) => return rotated,
            }
            step = next_step(step, exists);
        }
    }

    fn text(&self, n: usize) -> &str {
        self.files[n].as_deref().unwrap_or("")
    }
}

#[test]
fn no_rotation_below_threshold() {
    let mut f = Files::new();
    f.write("small");
    assert!(!f.rotate(1024, 3));
    assert_eq!(f.text(0), "small");
    assert!(!f.rotate(5, 3));
    assert!(f.rotate(4, 3));
}

#[test]
fn missing_log_is_not_rotated() {
    let mut f = Files::new();
    assert!(!f.rotate(0, 3));
    assert_eq!(first_step(None, 0, 0), Step::Done(false));
}

#[test]
fn rotates_and_shifts_generations() {
    let mut f = Files::new();
    f.write(&"gen-A".repeat(10));
    assert!(f.rotate(10, 3));
    assert!(f.files[0].is_none());
    assert!(f.text(1).contains("gen-A"));

    f.write(&"gen-B".repeat(10));
    assert!(f.rotate(10, 3));
    assert!(f.text(1).contains("gen-B"));
    assert!(f.text(2).contains("gen-A"));
}

#[test]
fn keep_limit_drops_oldest() {
    let mut f = Files::new();
    for gen in ["one", "two", "three"] {
        f.write(&gen.repeat(20));
        f.rotate(10, 2);
    }
    assert!(f.files[1].is_some());
    assert!(f.files[2].is_some());
    assert!(f.files[3].is_none());
    // Newest rotation holds the last generation written.
    assert!(f.text(1).contains("three"));
    assert!(f.text(2).contains("two"));
}

#[test]
fn keep_zero_truncates() {
    let mut f = Files::new();
    f.write(&"x".repeat(100));
    assert!(f.rotate(10, 0));
    assert_eq!(f.files[0].as_deref(), Some(""));
    assert!(f.files[1].is_none());
}

#[test]
fn gaps_between_generations_stay() {
    let mut f = Files::new();
    f.files[1] = Some("a".into());
    f.files[3] = Some("c".into());
    f.files[6] = Some("beyond".into());
    f.write("new-new");
    assert!(f.rotate(1, 4));
    assert_eq!(f.text(1), "new-new");
    assert_eq!(f.text(2), "a");
    assert!(f.files[3].is_none());
    assert_eq!(f.text(4), "c");
    assert_eq!(f.text(6), "beyond");
}

#[test]
fn steps_come_in_order() {
    let mut step = first_step(Some(11), 10, 3);
    let mut seen = vec![step];
    while !matches!(step, Step::Done(_)) {
        step = next_step(step, true);
        seen.push(step);
    }
    assert_eq!(
        seen,
        [
            Step::Remove(3),
            Step::Probe(2),
            Step::Shift(2),
            Step::Probe(1),
            Step::Shift(1),
            Step::Retire,
            Step::Done(true),
        ]
    );
}

#[test]
fn paths_of_logs() {
    let base = log_path("/s/logs", "backup");
    assert_eq!(base, "/s/logs/backup.log");
    assert_eq!(rotated_path(&base, 1), "/s/logs/backup.log.1");
    assert_eq!(rotated_path(&base, u32::MAX), "/s/logs/backup.log.4294967295");
}

#[test]
fn append_writes_header_and_output() {
    let content = log_entry("2026-07-08T02:15:00 ok 12ms", "did stuff");
    assert!(content.contains("=== 2026-07-08T02:15:00 ok 12ms"));
    assert!(content.contains("did stuff"));
    assert_eq!(content, "=== 2026-07-08T02:15:00 ok 12ms\ndid stuff\n");
    assert_eq!(log_entry("h", "ends\n"), "=== h\nends\n");
    assert_eq!(log_entry("h", ""), "=== h\n");
}

#[test]
fn append_triggers_rotation() {
    let mut f = Files::new();
    f.append("h1", &"x".repeat(200), 100, 2);
    f.append("h2", "fresh", 100, 2);
    assert!(f.text(0).contains("fresh"));
    assert!(f.files[1].is_some());
    assert_eq!(f.text(0), "=== h2\nfresh\n");
    f.append("h3", "more\n", 100, 2);
    assert_eq!(f.text(0), "=== h2\nfresh\n=== h3\nmore\n");
}
