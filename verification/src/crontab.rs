//! Crontab file parsing.
//!
//! chrond reads standard crontab files (comments, `KEY=value` environment
//! lines, five-field job lines, `@aliases`). System crontab format
//! (`/etc/crontab`, with a sixth user column) is supported via
//! `system_mode`. Per-job behavior is configured with an annotation
//! comment placed on the line directly above the job:
//!
//! ```text
//! #[chrond] name=nightly-backup catchup=on max_catchup=3 timeout=30m overlap=skip notify=on_failure
//! 15 2 * * * /usr/local/bin/backup.sh
//! ```

use crate::cronexpr;
use crate::cronexpr::{CronExpr, Schedule};
use crate::text;
use vstd::prelude::*;
use vstd::slice::slice_subrange;
use vstd::string::*;

verus! {

/// What to do when a job is still running at its next scheduled time.
#[derive(Debug, Clone, Copy, PartialEq, Eq, Structural)]
pub enum OverlapPolicy {
    /// Start another instance (vixie-cron behavior, default).
    Allow,
    /// Skip the new occurrence and record it as `skipped_overlap`.
    Skip,
}

/// When to send a push notification for a run.
#[derive(Debug, Clone, Copy, PartialEq, Eq, Structural)]
pub enum NotifyPolicy {
    Never,
    OnFailure,
    Always,
}

/// A span of whole seconds.
#[derive(Debug, Clone, Copy, PartialEq, Eq, Structural)]
pub struct Duration {
    pub secs: u64,
}

impl Duration {
    /// The span of `secs` seconds.
    pub fn from_secs(secs: u64) -> (r: Duration)
        ensures
            r.secs == secs,
    {
        Duration { secs }
    }

    /// The number of seconds of the span.
    pub fn as_secs(&self) -> (r: u64)
        ensures
            r == self.secs,
    {
        self.secs
    }
}

/// A single parsed job.
#[derive(Debug, Clone)]
pub struct JobSpec {
    pub name: String,
    pub schedule: CronExpr,
    pub schedule_str: String,
    pub command: String,
    /// User column from system crontabs (parsed, not yet acted upon).
    pub user: Option<String>,
    pub timeout: Option<Duration>,
    pub overlap: OverlapPolicy,
    pub catchup: bool,
    pub max_catchup: u32,
    pub notify: NotifyPolicy,
    /// Rotate the job's output log once it exceeds this size.
    pub log_max_bytes: u64,
    /// How many rotated log generations to keep.
    pub log_keep: u32,
    pub line: usize,
}

/// A parsed crontab: environment assignments plus jobs.
#[derive(Debug, Clone)]
pub struct Crontab {
    pub env: Vec<(String, String)>,
    pub jobs: Vec<JobSpec>,
}

/// Parse error with a line number.
#[derive(Debug, Clone)]
pub struct CrontabError {
    pub line: usize,
    pub message: String,
}

impl CrontabError {
    /// The error as shown to the user.
    pub fn describe(&self) -> (r: String)
        ensures
            r@ == "line "@ + text::decimal(self.line as nat) + ": "@ + self.message@,
    {
        let mut out = "line ".to_owned();
        text::push_decimal(&mut out, self.line as u64);
        out.append(": ");
        out.append(self.message.as_str());
        out
    }
}

// ---------------------------------------------------------------------------
// Durations and sizes
// ---------------------------------------------------------------------------

/// The number of seconds of a duration unit.
pub open spec fn duration_unit(c: char) -> Option<int> {
    if c == 's' {
        Some(1int)
    } else if c == 'm' {
        Some(60int)
    } else if c == 'h' {
        Some(3600int)
    } else if c == 'd' {
        Some(86400int)
    } else {
        None
    }
}

/// The number of bytes of a size unit.
pub open spec fn size_unit(c: char) -> Option<int> {
    if c == 'K' || c == 'k' {
        Some(1024int)
    } else if c == 'M' || c == 'm' {
        Some(1048576int)
    } else if c == 'G' || c == 'g' {
        Some(1073741824int)
    } else {
        None
    }
}

/// The value of a number text times `unit`, where both the number and the
/// product fit in 64 bits.
pub open spec fn scaled(num: Seq<char>, unit: int) -> Option<int> {
    match text::unsigned_of(num, u64::MAX as nat) {
        Some(n) => if n * unit <= u64::MAX {
            Some(n * unit)
        } else {
            None
        },
        None => None,
    }
}

/// The seconds that a text such as `30s`, `5m`, `2h`, `1d` or `45` denotes, or
/// what is wrong with it.
pub open spec fn duration_of(s: Seq<char>) -> Result<int, Seq<char>> {
    let t = text::trim_of(s);
    let invalid = "invalid duration '"@ + t + "'"@;
    if t.len() == 0 {
        Err("empty duration"@)
    } else {
        match duration_unit(t.last()) {
            Some(unit) => match scaled(t.drop_last(), unit) {
                Some(v) => Ok(v),
                None => Err(invalid),
            },
            None => if text::all_digits(t) {
                match scaled(t, 1) {
                    Some(v) => Ok(v),
                    None => Err(invalid),
                }
            } else {
                Err("invalid duration '"@ + t + "' (use e.g. 30s, 5m, 2h, 1d)"@)
            },
        }
    }
}

/// The bytes that a text such as `512K`, `1M` or `2048` denotes, or what is
/// wrong with it.
pub open spec fn size_of(s: Seq<char>) -> Result<int, Seq<char>> {
    let t = text::trim_of(s);
    let invalid = "invalid size '"@ + t + "'"@;
    if t.len() == 0 {
        Err("empty size"@)
    } else {
        match size_unit(t.last()) {
            Some(unit) => match scaled(t.drop_last(), unit) {
                Some(v) => Ok(v),
                None => Err(invalid),
            },
            None => if text::all_digits(t) {
                match scaled(t, 1) {
                    Some(v) => Ok(v),
                    None => Err(invalid),
                }
            } else {
                Err("invalid size '"@ + t + "' (use e.g. 512K, 1M)"@)
            },
        }
    }
}

/// Whether every character is an ASCII digit.
fn only_digits(s: &[char]) -> (r: bool)
    ensures
        r == text::all_digits(s@),
{
    let mut i: usize = 0;
    while i < s.len()
        invariant
            i <= s@.len(),
            forall|j: int| 0 <= j < i ==> text::is_digit(#[trigger] s@[j]),
        decreases s@.len() - i,
    {
        if !text::is_ascii_digit(s[i]) {
            return false;
        }
        i = i + 1;
    }
    true
}

/// The value of a number text times `unit`.
fn parse_scaled(num: &[char], unit: u64) -> (r: Option<u64>)
    ensures
        match r {
            Some(v) => scaled(num@, unit as int) == Some(v as int),
            None => scaled(num@, unit as int) is None,
        },
{
    match text::parse_unsigned(num, u64::MAX) {
        Some(n) => n.checked_mul(unit),
        None => None,
    }
}

/// Parse a human duration such as `30s`, `5m`, `2h`, `1d`.
pub fn parse_duration(s: &str) -> (r: Result<Duration, String>)
    ensures
        match r {
            Ok(d) => duration_of(s@) == Ok::<int, Seq<char>>(d.secs as int),
            Err(e) => duration_of(s@) == Err::<int, Seq<char>>(e@),
        },
{
    let all = text::chars_of(s);
    duration_chars(all.as_slice())
}

fn duration_chars(s: &[char]) -> (r: Result<Duration, String>)
    ensures
        match r {
            Ok(d) => duration_of(s@) == Ok::<int, Seq<char>>(d.secs as int),
            Err(e) => duration_of(s@) == Err::<int, Seq<char>>(e@),
        },
{
    let t = text::trim(s);
    if t.len() == 0 {
        return Err("empty duration".to_owned());
    }
    let last = t[t.len() - 1];
    let head = slice_subrange(t, 0, t.len() - 1);
    assert(head@ =~= t@.drop_last());
    let value = if last == 's' {
        parse_scaled(head, 1)
    } else if last == 'm' {
        parse_scaled(head, 60)
    } else if last == 'h' {
        parse_scaled(head, 3600)
    } else if last == 'd' {
        parse_scaled(head, 86400)
    } else if only_digits(t) {
        parse_scaled(t, 1)
    } else {
        return Err(text::enclose("invalid duration '", t, "' (use e.g. 30s, 5m, 2h, 1d)"));
    };
    match value {
        Some(secs) => Ok(Duration { secs }),
        None => Err(text::enclose("invalid duration '", t, "'")),
    }
}

/// Parse a human size such as `512K`, `1M`, `2048`.
pub fn parse_size(s: &str) -> (r: Result<u64, String>)
    ensures
        match r {
            Ok(n) => size_of(s@) == Ok::<int, Seq<char>>(n as int),
            Err(e) => size_of(s@) == Err::<int, Seq<char>>(e@),
        },
{
    let all = text::chars_of(s);
    size_chars(all.as_slice())
}

fn size_chars(s: &[char]) -> (r: Result<u64, String>)
    ensures
        match r {
            Ok(n) => size_of(s@) == Ok::<int, Seq<char>>(n as int),
            Err(e) => size_of(s@) == Err::<int, Seq<char>>(e@),
        },
{
    let t = text::trim(s);
    if t.len() == 0 {
        return Err("empty size".to_owned());
    }
    let last = t[t.len() - 1];
    let head = slice_subrange(t, 0, t.len() - 1);
    assert(head@ =~= t@.drop_last());
    let value = if last == 'K' || last == 'k' {
        parse_scaled(head, 1024)
    } else if last == 'M' || last == 'm' {
        parse_scaled(head, 1048576)
    } else if last == 'G' || last == 'g' {
        parse_scaled(head, 1073741824)
    } else if only_digits(t) {
        parse_scaled(t, 1)
    } else {
        return Err(text::enclose("invalid size '", t, "' (use e.g. 512K, 1M)"));
    };
    match value {
        Some(n) => Ok(n),
        None => Err(text::enclose("invalid size '", t, "'")),
    }
}


// ---------------------------------------------------------------------------
// Annotations
// ---------------------------------------------------------------------------

/// The characters that a job name may have.
pub open spec fn name_char(c: char) -> bool {
    text::is_alnum(c) || c == '-' || c == '_' || c == '.'
}

/// Job names: at least one character, and only `[A-Za-z0-9._-]`.
pub open spec fn valid_name(s: Seq<char>) -> bool {
    s.len() > 0 && forall|i: int| 0 <= i < s.len() ==> name_char(#[trigger] s[i])
}

/// What the annotation of a job says; `None` where it is silent.
pub struct AnnotationView {
    pub name: Option<Seq<char>>,
    pub timeout: Option<int>,
    pub overlap: Option<OverlapPolicy>,
    pub catchup: Option<bool>,
    pub max_catchup: Option<int>,
    pub notify: Option<NotifyPolicy>,
    pub log_max_bytes: Option<int>,
    pub log_keep: Option<int>,
}

/// The annotation that says nothing.
pub open spec fn no_annotation() -> AnnotationView {
    AnnotationView {
        name: None,
        timeout: None,
        overlap: None,
        catchup: None,
        max_catchup: None,
        notify: None,
        log_max_bytes: None,
        log_keep: None,
    }
}

/// The annotation `a` after the setting `key=value`, or what is wrong with the
/// setting.
pub open spec fn with_setting(a: AnnotationView, key: Seq<char>, value: Seq<char>) -> Result<
    AnnotationView,
    Seq<char>,
> {
    if key == "name"@ {
        if valid_name(value) {
            Ok(AnnotationView { name: Some(value), ..a })
        } else {
            Err("job name '"@ + value + "' must be non-empty [A-Za-z0-9._-]"@)
        }
    } else if key == "timeout"@ {
        match duration_of(value) {
            Ok(n) => Ok(AnnotationView { timeout: Some(n), ..a }),
            Err(e) => Err(e),
        }
    } else if key == "overlap"@ {
        if value == "allow"@ {
            Ok(AnnotationView { overlap: Some(OverlapPolicy::Allow), ..a })
        } else if value == "skip"@ {
            Ok(AnnotationView { overlap: Some(OverlapPolicy::Skip), ..a })
        } else {
            Err("overlap must be allow|skip, got '"@ + value + "'"@)
        }
    } else if key == "catchup"@ {
        if value == "on"@ || value == "true"@ || value == "yes"@ {
            Ok(AnnotationView { catchup: Some(true), ..a })
        } else if value == "off"@ || value == "false"@ || value == "no"@ {
            Ok(AnnotationView { catchup: Some(false), ..a })
        } else {
            Err("catchup must be on|off, got '"@ + value + "'"@)
        }
    } else if key == "max_catchup"@ {
        match text::unsigned_of(value, u32::MAX as nat) {
            Some(n) => if n == 0 {
                Err("max_catchup must be >= 1"@)
            } else {
                Ok(AnnotationView { max_catchup: Some(n as int), ..a })
            },
            None => Err("max_catchup must be a number, got '"@ + value + "'"@),
        }
    } else if key == "notify"@ {
        if value == "never"@ {
            Ok(AnnotationView { notify: Some(NotifyPolicy::Never), ..a })
        } else if value == "on_failure"@ {
            Ok(AnnotationView { notify: Some(NotifyPolicy::OnFailure), ..a })
        } else if value == "always"@ {
            Ok(AnnotationView { notify: Some(NotifyPolicy::Always), ..a })
        } else {
            Err("notify must be never|on_failure|always, got '"@ + value + "'"@)
        }
    } else if key == "log_max"@ {
        match size_of(value) {
            Ok(n) => Ok(AnnotationView { log_max_bytes: Some(n), ..a }),
            Err(e) => Err(e),
        }
    } else if key == "log_keep"@ {
        match text::unsigned_of(value, u32::MAX as nat) {
            Some(n) => Ok(AnnotationView { log_keep: Some(n as int), ..a }),
            None => Err("log_keep must be a number, got '"@ + value + "'"@),
        }
    } else {
        Err("unknown annotation key '"@ + key + "'"@)
    }
}

/// The annotation `a` after one token, or what is wrong with the token.
pub open spec fn with_token(a: AnnotationView, token: Seq<char>) -> Result<
    AnnotationView,
    Seq<char>,
> {
    match text::split_once_of(token, '=') {
        None => Err("annotation token '"@ + token + "' is not key=value"@),
        Some(p) => with_setting(a, p.0, p.1),
    }
}

/// The annotation that a row of tokens writes down; a later setting replaces an
/// earlier one, and the first faulty token decides.
pub open spec fn annotation_of(tokens: Seq<Seq<char>>) -> Result<AnnotationView, Seq<char>>
    decreases tokens.len(),
{
    if tokens.len() == 0 {
        Ok(no_annotation())
    } else {
        match annotation_of(tokens.drop_last()) {
            Err(e) => Err(e),
            Ok(a) => with_token(a, tokens.last()),
        }
    }
}

proof fn lemma_annotation_error(tokens: Seq<Seq<char>>, i: int)
    requires
        0 <= i <= tokens.len(),
        annotation_of(tokens.take(i)) is Err,
    ensures
        annotation_of(tokens) == annotation_of(tokens.take(i)),
    decreases tokens.len() - i,
{
    if i == tokens.len() {
        assert(tokens.take(i) =~= tokens);
    } else {
        assert(tokens.take(i + 1).drop_last() =~= tokens.take(i));
        lemma_annotation_error(tokens, i + 1);
    }
}

struct Annotation {
    name: Option<String>,
    timeout: Option<Duration>,
    overlap: Option<OverlapPolicy>,
    catchup: Option<bool>,
    max_catchup: Option<u32>,
    notify: Option<NotifyPolicy>,
    log_max_bytes: Option<u64>,
    log_keep: Option<u32>,
}

impl View for Annotation {
    type V = AnnotationView;

    closed spec fn view(&self) -> AnnotationView {
        AnnotationView {
            name: match self.name {
                Some(n) => Some(n@),
                None => None,
            },
            timeout: match self.timeout {
                Some(d) => Some(d.secs as int),
                None => None,
            },
            overlap: self.overlap,
            catchup: self.catchup,
            max_catchup: match self.max_catchup {
                Some(n) => Some(n as int),
                None => None,
            },
            notify: self.notify,
            log_max_bytes: match self.log_max_bytes {
                Some(n) => Some(n as int),
                None => None,
            },
            log_keep: match self.log_keep {
                Some(n) => Some(n as int),
                None => None,
            },
        }
    }
}

fn empty_annotation() -> (r: Annotation)
    ensures
        r@ == no_annotation(),
{
    Annotation {
        name: None,
        timeout: None,
        overlap: None,
        catchup: None,
        max_catchup: None,
        notify: None,
        log_max_bytes: None,
        log_keep: None,
    }
}

fn is_name_char(c: char) -> (r: bool)
    ensures
        r == name_char(c),
{
    text::is_ascii_alnum(c) || c == '-' || c == '_' || c == '.'
}

fn is_valid_name(s: &[char]) -> (r: bool)
    ensures
        r == valid_name(s@),
{
    if s.len() == 0 {
        return false;
    }
    let mut i: usize = 0;
    while i < s.len()
        invariant
            0 < s@.len(),
            i <= s@.len(),
            forall|j: int| 0 <= j < i ==> name_char(#[trigger] s@[j]),
        decreases s@.len() - i,
    {
        if !is_name_char(s[i]) {
            return false;
        }
        i = i + 1;
    }
    true
}

/// Adds the setting `key=value` to an annotation.
fn apply_setting(ann: Annotation, key: &[char], value: &[char]) -> (r: Result<Annotation, String>)
    ensures
        match r {
            Ok(a) => with_setting(ann@, key@, value@) == Ok::<AnnotationView, Seq<char>>(a@),
            Err(e) => with_setting(ann@, key@, value@) == Err::<AnnotationView, Seq<char>>(e@),
        },
{
    if text::is_text(key, "name") {
        if is_valid_name(value) {
            Ok(Annotation { name: Some(text::string_of(value)), ..ann })
        } else {
            Err(text::enclose("job name '", value, "' must be non-empty [A-Za-z0-9._-]"))
        }
    } else if text::is_text(key, "timeout") {
        match duration_chars(value) {
            Ok(d) => Ok(Annotation { timeout: Some(d), ..ann }),
            Err(e) => Err(e),
        }
    } else if text::is_text(key, "overlap") {
        if text::is_text(value, "allow") {
            Ok(Annotation { overlap: Some(OverlapPolicy::Allow), ..ann })
        } else if text::is_text(value, "skip") {
            Ok(Annotation { overlap: Some(OverlapPolicy::Skip), ..ann })
        } else {
            Err(text::enclose("overlap must be allow|skip, got '", value, "'"))
        }
    } else if text::is_text(key, "catchup") {
        if text::is_text(value, "on") || text::is_text(value, "true") || text::is_text(
            value,
            "yes",
        ) {
            Ok(Annotation { catchup: Some(true), ..ann })
        } else if text::is_text(value, "off") || text::is_text(value, "false") || text::is_text(
            value,
            "no",
        ) {
            Ok(Annotation { catchup: Some(false), ..ann })
        } else {
            Err(text::enclose("catchup must be on|off, got '", value, "'"))
        }
    } else if text::is_text(key, "max_catchup") {
        match text::parse_unsigned(value, u32::MAX as u64) {
            Some(n) => if n == 0 {
                Err("max_catchup must be >= 1".to_owned())
            } else {
                Ok(Annotation { max_catchup: Some(n as u32), ..ann })
            },
            None => Err(text::enclose("max_catchup must be a number, got '", value, "'")),
        }
    } else if text::is_text(key, "notify") {
        if text::is_text(value, "never") {
            Ok(Annotation { notify: Some(NotifyPolicy::Never), ..ann })
        } else if text::is_text(value, "on_failure") {
            Ok(Annotation { notify: Some(NotifyPolicy::OnFailure), ..ann })
        } else if text::is_text(value, "always") {
            Ok(Annotation { notify: Some(NotifyPolicy::Always), ..ann })
        } else {
            Err(text::enclose("notify must be never|on_failure|always, got '", value, "'"))
        }
    } else if text::is_text(key, "log_max") {
        match size_chars(value) {
            Ok(n) => Ok(Annotation { log_max_bytes: Some(n), ..ann }),
            Err(e) => Err(e),
        }
    } else if text::is_text(key, "log_keep") {
        match text::parse_unsigned(value, u32::MAX as u64) {
            Some(n) => Ok(Annotation { log_keep: Some(n as u32), ..ann }),
            None => Err(text::enclose("log_keep must be a number, got '", value, "'")),
        }
    } else {
        Err(text::enclose("unknown annotation key '", key, "'"))
    }
}

/// The annotation that the text after `#[chrond]` writes down.
fn parse_annotation(rest: &[char], line: usize) -> (r: Result<Annotation, CrontabError>)
    ensures
        match r {
            Ok(a) => annotation_of(text::words_of(rest@)) == Ok::<AnnotationView, Seq<char>>(a@),
            Err(e) => e.line == line && annotation_of(text::words_of(rest@)) == Err::<
                AnnotationView,
                Seq<char>,
            >(e.message@),
        },
{
    let tokens = text::words(rest);
    let ghost all = text::texts(tokens@);
    let mut ann = empty_annotation();
    let mut i: usize = 0;
    while i < tokens.len()
        invariant
            i <= tokens@.len(),
            all == text::texts(tokens@),
            all == text::words_of(rest@),
            annotation_of(all.take(i as int)) == Ok::<AnnotationView, Seq<char>>(ann@),
        decreases tokens@.len() - i,
    {
        let token = tokens[i];
        assert(all.take(i + 1).drop_last() =~= all.take(i as int));
        assert(all.take(i + 1).last() == token@);
        let result = match text::split_once(token, '=') {
            None => Err(text::enclose("annotation token '", token, "' is not key=value")),
            Some(p) => apply_setting(ann, p.0, p.1),
        };
        match result {
            Ok(a) => {
                ann = a;
            },
            Err(message) => {
                proof {
                    lemma_annotation_error(all, i + 1);
                }
                return Err(CrontabError { line, message });
            },
        }
        i = i + 1;
    }
    assert(all.take(all.len() as int) =~= all);
    Ok(ann)
}

// ---------------------------------------------------------------------------
// Environment lines and job lines
// ---------------------------------------------------------------------------

/// Whether a line is an environment assignment: `KEY=...` with a key of
/// letters, digits and `_` that does not start with a digit.
pub open spec fn env_line(line: Seq<char>) -> bool {
    match text::split_once_of(line, '=') {
        None => false,
        Some(p) => {
            let key = text::trim_of(p.0);
            &&& key.len() > 0
            &&& forall|i: int|
                0 <= i < key.len() ==> (text::is_alnum(#[trigger] key[i]) || key[i] == '_')
            &&& !text::is_digit(key[0])
        },
    }
}

/// `v` without double quotes around it.
pub open spec fn unquoted(v: Seq<char>) -> Seq<char> {
    if v.len() >= 2 && v[0] == '"' && v.last() == '"' {
        v.subrange(1, v.len() - 1)
    } else {
        v
    }
}

/// The key and the value of an environment line.
pub open spec fn env_of(line: Seq<char>) -> (Seq<char>, Seq<char>) {
    let p = text::split_once_of(line, '=')->0;
    (text::trim_of(p.0), unquoted(text::trim_of(p.1)))
}

/// The first word of `s` and what follows it, where white space follows it.
pub open spec fn column_of(s: Seq<char>) -> Option<(Seq<char>, Seq<char>)> {
    let t = text::trim_start_of(s);
    let end = text::first_where(t, text::space());
    if end < t.len() {
        Some((t.take(end), t.skip(end)))
    } else {
        None
    }
}

/// The first `n` words of `s` with one space between them, and what follows
/// them, where white space follows each.
pub open spec fn columns_of(s: Seq<char>, n: nat) -> Option<(Seq<char>, Seq<char>)>
    decreases n,
{
    if n == 0 {
        Some((seq![], s))
    } else {
        match columns_of(s, (n - 1) as nat) {
            None => None,
            Some(p) => match column_of(p.1) {
                None => None,
                Some(q) => if n == 1 {
                    Some(q)
                } else {
                    Some((p.0 + seq![' '] + q.0, q.1))
                },
            },
        }
    }
}

/// Schedule, user and command of a job line, or what is wrong with it.
pub open spec fn job_line_of(line: Seq<char>, system_mode: bool) -> Result<
    (Seq<char>, Option<Seq<char>>, Seq<char>),
    Seq<char>,
> {
    let n: nat = if line.len() > 0 && line[0] == '@' {
        1
    } else {
        5
    };
    match columns_of(line, n) {
        None => Err("missing command after schedule"@),
        Some(p) => if system_mode {
            match column_of(p.1) {
                None => Err("missing command after user column (system crontab)"@),
                Some(q) => {
                    let command = text::trim_of(q.1);
                    if command.len() == 0 {
                        Err("missing command"@)
                    } else {
                        Ok((p.0, Some(q.0), command))
                    }
                },
            }
        } else {
            let command = text::trim_of(p.1);
            if command.len() == 0 {
                Err("missing command"@)
            } else {
                Ok((p.0, None, command))
            }
        },
    }
}

/// `s` from after its last `c` on.
pub open spec fn after_last(s: Seq<char>, c: char) -> Seq<char> {
    s.skip(text::last_where(s, text::is_char(c)))
}

/// The characters of `s` that a job name may have.
pub open spec fn name_chars_of(s: Seq<char>) -> Seq<char>
    decreases s.len(),
{
    if s.len() == 0 {
        seq![]
    } else if name_char(s.last()) {
        name_chars_of(s.drop_last()).push(s.last())
    } else {
        name_chars_of(s.drop_last())
    }
}

/// The default name of the job with the given number: the file name of its
/// command's first word.
pub open spec fn default_name_of(command: Seq<char>, index: nat) -> Seq<char> {
    let w = text::words_of(command);
    let first = if w.len() > 0 {
        w[0]
    } else {
        "job"@
    };
    let clean = name_chars_of(after_last(first, '/'));
    if clean.len() == 0 {
        "job"@ + text::decimal(index)
    } else {
        clean + "-"@ + text::decimal(index)
    }
}

/// Whether a line is an environment assignment.
fn is_env_line(line: &[char]) -> (r: bool)
    ensures
        r == env_line(line@),
{
    match text::split_once(line, '=') {
        None => false,
        Some(p) => {
            let key = text::trim(p.0);
            if key.len() == 0 {
                return false;
            }
            let mut i: usize = 0;
            while i < key.len()
                invariant
                    i <= key@.len(),
                    text::split_once_of(line@, '=') == Some((p.0@, p.1@)),
                    key@ == text::trim_of(p.0@),
                    forall|j: int|
                        0 <= j < i ==> (text::is_alnum(#[trigger] key@[j]) || key@[j] == '_'),
                decreases key@.len() - i,
            {
                if !(text::is_ascii_alnum(key[i]) || key[i] == '_') {
                    return false;
                }
                i = i + 1;
            }
            !text::is_ascii_digit(key[0])
        },
    }
}

/// The key and the value of an environment line.
fn parse_env(line: &[char]) -> (r: (String, String))
    requires
        env_line(line@),
    ensures
        (r.0@, r.1@) == env_of(line@),
{
    match text::split_once(line, '=') {
        None => (String::new(), String::new()),
        Some(p) => {
            let v = text::trim(p.1);
            let n = v.len();
            let inner: &[char] = if n >= 2 && v[0] == '"' && v[n - 1] == '"' {
                slice_subrange(v, 1, n - 1)
            } else {
                v
            };
            (text::string_of(text::trim(p.0)), text::string_of(inner))
        },
    }
}

/// The first word of `s` and what follows it, where white space follows it.
fn take_column(s: &[char]) -> (r: Option<(&[char], &[char])>)
    ensures
        match r {
            Some(p) => column_of(s@) == Some((p.0@, p.1@)),
            None => column_of(s@) is None,
        },
{
    let t = text::trim_start(s);
    let end = text::find_space(t);
    if end < t.len() {
        Some((slice_subrange(t, 0, end), slice_subrange(t, end, t.len())))
    } else {
        None
    }
}

/// Once a column is missing, the later ones are too.
proof fn lemma_columns_missing(s: Seq<char>, i: nat, n: nat)
    requires
        i <= n,
        columns_of(s, i) is None,
    ensures
        columns_of(s, n) is None,
    decreases n - i,
{
    if i < n {
        lemma_columns_missing(s, i + 1, n);
    }
}

/// The first `n` words of `s` with one space between them, and what follows.
fn take_columns(s: &[char], n: usize) -> (r: Option<(String, &[char])>)
    ensures
        match r {
            Some(p) => columns_of(s@, n as nat) == Some((p.0@, p.1@)),
            None => columns_of(s@, n as nat) is None,
        },
{
    let mut joined = String::new();
    let mut rest: &[char] = s;
    let mut i: usize = 0;
    while i < n
        invariant
            i <= n,
            columns_of(s@, i as nat) == Some((joined@, rest@)),
        decreases n - i,
    {
        match take_column(rest) {
            None => {
                proof {
                    lemma_columns_missing(s@, (i + 1) as nat, n as nat);
                }
                return None;
            },
            Some(p) => {
                let ghost before = joined@;
                if i > 0 {
                    joined.push(' ');
                }
                text::push_chars(&mut joined, p.0);
                rest = p.1;
                assert(joined@ =~= if i == 0 {
                    before + p.0@
                } else {
                    before + seq![' '] + p.0@
                });
                assert(i == 0 ==> joined@ =~= p.0@);
            },
        }
        i = i + 1;
    }
    Some((joined, rest))
}

/// Schedule, user and command of a job line.
fn split_schedule_and_command(line: &[char], system_mode: bool, lineno: usize) -> (r: Result<
    (String, Option<String>, String),
    CrontabError,
>)
    ensures
        match r {
            Ok(p) => job_line_of(line@, system_mode) == Ok::<
                (Seq<char>, Option<Seq<char>>, Seq<char>),
                Seq<char>,
            >((p.0@, opt_text(p.1), p.2@)),
            Err(e) => e.line == lineno && job_line_of(line@, system_mode) == Err::<
                (Seq<char>, Option<Seq<char>>, Seq<char>),
                Seq<char>,
            >(e.message@),
        },
{
    let fields_needed: usize = if line.len() > 0 && line[0] == '@' {
        1
    } else {
        5
    };
    match take_columns(line, fields_needed) {
        None => Err(
            CrontabError { line: lineno, message: "missing command after schedule".to_owned() },
        ),
        Some(p) => {
            let mut user: Option<String> = None;
            let mut rest: &[char] = p.1;
            if system_mode {
                match take_column(rest) {
                    None => {
                        return Err(
                            CrontabError {
                                line: lineno,
                                message:
                                    "missing command after user column (system crontab)".to_owned(),
                            },
                        );
                    },
                    Some(q) => {
                        user = Some(text::string_of(q.0));
                        rest = q.1;
                    },
                }
            }
            let command = text::trim(rest);
            if command.len() == 0 {
                return Err(CrontabError { line: lineno, message: "missing command".to_owned() });
            }
            Ok((p.0, user, text::string_of(command)))
        },
    }
}

/// The text of an optional string.
pub open spec fn opt_text(s: Option<String>) -> Option<Seq<char>> {
    match s {
        Some(x) => Some(x@),
        None => None,
    }
}

/// Derive a default job name from its command (first word's basename).
fn default_name(command: &str, index: usize) -> (r: String)
    ensures
        r@ == default_name_of(command@, index as nat),
{
    let all = text::chars_of(command);
    let w = text::words(all.as_slice());
    let ghost texts = text::texts(w@);
    assert(texts.len() == w@.len());
    let fallback = text::chars_of("job");
    let first: &[char] = if w.len() > 0 {
        assert(texts[0] == w@[0]@);
        w[0]
    } else {
        fallback.as_slice()
    };
    let mut start: usize = first.len();
    while start > 0 && first[start - 1] != '/'
        invariant
            start <= first@.len(),
            forall|j: int| start <= j < first@.len() ==> !text::is_char('/')(#[trigger] first@[j]),
        decreases start,
    {
        start = start - 1;
    }
    proof {
        text::lemma_last_where(first@, text::is_char('/'), start as int);
    }
    let base = slice_subrange(first, start, first.len());
    assert(base@ =~= after_last(first@, '/'));
    let mut clean = String::new();
    let mut count: usize = 0;
    let mut i: usize = 0;
    while i < base.len()
        invariant
            i <= base@.len(),
            count <= i,
            clean@ == name_chars_of(base@.take(i as int)),
            count == clean@.len(),
        decreases base@.len() - i,
    {
        assert(base@.take(i + 1).drop_last() =~= base@.take(i as int));
        if is_name_char(base[i]) {
            clean.push(base[i]);
            count = count + 1;
        }
        i = i + 1;
    }
    assert(base@.take(base@.len() as int) =~= base@);
    if count == 0 {
        let mut out = "job".to_owned();
        text::push_decimal(&mut out, index as u64);
        out
    } else {
        clean.append("-");
        text::push_decimal(&mut clean, index as u64);
        clean
    }
}


// ---------------------------------------------------------------------------
// The file
// ---------------------------------------------------------------------------

/// What a job of a crontab says.
pub struct JobView {
    pub name: Seq<char>,
    pub schedule: Schedule,
    pub schedule_str: Seq<char>,
    pub command: Seq<char>,
    pub user: Option<Seq<char>>,
    pub timeout: Option<int>,
    pub overlap: OverlapPolicy,
    pub catchup: bool,
    pub max_catchup: int,
    pub notify: NotifyPolicy,
    pub log_max_bytes: int,
    pub log_keep: int,
    pub line: int,
}

impl View for JobSpec {
    type V = JobView;

    open spec fn view(&self) -> JobView {
        JobView {
            name: self.name@,
            schedule: self.schedule@,
            schedule_str: self.schedule_str@,
            command: self.command@,
            user: opt_text(self.user),
            timeout: match self.timeout {
                Some(d) => Some(d.secs as int),
                None => None,
            },
            overlap: self.overlap,
            catchup: self.catchup,
            max_catchup: self.max_catchup as int,
            notify: self.notify,
            log_max_bytes: self.log_max_bytes as int,
            log_keep: self.log_keep as int,
            line: self.line as int,
        }
    }
}

/// What the jobs of a list say.
pub open spec fn job_views(jobs: Seq<JobSpec>) -> Seq<JobView> {
    jobs.map_values(|j: JobSpec| j@)
}

/// The texts of a list of environment assignments.
pub open spec fn env_views(env: Seq<(String, String)>) -> Seq<(Seq<char>, Seq<char>)> {
    env.map_values(|p: (String, String)| (p.0@, p.1@))
}

/// What a crontab says.
pub struct CrontabView {
    pub env: Seq<(Seq<char>, Seq<char>)>,
    pub jobs: Seq<JobView>,
}

impl View for Crontab {
    type V = CrontabView;

    open spec fn view(&self) -> CrontabView {
        CrontabView { env: env_views(self.env@), jobs: job_views(self.jobs@) }
    }
}

impl Default for Crontab {
    fn default() -> (r: Crontab)
        ensures
            r@.env.len() == 0,
            r@.jobs.len() == 0,
    {
        Crontab { env: Vec::new(), jobs: Vec::new() }
    }
}

/// Where the reading of a crontab stands: what it said so far, and the
/// annotation that waits for its job.
pub struct Progress {
    pub tab: CrontabView,
    pub pending: Option<AnnotationView>,
}

/// `o`, or `d` where there is none.
pub open spec fn or_else<T>(o: Option<T>, d: T) -> T {
    match o {
        Some(x) => x,
        None => d,
    }
}

/// The job that a job line and an annotation describe.
pub open spec fn job_of(
    a: AnnotationView,
    parts: (Seq<char>, Option<Seq<char>>, Seq<char>),
    schedule: Schedule,
    line: int,
    index: nat,
) -> JobView {
    JobView {
        name: match a.name {
            Some(n) => n,
            None => default_name_of(parts.2, index),
        },
        schedule,
        schedule_str: parts.0,
        command: parts.2,
        user: parts.1,
        timeout: a.timeout,
        overlap: or_else(a.overlap, OverlapPolicy::Allow),
        catchup: or_else(a.catchup, false),
        max_catchup: or_else(a.max_catchup, 1),
        notify: or_else(a.notify, NotifyPolicy::OnFailure),
        log_max_bytes: or_else(a.log_max_bytes, 1048576),
        log_keep: or_else(a.log_keep, 4),
        line,
    }
}

/// Whether one of the jobs has the name.
pub open spec fn has_job(jobs: Seq<JobView>, name: Seq<char>) -> bool {
    exists|i: int| 0 <= i < jobs.len() && (#[trigger] jobs[i]).name == name
}

/// The job that a job line adds to `jobs`, or what is wrong with the line.
pub open spec fn new_job_of(
    jobs: Seq<JobView>,
    pending: Option<AnnotationView>,
    line: Seq<char>,
    lineno: int,
    system_mode: bool,
) -> Result<JobView, Seq<char>> {
    match job_line_of(line, system_mode) {
        Err(e) => Err(e),
        Ok(parts) => match cronexpr::schedule_of(parts.0) {
            Err(e) => Err("invalid cron expression: "@ + e),
            Ok(schedule) => {
                let a = or_else(pending, no_annotation());
                let job = job_of(a, parts, schedule, lineno, jobs.len() + 1);
                if has_job(jobs, job.name) {
                    Err(
                        "duplicate job name '"@ + job.name
                            + "' (set a unique name= annotation)"@,
                    )
                } else {
                    Ok(job)
                }
            },
        },
    }
}

/// The progress after a line, or what is wrong with the line.
pub open spec fn after_line(p: Progress, raw: Seq<char>, lineno: int, system_mode: bool) -> Result<
    Progress,
    Seq<char>,
> {
    let line = text::trim_of(raw);
    if line.len() == 0 {
        Ok(p)
    } else {
        match text::strip_prefix_of(line, "#[chrond]"@) {
            Some(rest) => match annotation_of(text::words_of(rest)) {
                Err(e) => Err(e),
                Ok(a) => Ok(Progress { pending: Some(a), ..p }),
            },
            None => if line[0] == '#' {
                Ok(p)
            } else if line[0] != '@' && env_line(line) {
                Ok(
                    Progress {
                        tab: CrontabView { env: p.tab.env.push(env_of(line)), ..p.tab },
                        ..p
                    },
                )
            } else {
                match new_job_of(p.tab.jobs, p.pending, line, lineno, system_mode) {
                    Err(e) => Err(e),
                    Ok(job) => Ok(
                        Progress {
                            tab: CrontabView { jobs: p.tab.jobs.push(job), ..p.tab },
                            pending: None,
                        },
                    ),
                }
            },
        }
    }
}

/// The progress after a row of lines, or the first faulty line and what is
/// wrong with it.
pub open spec fn after_lines(lines: Seq<Seq<char>>, system_mode: bool) -> Result<
    Progress,
    (int, Seq<char>),
>
    decreases lines.len(),
{
    if lines.len() == 0 {
        Ok(Progress { tab: CrontabView { env: seq![], jobs: seq![] }, pending: None })
    } else {
        match after_lines(lines.drop_last(), system_mode) {
            Err(e) => Err(e),
            Ok(p) => match after_line(p, lines.last(), lines.len() as int, system_mode) {
                Err(e) => Err((lines.len() as int, e)),
                Ok(q) => Ok(q),
            },
        }
    }
}

/// What a crontab file says, or the first faulty line and what is wrong with
/// it.
pub open spec fn crontab_of(content: Seq<char>, system_mode: bool) -> Result<
    CrontabView,
    (int, Seq<char>),
> {
    match after_lines(text::lines_of(content), system_mode) {
        Err(e) => Err(e),
        Ok(p) => Ok(p.tab),
    }
}

proof fn lemma_line_error(lines: Seq<Seq<char>>, i: int, system_mode: bool)
    requires
        0 <= i <= lines.len(),
        after_lines(lines.take(i), system_mode) is Err,
    ensures
        after_lines(lines, system_mode) == after_lines(lines.take(i), system_mode),
    decreases lines.len() - i,
{
    if i == lines.len() {
        assert(lines.take(i) =~= lines);
    } else {
        assert(lines.take(i + 1).drop_last() =~= lines.take(i));
        lemma_line_error(lines, i + 1, system_mode);
    }
}

spec fn pending_view(p: Option<Annotation>) -> Option<AnnotationView> {
    match p {
        Some(a) => Some(a@),
        None => None,
    }
}

/// Whether one of the jobs has the name.
fn name_taken(jobs: &Vec<JobSpec>, name: &String) -> (r: bool)
    ensures
        r == has_job(job_views(jobs@), name@),
{
    let mut i: usize = 0;
    while i < jobs.len()
        invariant
            i <= jobs@.len(),
            forall|j: int| 0 <= j < i ==> (#[trigger] job_views(jobs@)[j]).name != name@,
        decreases jobs@.len() - i,
    {
        assert(job_views(jobs@)[i as int] == jobs@[i as int]@);
        if jobs[i].name == *name {
            return true;
        }
        i = i + 1;
    }
    false
}

/// The job that a job line and the pending annotation describe.
fn parse_job_line(
    line: &[char],
    system_mode: bool,
    lineno: usize,
    pending: Option<Annotation>,
    jobs: &Vec<JobSpec>,
) -> (r: Result<JobSpec, CrontabError>)
    requires
        jobs@.len() < usize::MAX,
    ensures
        match r {
            Ok(job) => new_job_of(
                job_views(jobs@),
                pending_view(pending),
                line@,
                lineno as int,
                system_mode,
            ) == Ok::<JobView, Seq<char>>(job@),
            Err(e) => e.line == lineno && new_job_of(
                job_views(jobs@),
                pending_view(pending),
                line@,
                lineno as int,
                system_mode,
            ) == Err::<JobView, Seq<char>>(e.message@),
        },
{
    let parts = match split_schedule_and_command(line, system_mode, lineno) {
        Ok(p) => p,
        Err(e) => {
            return Err(e);
        },
    };
    let (schedule_str, user, command) = parts;
    let schedule = match CronExpr::parse(schedule_str.as_str()) {
        Ok(c) => c,
        Err(e) => {
            return Err(CrontabError { line: lineno, message: e.describe() });
        },
    };
    let ann = match pending {
        Some(a) => a,
        None => empty_annotation(),
    };
    let index: usize = jobs.len() + 1;
    let name = match ann.name {
        Some(n) => n,
        None => default_name(command.as_str(), index),
    };
    if name_taken(jobs, &name) {
        let mut message = "duplicate job name '".to_owned();
        message.append(name.as_str());
        message.append("' (set a unique name= annotation)");
        return Err(CrontabError { line: lineno, message });
    }
    Ok(
        JobSpec {
            name,
            schedule,
            schedule_str,
            command,
            user,
            timeout: ann.timeout,
            overlap: match ann.overlap {
                Some(x) => x,
                None => OverlapPolicy::Allow,
            },
            catchup: match ann.catchup {
                Some(x) => x,
                None => false,
            },
            max_catchup: match ann.max_catchup {
                Some(x) => x,
                None => 1,
            },
            notify: match ann.notify {
                Some(x) => x,
                None => NotifyPolicy::OnFailure,
            },
            log_max_bytes: match ann.log_max_bytes {
                Some(x) => x,
                None => 1048576,
            },
            log_keep: match ann.log_keep {
                Some(x) => x,
                None => 4,
            },
            line: lineno,
        },
    )
}

impl Crontab {
    /// Parse crontab file content. `system_mode` expects the sixth user
    /// column as in `/etc/crontab`.
    pub fn parse(content: &str, system_mode: bool) -> (r: Result<Crontab, CrontabError>)
        ensures
            match r {
                Ok(tab) => crontab_of(content@, system_mode) == Ok::<
                    CrontabView,
                    (int, Seq<char>),
                >(tab@),
                Err(e) => crontab_of(content@, system_mode) == Err::<
                    CrontabView,
                    (int, Seq<char>),
                >((e.line as int, e.message@)),
            },
    {
        let all = text::chars_of(content);
        let lines = text::lines(all.as_slice());
        let ghost texts = text::texts(lines@);
        let mut env: Vec<(String, String)> = Vec::new();
        let mut jobs: Vec<JobSpec> = Vec::new();
        let mut pending: Option<Annotation> = None;
        let mut i: usize = 0;
        assert(env_views(env@) =~= seq![]);
        assert(job_views(jobs@) =~= seq![]);
        while i < lines.len()
            invariant
                i <= lines@.len(),
                texts == text::texts(lines@),
                texts == text::lines_of(content@),
                jobs@.len() <= i,
                after_lines(texts.take(i as int), system_mode) == Ok::<
                    Progress,
                    (int, Seq<char>),
                >(
                    Progress {
                        tab: CrontabView { env: env_views(env@), jobs: job_views(jobs@) },
                        pending: pending_view(pending),
                    },
                ),
            decreases lines@.len() - i,
        {
            assert(texts.take(i + 1).drop_last() =~= texts.take(i as int));
            assert(texts.take(i + 1).last() == lines@[i as int]@);
            let lineno: usize = i + 1;
            let line = text::trim(lines[i]);
            i = i + 1;
            if line.len() == 0 {
                continue;
            }
            match text::strip_prefix(line, "#[chrond]") {
                Some(rest) => {
                    match parse_annotation(rest, lineno) {
                        Ok(a) => {
                            pending = Some(a);
                        },
                        Err(e) => {
                            proof {
                                lemma_line_error(texts, i as int, system_mode);
                            }
                            return Err(e);
                        },
                    }
                    continue;
                },
                None => {},
            }
            if line[0] == '#' {
                continue;
            }
            if line[0] != '@' && is_env_line(line) {
                let pair = parse_env(line);
                let ghost old_env = env@;
                env.push(pair);
                assert(env_views(env@) =~= env_views(old_env).push(env_of(line@)));
                continue;
            }
            match parse_job_line(line, system_mode, lineno, pending, &jobs) {
                Ok(job) => {
                    let ghost old_jobs = jobs@;
                    let ghost view = job@;
                    jobs.push(job);
                    pending = None;
                    assert(job_views(jobs@) =~= job_views(old_jobs).push(view));
                },
                Err(e) => {
                    proof {
                        lemma_line_error(texts, i as int, system_mode);
                    }
                    return Err(e);
                },
            }
        }
        assert(texts.take(texts.len() as int) =~= texts);
        Ok(Crontab { env, jobs })
    }
}


// ---------------------------------------------------------------------------
// Laws
// ---------------------------------------------------------------------------

/// Whether what an annotation says of the name and of `max_catchup` is in
/// order.
spec fn sound_annotation(a: AnnotationView) -> bool {
    &&& a.name is Some ==> valid_name(a.name->0)
    &&& a.max_catchup is Some ==> 1 <= a.max_catchup->0 <= u32::MAX
}

proof fn lemma_annotation_sound(tokens: Seq<Seq<char>>)
    ensures
        annotation_of(tokens) matches Ok(a) ==> sound_annotation(a),
    decreases tokens.len(),
{
    if tokens.len() > 0 {
        lemma_annotation_sound(tokens.drop_last());
    }
}

proof fn lemma_name_chars(s: Seq<char>)
    ensures
        forall|i: int|
            0 <= i < name_chars_of(s).len() ==> name_char(#[trigger] name_chars_of(s)[i]),
    decreases s.len(),
{
    if s.len() > 0 {
        lemma_name_chars(s.drop_last());
        let before = name_chars_of(s.drop_last());
        assert forall|i: int| 0 <= i < name_chars_of(s).len() implies name_char(
            #[trigger] name_chars_of(s)[i],
        ) by {
            if i < before.len() {
                assert(name_chars_of(s)[i] == before[i]);
            }
        }
    }
}

/// A default name is a job name and ends with the job's number, which follows a
/// character that is no digit.
pub proof fn default_names_end_in_their_number(command: Seq<char>, index: nat)
    ensures
        valid_name(default_name_of(command, index)),
        ({
            let name = default_name_of(command, index);
            let k = name.len() - text::decimal(index).len();
            k > 0 && name.skip(k) == text::decimal(index) && !text::is_digit(name[k - 1])
        }),
{
    reveal_strlit("job");
    reveal_strlit("-");
    let w = text::words_of(command);
    let first = if w.len() > 0 {
        w[0]
    } else {
        "job"@
    };
    let clean = name_chars_of(after_last(first, '/'));
    lemma_name_chars(after_last(first, '/'));
    text::numbers_read_back(index, index);
    let name = default_name_of(command, index);
    let d = text::decimal(index);
    assert forall|i: int| 0 <= i < name.len() implies name_char(#[trigger] name[i]) by {
        if clean.len() == 0 {
            if i >= 3 {
                assert(name[i] == d[i - 3]);
            }
        } else if i > clean.len() {
            assert(name[i] == d[i - clean.len() - 1]);
        }
    }
    let k = name.len() - d.len();
    assert(name.skip(k) =~= d);
}

/// Default names of jobs with different numbers differ, whatever their
/// commands.
pub proof fn default_names_differ(c: Seq<char>, i: nat, d: Seq<char>, j: nat)
    requires
        i != j,
    ensures
        default_name_of(c, i) != default_name_of(d, j),
{
    default_names_end_in_their_number(c, i);
    default_names_end_in_their_number(d, j);
    let max = i + j;
    text::numbers_read_back(i, max);
    text::numbers_read_back(j, max);
    let (x, y) = (text::decimal(i), text::decimal(j));
    let name = default_name_of(c, i);
    if name == default_name_of(d, j) {
        let (k, l) = (name.len() - x.len(), name.len() - y.len());
        if k < l {
            assert(name.skip(k)[l - 1 - k] == name[l - 1]);
            assert(text::is_digit(x[l - 1 - k]));
        } else if l < k {
            assert(name.skip(l)[k - 1 - l] == name[k - 1]);
            assert(text::is_digit(y[k - 1 - l]));
        } else {
            assert(x == y);
        }
    }
}

/// What holds of every job of a crontab: its name is made of `[A-Za-z0-9._-]`,
/// its schedule is what its schedule text says, its command is trimmed and not
/// empty, it has a user exactly in a system crontab, and it catches up at least
/// one occurrence where it catches up at all.
pub open spec fn sound_job(j: JobView, system_mode: bool) -> bool {
    &&& valid_name(j.name)
    &&& cronexpr::schedule_of(j.schedule_str) == Ok::<Schedule, Seq<char>>(j.schedule)
    &&& j.command.len() > 0
    &&& text::trim_of(j.command) == j.command
    &&& j.user is Some <==> system_mode
    &&& 1 <= j.max_catchup <= u32::MAX
}

/// What holds of every list of jobs of a crontab with `n` lines: each job is
/// sound, no two have the same name, and they stand in the order of their
/// lines.
pub open spec fn sound_jobs(jobs: Seq<JobView>, n: int, system_mode: bool) -> bool {
    &&& forall|i: int| 0 <= i < jobs.len() ==> sound_job(#[trigger] jobs[i], system_mode)
    &&& forall|i: int| 0 <= i < jobs.len() ==> 1 <= (#[trigger] jobs[i]).line <= n
    &&& forall|i: int, j: int|
        0 <= i < j < jobs.len() ==> (#[trigger] jobs[i]).name != (#[trigger] jobs[j]).name
    &&& forall|i: int, j: int|
        0 <= i < j < jobs.len() ==> (#[trigger] jobs[i]).line < (#[trigger] jobs[j]).line
}

proof fn lemma_lines_sound(lines: Seq<Seq<char>>, system_mode: bool)
    ensures
        after_lines(lines, system_mode) matches Ok(p) ==> sound_jobs(
            p.tab.jobs,
            lines.len() as int,
            system_mode,
        ) && (p.pending is Some ==> sound_annotation(p.pending->0)),
    decreases lines.len(),
{
    if lines.len() > 0 {
        lemma_lines_sound(lines.drop_last(), system_mode);
        if after_lines(lines, system_mode) is Ok {
            let n = lines.len() as int;
            let before = after_lines(lines.drop_last(), system_mode)->Ok_0;
            let p = after_lines(lines, system_mode)->Ok_0;
            let line = text::trim_of(lines.last());
            match text::strip_prefix_of(line, "#[chrond]"@) {
                Some(rest) => {
                    lemma_annotation_sound(text::words_of(rest));
                },
                None => {},
            }
            if p.tab.jobs != before.tab.jobs {
                let job = new_job_of(
                    before.tab.jobs,
                    before.pending,
                    line,
                    n,
                    system_mode,
                )->Ok_0;
                let jobs = before.tab.jobs;
                assert(p.tab.jobs == jobs.push(job));
                let parts = job_line_of(line, system_mode)->Ok_0;
                default_names_end_in_their_number(parts.2, jobs.len() + 1);
                let columns = columns_of(
                    line,
                    if line.len() > 0 && line[0] == '@' {
                        1
                    } else {
                        5
                    },
                )->0;
                let user = column_of(columns.1)->0;
                text::trimmed_text_is_trimmed(columns.1);
                text::trimmed_text_is_trimmed(user.1);
                assert(sound_job(job, system_mode));
                assert forall|i: int| 0 <= i < jobs.len() implies (#[trigger] jobs[i]).name
                    != job.name by {
                    if jobs[i].name == job.name {
                        assert(has_job(jobs, job.name));
                    }
                }
            }
        }
    }
}

/// Every crontab that is accepted has sound jobs: no two have the same name,
/// each name can be part of a file name, each schedule is what its text says,
/// each command is trimmed, the user is there in a system crontab only, and each
/// job knows the line it stands on.
pub proof fn accepted_jobs_are_sound(content: Seq<char>, system_mode: bool)
    ensures
        crontab_of(content, system_mode) matches Ok(tab) ==> sound_jobs(
            tab.jobs,
            text::lines_of(content).len() as int,
            system_mode,
        ),
{
    lemma_lines_sound(text::lines_of(content), system_mode);
}

proof fn lemma_error_line(lines: Seq<Seq<char>>, system_mode: bool)
    ensures
        after_lines(lines, system_mode) matches Err(e) ==> 1 <= e.0 <= lines.len() && after_lines(
            lines.take(e.0 - 1),
            system_mode,
        ) is Ok,
    decreases lines.len(),
{
    if lines.len() > 0 {
        lemma_error_line(lines.drop_last(), system_mode);
        if after_lines(lines, system_mode) is Err {
            let e = after_lines(lines, system_mode)->Err_0;
            assert(lines.drop_last() =~= lines.take(lines.len() - 1));
            if after_lines(lines.drop_last(), system_mode) is Err {
                assert(lines.drop_last().take(e.0 - 1) =~= lines.take(e.0 - 1));
            }
        }
    }
}

/// An error names the first faulty line: the lines before it are accepted.
pub proof fn errors_name_the_first_faulty_line(content: Seq<char>, system_mode: bool)
    ensures
        crontab_of(content, system_mode) matches Err(e) ==> {
            let lines = text::lines_of(content);
            1 <= e.0 <= lines.len() && after_lines(lines.take(e.0 - 1), system_mode) is Ok
        },
{
    lemma_error_line(text::lines_of(content), system_mode);
}

/// The error after a row of lines is the error after the lines up to the faulty
/// one.
proof fn lemma_error_prefix(lines: Seq<Seq<char>>, system_mode: bool)
    ensures
        after_lines(lines, system_mode) matches Err(e) ==> 1 <= e.0 <= lines.len() && after_lines(
            lines.take(e.0),
            system_mode,
        ) == Err::<Progress, (int, Seq<char>)>(e),
    decreases lines.len(),
{
    if lines.len() > 0 && after_lines(lines, system_mode) is Err {
        let e = after_lines(lines, system_mode)->Err_0;
        let rest = lines.drop_last();
        if after_lines(rest, system_mode) is Err {
            lemma_error_prefix(rest, system_mode);
            assert(rest.take(e.0) =~= lines.take(e.0));
        } else {
            assert(lines.take(e.0) =~= lines);
        }
    }
}

/// What follows the first faulty line does not matter: a crontab with the same
/// lines up to that one has the same error.
pub proof fn lines_after_an_error_do_not_matter(
    content: Seq<char>,
    other: Seq<char>,
    system_mode: bool,
)
    requires
        crontab_of(content, system_mode) is Err,
        ({
            let n = crontab_of(content, system_mode)->Err_0.0;
            &&& n <= text::lines_of(other).len()
            &&& text::lines_of(other).take(n) == text::lines_of(content).take(n)
        }),
    ensures
        crontab_of(other, system_mode) == crontab_of(content, system_mode),
{
    let n = crontab_of(content, system_mode)->Err_0.0;
    lemma_error_prefix(text::lines_of(content), system_mode);
    lemma_line_error(text::lines_of(other), n, system_mode);
}

/// Whether a line is blank or a comment.
pub open spec fn silent_line(raw: Seq<char>) -> bool {
    let line = text::trim_of(raw);
    line.len() == 0 || (line[0] == '#' && text::strip_prefix_of(line, "#[chrond]"@) is None)
}

/// Blank lines and comments say nothing.
pub proof fn comments_and_blank_lines_are_ignored(
    p: Progress,
    raw: Seq<char>,
    lineno: int,
    system_mode: bool,
)
    requires
        silent_line(raw),
    ensures
        after_line(p, raw, lineno, system_mode) == Ok::<Progress, Seq<char>>(p),
{
}

/// The number of a line once `by` lines stand after line `n`.
pub open spec fn moved_line(line: int, n: int, by: int) -> int {
    if line > n {
        line + by
    } else {
        line
    }
}

/// A job once `by` lines stand after line `n`.
pub open spec fn moved_job(j: JobView, n: int, by: int) -> JobView {
    JobView { line: moved_line(j.line, n, by), ..j }
}

/// What a crontab says once `by` lines that say nothing stand after line `n`.
pub open spec fn moved_tab(tab: CrontabView, n: int, by: int) -> CrontabView {
    CrontabView { jobs: tab.jobs.map_values(|j: JobView| moved_job(j, n, by)), ..tab }
}

/// The outcome of reading a crontab once `by` lines that say nothing stand after
/// line `n`.
pub open spec fn moved_outcome(
    r: Result<CrontabView, (int, Seq<char>)>,
    n: int,
    by: int,
) -> Result<CrontabView, (int, Seq<char>)> {
    match r {
        Ok(tab) => Ok(moved_tab(tab, n, by)),
        Err(e) => Err((moved_line(e.0, n, by), e.1)),
    }
}

proof fn lemma_silent_lines(a: Seq<Seq<char>>, gap: Seq<Seq<char>>, system_mode: bool)
    requires
        forall|i: int| 0 <= i < gap.len() ==> silent_line(#[trigger] gap[i]),
    ensures
        after_lines(a + gap, system_mode) == after_lines(a, system_mode),
    decreases gap.len(),
{
    if gap.len() == 0 {
        assert(a + gap =~= a);
    } else {
        let rest = gap.drop_last();
        assert forall|i: int| 0 <= i < rest.len() implies silent_line(#[trigger] rest[i]) by {
            assert(rest[i] == gap[i]);
        }
        lemma_silent_lines(a, rest, system_mode);
        assert((a + gap).drop_last() =~= a + rest);
        assert((a + gap).last() == gap[gap.len() - 1]);
    }
}

/// A line after line `n` adds the same to the crontab, whatever the number it
/// has there.
proof fn lemma_moved_after_line(
    p: Progress,
    raw: Seq<char>,
    lineno: int,
    system_mode: bool,
    n: int,
    by: int,
)
    requires
        lineno > n,
    ensures
        ({
            let q = Progress { tab: moved_tab(p.tab, n, by), ..p };
            match after_line(p, raw, lineno, system_mode) {
                Ok(r) => after_line(q, raw, lineno + by, system_mode) == Ok::<
                    Progress,
                    Seq<char>,
                >(Progress { tab: moved_tab(r.tab, n, by), ..r }),
                Err(e) => after_line(q, raw, lineno + by, system_mode) == Err::<
                    Progress,
                    Seq<char>,
                >(e),
            }
        }),
{
    let moved = |j: JobView| moved_job(j, n, by);
    let jobs = p.tab.jobs;
    let others = jobs.map_values(moved);
    let line = text::trim_of(raw);
    assert forall|name: Seq<char>| has_job(others, name) == has_job(jobs, name) by {
        if has_job(jobs, name) {
            let i = choose|i: int| 0 <= i < jobs.len() && (#[trigger] jobs[i]).name == name;
            assert(others[i].name == name);
        }
        if has_job(others, name) {
            let i = choose|i: int| 0 <= i < others.len() && (#[trigger] others[i]).name == name;
            assert(jobs[i].name == name);
        }
    }
    let r = new_job_of(jobs, p.pending, line, lineno, system_mode);
    let s = new_job_of(others, p.pending, line, lineno + by, system_mode);
    match r {
        Ok(job) => {
            assert(s == Ok::<JobView, Seq<char>>(moved_job(job, n, by)));
            assert(jobs.push(job).map_values(moved) =~= others.push(moved_job(job, n, by)));
        },
        Err(e) => {
            assert(s == Err::<JobView, Seq<char>>(e));
        },
    }
}

/// The outcome after a row of lines once `by` lines that say nothing stand after
/// line `n`.
spec fn moved_progress(
    r: Result<Progress, (int, Seq<char>)>,
    n: int,
    by: int,
) -> Result<Progress, (int, Seq<char>)> {
    match r {
        Ok(p) => Ok(Progress { tab: moved_tab(p.tab, n, by), ..p }),
        Err(e) => Err((moved_line(e.0, n, by), e.1)),
    }
}

proof fn lemma_moved_first(a: Seq<Seq<char>>, by: int, system_mode: bool)
    ensures
        moved_progress(after_lines(a, system_mode), a.len() as int, by) == after_lines(
            a,
            system_mode,
        ),
{
    lemma_lines_sound(a, system_mode);
    lemma_error_line(a, system_mode);
    if after_lines(a, system_mode) is Ok {
        let tab = after_lines(a, system_mode)->Ok_0.tab;
        assert(moved_tab(tab, a.len() as int, by).jobs =~= tab.jobs);
    }
}

/// One more line after two rows of lines of which one is the other with lines
/// that say nothing put in.
proof fn lemma_moved_next(
    x: Seq<Seq<char>>,
    y: Seq<Seq<char>>,
    raw: Seq<char>,
    system_mode: bool,
    n: int,
    by: int,
)
    requires
        y.len() == x.len() + by,
        x.len() >= n,
        after_lines(y, system_mode) == moved_progress(after_lines(x, system_mode), n, by),
    ensures
        after_lines(y.push(raw), system_mode) == moved_progress(
            after_lines(x.push(raw), system_mode),
            n,
            by,
        ),
{
    assert(x.push(raw).drop_last() =~= x);
    assert(y.push(raw).drop_last() =~= y);
    if after_lines(x, system_mode) is Ok {
        let p = after_lines(x, system_mode)->Ok_0;
        lemma_moved_after_line(p, raw, x.len() as int + 1, system_mode, n, by);
    }
}

proof fn lemma_moved_lines(
    a: Seq<Seq<char>>,
    gap: Seq<Seq<char>>,
    b: Seq<Seq<char>>,
    system_mode: bool,
)
    requires
        forall|i: int| 0 <= i < gap.len() ==> silent_line(#[trigger] gap[i]),
    ensures
        after_lines(a + gap + b, system_mode) == moved_progress(
            after_lines(a + b, system_mode),
            a.len() as int,
            gap.len() as int,
        ),
    decreases b.len(),
{
    let (n, by) = (a.len() as int, gap.len() as int);
    if b.len() == 0 {
        assert(a + b =~= a);
        assert(a + gap + b =~= a + gap);
        lemma_silent_lines(a, gap, system_mode);
        lemma_moved_first(a, by, system_mode);
    } else {
        let rest = b.drop_last();
        lemma_moved_lines(a, gap, rest, system_mode);
        lemma_moved_next(a + rest, a + gap + rest, b.last(), system_mode, n, by);
        assert((a + rest).push(b.last()) =~= a + b);
        assert((a + gap + rest).push(b.last()) =~= a + gap + b);
    }
}

/// Blank lines and comments that are put in between change nothing but the
/// numbers of the lines after them.
pub proof fn silent_lines_change_line_numbers_only(
    a: Seq<char>,
    gap: Seq<char>,
    b: Seq<char>,
    system_mode: bool,
)
    requires
        text::whole_lines(a),
        text::whole_lines(gap),
        forall|i: int|
            0 <= i < text::lines_of(gap).len() ==> silent_line(#[trigger] text::lines_of(gap)[i]),
    ensures
        crontab_of(a + gap + b, system_mode) == moved_outcome(
            crontab_of(a + b, system_mode),
            text::lines_of(a).len() as int,
            text::lines_of(gap).len() as int,
        ),
{
    text::lines_of_joined_texts(a, b);
    text::lines_of_joined_texts(a, gap);
    if a.len() > 0 && gap.len() > 0 {
        assert((a + gap).last() == gap.last());
    } else if gap.len() == 0 {
        assert(a + gap =~= a);
    } else {
        assert(a + gap =~= gap);
    }
    text::lines_of_joined_texts(a + gap, b);
    lemma_moved_lines(text::lines_of(a), text::lines_of(gap), text::lines_of(b), system_mode);
}

/// An annotation applies to the next job only: a line that adds a job leaves no
/// annotation waiting, and a job without one has the default settings.
pub proof fn annotation_applies_once(
    p: Progress,
    raw: Seq<char>,
    lineno: int,
    system_mode: bool,
)
    ensures
        after_line(p, raw, lineno, system_mode) matches Ok(q) ==> {
            &&& q.tab.jobs == p.tab.jobs || (q.pending is None && q.tab.jobs.len()
                == p.tab.jobs.len() + 1)
            &&& q.tab.jobs != p.tab.jobs && p.pending is None ==> {
                let j = q.tab.jobs.last();
                &&& j.timeout is None
                &&& j.overlap == OverlapPolicy::Allow
                &&& !j.catchup
                &&& j.max_catchup == 1
                &&& j.notify == NotifyPolicy::OnFailure
                &&& j.log_max_bytes == 1048576
                &&& j.log_keep == 4
            }
        },
{
}

/// What two annotations say together: what the second says, and where it is
/// silent what the first says.
pub open spec fn merged(a: AnnotationView, b: AnnotationView) -> AnnotationView {
    AnnotationView {
        name: either(b.name, a.name),
        timeout: either(b.timeout, a.timeout),
        overlap: either(b.overlap, a.overlap),
        catchup: either(b.catchup, a.catchup),
        max_catchup: either(b.max_catchup, a.max_catchup),
        notify: either(b.notify, a.notify),
        log_max_bytes: either(b.log_max_bytes, a.log_max_bytes),
        log_keep: either(b.log_keep, a.log_keep),
    }
}

/// `x`, or `y` where there is none.
pub open spec fn either<T>(x: Option<T>, y: Option<T>) -> Option<T> {
    if x is Some {
        x
    } else {
        y
    }
}

/// A setting says the same whatever was said before it.
proof fn lemma_setting_after(
    a: AnnotationView,
    b: AnnotationView,
    key: Seq<char>,
    value: Seq<char>,
)
    ensures
        match with_setting(b, key, value) {
            Ok(c) => with_setting(merged(a, b), key, value) == Ok::<AnnotationView, Seq<char>>(
                merged(a, c),
            ),
            Err(e) => with_setting(merged(a, b), key, value) == Err::<AnnotationView, Seq<char>>(
                e,
            ),
        },
{
    let m = merged(a, b);
    if with_setting(b, key, value) is Ok {
        let c = with_setting(b, key, value)->Ok_0;
        let d = with_setting(m, key, value)->Ok_0;
        if key == "name"@ {
            assert(d == AnnotationView { name: c.name, ..m });
        } else if key == "timeout"@ {
            assert(d == AnnotationView { timeout: c.timeout, ..m });
        } else if key == "overlap"@ {
            assert(d == AnnotationView { overlap: c.overlap, ..m });
        } else if key == "catchup"@ {
            assert(d == AnnotationView { catchup: c.catchup, ..m });
        } else if key == "max_catchup"@ {
            assert(d == AnnotationView { max_catchup: c.max_catchup, ..m });
        } else if key == "notify"@ {
            assert(d == AnnotationView { notify: c.notify, ..m });
        } else if key == "log_max"@ {
            assert(d == AnnotationView { log_max_bytes: c.log_max_bytes, ..m });
        } else {
            assert(d == AnnotationView { log_keep: c.log_keep, ..m });
        }
        assert(d == merged(a, c));
    }
}

/// A token says the same whatever was said before it.
proof fn lemma_token_after(a: AnnotationView, b: AnnotationView, token: Seq<char>)
    ensures
        match with_token(b, token) {
            Ok(c) => with_token(merged(a, b), token) == Ok::<AnnotationView, Seq<char>>(
                merged(a, c),
            ),
            Err(e) => with_token(merged(a, b), token) == Err::<AnnotationView, Seq<char>>(e),
        },
{
    match text::split_once_of(token, '=') {
        None => {},
        Some(p) => {
            lemma_setting_after(a, b, p.0, p.1);
        },
    }
}

/// Annotations join up: one that consists of two rows of tokens is accepted
/// exactly where both rows are, and says what the second says and, where that is
/// silent, what the first says. The first faulty token decides.
pub proof fn annotations_join(a: Seq<Seq<char>>, b: Seq<Seq<char>>)
    ensures
        annotation_of(a + b) == match annotation_of(a) {
            Err(e) => Err::<AnnotationView, Seq<char>>(e),
            Ok(x) => match annotation_of(b) {
                Err(e) => Err(e),
                Ok(y) => Ok(merged(x, y)),
            },
        },
    decreases b.len(),
{
    if b.len() == 0 {
        assert(a + b =~= a);
    } else {
        annotations_join(a, b.drop_last());
        assert((a + b).drop_last() =~= a + b.drop_last());
        assert((a + b).last() == b.last());
        if annotation_of(a) is Ok && annotation_of(b.drop_last()) is Ok {
            lemma_token_after(
                annotation_of(a)->Ok_0,
                annotation_of(b.drop_last())->Ok_0,
                b.last(),
            );
        }
    }
}

/// An annotation text that consists of two with a space between them is accepted
/// exactly where both are, and says what the second says and, where that is
/// silent, what the first says.
pub proof fn annotation_texts_join(a: Seq<char>, b: Seq<char>)
    ensures
        annotation_of(text::words_of(a + seq![' '] + b)) == match annotation_of(
            text::words_of(a),
        ) {
            Err(e) => Err::<AnnotationView, Seq<char>>(e),
            Ok(x) => match annotation_of(text::words_of(b)) {
                Err(e) => Err(e),
                Ok(y) => Ok(merged(x, y)),
            },
        },
{
    assert(a + seq![' '] + b =~= a.push(' ') + b);
    text::words_of_joined_texts(a, ' ', b);
    annotations_join(text::words_of(a), text::words_of(b));
}

/// A number of seconds that is written down is read back as a duration.
pub proof fn seconds_read_back(n: nat)
    requires
        n <= u64::MAX,
    ensures
        duration_of(text::decimal(n)) == Ok::<int, Seq<char>>(n as int),
{
    let t = text::decimal(n);
    text::numbers_read_back(n, u64::MAX as nat);
    lemma_digits_not_trimmed(t);
    assert(text::is_digit(t.last()));
}

proof fn lemma_digits_not_trimmed(t: Seq<char>)
    requires
        t.len() > 0,
        text::all_digits(t),
    ensures
        text::trim_of(t) == t,
{
    assert(text::is_digit(t[0]));
    assert(text::is_digit(t[t.len() - 1]));
    text::lemma_first_where(t, text::non_space(), 0);
    assert(t.skip(0) =~= t);
    text::lemma_last_where(t, text::non_space(), t.len() as int);
    assert(t.take(t.len() as int) =~= t);
}

// ---------------------------------------------------------------------------
// What each setting says
// ---------------------------------------------------------------------------

/// The token that gives a setting a value.
pub open spec fn setting(key: Seq<char>, value: Seq<char>) -> Seq<char> {
    key + seq!['='] + value
}

proof fn lemma_setting_token(a: AnnotationView, key: Seq<char>, value: Seq<char>)
    requires
        text::lacks(key, '='),
    ensures
        with_token(a, setting(key, value)) == with_setting(a, key, value),
{
    text::cut_texts_read_back(key, '=', value);
}

proof fn lemma_keys_differ()
    ensures
        "timeout"@ != "name"@,
        "overlap"@ != "name"@ && "overlap"@ != "timeout"@,
        "catchup"@ != "name"@ && "catchup"@ != "timeout"@ && "catchup"@ != "overlap"@,
        "max_catchup"@ != "name"@ && "max_catchup"@ != "timeout"@ && "max_catchup"@ != "overlap"@
            && "max_catchup"@ != "catchup"@,
        "notify"@ != "name"@ && "notify"@ != "timeout"@ && "notify"@ != "overlap"@ && "notify"@
            != "catchup"@ && "notify"@ != "max_catchup"@,
        "log_max"@ != "name"@ && "log_max"@ != "timeout"@ && "log_max"@ != "overlap"@ && "log_max"@
            != "catchup"@ && "log_max"@ != "max_catchup"@ && "log_max"@ != "notify"@,
        "log_keep"@ != "name"@ && "log_keep"@ != "timeout"@ && "log_keep"@ != "overlap"@
            && "log_keep"@ != "catchup"@ && "log_keep"@ != "max_catchup"@ && "log_keep"@
            != "notify"@ && "log_keep"@ != "log_max"@,
        text::lacks("name"@, '='),
        text::lacks("timeout"@, '='),
        text::lacks("overlap"@, '='),
        text::lacks("catchup"@, '='),
        text::lacks("max_catchup"@, '='),
        text::lacks("notify"@, '='),
        text::lacks("log_max"@, '='),
        text::lacks("log_keep"@, '='),
{
    reveal_strlit("name");
    reveal_strlit("timeout");
    reveal_strlit("overlap");
    reveal_strlit("catchup");
    reveal_strlit("max_catchup");
    reveal_strlit("notify");
    reveal_strlit("log_max");
    reveal_strlit("log_keep");
    assert("name"@.len() == 4 && "max_catchup"@.len() == 11 && "notify"@.len() == 6
        && "log_keep"@.len() == 8);
    assert("timeout"@[0] == 't' && "overlap"@[0] == 'o' && "catchup"@[0] == 'c' && "log_max"@[0]
        == 'l');
}

/// The notification policy of a job is the one that `notify` names: `never`,
/// `on_failure` and `always` are accepted and nothing else is.
pub proof fn notify_names_the_policy(a: AnnotationView, value: Seq<char>)
    ensures
        ({
            let r = with_token(a, setting("notify"@, value));
            &&& value == "never"@ ==> r == Ok::<AnnotationView, Seq<char>>(
                AnnotationView { notify: Some(NotifyPolicy::Never), ..a },
            )
            &&& value == "on_failure"@ ==> r == Ok::<AnnotationView, Seq<char>>(
                AnnotationView { notify: Some(NotifyPolicy::OnFailure), ..a },
            )
            &&& value == "always"@ ==> r == Ok::<AnnotationView, Seq<char>>(
                AnnotationView { notify: Some(NotifyPolicy::Always), ..a },
            )
            &&& value != "never"@ && value != "on_failure"@ && value != "always"@ ==> r == Err::<
                AnnotationView,
                Seq<char>,
            >("notify must be never|on_failure|always, got '"@ + value + "'"@)
        }),
{
    lemma_keys_differ();
    lemma_setting_token(a, "notify"@, value);
    reveal_strlit("never");
    reveal_strlit("on_failure");
    reveal_strlit("always");
    assert("never"@.len() == 5 && "on_failure"@.len() == 10 && "always"@.len() == 6);
}

/// Runs of a job may overlap with `overlap=allow` and are skipped with
/// `overlap=skip`; nothing else is accepted.
pub proof fn overlap_names_the_policy(a: AnnotationView, value: Seq<char>)
    ensures
        ({
            let r = with_token(a, setting("overlap"@, value));
            &&& value == "allow"@ ==> r == Ok::<AnnotationView, Seq<char>>(
                AnnotationView { overlap: Some(OverlapPolicy::Allow), ..a },
            )
            &&& value == "skip"@ ==> r == Ok::<AnnotationView, Seq<char>>(
                AnnotationView { overlap: Some(OverlapPolicy::Skip), ..a },
            )
            &&& value != "allow"@ && value != "skip"@ ==> r == Err::<AnnotationView, Seq<char>>(
                "overlap must be allow|skip, got '"@ + value + "'"@,
            )
        }),
{
    lemma_keys_differ();
    lemma_setting_token(a, "overlap"@, value);
    reveal_strlit("allow");
    reveal_strlit("skip");
    assert("allow"@.len() == 5 && "skip"@.len() == 4);
}

/// Catch-up is on with `on`, `true` and `yes`, off with `off`, `false` and `no`,
/// and nothing else is accepted.
pub proof fn catchup_is_switched(a: AnnotationView, value: Seq<char>)
    ensures
        ({
            let r = with_token(a, setting("catchup"@, value));
            let on = value == "on"@ || value == "true"@ || value == "yes"@;
            let off = value == "off"@ || value == "false"@ || value == "no"@;
            &&& on ==> r == Ok::<AnnotationView, Seq<char>>(
                AnnotationView { catchup: Some(true), ..a },
            )
            &&& off ==> r == Ok::<AnnotationView, Seq<char>>(
                AnnotationView { catchup: Some(false), ..a },
            )
            &&& !on && !off ==> r == Err::<AnnotationView, Seq<char>>(
                "catchup must be on|off, got '"@ + value + "'"@,
            )
        }),
{
    lemma_keys_differ();
    lemma_setting_token(a, "catchup"@, value);
    reveal_strlit("on");
    reveal_strlit("true");
    reveal_strlit("yes");
    reveal_strlit("off");
    reveal_strlit("false");
    reveal_strlit("no");
    assert("on"@[0] == 'o' && "no"@[0] == 'n' && "yes"@[0] == 'y' && "off"@[0] == 'o');
    assert("on"@.len() == 2 && "true"@.len() == 4 && "yes"@.len() == 3 && "off"@.len() == 3
        && "false"@.len() == 5 && "no"@.len() == 2);
}

/// Numbers are taken as they are written: `max_catchup` from 1 on and `log_keep`
/// from 0 on, up to what 32 bits hold. Where the value is no such number, the
/// token is an error.
pub proof fn numbers_are_set(a: AnnotationView, n: nat, value: Seq<char>)
    ensures
        1 <= n <= u32::MAX ==> with_token(a, setting("max_catchup"@, text::decimal(n))) == Ok::<
            AnnotationView,
            Seq<char>,
        >(AnnotationView { max_catchup: Some(n as int), ..a }),
        n <= u32::MAX ==> with_token(a, setting("log_keep"@, text::decimal(n))) == Ok::<
            AnnotationView,
            Seq<char>,
        >(AnnotationView { log_keep: Some(n as int), ..a }),
        with_token(a, setting("max_catchup"@, text::decimal(0))) == Err::<
            AnnotationView,
            Seq<char>,
        >("max_catchup must be >= 1"@),
        text::unsigned_of(value, u32::MAX as nat) is None ==> {
            &&& with_token(a, setting("max_catchup"@, value)) == Err::<AnnotationView, Seq<char>>(
                "max_catchup must be a number, got '"@ + value + "'"@,
            )
            &&& with_token(a, setting("log_keep"@, value)) == Err::<AnnotationView, Seq<char>>(
                "log_keep must be a number, got '"@ + value + "'"@,
            )
        },
{
    lemma_keys_differ();
    lemma_setting_token(a, "max_catchup"@, text::decimal(n));
    lemma_setting_token(a, "log_keep"@, text::decimal(n));
    lemma_setting_token(a, "max_catchup"@, text::decimal(0));
    lemma_setting_token(a, "max_catchup"@, value);
    lemma_setting_token(a, "log_keep"@, value);
    text::numbers_read_back(0, u32::MAX as nat);
    if n <= u32::MAX {
        text::numbers_read_back(n, u32::MAX as nat);
    }
}

/// A name of letters, digits, `.`, `_` and `-` is the name of the job; any other
/// is an error.
pub proof fn names_are_set(a: AnnotationView, value: Seq<char>)
    ensures
        ({
            let r = with_token(a, setting("name"@, value));
            let good = value.len() > 0 && forall|i: int|
                0 <= i < value.len() ==> ('a' <= #[trigger] value[i] <= 'z' || 'A' <= value[i]
                    <= 'Z' || '0' <= value[i] <= '9' || value[i] == '.' || value[i] == '_'
                    || value[i] == '-');
            &&& good ==> r == Ok::<AnnotationView, Seq<char>>(
                AnnotationView { name: Some(value), ..a },
            )
            &&& !good ==> r == Err::<AnnotationView, Seq<char>>(
                "job name '"@ + value + "' must be non-empty [A-Za-z0-9._-]"@,
            )
        }),
{
    lemma_keys_differ();
    lemma_setting_token(a, "name"@, value);
    if valid_name(value) {
        assert forall|i: int| 0 <= i < value.len() implies ('a' <= #[trigger] value[i] <= 'z'
            || 'A' <= value[i] <= 'Z' || '0' <= value[i] <= '9' || value[i] == '.' || value[i]
            == '_' || value[i] == '-') by {
            assert(name_char(value[i]));
        }
    }
}

/// The time limit is the duration that `timeout` gives, and the size at which a
/// log is rotated the one that `log_max` gives. A text that is no duration or
/// size is an error, and so is a key that is none of the eight.
pub proof fn durations_and_sizes_are_set(a: AnnotationView, key: Seq<char>, value: Seq<char>)
    ensures
        match duration_of(value) {
            Ok(n) => with_token(a, setting("timeout"@, value)) == Ok::<AnnotationView, Seq<char>>(
                AnnotationView { timeout: Some(n), ..a },
            ),
            Err(e) => with_token(a, setting("timeout"@, value)) == Err::<
                AnnotationView,
                Seq<char>,
            >(e),
        },
        match size_of(value) {
            Ok(n) => with_token(a, setting("log_max"@, value)) == Ok::<AnnotationView, Seq<char>>(
                AnnotationView { log_max_bytes: Some(n), ..a },
            ),
            Err(e) => with_token(a, setting("log_max"@, value)) == Err::<
                AnnotationView,
                Seq<char>,
            >(e),
        },
        text::lacks(key, '=') && key != "name"@ && key != "timeout"@ && key != "overlap"@ && key
            != "catchup"@ && key != "max_catchup"@ && key != "notify"@ && key != "log_max"@ && key
            != "log_keep"@ ==> with_token(a, setting(key, value)) == Err::<
            AnnotationView,
            Seq<char>,
        >("unknown annotation key '"@ + key + "'"@),
        text::lacks(value, '=') ==> with_token(a, value) == Err::<AnnotationView, Seq<char>>(
            "annotation token '"@ + value + "' is not key=value"@,
        ),
{
    lemma_keys_differ();
    lemma_setting_token(a, "timeout"@, value);
    lemma_setting_token(a, "log_max"@, value);
    if text::lacks(key, '=') {
        lemma_setting_token(a, key, value);
    }
    if text::lacks(value, '=') {
        text::uncut_text_is_one_piece(value, '=');
    }
}

/// An annotation of one token says what the token says, and an empty one says
/// nothing.
pub proof fn an_empty_annotation_says_nothing(token: Seq<char>)
    ensures
        ({
            let none = AnnotationView {
                name: None,
                timeout: None,
                overlap: None,
                catchup: None,
                max_catchup: None,
                notify: None,
                log_max_bytes: None,
                log_keep: None,
            };
            &&& annotation_of(seq![]) == Ok::<AnnotationView, Seq<char>>(none)
            &&& annotation_of(seq![token]) == with_token(none, token)
        }),
{
    assert(seq![token].drop_last() =~= seq![]);
    assert(seq![token].last() == token);
}

/// An annotation line waits for the next job, in place of an annotation that
/// waits already; it adds no job and no variable.
pub proof fn an_annotation_waits_for_the_next_job(
    p: Progress,
    raw: Seq<char>,
    rest: Seq<char>,
    lineno: int,
    system_mode: bool,
)
    requires
        text::trim_of(raw) == "#[chrond]"@ + rest,
    ensures
        match annotation_of(text::words_of(rest)) {
            Ok(a) => after_line(p, raw, lineno, system_mode) == Ok::<Progress, Seq<char>>(
                Progress { tab: p.tab, pending: Some(a) },
            ),
            Err(e) => after_line(p, raw, lineno, system_mode) == Err::<Progress, Seq<char>>(e),
        },
{
    let line = "#[chrond]"@ + rest;
    reveal_strlit("#[chrond]");
    assert(line.take("#[chrond]"@.len() as int) =~= "#[chrond]"@);
    assert(line.skip("#[chrond]"@.len() as int) =~= rest);
}

/// A job has the settings of the annotation that waits for it, and where that is
/// silent the defaults: a name of its own, no time limit, runs that may overlap,
/// no catch-up, one occurrence to catch up, messages about failures, and four
/// rotated logs of 1 MiB. Its schedule, command and user are those of its line,
/// and its number is that of the line.
pub proof fn a_job_has_the_settings_of_its_annotation(
    p: Progress,
    raw: Seq<char>,
    lineno: int,
    system_mode: bool,
    a: AnnotationView,
)
    requires
        p.pending == Some(a),
    ensures
        after_line(p, raw, lineno, system_mode) matches Ok(q) ==> (q.tab.jobs.len()
            > p.tab.jobs.len() ==> {
            let j = q.tab.jobs.last();
            let parts = job_line_of(text::trim_of(raw), system_mode)->Ok_0;
            &&& q.tab.jobs.drop_last() == p.tab.jobs
            &&& q.tab.env == p.tab.env
            &&& q.pending is None
            &&& match a.name {
                Some(n) => j.name == n,
                None => j.name == default_name_of(j.command, q.tab.jobs.len()),
            }
            &&& j.timeout == a.timeout
            &&& match a.overlap {
                Some(x) => j.overlap == x,
                None => j.overlap == OverlapPolicy::Allow,
            }
            &&& match a.catchup {
                Some(x) => j.catchup == x,
                None => !j.catchup,
            }
            &&& match a.max_catchup {
                Some(x) => j.max_catchup == x,
                None => j.max_catchup == 1,
            }
            &&& match a.notify {
                Some(x) => j.notify == x,
                None => j.notify == NotifyPolicy::OnFailure,
            }
            &&& match a.log_max_bytes {
                Some(x) => j.log_max_bytes == x,
                None => j.log_max_bytes == 1048576,
            }
            &&& match a.log_keep {
                Some(x) => j.log_keep == x,
                None => j.log_keep == 4,
            }
            &&& job_line_of(text::trim_of(raw), system_mode) is Ok
            &&& (j.schedule_str, j.user, j.command) == parts
            &&& cronexpr::schedule_of(j.schedule_str) == Ok::<Schedule, Seq<char>>(j.schedule)
            &&& j.line == lineno
        }),
{
    if after_line(p, raw, lineno, system_mode) is Ok {
        let q = after_line(p, raw, lineno, system_mode)->Ok_0;
        if q.tab.jobs.len() > p.tab.jobs.len() {
            let job = new_job_of(
                p.tab.jobs,
                p.pending,
                text::trim_of(raw),
                lineno,
                system_mode,
            )->Ok_0;
            assert(q.tab.jobs == p.tab.jobs.push(job));
            assert(q.tab.jobs.drop_last() =~= p.tab.jobs);
            assert(q.tab.jobs.last() == job);
        }
    }
}

/// A job line is accepted exactly where it can be cut into its columns, its
/// schedule is accepted and no earlier job has its name.
pub proof fn a_job_is_accepted_for_its_own_sake(
    jobs: Seq<JobView>,
    pending: Option<AnnotationView>,
    line: Seq<char>,
    lineno: int,
    system_mode: bool,
)
    ensures
        new_job_of(jobs, pending, line, lineno, system_mode) is Ok <==> {
            &&& job_line_of(line, system_mode) matches Ok(parts)
            &&& cronexpr::schedule_of(parts.0) is Ok
            &&& forall|i: int|
                0 <= i < jobs.len() ==> (#[trigger] jobs[i]).name != (if pending is Some
                    && pending->0.name is Some {
                    pending->0.name->0
                } else {
                    default_name_of(parts.2, jobs.len() + 1)
                })
        },
{
}

// ---------------------------------------------------------------------------
// Durations and sizes
// ---------------------------------------------------------------------------

proof fn lemma_not_trimmed(t: Seq<char>)
    requires
        t.len() > 0,
        !text::is_space(t[0]),
        !text::is_space(t.last()),
    ensures
        text::trim_of(t) == t,
{
    text::lemma_first_where(t, text::non_space(), 0);
    assert(t.skip(0) =~= t);
    text::lemma_last_where(t, text::non_space(), t.len() as int);
    assert(t.take(t.len() as int) =~= t);
}

/// Whether a text was read as the number `n`, or refused where 64 bits do not
/// hold it.
pub open spec fn reads_as(r: Result<int, Seq<char>>, n: int) -> bool {
    if n <= u64::MAX {
        r == Ok::<int, Seq<char>>(n)
    } else {
        r is Err
    }
}

proof fn lemma_with_unit(n: nat, c: char)
    requires
        n <= u64::MAX,
        !text::is_space(c),
    ensures
        ({
            let t = text::decimal(n).push(c);
            &&& text::trim_of(t) == t
            &&& t.len() > 0
            &&& t.last() == c
            &&& text::unsigned_of(t.drop_last(), u64::MAX as nat) == Some(n)
        }),
{
    let d = text::decimal(n);
    let t = d.push(c);
    text::numbers_read_back(n, u64::MAX as nat);
    text::numbers_lack_other_characters(n, ' ');
    assert(t[0] == d[0] && text::is_digit(d[0]));
    lemma_not_trimmed(t);
    assert(t.drop_last() =~= d);
}

proof fn lemma_duration_with_unit(n: nat, c: char, unit: int)
    requires
        n <= u64::MAX,
        !text::is_space(c),
        duration_unit(c) == Some(unit),
    ensures
        reads_as(duration_of(text::decimal(n).push(c)), unit * n),
{
    lemma_with_unit(n, c);
    assert(n * unit == unit * n) by (nonlinear_arith);
}

proof fn lemma_size_with_unit(n: nat, c: char, unit: int)
    requires
        n <= u64::MAX,
        !text::is_space(c),
        size_unit(c) == Some(unit),
    ensures
        reads_as(size_of(text::decimal(n).push(c)), unit * n),
{
    lemma_with_unit(n, c);
    assert(n * unit == unit * n) by (nonlinear_arith);
}

/// A number with a unit is that many seconds: `s` stands for one, `m` for a
/// minute, `h` for an hour and `d` for a day. A duration that 64 bits do not hold
/// is an error. White space around it does not matter.
pub proof fn durations_count_seconds(n: nat, s: Seq<char>)
    requires
        n <= u64::MAX,
    ensures
        reads_as(duration_of(text::decimal(n).push('s')), n as int),
        reads_as(duration_of(text::decimal(n).push('m')), 60 * n as int),
        reads_as(duration_of(text::decimal(n).push('h')), 3600 * n as int),
        reads_as(duration_of(text::decimal(n).push('d')), 86400 * n as int),
        duration_of(text::decimal(n)) == Ok::<int, Seq<char>>(n as int),
        duration_of(text::trim_of(s)) == duration_of(s),
{
    lemma_duration_with_unit(n, 's', 1);
    lemma_duration_with_unit(n, 'm', 60);
    lemma_duration_with_unit(n, 'h', 3600);
    lemma_duration_with_unit(n, 'd', 86400);
    seconds_read_back(n);
    text::trimmed_text_is_trimmed(s);
}

/// A number with a unit is that many bytes: `K` stands for 1024, `M` for 1024
/// times as many and `G` for 1024 times as many again, in either case. A size
/// that 64 bits do not hold is an error. White space around it does not matter.
pub proof fn sizes_count_bytes(n: nat, s: Seq<char>)
    requires
        n <= u64::MAX,
    ensures
        reads_as(size_of(text::decimal(n).push('K')), 1024 * n as int),
        reads_as(size_of(text::decimal(n).push('k')), 1024 * n as int),
        reads_as(size_of(text::decimal(n).push('M')), 1048576 * n as int),
        reads_as(size_of(text::decimal(n).push('m')), 1048576 * n as int),
        reads_as(size_of(text::decimal(n).push('G')), 1073741824 * n as int),
        reads_as(size_of(text::decimal(n).push('g')), 1073741824 * n as int),
        size_of(text::decimal(n)) == Ok::<int, Seq<char>>(n as int),
        size_of(text::trim_of(s)) == size_of(s),
{
    lemma_size_with_unit(n, 'K', 1024);
    lemma_size_with_unit(n, 'k', 1024);
    lemma_size_with_unit(n, 'M', 1048576);
    lemma_size_with_unit(n, 'm', 1048576);
    lemma_size_with_unit(n, 'G', 1073741824);
    lemma_size_with_unit(n, 'g', 1073741824);
    text::numbers_read_back(n, u64::MAX as nat);
    lemma_digits_not_trimmed(text::decimal(n));
    assert(text::is_digit(text::decimal(n).last()));
    text::trimmed_text_is_trimmed(s);
}

/// Only a number, with or without a unit, is a duration or a size: every other
/// text is an error.
pub proof fn other_texts_are_no_durations(s: Seq<char>)
    ensures
        ({
            let t = text::trim_of(s);
            let number = |x: Seq<char>| text::unsigned_of(x, u64::MAX as nat) is Some;
            &&& duration_of(s) is Ok ==> t.len() > 0 && (number(t) && text::all_digits(t) || ((
            t.last() == 's' || t.last() == 'm' || t.last() == 'h' || t.last() == 'd') && number(
                t.drop_last(),
            )))
            &&& size_of(s) is Ok ==> t.len() > 0 && (number(t) && text::all_digits(t) || ((t.last()
                == 'K' || t.last() == 'k' || t.last() == 'M' || t.last() == 'm' || t.last() == 'G'
                || t.last() == 'g') && number(t.drop_last())))
        }),
{
}

// ---------------------------------------------------------------------------
// Assignments
// ---------------------------------------------------------------------------

/// Whether a text can name a variable.
pub open spec fn variable_name(k: Seq<char>) -> bool {
    &&& k.len() > 0
    &&& !('0' <= k[0] <= '9')
    &&& forall|i: int|
        0 <= i < k.len() ==> ('a' <= #[trigger] k[i] <= 'z' || 'A' <= k[i] <= 'Z' || '0' <= k[i]
            <= '9' || k[i] == '_')
}

/// A line that begins with a variable's name and `=` assigns what follows to it,
/// without white space around it and without a pair of quotation marks around it.
/// It adds that variable, and leaves the jobs and a waiting annotation alone.
pub proof fn assignments_read_back(
    p: Progress,
    k: Seq<char>,
    v: Seq<char>,
    raw: Seq<char>,
    lineno: int,
    system_mode: bool,
)
    requires
        variable_name(k),
        text::trim_of(raw) == k + seq!['='] + v,
    ensures
        after_line(p, raw, lineno, system_mode) matches Ok(q) && {
            let x = text::trim_of(v);
            &&& q.tab.jobs == p.tab.jobs
            &&& q.pending == p.pending
            &&& q.tab.env.drop_last() == p.tab.env
            &&& q.tab.env.len() == p.tab.env.len() + 1
            &&& q.tab.env.last().0 == k
            &&& x.len() < 2 || x[0] != '"' || x.last() != '"' ==> q.tab.env.last().1 == x
            &&& forall|inner: Seq<char>|
                x == #[trigger] (seq!['"'] + inner + seq!['"']) ==> q.tab.env.last().1 == inner
        },
{
    let line = k + seq!['='] + v;
    assert(text::lacks(k, '=')) by {
        assert forall|i: int| 0 <= i < k.len() implies #[trigger] k[i] != '=' by {}
    }
    text::cut_texts_read_back(k, '=', v);
    assert(!text::is_space(k[0]) && !text::is_space(k[k.len() - 1]));
    lemma_not_trimmed(k);
    assert(line[0] == k[0]);
    reveal_strlit("#[chrond]");
    assert("#[chrond]"@[0] == '#');
    if text::strip_prefix_of(line, "#[chrond]"@) is Some {
        assert(line.take("#[chrond]"@.len() as int)[0] == line[0]);
    }
    assert(env_line(line)) by {
        assert forall|i: int| 0 <= i < k.len() implies (text::is_alnum(#[trigger] k[i]) || k[i]
            == '_') by {}
    }
    let q = after_line(p, raw, lineno, system_mode)->Ok_0;
    assert(q.tab.env == p.tab.env.push(env_of(line)));
    assert(q.tab.env.drop_last() =~= p.tab.env);
    let x = text::trim_of(v);
    assert forall|inner: Seq<char>|
        x == #[trigger] (seq!['"'] + inner + seq!['"']) implies q.tab.env.last().1 == inner by {
        assert(x[0] == '"' && x.last() == '"');
        assert(x.subrange(1, x.len() - 1) =~= inner);
    }
}

/// A line is no assignment where there is no `=`, or where what stands before the
/// first one is no variable's name.
pub proof fn other_lines_assign_nothing(k: Seq<char>, v: Seq<char>)
    requires
        text::lacks(k, '='),
    ensures
        !env_line(k),
        env_line(k + seq!['='] + v) <==> variable_name(text::trim_of(k)),
{
    text::uncut_text_is_one_piece(k, '=');
    text::cut_texts_read_back(k, '=', v);
    let x = text::trim_of(k);
    if env_line(k + seq!['='] + v) {
        assert forall|i: int| 0 <= i < x.len() implies ('a' <= #[trigger] x[i] <= 'z' || 'A'
            <= x[i] <= 'Z' || '0' <= x[i] <= '9' || x[i] == '_') by {
            assert(text::is_alnum(x[i]) || x[i] == '_');
        }
    }
    if variable_name(x) {
        assert forall|i: int| 0 <= i < x.len() implies (text::is_alnum(#[trigger] x[i]) || x[i]
            == '_') by {}
    }
}

// ---------------------------------------------------------------------------
// Job lines
// ---------------------------------------------------------------------------

/// Whether the words of a text stand with one space between them, and nothing
/// before or behind them.
pub open spec fn evenly_spaced(s: Seq<char>) -> bool {
    &&& s.len() > 0 ==> !text::is_space(s[0]) && !text::is_space(s.last())
    &&& forall|i: int| 0 <= i < s.len() && text::is_space(#[trigger] s[i]) ==> s[i] == ' '
    &&& forall|i: int|
        0 < i < s.len() && text::is_space(#[trigger] s[i]) ==> !text::is_space(s[i - 1])
}

proof fn lemma_one_word(w: Seq<char>)
    requires
        w.len() > 0,
        forall|i: int| 0 <= i < w.len() ==> !text::is_space(#[trigger] w[i]),
    ensures
        text::words_of(w) == seq![w],
{
    let n = w.len() as int;
    text::lemma_first_where(w, text::non_space(), 0);
    assert(w.skip(0) =~= w);
    text::lemma_first_where(w, text::space(), n);
    assert(w.take(n) =~= w);
    let rest = w.skip(n);
    assert(rest.len() == 0);
    text::lemma_first_where_props(rest, text::non_space());
    assert(text::trim_start_of(rest).len() == 0);
    assert(text::words_of(rest) =~= seq![]);
    assert(text::words_of(w) =~= seq![w]);
}

/// What a column is: the first word, with what follows it.
proof fn lemma_column(s: Seq<char>)
    ensures
        match column_of(s) {
            Some(q) => {
                let (w, rest) = q;
                &&& w.len() > 0
                &&& forall|i: int| 0 <= i < w.len() ==> !text::is_space(#[trigger] w[i])
                &&& rest.len() > 0
                &&& rest.len() < s.len()
                &&& rest == s.skip(s.len() - rest.len())
                &&& text::words_of(s) == seq![w] + text::words_of(rest)
            },
            None => text::words_of(s).len() <= 1,
        },
{
    let i = text::first_where(s, text::non_space());
    text::lemma_first_where_props(s, text::non_space());
    let t = s.skip(i);
    let e = text::first_where(t, text::space());
    text::lemma_first_where_props(t, text::space());
    if t.len() > 0 {
        assert(t[0] == s[i]);
        assert(e > 0);
        if e < t.len() {
            let w = t.take(e);
            assert forall|k: int| 0 <= k < w.len() implies !text::is_space(#[trigger] w[k]) by {
                assert(w[k] == t[k]);
            }
            let rest = t.skip(e);
            assert(rest =~= s.skip(s.len() - rest.len()));
        } else {
            let rest = t.skip(e);
            assert(rest.len() == 0);
            text::lemma_first_where_props(rest, text::non_space());
            assert(text::trim_start_of(rest).len() == 0);
            assert(text::words_of(rest) =~= seq![]);
        }
    }
}

/// What a number of columns is: that many words, with what follows them.
proof fn lemma_columns(s: Seq<char>, n: nat)
    requires
        n > 0,
    ensures
        match columns_of(s, n) {
            Some(q) => {
                let (c, rest) = q;
                &&& c.len() > 0
                &&& evenly_spaced(c)
                &&& text::words_of(c).len() == n
                &&& 0 < rest.len() < s.len()
                &&& rest == s.skip(s.len() - rest.len())
                &&& text::words_of(s) == text::words_of(c) + text::words_of(rest)
            },
            None => text::words_of(s).len() <= n,
        },
    decreases n,
{
    if n == 1 {
        assert(columns_of(s, 0) == Some((Seq::<char>::empty(), s)));
        lemma_column(s);
        if column_of(s) is Some {
            lemma_one_word((column_of(s)->0).0);
        }
    } else {
        lemma_columns(s, (n - 1) as nat);
        if columns_of(s, (n - 1) as nat) is Some {
            let p = columns_of(s, (n - 1) as nat)->0;
            lemma_column(p.1);
            if column_of(p.1) is Some {
                let q = column_of(p.1)->0;
                let c = p.0 + seq![' '] + q.0;
                lemma_one_word(q.0);
                assert(c =~= p.0.push(' ') + q.0);
                text::words_of_joined_texts(p.0, ' ', q.0);
                assert(text::words_of(s) =~= text::words_of(c) + text::words_of(q.1));
                assert(q.1 =~= s.skip(s.len() - q.1.len()));
                assert(c.last() == q.0.last() && q.0.last() == q.0[q.0.len() - 1]);
                assert(c[0] == p.0[0]);
                let m = p.0.len() as int;
                assert(p.0.last() == p.0[m - 1]);
                assert forall|i: int|
                    0 <= i < c.len() && text::is_space(#[trigger] c[i]) implies c[i] == ' ' by {
                    if i > m {
                        assert(c[i] == q.0[i - m - 1]);
                    } else if i < m {
                        assert(c[i] == p.0[i]);
                    }
                }
                assert forall|i: int|
                    0 < i < c.len() && text::is_space(#[trigger] c[i]) implies !text::is_space(
                    c[i - 1],
                ) by {
                    if i > m {
                        assert(c[i] == q.0[i - m - 1]);
                    } else if i < m {
                        assert(c[i] == p.0[i]);
                        assert(c[i - 1] == p.0[i - 1]);
                    } else {
                        assert(c[i - 1] == p.0[m - 1]);
                    }
                }
            }
        }
    }
}

/// The end of a trimmed text, without white space before it, is itself an end of
/// that text.
proof fn lemma_trimmed_end(line: Seq<char>, rest: Seq<char>)
    requires
        text::trim_of(line) == line,
        rest.len() <= line.len(),
        rest == line.skip(line.len() - rest.len()),
    ensures
        ({
            let c = text::trim_of(rest);
            c.len() <= line.len() && c == line.skip(line.len() - c.len())
        }),
{
    let t = text::trim_start_of(line);
    text::lemma_first_where_props(line, text::non_space());
    text::lemma_last_where_props(t, text::non_space());
    assert(t.len() == line.len());
    assert(t =~= line);
    let i = text::first_where(rest, text::non_space());
    text::lemma_first_where_props(rest, text::non_space());
    let u = rest.skip(i);
    assert(u =~= line.skip(line.len() - u.len()));
    let n = u.len() as int;
    if n > 0 {
        assert(line[line.len() - 1] == u[n - 1]);
    }
    text::lemma_last_where(u, text::non_space(), n);
    assert(u.take(n) =~= u);
}

/// A job line is cut behind its schedule: the schedule is its first five words,
/// or the first one where the line begins with `@`, with one space between them;
/// in a system crontab the next word is the user; and the command is the rest of
/// the line as it stands. A line with too few words is an error, and no other is.
pub proof fn job_lines_are_cut_behind_the_schedule(line: Seq<char>, system_mode: bool)
    requires
        text::trim_of(line) == line,
        line.len() > 0,
    ensures
        ({
            let words = text::words_of(line);
            let n: int = if line[0] == '@' {
                1
            } else {
                5
            };
            match job_line_of(line, system_mode) {
                Ok(parts) => {
                    let (schedule, user, command) = parts;
                    &&& evenly_spaced(schedule)
                    &&& text::words_of(schedule) == words.take(n)
                    &&& user == if system_mode {
                        Some(words[n])
                    } else {
                        None
                    }
                    &&& text::words_of(command) == words.skip(if system_mode {
                        n + 1
                    } else {
                        n
                    })
                    &&& 0 < command.len() < line.len()
                    &&& command == line.skip(line.len() - command.len())
                },
                Err(_) => words.len() <= if system_mode {
                    n + 1
                } else {
                    n
                },
            }
        }),
{
    let words = text::words_of(line);
    let n: nat = if line[0] == '@' {
        1
    } else {
        5
    };
    lemma_columns(line, n);
    if columns_of(line, n) is Some {
        let p = columns_of(line, n)->0;
        let a = text::words_of(p.0);
        let b = text::words_of(p.1);
        assert(words.take(n as int) =~= a);
        assert(words.skip(n as int) =~= b);
        if system_mode {
            lemma_column(p.1);
            if column_of(p.1) is Some {
                let q = column_of(p.1)->0;
                assert(words[n as int] == b[0]);
                assert(words.skip(n as int + 1) =~= text::words_of(q.1));
                assert(q.1 =~= line.skip(line.len() - q.1.len()));
                lemma_command(line, q.1);
            }
        } else {
            lemma_command(line, p.1);
        }
    }
}

proof fn lemma_command(line: Seq<char>, rest: Seq<char>)
    requires
        text::trim_of(line) == line,
        rest.len() < line.len(),
        rest == line.skip(line.len() - rest.len()),
    ensures
        ({
            let c = text::trim_of(rest);
            &&& text::words_of(c) == text::words_of(rest)
            &&& c.len() < line.len()
            &&& c == line.skip(line.len() - c.len())
            &&& c.len() == 0 ==> text::words_of(rest).len() == 0
        }),
{
    text::words_of_trimmed_text(rest);
    lemma_trimmed_end(line, rest);
    text::first_word_of_trimmed_text(rest);
    text::lemma_first_where_props(rest, text::non_space());
    text::lemma_last_where_props(text::trim_start_of(rest), text::non_space());
}

/// A job without a name is named after its program: the first word of the command
/// without the directories before it, and the number of the job.
pub proof fn default_names_name_the_program(
    command: Seq<char>,
    dirs: Seq<char>,
    program: Seq<char>,
    index: nat,
)
    requires
        text::words_of(command).len() > 0,
        text::words_of(command)[0] == dirs + program,
        dirs.len() > 0 ==> dirs.last() == '/',
        valid_name(program),
    ensures
        default_name_of(command, index) == program + "-"@ + text::decimal(index),
{
    let w = dirs + program;
    let n = dirs.len() as int;
    assert forall|j: int| n <= j < w.len() implies !text::is_char('/')(#[trigger] w[j]) by {
        assert(w[j] == program[j - n]);
        assert(name_char(program[j - n]));
    }
    if n > 0 {
        assert(w[n - 1] == dirs.last());
    }
    text::lemma_last_where(w, text::is_char('/'), n);
    assert(w.skip(n) =~= program);
    lemma_name_chars_kept(program);
}

proof fn lemma_name_chars_kept(s: Seq<char>)
    requires
        forall|i: int| 0 <= i < s.len() ==> name_char(#[trigger] s[i]),
    ensures
        name_chars_of(s) == s,
    decreases s.len(),
{
    if s.len() > 0 {
        assert(s.last() == s[s.len() - 1]);
        lemma_name_chars_kept(s.drop_last());
        assert(name_chars_of(s) =~= s);
    }
}

/// Characters that a name cannot have are left out of a default name, wherever
/// they stand, and the others are kept in their order.
pub proof fn default_names_leave_characters_out(a: Seq<char>, c: char, b: Seq<char>)
    ensures
        name_chars_of(a + b) == name_chars_of(a) + name_chars_of(b),
        name_chars_of(seq![c]) == (if 'a' <= c <= 'z' || 'A' <= c <= 'Z' || '0' <= c <= '9' || c
            == '.' || c == '_' || c == '-' {
            seq![c]
        } else {
            seq![]
        }),
    decreases b.len(),
{
    assert(seq![c].drop_last() =~= seq![]);
    assert(seq![c].last() == c);
    reveal_with_fuel(name_chars_of, 2);
    assert(Seq::<char>::empty().push(c) =~= seq![c]);
    if b.len() == 0 {
        assert(a + b =~= a);
        assert(name_chars_of(a) + name_chars_of(b) =~= name_chars_of(a));
    } else {
        default_names_leave_characters_out(a, c, b.drop_last());
        assert((a + b).drop_last() =~= a + b.drop_last());
        assert((a + b).last() == b.last());
        assert(name_chars_of(a + b) =~= name_chars_of(a) + name_chars_of(b));
    }
}

/// The lines are read in turn, from an empty crontab on: what a crontab says is
/// what its lines but the last say, with what the last line adds.
pub proof fn lines_are_read_in_turn(lines: Seq<Seq<char>>, last: Seq<char>, system_mode: bool)
    ensures
        after_lines(seq![], system_mode) == Ok::<Progress, (int, Seq<char>)>(
            Progress { tab: CrontabView { env: seq![], jobs: seq![] }, pending: None },
        ),
        after_lines(lines, system_mode) is Err ==> after_lines(lines.push(last), system_mode)
            == after_lines(lines, system_mode),
        after_lines(lines, system_mode) matches Ok(p) ==> match after_line(
            p,
            last,
            lines.len() as int + 1,
            system_mode,
        ) {
            Ok(q) => after_lines(lines.push(last), system_mode) == Ok::<
                Progress,
                (int, Seq<char>),
            >(q),
            Err(e) => after_lines(lines.push(last), system_mode) == Err::<
                Progress,
                (int, Seq<char>),
            >((lines.len() as int + 1, e)),
        },
{
    assert(lines.push(last).drop_last() =~= lines);
    assert(lines.push(last).last() == last);
}

/// A text that is no duration or size is named by the message, without the white
/// space around it; an empty one is told apart.
pub proof fn bad_durations_and_sizes_are_named(s: Seq<char>)
    ensures
        ({
            let t = text::trim_of(s);
            &&& duration_of(s) matches Err(e) ==> if t.len() == 0 {
                e == "empty duration"@
            } else {
                e == "invalid duration '"@ + t + "'"@ || e == "invalid duration '"@ + t
                    + "' (use e.g. 30s, 5m, 2h, 1d)"@
            }
            &&& size_of(s) matches Err(e) ==> if t.len() == 0 {
                e == "empty size"@
            } else {
                e == "invalid size '"@ + t + "'"@ || e == "invalid size '"@ + t
                    + "' (use e.g. 512K, 1M)"@
            }
        }),
{
}

/// Why a job line is refused: for want of a command behind the schedule, or
/// behind the user of a system crontab; for its schedule; or for a name that an
/// earlier job has.
pub proof fn refused_jobs_are_explained(
    jobs: Seq<JobView>,
    pending: Option<AnnotationView>,
    line: Seq<char>,
    lineno: int,
    system_mode: bool,
)
    requires
        text::trim_of(line) == line,
        line.len() > 0,
    ensures
        new_job_of(jobs, pending, line, lineno, system_mode) matches Err(e) ==> {
            let n: int = if line[0] == '@' {
                1
            } else {
                5
            };
            let words = text::words_of(line);
            if words.len() <= n {
                e == "missing command after schedule"@
            } else if system_mode && words.len() == n + 1 {
                e == "missing command after user column (system crontab)"@
            } else {
                let parts = job_line_of(line, system_mode)->Ok_0;
                match cronexpr::schedule_of(parts.0) {
                    Err(why) => e == "invalid cron expression: "@ + why,
                    Ok(_) => exists|i: int|
                        0 <= i < jobs.len() && e == "duplicate job name '"@
                            + (#[trigger] jobs[i]).name
                            + "' (set a unique name= annotation)"@,
                }
            }
        },
{
    let n: nat = if line[0] == '@' {
        1
    } else {
        5
    };
    let words = text::words_of(line);
    job_lines_are_cut_behind_the_schedule(line, system_mode);
    lemma_columns(line, n);
    lemma_ends_in_word(line);
    if columns_of(line, n) is Some {
        let p = columns_of(line, n)->0;
        lemma_rest_has_words(line, p.1);
        if system_mode {
            lemma_column(p.1);
            if column_of(p.1) is Some {
                let q = column_of(p.1)->0;
                assert(q.1 =~= line.skip(line.len() - q.1.len()));
                lemma_rest_has_words(line, q.1);
            }
        }
    }
}

/// A trimmed text ends in a character that is no white space.
proof fn lemma_ends_in_word(line: Seq<char>)
    requires
        text::trim_of(line) == line,
        line.len() > 0,
    ensures
        !text::is_space(line.last()),
{
    let t = text::trim_start_of(line);
    text::lemma_first_where_props(line, text::non_space());
    text::lemma_last_where_props(t, text::non_space());
    assert(t.len() == line.len());
    assert(t =~= line);
}

/// What is left of a trimmed text has a word.
proof fn lemma_rest_has_words(line: Seq<char>, rest: Seq<char>)
    requires
        line.len() > 0,
        !text::is_space(line.last()),
        0 < rest.len() <= line.len(),
        rest == line.skip(line.len() - rest.len()),
    ensures
        text::words_of(rest).len() > 0,
        text::trim_of(rest).len() > 0,
{
    assert(rest.last() == line.last());
    text::lemma_first_where_props(rest, text::non_space());
    let i = text::first_where(rest, text::non_space());
    assert(i < rest.len()) by {
        if i >= rest.len() {
            assert(!text::non_space()(rest[rest.len() - 1]));
        }
    }
    let t = rest.skip(i);
    text::lemma_last_where_props(t, text::non_space());
    assert(t[0] == rest[i]);
    assert(text::last_where(t, text::non_space()) > 0) by {
        if text::last_where(t, text::non_space()) <= 0 {
            assert(!text::non_space()(t[0]));
        }
    }
    text::first_word_of_trimmed_text(rest);
}

/// Every line that is not blank, no comment, no annotation and no assignment is a
/// job: where it is accepted it adds that job behind the others and uses up the
/// waiting annotation, and else it makes the crontab an error. A line that begins
/// with `@` is a job even where it holds an assignment.
pub proof fn every_other_line_is_a_job(
    p: Progress,
    raw: Seq<char>,
    lineno: int,
    system_mode: bool,
)
    requires
        ({
            let line = text::trim_of(raw);
            line.len() > 0 && line[0] != '#' && (line[0] == '@' || !env_line(line))
        }),
    ensures
        match new_job_of(p.tab.jobs, p.pending, text::trim_of(raw), lineno, system_mode) {
            Ok(j) => after_line(p, raw, lineno, system_mode) == Ok::<Progress, Seq<char>>(
                Progress {
                    tab: CrontabView { env: p.tab.env, jobs: p.tab.jobs.push(j) },
                    pending: None,
                },
            ),
            Err(e) => after_line(p, raw, lineno, system_mode) == Err::<Progress, Seq<char>>(e),
        },
{
    let line = text::trim_of(raw);
    reveal_strlit("#[chrond]");
    assert("#[chrond]"@[0] == '#');
    if text::strip_prefix_of(line, "#[chrond]"@) is Some {
        assert(line.take("#[chrond]"@.len() as int)[0] == line[0]);
    }
}

/// A crontab says what its lines say, and an annotation that waits at its end is
/// forgotten.
pub proof fn a_crontab_is_its_lines(content: Seq<char>, system_mode: bool)
    ensures
        match after_lines(text::lines_of(content), system_mode) {
            Ok(p) => crontab_of(content, system_mode) == Ok::<CrontabView, (int, Seq<char>)>(p.tab),
            Err(e) => crontab_of(content, system_mode) == Err::<CrontabView, (int, Seq<char>)>(e),
        },
{
}

} // verus!
