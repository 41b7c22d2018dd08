//! The size-capped, truncate-on-overflow line log.
//!
//! [`LogBuffer`] models the log file's byte content exactly: appending a line
//! that would push the content past [`LOG_CAP`] first discards all prior
//! content, and a tail read returns the last bytes decoded as text.  The
//! planning functions ([`plan_append`], [`tail_seek`], [`tail_request`]) make
//! the same decisions over a bare file length, for callers that keep the
//! content on disk rather than in memory.

use vstd::prelude::*;
use vstd::string::StringSliceAdditionalSpecFns;
use vstd::utf8::valid_utf8;
use vstd::utf8::decode_utf8;

verus! {

/// Hard cap on the log content in bytes (5 MiB).
pub const LOG_CAP: u64 = 5 * 1024 * 1024;

/// Bytes a tail read returns at most when the caller gives no limit (512 KiB).
pub const DEFAULT_TAIL_BYTES: u64 = 512 * 1024;

/// The line terminator written after every appended line.
pub const NEWLINE_BYTE: u8 = 10;

/// Whether writing a line of `line_len` bytes (plus its newline) after
/// `cur_len` bytes of content would exceed the cap.
pub open spec fn overflows_cap(cur_len: nat, line_len: nat) -> bool {
    cur_len + line_len + 1 > LOG_CAP
}

/// The log content after appending `line`: the old content followed by the
/// line and a newline, except that content which would overflow the cap is
/// discarded first, so only the new line remains.
pub open spec fn appended_content(content: Seq<u8>, line: Seq<u8>) -> Seq<u8> {
    if overflows_cap(content.len(), line.len()) {
        line.push(NEWLINE_BYTE)
    } else {
        content + line.push(NEWLINE_BYTE)
    }
}

/// How many bytes a tail read of `max_bytes` returns from content of
/// `content_len` bytes: the request is capped at [`LOG_CAP`], then at the
/// content length.
pub open spec fn tail_take(content_len: nat, max_bytes: nat) -> nat {
    let capped = if max_bytes > LOG_CAP { LOG_CAP as nat } else { max_bytes };
    if capped > content_len {
        content_len
    } else {
        capped
    }
}

/// The bytes a tail read of `max_bytes` returns: exactly the last
/// `tail_take(..)` bytes of the content.
pub open spec fn tail_bytes(content: Seq<u8>, max_bytes: nat) -> Seq<u8> {
    content.skip(content.len() - tail_take(content.len(), max_bytes))
}

/// The effective byte limit of a tail read request: the caller's value, or
/// [`DEFAULT_TAIL_BYTES`] when absent, capped at [`LOG_CAP`].
pub open spec fn tail_request_spec(requested: Option<u64>) -> u64 {
    let r = match requested {
        Option::Some(n) => n,
        Option::None => DEFAULT_TAIL_BYTES,
    };
    if r > LOG_CAP {
        LOG_CAP
    } else {
        r
    }
}

/// The text that `bytes` decode to, with invalid sequences replaced; named by
/// [`decode_lossy`] below, which performs the decoding.
pub uninterp spec fn lossy_text(bytes: Seq<u8>) -> Seq<char>;

/// Relies on `String::from_utf8_lossy`: the result is a function of the bytes
/// alone, and valid UTF-8 input is decoded unchanged.
#[verifier::external_body]
fn decode_lossy(bytes: &[u8]) -> (r: String)
    ensures
        r@ == lossy_text(bytes@),
        valid_utf8(bytes@) ==> r@ == decode_utf8(bytes@),
{
    String::from_utf8_lossy(bytes).into_owned()
}

/// Whether appending a line of `line_byte_len` bytes to a file of `cur_len`
/// bytes must first truncate the file to empty.
pub fn plan_append(cur_len: u64, line_byte_len: u64) -> (truncate: bool)
    ensures
        truncate == overflows_cap(cur_len as nat, line_byte_len as nat),
{
    cur_len as u128 + line_byte_len as u128 + 1 > LOG_CAP as u128
}

/// The offset a tail read of `max_bytes` seeks to in a file of `file_len`
/// bytes; everything from there to the end is returned.
pub fn tail_seek(file_len: u64, max_bytes: u64) -> (start: u64)
    ensures
        start as nat == file_len as nat - tail_take(file_len as nat, max_bytes as nat),
{
    let capped: u64 = if max_bytes > LOG_CAP {
        LOG_CAP
    } else {
        max_bytes
    };
    if capped > file_len {
        0
    } else {
        file_len - capped
    }
}

/// The effective byte limit of a tail read request.
pub fn tail_request(requested: Option<u64>) -> (r: u64)
    ensures
        r == tail_request_spec(requested),
{
    let n = match requested {
        Option::Some(n) => n,
        Option::None => DEFAULT_TAIL_BYTES,
    };
    if n > LOG_CAP {
        LOG_CAP
    } else {
        n
    }
}

/// Severity of a log line.
#[derive(Clone, Copy, Debug, PartialEq, Eq, Structural)]
pub enum LogLevel {
    Info,
    Warn,
    Error,
}

/// The label a level renders as between the brackets of a log line.
pub open spec fn level_text(level: LogLevel) -> Seq<char> {
    match level {
        LogLevel::Info => seq!['I', 'N', 'F', 'O'],
        LogLevel::Warn => seq!['W', 'A', 'R', 'N'],
        LogLevel::Error => seq!['E', 'R', 'R', 'O', 'R'],
    }
}

/// The label of `level`.
pub fn level_label(level: LogLevel) -> (r: &'static str)
    ensures
        r@ == level_text(level),
{
    proof {
        reveal_strlit("INFO");
        reveal_strlit("WARN");
        reveal_strlit("ERROR");
    }
    let r = match level {
        LogLevel::Info => "INFO",
        LogLevel::Warn => "WARN",
        LogLevel::Error => "ERROR",
    };
    proof {
        assert(r@ =~= level_text(level));
    }
    r
}

/// One serialized log line (without its newline): the timestamp in decimal,
/// the bracketed label, and the message.
pub open spec fn log_line_text(timestamp_ms: nat, label: Seq<char>, message: Seq<char>) -> Seq<
    char,
> {
    crate::decimal::dec_rep(timestamp_ms) + seq![' ', '['] + label + seq![']', ' '] + message
}

/// Renders the log line `"<timestamp_ms> [<label>] <message>"`.
pub fn format_line(timestamp_ms: u64, label: &str, message: &str) -> (r: String)
    ensures
        r@ == log_line_text(timestamp_ms as nat, label@, message@),
{
    let mut s = crate::decimal::u64_to_dec(timestamp_ms);
    s.append(" [");
    s.append(label);
    s.append("] ");
    s.append(message);
    proof {
        reveal_strlit(" [");
        reveal_strlit("] ");
        assert(s@ =~= log_line_text(timestamp_ms as nat, label@, message@));
    }
    s
}

/// The label of a line the host's web layer injects: `WEB:` followed by the
/// level string the web layer supplied.
pub open spec fn web_label_text(level: Seq<char>) -> Seq<char> {
    seq!['W', 'E', 'B', ':'] + level
}

/// Renders the label of a web-injected line.
pub fn web_label(level: &str) -> (r: String)
    ensures
        r@ == web_label_text(level@),
{
    let mut s = String::from_str("WEB:");
    s.append(level);
    proof {
        reveal_strlit("WEB:");
        assert(s@ =~= web_label_text(level@));
    }
    s
}

/// The log content, as the byte sequence the file would hold.
pub struct LogBuffer {
    data: Vec<u8>,
}

impl View for LogBuffer {
    type V = Seq<u8>;

    closed spec fn view(&self) -> Seq<u8> {
        self.data@
    }
}

impl LogBuffer {
    /// An empty log.
    pub fn new() -> (r: Self)
        ensures
            r@ == Seq::<u8>::empty(),
    {
        LogBuffer { data: Vec::new() }
    }

    /// A log holding `data`, as read back from a prior run.
    pub fn from_bytes(data: Vec<u8>) -> (r: Self)
        ensures
            r@ == data@,
    {
        LogBuffer { data }
    }

    /// Current content length in bytes.
    pub fn len(&self) -> (n: usize)
        ensures
            n == self@.len(),
    {
        self.data.len()
    }

    /// The content bytes.
    pub fn bytes(&self) -> (r: &Vec<u8>)
        ensures
            r@ == self@,
    {
        &self.data
    }

    /// Appends `line` and a newline, discarding all prior content first when
    /// the line would push the content past [`LOG_CAP`].
    pub fn append_line(&mut self, line: &str)
        ensures
            final(self)@ == appended_content(old(self)@, line.spec_bytes()),
    {
        let line_bytes: &[u8] = line.as_bytes();
        if self.data.len() as u128 + line_bytes.len() as u128 + 1 > LOG_CAP as u128 {
            self.data.clear();
        }
        self.data.extend_from_slice(line_bytes);
        self.data.push(NEWLINE_BYTE);
        proof {
            assert(final(self)@ =~= appended_content(old(self)@, line.spec_bytes()));
        }
    }

    /// Returns the last `max_bytes` bytes (capped at [`LOG_CAP`], then at the
    /// content length) decoded as text, with invalid sequences replaced.
    pub fn read_tail(&self, max_bytes: u64) -> (r: String)
        ensures
            r@ == lossy_text(tail_bytes(self@, max_bytes as nat)),
            valid_utf8(tail_bytes(self@, max_bytes as nat)) ==> r@ == decode_utf8(
                tail_bytes(self@, max_bytes as nat),
            ),
    {
        let capped: u64 = if max_bytes > LOG_CAP {
            LOG_CAP
        } else {
            max_bytes
        };
        let len: usize = self.data.len();
        let take: usize = if capped as u128 > len as u128 {
            len
        } else {
            capped as usize
        };
        let start: usize = len - take;
        let slice = vstd::slice::slice_subrange(self.data.as_slice(), start, len);
        proof {
            assert(slice@ =~= tail_bytes(self@, max_bytes as nat));
        }
        decode_lossy(slice)
    }

    /// Formats and appends one leveled, timestamped line.
    pub fn append_entry(&mut self, timestamp_ms: u64, level: LogLevel, message: &str)
        ensures
            final(self)@ == appended_content(
                old(self)@,
                vstd::utf8::encode_utf8(
                    log_line_text(timestamp_ms as nat, level_text(level), message@),
                ),
            ),
    {
        let line = format_line(timestamp_ms, level_label(level), message);
        self.append_line(line.as_str());
    }

    /// Appends one informational line.
    pub fn log_info(&mut self, timestamp_ms: u64, message: &str)
        ensures
            final(self)@ == appended_content(
                old(self)@,
                vstd::utf8::encode_utf8(
                    log_line_text(timestamp_ms as nat, level_text(LogLevel::Info), message@),
                ),
            ),
    {
        self.append_entry(timestamp_ms, LogLevel::Info, message)
    }

    /// Appends one warning line.
    pub fn log_warn(&mut self, timestamp_ms: u64, message: &str)
        ensures
            final(self)@ == appended_content(
                old(self)@,
                vstd::utf8::encode_utf8(
                    log_line_text(timestamp_ms as nat, level_text(LogLevel::Warn), message@),
                ),
            ),
    {
        self.append_entry(timestamp_ms, LogLevel::Warn, message)
    }

    /// Appends one error line.
    pub fn log_error(&mut self, timestamp_ms: u64, message: &str)
        ensures
            final(self)@ == appended_content(
                old(self)@,
                vstd::utf8::encode_utf8(
                    log_line_text(timestamp_ms as nat, level_text(LogLevel::Error), message@),
                ),
            ),
    {
        self.append_entry(timestamp_ms, LogLevel::Error, message)
    }

    /// Appends one line injected by the host's web layer, labelled
    /// `WEB:<level>`.
    pub fn append_web_log(&mut self, timestamp_ms: u64, level: &str, message: &str)
        ensures
            final(self)@ == appended_content(
                old(self)@,
                vstd::utf8::encode_utf8(
                    log_line_text(timestamp_ms as nat, web_label_text(level@), message@),
                ),
            ),
    {
        let label = web_label(level);
        let line = format_line(timestamp_ms, label.as_str(), message);
        self.append_line(line.as_str());
    }

    /// The tail read behind the host's log-read command: applies the default
    /// and the cap to the caller's optional limit, then reads the tail.
    pub fn read_log(&self, max_bytes: Option<u64>) -> (r: String)
        ensures
            r@ == lossy_text(tail_bytes(self@, tail_request_spec(max_bytes) as nat)),
    {
        let limit = tail_request(max_bytes);
        self.read_tail(limit)
    }
}

} // verus!
