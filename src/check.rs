use vstd::prelude::*;
use vstd::string::StrSliceExecFns;

verus! {

/// std's I/O error, carried through the results of a check.
#[verifier::external_type_specification]
#[verifier::external_body]
pub struct ExIoError(std::io::Error);

/// The regex crate's compiled expression, held by a [`Matcher`].
#[verifier::external_type_specification]
#[verifier::external_body]
pub struct ExRegex(regex::Regex);

/// The regex crate's error for a pattern that does not compile.
#[verifier::external_type_specification]
#[verifier::external_body]
pub struct ExRegexError(regex::Error);

/// An interestingness check: a probe run on a candidate program text.
pub trait Check {
    type State;

    /// Start the probe on `stdin`.
    fn start(&self, stdin: &[u8]) -> std::io::Result<Self::State>;

    /// Stop the probe and release what it holds.
    fn cancel(&self, state: Self::State) -> std::io::Result<()>;

    /// The verdict, if the probe has finished.
    fn try_wait(&self, state: &mut Self::State) -> std::io::Result<Option<bool>>;

    /// Wait for the probe's verdict.
    fn wait(&self, state: Self::State) -> std::io::Result<bool>;

    /// Run the probe on `stdin` and wait for its verdict.
    fn interesting(&self, stdin: &[u8]) -> std::io::Result<bool> {
        match self.start(stdin) {
            Ok(state) => self.wait(state),
            Err(e) => Err(e),
        }
    }
}

/// Whether `pattern` matches somewhere in `text`, by the rules of the regex
/// crate.
pub uninterp spec fn pattern_matches(pattern: Seq<char>, text: Seq<char>) -> bool;

/// The text that `bytes` decode to as UTF-8, with each invalid sequence
/// replaced by U+FFFD.
pub uninterp spec fn lossy_text(bytes: Seq<u8>) -> Seq<char>;

/// A compiled regular expression, with the pattern it was compiled from.
#[derive(Debug)]
pub struct Matcher {
    pattern: String,
    regex: regex::Regex,
}

/// Whether the regex crate accepts `pattern` (with its default settings).
pub uninterp spec fn compiles(pattern: Seq<char>) -> bool;

/// Relies on regex::Regex::new, which compiles a pattern or reports why it
/// cannot; whether it succeeds depends on the pattern alone.
#[verifier::external_body]
fn compile(pattern: &str) -> (r: Result<regex::Regex, regex::Error>)
    ensures
        r is Ok <==> compiles(pattern@),
{
    regex::Regex::new(pattern)
}

/// Relies on regex::Regex::is_match: whether the compiled pattern matches
/// somewhere in `text`. A [`Matcher`]'s regex is always compiled from its
/// pattern, so the result is that of the pattern.
#[verifier::external_body]
fn regex_is_match(m: &Matcher, text: &str) -> (r: bool)
    ensures
        r == pattern_matches(m.pattern@, text@),
{
    m.regex.is_match(text)
}

/// Relies on String::from_utf8_lossy, which decodes UTF-8 and replaces each
/// invalid sequence; the result depends on the bytes alone.
#[verifier::external_body]
fn decode_lossy(bytes: &[u8]) -> (r: String)
    ensures
        r@ == lossy_text(bytes@),
{
    String::from_utf8_lossy(bytes).into_owned()
}

impl Matcher {
    pub closed spec fn pattern(&self) -> Seq<char> {
        self.pattern@
    }

    pub fn new(pattern: &str) -> (r: Result<Matcher, regex::Error>)
        ensures
            r is Ok <==> compiles(pattern@),
            r matches Ok(m) ==> m.pattern() == pattern@,
    {
        match compile(pattern) {
            Ok(regex) => Ok(Matcher { pattern: pattern.to_owned(), regex }),
            Err(e) => Err(e),
        }
    }

    pub fn is_match(&self, text: &str) -> (r: bool)
        ensures
            r == pattern_matches(self.pattern(), text@),
    {
        regex_is_match(self, text)
    }

    pub fn as_str(&self) -> (r: &str)
        ensures
            r@ == self.pattern(),
    {
        self.pattern.as_str()
    }
}

/// The pattern, if any, matches the text.
pub open spec fn opt_matches(p: Option<Seq<char>>, text: Seq<char>) -> bool {
    match p {
        Some(pattern) => pattern_matches(pattern, text),
        None => false,
    }
}

/// The rules that decide whether a finished probe found its input
/// interesting.
#[derive(Debug)]
pub struct Verdict {
    pub exit_codes: Vec<i32>,
    pub interesting_stdout: Option<Matcher>,
    pub interesting_stderr: Option<Matcher>,
    pub uninteresting_stdout: Option<Matcher>,
    pub uninteresting_stderr: Option<Matcher>,
}

pub open spec fn opt_pattern(m: Option<Matcher>) -> Option<Seq<char>> {
    match m {
        Some(m) => Some(m.pattern()),
        None => None,
    }
}

fn opt_is_match(m: &Option<Matcher>, text: &str) -> (r: bool)
    ensures
        r == opt_matches(opt_pattern(*m), text@),
{
    match m {
        Some(m) => m.is_match(text),
        None => false,
    }
}

impl Verdict {
    /// The probe's exit status is one of the interesting codes, or an
    /// interesting pattern matches its output; and no uninteresting pattern
    /// matches it.
    pub open spec fn judges(&self, code: Option<i32>, stdout: Seq<char>, stderr: Seq<char>) -> bool {
        &&& ({
            ||| (code matches Some(c) && self.exit_codes@.contains(c))
            ||| opt_matches(opt_pattern(self.interesting_stdout), stdout)
            ||| opt_matches(opt_pattern(self.interesting_stderr), stderr)
        })
        &&& !opt_matches(opt_pattern(self.uninteresting_stdout), stdout)
        &&& !opt_matches(opt_pattern(self.uninteresting_stderr), stderr)
    }

    /// The verdict on a probe that ended with `code` and printed the texts
    /// `stdout` and `stderr`.
    pub fn judge_text(&self, code: Option<i32>, stdout: &str, stderr: &str) -> (r: bool)
        ensures
            r == self.judges(code, stdout@, stderr@),
    {
        let mut code_ok = false;
        if let Some(c) = code {
            let mut i: usize = 0;
            while i < self.exit_codes.len()
                invariant
                    i <= self.exit_codes@.len(),
                    code_ok == (exists|j: int| 0 <= j < i && self.exit_codes@[j] == c),
                decreases self.exit_codes@.len() - i,
            {
                if self.exit_codes[i] == c {
                    code_ok = true;
                }
                i = i + 1;
            }
        }
        let hit = code_ok || opt_is_match(&self.interesting_stdout, stdout) || opt_is_match(
            &self.interesting_stderr,
            stderr,
        );
        hit && !opt_is_match(&self.uninteresting_stdout, stdout) && !opt_is_match(
            &self.uninteresting_stderr,
            stderr,
        )
    }

    /// The verdict on a probe that ended with `code` and printed the bytes
    /// `stdout` and `stderr`, read as UTF-8.
    pub fn judge(&self, code: Option<i32>, stdout: &[u8], stderr: &[u8]) -> (r: bool)
        ensures
            r == self.judges(code, lossy_text(stdout@), lossy_text(stderr@)),
    {
        let out = decode_lossy(stdout);
        let err = decode_lossy(stderr);
        self.judge_text(code, out.as_str(), err.as_str())
    }
}

/// The exit code that a probe's status counts as: its own exit code, or
/// `128 + n` when it was ended by signal `n`.
pub fn exit_code_of(code: Option<i32>, signal: Option<i32>) -> (r: Option<i32>)
    ensures
        r == match code {
            Some(c) => Some(c),
            None => match signal {
                Some(n) => if n + 128 <= i32::MAX {
                    Some((n + 128) as i32)
                } else {
                    None
                },
                None => None,
            },
        },
{
    match code {
        Some(c) => Some(c),
        None => match signal {
            Some(n) => if n <= i32::MAX - 128 {
                Some(n + 128)
            } else {
                None
            },
            None => None,
        },
    }
}

/// The argument is a placeholder for the candidate's file: it starts with
/// `@@`.
pub open spec fn marker(s: Seq<char>) -> bool {
    s.len() >= 2 && s[0] == '@' && s[1] == '@'
}

pub fn is_marker(s: &str) -> (r: bool)
    ensures
        r == marker(s@),
{
    let n = s.unicode_len();
    n >= 2 && s.get_char(0) == '@' && s.get_char(1) == '@'
}

/// The suffix that a placeholder asks the candidate's file name to end with:
/// what follows `@@`.
pub fn marker_suffix(s: &str) -> (r: &str)
    requires
        marker(s@),
    ensures
        r@ == s@.subrange(2, s@.len() as int),
{
    let n = s.unicode_len();
    s.substring_char(2, n)
}

/// Some argument is a placeholder.
pub fn needs_file(args: &Vec<String>) -> (r: bool)
    ensures
        r == exists|i: int| 0 <= i < args@.len() && marker(#[trigger] args@[i]@),
{
    let mut i: usize = 0;
    while i < args.len()
        invariant
            i <= args@.len(),
            forall|j: int| 0 <= j < i ==> !marker(#[trigger] args@[j]@),
        decreases args@.len() - i,
    {
        if is_marker(args[i].as_str()) {
            return true;
        }
        i = i + 1;
    }
    false
}

/// The arguments with each placeholder replaced by `path`.
pub fn substitute_markers(args: &Vec<String>, path: &str) -> (r: Vec<String>)
    ensures
        r@.len() == args@.len(),
        forall|i: int|
            0 <= i < args@.len() ==> #[trigger] r@[i]@ == if marker(args@[i]@) {
                path@
            } else {
                args@[i]@
            },
{
    let mut r: Vec<String> = Vec::new();
    let mut i: usize = 0;
    while i < args.len()
        invariant
            i <= args@.len(),
            r@.len() == i,
            forall|j: int|
                0 <= j < i ==> #[trigger] r@[j]@ == if marker(args@[j]@) {
                    path@
                } else {
                    args@[j]@
                },
        decreases args@.len() - i,
    {
        if is_marker(args[i].as_str()) {
            r.push(path.to_owned());
        } else {
            r.push(args[i].clone());
        }
        i = i + 1;
    }
    r
}

/// What a probe's output stream is connected to.
#[derive(Clone, Copy, Debug, PartialEq, Eq, Structural)]
pub enum StreamMode {
    Inherit,
    Piped,
    Null,
}

/// A stream is inherited when asked for; else piped only when a pattern
/// must read it, so that an unread pipe cannot fill up.
pub fn stream_mode(inherit: bool, read: bool) -> (r: StreamMode)
    ensures
        r == if inherit {
            StreamMode::Inherit
        } else if read {
            StreamMode::Piped
        } else {
            StreamMode::Null
        },
{
    if inherit {
        StreamMode::Inherit
    } else if read {
        StreamMode::Piped
    } else {
        StreamMode::Null
    }
}

} // verus!
