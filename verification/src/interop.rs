//! What a harness that drives the LibVortex regression suite decides.
//!
//! The suite is a client/listener pair of processes talking BEEP over a socket, which means the
//! two sides can be crossed. This module names the ports, the binaries and their arguments, and
//! judges what a run of the client printed; processes, sockets and files are for the caller.
//!
//! # Why the output is parsed rather than trusted
//!
//! Two traps make a naive look at the exit status meaningless, and [`ClientRun::check`] guards
//! both:
//!
//! - an unrecognised `--run-test=` name matches nothing, runs no test at all, and still prints
//!   `INFO: All test ok!`;
//! - tests for modules the library was built without print `--- WARNING:` and return success,
//!   so a green run does not prove those areas were covered.
//!
//! The obvious defence against the first one, checking that the requested test name shows up in
//! the output, does not work either, because the client echoes the name it was given in its
//! banner lines before it has matched anything. So every test is bracketed with machine readable
//! markers keyed by the identifier `--run-test` accepts:
//!
//! ```text
//! INFO: [begin] test_01
//! Test 01: basic BEEP support [   OK   ] (finished in 0 secs, 2248 microseconds)
//! INFO: [end] test_01
//! ```
//!
//! [`ClientRun::completed`] uses those markers when present and falls back to the completion
//! line for builds without them.

use crate::decimal;
use crate::error::joined;
use crate::text;
use crate::xml;
use vstd::prelude::*;
use vstd::utf8;

verus! {

/// Environment variable naming the LibVortex `test/` directory.
pub const TEST_DIR_VAR: &'static str = "VORTICE_LIBVORTEX_TEST_DIR";

/// File name of the regression listener in that directory.
pub const LISTENER_BINARY: &'static str = "vortex-regression-listener";

/// File name of the regression client in that directory.
pub const CLIENT_BINARY: &'static str = "vortex-regression-client";

/// Base port the main regression listener binds, before any offset is applied.
pub const MAIN_LISTENER_PORT: u16 = 44010;

/// Base port the suite's WebSocket listener binds, before any offset is applied.
///
/// One of the suite's tests opens its first connection here and then runs a whole run of ordinary
/// tests over it, so a listener on this port has to serve the full profile contract.
pub const WEBSOCKET_PORT: u16 = 44013;

/// Base port the suite's port-sharing listener binds, before any offset is applied.
///
/// One of the suite's tests expects one port to take plain BEEP, BEEP over WebSocket and BEEP
/// over WebSocket over TLS, in that order.
pub const SHARING_PORT: u16 = 44015;

/// Environment variable overriding [`DEFAULT_PORT_OFFSET`].
pub const PORT_OFFSET_VAR: &'static str = "VORTICE_LIBVORTEX_PORT_OFFSET";

/// Offset added to every port the suite binds when nothing says otherwise.
///
/// It is deliberately not zero. The suite binds fixed ports, so a listener running in another
/// terminal, or one left behind by an earlier run, would otherwise answer for the one just
/// started. Shifting by default keeps the two apart without anyone remembering to.
pub const DEFAULT_PORT_OFFSET: u16 = 1000;

/// How many seconds a listener has to accept connections.
pub const READY_TIMEOUT_SECS: u64 = 10;

/// After this many seconds, a lock is assumed to belong to a process that died holding it.
///
/// Generous on purpose: the cost of waiting too long is a slow test run, while the cost of
/// stealing too early is two suites interfering and a failure that looks like a protocol bug.
pub const STALE_AFTER_SECS: u64 = 900;

/// Marker printed before entering a test, followed by its identifier.
pub const BEGIN_MARKER: &'static str = "INFO: [begin] ";

/// Marker printed after a test passes, followed by its identifier.
pub const END_MARKER: &'static str = "INFO: [end] ";

/// Marker printed when a test fails, followed by its identifier.
pub const FAILED_MARKER: &'static str = "INFO: [failed] ";

/// Marker on the completion line of a test that passed.
pub const OK_MARKER: &'static str = "[   OK   ]";

/// Marker a test prints when it self-skips because its module is not built in.
pub const WARNING_MARKER: &'static str = "--- WARNING:";

/// Line the client prints when it finishes without a failure.
pub const SUCCESS_LINE: &'static str = "All test ok!";

// ---- The suite on disk -----------------------------------------------------------

/// The offset that a setting asks for, where it is a number of sixteen bits.
pub open spec fn offset_of(setting: Option<Seq<char>>) -> u16 {
    match setting {
        None => DEFAULT_PORT_OFFSET,
        Some(value) => match xml::unsigned(value, 10) {
            Some(n) => if n <= u16::MAX {
                n as u16
            } else {
                DEFAULT_PORT_OFFSET
            },
            None => DEFAULT_PORT_OFFSET,
        },
    }
}

/// A file in a directory, by the path of the directory and its own name.
pub open spec fn path_in(dir: Seq<char>, name: Seq<char>) -> Seq<char> {
    if dir.len() == 0 || dir.last() == '/' {
        dir + name
    } else {
        dir + seq!['/'] + name
    }
}

/// A built LibVortex regression suite on disk.
#[derive(Debug)]
pub struct LibVortex {
    test_dir: String,
    port_offset: u16,
}

/// Where a suite is and how far its ports are shifted.
#[verifier::ext_equal]
pub struct SuiteView {
    pub test_dir: Seq<char>,
    pub port_offset: u16,
}

impl View for LibVortex {
    type V = SuiteView;

    closed spec fn view(&self) -> SuiteView {
        SuiteView { test_dir: self.test_dir@, port_offset: self.port_offset }
    }
}

impl Clone for LibVortex {
    fn clone(&self) -> (r: LibVortex)
        ensures
            r@ == self@,
    {
        LibVortex { test_dir: self.test_dir.as_str().to_owned(), port_offset: self.port_offset }
    }
}

impl LibVortex {
    /// The suite that the settings [`TEST_DIR_VAR`] and [`PORT_OFFSET_VAR`] name, or `None` when
    /// the first is absent.
    #[must_use]
    pub fn from_settings(test_dir: Option<&str>, offset: Option<&str>) -> (r: Option<LibVortex>)
        ensures
            match (test_dir, r) {
                (None, None) => true,
                (Some(dir), Some(suite)) => suite@ == (SuiteView {
                    test_dir: dir@,
                    port_offset: offset_of(
                        match offset {
                            Some(value) => Some(value@),
                            None => None,
                        },
                    ),
                }),
                _ => false,
            },
    {
        let test_dir = match test_dir {
            Some(dir) => dir.to_owned(),
            None => return None,
        };
        let port_offset: u16 = match offset {
            None => DEFAULT_PORT_OFFSET,
            Some(value) => {
                let chars = text::chars_of(value);
                assert(chars@.subrange(0, chars@.len() as int) =~= value@);
                match xml::parse_unsigned(chars.as_slice(), 0, chars.len(), 10) {
                    Some(n) => if n <= 0xffff {
                        n as u16
                    } else {
                        DEFAULT_PORT_OFFSET
                    },
                    None => DEFAULT_PORT_OFFSET,
                }
            },
        };
        Some(LibVortex { test_dir, port_offset })
    }

    /// Uses an explicit `test/` directory.
    #[must_use]
    pub fn at(test_dir: &str) -> (r: LibVortex)
        ensures
            r@ == (SuiteView { test_dir: test_dir@, port_offset: DEFAULT_PORT_OFFSET }),
    {
        LibVortex { test_dir: test_dir.to_owned(), port_offset: DEFAULT_PORT_OFFSET }
    }

    /// Uses a specific port offset instead of [`DEFAULT_PORT_OFFSET`].
    #[must_use]
    pub fn with_port_offset(self, offset: u16) -> (r: LibVortex)
        ensures
            r@ == (SuiteView { port_offset: offset, ..self@ }),
    {
        LibVortex { test_dir: self.test_dir, port_offset: offset }
    }

    /// The offset added to every port the suite binds.
    #[must_use]
    pub fn port_offset(&self) -> (r: u16)
        ensures
            r == self@.port_offset,
    {
        self.port_offset
    }

    /// The port the main listener will bind, offset included.
    #[must_use]
    pub fn listener_port(&self) -> (r: u16)
        requires
            MAIN_LISTENER_PORT + self@.port_offset <= u16::MAX,
        ensures
            r == MAIN_LISTENER_PORT + self@.port_offset,
    {
        MAIN_LISTENER_PORT + self.port_offset
    }

    /// The port the suite's WebSocket listener will bind, offset included.
    #[must_use]
    pub fn websocket_port(&self) -> (r: u16)
        requires
            WEBSOCKET_PORT + self@.port_offset <= u16::MAX,
        ensures
            r == WEBSOCKET_PORT + self@.port_offset,
    {
        WEBSOCKET_PORT + self.port_offset
    }

    /// The port the suite's port-sharing listener will bind, offset included.
    #[must_use]
    pub fn sharing_port(&self) -> (r: u16)
        requires
            SHARING_PORT + self@.port_offset <= u16::MAX,
        ensures
            r == SHARING_PORT + self@.port_offset,
    {
        SHARING_PORT + self.port_offset
    }

    /// The `test/` directory in use.
    #[must_use]
    pub fn test_dir(&self) -> (r: &str)
        ensures
            r@ == self@.test_dir,
    {
        self.test_dir.as_str()
    }

    /// Whether the suite is built, by whether each of its two binaries is there and can be
    /// executed.
    #[must_use]
    pub fn is_built(&self, listener_ready: bool, client_ready: bool) -> (r: bool)
        ensures
            r == (listener_ready && client_ready),
    {
        listener_ready && client_ready
    }

    /// Path of `vortex-regression-listener`.
    #[must_use]
    pub fn listener_binary(&self) -> (r: String)
        ensures
            r@ == path_in(self@.test_dir, LISTENER_BINARY@),
    {
        join_path(self.test_dir.as_str(), LISTENER_BINARY)
    }

    /// Path of `vortex-regression-client`.
    #[must_use]
    pub fn client_binary(&self) -> (r: String)
        ensures
            r@ == path_in(self@.test_dir, CLIENT_BINARY@),
    {
        join_path(self.test_dir.as_str(), CLIENT_BINARY)
    }

    /// The argument that shifts the ports, which both binaries take first.
    #[must_use]
    pub fn offset_argument(&self) -> (r: String)
        ensures
            r@ == "--offset-port="@ + decimal::decimal_text(self@.port_offset as nat),
    {
        let mut argument = "--offset-port=".to_owned();
        decimal::push_decimal(&mut argument, self.port_offset as u64);
        argument
    }

    /// The arguments of `vortex-regression-client`, restricted to `tests` when it is not empty.
    ///
    /// The suite matches its options in a fixed order, so the order is part of this. Several
    /// tests assert on how long a transfer took, which says more about how busy the machine is
    /// than about the listener, so the stopwatch is dropped and every protocol assertion kept.
    #[must_use]
    pub fn client_arguments(&self, tests: &[&str]) -> (r: Vec<String>)
        ensures
            ({
                let offset = "--offset-port="@ + decimal::decimal_text(self@.port_offset as nat);
                crate::greeting::texts(r@) == (if tests@.len() == 0 {
                    seq![offset, "--disable-time-checks"@]
                } else {
                    seq![
                        offset,
                        "--disable-time-checks"@,
                        "--run-test="@ + listed(tests@.map_values(|t: &str| t@)),
                    ]
                })
            }),
    {
        let mut arguments: Vec<String> = Vec::new();
        arguments.push(self.offset_argument());
        arguments.push("--disable-time-checks".to_owned());
        let ghost offset = "--offset-port="@ + decimal::decimal_text(self@.port_offset as nat);
        if tests.len() > 0 {
            let mut list = "--run-test=".to_owned();
            push_list(&mut list, tests);
            let ghost last = list@;
            arguments.push(list);
            assert(crate::greeting::texts(arguments@) =~= seq![
                offset,
                "--disable-time-checks"@,
                last,
            ]);
        } else {
            assert(crate::greeting::texts(arguments@) =~= seq![offset, "--disable-time-checks"@]);
        }
        arguments
    }
}

/// Texts with commas between them.
pub open spec fn listed(texts: Seq<Seq<char>>) -> Seq<char>
    decreases texts.len(),
{
    if texts.len() == 0 {
        Seq::empty()
    } else if texts.len() == 1 {
        texts[0]
    } else {
        listed(texts.drop_last()) + seq![','] + texts.last()
    }
}

/// Appends texts with commas between them.
fn push_list(out: &mut String, texts: &[&str])
    ensures
        final(out)@ == old(out)@ + listed(texts@.map_values(|t: &str| t@)),
{
    let ghost before = out@;
    let ghost views = texts@.map_values(|t: &str| t@);
    let mut i: usize = 0;
    assert(before + listed(views.take(0)) =~= before);
    while i < texts.len()
        invariant
            i <= texts@.len(),
            views == texts@.map_values(|t: &str| t@),
            out@ == before + listed(views.take(i as int)),
        decreases texts@.len() - i,
    {
        let ghost had = out@;
        if i > 0 {
            out.push(',');
        }
        out.push_str(texts[i]);
        i += 1;
        proof {
            let now = views.take(i as int);
            assert(now.drop_last() =~= views.take(i - 1));
            assert(now.last() == texts@[i - 1]@);
            if i == 1 {
                assert(views.take(0).len() == 0);
                assert(out@ =~= before + listed(now));
            } else {
                assert(out@ =~= before + (listed(views.take(i - 1)) + seq![','] + now.last()));
            }
        }
    }
    assert(views.take(i as int) =~= views);
}

/// A file in a directory.
fn join_path(dir: &str, name: &str) -> (r: String)
    ensures
        r@ == path_in(dir@, name@),
{
    let chars = text::chars_of(dir);
    let len: usize = chars.len();
    let mut path = dir.to_owned();
    if len > 0 && chars[len - 1] != '/' {
        path.push('/');
    }
    path.push_str(name);
    assert(path@ =~= path_in(dir@, name@));
    path
}

/// What to tell the user when a binary is not there.
pub open spec fn missing_text(path: Seq<char>) -> Seq<char> {
    path + " not found; build LibVortex first"@
}

/// What to tell the user when a port is taken.
pub open spec fn taken_text(port: nat) -> Seq<char> {
    "port "@ + decimal::decimal_text(port)
        + " is already taken; a stray vortex-regression-listener would silently answer for the one started here. Set "@
        + PORT_OFFSET_VAR@ + " to move this run out of the way"@
}

/// What to tell the user when a binary is not there.
fn missing_binary(path: &str) -> (r: String)
    ensures
        r@ == missing_text(path@),
{
    let mut out = path.to_owned();
    out.push_str(" not found; build LibVortex first");
    out
}

/// What to tell the user when a port is taken.
///
/// A listener that was already running would answer for the one just started, and every test
/// would run against a process nobody is keeping an eye on. Looking beforehand turns that into an
/// immediate, legible failure.
fn port_taken(port: u16) -> (r: String)
    ensures
        r@ == taken_text(port as nat),
{
    let mut out = "port ".to_owned();
    decimal::push_decimal(&mut out, port as u64);
    out.push_str(
        " is already taken; a stray vortex-regression-listener would silently answer for the one started here. Set ",
    );
    out.push_str(PORT_OFFSET_VAR);
    out.push_str(" to move this run out of the way");
    out
}

/// Why a binary of the suite cannot be started.
#[derive(Debug, Clone, PartialEq, Eq)]
pub enum StartFault {
    /// It is not there.
    NotFound(String),
    /// Its port is taken.
    PortTaken(String),
}

impl LibVortex {
    /// Whether the listener can be started, by whether its binary is there and its port free.
    ///
    /// # Errors
    ///
    /// Returns what to tell the user: that the binary is missing or, if it is not, that the port
    /// is taken.
    pub fn check_listener(&self, present: bool, port_free: bool) -> (r: Result<(), StartFault>)
        requires
            present ==> MAIN_LISTENER_PORT + self@.port_offset <= u16::MAX,
        ensures
            match r {
                Ok(()) => present && port_free,
                Err(StartFault::NotFound(said)) => !present && said@ == missing_text(
                    path_in(self@.test_dir, LISTENER_BINARY@),
                ),
                Err(StartFault::PortTaken(said)) => present && !port_free && said@ == taken_text(
                    MAIN_LISTENER_PORT as nat + self@.port_offset as nat,
                ),
            },
    {
        if !present {
            return Err(StartFault::NotFound(missing_binary(self.listener_binary().as_str())));
        }
        if !port_free {
            return Err(StartFault::PortTaken(port_taken(self.listener_port())));
        }
        Ok(())
    }

    /// Whether the client can be run, by whether its binary is there.
    ///
    /// # Errors
    ///
    /// Returns what to tell the user when the binary is missing.
    pub fn check_client(&self, present: bool) -> (r: Result<(), StartFault>)
        ensures
            match r {
                Ok(()) => present,
                Err(StartFault::NotFound(said)) => !present && said@ == missing_text(
                    path_in(self@.test_dir, CLIENT_BINARY@),
                ),
                Err(_) => false,
            },
    {
        if !present {
            return Err(StartFault::NotFound(missing_binary(self.client_binary().as_str())));
        }
        Ok(())
    }
}

/// Where a listener that is being waited for stands.
#[derive(Debug, Clone, Copy, PartialEq, Eq, Structural)]
pub enum Readiness {
    /// Its process ended.
    Died,
    /// It accepts connections.
    Ready,
    /// It had its time.
    TimedOut,
    /// It is still to be waited for.
    Waiting,
}

/// Judges one look at a listener: whether its process has ended, and, if not, whether its port
/// accepted a connection, and, if not, whether the deadline has passed.
#[must_use]
pub fn readiness(exited: bool, accepts: bool, expired: bool) -> (r: Readiness)
    ensures
        r == (if exited {
            Readiness::Died
        } else if accepts {
            Readiness::Ready
        } else if expired {
            Readiness::TimedOut
        } else {
            Readiness::Waiting
        }),
{
    if exited {
        Readiness::Died
    } else if accepts {
        Readiness::Ready
    } else if expired {
        Readiness::TimedOut
    } else {
        Readiness::Waiting
    }
}

// ---- The lock that keeps runs apart ----------------------------------------------

/// How an attempt to take the lock went.
#[derive(Debug, Clone, Copy, PartialEq, Eq, Structural)]
pub enum Attempt {
    /// The lock was made, so it is ours.
    Made,
    /// Another run has it.
    Taken,
    /// It could not be made at all.
    Failed,
}

/// What to do after an attempt.
#[derive(Debug, Clone, Copy, PartialEq, Eq, Structural)]
pub enum Claim {
    /// Go on with the run. Where the lock could not be made there is nothing to serialise
    /// against: better a run that races than one that cannot start.
    Go,
    /// Wait and try again.
    Wait,
    /// Break the lock, since nobody is alive who holds it, and then wait and try again.
    BreakAndWait,
}

/// Whether a lock has been held longer than any real run would take, by its age in whole seconds
/// and the nanoseconds beyond them. A lock whose age cannot be told is not.
#[must_use]
pub fn is_stale(age: Option<(u64, u32)>) -> (r: bool)
    ensures
        r == (match age {
            Some((secs, nanos)) => secs > STALE_AFTER_SECS || (secs == STALE_AFTER_SECS && nanos
                > 0),
            None => false,
        }),
{
    match age {
        Some((secs, nanos)) => secs > STALE_AFTER_SECS || (secs == STALE_AFTER_SECS && nanos > 0),
        None => false,
    }
}

/// What to do after an attempt to take the lock, by the age of the lock that stood in the way.
#[must_use]
pub fn claim(attempt: Attempt, age: Option<(u64, u32)>) -> (r: Claim)
    ensures
        r == (match attempt {
            Attempt::Made | Attempt::Failed => Claim::Go,
            Attempt::Taken => match age {
                Some((secs, nanos)) => if secs > STALE_AFTER_SECS || (secs == STALE_AFTER_SECS
                    && nanos > 0) {
                    Claim::BreakAndWait
                } else {
                    Claim::Wait
                },
                None => Claim::Wait,
            },
        }),
{
    match attempt {
        Attempt::Made | Attempt::Failed => Claim::Go,
        Attempt::Taken => if is_stale(age) {
            Claim::BreakAndWait
        } else {
            Claim::Wait
        },
    }
}

// ---- What a run of the client printed --------------------------------------------

/// A line without the carriage return that its line feed was preceded by.
pub open spec fn without_cr(line: Seq<char>) -> Seq<char> {
    if line.len() > 0 && line.last() == '\r' {
        line.drop_last()
    } else {
        line
    }
}

/// The lines of a text. A line ends in a line feed, or in a carriage return and a line feed; the
/// last one need not.
pub open spec fn lines(s: Seq<char>) -> Seq<Seq<char>>
    decreases s.len(),
{
    let end = text::until(s, text::just('\n'));
    if s.len() == 0 {
        Seq::empty()
    } else if 0 <= end < s.len() {
        seq![without_cr(s.take(end))] + lines(s.skip(end + 1))
    } else {
        seq![s]
    }
}

/// What a line says behind a marker, without white space at its end, if it begins with that
/// marker.
pub open spec fn behind(line: Seq<char>, marker: Seq<char>) -> Option<Seq<char>> {
    if text::begins(line, marker) {
        Some(text::trimmed_white_end(line.skip(marker.len() as int)))
    } else {
        None
    }
}

/// Whether some line says a name behind a marker.
pub open spec fn marked(output: Seq<char>, marker: Seq<char>, name: Seq<char>) -> bool {
    exists|i: int|
        0 <= i < lines(output).len() && behind(#[trigger] lines(output)[i], marker) == Some(name)
}

/// What the last of some lines with a marker says behind it.
pub open spec fn last_behind(lines: Seq<Seq<char>>, marker: Seq<char>) -> Option<Seq<char>>
    decreases lines.len(),
{
    if lines.len() == 0 {
        None
    } else {
        match behind(lines.last(), marker) {
            Some(name) => Some(name),
            None => last_behind(lines.drop_last(), marker),
        }
    }
}

/// How many octets a character takes in UTF-8.
pub open spec fn width(c: char) -> nat {
    utf8::encode_scalar(c as u32).len()
}

/// How many characters the first two octets of a text are.
pub open spec fn two_octets(s: Seq<char>) -> int {
    if width(s[0]) == 2 {
        1
    } else {
        2
    }
}

/// Whether a character ends with the second octet of a text, where the text has as many.
pub open spec fn splits(s: Seq<char>) -> bool {
    ||| utf8::encode_utf8(s).len() < 2
    ||| width(s[0]) == 2
    ||| width(s[0]) == 1 && width(s[1]) == 1
}

/// Whether a name can be made a label of.
pub open spec fn labelled(name: Seq<char>) -> bool {
    text::begins(name, "test_"@) ==> splits(name.skip(5))
}

/// The display name a test is labelled with on its completion line: `test_` becomes `Test `, and
/// any suffix after the two digit number is separated with a hyphen.
pub open spec fn label(name: Seq<char>) -> Option<Seq<char>> {
    let rest = name.skip(5);
    if !text::begins(name, "test_"@) || utf8::encode_utf8(rest).len() < 2 {
        None
    } else {
        let k = two_octets(rest);
        if k == rest.len() {
            Some("Test "@ + rest)
        } else {
            Some("Test "@ + rest.take(k) + "-"@ + rest.skip(k))
        }
    }
}

/// Whether a line is the completion line of a test that passed, under a title.
pub open spec fn completes(line: Seq<char>, title: Seq<char>) -> bool {
    let rest = line.skip(title.len() as int);
    text::begins(line, title) && text::begins(rest, ": "@) && text::find(rest, OK_MARKER@) is Some
}

/// Whether a line is the completion line of a test that passed, under its name or its label.
pub open spec fn completes_test(line: Seq<char>, name: Seq<char>) -> bool {
    completes(line, name) || (label(name) matches Some(title) && completes(line, title))
}

/// Whether some line is the completion line of a test.
pub open spec fn completed_by_label(output: Seq<char>, name: Seq<char>) -> bool {
    exists|i: int|
        0 <= i < lines(output).len() && completes_test(#[trigger] lines(output)[i], name)
}

/// Whether a line warns of a test that skipped itself.
pub open spec fn warns(line: Seq<char>) -> bool {
    text::find(line, WARNING_MARKER@) is Some
}

/// The captured result of one `vortex-regression-client` run.
#[derive(Debug, Clone)]
pub struct ClientRun {
    /// Whether the process exited successfully.
    pub success: bool,
    /// Everything the client wrote to standard output.
    pub stdout: String,
    /// Everything the client wrote to standard error.
    pub stderr: String,
}

/// What a run gave.
#[verifier::ext_equal]
pub struct RunView {
    pub success: bool,
    pub stdout: Seq<char>,
    pub stderr: Seq<char>,
}

impl View for ClientRun {
    type V = RunView;

    open spec fn view(&self) -> RunView {
        RunView { success: self.success, stdout: self.stdout@, stderr: self.stderr@ }
    }
}

/// Why an interop run was not accepted.
#[derive(Debug, Clone, PartialEq, Eq)]
#[non_exhaustive]
pub enum InteropError {
    /// The regression client exited with a failure status.
    ClientFailed {
        /// The test that reported failure, or the one in progress when the client died.
        test: Option<String>,
        /// Captured output, for the assertion message.
        output: String,
    },
    /// A requested test name never appeared in the output.
    ///
    /// The suite silently ignores an unknown `--run-test=` name and still reports success,
    /// so this is the check that distinguishes "passed" from "never ran".
    TestNotRun {
        /// The test that did not run.
        name: String,
        /// Captured output, for the assertion message.
        output: String,
    },
    /// A test self-skipped because LibVortex was built without the module it covers.
    TestSkipped {
        /// The warning line emitted by the suite.
        line: String,
    },
    /// The run finished without the suite's success line.
    NoSuccessLine {
        /// Captured output, for the assertion message.
        output: String,
    },
}

/// What an error says.
#[verifier::ext_equal]
pub enum InteropErrorView {
    ClientFailed { test: Option<Seq<char>>, output: Seq<char> },
    TestNotRun { name: Seq<char>, output: Seq<char> },
    TestSkipped { line: Seq<char> },
    NoSuccessLine { output: Seq<char> },
}

impl View for InteropError {
    type V = InteropErrorView;

    open spec fn view(&self) -> InteropErrorView {
        match self {
            InteropError::ClientFailed { test, output } => InteropErrorView::ClientFailed {
                test: match test {
                    Some(test) => Some(test@),
                    None => None,
                },
                output: output@,
            },
            InteropError::TestNotRun { name, output } => InteropErrorView::TestNotRun {
                name: name@,
                output: output@,
            },
            InteropError::TestSkipped { line } => InteropErrorView::TestSkipped { line: line@ },
            InteropError::NoSuccessLine { output } => InteropErrorView::NoSuccessLine {
                output: output@,
            },
        }
    }
}

impl InteropErrorView {
    /// The text that describes an error.
    pub open spec fn text(self) -> Seq<char> {
        match self {
            InteropErrorView::ClientFailed { test: Some(test), output } =>
                "vortex-regression-client failed in "@ + test + "\n"@ + output,
            InteropErrorView::ClientFailed { test: None, output } =>
                "vortex-regression-client exited with failure\n"@ + output,
            InteropErrorView::TestNotRun { name, output } => "test '"@ + name
                + "' never ran: the suite ignores unknown --run-test names and still reports success\n"@
                + output,
            InteropErrorView::TestSkipped { line } =>
                "a test self-skipped because the module is not built into LibVortex: "@ + line,
            InteropErrorView::NoSuccessLine { output } =>
                "run finished without the 'All test ok!' line\n"@ + output,
        }
    }
}

impl InteropError {
    /// Describes the error for a person.
    pub fn message(&self) -> (out: String)
        ensures
            out@ == self@.text(),
    {
        proof {
            reveal_strlit("");
        }
        match self {
            InteropError::ClientFailed { test: Some(test), output } => {
                let mut out = joined("vortex-regression-client failed in ", test.as_str(), "\n");
                out.push_str(output.as_str());
                out
            },
            InteropError::ClientFailed { test: None, output } => joined(
                "vortex-regression-client exited with failure\n",
                output.as_str(),
                "",
            ),
            InteropError::TestNotRun { name, output } => {
                let mut out = joined(
                    "test '",
                    name.as_str(),
                    "' never ran: the suite ignores unknown --run-test names and still reports success\n",
                );
                out.push_str(output.as_str());
                out
            },
            InteropError::TestSkipped { line } => joined(
                "a test self-skipped because the module is not built into LibVortex: ",
                line.as_str(),
                "",
            ),
            InteropError::NoSuccessLine { output } => joined(
                "run finished without the 'All test ok!' line\n",
                output.as_str(),
                "",
            ),
        }
    }
}

impl RunView {
    /// Whether a named test reported completion.
    pub open spec fn completed(self, name: Seq<char>) -> bool {
        marked(self.stdout, END_MARKER@, name) || completed_by_label(self.stdout, name)
    }

    /// Whether it can be told if a named test reported completion: a test without an end marker
    /// is looked for by its label, so it has to have one.
    pub open spec fn tells(self, name: Seq<char>) -> bool {
        marked(self.stdout, END_MARKER@, name) || labelled(name)
    }

    /// The test a failed run should be blamed on: the one that reported failure, or failing that
    /// the one that was still in progress when the client died.
    pub open spec fn culprit(self) -> Option<Seq<char>> {
        match last_behind(lines(self.stdout), FAILED_MARKER@) {
            Some(name) => Some(name),
            None => last_behind(lines(self.stdout), BEGIN_MARKER@),
        }
    }

    /// Everything the client wrote.
    pub open spec fn transcript(self) -> Seq<char> {
        "--- stdout ---\n"@ + self.stdout + "\n--- stderr ---\n"@ + self.stderr
    }

    /// The first of some names that did not complete, or their number.
    pub open spec fn first_missing(self, expected: Seq<Seq<char>>) -> int {
        text::until(expected, |name: Seq<char>| !self.completed(name))
    }

    /// Where the first warning stands among the lines, or their number.
    pub open spec fn first_warning(self) -> int {
        text::until(lines(self.stdout), |line: Seq<char>| warns(line))
    }

    /// The verdict on a run that was to complete some tests.
    pub open spec fn verdict(self, expected: Seq<Seq<char>>) -> Result<(), InteropErrorView> {
        let missing = self.first_missing(expected);
        let warning = self.first_warning();
        if !self.success {
            Err(
                InteropErrorView::ClientFailed {
                    test: self.culprit(),
                    output: self.transcript(),
                },
            )
        } else if missing < expected.len() {
            Err(
                InteropErrorView::TestNotRun {
                    name: expected[missing],
                    output: self.transcript(),
                },
            )
        } else if warning < lines(self.stdout).len() {
            Err(
                InteropErrorView::TestSkipped {
                    line: text::trimmed_white(lines(self.stdout)[warning]),
                },
            )
        } else if text::find(self.stdout, SUCCESS_LINE@) is None {
            Err(InteropErrorView::NoSuccessLine { output: self.transcript() })
        } else {
            Ok(())
        }
    }
}

/// The view of a list of lines.
spec fn line_views(s: Seq<Vec<char>>) -> Seq<Seq<char>> {
    s.map_values(|v: Vec<char>| v@)
}

/// The lines of a text.
fn split_lines(s: &str) -> (r: Vec<Vec<char>>)
    ensures
        line_views(r@) == lines(s@),
{
    let chars = text::chars_of(s);
    let len: usize = chars.len();
    let mut out: Vec<Vec<char>> = Vec::new();
    let mut at: usize = 0;
    assert(s@.skip(0) =~= s@);
    assert(line_views(out@) + lines(s@) =~= lines(s@));
    while at < len
        invariant
            at <= len == chars@.len(),
            chars@ == s@,
            lines(s@) == line_views(out@) + lines(s@.skip(at as int)),
        decreases len - at,
    {
        let ghost before = line_views(out@);
        let ghost tail = s@.skip(at as int);
        let mut end: usize = at;
        while end < len && chars[end] != '\n'
            invariant
                at <= end <= len == chars@.len(),
                chars@ == s@,
                forall|j: int| at <= j < end ==> chars@[j] != '\n',
            decreases len - end,
        {
            end += 1;
        }
        proof {
            text::lemma_until_is(tail, text::just('\n'), end - at);
        }
        let stop: usize = if end < len && end > at && chars[end - 1] == '\r' {
            end - 1
        } else {
            end
        };
        let line = vstd::slice::slice_subrange(chars.as_slice(), at, stop);
        let ghost found = line@;
        let next: usize = if end < len {
            end + 1
        } else {
            len
        };
        proof {
            if end < len {
                assert(tail.take(end - at).len() == end - at);
                assert(end > at ==> tail.take(end - at).last() == chars@[end - 1]);
                assert(found =~= without_cr(tail.take(end - at)));
                assert(tail.skip(end - at + 1) =~= s@.skip(next as int));
            } else {
                assert(found =~= tail);
                assert(lines(s@.skip(next as int)) =~= Seq::empty());
            }
            assert(lines(tail) =~= seq![found] + lines(s@.skip(next as int)));
        }
        out.push(vstd::slice::slice_to_vec(line));
        at = next;
        proof {
            assert(line_views(out@) =~= before + seq![found]);
            assert(before + (seq![found] + lines(s@.skip(next as int))) =~= before + seq![found]
                + lines(s@.skip(next as int)));
        }
    }
    assert(lines(s@.skip(at as int)) =~= Seq::empty());
    assert(line_views(out@) + Seq::<Seq<char>>::empty() =~= line_views(out@));
    out
}

/// What a line says behind a marker.
fn say_behind(line: &Vec<char>, marker: &[char]) -> (r: Option<String>)
    ensures
        behind(line@, marker@) == (match r {
            Some(name) => Some(name@),
            None => None,
        }),
{
    if !text::chars_stand(line.as_slice(), marker, 0) {
        return None;
    }
    let rest = vstd::slice::slice_subrange(line.as_slice(), marker.len(), line.len());
    assert(rest@ =~= line@.skip(marker@.len() as int));
    Some(text::string_of(text::trim_chars_end(rest)))
}

/// Whether a line is the completion line of a test that passed, under a title.
fn line_completes(line: &Vec<char>, title: &str) -> (r: bool)
    ensures
        r == completes(line@, title@),
{
    let title = text::chars_of(title);
    if !text::chars_stand(line.as_slice(), title.as_slice(), 0) {
        return false;
    }
    let rest = vstd::slice::slice_subrange(line.as_slice(), title.len(), line.len());
    assert(rest@ =~= line@.skip(title@.len() as int));
    let colon = text::chars_of(": ");
    let passed = text::chars_of(OK_MARKER);
    text::chars_stand(rest, colon.as_slice(), 0) && text::chars_hold(rest, passed.as_slice())
}

/// A label can be told to be one by the characters that its first two octets are.
proof fn lemma_two_octets(s: Seq<char>)
    requires
        splits(s),
    ensures
        utf8::encode_utf8(s).len() >= 2 ==> 1 <= two_octets(s) <= s.len(),
        utf8::encode_utf8(s).len() < 2 <==> (s.len() == 0 || (s.len() == 1 && width(s[0]) == 1)),
{
    reveal_with_fuel(utf8::encode_utf8, 3);
    if s.len() == 1 {
        assert(s.drop_first() =~= Seq::<char>::empty());
    }
    if s.len() >= 2 {
        assert(s.drop_first()[0] == s[1]);
    }
}

/// The display name a test is labelled with on its completion line.
///
/// A test completes under a human readable label rather than its name, so `test_01` completes as
/// `Test 01: basic BEEP support [   OK   ] (finished in …)`. The mapping is mechanical: `test_`
/// becomes `Test `, and any suffix after the two digit number is separated with a hyphen.
///
/// ```
/// use vortice::interop::completion_label;
///
/// assert_eq!(completion_label("test_01").as_deref(), Some("Test 01"));
/// assert_eq!(completion_label("test_01g1").as_deref(), Some("Test 01-g1"));
/// assert_eq!(completion_label("test_001").as_deref(), Some("Test 00-1"));
/// assert_eq!(completion_label("not-a-test"), None);
/// ```
#[must_use]
pub fn completion_label(name: &str) -> (r: Option<String>)
    requires
        labelled(name@),
    ensures
        label(name@) == (match r {
            Some(title) => Some(title@),
            None => None,
        }),
{
    let chars = text::chars_of(name);
    let prefix = text::chars_of("test_");
    proof {
        reveal_strlit("test_");
    }
    if !text::chars_stand(chars.as_slice(), prefix.as_slice(), 0) {
        return None;
    }
    let len: usize = chars.len();
    let rest = vstd::slice::slice_subrange(chars.as_slice(), 5, len);
    proof {
        assert(rest@ =~= name@.skip(5));
        lemma_two_octets(rest@);
    }
    if rest.len() == 0 || (rest.len() == 1 && text::char_width(rest[0]) == 1) {
        return None;
    }
    let k: usize = if text::char_width(rest[0]) == 2 {
        1
    } else {
        2
    };
    let number = vstd::slice::slice_subrange(rest, 0, k);
    let suffix = vstd::slice::slice_subrange(rest, k, rest.len());
    proof {
        assert(number@ =~= rest@.take(k as int));
        assert(suffix@ =~= rest@.skip(k as int));
        assert(k == rest@.len() ==> number@ =~= rest@);
    }
    let mut title = "Test ".to_owned();
    title.push_str(text::string_of(number).as_str());
    if suffix.len() > 0 {
        title.push_str("-");
        title.push_str(text::string_of(suffix).as_str());
    }
    Some(title)
}

/// What the last line with a marker says behind it.
fn find_last(stdout: &str, marker: &str) -> (r: Option<String>)
    ensures
        last_behind(lines(stdout@), marker@) == (match r {
            Some(name) => Some(name@),
            None => None,
        }),
{
    let all = split_lines(stdout);
    let marker_chars = text::chars_of(marker);
    let ghost views = lines(stdout@);
    let mut i: usize = all.len();
    assert(views.take(i as int) =~= views);
    while i > 0
        invariant
            i <= all@.len(),
            views == lines(stdout@),
            views == line_views(all@),
            marker_chars@ == marker@,
            last_behind(views, marker@) == last_behind(views.take(i as int), marker@),
        decreases i,
    {
        i -= 1;
        proof {
            assert(views.take(i + 1).last() == all@[i as int]@);
            assert(views.take(i + 1).drop_last() =~= views.take(i as int));
        }
        let found = say_behind(&all[i], marker_chars.as_slice());
        if found.is_some() {
            return found;
        }
    }
    None
}

impl ClientRun {
    /// Validates the run, defending against the ways the suite reports a false pass.
    ///
    /// Every name in `expected` must have completed, no `--- WARNING:` self-skip may be
    /// present, and the final `All test ok!` line must be there.
    ///
    /// # Errors
    ///
    /// Returns the first [`InteropError`] detected.
    pub fn check(&self, expected: &[&str]) -> (r: Result<(), InteropError>)
        requires
            self.success ==> forall|i: int|
                0 <= i < expected@.len() && (forall|j: int|
                    0 <= j < i ==> self@.completed((#[trigger] expected@[j])@)) ==> self@.tells(
                    (#[trigger] expected@[i])@,
                ),
        ensures
            self@.verdict(expected@.map_values(|t: &str| t@)) == (match r {
                Ok(()) => Ok(()),
                Err(e) => Err(e@),
            }),
    {
        let ghost names = expected@.map_values(|t: &str| t@);
        let ghost incomplete = |name: Seq<char>| !self@.completed(name);
        if !self.success {
            return Err(
                InteropError::ClientFailed { test: self.culprit(), output: self.transcript() },
            );
        }
        let mut i: usize = 0;
        while i < expected.len()
            invariant
                i <= expected@.len(),
                self.success,
                names == expected@.map_values(|t: &str| t@),
                incomplete == (|name: Seq<char>| !self@.completed(name)),
                forall|j: int| 0 <= j < i ==> !incomplete(#[trigger] names[j]),
                forall|k: int|
                    0 <= k < expected@.len() && (forall|j: int|
                        0 <= j < k ==> self@.completed((#[trigger] expected@[j])@))
                        ==> self@.tells((#[trigger] expected@[k])@),
            decreases expected@.len() - i,
        {
            proof {
                assert forall|j: int| 0 <= j < i implies self@.completed(
                    (#[trigger] expected@[j])@,
                ) by {
                    assert(!incomplete(names[j]));
                }
                assert(names[i as int] == expected@[i as int]@);
            }
            if !self.completed(expected[i]) {
                proof {
                    text::lemma_until_is(names, incomplete, i as int);
                }
                return Err(
                    InteropError::TestNotRun {
                        name: expected[i].to_owned(),
                        output: self.transcript(),
                    },
                );
            }
            i += 1;
        }
        proof {
            text::lemma_until_is(names, incomplete, i as int);
        }
        let all = split_lines(self.stdout.as_str());
        let warning = text::chars_of(WARNING_MARKER);
        let ghost views = lines(self.stdout@);
        let ghost stop = |line: Seq<char>| warns(line);
        let mut i: usize = 0;
        while i < all.len()
            invariant
                i <= all@.len(),
                views == lines(self.stdout@),
                views == line_views(all@),
                warning@ == WARNING_MARKER@,
                stop == (|line: Seq<char>| warns(line)),
                forall|j: int| 0 <= j < i ==> !stop(#[trigger] views[j]),
                self.success,
                self@.first_missing(names) == names.len(),
                names == expected@.map_values(|t: &str| t@),
            decreases all@.len() - i,
        {
            assert(views[i as int] == all@[i as int]@);
            if text::chars_hold(all[i].as_slice(), warning.as_slice()) {
                proof {
                    text::lemma_until_is(views, stop, i as int);
                }
                return Err(
                    InteropError::TestSkipped {
                        line: text::string_of(text::trim_chars(all[i].as_slice())),
                    },
                );
            }
            i += 1;
        }
        proof {
            text::lemma_until_is(views, stop, i as int);
        }
        let output = text::chars_of(self.stdout.as_str());
        let success = text::chars_of(SUCCESS_LINE);
        if !text::chars_hold(output.as_slice(), success.as_slice()) {
            return Err(InteropError::NoSuccessLine { output: self.transcript() });
        }
        Ok(())
    }

    /// Whether a named test reported completion.
    ///
    /// Searching the output for the test name is *not* enough: the client echoes whatever
    /// was passed to `--run-test=` in its banner lines, whether or not any test matches.
    ///
    /// The `INFO: [end] <name>` marker is believed directly. For builds without it, the fallback
    /// is the completion line, which is labelled with the test's display name rather than its
    /// identifier; see [`completion_label`]. Anchoring on the `<label>: ` prefix keeps `test_01`
    /// from being satisfied by `test_01a`.
    #[must_use]
    pub fn completed(&self, name: &str) -> (r: bool)
        requires
            self@.tells(name@),
        ensures
            r == self@.completed(name@),
    {
        self.marked(END_MARKER, name) || self.completed_by_label(name)
    }

    /// Whether a named test reported failure through the `INFO: [failed] <name>` marker.
    #[must_use]
    pub fn failed(&self, name: &str) -> (r: bool)
        ensures
            r == marked(self@.stdout, FAILED_MARKER@, name@),
    {
        self.marked(FAILED_MARKER, name)
    }

    /// The last test the client announced entering, if the markers are available.
    ///
    /// When a run dies without a verdict, by a crash or a hang that was killed, this names the
    /// test that was in progress.
    #[must_use]
    pub fn last_started(&self) -> (r: Option<String>)
        ensures
            last_behind(lines(self@.stdout), BEGIN_MARKER@) == (match r {
                Some(name) => Some(name@),
                None => None,
            }),
    {
        find_last(self.stdout.as_str(), BEGIN_MARKER)
    }

    /// The test a failed run should be blamed on.
    fn culprit(&self) -> (r: Option<String>)
        ensures
            self@.culprit() == (match r {
                Some(name) => Some(name@),
                None => None,
            }),
    {
        match find_last(self.stdout.as_str(), FAILED_MARKER) {
            Some(name) => Some(name),
            None => self.last_started(),
        }
    }

    fn marked(&self, marker: &str, name: &str) -> (r: bool)
        ensures
            r == marked(self@.stdout, marker@, name@),
    {
        let all = split_lines(self.stdout.as_str());
        let marker_chars = text::chars_of(marker);
        let ghost views = lines(self.stdout@);
        let mut i: usize = 0;
        while i < all.len()
            invariant
                i <= all@.len(),
                views == lines(self.stdout@),
                views == line_views(all@),
                marker_chars@ == marker@,
                forall|j: int| 0 <= j < i ==> behind(#[trigger] views[j], marker@) != Some(name@),
            decreases all@.len() - i,
        {
            assert(views[i as int] == all@[i as int]@);
            if let Some(found) = say_behind(&all[i], marker_chars.as_slice()) {
                if xml::same_text(found.as_str(), name) {
                    assert(behind(lines(self@.stdout)[i as int], marker@) == Some(name@));
                    return true;
                }
            }
            i += 1;
        }
        false
    }

    /// Completion detection for builds without the `[end]` marker.
    fn completed_by_label(&self, name: &str) -> (r: bool)
        requires
            labelled(name@),
        ensures
            r == completed_by_label(self@.stdout, name@),
    {
        let title = completion_label(name);
        let all = split_lines(self.stdout.as_str());
        let ghost views = lines(self.stdout@);
        let mut i: usize = 0;
        while i < all.len()
            invariant
                i <= all@.len(),
                views == lines(self.stdout@),
                views == line_views(all@),
                label(name@) == (match title {
                    Some(title) => Some(title@),
                    None => None,
                }),
                forall|j: int| 0 <= j < i ==> !completes_test(#[trigger] views[j], name@),
            decreases all@.len() - i,
        {
            assert(views[i as int] == all@[i as int]@);
            let by_label = match &title {
                Some(title) => line_completes(&all[i], title.as_str()),
                None => false,
            };
            if line_completes(&all[i], name) || by_label {
                assert(completes_test(lines(self@.stdout)[i as int], name@));
                return true;
            }
            i += 1;
        }
        false
    }

    fn transcript(&self) -> (r: String)
        ensures
            r@ == self@.transcript(),
    {
        let mut out = joined("--- stdout ---\n", self.stdout.as_str(), "\n--- stderr ---\n");
        out.push_str(self.stderr.as_str());
        out
    }
}

/// A run is accepted exactly when its process succeeded, every expected test completed, no line
/// warns of a test that skipped itself, and the success line is there.
pub proof fn law_accepted_runs(run: RunView, expected: Seq<Seq<char>>)
    ensures
        run.verdict(expected) is Ok <==> {
            &&& run.success
            &&& forall|i: int| 0 <= i < expected.len() ==> run.completed(#[trigger] expected[i])
            &&& forall|i: int|
                0 <= i < lines(run.stdout).len() ==> !warns(#[trigger] lines(run.stdout)[i])
            &&& text::find(run.stdout, SUCCESS_LINE@) is Some
        },
{
    let incomplete = |name: Seq<char>| !run.completed(name);
    text::lemma_until(expected, incomplete);
    if forall|i: int| 0 <= i < expected.len() ==> run.completed(#[trigger] expected[i]) {
        assert forall|i: int| 0 <= i < expected.len() implies !incomplete(#[trigger] expected[i]) by {
            assert(run.completed(expected[i]));
        }
    } else {
        let i = choose|i: int| 0 <= i < expected.len() && !run.completed(#[trigger] expected[i]);
        assert(incomplete(expected[i]));
    }
    if run.first_missing(expected) == expected.len() {
        assert forall|i: int| 0 <= i < expected.len() implies run.completed(
            #[trigger] expected[i],
        ) by {
            assert(!incomplete(expected[i]));
        }
    }
    let all = lines(run.stdout);
    let stop = |line: Seq<char>| warns(line);
    text::lemma_until(all, stop);
    if run.first_warning() == all.len() {
        assert forall|i: int| 0 <= i < all.len() implies !warns(#[trigger] all[i]) by {
            assert(!stop(all[i]));
        }
    } else {
        assert(stop(all[run.first_warning()]));
    }
}

/// A longer title is not taken for a shorter one: the line that completes a test completes none
/// whose title only begins it.
pub proof fn law_longer_titles_complete_no_shorter_one(
    title: Seq<char>,
    more: Seq<char>,
    rest: Seq<char>,
)
    requires
        more.len() > 0,
        more[0] != ':',
    ensures
        !completes(title + more + rest, title),
{
    reveal_strlit(": ");
    let line = title + more + rest;
    let after = line.skip(title.len() as int);
    assert(after[0] == more[0]);
    if text::begins(after, ": "@) {
        assert(after.subrange(0, 2)[0] == after[0]);
    }
}

/// The port offset is what its setting writes in decimal, where that fits sixteen bits, and one
/// thousand otherwise.
pub proof fn law_port_offsets_are_read(setting: Option<Seq<char>>)
    ensures
        offset_of(setting) == (match setting {
            Some(value) => match xml::unsigned(value, 10) {
                Some(n) => if n < 65536 {
                    n as int
                } else {
                    1000
                },
                None => 1000,
            },
            None => 1000,
        }),
{
}

/// A file stands in its directory behind one slash.
pub proof fn law_paths_are_joined_by_a_slash(dir: Seq<char>, name: Seq<char>)
    requires
        dir.len() > 0,
        dir.last() != '/',
    ensures
        path_in(dir, name) == dir.push('/') + name,
        path_in(dir.push('/'), name) == dir.push('/') + name,
        path_in(Seq::empty(), name) == name,
{
    assert(dir + seq!['/'] =~= dir.push('/'));
    assert(dir.push('/').last() == '/');
    assert(Seq::<char>::empty() + name =~= name);
}

/// Texts are listed with one comma between each two, in order.
pub proof fn law_lists_have_commas_between(texts: Seq<Seq<char>>, last: Seq<char>)
    requires
        texts.len() > 0,
    ensures
        listed(Seq::empty()) == Seq::<char>::empty(),
        listed(seq![last]) == last,
        listed(texts.push(last)) == listed(texts).push(',') + last,
{
    assert(texts.push(last).drop_last() =~= texts);
    assert(listed(texts) + seq![','] =~= listed(texts).push(','));
}

/// Output is read line by line: a line ends at a line feed, and a carriage return before it is no
/// part of it. Nothing is no line, and the last line need not end.
pub proof fn law_output_is_read_line_by_line(line: Seq<char>, rest: Seq<char>)
    requires
        forall|i: int| 0 <= i < line.len() ==> line[i] != '\n',
    ensures
        lines(Seq::empty()) == Seq::<Seq<char>>::empty(),
        line.len() > 0 ==> lines(line) == seq![line],
        line.len() == 0 || line.last() != '\r' ==> lines(line + seq!['\n'] + rest) == seq![line]
            + lines(rest),
        lines(line + seq!['\r', '\n'] + rest) == seq![line] + lines(rest),
{
    let n = line.len() as int;
    text::lemma_until_is(line, text::just('\n'), n);
    let s = line + seq!['\n'] + rest;
    assert forall|j: int| 0 <= j < n implies !(text::just('\n'))(#[trigger] s[j]) by {
        assert(s[j] == line[j]);
    }
    assert(s[n] == '\n');
    text::lemma_until_is(s, text::just('\n'), n);
    assert(s.take(n) =~= line);
    assert(s.skip(n + 1) =~= rest);
    let t = line + seq!['\r', '\n'] + rest;
    assert forall|j: int| 0 <= j < n + 1 implies !(text::just('\n'))(#[trigger] t[j]) by {
        if j < n {
            assert(t[j] == line[j]);
        }
    }
    assert(t[n + 1] == '\n');
    text::lemma_until_is(t, text::just('\n'), n + 1);
    assert(t.take(n + 1).last() == '\r');
    assert(t.take(n + 1).drop_last() =~= line);
    assert(t.skip(n + 2) =~= rest);
}

/// A run names a test behind a marker where one of its lines begins with the marker and says that
/// name behind it, white space at its end aside. What a run failed in is the last test it says
/// failed, or else the last that it began.
pub proof fn law_markers_begin_their_line(
    run: RunView,
    line: Seq<char>,
    marker: Seq<char>,
    before: Seq<Seq<char>>,
)
    ensures
        behind(marker + line, marker) == Some(text::trimmed_white_end(line)),
        !text::begins(line, marker) ==> behind(line, marker) is None,
        last_behind(Seq::empty(), marker) is None,
        last_behind(before.push(line), marker) == (match behind(line, marker) {
            Some(name) => Some(name),
            None => last_behind(before, marker),
        }),
        run.culprit() == (match last_behind(lines(run.stdout), "INFO: [failed] "@) {
            Some(name) => Some(name),
            None => last_behind(lines(run.stdout), "INFO: [begin] "@),
        }),
{
    let s = marker + line;
    assert(s.subrange(0, marker.len() as int) =~= marker);
    assert(s.skip(marker.len() as int) =~= line);
    assert(before.push(line).drop_last() =~= before);
}

/// A test is completed where a line says so, behind the marker for an end, under its name or under
/// its label, with the mark that it passed. A line that holds the mark for a warning warns.
pub proof fn law_completion_is_said(run: RunView, line: Seq<char>, name: Seq<char>)
    ensures
        run.completed(name) <==> marked(run.stdout, "INFO: [end] "@, name) || (exists|i: int|
            0 <= i < lines(run.stdout).len() && completes_test(
                #[trigger] lines(run.stdout)[i],
                name,
            )),
        completes(line, name) <==> {
            &&& text::begins(line, name)
            &&& text::begins(line.skip(name.len() as int), ": "@)
            &&& text::find(line.skip(name.len() as int), "[   OK   ]"@) is Some
        },
        completes_test(line, name) <==> completes(line, name) || (label(name) is Some && completes(
            line,
            label(name)->0,
        )),
        warns(line) <==> text::find(line, "--- WARNING:"@) is Some,
        run.verdict(Seq::empty()) is Ok ==> text::find(run.stdout, "All test ok!"@) is Some,
{
    let none = Seq::<Seq<char>>::empty();
    text::lemma_until(none, |n: Seq<char>| !run.completed(n));
}

/// The label of a test named `test_` and a number of two digits is `Test ` and that number, and
/// what follows the number stands behind a hyphen. Other names have none.
pub proof fn law_tests_are_labelled(first: char, second: char, rest: Seq<char>, other: Seq<char>)
    requires
        (first as u32) < 0x80,
        (second as u32) < 0x80,
        !text::begins(other, "test_"@),
    ensures
        label("test_"@ + seq![first, second]) == Some("Test "@ + seq![first, second]),
        rest.len() > 0 ==> label("test_"@ + seq![first, second] + rest) == Some(
            "Test "@ + seq![first, second] + "-"@ + rest,
        ),
        label(other) is None,
{
    reveal_strlit("test_");
    let bare = "test_"@ + seq![first, second];
    let whole = bare + rest;
    let digits = seq![first, second];
    assert(bare.subrange(0, 5) =~= "test_"@);
    assert(whole.subrange(0, 5) =~= "test_"@);
    assert(bare.skip(5) =~= digits);
    assert(whole.skip(5) =~= digits + rest);
    assert(utf8::is_ascii_chars(digits));
    utf8::is_ascii_chars_encode_utf8(digits);
    text::lemma_encode_concat(digits, rest);
    assert(utf8::is_ascii_chars(seq![first]));
    utf8::is_ascii_chars_encode_utf8(seq![first]);
    assert(width(first) == 1) by {
        text::lemma_encode_push(Seq::empty(), first);
        assert(Seq::<char>::empty().push(first) =~= seq![first]);
    }
    assert((digits + rest).take(2) =~= digits);
    assert((digits + rest).skip(2) =~= rest);
}

/// What a run that is not accepted is told for is the first thing wrong with it: that the client
/// failed, and in what; the first test expected that it did not complete; the first line that
/// warns; or that it does not say that all is well.
pub proof fn law_the_first_fault_is_told(run: RunView, expected: Seq<Seq<char>>)
    ensures
        run.verdict(expected) matches Err(fault) ==> match fault {
            InteropErrorView::ClientFailed { test, output } => !run.success && test
                == run.culprit() && output == run.transcript(),
            InteropErrorView::TestNotRun { name, output } => run.success && output
                == run.transcript() && exists|i: int|
                0 <= i < expected.len() && name == #[trigger] expected[i] && !run.completed(name)
                    && forall|j: int| 0 <= j < i ==> run.completed(#[trigger] expected[j]),
            InteropErrorView::TestSkipped { line } => run.success && (forall|j: int|
                0 <= j < expected.len() ==> run.completed(#[trigger] expected[j])) && exists|i: int|
                0 <= i < lines(run.stdout).len() && warns(#[trigger] lines(run.stdout)[i]) && line
                    == text::trimmed_white(lines(run.stdout)[i]) && forall|j: int|
                    0 <= j < i ==> !warns(#[trigger] lines(run.stdout)[j]),
            InteropErrorView::NoSuccessLine { output } => run.success && (forall|j: int|
                0 <= j < expected.len() ==> run.completed(#[trigger] expected[j])) && (forall|j: int|
                0 <= j < lines(run.stdout).len() ==> !warns(#[trigger] lines(run.stdout)[j]))
                && text::find(run.stdout, "All test ok!"@) is None && output == run.transcript(),
        },
        run.transcript() == "--- stdout ---\n"@ + run.stdout + "\n--- stderr ---\n"@ + run.stderr,
{
    let incomplete = |name: Seq<char>| !run.completed(name);
    text::lemma_until(expected, incomplete);
    let all = lines(run.stdout);
    let stop = |line: Seq<char>| warns(line);
    text::lemma_until(all, stop);
    let missing = run.first_missing(expected);
    if missing < expected.len() {
        assert(incomplete(expected[missing]));
    }
    assert forall|j: int| 0 <= j < missing implies run.completed(#[trigger] expected[j]) by {
        assert(!incomplete(expected[j]));
    }
    let w = run.first_warning();
    if w < all.len() {
        assert(stop(all[w]));
    }
    assert forall|j: int| 0 <= j < w implies !warns(#[trigger] all[j]) by {
        assert(!stop(all[j]));
    }
}

} // verus!
