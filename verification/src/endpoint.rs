//! What an endpoint is configured with, and what it decides.
//!
//! The sockets, the tasks and the waiting are the driver's. Which host to try
//! next and how long to wait before it, and what to make of the first thing a
//! connection brings, is decided here.

use vstd::prelude::*;
use vstd::string::*;

use crate::clock::Duration;
use crate::error::{Error, ErrorView, Result};
use crate::message::{FixMessage, MessageView};
use crate::session::handshake::{AcceptorHandshake, AcceptorView};
use crate::session::types::SessionIdentifier;
use crate::text::joined;

verus! {

/// Everything an endpoint needs beyond the addresses and the repository.
#[derive(Clone, Debug)]
#[non_exhaustive]
pub struct EndpointConfig {
    /// Field separator on the wire. `None` means SOH (`b'\x01'`), which is what
    /// production uses; `Some(b'|')` is convenient in tests and logs.
    pub delimiter: Option<u8>,
    /// How long a peer has to complete the logon exchange before the connection
    /// is dropped.
    pub logon_timeout: Duration,
    /// How long to wait for a TCP connection to be established. Initiator only.
    pub connect_timeout: Duration,
    /// How long to wait between connection attempts, in order. The ladder
    /// restarts for each host, and the host list is cycled indefinitely, so the
    /// last entry is the steady-state retry interval. Initiator only.
    pub backoff: Vec<Duration>,
    /// Depth of the per-session command and event channels.
    ///
    /// This is the application's queue: it is how far the session may run ahead
    /// of a slow consumer before backpressure reaches the peer.
    pub channel_depth: usize,
}

/// An [`EndpointConfig`] by what it says, with times in nanoseconds.
pub ghost struct ConfigView {
    pub delimiter: Option<u8>,
    pub logon_timeout: nat,
    pub connect_timeout: nat,
    pub backoff: Seq<nat>,
    pub channel_depth: usize,
}

pub open spec fn ladder_view(ladder: Seq<Duration>) -> Seq<nat> {
    ladder.map_values(|d: Duration| d@)
}

impl View for EndpointConfig {
    type V = ConfigView;

    open spec fn view(&self) -> ConfigView {
        ConfigView {
            delimiter: self.delimiter,
            logon_timeout: self.logon_timeout@,
            connect_timeout: self.connect_timeout@,
            backoff: ladder_view(self.backoff@),
            channel_depth: self.channel_depth,
        }
    }
}

impl Default for EndpointConfig {
    fn default() -> (r: Self)
        ensures
            r@ == (ConfigView {
                delimiter: None,
                logon_timeout: 30_000_000_000,
                connect_timeout: 10_000_000_000,
                backoff: seq![
                    10_000_000nat,
                    100_000_000,
                    1_000_000_000,
                    5_000_000_000,
                    5_000_000_000,
                ],
                channel_depth: 100,
            }),
    {
        let mut backoff: Vec<Duration> = Vec::new();
        backoff.push(Duration::from_millis(10));
        backoff.push(Duration::from_millis(100));
        backoff.push(Duration::from_millis(1000));
        backoff.push(Duration::from_millis(5000));
        backoff.push(Duration::from_millis(5000));
        let r = EndpointConfig {
            delimiter: None,
            logon_timeout: Duration::from_secs(30),
            connect_timeout: Duration::from_secs(10),
            backoff,
            channel_depth: 100,
        };
        assert(r@.backoff =~= seq![
            10_000_000nat,
            100_000_000,
            1_000_000_000,
            5_000_000_000,
            5_000_000_000,
        ]);
        r
    }
}

impl EndpointConfig {
    pub fn delimiter(self, delimiter: u8) -> (r: Self)
        ensures
            r@ == (ConfigView { delimiter: Some(delimiter), ..self@ }),
    {
        let mut config = self;
        config.delimiter = Some(delimiter);
        config
    }

    pub fn logon_timeout(self, timeout: Duration) -> (r: Self)
        ensures
            r@ == (ConfigView { logon_timeout: timeout@, ..self@ }),
    {
        let mut config = self;
        config.logon_timeout = timeout;
        config
    }

    pub fn connect_timeout(self, timeout: Duration) -> (r: Self)
        ensures
            r@ == (ConfigView { connect_timeout: timeout@, ..self@ }),
    {
        let mut config = self;
        config.connect_timeout = timeout;
        config
    }

    pub fn backoff(self, ladder: Vec<Duration>) -> (r: Self)
        ensures
            r@ == (ConfigView { backoff: ladder_view(ladder@), ..self@ }),
    {
        let mut config = self;
        config.backoff = ladder;
        config
    }

    pub fn channel_depth(self, depth: usize) -> (r: Self)
        ensures
            r@ == (ConfigView { channel_depth: depth, ..self@ }),
    {
        let mut config = self;
        config.channel_depth = depth;
        config
    }
}

// ---------------------------------------------------------------------------
// Connecting
// ---------------------------------------------------------------------------

/// One attempt to connect: which host to try, and how long to wait after a
/// failure.
#[derive(Clone, Copy, Debug, PartialEq, Eq)]
pub struct Attempt {
    pub host: usize,
    pub backoff: Duration,
}

/// Where an endpoint is in its attempts to connect: the host it is at, and the
/// rung of the ladder.
#[derive(Clone, Copy, Debug, PartialEq, Eq, Structural)]
pub struct ConnectPlan {
    pub hosts: usize,
    pub host: usize,
    pub rung: usize,
}

impl ConnectPlan {
    /// There is a host to try.
    pub open spec fn wf(self) -> bool {
        self.host < self.hosts
    }

    /// The plan after one more failure, with a ladder of `rungs`: the next rung,
    /// or the next host, or the first one again.
    pub open spec fn after_failure(self, rungs: nat) -> ConnectPlan {
        if self.rung + 1 < rungs {
            ConnectPlan { rung: (self.rung + 1) as usize, ..self }
        } else if self.host + 1 < self.hosts {
            ConnectPlan { host: (self.host + 1) as usize, rung: 0, ..self }
        } else {
            ConnectPlan { host: 0, rung: 0, ..self }
        }
    }

    /// The plan after `n` failures.
    pub open spec fn after_failures(self, rungs: nat, n: nat) -> ConnectPlan
        decreases n,
    {
        if n == 0 {
            self
        } else {
            self.after_failures(rungs, (n - 1) as nat).after_failure(rungs)
        }
    }

    /// Start with the first host. Without one there is nothing to connect to.
    pub fn new(hosts: usize) -> (r: Result<ConnectPlan>)
        ensures
            match r {
                Ok(plan) => hosts > 0 && plan == (ConnectPlan { hosts, host: 0, rung: 0 }),
                Err(e) => hosts == 0 && e@ == ErrorView::ConnectionFailed(
                    "no endpoints to connect to"@,
                ),
            },
    {
        if hosts == 0 {
            return Err(Error::connection_failed("no endpoints to connect to"));
        }
        Ok(ConnectPlan { hosts, host: 0, rung: 0 })
    }

    /// The next attempt, or `None` where the ladder has no rungs, so that no
    /// attempt is ever made. The plan moves on to the one after it.
    pub fn next_attempt(&mut self, backoff: &Vec<Duration>) -> (r: Option<Attempt>)
        requires
            old(self).wf(),
        ensures
            final(self).wf(),
            match r {
                Some(a) => old(self).rung < backoff@.len() && a.host == old(self).host && a.backoff
                    == backoff@[old(self).rung as int] && *final(self) == old(
                    self,
                ).after_failure(backoff@.len()),
                None => old(self).rung >= backoff@.len() && *final(self) == *old(self),
            },
    {
        if self.rung >= backoff.len() {
            return None;
        }
        let attempt = Attempt { host: self.host, backoff: backoff[self.rung] };
        if self.rung + 1 < backoff.len() {
            self.rung = self.rung + 1;
        } else {
            self.rung = 0;
            self.host = if self.host + 1 < self.hosts {
                self.host + 1
            } else {
                0
            };
        }
        Some(attempt)
    }
}

/// The ladder is climbed anew for each host, and the hosts are cycled: attempt
/// `n` goes to host `n / rungs`, counted round, on rung `n % rungs`.
pub proof fn law_attempts_cycle(hosts: usize, rungs: nat, n: nat)
    requires
        hosts > 0,
        0 < rungs <= usize::MAX,
    ensures
        ({
            let plan = ConnectPlan { hosts, host: 0, rung: 0 }.after_failures(rungs, n);
            &&& plan.hosts == hosts
            &&& plan.host == (n / rungs) % (hosts as nat)
            &&& plan.rung == n % rungs
        }),
    decreases n,
{
    let start = ConnectPlan { hosts, host: 0, rung: 0 };
    if n == 0 {
        assert(0nat / rungs == 0 && 0nat % rungs == 0) by (nonlinear_arith)
            requires
                rungs > 0,
        ;
        assert(0nat % (hosts as nat) == 0) by (nonlinear_arith)
            requires
                hosts > 0,
        ;
    } else {
        let k = (n - 1) as nat;
        law_attempts_cycle(hosts, rungs, k);
        let q = k / rungs;
        let m = k % rungs;
        let plan = start.after_failures(rungs, k);
        vstd::arithmetic::div_mod::lemma_fundamental_div_mod(k as int, rungs as int);
        vstd::arithmetic::div_mod::lemma_mod_bound(k as int, rungs as int);
        vstd::arithmetic::div_mod::lemma_mod_bound(q as int, hosts as int);
        if m + 1 < rungs {
            vstd::arithmetic::div_mod::lemma_fundamental_div_mod_converse(
                n as int,
                rungs as int,
                q as int,
                (m + 1) as int,
            );
        } else {
            assert(n == rungs * (q + 1)) by (nonlinear_arith)
                requires
                    k == rungs * q + m,
                    m + 1 == rungs,
                    n == k + 1,
            ;
            vstd::arithmetic::div_mod::lemma_fundamental_div_mod_converse(
                n as int,
                rungs as int,
                (q + 1) as int,
                0,
            );
            let h = q % (hosts as nat);
            let c = q / (hosts as nat);
            vstd::arithmetic::div_mod::lemma_fundamental_div_mod(q as int, hosts as int);
            if h + 1 < hosts {
                vstd::arithmetic::div_mod::lemma_fundamental_div_mod_converse(
                    (q + 1) as int,
                    hosts as int,
                    c as int,
                    (h + 1) as int,
                );
            } else {
                assert(q + 1 == hosts * (c + 1)) by (nonlinear_arith)
                    requires
                        q == hosts * c + h,
                        h + 1 == hosts,
                ;
                vstd::arithmetic::div_mod::lemma_fundamental_div_mod_converse(
                    (q + 1) as int,
                    hosts as int,
                    (c + 1) as int,
                    0,
                );
            }
        }
    }
}

// ---------------------------------------------------------------------------
// The first thing a connection brings
// ---------------------------------------------------------------------------

/// What a new connection brings first.
pub enum FirstFrame {
    /// Nothing, in the time there was; with what is to be said of it.
    TimedOut(String),
    Frame(FixMessage),
    /// Something that could not be read; with what stood against it.
    Failed(String),
    /// The end of the connection.
    Closed,
}

/// A [`FirstFrame`] by what it says.
pub ghost enum FirstFrameView {
    TimedOut(Seq<char>),
    Frame(MessageView),
    Failed(Seq<char>),
    Closed,
}

impl View for FirstFrame {
    type V = FirstFrameView;

    open spec fn view(&self) -> FirstFrameView {
        match self {
            FirstFrame::TimedOut(text) => FirstFrameView::TimedOut(text@),
            FirstFrame::Frame(msg) => FirstFrameView::Frame(msg@),
            FirstFrame::Failed(text) => FirstFrameView::Failed(text@),
            FirstFrame::Closed => FirstFrameView::Closed,
        }
    }
}

/// A connection that is not to be served.
pub struct Refusal {
    pub error: Error,
    /// Whether the application is to be told of the peer. There is no session
    /// to report this against, so an invalid peer is named by its address.
    pub report_invalid: bool,
}

/// The frame, or why there is none.
pub open spec fn frame_in(first: FirstFrameView) -> std::result::Result<MessageView, ErrorView> {
    match first {
        FirstFrameView::Frame(msg) => Ok(msg),
        FirstFrameView::TimedOut(text) => Err(ErrorView::ConnectionFailed(text)),
        FirstFrameView::Failed(text) => Err(
            ErrorView::ConnectionFailed("Failed to read first message: "@ + text),
        ),
        FirstFrameView::Closed => Err(
            ErrorView::ConnectionFailed("Connection closed before first message"@),
        ),
    }
}

impl FirstFrame {
    /// The frame, or why there is none.
    pub fn into_frame(self) -> (r: Result<FixMessage>)
        ensures
            match frame_in(self@) {
                Ok(v) => r matches Ok(msg) && msg@ == v,
                Err(e) => r matches Err(err) && err@ == e,
            },
    {
        match self {
            FirstFrame::Frame(msg) => Ok(msg),
            FirstFrame::TimedOut(text) => Err(Error::connection_failed(text.as_str())),
            FirstFrame::Failed(text) => {
                let reason = joined("Failed to read first message: ", text.as_str());
                Err(Error::connection_failed(reason.as_str()))
            },
            FirstFrame::Closed => Err(
                Error::connection_failed("Connection closed before first message"),
            ),
        }
    }
}

/// What an acceptor makes of the first thing a connection brings: the session it
/// names, or the error and whether the peer is reported. A peer that leaves
/// without a word, or opens with anything but a Logon, is reported as invalid,
/// before the application is told anything else about it.
pub open spec fn welcomed(handshake: AcceptorView, first: FirstFrameView) -> std::result::Result<
    AcceptorView,
    (ErrorView, bool),
> {
    match frame_in(first) {
        Err(e) => Err((e, first is Closed)),
        Ok(msg) => match handshake.identified(msg) {
            Err(e) => Err((e, true)),
            Ok(v) => Ok(v),
        },
    }
}

/// Decide on a new connection by the first thing it brings.
pub fn welcome(handshake: &mut AcceptorHandshake, first: FirstFrame) -> (r: std::result::Result<
    SessionIdentifier,
    Refusal,
>)
    requires
        old(handshake).wf(),
    ensures
        final(handshake).wf(),
        match welcomed(old(handshake)@, first@) {
            Ok(v) => final(handshake)@ == v && (r matches Ok(id) && id@ == (v.pending->0).0),
            Err((e, report)) => final(handshake)@ == old(handshake)@ && (r matches Err(refusal)
                && refusal.error@ == e && refusal.report_invalid == report),
        },
{
    let closed = matches!(first, FirstFrame::Closed);
    match first.into_frame() {
        Err(error) => Err(Refusal { error, report_invalid: closed }),
        Ok(msg) => match handshake.identify(msg) {
            Ok(id) => Ok(
                SessionIdentifier {
                    begin_string: id.begin_string.clone(),
                    sender_comp_id: id.sender_comp_id.clone(),
                    target_comp_id: id.target_comp_id.clone(),
                },
            ),
            Err(error) => Err(Refusal { error, report_invalid: true }),
        },
    }
}

/// A session's channel is gone.
pub fn chan_closed() -> (r: Error)
    ensures
        r@ == ErrorView::ConnectionFailed("session channel closed"@),
{
    Error::connection_failed("session channel closed")
}

/// What the first thing on a connection comes to. A frame is what it is. Where
/// there is none, the connection has failed: because it took too long, because it
/// could not be read, or because the peer left. A peer that leaves without a word
/// is reported, and so is one whose frame does not name a session; one that is
/// silent or cannot be read is not.
pub proof fn law_what_a_first_frame_comes_to(
    handshake: AcceptorView,
    msg: MessageView,
    text: Seq<char>,
)
    ensures
        frame_in(FirstFrameView::Frame(msg)) == Ok::<MessageView, ErrorView>(msg),
        frame_in(FirstFrameView::TimedOut(text)) == Err::<MessageView, ErrorView>(
            ErrorView::ConnectionFailed(text),
        ),
        frame_in(FirstFrameView::Failed(text)) == Err::<MessageView, ErrorView>(
            ErrorView::ConnectionFailed("Failed to read first message: "@ + text),
        ),
        frame_in(FirstFrameView::Closed) == Err::<MessageView, ErrorView>(
            ErrorView::ConnectionFailed("Connection closed before first message"@),
        ),
        match handshake.identified(msg) {
            Ok(v) => welcomed(handshake, FirstFrameView::Frame(msg)) == Ok::<
                AcceptorView,
                (ErrorView, bool),
            >(v),
            Err(e) => welcomed(handshake, FirstFrameView::Frame(msg)) == Err::<
                AcceptorView,
                (ErrorView, bool),
            >((e, true)),
        },
        welcomed(handshake, FirstFrameView::Closed) matches Err((_, reported)) && reported,
        welcomed(handshake, FirstFrameView::TimedOut(text)) matches Err((_, reported))
            && !reported,
        welcomed(handshake, FirstFrameView::Failed(text)) matches Err((_, reported)) && !reported,
{
}

} // verus!
