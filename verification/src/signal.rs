//! Signal kinds and the pure rules of the process-signal handler: which
//! platform signal maps to which kind, and when a kind is added to a
//! handler's subscription list. The actual listening is asynchronous I/O
//! and lives outside the library.

use vstd::prelude::*;

verus! {

/// Windows-specific console signals.
#[derive(Clone, Copy, Debug, PartialEq, Eq, Structural)]
pub enum WindowsSignalKind {
    /// The `Ctrl-Break` signal.
    CtrlBreak,
    /// The `Ctrl-C` signal.
    CtrlC,
    /// The `Ctrl-Close` signal.
    CtrlClose,
    /// The `Ctrl-Logoff` signal.
    CtrlLogoff,
    /// The `Ctrl-Shutdown` signal.
    CtrlShutdown,
}

/// The kind of signal to listen for, portable across platforms.
#[derive(Clone, Copy, Debug, PartialEq, Eq, Structural)]
pub enum SignalKind {
    /// The interrupt signal: `SIGINT` on Unix, `Ctrl-C` on Windows.
    Interrupt,
    /// The terminate signal: `SIGTERM` on Unix, `Ctrl-Close` on Windows.
    Terminate,
    /// Any other Windows console signal.
    Windows(WindowsSignalKind),
    /// Any other Unix signal, by its raw number.
    Unix(i32),
}

/// The signal kind a Windows console signal stands for: `Ctrl-C` is the
/// interrupt, `Ctrl-Close` the terminate, the rest stay Windows-specific.
pub open spec fn spec_from_windows(value: WindowsSignalKind) -> SignalKind {
    match value {
        WindowsSignalKind::CtrlC => SignalKind::Interrupt,
        WindowsSignalKind::CtrlClose => SignalKind::Terminate,
        WindowsSignalKind::CtrlBreak => SignalKind::Windows(value),
        WindowsSignalKind::CtrlLogoff => SignalKind::Windows(value),
        WindowsSignalKind::CtrlShutdown => SignalKind::Windows(value),
    }
}

impl From<WindowsSignalKind> for SignalKind {
    fn from(value: WindowsSignalKind) -> (r: SignalKind) {
        match value {
            WindowsSignalKind::CtrlC => SignalKind::Interrupt,
            WindowsSignalKind::CtrlClose => SignalKind::Terminate,
            WindowsSignalKind::CtrlBreak => SignalKind::Windows(value),
            WindowsSignalKind::CtrlLogoff => SignalKind::Windows(value),
            WindowsSignalKind::CtrlShutdown => SignalKind::Windows(value),
        }
    }
}

impl vstd::std_specs::convert::FromSpecImpl<WindowsSignalKind> for SignalKind {
    open spec fn obeys_from_spec() -> bool {
        true
    }

    open spec fn from_spec(value: WindowsSignalKind) -> SignalKind {
        spec_from_windows(value)
    }
}

/// The raw number of `SIGINT` on Unix.
pub const SIGINT_RAW: i32 = 2;

/// The raw number of `SIGTERM` on Unix.
pub const SIGTERM_RAW: i32 = 15;

/// The signal kind a raw Unix signal number stands for: `SIGINT` is the
/// interrupt, `SIGTERM` the terminate, the rest stay Unix-specific.
pub open spec fn spec_from_unix_raw(raw: i32) -> SignalKind {
    if raw == SIGINT_RAW {
        SignalKind::Interrupt
    } else if raw == SIGTERM_RAW {
        SignalKind::Terminate
    } else {
        SignalKind::Unix(raw)
    }
}

impl SignalKind {
    /// The signal kind a raw Unix signal number stands for.
    pub fn from_unix_raw(raw: i32) -> (r: SignalKind)
        ensures
            r == spec_from_unix_raw(raw),
    {
        if raw == SIGINT_RAW {
            SignalKind::Interrupt
        } else if raw == SIGTERM_RAW {
            SignalKind::Terminate
        } else {
            SignalKind::Unix(raw)
        }
    }

    /// Whether this kind answers to the given Windows console signal:
    /// the interrupt to `Ctrl-C`, the terminate to `Ctrl-Close`, and a
    /// Windows-specific kind to its own signal, by plain comparison.
    pub fn matches_windows(&self, other: WindowsSignalKind) -> (r: bool)
        ensures
            r == spec_matches_windows(*self, other),
    {
        match self {
            SignalKind::Interrupt => matches!(other, WindowsSignalKind::CtrlC),
            SignalKind::Terminate => matches!(other, WindowsSignalKind::CtrlClose),
            SignalKind::Windows(kind) => *kind == other,
            SignalKind::Unix(_) => false,
        }
    }

    /// Whether this kind answers to the given raw Unix signal number:
    /// the interrupt to `SIGINT`, the terminate to `SIGTERM`, and a
    /// Unix-specific kind to its own number, by plain comparison.
    pub fn matches_unix_raw(&self, raw: i32) -> (r: bool)
        ensures
            r == spec_matches_unix_raw(*self, raw),
    {
        match self {
            SignalKind::Interrupt => raw == SIGINT_RAW,
            SignalKind::Terminate => raw == SIGTERM_RAW,
            SignalKind::Unix(n) => *n == raw,
            SignalKind::Windows(_) => false,
        }
    }
}

/// What [`SignalKind::matches_windows`] returns: each portable kind against
/// the console signal it answers to, the wrapped kind compared plainly.
pub open spec fn spec_matches_windows(k: SignalKind, other: WindowsSignalKind) -> bool {
    match k {
        SignalKind::Interrupt => other == WindowsSignalKind::CtrlC,
        SignalKind::Terminate => other == WindowsSignalKind::CtrlClose,
        SignalKind::Windows(kind) => kind == other,
        SignalKind::Unix(_) => false,
    }
}

/// What [`SignalKind::matches_unix_raw`] returns: each portable kind
/// against the raw number it answers to, the wrapped number compared
/// plainly.
pub open spec fn spec_matches_unix_raw(k: SignalKind, raw: i32) -> bool {
    match k {
        SignalKind::Interrupt => raw == SIGINT_RAW,
        SignalKind::Terminate => raw == SIGTERM_RAW,
        SignalKind::Unix(n) => n == raw,
        SignalKind::Windows(_) => false,
    }
}

/// The matching relations agree with the conversions: a kind built from a
/// platform signal answers to that signal.
pub proof fn lemma_signal_matching_agrees_with_from(w: WindowsSignalKind, raw: i32)
    ensures
        spec_matches_windows(spec_from_windows(w), w),
        spec_matches_unix_raw(spec_from_unix_raw(raw), raw),
{
}

/// The subscription list of a signal handler: the kinds it listens for, in
/// the order they were added, each at most once.
pub struct SignalRegistry {
    kinds: Vec<SignalKind>,
}

impl View for SignalRegistry {
    type V = Seq<SignalKind>;

    closed spec fn view(&self) -> Seq<SignalKind> {
        self.kinds@
    }
}

impl SignalRegistry {
    /// No two entries are the same kind.
    pub open spec fn no_duplicates(self) -> bool {
        forall|i: int, j: int|
            0 <= i < j < self@.len() ==> self@[i] != self@[j]
    }

    /// An empty subscription list.
    pub fn new() -> (r: SignalRegistry)
        ensures
            r@ == Seq::<SignalKind>::empty(),
            r.no_duplicates(),
    {
        SignalRegistry { kinds: Vec::new() }
    }

    /// How many kinds are subscribed.
    pub fn len(&self) -> (n: usize)
        ensures
            n == self@.len(),
    {
        self.kinds.len()
    }

    /// The kind at position `i`.
    pub fn get(&self, i: usize) -> (k: SignalKind)
        requires
            i < self@.len(),
        ensures
            k == self@[i as int],
    {
        self.kinds[i]
    }

    /// Subscribes a kind: appended if it is new, left alone if it is
    /// already subscribed, so the list never holds a kind twice.
    pub fn try_add(&mut self, kind: SignalKind) -> (added: bool)
        requires
            old(self).no_duplicates(),
        ensures
            added == !old(self)@.contains(kind),
            final(self)@ == if added {
                old(self)@.push(kind)
            } else {
                old(self)@
            },
            final(self).no_duplicates(),
    {
        let n = self.kinds.len();
        let mut i: usize = 0;
        while i < n
            invariant
                old(self).no_duplicates(),
                n == self.kinds@.len(),
                i <= n,
                forall|j: int| 0 <= j < i ==> self.kinds@[j] != kind,
                *self == *old(self),
            decreases n - i,
        {
            if self.kinds[i] == kind {
                assert(self@.contains(kind)) by {
                    assert(self@[i as int] == kind);
                }
                return false;
            }
            i = i + 1;
        }
        assert(!self@.contains(kind)) by {
            if self@.contains(kind) {
                let j = choose|j: int| 0 <= j < self@.len() && self@[j] == kind;
                assert(self.kinds@[j] != kind);
            }
        }
        self.kinds.push(kind);
        return true;
    }
}

} // verus!
