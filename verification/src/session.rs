//! Lifecycle of the single capture session.
//!
//! A manager is either idle or active. While active it owns the context that
//! is shared with the producer; the context leaves the manager only through
//! [`SessionManager::stop_capture`], which hands it back so that the caller
//! can halt the audio source first and dispose of the context afterwards.

use vstd::prelude::*;
use crate::resampler::{Resampler, ResamplerState};

verus! {

/// Why a capture session was not started.
#[derive(Clone, Copy, Debug, PartialEq, Eq, Structural)]
pub enum StartError {
    /// A session is active already; stop it and try again.
    AlreadyCapturing,
    /// The audio source refused the registration and gave this code.
    BackendStartFailed { code: i32 },
    /// The platform has no capture mechanism.
    UnsupportedPlatform,
    /// The shared state was left poisoned by an earlier failure.
    LockUnavailable,
}

impl StartError {
    /// A recoverable error leaves the manager usable; only a poisoned lock
    /// does not.
    pub fn is_recoverable(&self) -> (r: bool)
        ensures
            r == !(*self is LockUnavailable),
    {
        match self {
            StartError::LockUnavailable => false,
            _ => true,
        }
    }
}

/// The two states of the lifecycle.
#[derive(Clone, Copy, Debug, PartialEq, Eq, Structural)]
pub enum Lifecycle {
    Idle,
    Active,
}

/// What `admit_start` answers for a manager that holds `session`.
pub open spec fn admitted<C>(session: Option<C>, supported: bool) -> Result<(), StartError> {
    if session is Some {
        Err(StartError::AlreadyCapturing)
    } else if !supported {
        Err(StartError::UnsupportedPlatform)
    } else {
        Ok(())
    }
}

/// The session held after `complete_start`, and what it answers.
pub open spec fn completed<C>(session: Option<C>, context: C, code: i32) -> (
    Option<C>,
    Result<(), StartError>,
) {
    if session is Some {
        (session, Err(StartError::AlreadyCapturing))
    } else if code != 0 {
        (None, Err(StartError::BackendStartFailed { code }))
    } else {
        (Some(context), Ok(()))
    }
}

/// The session held after `stop_capture`, and the context that it hands back.
pub open spec fn stopped<C>(session: Option<C>) -> (Option<C>, Option<C>) {
    (None, session)
}

/// Whether a resampler is as a new session needs it: valid, with silent
/// history and phase zero.
pub open spec fn started_fresh<T: Copy>(resampler: Resampler<T>, silence: T) -> bool {
    &&& resampler.wf()
    &&& resampler@ == ResamplerState::fresh(silence)
    &&& resampler.silence() == silence
}

/// Owner of at most one capture session and of its shared context.
pub struct SessionManager<C> {
    session: Option<C>,
}

impl<C> SessionManager<C> {
    /// The context of the active session, if there is one.
    pub closed spec fn session(&self) -> Option<C> {
        self.session
    }

    pub open spec fn lifecycle(&self) -> Lifecycle {
        if self.session() is Some {
            Lifecycle::Active
        } else {
            Lifecycle::Idle
        }
    }

    /// A manager without a session.
    pub fn new() -> (m: Self)
        ensures
            m.session() is None,
    {
        SessionManager { session: None }
    }

    pub fn state(&self) -> (l: Lifecycle)
        ensures
            l == self.lifecycle(),
    {
        if self.session.is_some() {
            Lifecycle::Active
        } else {
            Lifecycle::Idle
        }
    }

    /// The context of the active session.
    pub fn context(&self) -> (c: Option<&C>)
        ensures
            c is Some == self.session() is Some,
            c is Some ==> *c->0 == self.session()->0,
    {
        self.session.as_ref()
    }

    /// Decides whether a start may go on to register with the audio source.
    /// `supported` is the platform's answer to the capability query.
    pub fn admit_start(&self, supported: bool) -> (r: Result<(), StartError>)
        ensures
            r == admitted(self.session(), supported),
    {
        if self.session.is_some() {
            Err(StartError::AlreadyCapturing)
        } else if !supported {
            Err(StartError::UnsupportedPlatform)
        } else {
            Ok(())
        }
    }

    /// Takes the audio source's answer to the registration of `context`.
    /// Code zero makes the session active with that context; any other code
    /// discards the context and leaves the manager idle. A manager that is
    /// active already keeps its session untouched.
    pub fn complete_start(&mut self, context: C, code: i32) -> (r: Result<(), StartError>)
        ensures
            (final(self).session(), r) == completed(old(self).session(), context, code),
    {
        if self.session.is_some() {
            Err(StartError::AlreadyCapturing)
        } else if code != 0 {
            Err(StartError::BackendStartFailed { code })
        } else {
            self.session = Some(context);
            Ok(())
        }
    }

    /// Starts a session: admits the start, makes a resampler with silent
    /// history, has `make` build the shared context around it and `register`
    /// hand the context to the audio source, and takes the code that the
    /// source answers. Where the start is not admitted neither is called and
    /// the manager stays as it was.
    pub fn start_capture<T: Copy, Mk: FnOnce(Resampler<T>) -> C, Rg: FnOnce(&C) -> i32>(
        &mut self,
        supported: bool,
        silence: T,
        make: Mk,
        register: Rg,
    ) -> (r: Result<(), StartError>)
        requires
            forall|fresh: Resampler<T>| started_fresh(fresh, silence) ==> make.requires((fresh,)),
            forall|context: &C| register.requires((context,)),
        ensures
            admitted(old(self).session(), supported) is Err ==> r == admitted(
                old(self).session(),
                supported,
            ) && final(self).session() == old(self).session(),
            admitted(old(self).session(), supported) is Ok ==> exists|
                fresh: Resampler<T>,
                context: C,
                code: i32,
            |
                {
                    &&& started_fresh(fresh, silence)
                    &&& #[trigger] make.ensures((fresh,), context)
                    &&& #[trigger] register.ensures((&context,), code)
                    &&& (final(self).session(), r) == completed(
                        old(self).session(),
                        context,
                        code,
                    )
                },
    {
        match self.admit_start(supported) {
            Err(e) => Err(e),
            Ok(()) => {
                let fresh = Resampler::new(silence);
                assert(started_fresh(fresh, silence));
                let context = make(fresh);
                let code = register(&context);
                self.complete_start(context, code)
            },
        }
    }

    /// Ends the session. The context of the session that was active is handed
    /// back: the caller halts the audio source and only then drops it. On an
    /// idle manager nothing changes and nothing is handed back.
    pub fn stop_capture(&mut self) -> (released: Option<C>)
        ensures
            (final(self).session(), released) == stopped(old(self).session()),
    {
        self.session.take()
    }
}

/// A second start is refused and disturbs nothing: once a start has gone
/// through, admission fails with `AlreadyCapturing` whatever the platform
/// says, and a registration answer that arrives nevertheless leaves the first
/// session and its context in place.
pub proof fn law_session_exclusive<C>(first: C, second: C, supported: bool, code: i32)
    ensures
        completed(None, first, 0) == (Some(first), Ok::<(), StartError>(())),
        admitted(Some(first), supported) == Err::<(), StartError>(StartError::AlreadyCapturing),
        completed(Some(first), second, code) == (
            Some(first),
            Err::<(), StartError>(StartError::AlreadyCapturing),
        ),
{
}

/// Stopping an idle manager changes nothing and hands nothing back, and a
/// manager is idle after any stop: a second stop is such a stop.
pub proof fn law_idle_stop_is_noop<C>(session: Option<C>)
    ensures
        stopped(None::<C>) == (None::<C>, None::<C>),
        stopped(stopped(session).0) == (None::<C>, None::<C>),
{
}

/// The lifecycle has the two states and the four transitions only: a start
/// that goes through leads from idle to active, a start that fails leaves
/// idle as it is, a stop leads to idle from either state, and a start on an
/// active manager leaves it active.
pub proof fn law_lifecycle_transitions<C>(session: Option<C>, context: C, code: i32)
    ensures
        session is None && code == 0 ==> completed(session, context, code).0 == Some(context),
        session is None && code != 0 ==> completed(session, context, code).0 is None,
        session is Some ==> completed(session, context, code).0 == session,
        stopped(session).0 is None,
{
}

/// A start that the audio source refuses leaves no session behind.
pub proof fn law_failed_start_rolls_back<C>(context: C, code: i32)
    requires
        code != 0,
    ensures
        completed(None, context, code) == (
            None::<C>,
            Err::<(), StartError>(StartError::BackendStartFailed { code }),
        ),
{
}

} // verus!
