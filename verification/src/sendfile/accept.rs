//! Admitting connections, with a policy that may refuse one.
use vstd::prelude::*;

verus! {

/// What was decided about a connection.
pub enum Decision<P> {
    /// There is no policy.
    NoPolicy,
    /// The policy admits it, with these settings.
    Admit(P),
    /// The policy refuses it.
    Refuse,
}

/// What happened.
pub enum AdmitEvent<C, P, E> {
    /// Connections are to be accepted.
    Begin,
    /// A connection came, or none could be accepted.
    Accepted(Result<C, E>),
    /// It was looked up whether the listener has a local address.
    Bound(bool),
    /// The policy decided.
    Decided(Decision<P>),
    /// The connection was told not to delay small writes, or could not be.
    NoDelay(Result<(), E>),
}

/// What to do next.
pub enum AdmitAction<P, E> {
    /// Accept a connection.
    Accept,
    /// Look up the local address of the listener.
    ReadLocalAddr,
    /// Ask the policy about the connection that waits.
    Decide,
    /// Tell the connection not to delay small writes.
    SetNoDelay,
    /// Serve the connection, with these settings.
    Serve(Option<P>),
    /// Report that the listener has no local address.
    NotBound,
    /// Report an error.
    Fail(E),
}

/// The message on a listener without a local address.
pub fn not_bound() -> (r: &'static str)
    ensures
        r@ == "acceptor is bound to nothing"@,
{
    "acceptor is bound to nothing"
}

/// The state of an admission.
pub struct AdmitModel<C, P> {
    /// The connection that waits for a decision.
    pub pending: Option<C>,
    /// The connection that was admitted and is being set up.
    pub admitted: Option<C>,
    /// The settings it was admitted with.
    pub settings: Option<P>,
}

/// The connection that waits is admitted with these settings; where none waits, one is accepted.
pub open spec fn let_in<C, P, E>(m: AdmitModel<C, P>, settings: Option<P>) -> (
    AdmitModel<C, P>,
    AdmitAction<P, E>,
) {
    match m.pending {
        Some(conn) => (
            AdmitModel { pending: None, admitted: Some(conn), settings },
            AdmitAction::SetNoDelay,
        ),
        None => (m, AdmitAction::Accept),
    }
}

/// What an admission does on an event. A connection that waits is not accepted over; one that is
/// refused is dropped, and the next is accepted.
pub open spec fn admit_step<C, P, E>(m: AdmitModel<C, P>, event: AdmitEvent<C, P, E>) -> (
    AdmitModel<C, P>,
    AdmitAction<P, E>,
) {
    match event {
        AdmitEvent::Begin => (
            m,
            if m.pending is Some {
                AdmitAction::ReadLocalAddr
            } else {
                AdmitAction::Accept
            },
        ),
        AdmitEvent::Accepted(Ok(conn)) => (
            AdmitModel { pending: Some(conn), ..m },
            AdmitAction::ReadLocalAddr,
        ),
        AdmitEvent::Accepted(Err(e)) => (m, AdmitAction::Fail(e)),
        AdmitEvent::Bound(bound) => (
            m,
            if bound {
                AdmitAction::Decide
            } else {
                AdmitAction::NotBound
            },
        ),
        AdmitEvent::Decided(Decision::Refuse) => (
            AdmitModel { pending: None, ..m },
            AdmitAction::Accept,
        ),
        AdmitEvent::Decided(Decision::NoPolicy) => let_in(m, None),
        AdmitEvent::Decided(Decision::Admit(settings)) => let_in(m, Some(settings)),
        AdmitEvent::NoDelay(Ok(_)) => (
            AdmitModel { settings: None, ..m },
            AdmitAction::Serve(m.settings),
        ),
        AdmitEvent::NoDelay(Err(e)) => (
            AdmitModel { admitted: None, settings: None, ..m },
            AdmitAction::Fail(e),
        ),
    }
}

/// The admission of connections. An accepted connection waits here while it is decided about, so
/// that it is not lost when the decision is given up.
pub struct Admission<C, P> {
    pending: Option<C>,
    admitted: Option<C>,
    settings: Option<P>,
}

impl<C, P> Admission<C, P> {
    /// The state of the admission.
    pub closed spec fn model(&self) -> AdmitModel<C, P> {
        AdmitModel { pending: self.pending, admitted: self.admitted, settings: self.settings }
    }

    /// No connection yet.
    pub fn new() -> (r: Admission<C, P>)
        ensures
            r.model() == (AdmitModel {
                pending: None::<C>,
                admitted: None::<C>,
                settings: None::<P>,
            }),
    {
        Admission { pending: None, admitted: None, settings: None }
    }

    /// The connection that waits for a decision.
    pub fn waiting(&self) -> (r: Option<&C>)
        ensures
            r is Some <==> self.model().pending is Some,
            r matches Some(c) ==> self.model().pending == Some(*c),
    {
        match &self.pending {
            Some(c) => Some(c),
            None => None,
        }
    }

    /// Takes the connection that was admitted.
    pub fn take(&mut self) -> (r: Option<C>)
        ensures
            r == old(self).model().admitted,
            final(self).model() == (AdmitModel { admitted: None, ..old(self).model() }),
    {
        self.admitted.take()
    }

    /// Takes an event and says what to do next.
    pub fn step<E>(&mut self, event: AdmitEvent<C, P, E>) -> (r: AdmitAction<P, E>)
        ensures
            (final(self).model(), r) == admit_step(old(self).model(), event),
    {
        match event {
            AdmitEvent::Begin => if self.pending.is_some() {
                AdmitAction::ReadLocalAddr
            } else {
                AdmitAction::Accept
            },
            AdmitEvent::Accepted(Ok(conn)) => {
                self.pending = Some(conn);
                AdmitAction::ReadLocalAddr
            },
            AdmitEvent::Accepted(Err(error)) => AdmitAction::Fail(error),
            AdmitEvent::Bound(bound) => if bound {
                AdmitAction::Decide
            } else {
                AdmitAction::NotBound
            },
            AdmitEvent::Decided(Decision::Refuse) => {
                self.pending = None;
                AdmitAction::Accept
            },
            AdmitEvent::Decided(Decision::NoPolicy) => self.let_in(None),
            AdmitEvent::Decided(Decision::Admit(settings)) => self.let_in(Some(settings)),
            AdmitEvent::NoDelay(Ok(_)) => AdmitAction::Serve(self.settings.take()),
            AdmitEvent::NoDelay(Err(error)) => {
                self.admitted = None;
                self.settings = None;
                AdmitAction::Fail(error)
            },
        }
    }

    fn let_in<E>(&mut self, settings: Option<P>) -> (r: AdmitAction<P, E>)
        ensures
            (final(self).model(), r) == let_in::<C, P, E>(old(self).model(), settings),
    {
        match self.pending.take() {
            None => AdmitAction::Accept,
            Some(conn) => {
                self.admitted = Some(conn);
                self.settings = settings;
                AdmitAction::SetNoDelay
            },
        }
    }
}

/// A connection that was accepted is not lost while it is decided about: whatever happens but a
/// decision, or another connection, leaves it waiting.
pub proof fn law_waiting_is_kept<C, P, E>(m: AdmitModel<C, P>, event: AdmitEvent<C, P, E>)
    requires
        m.pending is Some,
        !(event is Decided),
        !(event matches AdmitEvent::Accepted(Ok(_))),
    ensures
        admit_step(m, event).0.pending == m.pending,
        event is Begin ==> !(admit_step(m, event).1 is Accept),
{
}

/// A connection that is accepted waits to be let in; a failure changes nothing and is reported.
pub proof fn law_accepted_waits<C, P, E>(m: AdmitModel<C, P>, conn: C, error: E)
    ensures
        ({
            let (after, action) = admit_step(m, AdmitEvent::<C, P, E>::Accepted(Ok(conn)));
            &&& action is ReadLocalAddr
            &&& after.pending == Some(conn)
            &&& after.admitted == m.admitted
            &&& after.settings == m.settings
        }),
        admit_step(m, AdmitEvent::<C, P, E>::Accepted(Err(error))) == (m, AdmitAction::<P, E>::Fail(
            error,
        )),
        admit_step(m, AdmitEvent::<C, P, E>::Bound(true)) == (m, AdmitAction::<P, E>::Decide),
        admit_step(m, AdmitEvent::<C, P, E>::Bound(false)) == (m, AdmitAction::<P, E>::NotBound),
        m.pending is None ==> admit_step(m, AdmitEvent::<C, P, E>::Begin).1 is Accept,
        m.pending is Some ==> admit_step(m, AdmitEvent::<C, P, E>::Begin).1 is ReadLocalAddr,
{
}

/// A connection that is refused is dropped, and the next one is accepted; what was let in before stays.
pub proof fn law_refused_is_dropped<C, P, E>(m: AdmitModel<C, P>)
    ensures
        ({
            let (after, action) = admit_step(
                m,
                AdmitEvent::<C, P, E>::Decided(Decision::Refuse),
            );
            &&& action is Accept
            &&& after.pending is None
            &&& after.admitted == m.admitted
        }),
{
}

/// The connection that waited is the one that is let in, and it is served with the settings that were
/// decided for it, or with none where there is no policy. Where it cannot be set up, it is dropped.
pub proof fn law_served_as_decided<C, P, E>(
    m: AdmitModel<C, P>,
    conn: C,
    settings: P,
    error: E,
)
    requires
        m.pending == Some(conn),
    ensures
        ({
            let (let_in, first) = admit_step(
                m,
                AdmitEvent::<C, P, E>::Decided(Decision::Admit(settings)),
            );
            let (served, second) = admit_step(let_in, AdmitEvent::<C, P, E>::NoDelay(Ok(())));
            let (dropped, third) = admit_step(let_in, AdmitEvent::<C, P, E>::NoDelay(Err(error)));
            &&& first is SetNoDelay
            &&& let_in.pending is None && let_in.admitted == Some(conn)
            &&& second == AdmitAction::<P, E>::Serve(Some(settings))
            &&& served.admitted == Some(conn) && served.pending is None
            &&& third == AdmitAction::<P, E>::Fail(error)
            &&& dropped.admitted is None && dropped.pending is None
        }),
        ({
            let (let_in, first) = admit_step(
                m,
                AdmitEvent::<C, P, E>::Decided(Decision::NoPolicy),
            );
            let (served, second) = admit_step(let_in, AdmitEvent::<C, P, E>::NoDelay(Ok(())));
            &&& first is SetNoDelay
            &&& second == AdmitAction::<P, E>::Serve(None)
            &&& served.admitted == Some(conn) && served.pending is None
        }),
{
}

} // verus!
