//! The registry of the decoder factory.
use vstd::prelude::*;

verus! {

/// The factory that is registered after one is offered: an earlier one stays.
pub open spec fn registered_after<F>(registered: Option<F>, factory: Option<F>) -> Option<F> {
    if registered is Some {
        registered
    } else {
        factory
    }
}

/// Once a factory is registered, no other takes its place.
pub proof fn lemma_first_factory_stays<F>(registered: Option<F>, first: F, later: Option<F>)
    ensures
        registered_after(registered_after(registered, Some(first)), later) == registered_after(
            registered,
            Some(first),
        ),
{
}

/// The decoder factory of a process, of whatever type the factories are.
///
/// A factory is registered once and for all. A test may put another in its place for a while.
#[derive(Debug)]
pub struct DecoderFactories<F> {
    registered: Option<F>,
    in_test: Option<F>,
}

impl<F: Copy> DecoderFactories<F> {
    /// The factory that is registered.
    pub closed spec fn spec_registered(self) -> Option<F> {
        self.registered
    }

    /// The factory that a test has put in its place.
    pub closed spec fn spec_in_test(self) -> Option<F> {
        self.in_test
    }

    /// The factory to use.
    pub open spec fn current(self) -> Option<F> {
        if self.spec_in_test() is Some {
            self.spec_in_test()
        } else {
            self.spec_registered()
        }
    }

    /// A registry without a factory.
    pub fn new() -> (r: Self)
        ensures
            r.spec_registered() is None,
            r.spec_in_test() is None,
    {
        DecoderFactories { registered: None, in_test: None }
    }

    /// The factory to use.
    pub fn registered_decoder_factory(&self) -> (r: Option<F>)
        ensures
            r == self.current(),
    {
        if let Some(factory) = self.test_decoder_factory_override() {
            return Some(factory);
        }
        self.registered
    }

    /// Registers a factory. Nothing changes if none is given, or if one is registered already.
    pub fn mic_spoofing_set_decoder_factory(&mut self, factory: Option<F>)
        ensures
            final(self).spec_registered() == registered_after(old(self).spec_registered(), factory),
            final(self).spec_in_test() == old(self).spec_in_test(),
    {
        if self.registered.is_none() {
            self.registered = factory;
        }
    }

    /// The factory that a test has put in place of the registered one.
    pub fn test_decoder_factory_override(&self) -> (r: Option<F>)
        ensures
            r == self.spec_in_test(),
    {
        self.in_test
    }

    /// Puts a factory in place of the registered one, or takes it away, and returns the one that
    /// was there, to be put back later.
    pub fn set_test_decoder_factory(&mut self, factory: Option<F>) -> (r: Option<F>)
        ensures
            r == old(self).spec_in_test(),
            final(self).spec_in_test() == factory,
            final(self).spec_registered() == old(self).spec_registered(),
    {
        let previous = self.in_test;
        self.in_test = factory;
        previous
    }
}

/// The first factory that is offered is registered, and offering none changes nothing.
pub proof fn lemma_first_factory_is_registered<F>(registered: Option<F>, first: F)
    ensures
        registered_after(None, Some(first)) == Some(first),
        registered_after(registered, None) == registered,
        registered is Some ==> registered_after(registered, Some(first)) == registered,
{
}

/// The factory of a test is used in place of the registered one as long as it is there.
pub proof fn lemma_test_factory_comes_first<F: Copy>(factories: DecoderFactories<F>)
    ensures
        factories.spec_in_test() is Some ==> factories.current() == factories.spec_in_test(),
        factories.spec_in_test() is None ==> factories.current() == factories.spec_registered(),
{
}

} // verus!
