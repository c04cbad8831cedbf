//! Configuration of the Wikidata API client: the user agent and the
//! request timeout, as plain values.  The network client itself is
//! assembled outside the verified core from these.

use vstd::prelude::*;

verus! {

pub struct Wikidata {
    user_agent: String,
    timeout_seconds: u64,
}

impl Wikidata {
    pub closed spec fn user_agent_view(self) -> Seq<char> {
        self.user_agent@
    }

    pub closed spec fn timeout_secs(self) -> u64 {
        self.timeout_seconds
    }

    /// A client configuration with the default user agent and the default
    /// SPARQL timeout of one minute.
    pub fn new() -> (r: Self)
        ensures
            r.user_agent_view() == "wikimisc-wikidata/0.1.0"@,
            r.timeout_secs() == 60,
    {
        Wikidata { user_agent: "wikimisc-wikidata/0.1.0".to_owned(), timeout_seconds: 60 }
    }

    pub fn set_user_agent(&mut self, user_agent: &str)
        ensures
            final (self).user_agent_view() == user_agent@,
            final (self).timeout_secs() == old(self).timeout_secs(),
    {
        self.user_agent = user_agent.to_owned();
    }

    pub fn set_timeout(&mut self, timeout_seconds: u64)
        ensures
            final (self).timeout_secs() == timeout_seconds,
            final (self).user_agent_view() == old(self).user_agent_view(),
    {
        self.timeout_seconds = timeout_seconds;
    }

    pub fn user_agent(&self) -> (r: &str)
        ensures
            r@ == self.user_agent_view(),
    {
        self.user_agent.as_str()
    }

    pub fn timeout_seconds(&self) -> (r: u64)
        ensures
            r == self.timeout_secs(),
    {
        self.timeout_seconds
    }
}

} // verus!
