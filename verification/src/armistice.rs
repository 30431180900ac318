//! The core state: a root configuration and the root symmetric key, driven
//! by decoded requests.

use vstd::prelude::*;

use crate::crypto::{PublicKey, RootKey};
use crate::error::Error;
use crate::root::{spec_uuid, Root};
use crate::schema;
use crate::schema::provision;
use crate::schema::request::Request;
use crate::schema::response::Response;

verus! {

/// What a wire public key stands for in the core.
pub open spec fn core_key(k: schema::PublicKey) -> PublicKey {
    match k {
        schema::PublicKey::Ed25519(bytes) => PublicKey::Ed25519(bytes),
    }
}

/// What a wire key list stands for in the core.
pub open spec fn core_keys(keys: Seq<schema::PublicKey>) -> Seq<PublicKey> {
    keys.map_values(|k: schema::PublicKey| core_key(k))
}

/// The core state.  A single instance exclusively owns one root
/// configuration; no other component mutates it.
pub struct Armistice {
    /// Root configuration.
    root_config: Root,
    /// Root symmetric key.
    root_key: RootKey,
}

impl Armistice {
    /// The held root configuration, for contracts.
    pub closed spec fn root_view(self) -> Root {
        self.root_config
    }

    /// The held root key, for contracts.
    pub closed spec fn key_view(self) -> RootKey {
        self.root_key
    }

    /// The configuration invariant holds.
    pub open spec fn wf(self) -> bool {
        self.root_view().wf()
    }

    /// A committed configuration exists: the threshold is nonzero.
    pub open spec fn provisioned(self) -> bool {
        self.root_view().threshold_view() != 0
    }

    /// Create new core state around the injected root key.  The root role
    /// starts empty: unprovisioned.
    pub fn new(root_key: RootKey) -> (r: Armistice)
        ensures
            r.wf(),
            !r.provisioned(),
            r.key_view() == root_key,
    {
        Armistice { root_config: Root::empty(), root_key }
    }

    /// Get the root configuration.
    pub fn root_config(&self) -> (r: &Root)
        ensures
            r == self.root_view(),
    {
        &self.root_config
    }

    /// Get the root key.
    pub fn root_key(&self) -> (r: &RootKey)
        ensures
            r == self.key_view(),
    {
        &self.root_key
    }

    /// Are we already provisioned?
    pub fn is_provisioned(&self) -> (r: bool)
        ensures
            r == self.provisioned(),
    {
        !self.root_config.is_empty()
    }

    /// Perform initial device provisioning: commit the threshold and keys,
    /// exactly once for the lifetime of the process.
    ///
    /// Validation failures leave the state untouched, and after one success
    /// every further call fails the same way whatever its arguments.
    pub fn provision(&mut self, threshold: u64, keys: &Vec<PublicKey>) -> (r: Result<
        provision::Response,
        Error,
    >)
        requires
            old(self).wf(),
        ensures
            final(self).wf(),
            final(self).key_view() == old(self).key_view(),
            if old(self).provisioned() {
                &&& r == Err::<provision::Response, Error>(Error::AlreadyProvisioned)
                &&& final(self).root_view() == old(self).root_view()
            } else if keys@.len() > 8 {
                &&& r == Err::<provision::Response, Error>(Error::CapacityExceeded)
                &&& final(self).root_view() == old(self).root_view()
            } else if !(1 <= threshold <= keys@.len()) {
                &&& r == Err::<provision::Response, Error>(Error::InvalidThreshold)
                &&& final(self).root_view() == old(self).root_view()
            } else {
                &&& match r {
                    Ok(resp) => resp.wf() && resp.uuid@ == spec_uuid(threshold, keys@),
                    Err(_) => false,
                }
                &&& final(self).provisioned()
                &&& final(self).root_view().threshold_view() == threshold
                &&& final(self).root_view().keys_view() == keys@
            },
    {
        if self.is_provisioned() {
            return Err(Error::AlreadyProvisioned);
        }
        let root = match Root::new(threshold, keys) {
            Ok(root) => root,
            Err(e) => {
                return Err(e);
            },
        };
        self.root_config = root;
        let uuid = self.root_config.uuid();
        Ok(provision::Response { uuid })
    }

    /// Process one decoded request, returning the response or the error
    /// the root authority produced.
    pub fn handle_request(&mut self, request: &Request) -> (r: Result<Response, Error>)
        requires
            old(self).wf(),
            request.wf(),
        ensures
            final(self).wf(),
            final(self).key_view() == old(self).key_view(),
            match request {
                Request::Provision(m) => if old(self).provisioned() {
                    &&& r == Err::<Response, Error>(Error::AlreadyProvisioned)
                    &&& final(self).root_view() == old(self).root_view()
                } else if !(1 <= m.root_key_threshold <= m.root_keys@.len()) {
                    &&& r == Err::<Response, Error>(Error::InvalidThreshold)
                    &&& final(self).root_view() == old(self).root_view()
                } else {
                    &&& match r {
                        Ok(Response::Provision(resp)) => resp.wf() && resp.uuid@ == spec_uuid(
                            m.root_key_threshold, core_keys(m.root_keys@)),
                        Err(_) => false,
                    }
                    &&& final(self).provisioned()
                    &&& final(self).root_view().threshold_view() == m.root_key_threshold
                    &&& final(self).root_view().keys_view() == core_keys(m.root_keys@)
                },
            },
    {
        match request {
            Request::Provision(m) => {
                let nkeys = m.root_keys.len();
                let mut keys: Vec<PublicKey> = Vec::new();
                let mut i: usize = 0;
                while i < nkeys
                    invariant
                        i <= nkeys == m.root_keys@.len(),
                        m.root_keys.wf(),
                        keys@ == core_keys(m.root_keys@.take(i as int)),
                    decreases nkeys - i,
                {
                    keys.push(PublicKey::from(*m.root_keys.get(i)));
                    proof {
                        assert(keys@ =~= core_keys(m.root_keys@.take(i + 1)));
                    }
                    i = i + 1;
                }
                proof {
                    assert(m.root_keys@.take(nkeys as int) =~= m.root_keys@);
                    assert(core_keys(m.root_keys@).len() == m.root_keys@.len());
                }
                match self.provision(m.root_key_threshold, &keys) {
                    Ok(resp) => Ok(Response::Provision(resp)),
                    Err(e) => Err(e),
                }
            },
        }
    }
}

} // verus!
