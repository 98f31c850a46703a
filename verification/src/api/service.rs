//! The authenticated client state of the service and its builder.
//!
//! Building a service makes two requests: an IAM token for the API key,
//! then the list of IBM Cloud instances. The requests are made around this
//! module; `ServiceBuilder::finish` takes their answers.

use vstd::prelude::*;
use crate::api::device::Device;
use crate::api::iam::IAM;
use crate::api::structs::{Channel, InstancesResponse};

verus! {

/// The state of an authenticated client of the service.
pub struct Service {
    /// Access channel.
    pub _channel: Channel,
    /// API key used for authentication.
    pub _token: String,
    /// The backend in use, chosen with `use_backend`.
    pub backends: Device,
    /// Base URL of the API.
    pub _url: String,
    /// CRN of the IBM Quantum Runtime instance (`Service-CRN` header).
    pub instance: String,
    /// IBM Cloud region (`"us-east"`).
    pub _region: String,
    /// Current IAM access token.
    pub iam: IAM,
}

/// The settings of a service to build.
pub struct ServiceBuilder {
    /// API key.
    pub token: Option<String>,
    /// Access channel.
    pub channel: Option<Channel>,
    /// Base URL.
    pub url: Option<String>,
    /// Instance CRN.
    pub _instance: Option<String>,
    /// IBM Cloud region.
    pub region: Option<String>,
}

/// The text of an optional setting, or the default.
pub open spec fn or_default(o: Option<String>, d: Seq<char>) -> Seq<char> {
    match o {
        Some(s) => s@,
        None => d,
    }
}

/// The error when the API key opens no instance.
pub open spec fn no_instance_text() -> Seq<char> {
    "No resource instance found for the provided API key."@
}

impl ServiceBuilder {
    /// Sets the IBM Cloud API key.
    pub fn token(self, token: String) -> (r: ServiceBuilder)
        ensures
            r.token == Some(token),
            r.channel == self.channel,
            r.url == self.url,
            r._instance == self._instance,
            r.region == self.region,
    {
        ServiceBuilder { token: Some(token), ..self }
    }

    /// Sets the access channel.
    pub fn channel(self, channel: Channel) -> (r: ServiceBuilder)
        ensures
            r.token == self.token,
            r.channel == Some(channel),
            r.url == self.url,
            r._instance == self._instance,
            r.region == self.region,
    {
        ServiceBuilder { channel: Some(channel), ..self }
    }

    /// Sets the base URL of the API.
    pub fn url(self, url: String) -> (r: ServiceBuilder)
        ensures
            r.token == self.token,
            r.channel == self.channel,
            r.url == Some(url),
            r._instance == self._instance,
            r.region == self.region,
    {
        ServiceBuilder { url: Some(url), ..self }
    }

    /// Sets the IBM Cloud region (`"eu-de"`, `"us-east"`).
    pub fn region(self, region: String) -> (r: ServiceBuilder)
        ensures
            r.token == self.token,
            r.channel == self.channel,
            r.url == self.url,
            r._instance == self._instance,
            r.region == Some(region),
    {
        ServiceBuilder { region: Some(region), ..self }
    }

    /// The API key to authenticate with: the token given, else `no_token`.
    pub fn api_key(&self) -> (r: String)
        ensures
            r@ == or_default(self.token, "no_token"@),
    {
        match &self.token {
            Some(t) => t.clone(),
            None => "no_token".to_owned(),
        }
    }

    /// Builds the service from the IAM token obtained with `api_key` and the
    /// instances of that key: the first instance is used. Fails when the key
    /// opens no instance.
    pub fn finish(self, iam: IAM, instances: InstancesResponse) -> (r: Result<Service, String>)
        requires
            instances.rows_count > 0 ==> instances.resources@.len() > 0,
        ensures
            instances.rows_count == 0 ==> r is Err && r->Err_0@ == no_instance_text(),
            instances.rows_count > 0 ==> (r matches Ok(s) && s._token@ == or_default(self.token, "no_token"@)
                && s._channel == (match self.channel {
                Some(c) => c,
                None => Channel::IbmQuantumPlatform,
            }) && s._url@ == or_default(self.url, "https://quantum-computing.ibm.com/api"@)
                && s.instance@ == instances.resources@[0].crn@ && s._region@ == or_default(self.region, "us-east"@)
                && s.backends.is_placeholder() && s.iam == iam),
    {
        let token = self.api_key();
        if instances.rows_count == 0 {
            return Err("No resource instance found for the provided API key.".to_owned());
        }
        let channel = match self.channel {
            Some(c) => c,
            None => Channel::IbmQuantumPlatform,
        };
        let url = match self.url {
            Some(u) => u,
            None => "https://quantum-computing.ibm.com/api".to_owned(),
        };
        let region = match self.region {
            Some(r) => r,
            None => "us-east".to_owned(),
        };
        let instance = instances.resources[0].crn.clone();
        Ok(Service {
            _token: token,
            _channel: channel,
            _url: url,
            instance,
            _region: region,
            backends: Device::default(),
            iam,
        })
    }
}

impl Service {
    /// A builder with nothing set.
    pub fn builder() -> (r: ServiceBuilder)
        ensures
            r.token is None,
            r.channel is None,
            r.url is None,
            r._instance is None,
            r.region is None,
    {
        ServiceBuilder { token: None, channel: None, url: None, _instance: None, region: None }
    }

    /// Chooses the backend used for jobs and transpilation.
    pub fn use_backend(&mut self, backend: Device)
        ensures
            final(self).backends == backend,
            final(self)._token == old(self)._token,
            final(self).instance == old(self).instance,
            final(self).iam == old(self).iam,
            final(self)._url == old(self)._url,
            final(self)._region == old(self)._region,
            final(self)._channel == old(self)._channel,
    {
        self.backends = backend;
    }

    /// The name of the backend in use.
    pub fn backend_name(&self) -> (r: &str)
        ensures
            r@ == self.backends.name@,
    {
        self.backends.name.as_str()
    }
}

impl Default for Service {
    /// An unauthenticated service with the default settings.
    fn default() -> (r: Service)
        ensures
            r._channel == Channel::IbmQuantumPlatform,
            r._token@ == Seq::<char>::empty(),
            r.backends.is_placeholder(),
            r._url@ == "https://quantum.cloud.ibm.com/api/v1"@,
            r.instance@ == Seq::<char>::empty(),
            r._region@ == "us-east"@,
            r.iam.is_empty_token(),
    {
        Service {
            _channel: Channel::IbmQuantumPlatform,
            _token: String::new(),
            backends: Device::default(),
            _url: "https://quantum.cloud.ibm.com/api/v1".to_owned(),
            instance: String::new(),
            _region: "us-east".to_owned(),
            iam: IAM::default(),
        }
    }
}

} // verus!
