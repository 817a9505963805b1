//! The entity that produces telemetry: a service, host, or process.

use vstd::prelude::*;
use crate::attributes::{AttrV, AttributeValue, Attributes};

verus! {

/// `service.name`, from the OpenTelemetry semantic conventions.
pub const SERVICE_NAME: &'static str = "service.name";

/// `service.version`.
pub const SERVICE_VERSION: &'static str = "service.version";

/// `service.instance.id`.
pub const SERVICE_INSTANCE_ID: &'static str = "service.instance.id";

/// `host.name`.
pub const HOST_NAME: &'static str = "host.name";

/// `deployment.environment`.
pub const DEPLOYMENT_ENVIRONMENT: &'static str = "deployment.environment";

/// The origin of a piece of telemetry: the attributes describing the
/// service, host, or process that emitted it.
#[derive(Debug, PartialEq)]
pub struct Resource {
    attributes: Attributes,
}

impl View for Resource {
    type V = Map<Seq<char>, AttrV>;

    /// The resource's attributes.
    closed spec fn view(&self) -> Map<Seq<char>, AttrV> {
        self.attributes@
    }
}

impl Resource {
    /// An empty resource.
    pub fn new() -> (r: Resource)
        ensures
            r@ == Map::<Seq<char>, AttrV>::empty(),
    {
        Resource { attributes: Attributes::new() }
    }

    /// A resource identified by its `service.name`.
    pub fn service(name: &str) -> (r: Resource)
        ensures
            r@ == Map::<Seq<char>, AttrV>::empty().insert(SERVICE_NAME@, AttrV::Str(name@)),
    {
        Resource {
            attributes: Attributes::new().with(SERVICE_NAME, AttributeValue::String(name.to_owned())),
        }
    }

    /// Set an attribute, returning `self` for chaining.
    pub fn with(self, key: &str, value: AttributeValue) -> (r: Resource)
        ensures
            r@ == self@.insert(key@, value@),
    {
        let mut r = self;
        r.attributes.insert(key, value);
        r
    }

    /// The underlying attributes.
    pub fn attributes(&self) -> (a: &Attributes)
        ensures
            a@ == self@,
    {
        &self.attributes
    }

    /// The `service.name`, if set (and a string).
    pub fn service_name(&self) -> (r: Option<&str>)
        ensures
            r matches Some(v) ==> self@.contains_key(SERVICE_NAME@) && self@[SERVICE_NAME@]
                == AttrV::Str(v@),
            r is None ==> !(self@.contains_key(SERVICE_NAME@) && self@[SERVICE_NAME@] is Str),
    {
        self.attributes.get_str(SERVICE_NAME)
    }

    /// The `host.name`, if set (and a string).
    pub fn host_name(&self) -> (r: Option<&str>)
        ensures
            r matches Some(v) ==> self@.contains_key(HOST_NAME@) && self@[HOST_NAME@] == AttrV::Str(
                v@,
            ),
            r is None ==> !(self@.contains_key(HOST_NAME@) && self@[HOST_NAME@] is Str),
    {
        self.attributes.get_str(HOST_NAME)
    }
}

impl Clone for Resource {
    fn clone(&self) -> (r: Resource)
        ensures
            r@ == self@,
    {
        Resource { attributes: self.attributes.clone() }
    }
}

} // verus!
