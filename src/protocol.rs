use rune_core::protocol::Protocol;
use vstd::prelude::*;

verus! {

/// The parameter fingerprint that stands for "no parameters".
pub const EMPTY_HASH: u64 = 0;

/// Whether a hash is that of a protocol in the built-in catalogue.
pub uninterp spec fn is_builtin_protocol(hash: u64) -> bool;

/// Relies on `rune_core::protocol::Protocol::from_hash`: it returns the
/// catalogue's protocol whose hash is the one given, and `None` where no
/// protocol has it.
#[verifier::external_body]
fn lookup_protocol_hash(hash: u64) -> (r: Option<u64>)
    ensures
        r == (if is_builtin_protocol(hash) {
            Some(hash)
        } else {
            None
        }),
{
    Protocol::from_hash(rune_core::hash::Hash::new(hash)).map(|p| p.hash.into_inner())
}

/// A protocol, identified by its hash.
#[derive(Debug, Clone, Copy, PartialEq, Eq, Structural, Hash)]
pub struct ProtocolId {
    pub hash: u64,
}

/// What an associated function is attached to its type by.
#[derive(Debug, Clone, PartialEq, Eq, Hash)]
pub enum AssociatedKind {
    /// A protocol of the catalogue.
    Protocol(ProtocolId),
    /// An index operation through a protocol.
    IndexFn(ProtocolId, usize),
    /// A function with a name.
    Instance(String),
}

/// The name under which an associated function is registered.
#[derive(Debug, Clone, PartialEq, Eq, Hash)]
pub struct AssociatedFunctionName {
    /// What the function is associated by.
    pub associated: AssociatedKind,
    /// The fingerprint of the function's parameter types.
    pub function_parameters: u64,
}

/// The associated-function name of a protocol: the protocol itself, with the
/// empty parameter fingerprint.
pub open spec fn protocol_instance(p: ProtocolId) -> AssociatedFunctionName {
    AssociatedFunctionName {
        associated: AssociatedKind::Protocol(p),
        function_parameters: EMPTY_HASH,
    }
}

impl ProtocolId {
    /// The protocol of the catalogue with the given hash, if there is one.
    pub fn from_hash(hash: u64) -> (r: Option<ProtocolId>)
        ensures
            r == (if is_builtin_protocol(hash) {
                Some(ProtocolId { hash })
            } else {
                None
            }),
    {
        match lookup_protocol_hash(hash) {
            Some(h) => Some(ProtocolId { hash: h }),
            None => None,
        }
    }

    /// The name under which the function implementing this protocol is
    /// registered for a type.
    pub fn to_instance(self) -> (r: AssociatedFunctionName)
        ensures
            r == protocol_instance(self),
    {
        AssociatedFunctionName {
            associated: AssociatedKind::Protocol(self),
            function_parameters: EMPTY_HASH,
        }
    }
}

/// Converting a protocol is a function of the protocol alone, and two
/// protocols convert to the same name exactly when they are the same
/// protocol.
pub proof fn lemma_instance_identity(a: ProtocolId, b: ProtocolId)
    ensures
        (protocol_instance(a) == protocol_instance(b)) <==> (a == b),
{
    if protocol_instance(a) == protocol_instance(b) {
        assert(protocol_instance(a).associated == protocol_instance(b).associated);
    }
}

} // verus!
