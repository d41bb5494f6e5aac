//! Catalogued trace events: an assertion label the verification
//! framework counts and fault-injects on, paired with the namespace
//! specific string of the URN naming the event kind
//! (`urn:tightbeam:<nss>`).

use vstd::prelude::*;

verus! {

/// One catalogued trace event: an assertion label for spec counting
/// and fault injection, plus the namespace of the URN identifying the
/// event kind on the instrumentation plane
/// (`urn:tightbeam:<component>:event/<kind>`).
#[derive(Debug, Clone, Copy, PartialEq, Eq)]
pub struct TraceEvent {
    label: &'static str,
    nss: &'static str,
}

impl TraceEvent {
    /// The label of this event.
    pub closed spec fn label_view(&self) -> Seq<char> {
        self.label@
    }

    /// The URN namespace of this event.
    pub closed spec fn nss_view(&self) -> Seq<char> {
        self.nss@
    }

    /// Catalog a new event kind under `urn:tightbeam:<nss>`.
    pub fn new(label: &'static str, nss: &'static str) -> (event: Self)
        ensures
            event.label_view() == label@,
            event.nss_view() == nss@,
    {
        TraceEvent { label, nss }
    }

    /// The assertion label the verification framework counts.
    pub fn label(&self) -> (label: &'static str)
        ensures
            label@ == self.label_view(),
    {
        self.label
    }

    /// The namespace specific string of the URN naming this event kind.
    pub fn nss(&self) -> (nss: &'static str)
        ensures
            nss@ == self.nss_view(),
    {
        self.nss
    }
}

} // verus!
