//! The choices a frame composer makes on its own: the protocol version a
//! frame needs for the fields it carries, and the small ordinals by which
//! versions and priorities cross a script boundary.

use vstd::prelude::*;

verus! {

/// Frame protocol versions, oldest first.
#[derive(Clone, Copy, Debug, PartialEq, Eq, Structural)]
pub enum FrameVersion {
    V0,
    V1,
    V2,
    V3,
}

impl FrameVersion {
    /// The version's ordinal (`V0` is 0, ..., `V3` is 3).
    pub open spec fn rank(self) -> u8 {
        match self {
            FrameVersion::V0 => 0,
            FrameVersion::V1 => 1,
            FrameVersion::V2 => 2,
            FrameVersion::V3 => 3,
        }
    }

    /// The version's ordinal (`V0` is 0, ..., `V3` is 3).
    pub fn ordinal(&self) -> (ordinal: u8)
        ensures
            ordinal == self.rank(),
    {
        match self {
            FrameVersion::V0 => 0,
            FrameVersion::V1 => 1,
            FrameVersion::V2 => 2,
            FrameVersion::V3 => 3,
        }
    }
}

/// The version with ordinal `ordinal`, if there is one (`0..=3`).
pub fn version_from_ordinal(ordinal: u8) -> (version: Option<FrameVersion>)
    ensures
        version is Some <==> ordinal <= 3,
        version matches Some(v) ==> v.rank() == ordinal,
{
    match ordinal {
        0 => Some(FrameVersion::V0),
        1 => Some(FrameVersion::V1),
        2 => Some(FrameVersion::V2),
        3 => Some(FrameVersion::V3),
        _ => None,
    }
}

/// Message priorities, lowest first.
#[derive(Clone, Copy, Debug, PartialEq, Eq, Structural)]
pub enum Priority {
    LowEffort,
    Standard,
    HighThroughput,
    LowLatency,
    Expedited,
    NetworkControl,
}

impl Priority {
    /// The priority's ordinal (`LowEffort` is 0, ..., `NetworkControl` is 5).
    pub open spec fn rank(self) -> u8 {
        match self {
            Priority::LowEffort => 0,
            Priority::Standard => 1,
            Priority::HighThroughput => 2,
            Priority::LowLatency => 3,
            Priority::Expedited => 4,
            Priority::NetworkControl => 5,
        }
    }
}

/// The priority with ordinal `ordinal`, if there is one (`0..=5`).
pub fn priority_from_ordinal(ordinal: u8) -> (priority: Option<Priority>)
    ensures
        priority is Some <==> ordinal <= 5,
        priority matches Some(p) ==> p.rank() == ordinal,
{
    match ordinal {
        0 => Some(Priority::LowEffort),
        1 => Some(Priority::Standard),
        2 => Some(Priority::HighThroughput),
        3 => Some(Priority::LowLatency),
        4 => Some(Priority::Expedited),
        5 => Some(Priority::NetworkControl),
        _ => None,
    }
}

/// Which optional parts a frame is asked to carry, and the version it is
/// pinned to, if any.
#[derive(Clone, Copy, Debug)]
pub struct FrameFields {
    /// An explicitly pinned version; otherwise the floor is used.
    pub version: Option<FrameVersion>,
    /// An N×N control matrix (a V3 feature).
    pub matrix: bool,
    /// A sha3-256 commitment to the body (V2).
    pub message_integrity: bool,
    /// A sha3-256 witness of the envelope (V2).
    pub frame_integrity: bool,
    /// A message priority (V2).
    pub priority: bool,
    /// A time-to-live (V2).
    pub lifetime: bool,
    /// A link to a parent frame by digest (V2).
    pub previous_hash: bool,
    /// A signature (V1).
    pub signed: bool,
}

impl FrameFields {
    /// The lowest version that admits every requested part.
    pub open spec fn floor(self) -> FrameVersion {
        if self.matrix {
            FrameVersion::V3
        } else if self.message_integrity || self.frame_integrity || self.priority || self.lifetime
            || self.previous_hash {
            FrameVersion::V2
        } else if self.signed {
            FrameVersion::V1
        } else {
            FrameVersion::V0
        }
    }

    /// The version a frame with these parts is built at: the pinned one,
    /// or else the lowest that admits every requested part.
    pub fn effective_version(&self) -> (version: FrameVersion)
        ensures
            version == (match self.version {
                Some(pinned) => pinned,
                None => self.floor(),
            }),
            self.version is None ==> admits(version, *self),
            self.version is None ==> forall|v: FrameVersion| admits(v, *self) ==> version.rank() <= v.rank(),
    {
        proof {
            lemma_floor_is_the_least_admitting_version(*self);
        }
        if let Some(version) = self.version {
            return version;
        }
        if self.matrix {
            return FrameVersion::V3;
        }
        if self.message_integrity || self.frame_integrity || self.priority || self.lifetime || self.previous_hash {
            return FrameVersion::V2;
        }
        if self.signed {
            return FrameVersion::V1;
        }
        FrameVersion::V0
    }
}

/// Law: an unpinned frame is built at a version at least as high as each
/// requested part needs: V3 for a matrix, V2 for integrity, priority,
/// lifetime or a parent link, V1 for a signature.
pub proof fn lemma_floor_admits_parts(fields: FrameFields)
    ensures
        fields.matrix ==> fields.floor().rank() >= 3,
        fields.message_integrity || fields.frame_integrity || fields.priority || fields.lifetime
            || fields.previous_hash ==> fields.floor().rank() >= 2,
        fields.signed ==> fields.floor().rank() >= 1,
{
}

/// Whether frames at version `v` can carry every part `fields` asks for:
/// a matrix needs V3; message or frame integrity, a priority, a lifetime
/// or a parent link need V2; a signature needs V1.
pub open spec fn admits(v: FrameVersion, fields: FrameFields) -> bool {
    &&& fields.matrix ==> v.rank() >= 3
    &&& fields.message_integrity ==> v.rank() >= 2
    &&& fields.frame_integrity ==> v.rank() >= 2
    &&& fields.priority ==> v.rank() >= 2
    &&& fields.lifetime ==> v.rank() >= 2
    &&& fields.previous_hash ==> v.rank() >= 2
    &&& fields.signed ==> v.rank() >= 1
}

/// Law: an unpinned frame is built at the lowest version that admits every
/// requested part. The floor admits them all, and no version below it
/// does; so its rank is the largest need among the parts (3 for a matrix,
/// 2 for integrity, priority, lifetime or a parent link, 1 for a
/// signature, 0 for none).
pub proof fn lemma_floor_is_the_least_admitting_version(fields: FrameFields)
    ensures
        admits(fields.floor(), fields),
        forall|v: FrameVersion| #[trigger] admits(v, fields) ==> fields.floor().rank() <= v.rank(),
{
}

} // verus!
