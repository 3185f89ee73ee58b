use vstd::prelude::*;

verus! {

/// A package version: `major.minor.patch`, optionally followed by a numeric
/// pre-release tag (`1.2.0-3`). A pre-release orders before its release.
#[derive(Clone, Copy, Debug, PartialEq, Eq, Structural)]
pub struct Version {
    pub major: u64,
    pub minor: u64,
    pub patch: u64,
    pub pre: Option<u64>,
}

/// Strict order on the pre-release tags of equal `major.minor.patch` triples.
pub open spec fn pre_lt(a: Option<u64>, b: Option<u64>) -> bool {
    match (a, b) {
        (Some(x), Some(y)) => x < y,
        (Some(_), None) => true,
        _ => false,
    }
}

/// Strict semantic-version order.
pub open spec fn version_lt(a: Version, b: Version) -> bool {
    ||| a.major < b.major
    ||| a.major == b.major && a.minor < b.minor
    ||| a.major == b.major && a.minor == b.minor && a.patch < b.patch
    ||| a.major == b.major && a.minor == b.minor && a.patch == b.patch && pre_lt(a.pre, b.pre)
}

pub open spec fn version_le(a: Version, b: Version) -> bool {
    version_lt(a, b) || a == b
}

/// Outcome of comparing two versions.
#[derive(Clone, Copy, Debug, PartialEq, Eq, Structural)]
pub enum VersionOrder {
    Less,
    Equal,
    Greater,
}

impl Version {
    pub fn new(major: u64, minor: u64, patch: u64) -> (r: Version)
        ensures
            r == (Version { major, minor, patch, pre: None }),
    {
        Version { major, minor, patch, pre: None }
    }

    pub fn new_pre(major: u64, minor: u64, patch: u64, pre: u64) -> (r: Version)
        ensures
            r == (Version { major, minor, patch, pre: Some(pre) }),
    {
        Version { major, minor, patch, pre: Some(pre) }
    }

    pub fn is_prerelease(&self) -> (r: bool)
        ensures
            r == self.pre.is_some(),
    {
        self.pre.is_some()
    }

    /// Three-way comparison in semantic-version order.
    pub fn compare(&self, other: &Version) -> (r: VersionOrder)
        ensures
            (r == VersionOrder::Less) == version_lt(*self, *other),
            (r == VersionOrder::Equal) == (*self == *other),
            (r == VersionOrder::Greater) == version_lt(*other, *self),
    {
        if self.major != other.major {
            if self.major < other.major { VersionOrder::Less } else { VersionOrder::Greater }
        } else if self.minor != other.minor {
            if self.minor < other.minor { VersionOrder::Less } else { VersionOrder::Greater }
        } else if self.patch != other.patch {
            if self.patch < other.patch { VersionOrder::Less } else { VersionOrder::Greater }
        } else {
            match (self.pre, other.pre) {
                (None, None) => VersionOrder::Equal,
                (Some(_), None) => VersionOrder::Less,
                (None, Some(_)) => VersionOrder::Greater,
                (Some(x), Some(y)) => {
                    if x < y {
                        VersionOrder::Less
                    } else if x == y {
                        VersionOrder::Equal
                    } else {
                        VersionOrder::Greater
                    }
                },
            }
        }
    }

    pub fn less_than(&self, other: &Version) -> (r: bool)
        ensures
            r == version_lt(*self, *other),
    {
        self.compare(other) == VersionOrder::Less
    }
}

/// The range of versions that a dependency entry accepts.
#[derive(Clone, Copy, Debug, PartialEq, Eq, Structural)]
pub enum DependencyRange {
    /// A bare version, `x.y.z`: that version or any later one.
    AtLeast(Version),
    /// `lower` inclusive up to `upper` exclusive (`^1.2.0` is `1.2.0` up to `2.0.0`).
    Between(Version, Version),
}

impl DependencyRange {
    pub open spec fn spec_matches(self, v: Version) -> bool {
        match self {
            DependencyRange::AtLeast(min) => version_le(min, v),
            DependencyRange::Between(lo, hi) => version_le(lo, v) && version_lt(v, hi),
        }
    }

    /// The range written as the bare version `v`.
    pub fn version(v: Version) -> (r: DependencyRange)
        ensures
            r == DependencyRange::AtLeast(v),
    {
        DependencyRange::AtLeast(v)
    }

    pub fn between(lower: Version, upper: Version) -> (r: DependencyRange)
        ensures
            r == DependencyRange::Between(lower, upper),
    {
        DependencyRange::Between(lower, upper)
    }

    /// The version when the range is written as a single bare version.
    pub fn as_single_version(&self) -> (r: Option<Version>)
        ensures
            r == (match *self {
                DependencyRange::AtLeast(v) => Some(v),
                DependencyRange::Between(_, _) => None::<Version>,
            }),
    {
        match self {
            DependencyRange::AtLeast(v) => Some(*v),
            DependencyRange::Between(_, _) => None,
        }
    }

    pub fn matches(&self, v: &Version) -> (r: bool)
        ensures
            r == self.spec_matches(*v),
    {
        match self {
            DependencyRange::AtLeast(min) => !v.less_than(min),
            DependencyRange::Between(lo, hi) => !v.less_than(lo) && v.less_than(hi),
        }
    }
}

} // verus!
