//! The package model: one buildable unit with its manifest data, resolved
//! source files and dependency packages.  Constructed once by the driver
//! and only read here.

use vstd::prelude::*;

verus! {

/// The build profile, which decides flags and the output directory.
#[derive(Clone, Copy, PartialEq, Eq, Structural, Debug)]
pub enum Profile {
    Debug,
    Release,
}

impl Profile {
    /// The directory-name spelling of the profile.
    pub open spec fn name_spec(self) -> Seq<char> {
        if self is Debug {
            "debug"@
        } else {
            "release"@
        }
    }

    /// The directory-name spelling of the profile.
    pub fn name(&self) -> (r: &'static str)
        ensures
            r@ == self.name_spec(),
    {
        match self {
            Profile::Debug => "debug",
            Profile::Release => "release",
        }
    }
}

/// Declared packaging metadata for an archive, with an optionally
/// declared entry point.
pub struct JarMetadata {
    pub main_class: Option<String>,
}

/// One buildable unit ("bobje"): identity, profile, declared build
/// options, resolved source files, and its directly declared dependency
/// packages, themselves resolved.
pub struct Bobje {
    pub name: String,
    pub version: String,
    pub profile: Profile,
    pub target_dir: String,
    /// Extra compiler flags declared in the manifest.
    pub javac_flags: String,
    /// Extra classpath entries declared in the manifest.
    pub classpath: Vec<String>,
    /// Packaging metadata, when the manifest declares an archive.
    pub jar: Option<JarMetadata>,
    pub source_files: Vec<String>,
    pub dependencies: Vec<Bobje>,
}

impl Bobje {
    /// The profile-dependent output directory.
    pub open spec fn out_dir_spec(&self) -> Seq<char> {
        self.target_dir@ + "/"@ + self.profile.name_spec()
    }

    /// The profile-dependent output directory.
    pub fn out_dir(&self) -> (r: String)
        ensures
            r@ == self.out_dir_spec(),
    {
        let mut r = self.target_dir.clone();
        r.append("/");
        r.append(self.profile.name());
        r
    }

    /// The directory that compiled classes go to.
    pub open spec fn classes_dir_spec(&self) -> Seq<char> {
        self.out_dir_spec() + "/classes"@
    }

    /// The directory that compiled classes go to.
    pub fn classes_dir(&self) -> (r: String)
        ensures
            r@ == self.classes_dir_spec(),
    {
        let mut r = self.out_dir();
        r.append("/classes");
        r
    }
}

} // verus!
