//! Resolution of a symbolic extraction target to a concrete directory.
//! Purely a mapping: no directory is created here.

use vstd::prelude::*;

verus! {

/// A symbolic extraction target, resolved to an absolute directory only
/// at use time.
#[derive(Debug, Clone)]
pub enum ExtractDestination {
    /// System temporary directory plus the extraction name.
    Temp,
    /// Downloads directory plus the extraction name.
    Downloads,
    /// The game's addon-install directory, used as-is.
    Addons,
    /// An explicit directory, used verbatim with no name suffix.
    Directory(String),
    /// An explicit directory plus the extraction name.
    NamedDirectory(String),
}

/// Mathematical model of a symbolic destination.
pub enum DestinationModel {
    Temp,
    Downloads,
    Addons,
    Directory(Seq<char>),
    NamedDirectory(Seq<char>),
}

impl View for ExtractDestination {
    type V = DestinationModel;

    open spec fn view(&self) -> DestinationModel {
        match self {
            ExtractDestination::Temp => DestinationModel::Temp,
            ExtractDestination::Downloads => DestinationModel::Downloads,
            ExtractDestination::Addons => DestinationModel::Addons,
            ExtractDestination::Directory(p) => DestinationModel::Directory(p@),
            ExtractDestination::NamedDirectory(p) => DestinationModel::NamedDirectory(p@),
        }
    }
}

impl Default for ExtractDestination {
    /// The default target is the temporary directory.
    fn default() -> (r: Self)
        ensures
            r@ is Temp,
    {
        ExtractDestination::Temp
    }
}

/// The directories the surrounding application provides: the system
/// temporary directory always exists; the downloads directory and the
/// game's install directory may not be configured.
#[derive(Debug, Clone)]
pub struct DirProviders {
    pub temp_dir: String,
    pub downloads_dir: Option<String>,
    pub install_dir: Option<String>,
}

/// A directory joined with one more component.
pub open spec fn spec_join(dir: Seq<char>, name: Seq<char>) -> Seq<char> {
    dir + "/"@ + name
}

/// Where a symbolic destination resolves to, given the extraction name
/// and the provided directories: explicit directories are used as
/// given; the downloads and install targets fall back to the temporary
/// directory plus name when their provider has nothing.  Resolution
/// always succeeds.
pub open spec fn spec_resolve(
    dest: DestinationModel,
    name: Seq<char>,
    temp: Seq<char>,
    downloads: Option<Seq<char>>,
    install: Option<Seq<char>>,
) -> Seq<char> {
    match dest {
        DestinationModel::Temp => spec_join(temp, name),
        DestinationModel::Directory(p) => p,
        DestinationModel::NamedDirectory(p) => spec_join(p, name),
        DestinationModel::Downloads => match downloads {
            Some(d) => spec_join(d, name),
            None => spec_join(temp, name),
        },
        DestinationModel::Addons => match install {
            Some(d) => spec_join(spec_join(d, "GarrysMod"@), "addons"@),
            None => spec_join(temp, name),
        },
    }
}

/// Destination resolution never fails: with no install directory
/// configured, the install target resolves to the temporary directory
/// plus the extraction name.
pub proof fn lemma_destination_fallback(
    name: Seq<char>,
    temp: Seq<char>,
    downloads: Option<Seq<char>>,
)
    ensures
        spec_resolve(DestinationModel::Addons, name, temp, downloads, None) == spec_join(
            temp,
            name,
        ),
        spec_resolve(DestinationModel::Downloads, name, temp, None, None) == spec_join(
            temp,
            name,
        ),
{
}

/// Joins a directory and one more component with a forward slash.
pub fn join_dir(dir: &str, name: &str) -> (r: String)
    ensures
        r@ == spec_join(dir@, name@),
{
    let mut s = String::from_str(dir);
    s.append("/");
    s.append(name);
    s
}

impl ExtractDestination {
    /// Resolves this symbolic destination against the extraction name
    /// and the provided directories.
    pub fn into(self, extracted_name: &str, dirs: &DirProviders) -> (r: String)
        ensures
            r@ == spec_resolve(
                self@,
                extracted_name@,
                dirs.temp_dir@,
                match dirs.downloads_dir {
                    Some(ref d) => Some(d@),
                    None => None,
                },
                match dirs.install_dir {
                    Some(ref d) => Some(d@),
                    None => None,
                },
            ),
    {
        match self {
            ExtractDestination::Temp => join_dir(dirs.temp_dir.as_str(), extracted_name),
            ExtractDestination::Directory(p) => p,
            ExtractDestination::NamedDirectory(p) => join_dir(p.as_str(), extracted_name),
            ExtractDestination::Downloads => match &dirs.downloads_dir {
                Some(d) => join_dir(d.as_str(), extracted_name),
                None => join_dir(dirs.temp_dir.as_str(), extracted_name),
            },
            ExtractDestination::Addons => match &dirs.install_dir {
                Some(d) => {
                    let base = join_dir(d.as_str(), "GarrysMod");
                    join_dir(base.as_str(), "addons")
                },
                None => join_dir(dirs.temp_dir.as_str(), extracted_name),
            },
        }
    }
}

} // verus!
