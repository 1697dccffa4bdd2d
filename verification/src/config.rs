//! Resolution of the two directory paths a run works with, and the yes/no
//! confirmation answer. The caller observes the filesystem (does the path
//! exist, does it hold an `instances` subdirectory, how many entries does
//! that subdirectory have) and hands those observations in as plain values;
//! the decision chains here are verified against them.

use vstd::prelude::*;

verus! {

/// The two directory paths a run operates on: the launcher root that holds
/// the `instances` tree, and the flat directory that files are copied into.
pub struct Config {
    pub multimc_folder: String,
    pub output_folder: String,
}

/// Why a candidate source root was rejected.
#[derive(Clone, Copy, Debug, PartialEq, Eq)]
pub enum SourceError {
    /// The candidate path is the empty string.
    EmptySourcePath,
    /// The candidate path does not exist on disk.
    SourceNotFound,
    /// The path exists but holds no `instances` subdirectory.
    MissingInstancesDirectory,
    /// The `instances` subdirectory holds no entries at all.
    NoInstancesPresent,
}

/// The outcome of checking a candidate destination root.
#[derive(Clone, Copy, Debug, PartialEq, Eq)]
pub enum DestinationCheck {
    /// The candidate path is the empty string: rejected.
    EmptyDestinationPath,
    /// The path does not exist yet: the caller should create it (with any
    /// missing parents) and accept the path if creation succeeds.
    NeedsCreation,
    /// The path exists: accepted as it is.
    UseExisting,
}

/// The source-root validation chain: the first failing condition wins.
pub open spec fn source_check(
    path: Seq<char>,
    path_exists: bool,
    instances_exists: bool,
    instances_entry_count: nat,
) -> Result<(), SourceError> {
    if path.len() == 0 {
        Err(SourceError::EmptySourcePath)
    } else if !path_exists {
        Err(SourceError::SourceNotFound)
    } else if !instances_exists {
        Err(SourceError::MissingInstancesDirectory)
    } else if instances_entry_count == 0 {
        Err(SourceError::NoInstancesPresent)
    } else {
        Ok(())
    }
}

/// The destination-root check: an empty string is rejected, a missing path
/// is to be created, an existing path is used as it is.
pub open spec fn destination_check(path: Seq<char>, path_exists: bool) -> DestinationCheck {
    if path.len() == 0 {
        DestinationCheck::EmptyDestinationPath
    } else if !path_exists {
        DestinationCheck::NeedsCreation
    } else {
        DestinationCheck::UseExisting
    }
}

impl Config {
    /// Builds the initial configuration from the argument list. With exactly
    /// three arguments (program name and two paths) the two paths are taken
    /// from the list; with any other count both start out empty, so that
    /// validation fails and the caller prompts for them instead.
    pub fn new(args: &Vec<String>) -> (config: Config)
        ensures
            args@.len() == 3 ==> config.multimc_folder@ == args@[1]@
                && config.output_folder@ == args@[2]@,
            args@.len() != 3 ==> config.multimc_folder@ == Seq::<char>::empty()
                && config.output_folder@ == Seq::<char>::empty(),
    {
        if args.len() == 3 {
            Config { multimc_folder: args[1].clone(), output_folder: args[2].clone() }
        } else {
            Config { multimc_folder: String::new(), output_folder: String::new() }
        }
    }

    /// Decides whether a candidate source root is acceptable, given what the
    /// caller observed on disk: whether the path exists, whether it holds an
    /// `instances` subdirectory, and how many entries that subdirectory has.
    pub fn validate_multimc_folder(
        path: &str,
        path_exists: bool,
        instances_exists: bool,
        instances_entry_count: usize,
    ) -> (r: Result<(), SourceError>)
        ensures
            r == source_check(path@, path_exists, instances_exists, instances_entry_count as nat),
    {
        if path.is_empty() {
            Err(SourceError::EmptySourcePath)
        } else if !path_exists {
            Err(SourceError::SourceNotFound)
        } else if !instances_exists {
            Err(SourceError::MissingInstancesDirectory)
        } else if instances_entry_count == 0 {
            Err(SourceError::NoInstancesPresent)
        } else {
            Ok(())
        }
    }

    /// Decides what to do with a candidate destination root, given whether
    /// the path exists on disk.
    pub fn validate_output_folder(path: &str, path_exists: bool) -> (r: DestinationCheck)
        ensures
            r == destination_check(path@, path_exists),
    {
        if path.is_empty() {
            DestinationCheck::EmptyDestinationPath
        } else if !path_exists {
            DestinationCheck::NeedsCreation
        } else {
            DestinationCheck::UseExisting
        }
    }
}

/// ASCII lower-casing of one byte: upper-case letters move to lower case,
/// every other byte stays as it is.
pub open spec fn lower_byte(b: u8) -> u8 {
    if 65 <= b && b <= 90 {
        (b + 32) as u8
    } else {
        b
    }
}

/// ASCII lower-casing of a byte string.
pub open spec fn lowered(s: Seq<u8>) -> Seq<u8> {
    s.map_values(|b: u8| lower_byte(b))
}

/// How a trimmed confirmation answer reads, after ASCII lower-casing:
/// `y`/`yes` accept, `n`/`no` decline, anything else is no answer and the
/// caller asks again.
pub open spec fn confirmation_of(s: Seq<u8>) -> Option<bool> {
    let l = lowered(s);
    if l == seq![121u8] || l == seq![121u8, 101u8, 115u8] {
        Some(true)
    } else if l == seq![110u8] || l == seq![110u8, 111u8] {
        Some(false)
    } else {
        None
    }
}

/// Reads a trimmed confirmation answer, given as bytes: `Some(true)` for
/// `y`/`yes`, `Some(false)` for `n`/`no`, case-insensitively, and `None` for
/// anything else, upon which the caller prompts again.
pub fn parse_confirmation(answer: &Vec<u8>) -> (r: Option<bool>)
    ensures
        r == confirmation_of(answer@),
{
    let mut low: Vec<u8> = Vec::new();
    let mut i: usize = 0;
    while i < answer.len()
        invariant
            i <= answer@.len(),
            low@ == lowered(answer@.take(i as int)),
        decreases answer@.len() - i,
    {
        let b = answer[i];
        let lb: u8 = if 65 <= b && b <= 90 {
            b + 32
        } else {
            b
        };
        low.push(lb);
        proof {
            assert(low@ =~= lowered(answer@.take(i as int + 1)));
        }
        i += 1;
    }
    proof {
        assert(answer@.take(answer@.len() as int) =~= answer@);
    }
    let r: Option<bool> = if low.len() == 1 && low[0] == 121u8 {
        proof {
            assert(low@ =~= seq![121u8]);
        }
        Some(true)
    } else if low.len() == 3 && low[0] == 121u8 && low[1] == 101u8 && low[2] == 115u8 {
        proof {
            assert(low@ =~= seq![121u8, 101u8, 115u8]);
        }
        Some(true)
    } else if low.len() == 1 && low[0] == 110u8 {
        proof {
            assert(low@ =~= seq![110u8]);
        }
        Some(false)
    } else if low.len() == 2 && low[0] == 110u8 && low[1] == 111u8 {
        proof {
            assert(low@ =~= seq![110u8, 111u8]);
        }
        Some(false)
    } else {
        None
    };
    r
}

/// A path that is non-empty and exists, with a non-empty `instances`
/// subdirectory, passes the source validation outright, and any non-empty
/// destination path is either used as it is or handed to creation: no
/// re-prompt is needed for such a pair.
pub proof fn lemma_valid_paths_accepted(
    path: Seq<char>,
    instances_entry_count: nat,
    dest: Seq<char>,
    dest_exists: bool,
)
    requires
        path.len() > 0,
        instances_entry_count > 0,
        dest.len() > 0,
    ensures
        source_check(path, true, true, instances_entry_count) == Ok::<(), SourceError>(()),
        destination_check(dest, dest_exists) != DestinationCheck::EmptyDestinationPath,
{
}

/// An empty source path is always rejected as empty, whatever else was
/// observed on disk.
pub proof fn lemma_empty_source_always_rejected(
    path_exists: bool,
    instances_exists: bool,
    instances_entry_count: nat,
)
    ensures
        source_check(Seq::<char>::empty(), path_exists, instances_exists, instances_entry_count)
            == Err::<(), SourceError>(SourceError::EmptySourcePath),
{
}

/// An existing source root whose `instances` subdirectory holds no entries
/// is rejected for that reason.
pub proof fn lemma_empty_instances_rejected(path: Seq<char>)
    requires
        path.len() > 0,
    ensures
        source_check(path, true, true, 0) == Err::<(), SourceError>(SourceError::NoInstancesPresent),
{
}

} // verus!
