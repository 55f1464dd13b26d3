//! Command decisions: profile resolution, execution of each command against
//! the store, and the pre-flight gate of apply.
//!
//! The caller parses arguments into `Commands`, runs `execute`, and performs
//! what the output asks for: writing the target file (after
//! `check_apply_target`), printing a preview or a listing. Failures carry a
//! `HostsError`; the caller reports them and exits non-zero. Storage and
//! rendering themselves cannot fail here: only absent profiles, absent
//! entries and an absent target file do.

use vstd::prelude::*;
use vstd::string::StringExecFns;

use crate::render::{entry_pairs, spec_render, HostEntry, HostsTemplate};
use crate::store::{pairs_view, Database};

verus! {

/// One parsed invocation.
pub struct Cli {
    pub command: Commands,
}

/// The command surface. Entry commands act on the active profile; apply and
/// test take an optional explicit profile name.
pub enum Commands {
    /// Insert or replace an entry under the active profile.
    Add { host: String, address: String },
    /// Delete an entry of the active profile; fails if absent.
    Remove { host: String },
    /// Rewrite an existing entry of the active profile; fails if absent.
    Update { host: String, address: String },
    /// Render the resolved profile and write the target file.
    Apply { profile: Option<String> },
    /// Show the target file as it is.
    Current,
    /// Render the resolved profile without writing.
    Test { profile: Option<String> },
    /// Profile lifecycle and selection.
    Profile { subcommand: ProfileCommands },
}

/// Profile lifecycle and selection commands.
pub enum ProfileCommands {
    Add { name: String },
    Remove { name: String },
    Use { name: String },
    List,
}

/// Failures of the decision logic. Storage faults and render faults arise
/// only at the persistence and output edges, which the caller owns.
#[derive(Clone, Copy, Debug, PartialEq, Eq, Structural)]
pub enum HostsError {
    /// The profile or entry named by the command does not exist.
    NotFound,
    /// The target hosts file is absent; apply refuses to create it.
    TargetMissing,
}

/// Output of a successfully executed command.
pub enum CmdOutput {
    /// The store changed; nothing to show.
    Done,
    /// The sorted profile names and the active profile, for listing.
    Profiles(Vec<String>, String),
    /// Rendered hosts-file text: apply writes it after the target check,
    /// test displays it.
    Rendered(String),
    /// The caller shows the target file's current content.
    ShowTarget,
}

/// The view of an optional name.
pub open spec fn opt_view(o: Option<String>) -> Option<Seq<char>> {
    match o {
        Some(s) => Some(s@),
        None => None,
    }
}

/// The resolved profile name: the explicit argument if given, else the
/// active pointer if set, else the fallback name. The fallback is subject to
/// the same existence check as any other name on apply and test.
pub open spec fn spec_resolve(explicit: Option<Seq<char>>, active: Option<Seq<char>>) -> Seq<
    char,
> {
    match explicit {
        Some(e) => e,
        None => match active {
            Some(a) => a,
            None => "default"@,
        },
    }
}

/// Applies the resolution policy to owned values.
pub fn resolve_profile(explicit: Option<String>, active: Option<String>) -> (r: String)
    ensures
        r@ == spec_resolve(opt_view(explicit), opt_view(active)),
{
    match explicit {
        Some(e) => e,
        None => match active {
            Some(a) => a,
            None => String::from_str("default"),
        },
    }
}

/// Resolves a profile, checks that it is registered, and renders its
/// entries; no store mutation and no file access. Fails with `NotFound`,
/// and only then, if the resolved name is not registered.
pub fn render_profile(db: &Database, explicit: Option<String>) -> (r: Result<
    String,
    HostsError,
>)
    requires
        db.wf(),
    ensures
        (r is Ok) == db.profile_set().contains(
            spec_resolve(opt_view(explicit), Some(db.active())),
        ),
        r matches Ok(s) ==> s@ == spec_render(
            spec_resolve(opt_view(explicit), Some(db.active())),
            db.entries_of(spec_resolve(opt_view(explicit), Some(db.active()))),
        ),
        r matches Err(e) ==> e == HostsError::NotFound,
{
    let name = resolve_profile(explicit, db.get_active_profile());
    if !db.has_profile(name.as_str()) {
        return Err(HostsError::NotFound);
    }
    let pairs = db.get_entries(name.as_str());
    let ghost target = db.entries_of(name@);
    let mut entries: Vec<HostEntry> = Vec::new();
    let n = pairs.len();
    let mut i: usize = 0;
    while i < n
        invariant
            i <= n,
            n == pairs@.len(),
            pairs_view(pairs@) == target,
            entries@.len() == i,
            forall|j: int| 0 <= j < i ==> (#[trigger] entries@[j]).host@ == target[j].0
                && entries@[j].address@ == target[j].1,
        decreases n - i,
    {
        let pair = &pairs[i];
        proof {
            assert(pairs_view(pairs@)[i as int] == (pair.0@, pair.1@));
        }
        entries.push(HostEntry { host: pair.0.clone(), address: pair.1.clone() });
        i = i + 1;
    }
    proof {
        assert(pairs_view(pairs@).len() == pairs@.len());
        assert(entry_pairs(entries@) =~= target);
    }
    let template = HostsTemplate { entries, profile: name };
    Ok(template.render())
}

/// The pre-flight gate of apply: the target file must already exist; apply
/// never creates it. With an existing target the content passes through
/// unchanged, whatever it is; without one the result is `TargetMissing`,
/// whatever the content.
pub fn check_apply_target(target_exists: bool, content: String) -> (r: Result<
    String,
    HostsError,
>)
    ensures
        target_exists ==> r == Ok::<String, HostsError>(content),
        !target_exists ==> r == Err::<String, HostsError>(HostsError::TargetMissing),
{
    if target_exists {
        Ok(content)
    } else {
        Err(HostsError::TargetMissing)
    }
}

/// What `execute` promises after an entry upsert: the (active, host) binding
/// holds the new address; profiles and the pointer are untouched.
pub open spec fn add_post(
    pre: Database,
    post: Database,
    host: Seq<char>,
    address: Seq<char>,
    r: Result<CmdOutput, HostsError>,
) -> bool {
    &&& r matches Ok(o) && o is Done
    &&& post.entry_map() == pre.entry_map().insert((pre.active(), host), address)
    &&& post.profiles_seq() == pre.profiles_seq()
    &&& post.active() == pre.active()
}

/// What `execute` promises after an entry removal: success exactly when the
/// (active, host) binding existed; afterwards it is gone; nothing else moves.
pub open spec fn remove_post(
    pre: Database,
    post: Database,
    host: Seq<char>,
    r: Result<CmdOutput, HostsError>,
) -> bool {
    &&& post.entry_map() == pre.entry_map().remove((pre.active(), host))
    &&& post.profiles_seq() == pre.profiles_seq()
    &&& post.active() == pre.active()
    &&& pre.entry_map().contains_key((pre.active(), host)) ==> (r matches Ok(o) && o is Done)
    &&& !pre.entry_map().contains_key((pre.active(), host)) ==> r == Err::<
        CmdOutput,
        HostsError,
    >(HostsError::NotFound) && post == pre
}

/// What `execute` promises after an entry update: success exactly when the
/// (active, host) binding existed, and only then is its address rewritten; a
/// missing binding is reported and never created.
pub open spec fn update_post(
    pre: Database,
    post: Database,
    host: Seq<char>,
    address: Seq<char>,
    r: Result<CmdOutput, HostsError>,
) -> bool {
    &&& pre.entry_map().contains_key((pre.active(), host)) ==> {
        &&& r matches Ok(o) && o is Done
        &&& post.entry_map() == pre.entry_map().insert((pre.active(), host), address)
        &&& post.profiles_seq() == pre.profiles_seq()
        &&& post.active() == pre.active()
    }
    &&& !pre.entry_map().contains_key((pre.active(), host)) ==> r == Err::<
        CmdOutput,
        HostsError,
    >(HostsError::NotFound) && post == pre
}

/// What `execute` promises for apply and test: the store is untouched;
/// success exactly when the resolved profile is registered, and then the
/// output is the rendered document of its entries; otherwise `NotFound` and
/// nothing is rendered.
pub open spec fn render_post(
    pre: Database,
    post: Database,
    explicit: Option<Seq<char>>,
    r: Result<CmdOutput, HostsError>,
) -> bool {
    &&& post == pre
    &&& (r is Ok) == pre.profile_set().contains(spec_resolve(explicit, Some(pre.active())))
    &&& r matches Ok(o) ==> o matches CmdOutput::Rendered(s) && s@ == spec_render(
        spec_resolve(explicit, Some(pre.active())),
        pre.entries_of(spec_resolve(explicit, Some(pre.active()))),
    )
    &&& r matches Err(e) ==> e == HostsError::NotFound
}

/// What `execute` promises after registering a profile: the name is in the
/// set; rows and the pointer are untouched.
pub open spec fn profile_add_post(
    pre: Database,
    post: Database,
    name: Seq<char>,
    r: Result<CmdOutput, HostsError>,
) -> bool {
    &&& r matches Ok(o) && o is Done
    &&& post.profile_set() == pre.profile_set().insert(name)
    &&& post.rows_seq() == pre.rows_seq()
    &&& post.active() == pre.active()
}

/// What `execute` promises after unregistering a profile: success exactly
/// when the name was registered, and then its entries are gone with it;
/// an unregistered name is reported and nothing moves.
pub open spec fn profile_remove_post(
    pre: Database,
    post: Database,
    name: Seq<char>,
    r: Result<CmdOutput, HostsError>,
) -> bool {
    &&& post.profile_set() == pre.profile_set().remove(name)
    &&& post.active() == pre.active()
    &&& pre.profile_set().contains(name) ==> {
        &&& r matches Ok(o) && o is Done
        &&& post.entry_map() == pre.entry_map().remove_keys(crate::store::profile_keys(name))
        &&& post.entries_of(name) == Seq::<(Seq<char>, Seq<char>)>::empty()
    }
    &&& !pre.profile_set().contains(name) ==> r == Err::<CmdOutput, HostsError>(
        HostsError::NotFound,
    ) && post == pre
}

/// What `execute` promises after selecting a profile: the pointer moves,
/// unconditionally and without an existence check; nothing else does.
pub open spec fn profile_use_post(
    pre: Database,
    post: Database,
    name: Seq<char>,
    r: Result<CmdOutput, HostsError>,
) -> bool {
    &&& r matches Ok(o) && o is Done
    &&& post.active() == name
    &&& post.profiles_seq() == pre.profiles_seq()
    &&& post.rows_seq() == pre.rows_seq()
}

/// What `execute` promises for a listing: the store is untouched and the
/// output carries the profile names in lexicographic order together with the
/// active name.
pub open spec fn profile_list_post(
    pre: Database,
    post: Database,
    r: Result<CmdOutput, HostsError>,
) -> bool {
    &&& post == pre
    &&& r matches Ok(o) && o matches CmdOutput::Profiles(names, act)
        && crate::store::names_view(names@) == pre.profiles_seq() && act@ == pre.active()
}

/// Executes one command against the store. Every store mutation and every
/// decision happens here; the caller only performs the returned output's
/// file and terminal work.
pub fn execute(db: &mut Database, cmd: Commands) -> (r: Result<CmdOutput, HostsError>)
    requires
        old(db).wf(),
    ensures
        final(db).wf(),
        cmd matches Commands::Add { host, address } ==> add_post(
            *old(db),
            *final(db),
            host@,
            address@,
            r,
        ),
        cmd matches Commands::Remove { host } ==> remove_post(*old(db), *final(db), host@, r),
        cmd matches Commands::Update { host, address } ==> update_post(
            *old(db),
            *final(db),
            host@,
            address@,
            r,
        ),
        cmd matches Commands::Apply { profile } ==> render_post(
            *old(db),
            *final(db),
            opt_view(profile),
            r,
        ),
        cmd matches Commands::Test { profile } ==> render_post(
            *old(db),
            *final(db),
            opt_view(profile),
            r,
        ),
        cmd is Current ==> *final(db) == *old(db) && (r matches Ok(o) && o is ShowTarget),
        cmd matches Commands::Profile { subcommand: ProfileCommands::Add { name } }
            ==> profile_add_post(*old(db), *final(db), name@, r),
        cmd matches Commands::Profile { subcommand: ProfileCommands::Remove { name } }
            ==> profile_remove_post(*old(db), *final(db), name@, r),
        cmd matches Commands::Profile { subcommand: ProfileCommands::Use { name } }
            ==> profile_use_post(*old(db), *final(db), name@, r),
        cmd matches Commands::Profile { subcommand: ProfileCommands::List }
            ==> profile_list_post(*old(db), *final(db), r),
{
    match cmd {
        Commands::Add { host, address } => {
            let profile = resolve_profile(None, db.get_active_profile());
            db.add_entry(profile.as_str(), host.as_str(), address.as_str());
            Ok(CmdOutput::Done)
        },
        Commands::Remove { host } => {
            let profile = resolve_profile(None, db.get_active_profile());
            if db.remove_entry(profile.as_str(), host.as_str()) {
                Ok(CmdOutput::Done)
            } else {
                Err(HostsError::NotFound)
            }
        },
        Commands::Update { host, address } => {
            let profile = resolve_profile(None, db.get_active_profile());
            if db.update_entry(profile.as_str(), host.as_str(), address.as_str()) {
                Ok(CmdOutput::Done)
            } else {
                Err(HostsError::NotFound)
            }
        },
        Commands::Apply { profile } => {
            match render_profile(db, profile) {
                Ok(content) => Ok(CmdOutput::Rendered(content)),
                Err(e) => Err(e),
            }
        },
        Commands::Current => Ok(CmdOutput::ShowTarget),
        Commands::Test { profile } => {
            match render_profile(db, profile) {
                Ok(content) => Ok(CmdOutput::Rendered(content)),
                Err(e) => Err(e),
            }
        },
        Commands::Profile { subcommand } => match subcommand {
            ProfileCommands::Add { name } => {
                db.add_profile(name.as_str());
                Ok(CmdOutput::Done)
            },
            ProfileCommands::Remove { name } => {
                if db.remove_profile(name.as_str()) {
                    Ok(CmdOutput::Done)
                } else {
                    Err(HostsError::NotFound)
                }
            },
            ProfileCommands::Use { name } => {
                db.use_profile(name.as_str());
                Ok(CmdOutput::Done)
            },
            ProfileCommands::List => {
                let names = db.list_profiles();
                let active = resolve_profile(None, db.get_active_profile());
                Ok(CmdOutput::Profiles(names, active))
            },
        },
    }
}

} // verus!

