//! The paths of one launch.
//!
//! An [`ApplicationNamespace`] fixes all that depends on paths when a launch
//! starts: the working directory, the root's absolute path, the directory of the
//! application's own libraries and the link policy. A later change of the working
//! directory changes none of it.

use crate::application::path::{
    absolute, absolute_keeps_components, components, components_are_plain, has_separator,
    is_absolute, join_path, joined_to, normalize_path, normalized, parent_dir, parent_of,
    parents_drop_the_last_component, parts_lead_from_where_the_path_is, starts_at_root,
};
use crate::dynamic_linker::artifact::LinkDomainId;
use crate::identity::LoadProfile;
use vstd::prelude::*;
use vstd::string::*;

verus! {

/// The paths and the link policy of one launch.
pub struct ApplicationNamespace {
    pub launch_pwd: String,
    pub root_path: String,
    pub application_root: String,
    pub private_lib_dir: String,
    pub profile: LoadProfile,
    pub system_domain: LinkDomainId,
}

/// The directory name of an application's own libraries.
pub open spec fn lib_name() -> Seq<char> {
    seq!['l', 'i', 'b']
}

/// What the input of a launch names: an absolute path itself, a relative one below
/// the working directory.
pub open spec fn launch_target(input: Seq<char>, pwd: Seq<char>) -> Option<Seq<char>> {
    if input.len() == 0 {
        None
    } else if is_absolute(input) {
        normalized(input)
    } else {
        joined_to(pwd, input)
    }
}

/// The libraries' directory of an application in `directory`.
pub open spec fn private_lib(directory: Seq<char>) -> Seq<char> {
    absolute(components(directory + seq!['/'] + lib_name()))
}

impl ApplicationNamespace {
    /// The namespace of one launch. The input is absolute, or relative to the
    /// working directory. There is none for an empty input, for a relative input
    /// without an absolute working directory and for the root directory itself.
    pub fn from_launch_path(
        input_path: &str,
        launch_pwd: &str,
        profile: LoadProfile,
        system_domain: LinkDomainId,
    ) -> (r: Option<Self>)
        ensures
            match launch_target(input_path@, launch_pwd@) {
                None => r is None,
                Some(root) => match parent_of(root) {
                    None => r is None,
                    Some(directory) => match r {
                        Some(found) => {
                            &&& found.launch_pwd@ == launch_pwd@
                            &&& found.root_path@ == root
                            &&& found.application_root@ == directory
                            &&& found.private_lib_dir@ == private_lib(directory)
                            &&& found.profile == profile
                            &&& found.system_domain == system_domain
                        },
                        None => false,
                    },
                },
            },
    {
        if input_path.unicode_len() == 0 {
            return None;
        }
        let resolved: Option<String> = if starts_at_root(input_path) {
            normalize_path(input_path)
        } else {
            join_path(launch_pwd, input_path)
        };
        let root_path: String = match resolved {
            Some(path) => path,
            None => return None,
        };
        proof {
            let text = if is_absolute(input_path@) {
                input_path@
            } else {
                launch_pwd@ + seq!['/'] + input_path@
            };
            components_are_plain(text);
            absolute_keeps_components(components(text));
            parents_drop_the_last_component(components(text));
            if components(text).len() > 0 {
                absolute_keeps_components(components(text).drop_last());
            }
        }
        let application_root: String = match parent_dir(root_path.as_str()) {
            Some(path) => path,
            None => return None,
        };
        proof {
            reveal_strlit("lib");
            assert("lib"@ =~= lib_name());
        }
        match join_path(application_root.as_str(), "lib") {
            Some(private_lib_dir) => Some(
                ApplicationNamespace {
                    launch_pwd: String::from_str(launch_pwd),
                    root_path,
                    application_root,
                    private_lib_dir,
                    profile,
                    system_domain,
                },
            ),
            None => None,
        }
    }

    /// The working directory of the launch.
    pub fn launch_pwd(&self) -> (r: &str)
        ensures
            r@ == self.launch_pwd@,
    {
        self.launch_pwd.as_str()
    }

    /// The absolute path of the root image.
    pub fn root_path(&self) -> (r: &str)
        ensures
            r@ == self.root_path@,
    {
        self.root_path.as_str()
    }

    /// The directory that holds the root image.
    pub fn application_root(&self) -> (r: &str)
        ensures
            r@ == self.application_root@,
    {
        self.application_root.as_str()
    }

    /// The directory that plain names are searched in first.
    pub fn private_lib_dir(&self) -> (r: &str)
        ensures
            r@ == self.private_lib_dir@,
    {
        self.private_lib_dir.as_str()
    }

    #[inline]
    pub fn profile(&self) -> (r: LoadProfile)
        ensures
            r == self.profile,
    {
        self.profile
    }

    #[inline]
    pub fn system_domain(&self) -> (r: LinkDomainId)
        ensures
            r == self.system_domain,
    {
        self.system_domain
    }
}

/// The directory that a relative request is resolved against.
#[derive(Clone, Copy, Debug, Eq, PartialEq)]
pub enum ResolveBase<'a> {
    /// The directory of the image that asks.
    RequesterDirectory(&'a str),
    /// The working directory when the request was made.
    CurrentWorkingDirectory(&'a str),
}

impl<'a> ResolveBase<'a> {
    pub open spec fn directory_spec(self) -> Seq<char> {
        match self {
            ResolveBase::RequesterDirectory(dir) => dir@,
            ResolveBase::CurrentWorkingDirectory(dir) => dir@,
        }
    }

    fn directory(&self) -> (r: &'a str)
        ensures
            r@ == self.directory_spec(),
    {
        match *self {
            ResolveBase::RequesterDirectory(dir) => dir,
            ResolveBase::CurrentWorkingDirectory(dir) => dir,
        }
    }
}

/// How a request for a dependency is read.
#[derive(Clone, Copy, Debug, Eq, PartialEq, Structural)]
pub enum DependencyKind {
    /// A path from the root.
    Absolute,
    /// A path from the base directory.
    Relative,
    /// A name without a separator, which is searched for.
    PlainName,
}

impl DependencyKind {
    pub open spec fn classify_spec(request: Seq<char>) -> Self {
        if is_absolute(request) {
            DependencyKind::Absolute
        } else if request.contains('/') {
            DependencyKind::Relative
        } else {
            DependencyKind::PlainName
        }
    }

    /// Reads a request by its separators.
    pub fn classify(request: &str) -> (r: Self)
        ensures
            r == Self::classify_spec(request@),
    {
        if starts_at_root(request) {
            DependencyKind::Absolute
        } else if has_separator(request) {
            DependencyKind::Relative
        } else {
            DependencyKind::PlainName
        }
    }
}

/// The path that a request is tried at.
pub open spec fn dependency_path(
    private_lib_dir: Seq<char>,
    base: Seq<char>,
    request: Seq<char>,
) -> Option<Seq<char>> {
    if request.len() == 0 {
        None
    } else {
        match DependencyKind::classify_spec(request) {
            DependencyKind::Absolute => normalized(request),
            DependencyKind::Relative => joined_to(base, request),
            DependencyKind::PlainName => joined_to(private_lib_dir, request),
        }
    }
}

/// The absolute paths to try for a request, in order.
///
/// A plain name is looked for among the application's own libraries; whether the
/// system offers it as well is for the caller to look up. An empty request has no
/// path, and neither has a relative one without an absolute base.
pub fn resolve_dependency_paths(
    namespace: &ApplicationNamespace,
    base: ResolveBase<'_>,
    request: &str,
) -> (r: Vec<String>)
    ensures
        match dependency_path(namespace.private_lib_dir@, base.directory_spec(), request@) {
            Some(path) => r@.len() == 1 && r@[0]@ == path,
            None => r@.len() == 0,
        },
{
    let mut candidates: Vec<String> = Vec::new();
    if request.unicode_len() == 0 {
        return candidates;
    }
    let found: Option<String> = match DependencyKind::classify(request) {
        DependencyKind::Absolute => normalize_path(request),
        DependencyKind::Relative => join_path(base.directory(), request),
        DependencyKind::PlainName => join_path(namespace.private_lib_dir(), request),
    };
    if let Some(path) = found {
        candidates.push(path);
    }
    candidates
}

/// Every path that a request is tried at is absolute and normalized.
pub proof fn dependency_paths_are_absolute(
    private_lib_dir: Seq<char>,
    base: Seq<char>,
    request: Seq<char>,
)
    ensures
        dependency_path(private_lib_dir, base, request) matches Some(path) ==> is_absolute(path)
            && normalized(path) == Some(path),
{
    crate::application::path::normalizing_is_idempotent(request);
    crate::application::path::normalizing_is_idempotent(base + seq!['/'] + request);
    crate::application::path::normalizing_is_idempotent(private_lib_dir + seq!['/'] + request);
}

/// The root path of a launch lies in the application's directory, under its own
/// last component.
pub proof fn launches_lie_in_their_directory(input: Seq<char>, pwd: Seq<char>)
    ensures
        launch_target(input, pwd) matches Some(root) ==> {
            &&& is_absolute(root)
            &&& parent_of(root) matches Some(directory) ==> components(root).drop_last()
                == components(directory)
        },
{
    let text = if is_absolute(input) {
        input
    } else {
        pwd + seq!['/'] + input
    };
    components_are_plain(text);
    absolute_keeps_components(components(text));
    if let Some(root) = launch_target(input, pwd) {
        assert(components(root) == components(text));
        parents_drop_the_last_component(components(text));
        if components(root).len() > 0 {
            absolute_keeps_components(components(root).drop_last());
        }
    }
}

/// A request that starts with a separator is tried at the path that it names. Any other one
/// that has a separator is tried below the base, and one that has none among the
/// application's own libraries, under its own name.
pub proof fn requests_are_tried_where_they_point(
    private_lib_dir: Seq<char>,
    base: Seq<char>,
    request: Seq<char>,
    path: Seq<char>,
)
    requires
        dependency_path(private_lib_dir, base, request) == Some(path),
    ensures
        request.len() > 0,
        request[0] == '/' ==> components(path) == components(request),
        request[0] != '/' && request.contains('/') ==> components(path) == components(
            base + seq!['/'] + request,
        ) && (base.len() > 0 ==> base[0] == '/'),
        !request.contains('/') && request != seq!['.'] && request != seq!['.', '.'] ==> {
            &&& components(path).len() == components(private_lib_dir).len() + 1
            &&& components(path).last() == request
            &&& forall|i: int|
                0 <= i < components(private_lib_dir).len() ==> #[trigger] components(path)[i]
                    == components(private_lib_dir)[i]
        },
{
    if request[0] == '/' {
        assert(request.contains(request[0]));
        components_are_plain(request);
        absolute_keeps_components(components(request));
    } else if request.contains('/') {
        let text = base + seq!['/'] + request;
        components_are_plain(text);
        absolute_keeps_components(components(text));
    } else {
        let text = private_lib_dir + seq!['/'] + request;
        components_are_plain(text);
        absolute_keeps_components(components(text));
        assert forall|i: int| 0 <= i < request.len() implies request[i] != '/' by {
            assert(request.contains(request[i]));
        }
        parts_lead_from_where_the_path_is(private_lib_dir, request);
    }
}

/// The libraries of an application are in the directory `lib` beside its root.
pub proof fn libraries_lie_beside_the_root(directory: Seq<char>)
    ensures
        components(private_lib(directory)).len() == components(directory).len() + 1,
        components(private_lib(directory)).last() == seq!['l', 'i', 'b'],
        forall|i: int|
            0 <= i < components(directory).len() ==> #[trigger] components(
                private_lib(directory),
            )[i] == components(directory)[i],
{
    let text = directory + seq!['/'] + lib_name();
    components_are_plain(text);
    absolute_keeps_components(components(text));
    assert(lib_name()[0] == 'l');
    parts_lead_from_where_the_path_is(directory, lib_name());
}

} // verus!
