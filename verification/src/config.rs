//! What the operator configured: remotes, label categories, saved filters.

use vstd::prelude::*;

use crate::domain::{Categories, Path};
use crate::ports::RemoteName;
use crate::secret::Secret;
use core::time::Duration;

verus! {

#[derive(PartialEq, Eq)]
pub struct Config {
    pub done_interactive: bool,
    pub remotes: Vec<RemoteConfig>,
    pub categories: Categories,
    pub filters: Vec<FilterConfig>,
}

#[derive(PartialEq, Eq)]
pub struct RemoteConfig {
    pub name: RemoteName,
    /// The word before `::` in the url; the helper is `dam-remote-<helper>`.
    pub helper: String,
    /// The url exactly as configured, for `remote list` to echo back verbatim.
    pub url: String,
    pub credentials: Vec<CredentialSpec>,
    pub stale: Option<Duration>,
    /// How long a single helper response may take before the helper is killed.
    pub deadline: Option<ConfiguredDuration>,
    pub path: Option<Path>,
}

/// A duration next to the text it was configured as, so a message about it
/// echoes what the operator wrote rather than a normalized form.
#[derive(PartialEq, Eq)]
pub struct ConfiguredDuration {
    pub value: Duration,
    pub text: String,
}

/// Where one credential comes from.
#[derive(PartialEq, Eq)]
pub enum CredentialSpec {
    Literal { name: String, value: Secret },
    Command { name: String, argv: Vec<String> },
    Env { name: String, var: String },
}

#[derive(Debug, PartialEq, Eq)]
pub struct FilterConfig {
    pub name: String,
    pub query: String,
}

/// The name a credential spec declares.
pub open spec fn spec_name_of(spec: CredentialSpec) -> Seq<char> {
    match spec {
        CredentialSpec::Literal { name, .. } => name@,
        CredentialSpec::Command { name, .. } => name@,
        CredentialSpec::Env { name, .. } => name@,
    }
}

/// The names the specs of a list declare, in order.
pub open spec fn spec_names(specs: Seq<CredentialSpec>) -> Seq<Seq<char>> {
    specs.map_values(|s: CredentialSpec| spec_name_of(s))
}

impl CredentialSpec {
    /// The name the spec declares.
    pub fn name(&self) -> (r: &str)
        ensures
            r@ == spec_name_of(*self),
    {
        match self {
            CredentialSpec::Literal { name, .. } => name.as_str(),
            CredentialSpec::Command { name, .. } => name.as_str(),
            CredentialSpec::Env { name, .. } => name.as_str(),
        }
    }
}

/// Whether a `::` starts at `i` in `url`.
pub open spec fn sep_at(url: Seq<char>, i: int) -> bool {
    0 <= i && i + 1 < url.len() && url[i] == ':' && url[i + 1] == ':'
}

/// The text after the first `::` in a url, or nothing when there is none.
pub open spec fn address_of(url: Seq<char>) -> Seq<char> {
    if exists|i: int| #[trigger] sep_at(url, i) {
        let i = choose|i: int| #[trigger] sep_at(url, i) && forall|j: int| 0 <= j < i ==> !sep_at(url, j);
        url.subrange(i + 2, url.len() as int)
    } else {
        Seq::empty()
    }
}

impl RemoteConfig {
    /// The text after `::` in the url, handed to the helper as its second
    /// argument the way git hands one to `git-remote-<transport>`.
    pub fn address(&self) -> (r: String)
        ensures
            r@ == address_of(self.url@),
    {
        let s = self.url.as_str();
        let n = s.unicode_len();
        let mut i: usize = 0;
        while i < n
            invariant
                n == self.url@.len(),
                s@ == self.url@,
                i <= n,
                forall|j: int| 0 <= j < i ==> !sep_at(self.url@, j),
            decreases n - i,
        {
            if i + 1 < n && s.get_char(i) == ':' && s.get_char(i + 1) == ':' {
                let ghost url = self.url@;
                proof {
                    assert(sep_at(url, i as int));
                    let w = choose|k: int| #[trigger] sep_at(url, k) && forall|j: int| 0 <= j < k ==> !sep_at(url, j);
                    if w < i {
                        assert(!sep_at(url, w));
                    } else if w > i {
                        assert(!sep_at(url, i as int));
                    }
                }
                return String::from_str(s.substring_char(i + 2, n));
            }
            i = i + 1;
        }
        proof {
            let url = self.url@;
            if exists|k: int| #[trigger] sep_at(url, k) {
                let k = choose|k: int| #[trigger] sep_at(url, k);
                assert(!sep_at(url, k));
            }
        }
        String::new()
    }
}

/// The index of the first remote configured under `name`, if any.
pub open spec fn remote_index(remotes: Seq<RemoteConfig>, name: Seq<char>) -> Option<int> {
    if exists|i: int| 0 <= i < remotes.len() && remotes[i].name@ == name {
        Some(
            choose|i: int|
                0 <= i < remotes.len() && remotes[i].name@ == name && forall|j: int|
                    0 <= j < i ==> remotes[j].name@ != name,
        )
    } else {
        None
    }
}

/// The index of the first filter saved under `name`, if any.
pub open spec fn filter_index(filters: Seq<FilterConfig>, name: Seq<char>) -> Option<int> {
    if exists|i: int| 0 <= i < filters.len() && filters[i].name@ == name {
        Some(
            choose|i: int|
                0 <= i < filters.len() && filters[i].name@ == name && forall|j: int|
                    0 <= j < i ==> filters[j].name@ != name,
        )
    } else {
        None
    }
}

impl Config {
    /// An empty configuration.
    pub fn empty() -> (c: Config)
        ensures
            c.remotes@.len() == 0,
            c.filters@.len() == 0,
            c.categories@.len() == 0,
            !c.done_interactive,
    {
        Config {
            done_interactive: false,
            remotes: Vec::new(),
            categories: Categories::none(),
            filters: Vec::new(),
        }
    }

    /// The first remote configured under `name`.
    pub fn remote(&self, name: &str) -> (r: Option<&RemoteConfig>)
        ensures
            match remote_index(self.remotes@, name@) {
                Some(i) => r == Some(&self.remotes@[i]),
                None => r is None,
            },
    {
        let mut i: usize = 0;
        while i < self.remotes.len()
            invariant
                i <= self.remotes.len(),
                forall|j: int| 0 <= j < i ==> self.remotes@[j].name@ != name@,
            decreases self.remotes.len() - i,
        {
            if same_text(self.remotes[i].name.0.as_str(), name) {
                proof {
                    let w = remote_index(self.remotes@, name@).unwrap();
                    if w < i {
                    } else if w > i {
                    }
                }
                return Some(&self.remotes[i]);
            }
            i = i + 1;
        }
        None
    }

    /// The first filter saved under `name`.
    pub fn filter(&self, name: &str) -> (r: Option<&FilterConfig>)
        ensures
            match filter_index(self.filters@, name@) {
                Some(i) => r == Some(&self.filters@[i]),
                None => r is None,
            },
    {
        let mut i: usize = 0;
        while i < self.filters.len()
            invariant
                i <= self.filters.len(),
                forall|j: int| 0 <= j < i ==> self.filters@[j].name@ != name@,
            decreases self.filters.len() - i,
        {
            if same_text(self.filters[i].name.as_str(), name) {
                proof {
                    let w = filter_index(self.filters@, name@).unwrap();
                    if w < i {
                    } else if w > i {
                    }
                }
                return Some(&self.filters[i]);
            }
            i = i + 1;
        }
        None
    }
}

/// Whether two texts are equal.
pub fn same_text(a: &str, b: &str) -> (r: bool)
    ensures
        r == (a@ == b@),
{
    let n = a.unicode_len();
    if n != b.unicode_len() {
        return false;
    }
    let mut i: usize = 0;
    while i < n
        invariant
            n == a@.len(),
            n == b@.len(),
            i <= n,
            forall|j: int| 0 <= j < i ==> a@[j] == b@[j],
        decreases n - i,
    {
        if a.get_char(i) != b.get_char(i) {
            return false;
        }
        i = i + 1;
    }
    assert(a@ =~= b@);
    true
}

} // verus!
