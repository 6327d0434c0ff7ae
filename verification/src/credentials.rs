//! Resolving the credentials a helper declared from the remote's config.

use vstd::prelude::*;

use crate::config::{CredentialSpec, RemoteConfig, same_text, spec_name_of, spec_names};
use crate::domain::texts;
use crate::errors::{Refusal, UseCaseError};
use crate::ports::{CredentialSource, Resolutions};
use crate::secret::Secret;

verus! {

/// Whether some spec of `specs` declares `name`.
pub open spec fn has_spec(specs: Seq<CredentialSpec>, name: Seq<char>) -> bool {
    spec_names(specs).contains(name)
}

/// The first declared name with no spec, if any.
pub open spec fn first_missing(specs: Seq<CredentialSpec>, declared: Seq<Seq<char>>) -> Option<int> {
    if exists|i: int| 0 <= i < declared.len() && !has_spec(specs, #[trigger] declared[i]) {
        Some(choose|i: int| 0 <= i < declared.len() && !has_spec(specs, #[trigger] declared[i]) && forall|j: int|
            0 <= j < i ==> has_spec(specs, declared[j]))
    } else {
        None
    }
}

/// Where the first spec of `specs` declaring `name` stands.
pub open spec fn first_spec_index(specs: Seq<CredentialSpec>, name: Seq<char>) -> int {
    choose|k: int|
        0 <= k < specs.len() && spec_name_of(specs[k]) == name && forall|j: int|
            0 <= j < k ==> spec_name_of(#[trigger] specs[j]) != name
}

/// The first spec of `specs` declaring `name`.
pub open spec fn first_spec(specs: Seq<CredentialSpec>, name: Seq<char>) -> CredentialSpec {
    specs[first_spec_index(specs, name)]
}

/// The source was asked, after `before`, to resolve nothing but the first
/// spec of `specs` for each of a prefix of `declared`, in order.
pub open spec fn asked_for(
    before: Resolutions,
    after: Resolutions,
    specs: Seq<CredentialSpec>,
    declared: Seq<Seq<char>>,
) -> bool {
    &&& before.len() <= after.len() <= before.len() + declared.len()
    &&& after.take(before.len() as int) == before
    &&& forall|i: int|
        before.len() <= i < after.len() ==> (#[trigger] after[i]).0 == first_spec(specs, declared[i - before.len()])
}

/// The first spec of `specs` declaring `name`.
fn find_spec<'a>(specs: &'a Vec<CredentialSpec>, name: &String) -> (r: Option<&'a CredentialSpec>)
    ensures
        r is Some <==> has_spec(specs@, name@),
        r matches Some(s) ==> spec_name_of(*s) == name@ && *s == first_spec(specs@, name@),
{
    let mut i: usize = 0;
    while i < specs.len()
        invariant
            i <= specs.len(),
            forall|k: int| 0 <= k < i ==> spec_name_of(#[trigger] specs@[k]) != name@,
        decreases specs.len() - i,
    {
        if same_text(specs[i].name(), name.as_str()) {
            assert(spec_names(specs@)[i as int] == name@);
            proof {
                assert(0 <= i < specs@.len() && spec_name_of(specs@[i as int]) == name@ && forall|j: int|
                    0 <= j < i ==> spec_name_of(#[trigger] specs@[j]) != name@);
                let k = first_spec_index(specs@, name@);
                if k < i {
                    assert(spec_name_of(specs@[k]) != name@);
                } else if k > i {
                    assert(spec_name_of(specs@[i as int]) != name@);
                }
            }
            return Some(&specs[i]);
        }
        i = i + 1;
    }
    proof {
        if has_spec(specs@, name@) {
            let k = choose|k: int| 0 <= k < spec_names(specs@).len() && spec_names(specs@)[k] == name@;
            assert(spec_name_of(specs@[k]) == name@);
        }
    }
    None
}

/// Every credential the helper declared, resolved from the remote's config.
/// A declared name with no spec is `Refusal::MissingCredential`; a spec the
/// source cannot resolve is the source's error.
pub fn resolve_credentials<C: CredentialSource>(
    source: &mut C,
    remote: &RemoteConfig,
    declared: &Vec<String>,
) -> (r: Result<Vec<(String, Secret)>, UseCaseError>)
    ensures
        r matches Ok(out) ==> {
            &&& out@.len() == declared@.len()
            &&& forall|i: int| 0 <= i < out@.len() ==> (#[trigger] out@[i]).0@ == declared@[i]@
            &&& first_missing(remote.credentials@, texts(declared@)) is None
        },
        r matches Err(UseCaseError::Refused(refusal)) ==> {
            &&& first_missing(remote.credentials@, texts(declared@)) matches Some(k)
            &&& refusal matches Refusal::MissingCredential { remote: rn, name }
            &&& rn@ == remote.name@
            &&& name@ == declared@[k]@
        },
        r matches Err(e) ==> e is Refused || e is Credential,
        first_missing(remote.credentials@, texts(declared@)) is Some ==> r is Err,
        declared@.len() == 0 ==> (r matches Ok(out) && out@.len() == 0),
        asked_for(old(source).resolved(), final(source).resolved(), remote.credentials@, texts(declared@)),
        r matches Ok(out) ==> {
            &&& final(source).resolved().len() == old(source).resolved().len() + out@.len()
            &&& forall|i: int|
                0 <= i < out@.len() ==> final(source).resolved()[old(source).resolved().len() + i].1 == Some(
                    (#[trigger] out@[i]).1@,
                )
        },
{
    let ghost names = texts(declared@);
    let ghost r0 = source.resolved();
    assert(r0.take(r0.len() as int) =~= r0);
    let mut out: Vec<(String, Secret)> = Vec::new();
    let mut i: usize = 0;
    while i < declared.len()
        invariant
            names == texts(declared@),
            i <= declared.len(),
            out@.len() == i,
            forall|k: int| 0 <= k < i ==> (#[trigger] out@[k]).0@ == declared@[k]@,
            forall|k: int| 0 <= k < i ==> has_spec(remote.credentials@, #[trigger] names[k]),
            r0 == old(source).resolved(),
            source.resolved().len() == r0.len() + i,
            asked_for(r0, source.resolved(), remote.credentials@, names),
            forall|k: int| 0 <= k < i ==> source.resolved()[r0.len() + k].1 == Some((#[trigger] out@[k]).1@),
        decreases declared.len() - i,
    {
        let name = &declared[i];
        let spec = match find_spec(&remote.credentials, name) {
            Some(s) => s,
            None => {
                proof {
                    assert(!has_spec(remote.credentials@, names[i as int]));
                    let k = first_missing(remote.credentials@, names).unwrap();
                    if k < i {
                        assert(has_spec(remote.credentials@, names[k]));
                    } else if k > i {
                        assert(has_spec(remote.credentials@, names[i as int]));
                    }
                }
                return Err(UseCaseError::Refused(Refusal::MissingCredential {
                    remote: remote.name.0.clone(),
                    name: name.clone(),
                }));
            },
        };
        let ghost before = source.resolved();
        let got = source.resolve(spec);
        proof {
            let after = source.resolved();
            assert(after.take(r0.len() as int) =~= before.take(r0.len() as int));
            assert forall|k: int| r0.len() <= k < after.len() implies (#[trigger] after[k]).0 == first_spec(
                remote.credentials@,
                names[k - r0.len()],
            ) by {
                if k < before.len() {
                    assert(after[k] == before[k]);
                } else {
                    assert(names[i as int] == name@);
                }
            }
        }
        match got {
            Ok(secret) => {
                let ghost bo = out@;
                out.push((name.clone(), secret));
                proof {
                    assert forall|k: int| 0 <= k < i + 1 implies source.resolved()[r0.len() + k].1 == Some(
                        (#[trigger] out@[k]).1@,
                    ) by {
                        if k < i {
                            assert(out@[k] == bo[k]);
                        }
                    }
                }
            },
            Err(e) => {
                proof {
                    if first_missing(remote.credentials@, names) is Some {
                    }
                }
                return Err(UseCaseError::Credential(e));
            },
        }
        i = i + 1;
    }
    proof {
        if first_missing(remote.credentials@, names) is Some {
            let k = first_missing(remote.credentials@, names).unwrap();
            assert(has_spec(remote.credentials@, names[k]));
        }
    }
    Ok(out)
}

} // verus!
