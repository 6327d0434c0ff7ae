//! Opening one helper process per remote operation.

use vstd::prelude::*;

use crate::config::{RemoteConfig, spec_names};
use crate::credentials::{asked_for, first_missing, has_spec, resolve_credentials};
use crate::domain::{texts, texts_contain};
use crate::errors::{Refusal, UseCaseError};
use crate::ports::{CredentialSource, HelperLauncher, Launches, RemoteHelper, Resolutions};
use crate::secret::Secret;
use crate::remote::RemoteCapabilities;

verus! {

/// Opens one helper process per remote operation, with the credentials the
/// remote's own config declares already in hand. The config names them, so
/// there is nothing to learn from the helper first; but the helper is the
/// authority on what it needs, so a name it declares that the config does
/// not supply is still refused by name.
pub fn connect<L: HelperLauncher, C: CredentialSource>(
    launcher: &mut L,
    credentials: &mut C,
    remote: &RemoteConfig,
) -> (r: Result<(L::Helper, RemoteCapabilities), UseCaseError>)
    ensures
        r matches Ok((_, caps)) ==> forall|i: int|
            0 <= i < caps.credentials@.len() ==> has_spec(remote.credentials@, #[trigger] texts(caps.credentials@)[i]),
        r matches Err(UseCaseError::Refused(refusal)) ==> (refusal matches Refusal::MissingCredential { remote: rn, name }
            && rn@ == remote.name@ && !has_spec(remote.credentials@, name@)),
        r matches Err(e) ==> e is Refused || e is Credential || e is Helper,
        asked_for(
            old(credentials).resolved(),
            final(credentials).resolved(),
            remote.credentials@,
            spec_names(remote.credentials@),
        ),
        final(launcher).launched() == old(launcher).launched() || launched_with(
            old(launcher).launched(),
            final(launcher).launched(),
            *remote,
            old(credentials).resolved(),
            final(credentials).resolved(),
        ),
        r is Ok ==> launched_with(
            old(launcher).launched(),
            final(launcher).launched(),
            *remote,
            old(credentials).resolved(),
            final(credentials).resolved(),
        ),
{
    let ghost l0 = launcher.launched();
    let ghost c0 = credentials.resolved();
    let mut configured: Vec<String> = Vec::new();
    let mut i: usize = 0;
    while i < remote.credentials.len()
        invariant
            i <= remote.credentials.len(),
            texts(configured@) == spec_names(remote.credentials@).take(i as int),
        decreases remote.credentials.len() - i,
    {
        let ghost before = configured@;
        configured.push(String::from_str(remote.credentials[i].name()));
        assert(texts(configured@) =~= texts(before).push(spec_names(remote.credentials@)[i as int]));
        assert(spec_names(remote.credentials@).take(i + 1) =~= spec_names(remote.credentials@).take(i as int).push(
            spec_names(remote.credentials@)[i as int],
        ));
        i = i + 1;
    }
    assert(spec_names(remote.credentials@).take(remote.credentials.len() as int) =~= spec_names(remote.credentials@));
    proof {
        if first_missing(remote.credentials@, texts(configured@)) is Some {
            let k = choose|k: int| 0 <= k < texts(configured@).len() && !has_spec(remote.credentials@, #[trigger] texts(configured@)[k]);
            assert(spec_names(remote.credentials@).contains(texts(configured@)[k]));
        }
    }
    let resolved = match resolve_credentials(credentials, remote, &configured) {
        Ok(v) => v,
        Err(e) => return Err(e),
    };
    let launch = launcher.launch(remote, &resolved);
    proof {
        let names = spec_names(remote.credentials@);
        let creds = launcher.launched().last().1;
        assert(launcher.launched().last() == (*remote, resolved@.map_values(|c: (String, Secret)| (c.0@, c.1@))));
        assert forall|i: int| 0 <= i < names.len() implies (#[trigger] creds[i]).0 == names[i] && credentials.resolved()[c0.len() + i].1 == Some(creds[i].1) by {
            assert(texts(configured@)[i] == configured@[i]@);
            assert(resolved@[i].0@ == configured@[i]@);
        }
        assert(launcher.launched().take(l0.len() as int) =~= l0);
        assert(texts(configured@).len() == configured@.len());
        assert(creds.len() == names.len());
        assert(credentials.resolved().len() == c0.len() + names.len());
        assert(launched_with(l0, launcher.launched(), *remote, c0, credentials.resolved()));
    }
    let mut helper = match launch {
        Ok(h) => h,
        Err(e) => return Err(UseCaseError::Helper(e)),
    };
    let caps = match helper.capabilities() {
        Ok(c) => c,
        Err(e) => return Err(UseCaseError::Helper(e)),
    };
    match check_declared(remote, &configured, &caps.credentials) {
        Ok(()) => {},
        Err(e) => return Err(e),
    }
    proof {
        assert forall|i: int| 0 <= i < caps.credentials@.len() implies has_spec(
            remote.credentials@,
            #[trigger] texts(caps.credentials@)[i],
        ) by {
            if !has_spec(remote.credentials@, texts(caps.credentials@)[i]) {
                assert(exists|i: int|
                    0 <= i < texts(caps.credentials@).len() && !has_spec(
                        remote.credentials@,
                        #[trigger] texts(caps.credentials@)[i],
                    ));
            }
        }
    }
    Ok((helper, caps))
}

/// After `before`, the launcher was asked once more, for `remote`, and
/// handed the config's credentials by name, in order, each with the value
/// the credential source gave for it after `asked`.
pub open spec fn launched_with(
    before: Launches,
    after: Launches,
    remote: RemoteConfig,
    asked: Resolutions,
    answered: Resolutions,
) -> bool {
    let names = spec_names(remote.credentials@);
    let creds = after.last().1;
    &&& after.len() == before.len() + 1
    &&& after.take(before.len() as int) == before
    &&& after.last().0 == remote
    &&& creds.len() == names.len()
    &&& answered.len() == asked.len() + names.len()
    &&& forall|i: int|
        0 <= i < names.len() ==> (#[trigger] creds[i]).0 == names[i] && answered[asked.len() + i].1 == Some(creds[i].1)
}

/// Holds the credential names a helper declared to what the remote's
/// config supplies, `configured` being the config's names: the first name
/// with no spec is refused by name, and all of them supplied is a pass.
pub fn check_declared(remote: &RemoteConfig, configured: &Vec<String>, declared: &Vec<String>) -> (r: Result<(), UseCaseError>)
    requires
        texts(configured@) == spec_names(remote.credentials@),
    ensures
        match first_missing(remote.credentials@, texts(declared@)) {
            None => r is Ok,
            Some(k) => r matches Err(UseCaseError::Refused(Refusal::MissingCredential { remote: rn, name }))
                && rn@ == remote.name@ && name@ == declared@[k]@,
        },
        r matches Err(e) ==> (e matches UseCaseError::Refused(Refusal::MissingCredential { remote: rn, name })
            && rn@ == remote.name@ && !has_spec(remote.credentials@, name@)),
{
    let ghost ns = texts(declared@);
    let mut j: usize = 0;
    while j < declared.len()
        invariant
            j <= declared.len(),
            ns == texts(declared@),
            texts(configured@) == spec_names(remote.credentials@),
            forall|k: int| 0 <= k < j ==> has_spec(remote.credentials@, #[trigger] ns[k]),
        decreases declared.len() - j,
    {
        if !texts_contain(configured, &declared[j]) {
            proof {
                assert(!has_spec(remote.credentials@, ns[j as int]));
                assert(exists|i: int| 0 <= i < ns.len() && !has_spec(remote.credentials@, #[trigger] ns[i]));
                let k = first_missing(remote.credentials@, ns).unwrap();
                if k < j {
                    assert(has_spec(remote.credentials@, ns[k]));
                } else if k > j {
                    assert(has_spec(remote.credentials@, ns[j as int]));
                }
                assert(ns[j as int] == declared@[j as int]@);
            }
            return Err(UseCaseError::Refused(Refusal::MissingCredential {
                remote: remote.name.0.clone(),
                name: declared[j].clone(),
            }));
        }
        j = j + 1;
    }
    Ok(())
}

} // verus!
