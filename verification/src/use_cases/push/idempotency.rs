//! The key a mutation carries, and carries again on every resend, so a remote
//! that deduplicates by key does the work once however often an interrupted
//! push repeats it.

use vstd::prelude::*;

use crate::domain::{CommitId, Oid, is_id_text};

verus! {

/// What a mutation is a resend of: the commit whose change it carries, or the
/// retry set, which holds an oid alone once its commit has been accounted for.
#[derive(Clone, Copy, Debug)]
pub enum Origin<'a> {
    Commit(&'a CommitId),
    Retry,
}

/// The text a key is spelled from and the version character that says where
/// that text came from: a commit's first fifteen characters, or for a retry
/// the object's own last fifteen.
pub open spec fn key_source(commit: Option<Seq<char>>, oid: Seq<char>) -> (char, Seq<char>) {
    match commit {
        Some(id) => ('4', id.subrange(0, 15)),
        None => ('5', oid.subrange(25, 40)),
    }
}

/// The key of a mutation: UUID-shaped, `SSSSSSSS-SSSS-VSSS-8OOO-OOOOOOOOOOO0`,
/// where `S` is the source text, `V` the version character and `O` the
/// object's first fourteen characters; the last character is reserved.
pub open spec fn key_spec(commit: Option<Seq<char>>, oid: Seq<char>) -> Seq<char> {
    let (version, source) = key_source(commit, oid);
    source.subrange(0, 8) + seq!['-'] + source.subrange(8, 12) + seq!['-', version] + source.subrange(12, 15)
        + seq!['-', '8'] + oid.subrange(0, 3) + seq!['-'] + oid.subrange(3, 14) + seq!['0']
}

/// The commit an origin names, as text.
pub open spec fn origin_commit(origin: Origin) -> Option<Seq<char>> {
    match origin {
        Origin::Commit(id) => Some(id@),
        Origin::Retry => None,
    }
}

/// It is UUID-shaped because that is the shape a Todoist sync command's `uuid`
/// takes. The characters are dam's own identifiers rather than a digest of
/// them: a commit id names the change and an oid names the object, each already
/// forty random hex characters, so disjoint slices of the pair are unique
/// without any further mixing. The version character separates a commit-borne
/// key from a retry-borne one, and the last character is reserved, so a helper
/// that turns one mutation into several remote commands can number them there
/// without minting anything of its own.
pub fn key(origin: Origin<'_>, oid: &Oid) -> (k: String)
    ensures
        k@ == key_spec(origin_commit(origin), oid@),
{
    let object = oid.as_str();
    let (version, source) = match origin {
        Origin::Retry => ("5", object.substring_char(25, 40)),
        Origin::Commit(id) => {
            let text = id.as_str();
            ("4", text.substring_char(0, 15))
        },
    };
    proof {
        reveal_strlit("5");
        reveal_strlit("4");
        reveal_strlit("-");
        reveal_strlit("-8");
        reveal_strlit("0");
    }
    let mut out = String::from_str(source.substring_char(0, 8));
    out.append("-");
    out.append(source.substring_char(8, 12));
    out.append("-");
    out.append(version);
    out.append(source.substring_char(12, 15));
    out.append("-8");
    out.append(object.substring_char(0, 3));
    out.append("-");
    out.append(object.substring_char(3, 14));
    out.append("0");
    proof {
        let want = key_spec(origin_commit(origin), oid@);
        assert(out@ =~= want);
    }
    out
}

/// Whether a character may stand in a key: a hex digit or a dash.
pub open spec fn key_char(c: char) -> bool {
    ('0' <= c && c <= '9') || ('a' <= c && c <= 'f') || c == '-'
}

/// Every key is thirty-six characters in five dash-separated groups of 8, 4,
/// 4, 4 and 12, all hex digits but the dashes, the last one `0`.
pub proof fn lemma_key_is_uuid_shaped(commit: Option<Seq<char>>, oid: Seq<char>)
    requires
        is_id_text(oid),
        commit matches Some(id) ==> is_id_text(id),
    ensures
        key_spec(commit, oid).len() == 36,
        key_spec(commit, oid)[8] == '-' && key_spec(commit, oid)[13] == '-' && key_spec(commit, oid)[18] == '-'
            && key_spec(commit, oid)[23] == '-',
        key_spec(commit, oid)[35] == '0',
        forall|i: int| 0 <= i < 36 ==> key_char(#[trigger] key_spec(commit, oid)[i]),
        forall|i: int| 0 <= i < 36 && i != 8 && i != 13 && i != 18 && i != 23 ==> #[trigger] key_spec(commit, oid)[i] != '-',
{
    let k = key_spec(commit, oid);
    let (v, s) = key_source(commit, oid);
    assert(s.len() == 15);
    assert forall|i: int| 0 <= i < 36 implies key_char(#[trigger] k[i]) && ((i != 8 && i != 13 && i != 18 && i != 23) ==> k[i] != '-') by {
        if i < 8 {
            assert(k[i] == s[i]);
        } else if 8 < i < 13 {
            assert(k[i] == s[i - 1]);
        } else if i == 14 {
            assert(k[i] == v);
        } else if 14 < i < 18 {
            assert(k[i] == s[i - 3]);
        } else if i == 19 {
        } else if 19 < i < 23 {
            assert(k[i] == oid[i - 20]);
        } else if 23 < i < 35 {
            assert(k[i] == oid[i - 21]);
        }
    }
}

/// Two different commits yield two different keys for one object, as long as
/// their ids differ in the fifteen characters a key spells; two objects yield
/// two different keys, as long as their oids differ in the fourteen a key
/// spells; and a commit-borne key never equals a retry-borne one.
pub proof fn lemma_keys_tell_changes_apart(c1: Option<Seq<char>>, o1: Seq<char>, c2: Option<Seq<char>>, o2: Seq<char>)
    requires
        is_id_text(o1),
        is_id_text(o2),
        c1 matches Some(id) ==> is_id_text(id),
        c2 matches Some(id) ==> is_id_text(id),
        (c1 is Some) != (c2 is Some)
            || o1.subrange(0, 14) != o2.subrange(0, 14)
            || (c1 matches Some(a) && c2 matches Some(b) && a.subrange(0, 15) != b.subrange(0, 15))
            || (c1 is None && c2 is None && o1.subrange(25, 40) != o2.subrange(25, 40)),
    ensures
        key_spec(c1, o1) != key_spec(c2, o2),
{
    let (k1, k2) = (key_spec(c1, o1), key_spec(c2, o2));
    let (v1, s1) = key_source(c1, o1);
    let (v2, s2) = key_source(c2, o2);
    assert(s1.len() == 15 && s2.len() == 15);
    if (c1 is Some) != (c2 is Some) {
        assert(k1[14] == v1 && k2[14] == v2);
    } else if o1.subrange(0, 14) != o2.subrange(0, 14) {
        assert(exists|j: int| 0 <= j < 14 && o1[j] != o2[j]) by {
            if !(exists|j: int| 0 <= j < 14 && o1[j] != o2[j]) {
                assert(o1.subrange(0, 14) =~= o2.subrange(0, 14));
            }
        }
        let j = choose|j: int| 0 <= j < 14 && o1[j] != o2[j];
        if j < 3 {
            assert(k1[20 + j] == o1[j] && k2[20 + j] == o2[j]);
        } else {
            assert(k1[21 + j] == o1[j] && k2[21 + j] == o2[j]);
        }
    } else {
        assert(s1 != s2);
        assert(exists|j: int| 0 <= j < 15 && s1[j] != s2[j]) by {
            if !(exists|j: int| 0 <= j < 15 && s1[j] != s2[j]) {
                assert(s1 =~= s2);
            }
        }
        let j = choose|j: int| 0 <= j < 15 && s1[j] != s2[j];
        if j < 8 {
            assert(k1[j] == s1[j] && k2[j] == s2[j]);
        } else if j < 12 {
            assert(k1[j + 1] == s1[j] && k2[j + 1] == s2[j]);
        } else {
            assert(k1[j + 3] == s1[j] && k2[j + 3] == s2[j]);
        }
    }
}

} // verus!
