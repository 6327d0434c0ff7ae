//! The identifiers dam mints: an object's oid and a commit's id, each forty
//! lowercase hex characters spelled from twenty random bytes.

use vstd::prelude::*;

verus! {

/// The lowercase hex digit for a value below sixteen.
pub open spec fn hex_digit(n: u8) -> char {
    if n < 10 {
        (48 + n) as char
    } else {
        (87 + n) as char
    }
}

/// Whether a character is a lowercase hex digit.
pub open spec fn is_hex_char(c: char) -> bool {
    ('0' <= c && c <= '9') || ('a' <= c && c <= 'f')
}

/// Two hex digits per byte, high nibble first.
pub open spec fn hex_of(bytes: Seq<u8>) -> Seq<char>
    decreases bytes.len(),
{
    if bytes.len() == 0 {
        Seq::empty()
    } else {
        let b = bytes.last();
        hex_of(bytes.drop_last()) + seq![hex_digit(b / 16), hex_digit(b % 16)]
    }
}

/// The text of an identifier: forty lowercase hex characters.
pub open spec fn is_id_text(s: Seq<char>) -> bool {
    &&& s.len() == 40
    &&& forall|i: int| 0 <= i < 40 ==> is_hex_char(#[trigger] s[i])
}

/// The first seven characters, what a message names an identifier by.
pub open spec fn short_text(s: Seq<char>) -> Seq<char> {
    s.subrange(0, 7)
}

proof fn lemma_hex_of_len(bytes: Seq<u8>)
    ensures
        hex_of(bytes).len() == 2 * bytes.len(),
    decreases bytes.len(),
{
    if bytes.len() > 0 {
        lemma_hex_of_len(bytes.drop_last());
    }
}

proof fn lemma_hex_of_is_hex(bytes: Seq<u8>)
    ensures
        forall|i: int| 0 <= i < hex_of(bytes).len() ==> is_hex_char(#[trigger] hex_of(bytes)[i]),
    decreases bytes.len(),
{
    if bytes.len() > 0 {
        lemma_hex_of_is_hex(bytes.drop_last());
        lemma_hex_of_len(bytes.drop_last());
        let b = bytes.last();
        assert(is_hex_char(hex_digit(b / 16)));
        assert(is_hex_char(hex_digit(b % 16)));
    }
}

/// Appends the hex digit for `n` to `out`.
fn push_hex_digit(out: &mut String, n: u8)
    requires
        n < 16,
    ensures
        final(out)@ == old(out)@.push(hex_digit(n)),
{
    let digits = "0123456789abcdef";
    proof {
        reveal_strlit("0123456789abcdef");
    }
    let one = digits.substring_char(n as usize, n as usize + 1);
    assert(digits@[n as int] == hex_digit(n));
    assert(one@ =~= seq![hex_digit(n)]);
    out.append(one);
}

/// Spells bytes as lowercase hex.
fn hex_text(bytes: &Vec<u8>) -> (s: String)
    ensures
        s@ == hex_of(bytes@),
{
    let mut out = String::new();
    let mut i: usize = 0;
    while i < bytes.len()
        invariant
            i <= bytes.len(),
            out@ == hex_of(bytes@.take(i as int)),
        decreases bytes.len() - i,
    {
        let b = bytes[i];
        push_hex_digit(&mut out, b / 16);
        push_hex_digit(&mut out, b % 16);
        assert(bytes@.take(i + 1).drop_last() =~= bytes@.take(i as int));
        i = i + 1;
    }
    assert(bytes@.take(bytes.len() as int) =~= bytes@);
    out
}

/// Whether `text` is forty lowercase hex characters.
fn check_id_text(text: &str) -> (ok: bool)
    ensures
        ok == is_id_text(text@),
{
    let n = text.unicode_len();
    if n != 40 {
        return false;
    }
    let mut i: usize = 0;
    while i < n
        invariant
            n == text@.len(),
            n == 40,
            i <= n,
            forall|j: int| 0 <= j < i ==> is_hex_char(#[trigger] text@[j]),
        decreases n - i,
    {
        let c = text.get_char(i);
        if !(('0' <= c && c <= '9') || ('a' <= c && c <= 'f')) {
            return false;
        }
        i = i + 1;
    }
    true
}

/// The identifier of an object, stable for its whole life.
#[derive(Debug)]
pub struct Oid(String);

/// The identifier of one commit.
#[derive(Debug)]
pub struct CommitId(String);

impl View for Oid {
    type V = Seq<char>;

    closed spec fn view(&self) -> Seq<char> {
        self.0@
    }
}

impl View for CommitId {
    type V = Seq<char>;

    closed spec fn view(&self) -> Seq<char> {
        self.0@
    }
}

impl Oid {
    #[verifier::type_invariant]
    closed spec fn well_formed(self) -> bool {
        is_id_text(self.0@)
    }

    /// The oid spelled by twenty bytes.
    pub fn from_bytes(bytes: &Vec<u8>) -> (oid: Oid)
        requires
            bytes@.len() == 20,
        ensures
            oid@ == hex_of(bytes@),
    {
        let text = hex_text(bytes);
        proof {
            lemma_hex_of_len(bytes@);
            lemma_hex_of_is_hex(bytes@);
        }
        Oid(text)
    }

    /// Reads an oid back from its text.
    pub fn parse(text: &str) -> (r: Option<Oid>)
        ensures
            r is Some <==> is_id_text(text@),
            r matches Some(oid) ==> oid@ == text@,
    {
        if check_id_text(text) {
            Some(Oid(String::from_str(text)))
        } else {
            None
        }
    }

    /// The text, which is always forty lowercase hex characters.
    pub fn as_str(&self) -> (r: &str)
        ensures
            r@ == self@,
            is_id_text(self@),
    {
        proof {
            use_type_invariant(self);
        }
        self.0.as_str()
    }

    /// The first seven characters.
    pub fn short(&self) -> (r: String)
        ensures
            r@ == short_text(self@),
    {
        proof {
            use_type_invariant(self);
        }
        String::from_str(self.0.as_str().substring_char(0, 7))
    }

    pub fn copy(&self) -> (r: Oid)
        ensures
            r@ == self@,
    {
        proof {
            use_type_invariant(self);
        }
        Oid(self.0.clone())
    }

    pub fn same(&self, other: &Oid) -> (r: bool)
        ensures
            r == (self@ == other@),
    {
        self.0 == other.0
    }
}

impl CommitId {
    #[verifier::type_invariant]
    closed spec fn well_formed(self) -> bool {
        is_id_text(self.0@)
    }

    /// The commit id spelled by twenty bytes.
    pub fn from_bytes(bytes: &Vec<u8>) -> (id: CommitId)
        requires
            bytes@.len() == 20,
        ensures
            id@ == hex_of(bytes@),
    {
        let text = hex_text(bytes);
        proof {
            lemma_hex_of_len(bytes@);
            lemma_hex_of_is_hex(bytes@);
        }
        CommitId(text)
    }

    /// Reads a commit id back from its text.
    pub fn parse(text: &str) -> (r: Option<CommitId>)
        ensures
            r is Some <==> is_id_text(text@),
            r matches Some(id) ==> id@ == text@,
    {
        if check_id_text(text) {
            Some(CommitId(String::from_str(text)))
        } else {
            None
        }
    }

    /// The text, which is always forty lowercase hex characters.
    pub fn as_str(&self) -> (r: &str)
        ensures
            r@ == self@,
            is_id_text(self@),
    {
        proof {
            use_type_invariant(self);
        }
        self.0.as_str()
    }

    pub fn copy(&self) -> (r: CommitId)
        ensures
            r@ == self@,
    {
        proof {
            use_type_invariant(self);
        }
        CommitId(self.0.clone())
    }

    pub fn same(&self, other: &CommitId) -> (r: bool)
        ensures
            r == (self@ == other@),
    {
        self.0 == other.0
    }
}

impl Clone for Oid {
    fn clone(&self) -> (r: Oid)
        ensures
            r@ == self@,
    {
        self.copy()
    }
}

impl Clone for CommitId {
    fn clone(&self) -> (r: CommitId)
        ensures
            r@ == self@,
    {
        self.copy()
    }
}

impl PartialEq for Oid {
    fn eq(&self, other: &Oid) -> (r: bool) {
        self.same(other)
    }
}

impl vstd::std_specs::cmp::PartialEqSpecImpl for Oid {
    open spec fn obeys_eq_spec() -> bool {
        true
    }

    open spec fn eq_spec(&self, other: &Oid) -> bool {
        self@ == other@
    }
}

impl Eq for Oid {
}

impl PartialEq for CommitId {
    fn eq(&self, other: &CommitId) -> (r: bool) {
        self.same(other)
    }
}

impl vstd::std_specs::cmp::PartialEqSpecImpl for CommitId {
    open spec fn obeys_eq_spec() -> bool {
        true
    }

    open spec fn eq_spec(&self, other: &CommitId) -> bool {
        self@ == other@
    }
}

impl Eq for CommitId {
}

} // verus!
