//! Identities: NEAR account ids, used both for contributors and for asset contracts.

use vstd::prelude::*;

verus! {

/// `-`, `_` and `.` separate the alphanumeric parts of an account id.
pub open spec fn is_separator(c: char) -> bool {
    c == '-' || c == '_' || c == '.'
}

/// The characters an account id may hold: `a-z`, `0-9` and the separators.
pub open spec fn is_account_char(c: char) -> bool {
    ('a' <= c && c <= 'z') || ('0' <= c && c <= '9') || is_separator(c)
}

/// A well-formed NEAR account id: 2 to 64 characters out of `a-z`, `0-9`, `-`, `_`, `.`,
/// where a separator neither starts nor ends the id and never follows another separator.
pub open spec fn is_valid_account_id(s: Seq<char>) -> bool {
    &&& 2 <= s.len() <= 64
    &&& forall|i: int| 0 <= i < s.len() ==> is_account_char(#[trigger] s[i])
    &&& !is_separator(s[0])
    &&& !is_separator(s[s.len() - 1])
    &&& forall|i: int|
        0 <= i < s.len() - 1 ==> !(is_separator(#[trigger] s[i]) && is_separator(s[i + 1]))
}

/// Relies on `near_sdk::AccountId::validate` (near-account-id's `validation::validate`):
/// it accepts exactly the well-formed account ids. Every character it accepts is ASCII,
/// so its byte-length bounds are the character-count bounds stated here.
#[verifier::external_body]
fn account_id_is_valid(s: &str) -> (r: bool)
    ensures
        r == is_valid_account_id(s@),
{
    near_sdk::AccountId::validate(s).is_ok()
}

/// A validated account id.
pub struct AccountName {
    id: String,
}

impl View for AccountName {
    type V = Seq<char>;

    closed spec fn view(&self) -> Seq<char> {
        self.id@
    }
}

impl AccountName {
    #[verifier::type_invariant]
    spec fn inv(&self) -> bool {
        is_valid_account_id(self.id@)
    }

    /// Parses `s` as an account id; `None` when it is not well formed.
    pub fn parse(s: &str) -> (r: Option<AccountName>)
        ensures
            r is Some <==> is_valid_account_id(s@),
            r matches Some(a) ==> a@ == s@,
    {
        if account_id_is_valid(s) {
            Some(AccountName { id: s.to_owned() })
        } else {
            None
        }
    }

    pub fn as_str(&self) -> (r: &str)
        ensures
            r@ == self@,
    {
        self.id.as_str()
    }

    pub fn equals(&self, other: &AccountName) -> (r: bool)
        ensures
            r == (self@ == other@),
    {
        self.id == other.id
    }
}

impl Clone for AccountName {
    fn clone(&self) -> (r: Self)
        ensures
            r == *self,
    {
        proof {
            use_type_invariant(self);
        }
        AccountName { id: self.id.clone() }
    }
}

impl PartialEq for AccountName {
    fn eq(&self, other: &AccountName) -> (r: bool) {
        self.id == other.id
    }
}

impl vstd::std_specs::cmp::PartialEqSpecImpl for AccountName {
    open spec fn obeys_eq_spec() -> bool {
        true
    }

    open spec fn eq_spec(&self, other: &AccountName) -> bool {
        self@ == other@
    }
}

} // verus!
