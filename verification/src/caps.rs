//! Capabilities to query datasets: what a token is to say, and whether what it says covers a
//! dataset.

use crate::table::Duplicate;
use crate::text;
use crate::text::{equal, glue, trim};
use vstd::prelude::*;
use vstd::string::*;

verus! {

/// The ability to query.
pub const ABILITY_QUERY: &'static str = "query:read";

/// The datasets that a capability covers: the one of this name, or all where it is empty.
#[derive(Debug, Clone, PartialEq, Eq)]
pub struct Scope {
    pub dataset: String,
}

impl Scope {
    /// The scope of one dataset.
    pub fn dataset(name: &str) -> (r: Scope)
        ensures
            r.dataset@ == name@,
    {
        Scope { dataset: name.to_owned() }
    }

    /// The scope of all datasets.
    pub fn all() -> (r: Scope)
        ensures
            r.dataset@ == Seq::<char>::empty(),
    {
        Scope { dataset: String::new() }
    }

    /// The scope as a caveat.
    pub fn to_caveat(&self) -> (r: String)
        ensures
            r@ == self.dataset@,
    {
        self.dataset.clone()
    }

    /// The scope that a caveat gives.
    pub fn from_caveat(s: &str) -> (r: Scope)
        ensures
            r.dataset@ == s@,
    {
        Scope { dataset: s.to_owned() }
    }
}

/// A scope covers a dataset: it is of all datasets, or of just this one.
pub open spec fn covers(scope: Seq<char>, dataset: Seq<char>) -> bool {
    scope.len() == 0 || scope == dataset
}

/// Whether a scope covers a dataset.
pub fn scope_allows(scope: &Scope, dataset: &str) -> (r: bool)
    ensures
        r == covers(scope.dataset@, dataset@),
{
    let none: bool = equal(scope.dataset.as_str(), "");
    proof {
        reveal_strlit("");
        assert(none == (scope.dataset@.len() == 0)) by {
            assert(""@ =~= Seq::<char>::empty());
            if scope.dataset@.len() == 0 {
                assert(scope.dataset@ =~= Seq::<char>::empty());
            }
        }
    }
    none || equal(scope.dataset.as_str(), dataset)
}

/// A scope that names a dataset covers no other, however alike its name is.
pub proof fn lemma_scope_is_exact(scope: Seq<char>, dataset: Seq<char>)
    requires
        scope.len() > 0,
        covers(scope, dataset),
    ensures
        dataset == scope,
{
}

/// What the last capability of a chain says: its abilities, and its scope if it has one.
#[derive(Debug, Clone, PartialEq, Eq)]
pub struct Leaf {
    pub abilities: Vec<String>,
    pub path_prefix: Option<String>,
}

/// The scope that a caveat gives; all datasets where there is none.
pub open spec fn scope_of(path_prefix: Option<Seq<char>>) -> Seq<char> {
    match path_prefix {
        Some(s) => s,
        None => Seq::empty(),
    }
}

impl Leaf {
    /// The scope that the capability has.
    pub fn scope(&self) -> (r: Scope)
        ensures
            r.dataset@ == scope_of(self.path_prefix.deep_view()),
    {
        match &self.path_prefix {
            Some(s) => Scope::from_caveat(s.as_str()),
            None => Scope::all(),
        }
    }
}

/// What a capability for a scope says.
#[derive(Debug, Clone, PartialEq, Eq)]
pub struct GrantTerms {
    pub abilities: Vec<String>,
    pub path_prefix: String,
    /// The second since the epoch after which it does not hold; 0 for none.
    pub not_after: u64,
    pub nonce: u64,
}

/// What a capability for a scope is to say: that its holder may query, the scope, and until when.
pub fn grant_terms(scope: &Scope, not_after: u64, nonce: u64) -> (r: GrantTerms)
    ensures
        r.abilities.deep_view() == seq![ABILITY_QUERY@],
        r.path_prefix@ == scope.dataset@,
        r.not_after == not_after,
        r.nonce == nonce,
{
    let abilities: Vec<String> = vec![ABILITY_QUERY.to_owned()];
    proof {
        assert(abilities.deep_view() =~= seq![ABILITY_QUERY@]);
    }
    GrantTerms { abilities, path_prefix: scope.to_caveat(), not_after, nonce }
}

/// The second at which a capability ends that is to last `expires` seconds; 0 is for ever.
pub fn expiry(now: u64, expires: u64) -> (r: u64)
    requires
        now + expires <= u64::MAX,
    ensures
        r == (if expires == 0 {
            0
        } else {
            (now + expires) as u64
        }),
{
    if expires == 0 {
        0
    } else {
        now + expires
    }
}

/// Why a token cannot be inspected.
#[derive(Debug, Clone, Copy, PartialEq, Eq, Structural)]
pub enum InspectError {
    /// It is no chain of capabilities.
    Undecodable,
    /// The chain is empty.
    Empty,
}

impl InspectError {
    /// The words of the error.
    pub open spec fn words(self) -> Seq<char> {
        match self {
            InspectError::Undecodable => "decoding query capability"@,
            InspectError::Empty => "empty capability chain"@,
        }
    }

    /// The words of the error.
    pub fn message(&self) -> (r: String)
        ensures
            r@ == self.words(),
    {
        match self {
            InspectError::Undecodable => "decoding query capability".to_owned(),
            InspectError::Empty => "empty capability chain".to_owned(),
        }
    }
}

/// The abilities and the scope of a token; `chain` is what it decodes to, if it does.
pub fn inspect_chain(chain: Option<&Vec<Leaf>>) -> (r: Result<(Vec<String>, Scope), InspectError>)
    ensures
        match chain {
            None => r == Err::<(Vec<String>, Scope), InspectError>(InspectError::Undecodable),
            Some(c) => if c@.len() == 0 {
                r == Err::<(Vec<String>, Scope), InspectError>(InspectError::Empty)
            } else {
                &&& r is Ok
                &&& r->Ok_0.0.deep_view() == c@.last().abilities.deep_view()
                &&& r->Ok_0.1.dataset@ == scope_of(c@.last().path_prefix.deep_view())
            },
        },
{
    match chain {
        None => Err(InspectError::Undecodable),
        Some(c) => {
            let n: usize = c.len();
            if n == 0 {
                return Err(InspectError::Empty);
            }
            let leaf: &Leaf = &c[n - 1];
            Ok((leaf.abilities.duplicate(), leaf.scope()))
        },
    }
}

/// The words for a token whose scope does not cover a dataset.
pub open spec fn out_of_scope(scope: Seq<char>, dataset: Seq<char>) -> Seq<char> {
    text::glued(seq!["token scope `"@, scope, "` does not cover dataset `"@, dataset, "`"@])
}

/// Whether a token permits to query a dataset, or why not: it must decode, be authorized, not be
/// empty, and cover the dataset.
pub open spec fn access(
    chain: Result<Seq<Option<Seq<char>>>, Seq<char>>,
    authorized: Result<(), Seq<char>>,
    dataset: Seq<char>,
) -> Result<(), Seq<char>> {
    match chain {
        Err(e) => Err(e),
        Ok(prefixes) => match authorized {
            Err(e) => Err(e),
            Ok(()) => if prefixes.len() == 0 {
                Err("empty chain"@)
            } else if !covers(scope_of(prefixes.last()), dataset) {
                Err(out_of_scope(scope_of(prefixes.last()), dataset))
            } else {
                Ok(())
            },
        },
    }
}

/// The scopes of the capabilities of a chain.
pub open spec fn prefixes(chain: Seq<Leaf>) -> Seq<Option<Seq<char>>> {
    Seq::new(chain.len(), |i: int| chain[i].path_prefix.deep_view())
}

/// Whether a token permits to query a dataset. `chain` is what the token decodes to, `authorized`
/// what the check of the chain says.
pub fn check_access(
    chain: Result<Vec<Leaf>, String>,
    authorized: Result<(), String>,
    dataset: &str,
) -> (r: Result<(), String>)
    ensures
        access(
            match chain {
                Ok(c) => Ok(prefixes(c@)),
                Err(e) => Err(e@),
            },
            match authorized {
                Ok(()) => Ok(()),
                Err(e) => Err(e@),
            },
            dataset@,
        ) == (match r {
            Ok(()) => Ok::<(), Seq<char>>(()),
            Err(e) => Err(e@),
        }),
{
    let leaves: Vec<Leaf> = match chain {
        Ok(c) => c,
        Err(e) => {
            return Err(e);
        },
    };
    if let Err(e) = authorized {
        return Err(e);
    }
    let n: usize = leaves.len();
    if n == 0 {
        return Err("empty chain".to_owned());
    }
    let scope: Scope = leaves[n - 1].scope();
    assert(prefixes(leaves@).last() == leaves@[n - 1].path_prefix.deep_view());
    if !scope_allows(&scope, dataset) {
        let parts: Vec<String> = vec![
            "token scope `".to_owned(),
            scope.dataset.clone(),
            "` does not cover dataset `".to_owned(),
            dataset.to_owned(),
            "`".to_owned(),
        ];
        proof {
            assert(parts.deep_view() =~= seq![
                "token scope `"@,
                scope.dataset@,
                "` does not cover dataset `"@,
                dataset@,
                "`"@,
            ]);
        }
        return Err(glue(&parts));
    }
    Ok(())
}

/// The value of a hexadecimal digit.
pub open spec fn hex_value(c: char) -> Option<u8> {
    if 48 <= c as u32 <= 57 {
        Some((c as u32 - 48) as u8)
    } else if 65 <= c as u32 <= 70 {
        Some((c as u32 - 55) as u8)
    } else if 97 <= c as u32 <= 102 {
        Some((c as u32 - 87) as u8)
    } else {
        None
    }
}

/// `s` consists of pairs of hexadecimal digits.
pub open spec fn is_hex(s: Seq<char>) -> bool {
    s.len() % 2 == 0 && forall|i: int| 0 <= i < s.len() ==> hex_value(#[trigger] s[i]) is Some
}

/// The bytes that pairs of hexadecimal digits stand for.
pub open spec fn hex_bytes(s: Seq<char>) -> Seq<u8> {
    Seq::new(
        s.len() / 2,
        |i: int| (hex_value(s[2 * i])->0 * 16 + hex_value(s[2 * i + 1])->0) as u8,
    )
}

/// `hex::decode`: the bytes that pairs of hexadecimal digits in either case stand for, the first of
/// a pair the more significant; `None` for any other string.
#[verifier::external_body]
fn hex_decode(s: &str) -> (r: Option<Vec<u8>>)
    ensures
        r is Some <==> is_hex(s@),
        r matches Some(v) ==> v@ == hex_bytes(s@),
{
    hex::decode(s).ok()
}

/// Why a string is no node id.
#[derive(Debug, Clone, Copy, PartialEq, Eq, Structural)]
pub enum NodeIdError {
    /// It is not hexadecimal.
    NotHex,
    /// It does not have 32 bytes.
    WrongLength,
}

impl NodeIdError {
    /// The words of the error.
    pub open spec fn words(self) -> Seq<char> {
        match self {
            NodeIdError::NotHex => "node id is not valid hex"@,
            NodeIdError::WrongLength => "node id must be 32 bytes (64 hex chars)"@,
        }
    }

    /// The words of the error.
    pub fn message(&self) -> (r: String)
        ensures
            r@ == self.words(),
    {
        match self {
            NodeIdError::NotHex => "node id is not valid hex".to_owned(),
            NodeIdError::WrongLength => "node id must be 32 bytes (64 hex chars)".to_owned(),
        }
    }
}

/// The node id that a string writes.
pub open spec fn node_id(s: Seq<char>) -> Result<Seq<u8>, NodeIdError> {
    let t = text::trimmed(s);
    if !is_hex(t) {
        Err(NodeIdError::NotHex)
    } else if t.len() != 64 {
        Err(NodeIdError::WrongLength)
    } else {
        Ok(hex_bytes(t))
    }
}

/// The node id that a string writes: 32 bytes in hexadecimal, white space around it passed over.
pub fn parse_node_id(hex_id: &str) -> (r: Result<Vec<u8>, NodeIdError>)
    ensures
        node_id(hex_id@) == (match r {
            Ok(v) => Ok::<Seq<u8>, NodeIdError>(v@),
            Err(e) => Err(e),
        }),
        r matches Ok(v) ==> v@.len() == 32,
{
    let t: String = trim(hex_id);
    match hex_decode(t.as_str()) {
        None => Err(NodeIdError::NotHex),
        Some(bytes) => {
            if bytes.len() != 32 {
                Err(NodeIdError::WrongLength)
            } else {
                Ok(bytes)
            }
        },
    }
}

} // verus!
