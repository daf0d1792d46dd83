use vstd::prelude::*;
use vstd::string::StringExecFns;

verus! {

/// The digest algorithms that the tool can record and validate.
#[derive(Debug, Clone, Copy, PartialEq, Eq, Structural)]
pub enum HashAlgorithm {
    Xxh3,
    Sha224,
    Sha256,
    Sha384,
    Sha512,
    Md5,
}

impl HashAlgorithm {
    /// Number of bytes in a digest of this algorithm.
    pub open spec fn spec_digest_size(&self) -> nat {
        match self {
            Self::Xxh3 => 16,
            Self::Sha224 => 28,
            Self::Sha256 => 32,
            Self::Sha384 => 48,
            Self::Sha512 => 64,
            Self::Md5 => 16,
        }
    }

    /// The lowercase name by which the algorithm is selected.
    pub open spec fn spec_name(&self) -> Seq<char> {
        match self {
            Self::Xxh3 => "xxh3"@,
            Self::Sha224 => "sha224"@,
            Self::Sha256 => "sha256"@,
            Self::Sha384 => "sha384"@,
            Self::Sha512 => "sha512"@,
            Self::Md5 => "md5"@,
        }
    }

    /// The lowercase name by which the algorithm is selected.
    pub fn name(&self) -> (name: String)
        ensures
            name@ == self.spec_name(),
    {
        match self {
            Self::Xxh3 => String::from_str("xxh3"),
            Self::Sha224 => String::from_str("sha224"),
            Self::Sha256 => String::from_str("sha256"),
            Self::Sha384 => String::from_str("sha384"),
            Self::Sha512 => String::from_str("sha512"),
            Self::Md5 => String::from_str("md5"),
        }
    }

    /// Looks an algorithm up by its exact lowercase name.
    pub fn from_lowercase_name(name: &str) -> (found: Option<HashAlgorithm>)
        ensures
            found == algorithm_named(name@),
    {
        let name = String::from_str(name);
        if name == String::from_str("xxh3") {
            Some(Self::Xxh3)
        } else if name == String::from_str("sha224") {
            Some(Self::Sha224)
        } else if name == String::from_str("sha256") {
            Some(Self::Sha256)
        } else if name == String::from_str("sha384") {
            Some(Self::Sha384)
        } else if name == String::from_str("sha512") {
            Some(Self::Sha512)
        } else if name == String::from_str("md5") {
            Some(Self::Md5)
        } else {
            None
        }
    }

    /// Looks an algorithm up by name, letter case ignored. `None` for a name
    /// that, lowercased, is not one of the six.
    pub fn from_name(name: &str) -> (found: Option<HashAlgorithm>)
        ensures
            found == algorithm_named(lowercase_of(name@)),
    {
        let low = to_lowercase(name);
        Self::from_lowercase_name(low.as_str())
    }

    /// Number of bytes in a digest of this algorithm.
    pub fn digest_size(&self) -> (size: usize)
        ensures
            size == self.spec_digest_size(),
    {
        match self {
            Self::Xxh3 => 16,
            Self::Sha224 => 28,
            Self::Sha256 => 32,
            Self::Sha384 => 48,
            Self::Sha512 => 64,
            Self::Md5 => 16,
        }
    }
}

/// The algorithm selected by an exact lowercase name, if any.
pub open spec fn algorithm_named(name: Seq<char>) -> Option<HashAlgorithm> {
    if name == "xxh3"@ {
        Some(HashAlgorithm::Xxh3)
    } else if name == "sha224"@ {
        Some(HashAlgorithm::Sha224)
    } else if name == "sha256"@ {
        Some(HashAlgorithm::Sha256)
    } else if name == "sha384"@ {
        Some(HashAlgorithm::Sha384)
    } else if name == "sha512"@ {
        Some(HashAlgorithm::Sha512)
    } else if name == "md5"@ {
        Some(HashAlgorithm::Md5)
    } else {
        None
    }
}

/// The lowercase equivalent of a text, as Unicode defines it.
pub uninterp spec fn lowercase_of(text: Seq<char>) -> Seq<char>;

/// `str::to_lowercase` returns the lowercase equivalent of the string slice
/// as a new `String`.
#[verifier::external_body]
fn to_lowercase(text: &str) -> (low: String)
    ensures
        low@ == lowercase_of(text@),
{
    text.to_lowercase()
}

/// Every algorithm is found again under its own name.
pub proof fn lemma_name_round_trip(algorithm: HashAlgorithm)
    ensures
        algorithm_named(algorithm.spec_name()) == Some(algorithm),
{
    reveal_strlit("xxh3");
    reveal_strlit("sha224");
    reveal_strlit("sha256");
    reveal_strlit("sha384");
    reveal_strlit("sha512");
    reveal_strlit("md5");
    // The first character tells "xxh3" and "md5" from the rest, the fourth
    // and fifth tell the four SHA-2 names from each other.
    assert("xxh3"@[0] == 'x' && "md5"@[0] == 'm');
    assert("sha224"@[0] == 's' && "sha224"@[3] == '2' && "sha224"@[4] == '2');
    assert("sha256"@[0] == 's' && "sha256"@[3] == '2' && "sha256"@[4] == '5');
    assert("sha384"@[0] == 's' && "sha384"@[3] == '3');
    assert("sha512"@[0] == 's' && "sha512"@[3] == '5');
}

} // verus!
