use crate::algorithm::HashAlgorithm;
use vstd::prelude::*;
use vstd::string::{StrSliceExecFns, StringExecFns};

verus! {

/// One line of an index: a file's path and the hexadecimal digest of its
/// content.
#[derive(Debug, Clone)]
pub struct HashRecord {
    pub path: String,
    pub digest: String,
}

/// The two encodings in which an index line may be written.
#[derive(Debug, Clone, Copy, PartialEq, Eq, Structural)]
pub enum LineFormat {
    /// `<hexdigest>:<path>`.
    Delimited,
    /// `<hexdigest><path>`; the digest's width follows from the algorithm.
    FixedWidth(HashAlgorithm),
}

/// The fixed-width line for a digest and a path: the digest, then the path,
/// nothing between them.
pub open spec fn fixed_line(digest: Seq<char>, path: Seq<char>) -> Seq<char> {
    digest + path
}

/// The delimited line for a digest and a path: the digest, a colon, the
/// path.
pub open spec fn delimited_line(digest: Seq<char>, path: Seq<char>) -> Seq<char> {
    digest + seq![':'] + path
}

/// What a fixed-width line holds, as (path, digest), for a digest `width`
/// characters wide: nothing if the line is shorter than that, else the first
/// `width` characters as digest and all the rest, untrimmed, as path.
pub open spec fn parse_fixed(line: Seq<char>, width: nat) -> Option<(Seq<char>, Seq<char>)> {
    if line.len() < width {
        None
    } else {
        Some((line.skip(width as int), line.take(width as int)))
    }
}

/// Whether position `i` of the line holds its first colon.
pub open spec fn is_first_colon(line: Seq<char>, i: int) -> bool {
    &&& 0 <= i < line.len()
    &&& line[i] == ':'
    &&& forall|j: int| 0 <= j < i ==> line[j] != ':'
}

/// What a delimited line holds, as (path, digest): nothing if the line has
/// no colon, else what stands before the first colon as digest and all that
/// follows it as path, further colons included.
pub open spec fn parse_delimited(line: Seq<char>) -> Option<(Seq<char>, Seq<char>)> {
    if exists|i: int| is_first_colon(line, i) {
        let i = choose|i: int| is_first_colon(line, i);
        Some((line.skip(i + 1), line.take(i)))
    } else {
        None
    }
}

/// What a line holds in the given format, as (path, digest).
pub open spec fn parse_line(line: Seq<char>, format: LineFormat) -> Option<(Seq<char>, Seq<char>)> {
    match format {
        LineFormat::Delimited => parse_delimited(line),
        LineFormat::FixedWidth(algorithm) => parse_fixed(line, 2 * algorithm.spec_digest_size()),
    }
}

/// What a parsed record stands for, as (path, digest).
pub open spec fn record_view(record: Option<HashRecord>) -> Option<(Seq<char>, Seq<char>)> {
    match record {
        Some(r) => Some((r.path@, r.digest@)),
        None => None,
    }
}

/// Writes a record as a fixed-width line.
pub fn format_record(digest: &str, path: &str) -> (line: String)
    ensures
        line@ == fixed_line(digest@, path@),
{
    String::from_str(digest).concat(path)
}

/// Writes a record as a delimited line.
pub fn format_delimited(digest: &str, path: &str) -> (line: String)
    ensures
        line@ == delimited_line(digest@, path@),
{
    proof {
        reveal_strlit(":");
        assert(":"@ =~= seq![':']);
    }
    String::from_str(digest).concat(":").concat(path)
}

/// Writes a record as a line in the given format.
pub fn write_record(format: LineFormat, digest: &str, path: &str) -> (line: String)
    ensures
        line@ == (match format {
            LineFormat::Delimited => delimited_line(digest@, path@),
            LineFormat::FixedWidth(_) => fixed_line(digest@, path@),
        }),
{
    match format {
        LineFormat::Delimited => format_delimited(digest, path),
        LineFormat::FixedWidth(_) => format_record(digest, path),
    }
}

/// Reads a fixed-width line written for the given algorithm. A line too
/// short to hold a digest gives `None`.
pub fn parse_fixed_line(line: &str, algorithm: HashAlgorithm) -> (record: Option<HashRecord>)
    ensures
        record_view(record) == parse_fixed(line@, 2 * algorithm.spec_digest_size()),
{
    let width: usize = 2 * algorithm.digest_size();
    let len: usize = line.unicode_len();
    if len < width {
        None
    } else {
        let digest = String::from_str(line.substring_char(0, width));
        let path = String::from_str(line.substring_char(width, len));
        Some(HashRecord { path, digest })
    }
}

/// Reads a delimited line. A line without a colon gives `None`.
pub fn parse_delimited_line(line: &str) -> (record: Option<HashRecord>)
    ensures
        record_view(record) == parse_delimited(line@),
{
    let len: usize = line.unicode_len();
    let mut i: usize = 0;
    while i < len
        invariant
            len == line@.len(),
            i <= len,
            forall|j: int| 0 <= j < i ==> line@[j] != ':',
        decreases len - i,
    {
        if line.get_char(i) == ':' {
            proof {
                assert(is_first_colon(line@, i as int));
                let k = choose|k: int| is_first_colon(line@, k);
                assert(k == i);
            }
            let digest = String::from_str(line.substring_char(0, i));
            let path = String::from_str(line.substring_char(i + 1, len));
            return Some(HashRecord { path, digest });
        }
        i += 1;
    }
    None
}

/// Reads a line in the given format; `None` for a malformed line.
pub fn parse_record(line: &str, format: LineFormat) -> (record: Option<HashRecord>)
    ensures
        record_view(record) == parse_line(line@, format),
{
    match format {
        LineFormat::Delimited => parse_delimited_line(line),
        LineFormat::FixedWidth(algorithm) => parse_fixed_line(line, algorithm),
    }
}

/// A fixed-width line written for a digest of the algorithm's width reads
/// back as the same path and digest.
pub proof fn lemma_fixed_round_trip(digest: Seq<char>, path: Seq<char>, algorithm: HashAlgorithm)
    requires
        digest.len() == 2 * algorithm.spec_digest_size(),
    ensures
        parse_fixed(fixed_line(digest, path), 2 * algorithm.spec_digest_size()) == Some(
            (path, digest),
        ),
{
    let line = fixed_line(digest, path);
    let width = (2 * algorithm.spec_digest_size()) as int;
    assert(line.take(width) =~= digest);
    assert(line.skip(width) =~= path);
}

/// A delimited line written for a digest that holds no colon reads back as
/// the same path and digest, whatever colons the path holds.
pub proof fn lemma_delimited_round_trip(digest: Seq<char>, path: Seq<char>)
    requires
        forall|j: int| 0 <= j < digest.len() ==> digest[j] != ':',
    ensures
        parse_delimited(delimited_line(digest, path)) == Some((path, digest)),
{
    let line = delimited_line(digest, path);
    let at = digest.len() as int;
    assert(is_first_colon(line, at));
    let k = choose|k: int| is_first_colon(line, k);
    assert(k == at);
    assert(line.take(at) =~= digest);
    assert(line.skip(at + 1) =~= path);
}

} // verus!
