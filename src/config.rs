//! Settings of the server and of its stores, and the size notation of the
//! configuration file.
use crate::store::StoreSettings;
use vstd::prelude::*;

verus! {

/// Where the server listens and keeps its data, and whom it serves.
#[derive(Clone, Debug)]
pub struct Server {
    pub address: String,
    pub port: u16,
    pub path: String,
    pub broker_limit: u16,
    pub authorization: String,
}

/// Sizes of the stores, as the configuration file writes them.
#[derive(Clone, Debug)]
pub struct Storage {
    pub max_file_size: String,
    pub pull_max_limit: String,
    pub cache_limit: usize,
}

#[derive(Clone, Debug)]
pub struct Config {
    pub server: Server,
    pub storage: Storage,
}

/// The leftmost match of `pattern` in `text`: the bytes of its first and
/// second groups; none when the pattern does not compile, does not match,
/// or leaves a group empty of any match.
pub uninterp spec fn captures_of(pattern: Seq<char>, text: Seq<char>) -> Option<(Seq<u8>, Seq<u8>)>;

pub open spec fn pair_view(r: Option<(Vec<u8>, Vec<u8>)>) -> Option<(Seq<u8>, Seq<u8>)> {
    match r {
        Some((a, b)) => Some((a@, b@)),
        None => None,
    }
}

/// Relies on regex::Regex::new and Regex::captures: the first and second
/// groups of the leftmost match, as UTF-8 bytes.
#[verifier::external_body]
fn regex_captures(pattern: &str, text: &str) -> (r: Option<(Vec<u8>, Vec<u8>)>)
    ensures
        pair_view(r) == captures_of(pattern@, text@),
{
    let re = regex::Regex::new(pattern).ok()?;
    let caps = re.captures(text)?;
    let first = caps.get(1)?.as_str().as_bytes().to_vec();
    let second = caps.get(2)?.as_str().as_bytes().to_vec();
    Some((first, second))
}

pub open spec fn is_digit(b: u8) -> bool {
    48 <= b <= 57
}

pub open spec fn all_digits(s: Seq<u8>) -> bool {
    forall|i: int| 0 <= i < s.len() ==> is_digit(#[trigger] s[i])
}

/// The number that decimal digits write.
pub open spec fn decimal_value(s: Seq<u8>) -> nat
    decreases s.len(),
{
    if s.len() == 0 {
        0
    } else {
        decimal_value(s.drop_last()) * 10 + (s.last() - 48) as nat
    }
}

/// What a size unit multiplies by: k, m and g in either case, in binary
/// units.
pub open spec fn unit_multiplier(u: Seq<u8>) -> Option<nat> {
    if u.len() != 1 {
        None
    } else if u[0] == 107 || u[0] == 75 {
        Some(1024)
    } else if u[0] == 109 || u[0] == 77 {
        Some(1048576)
    } else if u[0] == 103 || u[0] == 71 {
        Some(1073741824)
    } else {
        None
    }
}

/// A size from its digits and its unit.
pub open spec fn size_of_parts(digits: Seq<u8>, unit: Seq<u8>) -> Result<usize, &'static str> {
    if digits.len() == 0 || !all_digits(digits) || decimal_value(digits) > usize::MAX {
        Err("Failed to parse number")
    } else {
        match unit_multiplier(unit) {
            None => Err("Unknown unit"),
            Some(m) => if decimal_value(digits) * m > usize::MAX {
                Err("Size out of range")
            } else {
                Ok((decimal_value(digits) * m) as usize)
            },
        }
    }
}

/// What `parse_size` gives for a text.
pub open spec fn size_of_text(text: Seq<char>) -> Result<usize, &'static str> {
    match captures_of(SIZE_PATTERN@, text) {
        None => Err("Invalid format"),
        Some((d, u)) => size_of_parts(d, u),
    }
}

/// Digits, then unit letters, anywhere in the text.
pub const SIZE_PATTERN: &'static str = "(\\d+)([kKmMgG]+)";

/// A prefix of decimal digits writes no larger a number than the whole.
pub proof fn lemma_decimal_grows(s: Seq<u8>, i: int)
    requires
        0 <= i <= s.len(),
        all_digits(s),
    ensures
        decimal_value(s.subrange(0, i)) <= decimal_value(s),
    decreases s.len() - i,
{
    if i < s.len() {
        lemma_decimal_grows(s, i + 1);
        assert(s.subrange(0, i + 1).drop_last() =~= s.subrange(0, i));
    } else {
        assert(s.subrange(0, i) =~= s);
    }
}

/// The value of decimal digits, or `None` when `digits` is empty, holds a
/// byte that is no ASCII digit, or writes a number past `usize::MAX`.
pub fn parse_decimal(digits: &[u8]) -> (r: Option<usize>)
    ensures
        r == (if digits@.len() == 0 || !all_digits(digits@) || decimal_value(digits@) > usize::MAX {
            None::<usize>
        } else {
            Some(decimal_value(digits@) as usize)
        }),
{
    let n = digits.len();
    if n == 0 {
        return None;
    }
    let mut i: usize = 0;
    while i < n
        invariant
            n == digits@.len(),
            i <= n,
            all_digits(digits@.subrange(0, i as int)),
        decreases n - i,
    {
        if digits[i] < 48 || digits[i] > 57 {
            return None;
        }
        i = i + 1;
    }
    assert(digits@.subrange(0, n as int) =~= digits@);
    let mut v: usize = 0;
    let mut i: usize = 0;
    while i < n
        invariant
            n == digits@.len(),
            i <= n,
            all_digits(digits@),
            v == decimal_value(digits@.subrange(0, i as int)),
        decreases n - i,
    {
        let d = (digits[i] - 48) as usize;
        assert(digits@.subrange(0, i + 1).drop_last() =~= digits@.subrange(0, i as int));
        if v > (usize::MAX - d) / 10 {
            proof {
                lemma_decimal_grows(digits@, i + 1);
            }
            return None;
        }
        v = v * 10 + d;
        i = i + 1;
    }
    assert(digits@.subrange(0, n as int) =~= digits@);
    Some(v)
}

/// A size from the digits and unit that the size pattern captured.
pub fn size_from_parts(digits: &[u8], unit: &[u8]) -> (r: Result<usize, &'static str>)
    ensures
        r == size_of_parts(digits@, unit@),
{
    let value = match parse_decimal(digits) {
        Some(v) => v,
        None => return Err("Failed to parse number"),
    };
    let m: usize = if unit.len() != 1 {
        return Err("Unknown unit");
    } else if unit[0] == 107 || unit[0] == 75 {
        1024
    } else if unit[0] == 109 || unit[0] == 77 {
        1048576
    } else if unit[0] == 103 || unit[0] == 71 {
        1073741824
    } else {
        return Err("Unknown unit");
    };
    if value > usize::MAX / m {
        return Err("Size out of range");
    }
    Ok(value * m)
}

/// Reads a size such as `"10m"`: digits, then one of k, m, g in either case
/// (1024, 1024², 1024³), found anywhere in the text.
pub fn parse_size(size_str: &str) -> (r: Result<usize, &'static str>)
    ensures
        r == size_of_text(size_str@),
{
    match regex_captures(SIZE_PATTERN, size_str) {
        None => Err("Invalid format"),
        Some((digits, unit)) => size_from_parts(digits.as_slice(), unit.as_slice()),
    }
}

/// The store settings that a storage section writes: an error when either
/// size does not parse, the maximum file size's first.
pub open spec fn settings_of(
    max_file_size: Seq<char>,
    pull_max_limit: Seq<char>,
    cache_limit: usize,
) -> Result<StoreSettings, &'static str> {
    match size_of_text(max_file_size) {
        Err(e) => Err(e),
        Ok(m) => match size_of_text(pull_max_limit) {
            Err(e) => Err(e),
            Ok(p) => Ok(StoreSettings { max_file_size: m as u64, pull_max_limit: p as u64, cache_limit }),
        },
    }
}

/// Reads the store settings of a storage section; a size that does not
/// parse is an error.
pub fn store_settings(storage: &Storage) -> (r: Result<StoreSettings, &'static str>)
    ensures
        r == settings_of(storage.max_file_size@, storage.pull_max_limit@, storage.cache_limit),
{
    let max_file_size = parse_size(storage.max_file_size.as_str())?;
    let pull_max_limit = parse_size(storage.pull_max_limit.as_str())?;
    Ok(StoreSettings {
        max_file_size: max_file_size as u64,
        pull_max_limit: pull_max_limit as u64,
        cache_limit: storage.cache_limit,
    })
}

} // verus!
