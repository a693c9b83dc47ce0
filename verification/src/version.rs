use vstd::prelude::*;

use nonempty::NonEmpty;
use vstd::string::StringSliceAdditionalSpecFns;
use vstd::utf8::encode_utf8;

use crate::text::{
    chars_of, digits_value, hex_value, hex_width, lemma_hex_value_digit, parse_unsigned, parse_unsigned_chars,
    push_hex, IntErrorKind, ParseIntError,
};

pub mod patcher;
pub mod registry;
pub mod thaliak;

verus! {

// ---------------------------------------------------------------------------
// Version keys and their text form.
// ---------------------------------------------------------------------------

/// Identifies a version of the game data by a hash of its latest patches.
#[derive(Debug, Clone, Copy, PartialEq, Eq, PartialOrd, Ord, Hash, Structural)]
pub struct VersionKey(pub u64);

/// The text form of a version key: sixteen lower-case hexadecimal digits.
pub open spec fn key_text(key: VersionKey) -> Seq<char> {
    hex_width(key.0 as nat, 16)
}

proof fn lemma_hex_width_len(n: nat, width: nat)
    ensures
        hex_width(n, width).len() == width,
    decreases width,
{
    if width > 0 {
        lemma_hex_width_len(n / 16, (width - 1) as nat);
    }
}

proof fn lemma_hex_width_value(n: nat, width: nat)
    requires
        n < vstd::arithmetic::power::pow(16, width),
        vstd::arithmetic::power::pow(16, width) <= u64::MAX + 1,
    ensures
        digits_value(hex_width(n, width), 16, u64::MAX as int) == Ok::<nat, IntErrorKind>(n),
    decreases width,
{
    vstd::arithmetic::power::lemma_pow_positive(16, width);
    if width == 0 {
        assert(vstd::arithmetic::power::pow(16, 0) == 1) by {
            vstd::arithmetic::power::lemma_pow0(16);
        }
        assert(hex_width(n, width) =~= Seq::<char>::empty());
    } else {
        let w = (width - 1) as nat;
        vstd::arithmetic::power::lemma_pow_adds(16, w, 1);
        vstd::arithmetic::power::lemma_pow1(16);
        let p = vstd::arithmetic::power::pow(16, w);
        assert(n / 16 < p) by (nonlinear_arith)
            requires
                n < p * 16,
        ;
        vstd::arithmetic::power::lemma_pow_positive(16, w);
        lemma_hex_width_value(n / 16, w);
        let s = hex_width(n, width);
        assert(s.drop_last() == hex_width(n / 16, w));
        lemma_hex_value_digit((n % 16) as int);
        assert((n / 16) * 16 + n % 16 == n) by (nonlinear_arith);
    }
}

/// Reading back the text of a version key gives the key.
pub proof fn lemma_key_text_roundtrip(key: VersionKey)
    ensures
        parse_unsigned(key_text(key), 16, u64::MAX as int) == Ok::<nat, IntErrorKind>(key.0 as nat),
{
    let s = key_text(key);
    lemma_hex_width_len(key.0 as nat, 16);
    lemma_pow16();
    lemma_hex_width_value(key.0 as nat, 16);
    assert(s[0] != '+') by {
        lemma_hex_width_len(key.0 as nat, 16);
        assert forall|d: int| 0 <= d < 16 implies #[trigger] crate::text::digit_char(d) != '+' by {}
        lemma_first_hex_char(key.0 as nat, 16);
    }
}

proof fn lemma_pow16()
    ensures
        vstd::arithmetic::power::pow(16, 16) == 0x1_0000_0000_0000_0000,
{
    let p1 = vstd::arithmetic::power::pow(16, 1);
    let p2 = vstd::arithmetic::power::pow(16, 2);
    let p4 = vstd::arithmetic::power::pow(16, 4);
    let p8 = vstd::arithmetic::power::pow(16, 8);
    let p16 = vstd::arithmetic::power::pow(16, 16);
    vstd::arithmetic::power::lemma_pow1(16);
    vstd::arithmetic::power::lemma_pow_adds(16, 1, 1);
    vstd::arithmetic::power::lemma_pow_adds(16, 2, 2);
    vstd::arithmetic::power::lemma_pow_adds(16, 4, 4);
    vstd::arithmetic::power::lemma_pow_adds(16, 8, 8);
    assert(p2 == 256) by (nonlinear_arith)
        requires
            p1 == 16,
            p2 == p1 * p1,
    ;
    assert(p4 == 65536) by (nonlinear_arith)
        requires
            p2 == 256,
            p4 == p2 * p2,
    ;
    assert(p8 == 0x1_0000_0000) by (nonlinear_arith)
        requires
            p4 == 65536,
            p8 == p4 * p4,
    ;
    assert(p16 == 0x1_0000_0000_0000_0000) by (nonlinear_arith)
        requires
            p8 == 0x1_0000_0000,
            p16 == p8 * p8,
    ;
}

proof fn lemma_first_hex_char(n: nat, width: nat)
    requires
        width > 0,
    ensures
        hex_value(hex_width(n, width)[0]) is Some,
    decreases width,
{
    lemma_hex_width_len(n, width);
    if width == 1 {
        lemma_hex_width_len(n / 16, 0);
        lemma_hex_value_digit((n % 16) as int);
    } else {
        lemma_first_hex_char(n / 16, (width - 1) as nat);
        lemma_hex_width_len(n / 16, (width - 1) as nat);
    }
}

impl VersionKey {
    /// The text form of this key: sixteen lower-case hexadecimal digits.
    pub fn to_string(&self) -> (out: String)
        ensures
            out@ == key_text(*self),
    {
        let mut out = String::new();
        push_hex(&mut out, self.0, 16);
        out
    }

    /// Reads a key from hexadecimal text, as `u64::from_str_radix` with radix
    /// sixteen does: one leading `+` is allowed, and digits of either case.
    pub fn from_str(input: &str) -> (out: Result<VersionKey, ParseIntError>)
        ensures
            match parse_unsigned(input@, 16, u64::MAX as int) {
                Ok(v) => out == Ok::<VersionKey, ParseIntError>(VersionKey(v as u64)),
                Err(k) => out == Err::<VersionKey, ParseIntError>(ParseIntError { kind: k }),
            },
    {
        let cs = chars_of(input);
        assert(cs@.subrange(0, cs@.len() as int) == cs@);
        match parse_unsigned_chars(&cs, 0, cs.len(), 16, u64::MAX) {
            Ok(v) => Ok(VersionKey(v)),
            Err(e) => Err(e),
        }
    }
}

// ---------------------------------------------------------------------------
// Versions of the game data.
// ---------------------------------------------------------------------------

#[verifier::external_type_specification]
#[verifier::external_body]
#[verifier::reject_recursive_types(T)]
pub struct ExNonEmpty<T>(NonEmpty<T>);

/// A patch file of a repository: its version name and where it is stored.
#[derive(Debug)]
pub struct Patch {
    pub name: String,
    pub path: String,
}

/// The patches of a repository that make up a version, oldest first.
#[derive(Debug)]
pub struct Repository {
    pub name: String,
    pub patches: NonEmpty<Patch>,
}

/// A version of the game data: one patch list per repository.
#[derive(Debug)]
pub struct Version {
    pub repositories: Vec<Repository>,
}

/// The patches that a non-empty patch list holds, in order.
pub uninterp spec fn patches_of(list: NonEmpty<Patch>) -> Seq<Patch>;

/// Makes a non-empty patch list from a vector, through
/// `NonEmpty::from_vec`; its source moves the first element to the head and
/// keeps the rest as the tail, and gives `None` for an empty vector.
#[verifier::external_body]
pub(crate) fn patches_from_vec(patches: Vec<Patch>) -> (out: Option<NonEmpty<Patch>>)
    ensures
        match out {
            None => patches@.len() == 0,
            Some(list) => patches_of(list) == patches@,
        },
{
    NonEmpty::from_vec(patches)
}

/// The number of patches in the list, through `NonEmpty::len`, which counts
/// the head and the tail: never zero.
#[verifier::external_body]
pub(crate) fn patches_len(list: &NonEmpty<Patch>) -> (out: usize)
    ensures
        out == patches_of(*list).len() && out >= 1,
{
    list.len()
}

/// The patch at `index`, through `NonEmpty::get`: the head for index zero,
/// else that element of the tail, `None` past the end.
#[verifier::external_body]
pub(crate) fn patches_get(list: &NonEmpty<Patch>, index: usize) -> (out: Option<&Patch>)
    ensures
        match out {
            Some(p) => index < patches_of(*list).len() && *p == patches_of(*list)[index as int],
            None => index >= patches_of(*list).len(),
        },
{
    list.get(index)
}

/// The last patch of the list, through `NonEmpty::last`: the last element of
/// the tail, or the head when the tail is empty.
#[verifier::external_body]
pub(crate) fn patches_last(list: &NonEmpty<Patch>) -> (out: &Patch)
    ensures
        *out == patches_of(*list).last(),
{
    list.last()
}

/// The mathematical value of a patch: its name and path.
pub open spec fn patch_model(p: Patch) -> (Seq<char>, Seq<char>) {
    (p.name@, p.path@)
}

/// The mathematical value of a repository: its name and its patches.
pub open spec fn repository_model(r: Repository) -> (Seq<char>, Seq<(Seq<char>, Seq<char>)>) {
    (r.name@, patches_of(r.patches).map_values(|p: Patch| patch_model(p)))
}

impl Version {
    /// The mathematical value of a version: its repositories, in order.
    pub open spec fn model(self) -> Seq<(Seq<char>, Seq<(Seq<char>, Seq<char>)>)> {
        self.repositories@.map_values(|r: Repository| repository_model(r))
    }
}

impl Repository {
    /// The most recent patch of the repository: the last one, since patches
    /// are kept oldest first.
    pub fn latest(&self) -> (out: &Patch)
        ensures
            *out == patches_of(self.patches).last(),
    {
        patches_last(&self.patches)
    }

    /// A repository of the given patches, oldest first; there must be at
    /// least one.
    pub fn new(name: String, patches: Vec<Patch>) -> (out: Option<Repository>)
        ensures
            match out {
                None => patches@.len() == 0,
                Some(r) => r.name == name && patches_of(r.patches) == patches@,
            },
    {
        match patches_from_vec(patches) {
            Some(list) => Some(Repository { name, patches: list }),
            None => None,
        }
    }

    /// The number of patches of the repository; never zero.
    pub fn patch_count(&self) -> (out: usize)
        ensures
            out == patches_of(self.patches).len(),
            out >= 1,
    {
        patches_len(&self.patches)
    }

    /// The patch at `index`, oldest first; `None` past the last.
    pub fn patch(&self, index: usize) -> (out: Option<&Patch>)
        ensures
            match out {
                Some(p) => index < patches_of(self.patches).len() && *p == patches_of(self.patches)[index as int],
                None => index >= patches_of(self.patches).len(),
            },
    {
        patches_get(&self.patches, index)
    }
}

// ---------------------------------------------------------------------------
// The key of a version.
// ---------------------------------------------------------------------------

/// The SeaHash of a byte string.
pub uninterp spec fn seahash_of(bytes: Seq<u8>) -> u64;

/// Hashes bytes with `seahash::hash`; nothing is claimed of the value but
/// that it is the hash of those bytes.
#[verifier::external_body]
pub(crate) fn sea_hash(bytes: &[u8]) -> (out: u64)
    ensures
        out == seahash_of(bytes@),
{
    seahash::hash(bytes)
}

/// The bytes that a string feeds a hasher: its UTF-8 bytes, then `0xff`.
pub open spec fn hashed_text(s: Seq<char>) -> Seq<u8> {
    encode_utf8(s) + seq![0xffu8]
}

/// The bytes hashed for a version key: for each repository in order, the
/// hashed text of its latest patch's name.
pub open spec fn key_bytes(repositories: Seq<Repository>) -> Seq<u8>
    decreases repositories.len(),
{
    if repositories.len() == 0 {
        Seq::empty()
    } else {
        key_bytes(repositories.drop_last()) + hashed_text(patches_of(repositories.last().patches).last().name@)
    }
}

/// The key of a version.
pub open spec fn version_key(version: Version) -> VersionKey {
    VersionKey(seahash_of(key_bytes(version.repositories@)))
}

/// Appends the bytes of a string to `out`, then `0xff`.
pub fn push_hashed_text(out: &mut Vec<u8>, s: &str)
    ensures
        final(out)@ == old(out)@ + hashed_text(s@),
{
    let bytes = s.as_bytes();
    let ghost start = out@;
    let mut i: usize = 0;
    while i < bytes.len()
        invariant
            i <= bytes@.len(),
            bytes@ == s.spec_bytes(),
            out@ == start + bytes@.take(i as int),
        decreases bytes@.len() - i,
    {
        out.push(bytes[i]);
        assert(bytes@.take(i + 1) == bytes@.take(i as int).push(bytes@[i as int]));
        i = i + 1;
    }
    out.push(0xff);
    assert(bytes@.take(bytes@.len() as int) == bytes@);
}

impl VersionKey {
    /// The key of a version: the SeaHash of the names of its repositories'
    /// latest patches, each followed by `0xff`.
    pub fn from_version(version: &Version) -> (out: VersionKey)
        ensures
            out == version_key(*version),
    {
        let mut bytes: Vec<u8> = Vec::new();
        let mut i: usize = 0;
        while i < version.repositories.len()
            invariant
                i <= version.repositories@.len(),
                bytes@ == key_bytes(version.repositories@.take(i as int)),
            decreases version.repositories@.len() - i,
        {
            let latest = version.repositories[i].latest();
            assert(version.repositories@.take(i + 1).drop_last() == version.repositories@.take(i as int));
            push_hashed_text(&mut bytes, latest.name.as_str());
            i = i + 1;
        }
        assert(version.repositories@.take(version.repositories@.len() as int) == version.repositories@);
        VersionKey(sea_hash(bytes.as_slice()))
    }
}

// ---------------------------------------------------------------------------
// Messages.
// ---------------------------------------------------------------------------

/// Messages that the version system broadcasts.
#[derive(Debug)]
pub enum VersionMessage {
    /// Versions were loaded from disk; these keys exist, and none of their
    /// versions changed since earlier messages.
    Hydrate(Vec<VersionKey>),
    /// A version was added or updated; data kept for it is stale.
    Changed(VersionKey),
}

} // verus!
