//! Named process-shared memory for supervised workers.
//!
//! A handle locates a region; it does not authorise anyone. What is here decides on
//! names and lengths. Mapping the memory is up to the caller.
use super::token::{
    hex, hex_digits, lemma_decimal_len, lemma_hex_digits, lemma_numeral_is_ascii, numeral,
    numeral_text, random_bytes,
};
use super::Fault;
use vstd::prelude::*;
use vstd::string::StringExecFns;
use vstd::utf8::{encode_utf8, is_ascii_chars, is_ascii_chars_encode_utf8};

verus! {

/// The longest region name, in bytes.
pub const MAX_REGION_NAME: usize = 240;

/// The random bytes in a region name.
pub const TOKEN_LEN: usize = 12;

/// Why a region cannot have this name and length, if it cannot.
pub open spec fn handle_defect(name: Seq<char>, len: int) -> Option<Fault> {
    if encode_utf8(name).len() == 0 || encode_utf8(name).len() > MAX_REGION_NAME {
        Some(Fault::RegionName)
    } else if len == 0 || len > isize::MAX {
        Some(Fault::RegionLength)
    } else {
        None
    }
}

/// Serializable locator for reopening one shared region in a spawned process.
#[derive(Debug)]
pub struct RegionHandle {
    name: String,
    len: usize,
}

impl RegionHandle {
    /// The name of the region.
    pub closed spec fn text(&self) -> Seq<char> {
        self.name@
    }

    /// The length of the region.
    pub closed spec fn extent(&self) -> usize {
        self.len
    }

    /// Whether the region can exist.
    pub open spec fn wf(&self) -> bool {
        handle_defect(self.text(), self.extent() as int) is None
    }

    /// Whether two handles locate the same region.
    pub open spec fn same(&self, other: RegionHandle) -> bool {
        self.text() == other.text() && self.extent() == other.extent()
    }

    /// Validate and reconstruct a shared-region locator from serialized parts.
    pub fn from_parts(name: String, len: usize) -> (result: Result<Self, Fault>)
        ensures
            result is Ok <==> handle_defect(name@, len as int) is None,
            result matches Ok(handle) ==> handle.wf() && handle.text() == name@ && handle.extent()
                == len,
            result matches Err(fault) ==> handle_defect(name@, len as int) == Some(fault),
    {
        let bytes: usize = name.as_str().as_bytes().len();
        if bytes == 0 || bytes > MAX_REGION_NAME {
            return Err(Fault::RegionName);
        }
        if len == 0 || len > isize::MAX as usize {
            return Err(Fault::RegionLength);
        }
        Ok(RegionHandle { name, len })
    }

    /// Return the platform mapping name.
    pub fn name(&self) -> (name: &str)
        ensures
            name@ == self.text(),
    {
        self.name.as_str()
    }

    /// Return the mapped byte length.
    pub fn len(&self) -> (len: usize)
        ensures
            len == self.extent(),
    {
        self.len
    }

    /// Another handle of the same region.
    pub fn duplicate(&self) -> (handle: RegionHandle)
        ensures
            handle.same(*self),
    {
        RegionHandle { name: self.name.clone(), len: self.len }
    }

    /// Whether two handles locate the same region.
    pub fn locates(&self, other: &RegionHandle) -> (yes: bool)
        ensures
            yes == self.same(*other),
    {
        self.name == other.name && self.len == other.len
    }
}

/// The family of a system, which decides how shared things are named.
#[derive(Clone, Copy, Debug, PartialEq, Eq, Structural)]
pub enum Platform {
    /// Linux and macOS.
    Posix,
    /// Windows, where names carry the number of the process that made them.
    Windows {
        /// The number of this process.
        process_id: u32,
    },
}

/// What a region name starts with.
pub open spec fn region_prefix(platform: Platform) -> Seq<char> {
    match platform {
        Platform::Posix => "/p-"@,
        Platform::Windows { process_id } => "Local\\prescient-region-"@ + numeral(
            process_id as nat,
            10,
        ) + seq!['-'],
    }
}

/// The name that goes with a suffix.
pub open spec fn prefixed(platform: Platform, suffix: Seq<char>) -> Seq<char> {
    region_prefix(platform) + suffix
}

/// The name that goes with a suffix.
pub fn region_name(platform: Platform, suffix: &str) -> (name: String)
    ensures
        name@ == prefixed(platform, suffix@),
{
    let mut name: String = match platform {
        Platform::Posix => String::from_str("/p-"),
        Platform::Windows { process_id } => {
            let mut name: String = String::from_str("Local\\prescient-region-");
            let number: String = numeral_text(process_id as u64, 10);
            name.append(number.as_str());
            name.append("-");
            proof {
                reveal_strlit("-");
                assert("-"@ =~= seq!['-']);
            }
            name
        },
    };
    name.append(suffix);
    name
}

/// What comes before the digits of a region name is short and plain.
proof fn lemma_region_prefix(platform: Platform)
    ensures
        is_ascii_chars(region_prefix(platform)),
        platform is Posix ==> region_prefix(platform).len() == 3,
        0 < region_prefix(platform).len() <= 34,
{
    reveal_strlit("/p-");
    reveal_strlit("Local\\prescient-region-");
    if let Platform::Windows { process_id } = platform {
        let head = "Local\\prescient-region-"@;
        let number = numeral(process_id as nat, 10);
        let prefix = region_prefix(platform);
        lemma_decimal_len(process_id);
        lemma_numeral_is_ascii(process_id as nat, 10);
        assert forall|i: int| 0 <= i < prefix.len() implies '\0' <= #[trigger] prefix[i]
            <= '\u{7f}' by {
            if i < head.len() {
                assert(prefix[i] == head[i]);
            } else if i < head.len() + number.len() {
                assert(prefix[i] == number[i - head.len()]);
            }
        }
    }
}

/// A generated name fits a handle. After its prefix it is made of 24 digits, and on Posix
/// it is 27 bytes long in all.
pub proof fn law_generated_names_are_short(platform: Platform, token: Seq<u8>)
    requires
        token.len() == TOKEN_LEN,
    ensures
        0 < encode_utf8(prefixed(platform, hex_digits(token))).len() <= MAX_REGION_NAME,
        platform is Posix ==> encode_utf8(prefixed(platform, hex_digits(token))).len() == 27,
        prefixed(platform, hex_digits(token)).len() == region_prefix(platform).len() + 24,
        forall|i: int|
            region_prefix(platform).len() <= i < region_prefix(platform).len() + 24 ==> {
                let c = #[trigger] prefixed(platform, hex_digits(token))[i];
                '0' <= c <= '9' || 'a' <= c <= 'f'
            },
{
    lemma_hex_digits(token);
    lemma_region_prefix(platform);
    let prefix = region_prefix(platform);
    let from = prefix.len() as int;
    let name = prefixed(platform, hex_digits(token));
    assert(is_ascii_chars(name)) by {
        assert forall|i: int| 0 <= i < name.len() implies '\0' <= #[trigger] name[i]
            <= '\u{7f}' by {
            if i < from {
                assert(name[i] == prefix[i]);
            } else {
                assert(name[i] == hex_digits(token)[i - from]);
            }
        }
    }
    is_ascii_chars_encode_utf8(name);
    assert forall|i: int| from <= i < from + 24 implies ({
        let c = #[trigger] name[i];
        '0' <= c <= '9' || 'a' <= c <= 'f'
    }) by {
        assert(name[i] == hex_digits(token)[i - from]);
    }
}

/// The length that the object behind a region of `len` bytes has, where objects grow by
/// whole pages.
pub open spec fn backing_len(len: int, page_len: int) -> int {
    if len % page_len == 0 {
        len
    } else {
        len + (page_len - len % page_len)
    }
}

/// The length of the object behind a region of `len` bytes. A system that keeps lengths
/// exactly has pages of one byte.
pub fn expected_backing_len(len: usize, page_len: usize) -> (result: Result<u64, Fault>)
    requires
        page_len > 0,
    ensures
        result is Ok <==> backing_len(len as int, page_len as int) <= usize::MAX,
        result matches Ok(expected) ==> expected == backing_len(len as int, page_len as int),
        result matches Err(fault) ==> fault == Fault::RegionSize,
{
    let remainder: usize = len % page_len;
    if remainder == 0 {
        return Ok(len as u64);
    }
    match len.checked_add(page_len - remainder) {
        Some(rounded) => Ok(rounded as u64),
        None => Err(Fault::RegionSize),
    }
}

/// Whether the object behind a region has the length that its handle announces.
pub fn validate_backing_len(actual_len: i64, len: usize, page_len: usize) -> (result: Result<
    (),
    Fault,
>)
    requires
        page_len > 0,
    ensures
        result is Ok <==> actual_len == backing_len(len as int, page_len as int) && actual_len
            <= usize::MAX,
        result matches Err(fault) ==> fault == if backing_len(len as int, page_len as int)
            <= usize::MAX {
            Fault::RegionBacking
        } else {
            Fault::RegionSize
        },
{
    proof {
        vstd::arithmetic::div_mod::lemma_mod_bound(len as int, page_len as int);
    }
    match expected_backing_len(len, page_len) {
        Ok(expected) => {
            if actual_len < 0 || actual_len as u64 != expected {
                Err(Fault::RegionBacking)
            } else {
                Ok(())
            }
        },
        Err(fault) => Err(fault),
    }
}

/// What a system tells of the object behind a region that is reopened.
#[derive(Clone, Copy, Debug, PartialEq, Eq, Structural)]
pub enum Backing {
    /// Nothing: on Windows the mapping call itself fails where the object is too short.
    Unsized,
    /// Its length, on a system where objects grow by whole pages.
    Object {
        /// The length of the object.
        actual_len: i64,
        /// The bytes of a page, or one where the system keeps lengths exactly.
        page_len: usize,
    },
}

/// Why a region of `len` bytes cannot have this object behind it, if it cannot.
pub open spec fn backing_defect(len: int, backing: Backing) -> Option<Fault> {
    match backing {
        Backing::Unsized => None,
        Backing::Object { actual_len, page_len } => if backing_len(len, page_len as int)
            > usize::MAX {
            Some(Fault::RegionSize)
        } else if actual_len != backing_len(len, page_len as int) {
            Some(Fault::RegionBacking)
        } else {
            None
        },
    }
}

/// One writable mapping of a named process-shared region.
#[derive(Clone, Copy, Debug, PartialEq, Eq, Structural)]
pub struct SharedRegion {
    len: usize,
    locked: bool,
}

impl SharedRegion {
    /// The length of the mapping.
    pub closed spec fn extent(&self) -> usize {
        self.len
    }

    /// Whether the mapping stays resident.
    pub closed spec fn resident(&self) -> bool {
        self.locked
    }

    /// Describe a new region under a name made of random bytes.
    pub fn named(len: usize, platform: Platform, token: &[u8]) -> (result: Result<
        (Self, RegionHandle),
        Fault,
    >)
        requires
            token@.len() == TOKEN_LEN,
        ensures
            result is Ok <==> 0 < len <= isize::MAX,
            result matches Ok(made) ==> {
                &&& made.0.extent() == len
                &&& !made.0.resident()
                &&& made.1.wf()
                &&& made.1.extent() == len
                &&& made.1.text() == prefixed(platform, hex_digits(token@))
            },
            result matches Err(fault) ==> fault == Fault::RegionLength,
    {
        if len == 0 || len > isize::MAX as usize {
            return Err(Fault::RegionLength);
        }
        let suffix: String = hex(token);
        let name: String = region_name(platform, suffix.as_str());
        proof {
            law_generated_names_are_short(platform, token@);
        }
        match RegionHandle::from_parts(name, len) {
            Ok(handle) => Ok((SharedRegion { len, locked: false }, handle)),
            Err(fault) => Err(fault),
        }
    }

    /// Describe a new region under a random name. The mapping starts zeroed.
    pub fn create(len: usize, platform: Platform) -> (result: Result<
        (Self, RegionHandle),
        Fault,
    >)
        ensures
            !(0 < len <= isize::MAX) ==> result is Err && result->Err_0 == Fault::RegionLength,
            0 < len <= isize::MAX && result is Err ==> result->Err_0 is RegionRandomness
                && result->Err_0.cause_code() is Some,
            result matches Ok(made) ==> {
                &&& made.0.extent() == len
                &&& !made.0.resident()
                &&& made.1.wf()
                &&& made.1.extent() == len
                &&& exists|token: Seq<u8>|
                    token.len() == TOKEN_LEN && made.1.text() == prefixed(
                        platform,
                        #[trigger] hex_digits(token),
                    )
            },
    {
        if len == 0 || len > isize::MAX as usize {
            return Err(Fault::RegionLength);
        }
        match random_bytes(TOKEN_LEN) {
            Ok(token) => SharedRegion::named(len, platform, token.as_slice()),
            Err(code) => Err(Fault::RegionRandomness { code }),
        }
    }

    /// Reopen a region, given what is known of the object behind it.
    pub fn open(handle: &RegionHandle, backing: Backing) -> (result: Result<Self, Fault>)
        requires
            backing matches Backing::Object { page_len, .. } ==> page_len > 0,
        ensures
            result is Ok <==> backing_defect(handle.extent() as int, backing) is None,
            result matches Ok(region) ==> region.extent() == handle.extent() && !region.resident(),
            result matches Err(fault) ==> backing_defect(handle.extent() as int, backing) == Some(
                fault,
            ),
    {
        match backing {
            Backing::Unsized => {},
            Backing::Object { actual_len, page_len } => {
                match validate_backing_len(actual_len, handle.len(), page_len) {
                    Ok(()) => {},
                    Err(fault) => return Err(fault),
                }
            },
        }
        Ok(SharedRegion { len: handle.len(), locked: false })
    }

    /// Note whether the system keeps the mapping resident. Once it does, it stays so.
    pub fn lock(&mut self, granted: bool) -> (locked: bool)
        ensures
            locked == (old(self).resident() || granted),
            final(self).resident() == locked,
            final(self).extent() == old(self).extent(),
    {
        if !self.locked && granted {
            self.locked = true;
        }
        self.locked
    }

    /// Whether the mapping stays resident.
    pub fn is_locked(&self) -> (locked: bool)
        ensures
            locked == self.resident(),
    {
        self.locked
    }
}


/// A region can have every name of one to 240 bytes and every length of one byte to the address
/// space, and no others.
pub proof fn law_regions_have_short_names_and_some_length(name: Seq<char>, len: int)
    requires
        0 <= len,
    ensures
        handle_defect(name, len) is None <==> 1 <= encode_utf8(name).len() <= 240 && 1 <= len
            <= isize::MAX,
{
}

/// The object behind a region has whole pages: as few as hold the region.
pub proof fn law_objects_have_whole_pages(len: int, page_len: int)
    requires
        0 <= len,
        0 < page_len,
    ensures
        backing_len(len, page_len) % page_len == 0,
        len <= backing_len(len, page_len) < len + page_len,
{
    let r = len % page_len;
    let q = len / page_len;
    vstd::arithmetic::div_mod::lemma_fundamental_div_mod(len, page_len);
    vstd::arithmetic::div_mod::lemma_mod_bound(len, page_len);
    if r != 0 {
        let whole = len + (page_len - r);
        assert(whole == (q + 1) * page_len) by (nonlinear_arith)
            requires
                len == page_len * q + r,
                whole == len + (page_len - r),
        ;
        vstd::arithmetic::div_mod::lemma_mod_multiples_basic(q + 1, page_len);
    }
}

/// A region is taken for the one that its handle describes exactly where the object behind it
/// has the pages that the region needs; an object that does not tell its size is taken as it is.
pub proof fn law_regions_are_recognised_by_their_pages(len: int, backing: Backing)
    requires
        0 <= len <= isize::MAX,
        backing matches Backing::Object { page_len, .. } ==> 0 < page_len <= isize::MAX,
    ensures
        backing is Unsized ==> backing_defect(len, backing) is None,
        backing matches Backing::Object { actual_len, page_len } ==> (backing_defect(len, backing) is None
            <==> actual_len as int % page_len as int == 0 && len <= actual_len < len + page_len),
{
    if let Backing::Object { actual_len, page_len } = backing {
        let p = page_len as int;
        let a = actual_len as int;
        law_objects_have_whole_pages(len, p);
        let b = backing_len(len, p);
        if a % p == 0 && len <= a < len + p {
            vstd::arithmetic::div_mod::lemma_fundamental_div_mod(a, p);
            vstd::arithmetic::div_mod::lemma_fundamental_div_mod(b, p);
            let x = a / p;
            let y = b / p;
            assert(x == y) by (nonlinear_arith)
                requires
                    p * x - p * y < p,
                    p * y - p * x < p,
                    p > 0,
            ;
        }
    }
}

/// Regions have names of their own: two that were made with different random bytes differ.
pub proof fn law_region_names_are_distinct(platform: Platform, a: Seq<u8>, b: Seq<u8>)
    requires
        a != b,
    ensures
        prefixed(platform, hex_digits(a)) != prefixed(platform, hex_digits(b)),
{
    crate::ipc::token::law_hex_digits_tell_their_bytes(a, b);
    let n = region_prefix(platform).len() as int;
    assert(prefixed(platform, hex_digits(a)).skip(n) =~= hex_digits(a));
    assert(prefixed(platform, hex_digits(b)).skip(n) =~= hex_digits(b));
}

} // verus!
