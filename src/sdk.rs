//! Identity of an SDK support bundle, derived from its path.
use vstd::prelude::*;
use vstd::string::*;

use crate::error::Error;

verus! {

pub open spec fn is_digit(c: char) -> bool {
    '0' <= c && c <= '9'
}

/// Unicode white space (the `White_Space` property).
pub open spec fn is_space(c: char) -> bool {
    ('\u{9}' <= c && c <= '\u{d}') || c == ' ' || c == '\u{85}' || c == '\u{a0}' || c
        == '\u{1680}' || ('\u{2000}' <= c && c <= '\u{200a}') || c == '\u{2028}' || c
        == '\u{2029}' || c == '\u{202f}' || c == '\u{205f}' || c == '\u{3000}'
}

pub open spec fn is_alnum(c: char) -> bool {
    is_digit(c) || ('a' <= c && c <= 'z') || ('A' <= c && c <= 'Z')
}

/// End of the run of decimal digits that starts at `i`.
pub open spec fn digit_end(s: Seq<char>, i: int) -> int
    decreases s.len() - i,
{
    if 0 <= i < s.len() && is_digit(s[i]) {
        digit_end(s, i + 1)
    } else {
        i
    }
}

/// End of the run of white space that starts at `i`.
pub open spec fn space_end(s: Seq<char>, i: int) -> int
    decreases s.len() - i,
{
    if 0 <= i < s.len() && is_space(s[i]) {
        space_end(s, i + 1)
    } else {
        i
    }
}

/// End of the run of ASCII letters and digits that starts at `i`.
pub open spec fn alnum_end(s: Seq<char>, i: int) -> int
    decreases s.len() - i,
{
    if 0 <= i < s.len() && is_alnum(s[i]) {
        alnum_end(s, i + 1)
    } else {
        i
    }
}

/// The decimal value of the digits `s[i..j]`.
pub open spec fn num_value(s: Seq<char>, i: int, j: int) -> nat
    decreases j - i,
{
    if j <= i {
        0
    } else {
        num_value(s, i, j - 1) * 10 + ((s[j - 1] as nat) - ('0' as nat)) as nat
    }
}

pub open spec fn is_bundle_ext(rest: Seq<char>) -> bool {
    rest.len() == 0 || rest == seq!['.', 'z', 'i', 'p'] || rest == seq![
        '.',
        'm',
        'e',
        'm',
        'd',
        'b',
    ]
}

/// Parses `MAJOR.MINOR[.PATCH] (BUILD)[.zip|.memdb]` into
/// `(major, minor, patch, build)`; a missing patch level is 0.
pub open spec fn parse_sdk_file_name(f: Seq<char>) -> Option<(nat, nat, nat, Seq<char>)> {
    let e1 = digit_end(f, 0);
    let b2 = e1 + 1;
    let e2 = digit_end(f, b2);
    let has_patch = e2 < f.len() && f[e2] == '.' && digit_end(f, e2 + 1) > e2 + 1;
    let e3 = if has_patch {
        digit_end(f, e2 + 1)
    } else {
        e2
    };
    let w = space_end(f, e3);
    let e4 = alnum_end(f, w + 1);
    if e1 == 0 || e1 >= f.len() || f[e1] != '.' || e2 == b2 {
        None
    } else if w == e3 || w >= f.len() || f[w] != '(' {
        None
    } else if e4 == w + 1 || e4 >= f.len() || f[e4] != ')' {
        None
    } else if !is_bundle_ext(f.subrange(e4 + 1, f.len() as int)) {
        None
    } else {
        Some(
            (
                num_value(f, 0, e1),
                num_value(f, b2, e2),
                if has_patch {
                    num_value(f, e2 + 1, e3)
                } else {
                    0
                },
                f.subrange(w + 1, e4),
            ),
        )
    }
}

/// Index of the last `c` in `s[..end]`, or -1.
pub open spec fn rfind_before(s: Seq<char>, c: char, end: int) -> int
    decreases end,
{
    if end <= 0 {
        -1
    } else if s[end - 1] == c {
        end - 1
    } else {
        rfind_before(s, c, end - 1)
    }
}

/// End of `p[..end]` once trailing separators and `.` components are
/// taken off: like `std::path`, an empty or `.` component (but for a
/// leading one) names no component.
pub open spec fn trim_slashes(p: Seq<char>, end: int) -> int
    decreases end,
{
    if end > 0 && p[end - 1] == '/' {
        trim_slashes(p, end - 1)
    } else if end >= 2 && p[end - 1] == '.' && p[end - 2] == '/' {
        trim_slashes(p, end - 1)
    } else {
        end
    }
}

/// The final component of a path; trailing and repeated `/` and `.`
/// components separate no components.
pub open spec fn file_name_of(p: Seq<char>) -> Seq<char> {
    let e = trim_slashes(p, p.len() as int);
    p.subrange(rfind_before(p, '/', e) + 1, e)
}

/// The final component of the parent of a path, if it has a parent.
pub open spec fn folder_name_of(p: Seq<char>) -> Option<Seq<char>> {
    let e = trim_slashes(p, p.len() as int);
    let s1 = rfind_before(p, '/', e);
    let e1 = trim_slashes(p, s1);
    if s1 < 0 {
        None
    } else {
        Some(p.subrange(rfind_before(p, '/', e1) + 1, e1))
    }
}

fn trim_slashes_exec(p: &Vec<char>, end: usize) -> (r: usize)
    requires
        end <= p@.len(),
    ensures
        r == trim_slashes(p@, end as int),
        r <= end,
{
    let mut e = end;
    while e > 0 && (p[e - 1] == '/' || (e >= 2 && p[e - 1] == '.' && p[e - 2] == '/'))
        invariant
            e <= end,
            end <= p@.len(),
            trim_slashes(p@, e as int) == trim_slashes(p@, end as int),
        decreases e,
    {
        e -= 1;
    }
    e
}

/// The platform of a support folder.
pub open spec fn sdk_name_of_folder(folder: Seq<char>) -> Option<Seq<char>> {
    if folder == "iOS DeviceSupport"@ {
        Some("iOS"@)
    } else if folder == "tvOS DeviceSupport"@ {
        Some("tvOS"@)
    } else {
        None
    }
}

pub open spec fn fits_u32(n: nat) -> bool {
    n <= u32::MAX
}

/// What a path says of an SDK: platform, version and build.
pub open spec fn sdk_of_path(p: Seq<char>) -> Option<(Seq<char>, nat, nat, nat, Seq<char>)> {
    match folder_name_of(p) {
        None => None,
        Some(folder) => match sdk_name_of_folder(folder) {
            None => None,
            Some(name) => match parse_sdk_file_name(file_name_of(p)) {
                None => None,
                Some((ma, mi, pa, build)) => if fits_u32(ma) && fits_u32(mi) && fits_u32(pa) {
                    Some((name, ma, mi, pa, build))
                } else {
                    None
                },
            },
        },
    }
}

/// Information of the SDK.
#[derive(Debug, Clone)]
pub struct SdkInfo {
    /// The name of the SDK (iOS, tvOS etc.)
    pub name: String,
    /// The major version identifier
    pub version_major: u32,
    /// The minor version identifier
    pub version_minor: u32,
    /// The patchlevel version identifier (might be 0)
    pub version_patchlevel: u32,
    /// Build number.
    pub build: String,
    /// The SDK flavour (only used for watchOS, as in `Watch2,2`).
    pub flavour: Option<String>,
}

impl SdkInfo {
    pub open spec fn describes(&self, s: (Seq<char>, nat, nat, nat, Seq<char>)) -> bool {
        &&& self.name@ == s.0
        &&& self.version_major == s.1
        &&& self.version_minor == s.2
        &&& self.version_patchlevel == s.3
        &&& self.build@ == s.4
        &&& self.flavour.is_none()
    }

    /// Loads an SDK info from a given path, or `None` where the path does
    /// not name a known SDK.
    pub fn from_path(path: &str) -> (r: Option<SdkInfo>)
        ensures
            r.is_some() == sdk_of_path(path@).is_some(),
            r.is_some() ==> r.unwrap().describes(sdk_of_path(path@).unwrap()),
    {
        let p = chars_of(path);
        let n = trim_slashes_exec(&p, p.len());
        let s1 = match rfind_char(&p, '/', n) {
            Some(s1) => s1,
            None => {
                return None;
            },
        };
        let e1 = trim_slashes_exec(&p, s1);
        let s0: usize = match rfind_char(&p, '/', e1) {
            Some(s0) => s0 + 1,
            None => 0,
        };
        let folder = path.substring_char(s0, e1);
        let name = match get_sdk_name_from_folder(folder) {
            Some(name) => name,
            None => {
                return None;
            },
        };
        proof {
            assert(folder_name_of(path@) == Some(folder@));
        }
        let file = path.substring_char(s1 + 1, n);
        let f = chars_of(file);
        let fl = f.len();
        let e1 = scan_digits(&f, 0);
        if e1 == 0 || e1 >= fl || f[e1] != '.' {
            return None;
        }
        let b2 = e1 + 1;
        let e2 = scan_digits(&f, b2);
        if e2 == b2 {
            return None;
        }
        let mut e3 = e2;
        let mut has_patch = false;
        if e2 < fl && f[e2] == '.' {
            let e = scan_digits(&f, e2 + 1);
            if e > e2 + 1 {
                has_patch = true;
                e3 = e;
            }
        }
        let w = scan_spaces(&f, e3);
        if w == e3 || w >= fl || f[w] != '(' {
            return None;
        }
        let e4 = scan_alnum(&f, w + 1);
        if e4 == w + 1 || e4 >= fl || f[e4] != ')' {
            return None;
        }
        if !ext_ok(&f, e4 + 1) {
            return None;
        }
        proof {
            assert forall|k: int| 0 <= k < e1 implies is_digit(#[trigger] f@[k]) by {
                lemma_digit_run(f@, 0, k);
            }
            assert forall|k: int| b2 <= k < e2 implies is_digit(#[trigger] f@[k]) by {
                lemma_digit_run(f@, b2 as int, k);
            }
            assert forall|k: int| e2 + 1 <= k < e3 implies is_digit(#[trigger] f@[k]) by {
                lemma_digit_run(f@, e2 + 1, k);
            }
        }
        let major = match parse_u32(&f, 0, e1) {
            Some(v) => v,
            None => {
                return None;
            },
        };
        let minor = match parse_u32(&f, b2, e2) {
            Some(v) => v,
            None => {
                return None;
            },
        };
        let patch = if has_patch {
            match parse_u32(&f, e2 + 1, e3) {
                Some(v) => v,
                None => {
                    return None;
                },
            }
        } else {
            0
        };
        let build = file.substring_char(w + 1, e4).to_owned();
        proof {
            assert(file_name_of(path@) == f@);
            assert(parse_sdk_file_name(f@).is_some());
        }
        Some(
            SdkInfo {
                name,
                version_major: major,
                version_minor: minor,
                version_patchlevel: patch,
                build,
                flavour: None,
            },
        )
    }

    /// The name of the SDK.
    pub fn name(&self) -> (r: &str)
        ensures
            r@ == self.name@,
    {
        self.name.as_str()
    }

    /// The major version identifier.
    pub fn version_major(&self) -> (r: u32)
        ensures
            r == self.version_major,
    {
        self.version_major
    }

    /// The minor version identifier.
    pub fn version_minor(&self) -> (r: u32)
        ensures
            r == self.version_minor,
    {
        self.version_minor
    }

    /// The patchlevel version identifier.
    pub fn version_patchlevel(&self) -> (r: u32)
        ensures
            r == self.version_patchlevel,
    {
        self.version_patchlevel
    }

    /// The build number.
    pub fn build(&self) -> (r: &str)
        ensures
            r@ == self.build@,
    {
        self.build.as_str()
    }

    /// The SDK flavour, if any.
    pub fn flavour(&self) -> (r: Option<&str>)
        ensures
            r.is_some() == self.flavour.is_some(),
            r.is_some() ==> r.unwrap()@ == self.flavour.unwrap()@,
    {
        match &self.flavour {
            Some(f) => Some(f.as_str()),
            None => None,
        }
    }
}


fn is_digit_char(c: char) -> (r: bool)
    ensures
        r == is_digit(c),
{
    '0' <= c && c <= '9'
}

fn is_space_char(c: char) -> (r: bool)
    ensures
        r == is_space(c),
{
    ('\u{9}' <= c && c <= '\u{d}') || c == ' ' || c == '\u{85}' || c == '\u{a0}' || c
        == '\u{1680}' || ('\u{2000}' <= c && c <= '\u{200a}') || c == '\u{2028}' || c
        == '\u{2029}' || c == '\u{202f}' || c == '\u{205f}' || c == '\u{3000}'
}

fn is_alnum_char(c: char) -> (r: bool)
    ensures
        r == is_alnum(c),
{
    ('0' <= c && c <= '9') || ('a' <= c && c <= 'z') || ('A' <= c && c <= 'Z')
}

/// The characters of a string, one per element.
pub fn chars_of(s: &str) -> (r: Vec<char>)
    ensures
        r@ == s@,
{
    let n = s.unicode_len();
    let mut r: Vec<char> = Vec::new();
    let mut i: usize = 0;
    while i < n
        invariant
            n == s@.len(),
            i <= n,
            r@ == s@.subrange(0, i as int),
        decreases n - i,
    {
        r.push(s.get_char(i));
        i += 1;
    }
    assert(r@ =~= s@);
    r
}

/// Whether two strings hold the same characters.
pub fn str_eq(a: &str, b: &str) -> (r: bool)
    ensures
        r == (a@ == b@),
{
    let n = a.unicode_len();
    if n != b.unicode_len() {
        return false;
    }
    let mut i: usize = 0;
    while i < n
        invariant
            n == a@.len(),
            n == b@.len(),
            i <= n,
            a@.subrange(0, i as int) == b@.subrange(0, i as int),
        decreases n - i,
    {
        if a.get_char(i) != b.get_char(i) {
            return false;
        }
        proof {
            assert(a@.subrange(0, i + 1) =~= a@.subrange(0, i as int).push(a@[i as int]));
            assert(b@.subrange(0, i + 1) =~= b@.subrange(0, i as int).push(b@[i as int]));
        }
        i += 1;
    }
    assert(a@ =~= a@.subrange(0, n as int));
    assert(b@ =~= b@.subrange(0, n as int));
    true
}

pub(crate) fn rfind_char(p: &Vec<char>, c: char, end: usize) -> (r: Option<usize>)
    requires
        end <= p@.len(),
    ensures
        r.is_none() ==> rfind_before(p@, c, end as int) == -1,
        r.is_some() ==> r.unwrap() == rfind_before(p@, c, end as int) && r.unwrap() < end,
{
    let mut e = end;
    while e > 0
        invariant
            e <= end,
            end <= p@.len(),
            rfind_before(p@, c, e as int) == rfind_before(p@, c, end as int),
        decreases e,
    {
        if p[e - 1] == c {
            return Some(e - 1);
        }
        e -= 1;
    }
    None
}

fn scan_digits(f: &Vec<char>, i: usize) -> (r: usize)
    requires
        i <= f@.len(),
    ensures
        r == digit_end(f@, i as int),
        i <= r <= f@.len(),
{
    let mut j = i;
    while j < f.len() && is_digit_char(f[j])
        invariant
            i <= j <= f@.len(),
            digit_end(f@, j as int) == digit_end(f@, i as int),
        decreases f@.len() - j,
    {
        j += 1;
    }
    j
}

fn scan_spaces(f: &Vec<char>, i: usize) -> (r: usize)
    requires
        i <= f@.len(),
    ensures
        r == space_end(f@, i as int),
        i <= r <= f@.len(),
{
    let mut j = i;
    while j < f.len() && is_space_char(f[j])
        invariant
            i <= j <= f@.len(),
            space_end(f@, j as int) == space_end(f@, i as int),
        decreases f@.len() - j,
    {
        j += 1;
    }
    j
}

fn scan_alnum(f: &Vec<char>, i: usize) -> (r: usize)
    requires
        i <= f@.len(),
    ensures
        r == alnum_end(f@, i as int),
        i <= r <= f@.len(),
{
    let mut j = i;
    while j < f.len() && is_alnum_char(f[j])
        invariant
            i <= j <= f@.len(),
            alnum_end(f@, j as int) == alnum_end(f@, i as int),
        decreases f@.len() - j,
    {
        j += 1;
    }
    j
}

proof fn lemma_digit_run(s: Seq<char>, i: int, k: int)
    requires
        0 <= i <= k < digit_end(s, i),
    ensures
        is_digit(s[k]),
    decreases k - i,
{
    if k > i {
        lemma_digit_run(s, i + 1, k);
    }
}

proof fn lemma_num_value_grows(s: Seq<char>, i: int, k: int, j: int)
    requires
        i <= k <= j,
    ensures
        num_value(s, i, k) <= num_value(s, i, j),
    decreases j - k,
{
    if k < j {
        lemma_num_value_grows(s, i, k, j - 1);
    }
}

fn parse_u32(f: &Vec<char>, i: usize, j: usize) -> (r: Option<u32>)
    requires
        i <= j <= f@.len(),
        forall|k: int| i <= k < j ==> is_digit(#[trigger] f@[k]),
    ensures
        r.is_some() == fits_u32(num_value(f@, i as int, j as int)),
        r.is_some() ==> r.unwrap() == num_value(f@, i as int, j as int),
{
    let mut acc: u64 = 0;
    let mut k = i;
    while k < j
        invariant
            i <= k <= j,
            j <= f@.len(),
            forall|m: int| i <= m < j ==> is_digit(#[trigger] f@[m]),
            acc == num_value(f@, i as int, k as int),
            acc <= u32::MAX,
        decreases j - k,
    {
        let c = f[k];
        assert(is_digit(f@[k as int]));
        let d = (c as u32 - '0' as u32) as u64;
        let next = acc * 10 + d;
        if next > u32::MAX as u64 {
            proof {
                assert(num_value(f@, i as int, k + 1) == next);
                lemma_num_value_grows(f@, i as int, k + 1, j as int);
            }
            return None;
        }
        acc = next;
        k += 1;
    }
    Some(acc as u32)
}

fn ext_ok(f: &Vec<char>, i: usize) -> (r: bool)
    requires
        i <= f@.len(),
    ensures
        r == is_bundle_ext(f@.subrange(i as int, f@.len() as int)),
{
    let ghost rest = f@.subrange(i as int, f@.len() as int);
    let n = f.len() - i;
    assert(seq!['.', 'z', 'i', 'p'].len() == 4);
    assert(seq!['.', 'm', 'e', 'm', 'd', 'b'].len() == 6);
    if n == 0 {
        assert(rest.len() == 0);
        return true;
    }
    if n == 4 {
        let r = f[i] == '.' && f[i + 1] == 'z' && f[i + 2] == 'i' && f[i + 3] == 'p';
        proof {
            let z = seq!['.', 'z', 'i', 'p'];
            if r {
                assert(rest =~= z);
            } else if rest == z {
                assert(rest[0] == z[0] && rest[1] == z[1] && rest[2] == z[2] && rest[3] == z[3]);
            }
        }
        return r;
    }
    if n == 6 {
        let r = f[i] == '.' && f[i + 1] == 'm' && f[i + 2] == 'e' && f[i + 3] == 'm' && f[i + 4]
            == 'd' && f[i + 5] == 'b';
        proof {
            let m = seq!['.', 'm', 'e', 'm', 'd', 'b'];
            if r {
                assert(rest =~= m);
            } else if rest == m {
                assert(rest[0] == m[0] && rest[1] == m[1] && rest[2] == m[2] && rest[3] == m[3]
                    && rest[4] == m[4] && rest[5] == m[5]);
            }
        }
        return r;
    }
    false
}

/// The platform named by a support folder (`iOS DeviceSupport` is iOS).
pub fn get_sdk_name_from_folder(folder: &str) -> (r: Option<String>)
    ensures
        r.is_some() == sdk_name_of_folder(folder@).is_some(),
        r.is_some() ==> r.unwrap()@ == sdk_name_of_folder(folder@).unwrap(),
{
    if str_eq(folder, "iOS DeviceSupport") {
        Some("iOS".to_owned())
    } else if str_eq(folder, "tvOS DeviceSupport") {
        Some("tvOS".to_owned())
    } else {
        None
    }
}

/// Index of the first `c` in `s[i..]`, or -1.
pub open spec fn find_from(s: Seq<char>, c: char, i: int) -> int
    decreases s.len() - i,
{
    if i < 0 || i >= s.len() {
        -1
    } else if s[i] == c {
        i
    } else {
        find_from(s, c, i + 1)
    }
}

/// The logical name of an archive member: a leading `Symbols/` or
/// `<anything>/Symbols/` is taken off.
pub open spec fn stripped_name(p: Seq<char>) -> Seq<char> {
    let i = find_from(p, '/', 0);
    let j = find_from(p, '/', i + 1);
    if i >= 0 && p.subrange(0, i) == "Symbols"@ {
        p.subrange(i + 1, p.len() as int)
    } else if i >= 0 && j >= 0 && p.subrange(i + 1, j) == "Symbols"@ {
        p.subrange(j + 1, p.len() as int)
    } else {
        p
    }
}

fn find_char(p: &Vec<char>, c: char, i: usize) -> (r: Option<usize>)
    requires
        i <= p@.len(),
    ensures
        r.is_none() ==> find_from(p@, c, i as int) == -1,
        r.is_some() ==> r.unwrap() == find_from(p@, c, i as int) && i <= r.unwrap() < p@.len(),
{
    let mut k = i;
    while k < p.len()
        invariant
            i <= k <= p@.len(),
            find_from(p@, c, k as int) == find_from(p@, c, i as int),
        decreases p@.len() - k,
    {
        if p[k] == c {
            return Some(k);
        }
        k += 1;
    }
    None
}

/// Strips the conventional `Symbols/` prefix from an archive member name.
pub fn strip_archive_file_prefix(path: &str) -> (r: &str)
    ensures
        r@ == stripped_name(path@),
{
    let p = chars_of(path);
    let n = p.len();
    match find_char(&p, '/', 0) {
        None => path,
        Some(i) => {
            if str_eq(path.substring_char(0, i), "Symbols") {
                return path.substring_char(i + 1, n);
            }
            match find_char(&p, '/', i + 1) {
                None => path,
                Some(j) => {
                    if str_eq(path.substring_char(i + 1, j), "Symbols") {
                        path.substring_char(j + 1, n)
                    } else {
                        path
                    }
                },
            }
        },
    }
}

/// An SDK support bundle on disk, with the identity its path gives.
pub struct SdkProcessor {
    path: String,
    info: SdkInfo,
}

impl SdkProcessor {
    pub closed spec fn spec_info(&self) -> SdkInfo {
        self.info
    }

    pub closed spec fn spec_path(&self) -> Seq<char> {
        self.path@
    }

    /// Constructs a processor from a file system path; fails with
    /// `UnknownSdk` where the path names no known SDK.
    pub fn new(path: &str) -> (r: Result<SdkProcessor, Error>)
        ensures
            r.is_ok() == sdk_of_path(path@).is_some(),
            r.is_ok() ==> r.unwrap().spec_info().describes(sdk_of_path(path@).unwrap())
                && r.unwrap().spec_path() == path@,
            r.is_err() ==> r == Err::<SdkProcessor, Error>(Error::UnknownSdk),
    {
        match SdkInfo::from_path(path) {
            Some(info) => Ok(SdkProcessor { path: path.to_owned(), info }),
            None => Err(Error::UnknownSdk),
        }
    }

    /// Returns the SDK info (derived from the path).
    pub fn info(&self) -> (r: &SdkInfo)
        ensures
            *r == self.spec_info(),
    {
        &self.info
    }

    /// The path the processor was made from.
    pub fn path(&self) -> (r: &str)
        ensures
            r@ == self.spec_path(),
    {
        self.path.as_str()
    }
}

/// What parsing a bundle member as a Mach-O object gave.
#[derive(Clone, Copy, Debug, PartialEq, Eq, Structural)]
pub enum ParseOutcome {
    /// An object.
    Parsed,
    /// The parser rejected the bytes as not being Mach-O at all.
    NotMachO,
    /// Any other failure: I/O, a corrupt archive, a malformed object.
    Failed,
}

/// What the bundle walker does with a member.
#[derive(Clone, Copy, Debug, PartialEq, Eq, Structural)]
pub enum WalkAction {
    /// Go on to the next member.
    Skip,
    /// Hand out the object.
    Yield,
    /// Stop and surface the error.
    Stop,
}

/// The walker's rule: empty members and files that are not Mach-O are
/// skipped silently, objects are handed out, every other error stops.
pub fn member_action(len: u64, outcome: ParseOutcome) -> (r: WalkAction)
    ensures
        len == 0 ==> r == WalkAction::Skip,
        len > 0 ==> r == match outcome {
            ParseOutcome::Parsed => WalkAction::Yield,
            ParseOutcome::NotMachO => WalkAction::Skip,
            ParseOutcome::Failed => WalkAction::Stop,
        },
{
    if len == 0 {
        return WalkAction::Skip;
    }
    match outcome {
        ParseOutcome::Parsed => WalkAction::Yield,
        ParseOutcome::NotMachO => WalkAction::Skip,
        ParseOutcome::Failed => WalkAction::Stop,
    }
}

} // verus!
