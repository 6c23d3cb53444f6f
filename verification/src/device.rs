//! The device registry: named cameras and how to reach them over SSH.
//!
//! Entries are kept in name order; reading and writing the registry file is
//! left to the caller.

use vstd::prelude::*;
use vstd::string::StringSliceAdditionalSpecFns;
use crate::text::{lemma_text_less_transitive, lemma_text_trichotomy, text_less, text_order, TextOrder};

verus! {

#[derive(Debug)]
pub struct Device {
    pub name: String,
    pub host: String,
    pub port: u16,
    pub user: String,
}

pub struct DeviceView {
    pub name: Seq<char>,
    pub host: Seq<char>,
    pub port: u16,
    pub user: Seq<char>,
}

impl View for Device {
    type V = DeviceView;

    open spec fn view(&self) -> DeviceView {
        DeviceView { name: self.name@, host: self.host@, port: self.port, user: self.user@ }
    }
}

impl Clone for Device {
    fn clone(&self) -> (r: Self)
        ensures
            r == *self,
    {
        Device { name: self.name.clone(), host: self.host.clone(), port: self.port, user: self.user.clone() }
    }
}

/// Why a registry operation was refused.
#[derive(Debug, PartialEq, Eq)]
pub enum DeviceError {
    /// The device name must be 1-64 bytes long.
    NameLength,
    /// The device name may only hold ASCII letters, digits, `-` and `_`.
    NameCharacters,
    /// The host must be 1-253 bytes long.
    HostLength,
    /// The host may only hold ASCII letters, digits, `.`, `-` and `:`.
    HostCharacters,
    /// The user must be 1-32 bytes long.
    UserLength,
    /// The user may only hold ASCII letters, digits, `-` and `_`.
    UserCharacters,
    /// A device of that name is registered already.
    AlreadyExists(String),
    /// No device of that name to remove.
    NotFound(String),
    /// No device of that name to look up.
    NotRegistered(String),
}

/// The kinds of error, as plain values (names carried as text).
pub enum DeviceErrorKind {
    NameLength,
    NameCharacters,
    HostLength,
    HostCharacters,
    UserLength,
    UserCharacters,
    AlreadyExists(Seq<char>),
    NotFound(Seq<char>),
    NotRegistered(Seq<char>),
}

impl View for DeviceError {
    type V = DeviceErrorKind;

    open spec fn view(&self) -> DeviceErrorKind {
        match self {
            DeviceError::NameLength => DeviceErrorKind::NameLength,
            DeviceError::NameCharacters => DeviceErrorKind::NameCharacters,
            DeviceError::HostLength => DeviceErrorKind::HostLength,
            DeviceError::HostCharacters => DeviceErrorKind::HostCharacters,
            DeviceError::UserLength => DeviceErrorKind::UserLength,
            DeviceError::UserCharacters => DeviceErrorKind::UserCharacters,
            DeviceError::AlreadyExists(n) => DeviceErrorKind::AlreadyExists(n@),
            DeviceError::NotFound(n) => DeviceErrorKind::NotFound(n@),
            DeviceError::NotRegistered(n) => DeviceErrorKind::NotRegistered(n@),
        }
    }
}

/// What an error says.
pub open spec fn error_text(e: DeviceErrorKind) -> Seq<char> {
    match e {
        DeviceErrorKind::NameLength => "device name must be 1-64 characters"@,
        DeviceErrorKind::NameCharacters => "device name may only contain alphanumeric characters, dashes, and underscores"@,
        DeviceErrorKind::HostLength => "host must be 1-253 characters"@,
        DeviceErrorKind::HostCharacters => "host contains invalid characters — expected IP address or hostname"@,
        DeviceErrorKind::UserLength => "user must be 1-32 characters"@,
        DeviceErrorKind::UserCharacters => "user contains invalid characters"@,
        DeviceErrorKind::AlreadyExists(n) => "device '"@ + n + "' already exists"@,
        DeviceErrorKind::NotFound(n) => "device '"@ + n + "' not found"@,
        DeviceErrorKind::NotRegistered(n) => "device '"@ + n + "' not found — run `clawcam device add` first"@,
    }
}

impl DeviceError {
    /// The error's message.
    pub fn message(&self) -> (r: String)
        ensures
            r@ == error_text(self@),
    {
        match self {
            DeviceError::NameLength => "device name must be 1-64 characters".to_owned(),
            DeviceError::NameCharacters => "device name may only contain alphanumeric characters, dashes, and underscores".to_owned(),
            DeviceError::HostLength => "host must be 1-253 characters".to_owned(),
            DeviceError::HostCharacters => "host contains invalid characters — expected IP address or hostname".to_owned(),
            DeviceError::UserLength => "user must be 1-32 characters".to_owned(),
            DeviceError::UserCharacters => "user contains invalid characters".to_owned(),
            DeviceError::AlreadyExists(n) => {
                let mut m = "device '".to_owned();
                m.append(n.as_str());
                m.append("' already exists");
                m
            },
            DeviceError::NotFound(n) => {
                let mut m = "device '".to_owned();
                m.append(n.as_str());
                m.append("' not found");
                m
            },
            DeviceError::NotRegistered(n) => {
                let mut m = "device '".to_owned();
                m.append(n.as_str());
                m.append("' not found — run `clawcam device add` first");
                m
            },
        }
    }
}

/// The outcome of a check, as plain values.
pub open spec fn outcome(r: Result<(), DeviceError>) -> Option<DeviceErrorKind> {
    match r {
        Ok(_) => None,
        Err(e) => Some(e@),
    }
}

pub open spec fn is_ascii_alphanumeric(c: char) -> bool {
    ('a' <= c && c <= 'z') || ('A' <= c && c <= 'Z') || ('0' <= c && c <= '9')
}

pub open spec fn is_name_char(c: char) -> bool {
    is_ascii_alphanumeric(c) || c == '-' || c == '_'
}

pub open spec fn is_host_char(c: char) -> bool {
    is_ascii_alphanumeric(c) || c == '.' || c == '-' || c == ':'
}

pub open spec fn all_name_chars(s: Seq<char>) -> bool {
    forall|i: int| 0 <= i < s.len() ==> is_name_char(#[trigger] s[i])
}

pub open spec fn all_host_chars(s: Seq<char>) -> bool {
    forall|i: int| 0 <= i < s.len() ==> is_host_char(#[trigger] s[i])
}

/// The checks on a name, a host or a user: its length in bytes (`str::len`)
/// is between 1 and `max`, then each character passes.
pub open spec fn text_check(
    s: &str,
    max: nat,
    chars_ok: bool,
    too_long: DeviceErrorKind,
    bad_char: DeviceErrorKind,
) -> Option<DeviceErrorKind> {
    if s@.len() == 0 || s.spec_bytes().len() > max {
        Some(too_long)
    } else if !chars_ok {
        Some(bad_char)
    } else {
        None
    }
}

pub open spec fn name_check(name: &str) -> Option<DeviceErrorKind> {
    text_check(name, 64, all_name_chars(name@), DeviceErrorKind::NameLength, DeviceErrorKind::NameCharacters)
}

pub open spec fn host_check(host: &str) -> Option<DeviceErrorKind> {
    text_check(host, 253, all_host_chars(host@), DeviceErrorKind::HostLength, DeviceErrorKind::HostCharacters)
}

pub open spec fn user_check(user: &str) -> Option<DeviceErrorKind> {
    text_check(user, 32, all_name_chars(user@), DeviceErrorKind::UserLength, DeviceErrorKind::UserCharacters)
}

fn is_ascii_alphanumeric_char(c: char) -> (r: bool)
    ensures
        r == is_ascii_alphanumeric(c),
{
    ('a' <= c && c <= 'z') || ('A' <= c && c <= 'Z') || ('0' <= c && c <= '9')
}

/// Whether every character of `s` is a name character (or, with
/// `for_host`, a host character).
fn chars_allowed(s: &str, for_host: bool) -> (r: bool)
    ensures
        r == if for_host { all_host_chars(s@) } else { all_name_chars(s@) },
{
    let n = s.unicode_len();
    let mut i: usize = 0;
    while i < n
        invariant
            n == s@.len(),
            i <= n,
            forall|k: int| 0 <= k < i ==> if for_host { is_host_char(#[trigger] s@[k]) } else { is_name_char(s@[k]) },
        decreases n - i,
    {
        let c = s.get_char(i);
        let ok = if for_host {
            is_ascii_alphanumeric_char(c) || c == '.' || c == '-' || c == ':'
        } else {
            is_ascii_alphanumeric_char(c) || c == '-' || c == '_'
        };
        if !ok {
            assert(!(if for_host { is_host_char(s@[i as int]) } else { is_name_char(s@[i as int]) }));
            return false;
        }
        i = i + 1;
    }
    true
}

/// Device names are ASCII letters, digits, dashes or underscores, 1-64 bytes.
pub fn validate_device_name(name: &str) -> (r: Result<(), DeviceError>)
    ensures
        outcome(r) == name_check(name),
{
    if name.is_empty() || name.as_bytes().len() > 64 {
        return Err(DeviceError::NameLength);
    }
    if !chars_allowed(name, false) {
        return Err(DeviceError::NameCharacters);
    }
    Ok(())
}

/// Hosts look like an IP address or a host name: ASCII letters, digits,
/// dots, dashes or colons, 1-253 bytes.
pub fn validate_host(host: &str) -> (r: Result<(), DeviceError>)
    ensures
        outcome(r) == host_check(host),
{
    if host.is_empty() || host.as_bytes().len() > 253 {
        return Err(DeviceError::HostLength);
    }
    if !chars_allowed(host, true) {
        return Err(DeviceError::HostCharacters);
    }
    Ok(())
}

/// SSH users are Unix user names: ASCII letters, digits, dashes or
/// underscores, 1-32 bytes.
pub fn validate_user(user: &str) -> (r: Result<(), DeviceError>)
    ensures
        outcome(r) == user_check(user),
{
    if user.is_empty() || user.as_bytes().len() > 32 {
        return Err(DeviceError::UserLength);
    }
    if !chars_allowed(user, false) {
        return Err(DeviceError::UserCharacters);
    }
    Ok(())
}


/// A character of a device name or an SSH user: an ASCII letter or digit, a
/// dash or an underscore.
pub open spec fn letter_digit_dash_underscore(c: char) -> bool {
    ('a' <= c <= 'z') || ('A' <= c <= 'Z') || ('0' <= c <= '9') || c == '-' || c == '_'
}

/// A character of a host: an ASCII letter or digit, a dot, a dash or a colon.
pub open spec fn letter_digit_dot_dash_colon(c: char) -> bool {
    ('a' <= c <= 'z') || ('A' <= c <= 'Z') || ('0' <= c <= '9') || c == '.' || c == '-' || c == ':'
}

/// A user of 1 to 32 bytes made only of ASCII letters, digits, dashes and
/// underscores is accepted; an empty or longer one is refused for its
/// length; any other character is refused as a bad character.
pub proof fn user_rule(user: &str)
    ensures
        user_check(user) is None <==> (user@.len() > 0 && user.spec_bytes().len() <= 32 && forall|i: int|
            0 <= i < user@.len() ==> letter_digit_dash_underscore(#[trigger] user@[i])),
        (user@.len() == 0 || user.spec_bytes().len() > 32) ==> user_check(user) == Some(DeviceErrorKind::UserLength),
        (user@.len() > 0 && user.spec_bytes().len() <= 32 && exists|i: int|
            0 <= i < user@.len() && !letter_digit_dash_underscore(#[trigger] user@[i])) ==> user_check(user) == Some(
            DeviceErrorKind::UserCharacters,
        ),
{
}

/// A device name of 1 to 64 bytes made only of ASCII letters, digits,
/// dashes and underscores is accepted; an empty or longer one is refused for
/// its length; any other character is refused as a bad character.
pub proof fn name_rule(name: &str)
    ensures
        name_check(name) is None <==> (name@.len() > 0 && name.spec_bytes().len() <= 64 && forall|i: int|
            0 <= i < name@.len() ==> letter_digit_dash_underscore(#[trigger] name@[i])),
        (name@.len() == 0 || name.spec_bytes().len() > 64) ==> name_check(name) == Some(DeviceErrorKind::NameLength),
        (name@.len() > 0 && name.spec_bytes().len() <= 64 && exists|i: int|
            0 <= i < name@.len() && !letter_digit_dash_underscore(#[trigger] name@[i])) ==> name_check(name) == Some(
            DeviceErrorKind::NameCharacters,
        ),
{
}

/// A host of 1 to 253 bytes made only of ASCII letters, digits, dots, dashes
/// and colons is accepted; an empty or longer one is refused for its length;
/// any other character is refused as a bad character.
pub proof fn host_rule(host: &str)
    ensures
        host_check(host) is None <==> (host@.len() > 0 && host.spec_bytes().len() <= 253 && forall|i: int|
            0 <= i < host@.len() ==> letter_digit_dot_dash_colon(#[trigger] host@[i])),
        (host@.len() == 0 || host.spec_bytes().len() > 253) ==> host_check(host) == Some(DeviceErrorKind::HostLength),
        (host@.len() > 0 && host.spec_bytes().len() <= 253 && exists|i: int|
            0 <= i < host@.len() && !letter_digit_dot_dash_colon(#[trigger] host@[i])) ==> host_check(host) == Some(
            DeviceErrorKind::HostCharacters,
        ),
{
    if host@.len() > 0 && host.spec_bytes().len() <= 253 && all_host_chars(host@) {
        assert forall|i: int| 0 <= i < host@.len() implies letter_digit_dot_dash_colon(#[trigger] host@[i]) by {
            assert(is_host_char(host@[i]));
        }
    }
}

/// A registry entry: the key it is filed under, and the device.
pub type EntryView = (Seq<char>, DeviceView);

/// Keys strictly increase in `str` order (so none repeats).
pub open spec fn sorted(e: Seq<EntryView>) -> bool {
    forall|i: int, j: int| 0 <= i < j < e.len() ==> text_less(e[i].0, e[j].0)
}

/// How many keys come before `key` in `str` order: where `key` is, or would
/// be filed.
pub open spec fn position(e: Seq<EntryView>, key: Seq<char>) -> int
    decreases e.len(),
{
    if e.len() == 0 {
        0
    } else {
        position(e.drop_last(), key) + if text_less(e.last().0, key) { 1int } else { 0int }
    }
}

/// Whether `key` is filed in `e` (in a sorted registry: at `position`).
pub open spec fn present(e: Seq<EntryView>, key: Seq<char>) -> bool {
    0 <= position(e, key) < e.len() && e[position(e, key)].0 == key
}

/// `e` with `device` filed under `key`, replacing what was filed there.
pub open spec fn filed(e: Seq<EntryView>, key: Seq<char>, device: DeviceView) -> Seq<EntryView> {
    if present(e, key) {
        e.update(position(e, key), (key, device))
    } else {
        e.insert(position(e, key), (key, device))
    }
}

proof fn lemma_position_is(e: Seq<EntryView>, key: Seq<char>, i: int)
    requires
        0 <= i <= e.len(),
        forall|j: int| 0 <= j < i ==> text_less(#[trigger] e[j].0, key),
        forall|j: int| i <= j < e.len() ==> !text_less(#[trigger] e[j].0, key),
    ensures
        position(e, key) == i,
    decreases e.len(),
{
    if e.len() > 0 {
        let d = e.drop_last();
        if i == e.len() {
            assert forall|j: int| 0 <= j < i - 1 implies text_less(#[trigger] d[j].0, key) by {
                assert(d[j] == e[j]);
            }
            lemma_position_is(d, key, i - 1);
        } else {
            assert forall|j: int| 0 <= j < i implies text_less(#[trigger] d[j].0, key) by {
                assert(d[j] == e[j]);
            }
            assert forall|j: int| i <= j < d.len() implies !text_less(#[trigger] d[j].0, key) by {
                assert(d[j] == e[j]);
            }
            lemma_position_is(d, key, i);
        }
    }
}

/// In a sorted registry, the first index whose key does not come before
/// `key` is `position`; everything after it comes after `key` unless it is
/// `key` itself.
proof fn lemma_scan_position(e: Seq<EntryView>, key: Seq<char>, i: int)
    requires
        sorted(e),
        0 <= i <= e.len(),
        forall|j: int| 0 <= j < i ==> text_less(#[trigger] e[j].0, key),
        i == e.len() || !text_less(e[i].0, key),
    ensures
        position(e, key) == i,
        forall|j: int| i < j < e.len() ==> text_less(key, #[trigger] e[j].0),
        i < e.len() && e[i].0 != key ==> text_less(key, e[i].0),
{
    if i < e.len() {
        lemma_text_trichotomy(e[i].0, key);
        assert forall|j: int| i < j < e.len() implies text_less(key, #[trigger] e[j].0) by {
            if e[i].0 == key {
            } else {
                lemma_text_less_transitive(key, e[i].0, e[j].0);
            }
        }
        assert forall|j: int| i <= j < e.len() implies !text_less(#[trigger] e[j].0, key) by {
            if j > i {
                lemma_text_trichotomy(key, e[j].0);
            }
        }
    }
    lemma_position_is(e, key, i);
}

/// In a sorted registry the keys before `position` come before `key`, and
/// the others do not.
proof fn lemma_position_split(e: Seq<EntryView>, key: Seq<char>)
    requires
        sorted(e),
    ensures
        0 <= position(e, key) <= e.len(),
        forall|j: int| 0 <= j < position(e, key) ==> text_less(#[trigger] e[j].0, key),
        forall|j: int| position(e, key) <= j < e.len() ==> !text_less(#[trigger] e[j].0, key),
    decreases e.len(),
{
    if e.len() > 0 {
        let d = e.drop_last();
        assert(sorted(d)) by {
            assert forall|i: int, j: int| 0 <= i < j < d.len() implies text_less(d[i].0, d[j].0) by {
                assert(d[i] == e[i] && d[j] == e[j]);
            }
        }
        lemma_position_split(d, key);
        let p = position(d, key);
        if text_less(e.last().0, key) {
            assert forall|j: int| 0 <= j < d.len() implies text_less(#[trigger] d[j].0, key) by {
                assert(d[j] == e[j]);
                assert(text_less(e[j].0, e[e.len() - 1].0));
                lemma_text_less_transitive(e[j].0, e.last().0, key);
            }
            if p < d.len() {
                assert(text_less(d[p].0, key));
            }
            assert forall|j: int| 0 <= j < position(e, key) implies text_less(#[trigger] e[j].0, key) by {
                if j < d.len() {
                    assert(d[j] == e[j]);
                }
            }
        } else {
            assert forall|j: int| 0 <= j < position(e, key) implies text_less(#[trigger] e[j].0, key) by {
                assert(d[j] == e[j]);
            }
            assert forall|j: int| position(e, key) <= j < e.len() implies !text_less(#[trigger] e[j].0, key) by {
                if j < d.len() {
                    assert(d[j] == e[j]);
                }
            }
        }
    }
}

/// In a sorted registry a key is present exactly when some entry has it.
pub proof fn present_iff_filed(e: Seq<EntryView>, key: Seq<char>)
    requires
        sorted(e),
    ensures
        present(e, key) <==> exists|j: int| 0 <= j < e.len() && (#[trigger] e[j]).0 == key,
{
    lemma_position_split(e, key);
    let p = position(e, key);
    if exists|j: int| 0 <= j < e.len() && (#[trigger] e[j]).0 == key {
        let j = choose|j: int| 0 <= j < e.len() && (#[trigger] e[j]).0 == key;
        lemma_text_trichotomy(key, key);
        assert(j >= p);
        if j > p {
            assert(text_less(e[p].0, e[j].0));
        }
    }
    if present(e, key) {
        assert(e[p].0 == key);
    }
}

/// What is filed under a key is what a lookup of that key finds; filing
/// under one key leaves the other keys' devices as they were.
pub proof fn filed_then_found(e: Seq<EntryView>, key: Seq<char>, device: DeviceView, other: Seq<char>)
    requires
        sorted(e),
    ensures
        present(filed(e, key, device), key),
        filed(e, key, device)[position(filed(e, key, device), key)].1 == device,
        other != key ==> (present(filed(e, key, device), other) <==> present(e, other)),
        other != key && present(e, other) ==> filed(e, key, device)[position(filed(e, key, device), other)]
            == e[position(e, other)],
{
    lemma_filed_sorted(e, key, device);
    lemma_position_split(e, key);
    let f = filed(e, key, device);
    let p = position(e, key);
    assert(f[p] == (key, device));
    assert forall|j: int| 0 <= j < p implies text_less(#[trigger] f[j].0, key) by {
        assert(f[j] == e[j]);
    }
    lemma_text_trichotomy(key, key);
    lemma_scan_position(f, key, p);
    if other != key {
        present_iff_filed(e, other);
        present_iff_filed(f, other);
        if present(e, other) {
            let q = position(e, other);
            let q2 = if present(e, key) || q < p { q } else { q + 1 };
            if present(e, key) {
                assert(q != p);
            }
            assert(f[q2] == e[q]);
            lemma_position_split(f, other);
            lemma_position_split(e, other);
            present_iff_filed(f, other);
            let r = position(f, other);
            assert(f[r].0 == other);
            if r != q2 {
                if r < q2 {
                    assert(text_less(f[r].0, f[q2].0));
                } else {
                    assert(text_less(f[q2].0, f[r].0));
                }
                lemma_text_trichotomy(other, other);
            }
        }
        if present(f, other) {
            let j = choose|j: int| 0 <= j < f.len() && (#[trigger] f[j]).0 == other;
            if present(e, key) {
                assert(f[j] == e[j]);
            } else if j < p {
                assert(f[j] == e[j]);
            } else if j > p {
                assert(f[j] == e[j - 1]);
            }
        }
    }
}

/// A removed key is no longer found.
pub proof fn removed_then_missing(e: Seq<EntryView>, key: Seq<char>)
    requires
        sorted(e),
        present(e, key),
    ensures
        !present(e.remove(position(e, key)), key),
{
    let p = position(e, key);
    let f = e.remove(p);
    lemma_removed_sorted(e, p);
    present_iff_filed(f, key);
    if exists|j: int| 0 <= j < f.len() && (#[trigger] f[j]).0 == key {
        let j = choose|j: int| 0 <= j < f.len() && (#[trigger] f[j]).0 == key;
        let j0 = if j < p { j } else { j + 1 };
        assert(f[j] == e[j0]);
        if j0 < p {
            assert(text_less(e[j0].0, e[p].0));
        } else {
            assert(text_less(e[p].0, e[j0].0));
        }
        lemma_text_trichotomy(key, key);
    }
}

pub struct DeviceRegistry {
    devices: Vec<(String, Device)>,
}

impl DeviceRegistry {
    #[verifier::type_invariant]
    spec fn keys_sorted(self) -> bool {
        sorted(entry_views(self.devices@))
    }
}

pub open spec fn entry_views(v: Seq<(String, Device)>) -> Seq<EntryView> {
    v.map_values(|p: (String, Device)| (p.0@, p.1@))
}

impl View for DeviceRegistry {
    type V = Seq<EntryView>;

    closed spec fn view(&self) -> Seq<EntryView> {
        entry_views(self.devices@)
    }
}


/// Filing an entry keeps a registry sorted.
proof fn lemma_filed_sorted(e: Seq<EntryView>, key: Seq<char>, device: DeviceView)
    requires
        sorted(e),
    ensures
        sorted(filed(e, key, device)),
        filed(e, key, device).len() == if present(e, key) { e.len() } else { e.len() + 1 },
{
    lemma_position_split(e, key);
    let p = position(e, key);
    let f = filed(e, key, device);
    if present(e, key) {
        assert forall|i: int, j: int| 0 <= i < j < f.len() implies text_less(f[i].0, f[j].0) by {
            assert(f[i].0 == e[i].0 && f[j].0 == e[j].0);
        }
    } else {
        if p < e.len() {
            lemma_text_trichotomy(e[p].0, key);
        }
        assert forall|i: int, j: int| 0 <= i < j < f.len() implies text_less(f[i].0, f[j].0) by {
            if j < p {
                assert(f[i] == e[i] && f[j] == e[j]);
            } else if j == p {
                assert(f[i] == e[i]);
            } else if i == p {
                assert(f[j] == e[j - 1]);
                if j - 1 > p {
                    lemma_text_less_transitive(key, e[p].0, e[j - 1].0);
                }
            } else if i < p {
                assert(f[i] == e[i] && f[j] == e[j - 1]);
            } else {
                assert(f[i] == e[i - 1] && f[j] == e[j - 1]);
            }
        }
    }
}

/// Removing an entry keeps a registry sorted.
proof fn lemma_removed_sorted(e: Seq<EntryView>, i: int)
    requires
        sorted(e),
        0 <= i < e.len(),
    ensures
        sorted(e.remove(i)),
{
    let f = e.remove(i);
    assert forall|a: int, b: int| 0 <= a < b < f.len() implies text_less(f[a].0, f[b].0) by {
        let a0 = if a < i { a } else { a + 1 };
        let b0 = if b < i { b } else { b + 1 };
        assert(f[a] == e[a0] && f[b] == e[b0]);
    }
}

proof fn lemma_entry_views_update(v: Seq<(String, Device)>, i: int, x: (String, Device))
    requires
        0 <= i < v.len(),
    ensures
        entry_views(v.update(i, x)) == entry_views(v).update(i, (x.0@, x.1@)),
{
    assert(entry_views(v.update(i, x)) =~= entry_views(v).update(i, (x.0@, x.1@)));
}

proof fn lemma_entry_views_insert(v: Seq<(String, Device)>, i: int, x: (String, Device))
    requires
        0 <= i <= v.len(),
    ensures
        entry_views(v.insert(i, x)) == entry_views(v).insert(i, (x.0@, x.1@)),
{
    assert(entry_views(v.insert(i, x)) =~= entry_views(v).insert(i, (x.0@, x.1@)));
}

proof fn lemma_entry_views_remove(v: Seq<(String, Device)>, i: int)
    requires
        0 <= i < v.len(),
    ensures
        entry_views(v.remove(i)) == entry_views(v).remove(i),
{
    assert(entry_views(v.remove(i)) =~= entry_views(v).remove(i));
}

/// What `add` reports for the given arguments.
pub open spec fn add_check(e: Seq<EntryView>, name: &str, host: &str, user: &str) -> Option<DeviceErrorKind> {
    if name_check(name) is Some {
        name_check(name)
    } else if host_check(host) is Some {
        host_check(host)
    } else if user_check(user) is Some {
        user_check(user)
    } else if present(e, name@) {
        Some(DeviceErrorKind::AlreadyExists(name@))
    } else {
        None
    }
}

impl DeviceRegistry {
    /// An empty registry.
    pub fn new() -> (r: DeviceRegistry)
        ensures
            r@ == Seq::<EntryView>::empty(),
    {
        let r = DeviceRegistry { devices: Vec::new() };
        assert(entry_views(r.devices@) =~= Seq::<EntryView>::empty());
        r
    }

    /// Where `key` is or would be filed, and whether it is there.
    fn find(&self, key: &str) -> (r: (usize, bool))
        ensures
            r.0 == position(self@, key@),
            r.1 == present(self@, key@),
    {
        proof {
            use_type_invariant(self);
        }
        let ghost e = self@;
        let n = self.devices.len();
        let mut i: usize = 0;
        while i < n
            invariant
                n == self.devices@.len(),
                e == entry_views(self.devices@),
                sorted(e),
                i <= n,
                forall|j: int| 0 <= j < i ==> text_less(#[trigger] e[j].0, key@),
            decreases n - i,
        {
            assert(e[i as int].0 == self.devices@[i as int].0@);
            match text_order(self.devices[i].0.as_str(), key) {
                TextOrder::Less => {},
                TextOrder::Equal => {
                    proof {
                        lemma_text_trichotomy(e[i as int].0, key@);
                        lemma_scan_position(e, key@, i as int);
                    }
                    return (i, true);
                },
                TextOrder::Greater => {
                    proof {
                        lemma_text_trichotomy(e[i as int].0, key@);
                        lemma_scan_position(e, key@, i as int);
                    }
                    return (i, false);
                },
            }
            i = i + 1;
        }
        proof {
            lemma_scan_position(e, key@, i as int);
        }
        (i, false)
    }

    /// File `device` under `key`, replacing any device filed there.
    pub fn insert(&mut self, key: String, device: Device)
        ensures
            final(self)@ == filed(old(self)@, key@, device@),
    {
        proof {
            use_type_invariant(&*self);
            lemma_filed_sorted(self@, key@, device@);
            lemma_position_split(self@, key@);
        }
        let (pos, found) = self.find(key.as_str());
        let ghost kv = key@;
        let ghost dv = device@;
        let mut v: Vec<(String, Device)> = Vec::new();
        std::mem::swap(&mut v, &mut self.devices);
        if found {
            proof {
                lemma_entry_views_update(v@, pos as int, (key, device));
            }
            v.set(pos, (key, device));
        } else {
            proof {
                lemma_entry_views_insert(v@, pos as int, (key, device));
            }
            v.insert(pos, (key, device));
        }
        self.devices = v;
    }

    /// Register a device under `name`, after checking the name, the host and
    /// the user, in that order, and that the name is free.
    pub fn add(&mut self, name: &str, host: &str, port: u16, user: &str) -> (r: Result<(), DeviceError>)
        ensures
            outcome(r) == add_check(old(self)@, name, host, user),
            final(self)@ == if r is Ok {
                filed(old(self)@, name@, DeviceView { name: name@, host: host@, port, user: user@ })
            } else {
                old(self)@
            },
    {
        validate_device_name(name)?;
        validate_host(host)?;
        validate_user(user)?;
        let (_, found) = self.find(name);
        if found {
            return Err(DeviceError::AlreadyExists(name.to_owned()));
        }
        let device = Device { name: name.to_owned(), host: host.to_owned(), port, user: user.to_owned() };
        self.insert(name.to_owned(), device);
        Ok(())
    }

    /// Remove the device filed under `name`.
    pub fn remove(&mut self, name: &str) -> (r: Result<(), DeviceError>)
        ensures
            outcome(r) == if present(old(self)@, name@) { None } else { Some(DeviceErrorKind::NotFound(name@)) },
            final(self)@ == if present(old(self)@, name@) {
                old(self)@.remove(position(old(self)@, name@))
            } else {
                old(self)@
            },
    {
        proof {
            use_type_invariant(&*self);
        }
        let (pos, found) = self.find(name);
        if !found {
            return Err(DeviceError::NotFound(name.to_owned()));
        }
        proof {
            lemma_removed_sorted(self@, pos as int);
            lemma_entry_views_remove(self.devices@, pos as int);
        }
        let mut v: Vec<(String, Device)> = Vec::new();
        std::mem::swap(&mut v, &mut self.devices);
        let _ = v.remove(pos);
        self.devices = v;
        Ok(())
    }

    /// A copy of the device filed under `name`.
    pub fn get(&self, name: &str) -> (r: Result<Device, DeviceError>)
        ensures
            match r {
                Ok(d) => present(self@, name@) && d@ == self@[position(self@, name@)].1,
                Err(e) => !present(self@, name@) && e@ == DeviceErrorKind::NotRegistered(name@),
            },
    {
        let (pos, found) = self.find(name);
        if !found {
            return Err(DeviceError::NotRegistered(name.to_owned()));
        }
        assert(self@[pos as int].1 == self.devices@[pos as int].1@);
        Ok(self.devices[pos].1.clone())
    }

    /// The keys the devices are filed under, in order.
    pub fn keys(&self) -> (r: Vec<String>)
        ensures
            r@.len() == self@.len(),
            forall|i: int| 0 <= i < r@.len() ==> (#[trigger] r@[i])@ == self@[i].0,
    {
        let mut r: Vec<String> = Vec::new();
        let mut i: usize = 0;
        while i < self.devices.len()
            invariant
                i <= self.devices@.len(),
                r@.len() == i,
                forall|k: int| 0 <= k < i ==> (#[trigger] r@[k])@ == self@[k].0,
            decreases self.devices@.len() - i,
        {
            r.push(self.devices[i].0.clone());
            i = i + 1;
        }
        r
    }

    /// All devices, in name order.
    pub fn list(&self) -> (r: Vec<&Device>)
        ensures
            sorted(self@),
            r@.len() == self@.len(),
            forall|i: int| 0 <= i < r@.len() ==> (#[trigger] r@[i])@ == self@[i].1,
    {
        proof {
            use_type_invariant(self);
        }
        let mut r: Vec<&Device> = Vec::new();
        let mut i: usize = 0;
        while i < self.devices.len()
            invariant
                i <= self.devices@.len(),
                r@.len() == i,
                forall|k: int| 0 <= k < i ==> (#[trigger] r@[k])@ == self@[k].1,
            decreases self.devices@.len() - i,
        {
            r.push(&self.devices[i].1);
            i = i + 1;
        }
        r
    }
}

} // verus!
