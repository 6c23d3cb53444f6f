//! Webhook destinations, detections, and the transport rule for bearer tokens.

use vstd::prelude::*;
use crate::audio::{decimal, push_decimal};

verus! {

/// One detection reported by the object detector, in image pixel
/// coordinates. The confidence is carried as the bit pattern of its `f32`
/// value (`f32::to_bits`), which the logic here only copies.
#[derive(Debug, Clone)]
pub struct Detection {
    pub class: String,
    pub class_id: u32,
    pub score_bits: u32,
    pub left: u32,
    pub top: u32,
    pub right: u32,
    pub bottom: u32,
}

/// One webhook destination. Multiple targets are sent to in parallel.
#[derive(Debug, Clone)]
pub struct WebhookTarget {
    pub url: String,
    pub token: Option<String>,
}

/// What a target is, as text.
pub struct TargetView {
    pub url: Seq<char>,
    pub token: Option<Seq<char>>,
}

pub open spec fn token_view(t: Option<String>) -> Option<Seq<char>> {
    match t {
        Some(s) => Some(s@),
        None => None,
    }
}

impl View for WebhookTarget {
    type V = TargetView;

    open spec fn view(&self) -> TargetView {
        TargetView { url: self.url@, token: token_view(self.token) }
    }
}

/// Why a list of URLs and tokens cannot be paired.
#[derive(Debug, Clone, PartialEq, Eq, Structural)]
pub enum TargetsError {
    /// No URL was given.
    NoUrls,
    /// The number of tokens is neither 0, 1, nor the number of URLs.
    TokenCount { tokens: usize, urls: usize },
}

/// What a pairing error says.
pub open spec fn targets_error_text(e: TargetsError) -> Seq<char> {
    match e {
        TargetsError::NoUrls => "at least one webhook URL is required"@,
        TargetsError::TokenCount { tokens, urls } => "webhook token count ("@ + decimal(tokens as nat)
            + ") must be 0, 1, or "@ + decimal(urls as nat) + " (one per --webhook)"@,
    }
}

impl TargetsError {
    /// The error's message.
    pub fn message(&self) -> (r: String)
        ensures
            r@ == targets_error_text(*self),
    {
        match self {
            TargetsError::NoUrls => "at least one webhook URL is required".to_owned(),
            TargetsError::TokenCount { tokens, urls } => {
                let mut m = "webhook token count (".to_owned();
                push_decimal(&mut m, *tokens as u64);
                m.append(") must be 0, 1, or ");
                push_decimal(&mut m, *urls as u64);
                m.append(" (one per --webhook)");
                m
            },
        }
    }
}

/// The texts of a list of strings.
pub open spec fn texts(v: Seq<String>) -> Seq<Seq<char>> {
    v.map_values(|s: String| s@)
}

/// An empty token stands for no token.
pub open spec fn token_of(t: Seq<char>) -> Option<Seq<char>> {
    if t.len() == 0 { None } else { Some(t) }
}

/// The token that goes with the `i`-th URL.
pub open spec fn token_for(tokens: Seq<Seq<char>>, i: int) -> Option<Seq<char>> {
    if tokens.len() == 0 {
        None
    } else if tokens.len() == 1 {
        token_of(tokens[0])
    } else {
        token_of(tokens[i])
    }
}

/// Whether a list of URLs and a list of tokens can be paired.
pub open spec fn pairing_error(n_urls: nat, n_tokens: nat) -> Option<TargetsError> {
    if n_urls == 0 {
        Some(TargetsError::NoUrls)
    } else if n_tokens == 0 || n_tokens == 1 || n_tokens == n_urls {
        None
    } else {
        Some(TargetsError::TokenCount { tokens: n_tokens as usize, urls: n_urls as usize })
    }
}

/// The targets that a successful pairing yields, one per URL, in order.
pub open spec fn paired_targets(urls: Seq<Seq<char>>, tokens: Seq<Seq<char>>) -> Seq<TargetView> {
    Seq::new(urls.len(), |i: int| TargetView { url: urls[i], token: token_for(tokens, i) })
}

pub open spec fn target_views(v: Seq<WebhookTarget>) -> Seq<TargetView> {
    v.map_values(|t: WebhookTarget| t@)
}

fn token_from(t: &String) -> (r: Option<String>)
    ensures
        token_view(r) == token_of(t@),
{
    if t.as_str().is_empty() {
        None
    } else {
        Some(t.clone())
    }
}

/// Pair a list of URLs with a list of tokens:
/// - no URL is an error;
/// - no token: every target gets none;
/// - one token: it goes to every URL;
/// - as many tokens as URLs: paired by index;
/// - any other number of tokens is an error.
///
/// An empty token means no token.
pub fn parse_targets(urls: &[String], tokens: &[String]) -> (r: Result<Vec<WebhookTarget>, TargetsError>)
    ensures
        match pairing_error(urls@.len(), tokens@.len()) {
            Some(e) => r == Err::<Vec<WebhookTarget>, TargetsError>(e),
            None => r is Ok && target_views(r->Ok_0@) == paired_targets(texts(urls@), texts(tokens@)),
        },
{
    if urls.len() == 0 {
        return Err(TargetsError::NoUrls);
    }
    let n = urls.len();
    let nt = tokens.len();
    if !(nt == 0 || nt == 1 || nt == n) {
        return Err(TargetsError::TokenCount { tokens: nt, urls: n });
    }
    let ghost want = paired_targets(texts(urls@), texts(tokens@));
    let mut targets: Vec<WebhookTarget> = Vec::new();
    let mut i: usize = 0;
    while i < n
        invariant
            n == urls@.len(),
            nt == tokens@.len(),
            nt == 0 || nt == 1 || nt == n,
            want == paired_targets(texts(urls@), texts(tokens@)),
            i <= n,
            targets@.len() == i,
            forall|k: int| 0 <= k < i ==> #[trigger] targets@[k]@ == want[k],
        decreases n - i,
    {
        let token = if nt == 0 {
            None
        } else if nt == 1 {
            token_from(&tokens[0])
        } else {
            token_from(&tokens[i])
        };
        let t = WebhookTarget { url: urls[i].clone(), token };
        proof {
            assert(texts(urls@)[i as int] == urls@[i as int]@);
            if nt > 0 {
                assert(texts(tokens@)[0] == tokens@[0]@);
            }
            if nt > 1 {
                assert(texts(tokens@)[i as int] == tokens@[i as int]@);
            }
        }
        targets.push(t);
        i = i + 1;
    }
    proof {
        assert(target_views(targets@) =~= want);
    }
    Ok(targets)
}


/// An IP address: four octets, or eight 16-bit segments.
#[derive(Debug, Clone, Copy, PartialEq, Eq, Structural)]
pub enum IpAddress {
    V4(u8, u8, u8, u8),
    V6(u16, u16, u16, u16, u16, u16, u16, u16),
}

/// Loopback (127/8), private (10/8, 172.16/12, 192.168/16) or link-local
/// (169.254/16) for IPv4; loopback (`::1`) for IPv6.
pub open spec fn private_ip(ip: IpAddress) -> bool {
    match ip {
        IpAddress::V4(a, b, _, _) => a == 127 || a == 10 || (a == 172 && 16 <= b && b <= 31) || (a == 192 && b == 168)
            || (a == 169 && b == 254),
        IpAddress::V6(a, b, c, d, e, f, g, h) => a == 0 && b == 0 && c == 0 && d == 0 && e == 0 && f == 0 && g == 0
            && h == 1,
    }
}

/// Whether an address is on a private or local network (safe for plaintext
/// HTTP).
pub fn is_private_ip(ip: IpAddress) -> (r: bool)
    ensures
        r == private_ip(ip),
{
    match ip {
        IpAddress::V4(a, b, _, _) => a == 127 || a == 10 || (a == 172 && 16 <= b && b <= 31) || (a == 192 && b
            == 168) || (a == 169 && b == 254),
        IpAddress::V6(a, b, c, d, e, f, g, h) => a == 0 && b == 0 && c == 0 && d == 0 && e == 0 && f == 0 && g
            == 0 && h == 1,
    }
}

/// Whether `s` begins with `p`.
pub open spec fn starts_with(s: Seq<char>, p: Seq<char>) -> bool {
    p.len() <= s.len() && s.take(p.len() as int) == p
}

pub fn has_prefix(s: &str, p: &str) -> (r: bool)
    ensures
        r == starts_with(s@, p@),
{
    let n = s.unicode_len();
    let m = p.unicode_len();
    if m > n {
        return false;
    }
    let mut i: usize = 0;
    while i < m
        invariant
            n == s@.len(),
            m == p@.len(),
            m <= n,
            i <= m,
            s@.take(i as int) == p@.take(i as int),
        decreases m - i,
    {
        if s.get_char(i) != p.get_char(i) {
            assert(s@.take(m as int)[i as int] != p@[i as int]);
            return false;
        }
        assert(s@.take(i + 1) =~= s@.take(i as int).push(s@[i as int]));
        assert(p@.take(i + 1) =~= p@.take(i as int).push(p@[i as int]));
        i = i + 1;
    }
    assert(p@.take(m as int) =~= p@);
    true
}

/// Whether `s` ends with `p`.
pub open spec fn ends_with(s: Seq<char>, p: Seq<char>) -> bool {
    p.len() <= s.len() && s.skip(s.len() - p.len()) == p
}

pub fn has_suffix(s: &str, p: &str) -> (r: bool)
    ensures
        r == ends_with(s@, p@),
{
    let n = s.unicode_len();
    let m = p.unicode_len();
    if m > n {
        return false;
    }
    let off = n - m;
    let mut i: usize = 0;
    while i < m
        invariant
            n == s@.len(),
            m == p@.len(),
            off == n - m,
            i <= m,
            forall|k: int| 0 <= k < i ==> #[trigger] s@[off + k] == p@[k],
        decreases m - i,
    {
        if s.get_char(off + i) != p.get_char(i) {
            assert(s@.skip(off as int)[i as int] != p@[i as int]);
            return false;
        }
        i = i + 1;
    }
    assert forall|k: int| 0 <= k < m implies #[trigger] s@.skip(off as int)[k] == p@[k] by {
        assert(s@.skip(off as int)[k] == s@[off + k]);
    }
    assert(s@.skip(off as int) =~= p@);
    true
}

/// Where the host part of `r` ends: at the first `/` or `:`.
pub open spec fn host_end(r: Seq<char>) -> int
    decreases r.len(),
{
    if r.len() == 0 || r[0] == '/' || r[0] == ':' {
        0
    } else {
        1 + host_end(r.drop_first())
    }
}

/// The host of an `http://` or `https://` URL (up to the first `/` or `:`
/// after the scheme); empty for any other URL.
pub open spec fn url_host_text(u: Seq<char>) -> Seq<char> {
    if starts_with(u, "http://"@) {
        u.skip(7).take(host_end(u.skip(7)))
    } else if starts_with(u, "https://"@) {
        u.skip(8).take(host_end(u.skip(8)))
    } else {
        Seq::empty()
    }
}

proof fn lemma_host_end(r: Seq<char>, i: int)
    requires
        0 <= i <= r.len(),
        forall|k: int| 0 <= k < i ==> #[trigger] r[k] != '/' && r[k] != ':',
        i == r.len() || r[i] == '/' || r[i] == ':',
    ensures
        host_end(r) == i,
    decreases i,
{
    if i > 0 {
        let d = r.drop_first();
        assert forall|k: int| 0 <= k < i - 1 implies #[trigger] d[k] != '/' && d[k] != ':' by {
            assert(d[k] == r[k + 1]);
        }
        lemma_host_end(d, i - 1);
    }
}

/// The host of a webhook URL, as the transport check reads it.
pub fn url_host(url: &str) -> (h: String)
    ensures
        h@ == url_host_text(url@),
{
    proof {
        reveal_strlit("http://");
        reveal_strlit("https://");
    }
    let start: usize = if has_prefix(url, "http://") {
        7
    } else if has_prefix(url, "https://") {
        8
    } else {
        return String::new();
    };
    let n = url.unicode_len();
    let mut i: usize = start;
    while i < n && url.get_char(i) != '/' && url.get_char(i) != ':'
        invariant
            n == url@.len(),
            start <= i <= n,
            forall|k: int| start <= k < i ==> #[trigger] url@[k] != '/' && url@[k] != ':',
        decreases n - i,
    {
        i = i + 1;
    }
    proof {
        let r = url@.skip(start as int);
        assert forall|k: int| 0 <= k < i - start implies #[trigger] r[k] != '/' && r[k] != ':' by {
            assert(r[k] == url@[start + k]);
        }
        if i < n {
            assert(r[i - start] == url@[i as int]);
        }
        lemma_host_end(r, i - start);
        assert(url@.subrange(start as int, i as int) =~= r.take(i - start));
    }
    url.substring_char(start, i).to_owned()
}

/// How private a webhook host is, as far as the host text and its address
/// (if it is one) tell.
#[derive(Debug)]
pub enum HostPrivacy {
    Private,
    Public,
    /// A host name that only a DNS lookup can settle.
    Resolve(String),
}

pub enum HostPrivacyKind {
    Private,
    Public,
    Resolve(Seq<char>),
}

impl View for HostPrivacy {
    type V = HostPrivacyKind;

    open spec fn view(&self) -> HostPrivacyKind {
        match self {
            HostPrivacy::Private => HostPrivacyKind::Private,
            HostPrivacy::Public => HostPrivacyKind::Public,
            HostPrivacy::Resolve(h) => HostPrivacyKind::Resolve(h@),
        }
    }
}

/// The verdict on a host: an empty host is public; `localhost` is private;
/// an IP address (`address`, what the host parses to, if anything) is
/// private when it is loopback, private or link-local; a name ending in
/// `.local` is private; any other name needs a DNS lookup.
pub open spec fn host_privacy(host: Seq<char>, address: Option<IpAddress>) -> HostPrivacyKind {
    if host.len() == 0 {
        HostPrivacyKind::Public
    } else if host == "localhost"@ {
        HostPrivacyKind::Private
    } else if address is Some {
        if private_ip(address->0) { HostPrivacyKind::Private } else { HostPrivacyKind::Public }
    } else if ends_with(host, ".local"@) {
        HostPrivacyKind::Private
    } else {
        HostPrivacyKind::Resolve(host)
    }
}

/// Judge a webhook host; `address` is what the host text parses to as an IP
/// address, if it does.
pub fn judge_host(host: &str, address: Option<IpAddress>) -> (r: HostPrivacy)
    ensures
        r@ == host_privacy(host@, address),
{
    if host.is_empty() {
        return HostPrivacy::Public;
    }
    if host_is_localhost(host) {
        return HostPrivacy::Private;
    }
    if let Some(ip) = address {
        return if is_private_ip(ip) { HostPrivacy::Private } else { HostPrivacy::Public };
    }
    if has_suffix(host, ".local") {
        return HostPrivacy::Private;
    }
    HostPrivacy::Resolve(host.to_owned())
}

fn host_is_localhost(host: &str) -> (r: bool)
    ensures
        r == (host@ == "localhost"@),
{
    proof {
        reveal_strlit("localhost");
    }
    assert("localhost"@.len() == 9);
    let r = has_prefix(host, "localhost") && host.unicode_len() == 9;
    proof {
        if r {
            assert(host@ =~= host@.take(9));
        }
        if host@ == "localhost"@ {
            assert(host@.take(9) =~= host@);
        }
    }
    r
}

/// Whether every resolved address is private (and there is at least one):
/// names that also resolve to a public address count as public.
pub open spec fn all_addresses_private(addrs: Seq<IpAddress>) -> bool {
    addrs.len() > 0 && forall|i: int| 0 <= i < addrs.len() ==> private_ip(#[trigger] addrs[i])
}

pub fn resolved_private(addrs: &[IpAddress]) -> (r: bool)
    ensures
        r == all_addresses_private(addrs@),
{
    if addrs.len() == 0 {
        return false;
    }
    let mut i: usize = 0;
    while i < addrs.len()
        invariant
            i <= addrs@.len(),
            forall|k: int| 0 <= k < i ==> private_ip(#[trigger] addrs@[k]),
        decreases addrs@.len() - i,
    {
        if !is_private_ip(addrs[i]) {
            return false;
        }
        i = i + 1;
    }
    true
}

/// A bearer token may not go over plaintext HTTP unless the host is private:
/// whether a request with (`has_token`) or without a token to `url` needs
/// its host to be private.
pub open spec fn token_needs_private_host(url: Seq<char>, has_token: bool) -> bool {
    has_token && starts_with(url, "http://"@)
}

pub fn needs_private_host(url: &str, has_token: bool) -> (r: bool)
    ensures
        r == token_needs_private_host(url@, has_token),
{
    has_token && has_prefix(url, "http://")
}


/// Whether a request may go out: a bearer token over plaintext HTTP goes
/// only to a private host (`host_private` says whether the host is one; it
/// is read only where the rule needs it).
pub open spec fn may_send_to(url: Seq<char>, has_token: bool, host_private: bool) -> bool {
    !token_needs_private_host(url, has_token) || host_private
}

/// The transport decision for a webhook request.
pub fn may_send(url: &str, has_token: bool, host_private: bool) -> (r: bool)
    ensures
        r == may_send_to(url@, has_token, host_private),
{
    !needs_private_host(url, has_token) || host_private
}

/// The standard base64 text (RFC 4648 alphabet, with `=` padding) of `bytes`.
pub uninterp spec fn base64_standard(bytes: Seq<u8>) -> Seq<char>;

/// The length of the padded base64 text of `n` bytes: four characters for
/// every started group of three bytes.
pub open spec fn base64_len(n: nat) -> nat {
    ((n + 2) / 3 * 4) as nat
}

/// `base64::engine::general_purpose::STANDARD.encode`: the padded standard
/// base64 text of the bytes, four characters per started group of three.
/// The call panics only where that length overflows `usize`, which the
/// `requires` leaves out.
#[verifier::external_body]
fn encode_base64(bytes: &[u8]) -> (r: String)
    requires
        base64_len(bytes@.len()) <= usize::MAX,
    ensures
        r@ == base64_standard(bytes@),
        r@.len() == base64_len(bytes@.len()),
{
    base64::Engine::encode(&base64::engine::general_purpose::STANDARD, bytes)
}

/// The UTC time of `epoch` (Unix seconds) written as month, day and clock
/// time, as `%b %d %H:%M:%S` gives it (such as `Apr 17 14:30:45`).
pub uninterp spec fn utc_stamp_text(epoch: i64) -> Seq<char>;

/// The widest span of Unix seconds, either side of 1970, that chrono's UTC
/// time holds for certain (about 190000 years; its dates reach past the
/// year 262000 either way).
pub open spec fn stamp_range(epoch: i64) -> bool {
    -6_000_000_000_000 <= epoch <= 6_000_000_000_000
}

/// `chrono::DateTime::<Utc>::from_timestamp(epoch, 0)` then
/// `format("%b %d %H:%M:%S").to_string()`: `None` where chrono holds no such
/// time, which is never so within [`stamp_range`]; otherwise the text is
/// the named stamp of `epoch`. The exact edge of chrono's range is left
/// unsaid.
#[verifier::external_body]
fn format_utc_stamp(epoch: i64) -> (r: Option<String>)
    ensures
        stamp_range(epoch) ==> r is Some,
        r matches Some(t) ==> t@ == utc_stamp_text(epoch),
{
    match chrono::DateTime::from_timestamp(epoch, 0) {
        Some(t) => Some(t.format("%b %d %H:%M:%S").to_string()),
        None => None,
    }
}

/// The snapshot part of a webhook: when it was taken and the JPEG as text.
pub struct Snapshot {
    /// The capture time as `Apr 17 14:30:45` (UTC).
    pub ts: String,
    /// The JPEG in standard base64.
    pub image: String,
}

/// The snapshot fields of a webhook for a JPEG taken at `epoch` (Unix
/// seconds, UTC).
pub fn snapshot_fields(jpeg: &[u8], epoch: i64) -> (r: Snapshot)
    requires
        stamp_range(epoch),
        base64_len(jpeg@.len()) <= usize::MAX,
    ensures
        r.ts@ == utc_stamp_text(epoch),
        r.image@ == base64_standard(jpeg@),
        r.image@.len() == base64_len(jpeg@.len()),
{
    let ts = match format_utc_stamp(epoch) {
        Some(t) => t,
        None => String::new(),
    };
    Snapshot { ts, image: encode_base64(jpeg) }
}

/// Each frame of a list in standard base64, in order (the pre-detection
/// frames of an alert).
pub fn frames_base64(frames: &Vec<Vec<u8>>) -> (r: Vec<String>)
    requires
        forall|i: int| 0 <= i < frames@.len() ==> base64_len(#[trigger] frames@[i]@.len()) <= usize::MAX,
    ensures
        r@.len() == frames@.len(),
        forall|i: int| 0 <= i < frames@.len() ==> #[trigger] r@[i]@ == base64_standard(frames@[i]@),
{
    let mut r: Vec<String> = Vec::new();
    let mut i: usize = 0;
    while i < frames.len()
        invariant
            i <= frames@.len(),
            r@.len() == i,
            forall|j: int| 0 <= j < frames@.len() ==> base64_len(#[trigger] frames@[j]@.len()) <= usize::MAX,
            forall|j: int| 0 <= j < i ==> #[trigger] r@[j]@ == base64_standard(frames@[j]@),
        decreases frames@.len() - i,
    {
        let e = encode_base64(frames[i].as_slice());
        r.push(e);
        i = i + 1;
    }
    r
}

} // verus!
