use vstd::prelude::*;

verus! {

/// Canonical form of a URL: a hostname, whether the scheme is secure,
/// and a path that always starts with `/`.
#[derive(Debug, PartialEq)]
pub struct URL {
    pub hostname: String,
    pub is_https: bool,
    pub path: String,
}

/// Mathematical model of a [`URL`]: the two strings as character
/// sequences, plus the scheme flag.
pub ghost struct UrlView {
    pub hostname: Seq<char>,
    pub is_https: bool,
    pub path: Seq<char>,
}

impl View for URL {
    type V = UrlView;

    open spec fn view(&self) -> UrlView {
        UrlView { hostname: self.hostname@, is_https: self.is_https, path: self.path@ }
    }
}

impl UrlView {
    /// What normalization guarantees of its output: the hostname holds
    /// no `/`, and the path is non-empty and starts with `/`.
    pub open spec fn wf(self) -> bool {
        &&& forall|i: int| 0 <= i < self.hostname.len() ==> self.hostname[i] != '/'
        &&& self.path.len() > 0
        &&& self.path[0] == '/'
    }
}

/// The characters of the secure scheme prefix `https://`.
pub open spec fn https_prefix() -> Seq<char> {
    seq!['h', 't', 't', 'p', 's', ':', '/', '/']
}

/// The characters of the insecure scheme prefix `http://`.
pub open spec fn http_prefix() -> Seq<char> {
    seq!['h', 't', 't', 'p', ':', '/', '/']
}

/// `p` is a prefix of `s`.
pub open spec fn has_prefix(s: Seq<char>, p: Seq<char>) -> bool {
    p.len() <= s.len() && s.subrange(0, p.len() as int) == p
}

/// Index of the first `/` in `s`, or `s.len()` if `s` holds none.
pub open spec fn first_slash(s: Seq<char>) -> int
    decreases s.len(),
{
    if s.len() == 0 {
        0
    } else if s[0] == '/' {
        0
    } else {
        1 + first_slash(s.skip(1))
    }
}

/// A normalized input is secure exactly when it carries the `https://` prefix.
pub open spec fn spec_is_https(raw: Seq<char>) -> bool {
    has_prefix(raw, https_prefix())
}

/// The input with its scheme prefix (if any) consumed.
///
/// An input that starts with `http` but continues with neither `://`
/// nor `s://` is outside the accepted grammar; it is treated as
/// schemeless, so normalization stays total.
pub open spec fn spec_after_scheme(raw: Seq<char>) -> Seq<char> {
    if has_prefix(raw, https_prefix()) {
        raw.skip(8)
    } else if has_prefix(raw, http_prefix()) {
        raw.skip(7)
    } else {
        raw
    }
}

/// The canonical record for a raw input: scheme detected by prefix,
/// the remainder split at its first `/` into hostname and path, and a
/// path of `/` when the remainder holds no `/`.
pub open spec fn spec_normalize(raw: Seq<char>) -> UrlView {
    let rest = spec_after_scheme(raw);
    let cut = first_slash(rest);
    UrlView {
        hostname: rest.subrange(0, cut),
        is_https: spec_is_https(raw),
        path: if cut == rest.len() {
            seq!['/']
        } else {
            rest.skip(cut)
        },
    }
}

/// `first_slash` lands on the first `/`: everything before it is not
/// `/`, and it is in bounds, pointing at a `/` unless there is none.
pub proof fn lemma_first_slash_bounds(s: Seq<char>)
    ensures
        0 <= first_slash(s) <= s.len(),
        forall|j: int| 0 <= j < first_slash(s) ==> s[j] != '/',
        first_slash(s) < s.len() ==> s[first_slash(s)] == '/',
    decreases s.len(),
{
    if s.len() == 0 {
    } else if s[0] == '/' {
    } else {
        lemma_first_slash_bounds(s.skip(1));
        assert forall|j: int| 0 <= j < first_slash(s) implies s[j] != '/' by {
            if j > 0 {
                assert(s.skip(1)[j - 1] != '/');
            }
        }
        if first_slash(s) < s.len() {
            assert(s[first_slash(s)] == s.skip(1)[first_slash(s) - 1]);
        }
    }
}

/// An index below which `s` holds no `/`, and which hits a `/` unless
/// it is the length, is exactly `first_slash(s)`.
pub proof fn lemma_first_slash_is(s: Seq<char>, i: int)
    requires
        0 <= i <= s.len(),
        forall|j: int| 0 <= j < i ==> s[j] != '/',
        i < s.len() ==> s[i] == '/',
    ensures
        first_slash(s) == i,
    decreases s.len(),
{
    if i == 0 {
    } else {
        assert(s[0] != '/');
        assert forall|j: int| 0 <= j < i - 1 implies s.skip(1)[j] != '/' by {
            assert(s.skip(1)[j] == s[j + 1]);
        }
        if i - 1 < s.skip(1).len() {
            assert(s.skip(1)[i - 1] == s[i]);
        }
        lemma_first_slash_is(s.skip(1), i - 1);
    }
}

/// `p` is a prefix of `s` exactly when the first `p.len()` characters match.
fn str_has_prefix(s: &str, p: &str) -> (r: bool)
    ensures
        r == has_prefix(s@, p@),
{
    let n = p.unicode_len();
    let sn = s.unicode_len();
    if n > sn {
        return false;
    }
    let mut i: usize = 0;
    while i < n
        invariant
            0 <= i <= n,
            n == p@.len(),
            sn == s@.len(),
            n <= sn,
            forall|j: int| 0 <= j < i ==> s@[j] == p@[j],
        decreases n - i,
    {
        if s.get_char(i) != p.get_char(i) {
            assert(s@.subrange(0, n as int)[i as int] == s@[i as int]);
            return false;
        }
        i += 1;
    }
    assert(s@.subrange(0, n as int) =~= p@);
    true
}

/// Index of the first `/` in `s`, or `s@.len()` if `s` holds none.
fn find_slash(s: &str) -> (i: usize)
    ensures
        i as int == first_slash(s@),
{
    let n = s.unicode_len();
    let mut i: usize = 0;
    while i < n
        invariant
            0 <= i <= n,
            n == s@.len(),
            forall|j: int| 0 <= j < i ==> s@[j] != '/',
        decreases n - i,
    {
        if s.get_char(i) == '/' {
            proof {
                lemma_first_slash_is(s@, i as int);
            }
            return i;
        }
        i += 1;
    }
    proof {
        lemma_first_slash_is(s@, n as int);
    }
    n
}

/// Normalize raw URL text into its canonical record.
///
/// The scheme is detected by a case-sensitive prefix check: `https://`
/// is secure, `http://` insecure, and anything else (including a bare
/// hostname) is treated as schemeless and insecure.  The remainder is
/// split at its first `/`: the prefix is the hostname, the rest the
/// path, which defaults to `/` when the remainder holds no `/`.
pub fn parse_url(url: &str) -> (r: URL)
    ensures
        r@ == spec_normalize(url@),
        r@.wf(),
{
    proof {
        reveal_strlit("https://");
        reveal_strlit("http://");
        reveal_strlit("/");
        assert("https://"@ =~= https_prefix());
        assert("http://"@ =~= http_prefix());
    }
    let len = url.unicode_len();
    let (is_https, rest): (bool, &str) = if str_has_prefix(url, "https://") {
        (true, url.substring_char(8, len))
    } else if str_has_prefix(url, "http://") {
        (false, url.substring_char(7, len))
    } else {
        (false, url)
    };
    proof {
        assert(rest@ =~= spec_after_scheme(url@));
        lemma_first_slash_bounds(rest@);
    }
    let rest_len = rest.unicode_len();
    let cut = find_slash(rest);
    let hostname = rest.substring_char(0, cut).to_owned();
    let path = if cut == rest_len {
        String::from_str("/")
    } else {
        rest.substring_char(cut, rest_len).to_owned()
    };
    let r = URL { hostname, is_https, path };
    proof {
        assert(r.path@ =~= spec_normalize(url@).path);
        assert(seq!['/'][0] == '/');
    }
    r
}

/// The canonical text of a record: its scheme prefix, hostname and path.
pub open spec fn spec_render(u: UrlView) -> Seq<char> {
    (if u.is_https {
        https_prefix()
    } else {
        http_prefix()
    }) + u.hostname + u.path
}

/// The display text of a record: `hostname:port` followed by the path,
/// with the port implied by the scheme.
pub open spec fn spec_display(u: UrlView) -> Seq<char> {
    u.hostname + (if u.is_https {
        ":443"@
    } else {
        ":80"@
    }) + u.path
}

impl URL {
    /// The default port implied by the scheme: 443 when secure, else 80.
    pub fn port(&self) -> (r: u16)
        ensures
            r == (if self.is_https {
                443u16
            } else {
                80u16
            }),
    {
        if self.is_https {
            443
        } else {
            80
        }
    }

    /// The canonical text of this record, which [`parse_url`] maps back
    /// to an equal record (see [`lemma_render_round_trip`]).
    pub fn to_url_string(&self) -> (r: String)
        ensures
            r@ == spec_render(self@),
    {
        let mut s = if self.is_https {
            String::from_str("https://")
        } else {
            String::from_str("http://")
        };
        proof {
            reveal_strlit("https://");
            reveal_strlit("http://");
            assert("https://"@ =~= https_prefix());
            assert("http://"@ =~= http_prefix());
        }
        s.append(self.hostname.as_str());
        s.append(self.path.as_str());
        proof {
            assert(s@ =~= spec_render(self@));
        }
        s
    }

    /// The display text of this record: `hostname:port` and the path.
    pub fn to_display_string(&self) -> (r: String)
        ensures
            r@ == spec_display(self@),
    {
        let mut s = self.hostname.clone();
        if self.is_https {
            s.append(":443");
        } else {
            s.append(":80");
        }
        s.append(self.path.as_str());
        proof {
            assert(s@ =~= spec_display(self@));
        }
        s
    }
}

/// Normalizing the canonical text of a well-formed record gives that
/// record back: rendering loses nothing.
pub proof fn lemma_render_round_trip(u: UrlView)
    requires
        u.wf(),
    ensures
        spec_normalize(spec_render(u)) == u,
{
    let rendered = spec_render(u);
    let rest = u.hostname + u.path;
    if u.is_https {
        assert(rendered.subrange(0, 8) =~= https_prefix());
        assert(has_prefix(rendered, https_prefix()));
        assert(rendered.skip(8) =~= rest);
    } else {
        assert(rendered.subrange(0, 7) =~= http_prefix());
        assert(has_prefix(rendered, http_prefix()));
        if has_prefix(rendered, https_prefix()) {
            assert(rendered.subrange(0, 8)[4] == rendered[4]);
            assert(rendered[4] == http_prefix()[4]);
            assert(https_prefix()[4] == 's' && http_prefix()[4] == ':');
        }
        assert(!has_prefix(rendered, https_prefix()));
        assert(rendered.skip(7) =~= rest);
    }
    assert(spec_after_scheme(rendered) == rest);
    assert forall|j: int| 0 <= j < u.hostname.len() as int implies rest[j] != '/' by {
        assert(rest[j] == u.hostname[j]);
    }
    assert(rest[u.hostname.len() as int] == u.path[0]);
    lemma_first_slash_is(rest, u.hostname.len() as int);
    assert(rest.subrange(0, u.hostname.len() as int) =~= u.hostname);
    assert(rest.skip(u.hostname.len() as int) =~= u.path);
}

/// Normalization is idempotent: rendering its output and normalizing
/// again changes nothing, for every raw input.
pub proof fn lemma_normalize_idempotent(raw: Seq<char>)
    ensures
        spec_normalize(spec_render(spec_normalize(raw))) == spec_normalize(raw),
{
    lemma_normalize_wf(raw);
    lemma_render_round_trip(spec_normalize(raw));
}

/// Every output of normalization is well formed.
pub proof fn lemma_normalize_wf(raw: Seq<char>)
    ensures
        spec_normalize(raw).wf(),
{
    let rest = spec_after_scheme(raw);
    lemma_first_slash_bounds(rest);
    let cut = first_slash(rest);
    if cut != rest.len() {
        assert(rest.skip(cut)[0] == rest[cut]);
    } else {
        assert(seq!['/'][0] == '/');
    }
}

} // verus!
