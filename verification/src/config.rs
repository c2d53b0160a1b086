//! Proxy configuration and its validation rules.
//!
//! The values come from the outside (command-line parsing is not the
//! library's business); the rules about them are: listener-side TLS
//! demands certificate and key paths, and the hostname used to verify the
//! upstream certificate defaults to the host part of the upstream
//! address.

use vstd::prelude::*;
use vstd::string::StrSliceExecFns;

verus! {

/// Where to listen, where to forward, and which sides speak TLS.
pub struct Config {
    /// Address to listen on.
    pub listen: String,
    /// Upstream server address.
    pub upstream: String,
    /// Path to the TLS certificate file; required unless `no_tls` is set.
    pub cert: Option<String>,
    /// Path to the TLS private key file; required unless `no_tls` is set.
    pub key: Option<String>,
    /// Disable TLS on the listening side.
    pub no_tls: bool,
    /// Enable TLS toward the upstream server.
    pub upstream_tls: bool,
    /// Hostname for upstream certificate verification; defaults to the
    /// host part of `upstream`.
    pub upstream_tls_hostname: Option<String>,
}

/// Index of the first colon, or the length when there is none.
pub open spec fn spec_first_colon(s: Seq<char>) -> nat
    decreases s.len(),
{
    if s.len() == 0 {
        0
    } else if s[0] == ':' {
        0
    } else {
        (1 + spec_first_colon(s.skip(1))) as nat
    }
}

/// `spec_first_colon` returns the first colon position, or the length.
pub proof fn lemma_first_colon(s: Seq<char>)
    ensures
        spec_first_colon(s) <= s.len(),
        forall|j: int| 0 <= j < spec_first_colon(s) ==> s[j] != ':',
        spec_first_colon(s) < s.len() ==> s[spec_first_colon(s) as int] == ':',
    decreases s.len(),
{
    if s.len() == 0 {
    } else if s[0] == ':' {
    } else {
        lemma_first_colon(s.skip(1));
        assert forall|j: int| 0 <= j < spec_first_colon(s) implies s[j] != ':' by {
            if j >= 1 {
                assert(s.skip(1)[j - 1] == s[j]);
            }
        }
        if spec_first_colon(s) < s.len() {
            assert(s.skip(1)[spec_first_colon(s) - 1] == s[spec_first_colon(s) as int]);
        }
    }
}

/// The host part of a `host:port` address: everything before the first
/// colon, or the whole text when there is none.
pub open spec fn spec_host_part(s: Seq<char>) -> Seq<char> {
    s.take(spec_first_colon(s) as int)
}

/// Whether a configuration passes validation: plaintext listeners always
/// do, TLS listeners need both a certificate and a key path.
pub open spec fn spec_valid(c: Config) -> bool {
    c.no_tls || (c.cert is Some && c.key is Some)
}

impl Config {
    /// Check that TLS material is named whenever the listener speaks TLS.
    /// Returns exactly which path is missing.
    pub fn validate(&self) -> (r: Result<(), String>)
        ensures
            r is Ok <==> spec_valid(*self),
            !self.no_tls && self.cert is None ==> (r matches Err(m) && m@
                == "--cert is required when TLS is enabled (use --no-tls to disable)"@),
            !self.no_tls && self.cert is Some && self.key is None ==> (r matches Err(m) && m@
                == "--key is required when TLS is enabled (use --no-tls to disable)"@),
    {
        if !self.no_tls {
            if self.cert.is_none() {
                return Err(
                    "--cert is required when TLS is enabled (use --no-tls to disable)".to_owned(),
                );
            }
            if self.key.is_none() {
                return Err(
                    "--key is required when TLS is enabled (use --no-tls to disable)".to_owned(),
                );
            }
        }
        Ok(())
    }

    /// The hostname under which the upstream certificate is verified: the
    /// explicit override when one was given, else the host part of the
    /// upstream address.
    pub fn upstream_hostname(&self) -> (r: String)
        ensures
            r@ == match self.upstream_tls_hostname {
                Some(h) => h@,
                None => spec_host_part(self.upstream@),
            },
    {
        match &self.upstream_tls_hostname {
            Some(h) => h.clone(),
            None => {
                let s = self.upstream.as_str();
                let len = s.unicode_len();
                let mut i: usize = 0;
                while i < len && s.get_char(i) != ':'
                    invariant
                        len == s@.len(),
                        i <= len,
                        forall|j: int| 0 <= j < i ==> s@[j] != ':',
                    decreases len - i,
                {
                    i += 1;
                }
                proof {
                    lemma_first_colon(s@);
                    let fc = spec_first_colon(s@) as int;
                    if fc < i {
                        assert(s@[fc] == ':');
                    }
                    if fc > i {
                        assert(i < len);
                        assert(s@[i as int] != ':');
                    }
                }
                let host = s.substring_char(0, i);
                host.to_owned()
            },
        }
    }
}

} // verus!
