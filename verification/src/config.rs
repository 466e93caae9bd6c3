//! The loaded configuration and the normalization of its API endpoint.

use crate::strings::{trim_slashes, trim_trailing_slashes};
use vstd::prelude::*;
use vstd::string::*;

verus! {

/// What the configuration file describes: API endpoint, credential, album
/// identifier and local destination folder, plus scheduling-interval hints
/// that only outside tooling reads.
pub struct Config {
    pub api_url: String,
    pub api_key: String,
    pub album_id: String,
    pub local_folder: String,
    pub interval_minutes: Option<u64>,
    pub background_interval_minutes: Option<u64>,
}

/// Whether `s` ends with the four characters "/api".
pub open spec fn ends_with_api(s: Seq<char>) -> bool {
    s.len() >= 4 && s[s.len() - 4] == '/' && s[s.len() - 3] == 'a' && s[s.len() - 2] == 'p'
        && s[s.len() - 1] == 'i'
}

/// The normalized endpoint: unchanged when it already ends with "/api" once
/// trailing slashes are set aside; otherwise the endpoint without its
/// trailing slashes and with "/api" appended.
pub open spec fn normalized_api_url(s: Seq<char>) -> Seq<char> {
    if ends_with_api(trim_slashes(s)) {
        s
    } else {
        trim_slashes(s) + seq!['/', 'a', 'p', 'i']
    }
}

/// Whether `s` ends with "/api", as executable code.
fn str_ends_with_api(s: &str) -> (b: bool)
    ensures
        b == ends_with_api(s@),
{
    let n = s.unicode_len();
    if n < 4 {
        return false;
    }
    s.get_char(n - 4) == '/' && s.get_char(n - 3) == 'a' && s.get_char(n - 2) == 'p' && s.get_char(
        n - 1,
    ) == 'i'
}

impl Config {
    /// Rewrites the endpoint so that it names the API root; every other
    /// field stays as it was.
    pub fn normalize_api_url(&mut self)
        ensures
            final(self).api_url@ == normalized_api_url(old(self).api_url@),
            final(self).api_key == old(self).api_key,
            final(self).album_id == old(self).album_id,
            final(self).local_folder == old(self).local_folder,
            final(self).interval_minutes == old(self).interval_minutes,
            final(self).background_interval_minutes == old(self).background_interval_minutes,
    {
        let trimmed = trim_trailing_slashes(self.api_url.as_str());
        if !str_ends_with_api(trimmed.as_str()) {
            let rebuilt = trimmed.concat("/api");
            proof {
                reveal_strlit("/api");
                assert(rebuilt@ =~= trim_slashes(old(self).api_url@) + seq!['/', 'a', 'p', 'i']);
            }
            self.api_url = rebuilt;
        }
    }
}

} // verus!
