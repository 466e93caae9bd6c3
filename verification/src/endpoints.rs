//! The two request URLs the remote API is read through: album metadata with
//! all its assets, and an asset's original binary content.

use crate::strings::{trim_slashes, trim_trailing_slashes};
use vstd::prelude::*;
use vstd::string::*;

verus! {

/// The URL that fetches an album's metadata together with all member assets.
pub open spec fn album_url_spec(api_url: Seq<char>, album_id: Seq<char>) -> Seq<char> {
    trim_slashes(api_url) + "/albums/"@ + album_id + "?withoutAssets=false"@
}

/// The URL that fetches one asset's original binary content.
pub open spec fn asset_url_spec(api_url: Seq<char>, asset_id: Seq<char>) -> Seq<char> {
    trim_slashes(api_url) + "/assets/"@ + asset_id + "/original"@
}

/// Builds the album-with-assets request URL.
pub fn album_url(api_url: &str, album_id: &str) -> (r: String)
    ensures
        r@ == album_url_spec(api_url@, album_id@),
{
    let t = trim_trailing_slashes(api_url);
    let r = t.concat("/albums/");
    let r = r.concat(album_id);
    r.concat("?withoutAssets=false")
}

/// Builds the asset-content request URL.
pub fn asset_url(api_url: &str, asset_id: &str) -> (r: String)
    ensures
        r@ == asset_url_spec(api_url@, asset_id@),
{
    let t = trim_trailing_slashes(api_url);
    let r = t.concat("/assets/");
    let r = r.concat(asset_id);
    r.concat("/original")
}

} // verus!
