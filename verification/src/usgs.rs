//! The data that the USGS linked-data service offers for a site, and how it
//! is asked for.

use vstd::prelude::*;
use vstd::string::StringExecFns;

verus! {

/// The kinds of data.
#[derive(Clone, Copy, Debug, PartialEq, Eq, Structural)]
pub enum GeoInfo {
    Upstream,
    Downstream,
    Tributaries,
    Basin,
    NwisSite,
}

impl GeoInfo {
    /// The last part of the address that asks for this kind of data.
    pub open spec fn query_text(self) -> Seq<char> {
        match self {
            GeoInfo::Upstream => "navigate/UM?f=json"@,
            GeoInfo::NwisSite => "navigate/UT/nwissite?f=json"@,
            GeoInfo::Downstream => "navigate/DM?f=json"@,
            GeoInfo::Tributaries => "navigate/UT?f=json"@,
            GeoInfo::Basin => "basin?f=json"@,
        }
    }

    /// The word for this kind of data in a file's name.
    pub open spec fn kind_text(self) -> Seq<char> {
        match self {
            GeoInfo::Upstream => "upstream"@,
            GeoInfo::Downstream => "downstream"@,
            GeoInfo::Tributaries => "tributaries"@,
            GeoInfo::Basin => "basin"@,
            GeoInfo::NwisSite => "nwis-site"@,
        }
    }

    /// The last part of the address that asks for this kind of data.
    pub fn usgs_query(&self) -> (r: &str)
        ensures
            r@ == self.query_text(),
    {
        match self {
            GeoInfo::Upstream => "navigate/UM?f=json",
            GeoInfo::NwisSite => "navigate/UT/nwissite?f=json",
            GeoInfo::Downstream => "navigate/DM?f=json",
            GeoInfo::Tributaries => "navigate/UT?f=json",
            GeoInfo::Basin => "basin?f=json",
        }
    }

    /// The name of the file that holds this kind of data for a site: the
    /// site's number, `_`, the kind, `.json`.
    pub fn filename(&self, site_no: &str) -> (r: String)
        ensures
            r@ == site_no@ + "_"@ + self.kind_text() + ".json"@,
    {
        let kind: &str = match self {
            GeoInfo::Upstream => "upstream",
            GeoInfo::Downstream => "downstream",
            GeoInfo::Tributaries => "tributaries",
            GeoInfo::Basin => "basin",
            GeoInfo::NwisSite => "nwis-site",
        };
        let mut name = String::from_str(site_no);
        name.append("_");
        name.append(kind);
        name.append(".json");
        name
    }

    /// The address that asks for this kind of data for a site.
    pub fn usgs_url(&self, site_no: &str) -> (r: String)
        ensures
            r@ == "https://api.water.usgs.gov/nldi/linked-data/nwissite/USGS-"@ + site_no@ + "/"@
                + self.query_text(),
    {
        let query = self.usgs_query();
        let mut url = String::from_str("https://api.water.usgs.gov/nldi/linked-data/nwissite/USGS-");
        url.append(site_no);
        url.append("/");
        url.append(query);
        url
    }
}

} // verus!
