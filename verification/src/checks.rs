//! Stored checks: URL validation, parsing of stored rows into scheduler
//! checks, and the assembly of a check's per-region rows.

use vstd::prelude::*;

use crate::regions::Region;
use crate::scheduler::{CheckView, Method, ServiceCheck};
use crate::text::str_eq;

verus! {

/// The scheme that url's parser extracts from a text, lowercased;
/// nothing when the text is not a URL.
pub uninterp spec fn url_scheme_of(s: Seq<char>) -> Option<Seq<char>>;

/// Relies on url's `Url::parse`: the result depends on the text alone,
/// and `scheme()` of a parsed URL is its scheme in ASCII lowercase.
#[verifier::external_body]
fn parse_url_scheme(s: &str) -> (r: Option<String>)
    ensures
        r is Some <==> url_scheme_of(s@) is Some,
        r matches Some(scheme) ==> scheme@ == url_scheme_of(s@)->Some_0,
{
    match url::Url::parse(s) {
        Ok(u) => Some(u.scheme().to_string()),
        Err(_) => None,
    }
}

/// Error for a check URL that does not parse or uses a scheme other than
/// HTTP.
#[derive(Debug, Clone, Copy, PartialEq, Eq, Structural)]
pub struct InvalidCheckUrl;

/// A check may only probe over HTTP: its URL must parse, with scheme
/// `http` or `https`.
pub open spec fn spec_url_ok(s: Seq<char>) -> bool {
    url_scheme_of(s) == Some("http"@) || url_scheme_of(s) == Some("https"@)
}

/// Validates a check's URL: accepted exactly when it parses as a URL
/// whose scheme is `http` or `https`.
pub fn parse_check_url(url_text: &str) -> (r: Result<(), InvalidCheckUrl>)
    ensures
        r is Ok <==> spec_url_ok(url_text@),
{
    match parse_url_scheme(url_text) {
        None => Err(InvalidCheckUrl),
        Some(scheme) => {
            if str_eq(scheme.as_str(), "http") || str_eq(scheme.as_str(), "https") {
                Ok(())
            } else {
                Err(InvalidCheckUrl)
            }
        },
    }
}

/// A stored check row, before validation, with every column as the store
/// hands it over.
#[derive(Debug)]
pub struct RawCheckRow {
    pub check_id: u128,
    pub check_name: String,
    pub url: String,
    pub http_method: String,
    pub check_frequency_seconds: i32,
    pub timeout_seconds: i32,
    pub expected_status_code: i32,
    pub request_headers: Vec<(String, String)>,
    pub request_body: Option<String>,
    pub is_enabled: bool,
    pub created_at_ms: u64,
    pub region: String,
}

/// A row the scheduler can use: known region and method, a usable URL,
/// and a frequency that is a duration.
pub open spec fn raw_row_parses(r: RawCheckRow) -> bool {
    &&& Region::spec_from_identifier(r.region@) is Some
    &&& Method::spec_from_identifier(r.http_method@) is Some
    &&& url_scheme_of(r.url@) is Some
    &&& r.check_frequency_seconds >= 0
}

/// The scheduler check a parseable row denotes.
pub open spec fn raw_row_check(r: RawCheckRow) -> CheckView {
    CheckView {
        check_id: r.check_id,
        region: Region::spec_from_identifier(r.region@)->Some_0,
        check_name: r.check_name,
        url: r.url,
        http_method: Method::spec_from_identifier(r.http_method@)->Some_0,
        check_frequency_seconds: r.check_frequency_seconds,
        timeout_seconds: r.timeout_seconds,
        expected_status_code: r.expected_status_code,
        request_headers: r.request_headers@,
        request_body: r.request_body,
        is_enabled: r.is_enabled,
        created_at_ms: r.created_at_ms,
    }
}

/// Parses the rows fetched for a bucket into scheduler checks: rows with
/// an unknown region or method, an unusable URL, or a negative frequency
/// are logged at the edge and skipped; the surrounding fetch proceeds
/// with the rest.
pub fn parse_service_check_rows(rows: Vec<RawCheckRow>) -> (r: Vec<ServiceCheck>)
    ensures
        r@.map_values(|c: ServiceCheck| c@) == rows@.filter(|row: RawCheckRow| raw_row_parses(row))
            .map_values(|row: RawCheckRow| raw_row_check(row)),
{
    let ghost all = rows@;
    let ghost pred = |row: RawCheckRow| raw_row_parses(row);
    let ghost mk = |row: RawCheckRow| raw_row_check(row);
    let ghost cview = |c: ServiceCheck| c@;

    let mut out: Vec<ServiceCheck> = Vec::new();
    let mut rows = rows;
    let n = rows.len();
    let mut i: usize = 0;
    while i < n
        invariant
            n == all.len(),
            i <= n,
            rows@.len() == n - i,
            forall|k: int| 0 <= k < rows@.len() ==> #[trigger] rows@[k] == all[i + k],
            pred == (|row: RawCheckRow| raw_row_parses(row)),
            mk == (|row: RawCheckRow| raw_row_check(row)),
            cview == (|c: ServiceCheck| c@),
            out@.map_values(cview) == all.take(i as int).filter(pred).map_values(mk),
        decreases n - i,
    {
        proof {
            reveal(Seq::filter);
            assert(all.take(i + 1).drop_last() =~= all.take(i as int));
            assert(all.take(i + 1).last() == all[i as int]);
        }
        let row = rows.remove(0);
        proof {
            assert(row == all[i as int]);
            assert(rows@ =~= all.skip(i + 1));
        }
        let ghost out_pre = out@.map_values(cview);

        let region = Region::from_identifier(row.region.as_str());
        let method = Method::from_identifier(row.http_method.as_str());
        let url_ok = parse_url_scheme(row.url.as_str());
        let usable = region.is_ok() && method.is_some() && url_ok.is_some()
            && row.check_frequency_seconds >= 0;
        if usable {
            let region = match region {
                Ok(rg) => rg,
                Err(_) => vstd::pervasive::unreached(),
            };
            let method = match method {
                Some(m) => m,
                None => vstd::pervasive::unreached(),
            };
            out.push(
                ServiceCheck {
                    check_id: row.check_id,
                    region,
                    check_name: row.check_name,
                    url: row.url,
                    http_method: method,
                    check_frequency_seconds: row.check_frequency_seconds,
                    timeout_seconds: row.timeout_seconds,
                    expected_status_code: row.expected_status_code,
                    request_headers: row.request_headers,
                    request_body: row.request_body,
                    is_enabled: row.is_enabled,
                    created_at_ms: row.created_at_ms,
                },
            );
            proof {
                assert(out@.map_values(cview) =~= out_pre.push(mk(all[i as int])));
                assert(all.take(i + 1).filter(pred).map_values(mk) =~= all.take(i as int).filter(
                    pred,
                ).map_values(mk).push(mk(all[i as int])));
            }
        } else {
            proof {
                assert(all.take(i + 1).filter(pred) =~= all.take(i as int).filter(pred));
            }
        }
        i += 1;
    }
    proof {
        assert(all.take(n as int) =~= all);
    }
    out
}

/// A user's rights on one check.
#[derive(Debug, Clone, Copy, PartialEq, Eq, Structural)]
pub struct CheckAccess {
    pub can_edit: bool,
    pub can_see: bool,
}

} // verus!

verus! {

/// What a user defines about a check, independent of the regions it
/// runs in.
#[derive(Debug)]
pub struct CheckData {
    pub check_name: String,
    pub url: String,
    pub http_method: Method,
    pub check_frequency_seconds: i32,
    pub timeout_seconds: i32,
    pub expected_status_code: i32,
    pub request_headers: Vec<(String, String)>,
    pub request_body: Option<String>,
    pub is_enabled: bool,
    pub created_at_ms: u64,
}

/// A user-defined check and the regions it is active in.
#[derive(Debug)]
pub struct Check {
    pub check_id: u128,
    pub regions: Vec<Region>,
    pub data: CheckData,
}

/// The regions of the stored rows whose identifier is known, in row
/// order; rows with an unknown region identifier are skipped.
pub open spec fn found_regions(rows: Seq<RawCheckRow>) -> Seq<Region> {
    rows.filter(|r: RawCheckRow| Region::spec_from_identifier(r.region@) is Some).map_values(
        |r: RawCheckRow| Region::spec_from_identifier(r.region@)->Some_0,
    )
}

/// Error for a stored check whose method column holds no known method.
#[derive(Debug, Clone, Copy, PartialEq, Eq, Structural)]
pub struct MalformedStoredCheck;

/// Assembles a check from its per-region rows, as the lookup by
/// identifier returns them: one row per region the check is active in,
/// all carrying the same definition. The definition is taken from the
/// first row; rows with an unknown region contribute no region; no rows
/// at all means the check does not exist; a first row whose method is
/// unknown fails the whole lookup.
pub fn assemble_check(check_id: u128, rows: Vec<RawCheckRow>) -> (r: Result<
    Option<Check>,
    MalformedStoredCheck,
>)
    ensures
        rows@.len() == 0 ==> r == Result::<Option<Check>, MalformedStoredCheck>::Ok(
            None::<Check>,
        ),
        rows@.len() > 0 ==> {
            &&& (r is Ok <==> Method::spec_from_identifier(rows@[0].http_method@) is Some)
            &&& (r matches Ok(opt) ==> opt matches Some(check) && {
                &&& check.check_id == check_id
                &&& check.regions@ == found_regions(rows@)
                &&& check.data.check_name == rows@[0].check_name
                &&& check.data.url == rows@[0].url
                &&& Some(check.data.http_method) == Method::spec_from_identifier(
                    rows@[0].http_method@,
                )
                &&& check.data.check_frequency_seconds == rows@[0].check_frequency_seconds
                &&& check.data.timeout_seconds == rows@[0].timeout_seconds
                &&& check.data.expected_status_code == rows@[0].expected_status_code
                &&& check.data.request_headers@ == rows@[0].request_headers@
                &&& check.data.request_body == rows@[0].request_body
                &&& check.data.is_enabled == rows@[0].is_enabled
                &&& check.data.created_at_ms == rows@[0].created_at_ms
            })
        },
{
    let ghost all = rows@;
    let ghost keep = |r: RawCheckRow| Region::spec_from_identifier(r.region@) is Some;
    let ghost mk = |r: RawCheckRow| Region::spec_from_identifier(r.region@)->Some_0;

    if rows.len() == 0 {
        return Ok(None);
    }

    // Collect the regions the check is active in, in row order.
    let mut regions: Vec<Region> = Vec::new();
    let n = rows.len();
    let mut i: usize = 0;
    while i < n
        invariant
            n == all.len(),
            i <= n,
            rows@ == all,
            keep == (|r: RawCheckRow| Region::spec_from_identifier(r.region@) is Some),
            mk == (|r: RawCheckRow| Region::spec_from_identifier(r.region@)->Some_0),
            regions@ == all.take(i as int).filter(keep).map_values(mk),
        decreases n - i,
    {
        proof {
            reveal(Seq::filter);
            assert(all.take(i + 1).drop_last() =~= all.take(i as int));
            assert(all.take(i + 1).last() == all[i as int]);
        }
        let ghost regions_pre = regions@;
        match Region::from_identifier(rows[i].region.as_str()) {
            Ok(region) => {
                regions.push(region);
                proof {
                    assert(regions@ =~= regions_pre.push(mk(all[i as int])));
                    assert(all.take(i + 1).filter(keep).map_values(mk) =~= all.take(
                        i as int,
                    ).filter(keep).map_values(mk).push(mk(all[i as int])));
                }
            },
            Err(_) => {
                proof {
                    assert(all.take(i + 1).filter(keep) =~= all.take(i as int).filter(keep));
                }
            },
        }
        i += 1;
    }
    proof {
        assert(all.take(n as int) =~= all);
    }

    // The definition comes from the first row.
    let mut rows = rows;
    let first = rows.remove(0);
    proof {
        assert(first == all[0]);
    }
    let http_method = match Method::from_identifier(first.http_method.as_str()) {
        Some(m) => m,
        None => {
            return Err(MalformedStoredCheck);
        },
    };
    Ok(
        Some(
            Check {
                check_id,
                regions,
                data: CheckData {
                    check_name: first.check_name,
                    url: first.url,
                    http_method,
                    check_frequency_seconds: first.check_frequency_seconds,
                    timeout_seconds: first.timeout_seconds,
                    expected_status_code: first.expected_status_code,
                    request_headers: first.request_headers,
                    request_body: first.request_body,
                    is_enabled: first.is_enabled,
                    created_at_ms: first.created_at_ms,
                },
            },
        ),
    )
}

/// Error for a check created or updated with no region at all.
#[derive(Debug, Clone, Copy, PartialEq, Eq, Structural)]
pub struct NoRegionsGiven;

/// A check must be active in at least one region; creation and update
/// reject an empty region list before touching the store.
pub fn validate_check_regions(regions: &Vec<Region>) -> (r: Result<(), NoRegionsGiven>)
    ensures
        r is Ok <==> regions@.len() > 0,
{
    if regions.len() == 0 {
        Err(NoRegionsGiven)
    } else {
        Ok(())
    }
}

} // verus!
