//! The closed set of geographic regions a worker can belong to.

use vstd::prelude::*;

use crate::text::str_eq;
use vstd::string::StringSliceAdditionalSpecFns;

verus! {

/// A worker belongs to exactly one region; adding one is a coordinated
/// schema-and-code change, so the set is closed at compile time.
#[derive(Debug, Copy, Clone, PartialEq, Eq, Structural)]
pub enum Region {
    Fsn1,
    Hel1,
    Nbg1,
}

/// Error returned when a stored region identifier is not one of the
/// known regions.
#[derive(Debug, Clone, Copy, PartialEq, Eq, Structural)]
pub struct UnknownRegion;

impl Region {
    /// The identifier under which this region appears in stored rows.
    pub open spec fn spec_identifier(self) -> Seq<char> {
        match self {
            Region::Fsn1 => "fsn1"@,
            Region::Hel1 => "hel1"@,
            Region::Nbg1 => "nbg1"@,
        }
    }

    /// The region a stored identifier denotes, if any.
    pub open spec fn spec_from_identifier(s: Seq<char>) -> Option<Region> {
        if s == "fsn1"@ {
            Some(Region::Fsn1)
        } else if s == "hel1"@ {
            Some(Region::Hel1)
        } else if s == "nbg1"@ {
            Some(Region::Nbg1)
        } else {
            None
        }
    }

    pub fn to_identifier(self) -> (r: &'static str)
        ensures
            r@ == self.spec_identifier(),
    {
        match self {
            Region::Fsn1 => "fsn1",
            Region::Hel1 => "hel1",
            Region::Nbg1 => "nbg1",
        }
    }

    pub fn from_identifier(identifier: &str) -> (r: Result<Region, UnknownRegion>)
        ensures
            r == match Region::spec_from_identifier(identifier@) {
                Some(region) => Result::<Region, UnknownRegion>::Ok(region),
                None => Result::<Region, UnknownRegion>::Err(UnknownRegion),
            },
    {
        if str_eq(identifier, "fsn1") {
            Ok(Region::Fsn1)
        } else if str_eq(identifier, "hel1") {
            Ok(Region::Hel1)
        } else if str_eq(identifier, "nbg1") {
            Ok(Region::Nbg1)
        } else {
            Err(UnknownRegion)
        }
    }

    /// Every known region, in declaration order.
    pub fn all() -> (r: Vec<Region>)
        ensures
            r@ == seq![Region::Fsn1, Region::Hel1, Region::Nbg1],
    {
        let mut v: Vec<Region> = Vec::new();
        v.push(Region::Fsn1);
        v.push(Region::Hel1);
        v.push(Region::Nbg1);
        proof {
            assert(v@ =~= seq![Region::Fsn1, Region::Hel1, Region::Nbg1]);
        }
        v
    }

    /// The stored identifiers of every known region, in declaration order.
    pub fn get_all_region_identifiers() -> (r: Vec<&'static str>)
        ensures
            r@.len() == 3,
            forall|i: int|
                0 <= i < 3 ==> r@[i]@ == Region::all_spec()[i].spec_identifier(),
    {
        let mut v: Vec<&'static str> = Vec::new();
        v.push(Region::Fsn1.to_identifier());
        v.push(Region::Hel1.to_identifier());
        v.push(Region::Nbg1.to_identifier());
        v
    }

    /// Every known region, as a specification sequence.
    pub open spec fn all_spec() -> Seq<Region> {
        seq![Region::Fsn1, Region::Hel1, Region::Nbg1]
    }
}

} // verus!

verus! {

/// The region a stored identifier denotes, matched on its UTF-8 bytes.
pub open spec fn region_from_bytes(b: Seq<u8>) -> Option<Region> {
    if b == seq![102u8, 115u8, 110u8, 49u8] {
        Some(Region::Fsn1)
    } else if b == seq![104u8, 101u8, 108u8, 49u8] {
        Some(Region::Hel1)
    } else if b == seq![110u8, 98u8, 103u8, 49u8] {
        Some(Region::Nbg1)
    } else {
        None
    }
}

/// Matches one list entry against the known region identifiers.
fn region_from_piece(p: &str) -> (r: Option<Region>)
    ensures
        r == region_from_bytes(p.spec_bytes()),
{
    let b = p.as_bytes();
    if b.len() != 4 {
        proof {
            assert(region_from_bytes(p.spec_bytes()) is None);
        }
        return None;
    }
    let r = if b[0] == 102 && b[1] == 115 && b[2] == 110 && b[3] == 49 {
        proof {
            assert(p.spec_bytes() =~= seq![102u8, 115u8, 110u8, 49u8]);
        }
        Some(Region::Fsn1)
    } else if b[0] == 104 && b[1] == 101 && b[2] == 108 && b[3] == 49 {
        proof {
            assert(p.spec_bytes() =~= seq![104u8, 101u8, 108u8, 49u8]);
        }
        Some(Region::Hel1)
    } else if b[0] == 110 && b[1] == 98 && b[2] == 103 && b[3] == 49 {
        proof {
            assert(p.spec_bytes() =~= seq![110u8, 98u8, 103u8, 49u8]);
        }
        Some(Region::Nbg1)
    } else {
        proof {
            if p.spec_bytes() == seq![102u8, 115u8, 110u8, 49u8] {
                assert(b@[0] == 102 && b@[1] == 115 && b@[2] == 110 && b@[3] == 49);
            }
            if p.spec_bytes() == seq![104u8, 101u8, 108u8, 49u8] {
                assert(b@[0] == 104 && b@[1] == 101 && b@[2] == 108 && b@[3] == 49);
            }
            if p.spec_bytes() == seq![110u8, 98u8, 103u8, 49u8] {
                assert(b@[0] == 110 && b@[1] == 98 && b@[2] == 103 && b@[3] == 49);
            }
            assert(region_from_bytes(p.spec_bytes()) is None);
        }
        None
    };
    r
}

/// Parses an optional comma-separated region filter: no filter selects
/// every known region; otherwise each trimmed entry must be a known
/// region identifier, and any unknown entry rejects the whole filter.
pub fn parse_regions(regions_str: Option<&str>) -> (r: Result<Vec<Region>, UnknownRegion>)
    ensures
        regions_str is None ==> (r matches Ok(v) && v@ == Region::all_spec()),
        regions_str matches Some(text) ==> {
            let pieces = crate::text::split_trimmed_bytes(text.spec_bytes());
            &&& (r is Ok <==> forall|k: int|
                0 <= k < pieces.len() ==> region_from_bytes(#[trigger] pieces[k]) is Some)
            &&& (r matches Ok(v) ==> v@.len() == pieces.len() && forall|k: int|
                0 <= k < pieces.len() ==> Some(v@[k]) == region_from_bytes(#[trigger] pieces[k]))
        },
{
    let text = match regions_str {
        None => {
            return Ok(Region::all());
        },
        Some(text) => text,
    };
    proof {
        assert(regions_str == Some(text));
    }
    let ghost pview = |p: &str| p.spec_bytes();
    let pieces = crate::text::split_trimmed(text);
    let ghost piece_bytes = pieces@.map_values(pview);
    let mut out: Vec<Region> = Vec::new();
    let n = pieces.len();
    let mut i: usize = 0;
    while i < n
        invariant
            n == pieces@.len(),
            pview == (|p: &str| p.spec_bytes()),
            piece_bytes == pieces@.map_values(pview),
            piece_bytes == crate::text::split_trimmed_bytes(text.spec_bytes()),
            regions_str == Some(text),
            i <= n,
            out@.len() == i,
            forall|k: int|
                0 <= k < i ==> Some(out@[k]) == region_from_bytes(#[trigger] piece_bytes[k]),
        decreases n - i,
    {
        match region_from_piece(pieces[i]) {
            Some(region) => {
                out.push(region);
            },
            None => {
                proof {
                    assert(piece_bytes[i as int] == pieces@[i as int].spec_bytes());
                    assert(piece_bytes.len() == n);
                    assert(region_from_bytes(piece_bytes[i as int]) is None);
                    assert(!(forall|k: int|
                        0 <= k < piece_bytes.len() ==> region_from_bytes(
                            #[trigger] piece_bytes[k],
                        ) is Some));
                    assert(regions_str == Some(text));
                }
                return Err(UnknownRegion);
            },
        }
        i += 1;
    }
    Ok(out)
}

} // verus!
