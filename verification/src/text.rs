//! Small string utilities shared by the parsing code.

use vstd::prelude::*;
use vstd::string::StringSliceAdditionalSpecFns;

verus! {

/// String-slice equality, stated over the views.
pub fn str_eq(a: &str, b: &str) -> (r: bool)
    ensures
        r == (a@ == b@),
{
    let oa: String = a.to_owned();
    let ob: String = b.to_owned();
    oa == ob
}

} // verus!

verus! {

/// The byte UTF-8 encodes a comma as.
pub const COMMA: u8 = 44;

/// The byte UTF-8 encodes a space as.
pub const SPACE: u8 = 32;

/// The position of the first comma byte, or the length when there is
/// none.
pub open spec fn first_comma(b: Seq<u8>) -> int
    decreases b.len(),
{
    if b.len() == 0 {
        0
    } else if b[0] == COMMA {
        0
    } else {
        1 + first_comma(b.drop_first())
    }
}

/// The comma-separated pieces of a byte string, in order; a string
/// without commas is one piece.
pub open spec fn split_commas(b: Seq<u8>) -> Seq<Seq<u8>>
    decreases b.len(),
{
    let c = first_comma(b);
    if 0 <= c < b.len() {
        seq![b.take(c)] + split_commas(b.skip(c + 1))
    } else {
        seq![b]
    }
}

/// The byte string with leading and trailing spaces removed.
pub open spec fn trim_bytes(b: Seq<u8>) -> Seq<u8>
    decreases b.len(),
{
    if b.len() > 0 && b[0] == SPACE {
        trim_bytes(b.drop_first())
    } else if b.len() > 0 && b.last() == SPACE {
        trim_bytes(b.drop_last())
    } else {
        b
    }
}

/// The comma-separated pieces, each trimmed of spaces.
pub open spec fn split_trimmed_bytes(b: Seq<u8>) -> Seq<Seq<u8>> {
    split_commas(b).map_values(|p: Seq<u8>| trim_bytes(p))
}

/// `first_comma` points at a comma, and nothing before it is one.
proof fn lemma_first_comma_agrees(b: Seq<u8>, c: int)
    requires
        0 <= c <= b.len(),
        c < b.len() ==> b[c] == COMMA,
        forall|k: int| 0 <= k < c ==> b[k] != COMMA,
        c == b.len() ==> forall|k: int| 0 <= k < b.len() ==> b[k] != COMMA,
    ensures
        first_comma(b) == c,
    decreases c,
{
    if c > 0 {
        lemma_first_comma_agrees(b.drop_first(), c - 1);
    }
}

/// A byte below `0x80` opens a one-byte scalar, so the position after it
/// is a character boundary in valid UTF-8.
proof fn lemma_boundary_after_ascii_byte(b: Seq<u8>)
    requires
        vstd::utf8::valid_utf8(b),
        b.len() >= 1,
        b[0] < 0x80,
    ensures
        vstd::utf8::is_char_boundary(b, 1),
{
    reveal_with_fuel(vstd::utf8::is_char_boundary, 2);
    assert(vstd::utf8::length_of_first_scalar(b) == 1);
}

/// Splits a string into its comma-separated pieces, each trimmed of
/// spaces.
pub fn split_trimmed(s: &str) -> (r: Vec<&str>)
    ensures
        r@.map_values(|p: &str| p.spec_bytes()) == split_trimmed_bytes(s.spec_bytes()),
{
    broadcast use vstd::utf8::encode_utf8_valid_utf8;
    broadcast use vstd::utf8::is_char_boundary_iff_not_is_continuation_byte;
    broadcast use vstd::utf8::is_char_boundary_start_end_of_seq;
    broadcast use vstd::utf8::valid_utf8_split;

    let ghost orig = s.spec_bytes();
    let ghost pview = |p: &str| p.spec_bytes();
    let ghost tr = |p: Seq<u8>| trim_bytes(p);
    let mut out: Vec<&str> = Vec::new();
    let mut rem: &str = s;
    proof {
        assert(vstd::utf8::valid_utf8(orig));
    }
    loop
        invariant_except_break
            split_commas(orig).map_values(tr) == out@.map_values(pview) + split_commas(
                rem.spec_bytes(),
            ).map_values(tr),
        invariant
            vstd::utf8::valid_utf8(rem.spec_bytes()),
            pview == (|p: &str| p.spec_bytes()),
            tr == (|p: Seq<u8>| trim_bytes(p)),
        ensures
            out@.map_values(pview) == split_trimmed_bytes(orig),
        decreases rem.spec_bytes().len(),
    {
        let ghost rem_bytes = rem.spec_bytes();
        let bytes = rem.as_bytes();
        let n = bytes.len();
        let mut c: usize = 0;
        while c < n && bytes[c] != COMMA
            invariant
                n == rem_bytes.len(),
                bytes@ == rem_bytes,
                c <= n,
                forall|k: int| 0 <= k < c ==> rem_bytes[k] != COMMA,
            decreases n - c,
        {
            c += 1;
        }
        proof {
            lemma_first_comma_agrees(rem_bytes, c as int);
        }
        if c == n {
            // No comma left: the remainder is the final piece.
            let piece = trim_spaces(rem);
            out.push(piece);
            proof {
                assert(split_commas(rem_bytes) =~= seq![rem_bytes]);
                assert(split_commas(rem_bytes).map_values(tr) =~= seq![trim_bytes(rem_bytes)]);
                assert(out@.map_values(pview) =~= split_commas(orig).map_values(tr));
            }
            break ;
        }
        proof {
            assert(rem_bytes[c as int] == COMMA);
            assert(!vstd::utf8::is_continuation_byte(rem_bytes[c as int]));
            vstd::utf8::is_char_boundary_iff_not_is_continuation_byte(rem_bytes, c as int);
            assert(vstd::utf8::is_char_boundary(rem_bytes, c as int));
        }
        let (piece_raw, rest_with_comma) = rem.split_at(c);
        proof {
            vstd::utf8::valid_utf8_split(rem_bytes, c as int);
            assert(rest_with_comma.spec_bytes() =~= rem_bytes.subrange(c as int, n as int));
            assert(vstd::utf8::valid_utf8(rest_with_comma.spec_bytes()));
            assert(rest_with_comma.spec_bytes()[0] == COMMA);
            lemma_boundary_after_ascii_byte(rest_with_comma.spec_bytes());
            vstd::utf8::valid_utf8_split(rest_with_comma.spec_bytes(), 1);
        }
        let (_, rest) = rest_with_comma.split_at(1);
        proof {
            assert(rest.spec_bytes() =~= rest_with_comma.spec_bytes().subrange(
                1,
                rest_with_comma.spec_bytes().len() as int,
            ));
            assert(vstd::utf8::valid_utf8(rest.spec_bytes()));
        }
        let piece = trim_spaces(piece_raw);
        let ghost out_pre = out@.map_values(pview);
        out.push(piece);
        proof {
            assert(rest.spec_bytes() =~= rem_bytes.skip(c + 1));
            assert(piece_raw.spec_bytes() =~= rem_bytes.take(c as int));
            assert(split_commas(rem_bytes) == seq![rem_bytes.take(c as int)] + split_commas(
                rem_bytes.skip(c + 1),
            ));
            assert(out@.map_values(pview) =~= out_pre.push(trim_bytes(rem_bytes.take(c as int))));
            assert(split_commas(rem_bytes).map_values(tr) =~= seq![
                trim_bytes(rem_bytes.take(c as int)),
            ] + split_commas(rem_bytes.skip(c + 1)).map_values(tr));
            assert(out@.map_values(pview) + split_commas(rest.spec_bytes()).map_values(tr)
                =~= split_commas(orig).map_values(tr));
        }
        rem = rest;
    }
    out
}

/// Removes leading and trailing spaces.
pub fn trim_spaces(s: &str) -> (r: &str)
    requires
        vstd::utf8::valid_utf8(s.spec_bytes()),
    ensures
        r.spec_bytes() == trim_bytes(s.spec_bytes()),
        vstd::utf8::valid_utf8(r.spec_bytes()),
{
    broadcast use vstd::utf8::is_char_boundary_iff_not_is_continuation_byte;
    broadcast use vstd::utf8::is_char_boundary_start_end_of_seq;
    broadcast use vstd::utf8::valid_utf8_split;

    let mut rem: &str = s;
    loop
        invariant
            vstd::utf8::valid_utf8(rem.spec_bytes()),
            trim_bytes(s.spec_bytes()) == trim_bytes(rem.spec_bytes()),
        ensures
            rem.spec_bytes() == trim_bytes(s.spec_bytes()),
            vstd::utf8::valid_utf8(rem.spec_bytes()),
        decreases rem.spec_bytes().len(),
    {
        let ghost rem_bytes = rem.spec_bytes();
        let bytes = rem.as_bytes();
        let n = bytes.len();
        if n > 0 && bytes[0] == SPACE {
            proof {
                lemma_boundary_after_ascii_byte(rem_bytes);
                vstd::utf8::valid_utf8_split(rem_bytes, 1);
            }
            let (_, rest) = rem.split_at(1);
            proof {
                assert(rest.spec_bytes() =~= rem_bytes.subrange(1, n as int));
                assert(rem_bytes.subrange(1, n as int) =~= rem_bytes.drop_first());
                assert(vstd::utf8::valid_utf8(rest.spec_bytes()));
            }
            rem = rest;
        } else if n > 0 && bytes[n - 1] == SPACE {
            proof {
                assert(rem_bytes[n - 1] == SPACE);
                assert(!vstd::utf8::is_continuation_byte(rem_bytes[n - 1]));
                vstd::utf8::is_char_boundary_iff_not_is_continuation_byte(rem_bytes, n - 1);
                assert(vstd::utf8::is_char_boundary(rem_bytes, n - 1));
                vstd::utf8::valid_utf8_split(rem_bytes, n - 1);
            }
            let (rest, _) = rem.split_at(n - 1);
            proof {
                assert(rest.spec_bytes() =~= rem_bytes.subrange(0, n - 1));
                assert(rem_bytes.subrange(0, n - 1) =~= rem_bytes.drop_last());
                assert(vstd::utf8::valid_utf8(rest.spec_bytes()));
            }
            rem = rest;
        } else {
            proof {
                assert(trim_bytes(rem_bytes) == rem_bytes);
            }
            break ;
        }
    }
    rem
}

} // verus!

verus! {

/// Splits the configured store contact points: comma-separated entries,
/// trimmed of spaces, empty entries dropped.
pub fn parse_database_urls(urls: &str) -> (r: Vec<&str>)
    ensures
        r@.map_values(|p: &str| p.spec_bytes()) == split_trimmed_bytes(urls.spec_bytes()).filter(
            |p: Seq<u8>| p.len() > 0,
        ),
{
    let ghost pview = |p: &str| p.spec_bytes();
    let ghost pred = |p: Seq<u8>| p.len() > 0;
    let pieces = split_trimmed(urls);
    let ghost piece_bytes = pieces@.map_values(pview);
    let mut out: Vec<&str> = Vec::new();
    let n = pieces.len();
    let mut i: usize = 0;
    while i < n
        invariant
            n == pieces@.len(),
            piece_bytes == pieces@.map_values(pview),
            piece_bytes == split_trimmed_bytes(urls.spec_bytes()),
            i <= n,
            pview == (|p: &str| p.spec_bytes()),
            pred == (|p: Seq<u8>| p.len() > 0),
            out@.map_values(pview) == piece_bytes.take(i as int).filter(pred),
        decreases n - i,
    {
        proof {
            reveal(Seq::filter);
            assert(piece_bytes.take(i + 1).drop_last() =~= piece_bytes.take(i as int));
            assert(piece_bytes.take(i + 1).last() == piece_bytes[i as int]);
        }
        let piece = pieces[i];
        proof {
            assert(piece_bytes[i as int] == pieces@[i as int].spec_bytes());
        }
        let ghost out_pre = out@.map_values(pview);
        let piece_b = piece.as_bytes();
        if piece_b.len() > 0 {
            out.push(piece);
            proof {
                assert(out@.map_values(pview) =~= out_pre.push(piece_bytes[i as int]));
            }
        } else {
            proof {
                reveal(Seq::filter);
                assert(piece_bytes.take(i + 1).drop_last() =~= piece_bytes.take(i as int));
                assert(piece_bytes.take(i + 1).last() == piece_bytes[i as int]);
                assert(!pred(piece_bytes[i as int]));
                assert(piece_bytes.take(i + 1).filter(pred) =~= piece_bytes.take(i as int).filter(
                    pred,
                ));
            }
        }
        i += 1;
    }
    proof {
        assert(piece_bytes.take(n as int) =~= piece_bytes);
    }
    out
}

} // verus!
